//! The outline extractor: builds a binary occupancy matrix from an
//! image's alpha channel, hands it to a boundary-tracing collaborator,
//! and interprets the returned path commands into directed segments.
//!
//! The tracing algorithm itself is outside this library: any type
//! implementing [`Tracer`] supplies it.  The interpreter accepts the
//! four command primitives the collaborator is specified to emit and
//! rejects a path that leaves the cell region, so every interpreted
//! coordinate is an exact integer within the cell.

use crate::geom::{line_bits_of, Line, PxLine, PxPoint};
use crate::grid::Cell;
use vstd::prelude::*;

verus! {

/// An RGBA pixel buffer: `width * height` pixels, row-major, four
/// bytes per pixel, alpha last.
pub struct RgbaBuffer {
    pub width: u32,
    pub height: u32,
    pub data: Vec<u8>,
}

impl RgbaBuffer {
    /// The buffer holds exactly four bytes per pixel.
    pub open spec fn wf(&self) -> bool {
        self.data@.len() == 4 * self.width * self.height
    }

    /// The alpha channel of pixel `(x, y)`.
    pub open spec fn alpha(&self, x: int, y: int) -> u8 {
        self.data@[4 * (y * self.width + x) + 3]
    }
}

/// A binary occupancy matrix over one rectangular region of an image:
/// a bit per pixel, row-major, true for a visible pixel.
pub struct Mask {
    pub width: u32,
    pub height: u32,
    pub bits: Vec<bool>,
}

impl Mask {
    /// The matrix holds exactly a bit per pixel of the region.
    pub open spec fn wf(&self) -> bool {
        self.bits@.len() == self.width * self.height
    }

    /// Whether pixel `(x, y)` of the region is occupied.
    pub open spec fn occupied(&self, x: int, y: int) -> bool {
        self.bits@[y * self.width + x]
    }

    /// Reads one bit of the matrix.
    pub fn get(&self, x: u32, y: u32) -> (b: bool)
        requires
            self.wf(),
            x < self.width,
            y < self.height,
        ensures
            b == self.occupied(x as int, y as int),
    {
        // Binds the length so the index computation is known to fit.
        let _total: usize = self.bits.len();
        proof {
            assert((y as int) * (self.width as int) + (x as int) < self.bits@.len())
                by (nonlinear_arith)
                requires
                    x < self.width,
                    y < self.height,
                    self.bits@.len() == self.width * self.height,
            ;
        }
        let idx: usize = (y as usize) * (self.width as usize) + (x as usize);
        self.bits[idx]
    }
}

/// The alpha channel of pixel `(x, y)` of `img`.
fn alpha_at(img: &RgbaBuffer, x: u32, y: u32) -> (a: u8)
    requires
        img.wf(),
        x < img.width,
        y < img.height,
    ensures
        a == img.alpha(x as int, y as int),
{
    // Binds the length so the index computation is known to fit.
    let _total: usize = img.data.len();
    proof {
        assert(4 * ((y as int) * (img.width as int) + (x as int)) + 3 < img.data@.len())
            by (nonlinear_arith)
            requires
                x < img.width,
                y < img.height,
                img.data@.len() == 4 * img.width * img.height,
        ;
    }
    let idx: usize = 4 * ((y as usize) * (img.width as usize) + (x as usize)) + 3;
    img.data[idx]
}

/// Builds the occupancy matrix of the region `[x0, y0, w, h)` of
/// `img`: a pixel is occupied exactly when its alpha channel is
/// non-zero.
pub fn occupancy(img: &RgbaBuffer, x0: u32, y0: u32, w: u32, h: u32) -> (r: Mask)
    requires
        img.wf(),
        x0 + w <= img.width,
        y0 + h <= img.height,
    ensures
        r.wf(),
        r.width == w,
        r.height == h,
        forall|x: int, y: int|
            0 <= x < w && 0 <= y < h ==> (#[trigger] r.occupied(x, y) <==> img.alpha(
                x0 + x,
                y0 + y,
            ) != 0),
{
    let mut bits: Vec<bool> = Vec::new();
    let mut ry: u32 = 0;
    while ry < h
        invariant
            ry <= h,
            img.wf(),
            x0 + w <= img.width,
            y0 + h <= img.height,
            bits@.len() == ry * w,
            forall|x: int, y: int|
                0 <= x < w && 0 <= y < ry ==> (#[trigger] bits@[y * w + x] <==> img.alpha(
                    x0 + x,
                    y0 + y,
                ) != 0),
        decreases h - ry,
    {
        let mut rx: u32 = 0;
        while rx < w
            invariant
                rx <= w,
                ry < h,
                img.wf(),
                x0 + w <= img.width,
                y0 + h <= img.height,
                bits@.len() == ry * w + rx,
                forall|x: int, y: int|
                    0 <= x < w && 0 <= y < ry ==> (#[trigger] bits@[y * w + x] <==> img.alpha(
                        x0 + x,
                        y0 + y,
                    ) != 0),
                forall|x: int|
                    0 <= x < rx ==> (#[trigger] bits@[ry * w + x] <==> img.alpha(
                        x0 + x,
                        y0 + ry,
                    ) != 0),
            decreases w - rx,
        {
            let a = alpha_at(img, x0 + rx, y0 + ry);
            let ghost prev = bits@;
            bits.push(a != 0);
            rx = rx + 1;
            proof {
                assert forall|x: int| 0 <= x < rx implies (#[trigger] bits@[ry * w + x]
                    <==> img.alpha(x0 + x, y0 + ry) != 0) by {
                    if x < rx - 1 {
                        assert(0 <= ry * w + x < prev.len()) by (nonlinear_arith)
                            requires
                                0 <= x < rx - 1,
                                prev.len() == ry * w + rx - 1,
                                0 <= ry,
                                0 <= w,
                        ;
                        assert(bits@[ry * w + x] == prev[ry * w + x]);
                    } else {
                        assert(ry * w + x == prev.len());
                    }
                };
                assert forall|x: int, y: int| 0 <= x < w && 0 <= y < ry implies (#[trigger] bits@[y
                    * w + x] <==> img.alpha(x0 + x, y0 + y) != 0) by {
                    assert(0 <= y * w + x < prev.len()) by (nonlinear_arith)
                        requires
                            0 <= x < w,
                            0 <= y < ry,
                            prev.len() == ry * w + rx - 1,
                            1 <= rx,
                    ;
                    assert(bits@[y * w + x] == prev[y * w + x]);
                };
            }
        }
        ry = ry + 1;
        proof {
            assert(bits@.len() == ry * w) by (nonlinear_arith)
                requires
                    bits@.len() == (ry - 1) * w + w,
            ;
            assert forall|x: int, y: int| 0 <= x < w && 0 <= y < ry implies (#[trigger] bits@[y
                * w + x] <==> img.alpha(x0 + x, y0 + y) != 0) by {
                if y == ry - 1 {
                    assert(y * w + x == (ry - 1) * w + x);
                    assert(bits@[(ry - 1) * w + x] <==> img.alpha(x0 + x, y0 + (ry - 1)) != 0);
                }
            };
        }
    }
    let r = Mask { width: w, height: h, bits };
    proof {
        assert(r.bits@.len() == w * h) by (nonlinear_arith)
            requires
                r.bits@.len() == h * w,
        ;
        assert(forall|x: int, y: int|
            0 <= x < w && 0 <= y < h ==> (#[trigger] r.occupied(x, y) <==> img.alpha(
                x0 + x,
                y0 + y,
            ) != 0));
    }
    r
}

/// One instruction of a traced boundary path, as the collaborator
/// emits it: an absolute move, an axis-aligned relative line, or a
/// close back to the last move.
#[derive(Clone, Copy, PartialEq, Eq, Structural, Debug)]
pub enum PathCommand {
    MoveTo { x: u32, y: u32 },
    HLineTo { dx: i32 },
    VLineTo { dy: i32 },
    ClosePath,
}

/// The boundary-tracing collaborator: turns an occupancy matrix into
/// the path commands describing the boundaries of its occupied
/// regions.  The library states nothing of the result; whatever comes
/// back is interpreted and validated by [`interpret`].
pub trait Tracer {
    fn trace(&mut self, mask: &Mask) -> Vec<PathCommand>;
}

/// The pixel point at integer coordinates `(x, y)`.
pub open spec fn px(x: int, y: int) -> PxPoint {
    PxPoint { x: x as u32, y: y as u32 }
}

/// Interprets a command sequence from cursor `(cx, cy)` and last-move
/// position `(lx, ly)`, inside the region `[0, w] x [0, h]`: `None`
/// when the path leaves the region, else the emitted segments.
pub open spec fn interp_from(
    cmds: Seq<PathCommand>,
    cx: int,
    cy: int,
    lx: int,
    ly: int,
    w: int,
    h: int,
) -> Option<Seq<PxLine>>
    decreases cmds.len(),
{
    if cmds.len() == 0 {
        Some(Seq::empty())
    } else {
        match cmds[0] {
            PathCommand::MoveTo { x, y } => {
                if x <= w && y <= h {
                    interp_from(cmds.drop_first(), x as int, y as int, x as int, y as int, w, h)
                } else {
                    None
                }
            },
            PathCommand::HLineTo { dx } => {
                let nx = cx + dx;
                if 0 <= nx <= w {
                    match interp_from(cmds.drop_first(), nx, cy, lx, ly, w, h) {
                        Some(t) => Some(seq![PxLine { start: px(cx, cy), end: px(nx, cy) }] + t),
                        None => None,
                    }
                } else {
                    None
                }
            },
            PathCommand::VLineTo { dy } => {
                let ny = cy + dy;
                if 0 <= ny <= h {
                    match interp_from(cmds.drop_first(), cx, ny, lx, ly, w, h) {
                        Some(t) => Some(seq![PxLine { start: px(cx, cy), end: px(cx, ny) }] + t),
                        None => None,
                    }
                } else {
                    None
                }
            },
            PathCommand::ClosePath => {
                match interp_from(cmds.drop_first(), lx, ly, lx, ly, w, h) {
                    Some(t) => Some(seq![PxLine { start: px(cx, cy), end: px(lx, ly) }] + t),
                    None => None,
                }
            },
        }
    }
}

/// Interprets a whole command sequence for a cell of extent
/// `[0, w] x [0, h]`, cursor and last-move position starting at the
/// origin.
pub open spec fn interp_cmds(cmds: Seq<PathCommand>, w: int, h: int) -> Option<Seq<PxLine>> {
    interp_from(cmds, 0, 0, 0, 0, w, h)
}

/// Interprets the collaborator's path commands into directed segments.
/// Returns `None` exactly when a move or line command leaves the
/// region `[0, width] x [0, height]`; such a path is a collaborator
/// fault, not a valid outline.
pub fn interpret(cmds: &Vec<PathCommand>, width: u32, height: u32) -> (r: Option<Vec<PxLine>>)
    ensures
        r is Some <==> interp_cmds(cmds@, width as int, height as int) is Some,
        r matches Some(ls) ==> interp_cmds(cmds@, width as int, height as int) == Some(ls@),
{
    let mut out: Vec<PxLine> = Vec::new();
    let mut cx: u32 = 0;
    let mut cy: u32 = 0;
    let mut lx: u32 = 0;
    let mut ly: u32 = 0;
    let mut idx: usize = 0;
    let ghost goal = interp_cmds(cmds@, width as int, height as int);
    proof {
        assert(cmds@.skip(0) =~= cmds@);
    }
    while idx < cmds.len()
        invariant
            idx <= cmds@.len(),
            cx <= width,
            cy <= height,
            lx <= width,
            ly <= height,
            goal == interp_cmds(cmds@, width as int, height as int),
            goal is Some <==> interp_from(
                cmds@.skip(idx as int),
                cx as int,
                cy as int,
                lx as int,
                ly as int,
                width as int,
                height as int,
            ) is Some,
            interp_from(
                cmds@.skip(idx as int),
                cx as int,
                cy as int,
                lx as int,
                ly as int,
                width as int,
                height as int,
            ) is Some ==> goal.unwrap() == out@ + interp_from(
                cmds@.skip(idx as int),
                cx as int,
                cy as int,
                lx as int,
                ly as int,
                width as int,
                height as int,
            ).unwrap(),
        decreases cmds@.len() - idx,
    {
        let ghost rem = interp_from(
            cmds@.skip(idx as int),
            cx as int,
            cy as int,
            lx as int,
            ly as int,
            width as int,
            height as int,
        );
        proof {
            assert(cmds@.skip(idx as int)[0] == cmds@[idx as int]);
            assert(cmds@.skip(idx as int).drop_first() =~= cmds@.skip(idx as int + 1));
        }
        let cmd = cmds[idx];
        match cmd {
            PathCommand::MoveTo { x, y } => {
                if x <= width && y <= height {
                    cx = x;
                    cy = y;
                    lx = x;
                    ly = y;
                } else {
                    return None;
                }
            },
            PathCommand::HLineTo { dx } => {
                let nx: i64 = cx as i64 + dx as i64;
                if 0 <= nx && nx <= width as i64 {
                    let seg = PxLine {
                        start: PxPoint { x: cx, y: cy },
                        end: PxPoint { x: nx as u32, y: cy },
                    };
                    proof {
                        if goal is Some {
                            assert(out@ + (seq![seg]
                                + interp_from(
                                cmds@.skip(idx as int + 1),
                                nx as int,
                                cy as int,
                                lx as int,
                                ly as int,
                                width as int,
                                height as int,
                            ).unwrap()) =~= out@.push(seg) + interp_from(
                                cmds@.skip(idx as int + 1),
                                nx as int,
                                cy as int,
                                lx as int,
                                ly as int,
                                width as int,
                                height as int,
                            ).unwrap());
                        }
                    }
                    out.push(seg);
                    cx = nx as u32;
                } else {
                    return None;
                }
            },
            PathCommand::VLineTo { dy } => {
                let ny: i64 = cy as i64 + dy as i64;
                if 0 <= ny && ny <= height as i64 {
                    let seg = PxLine {
                        start: PxPoint { x: cx, y: cy },
                        end: PxPoint { x: cx, y: ny as u32 },
                    };
                    proof {
                        if goal is Some {
                            assert(out@ + (seq![seg]
                                + interp_from(
                                cmds@.skip(idx as int + 1),
                                cx as int,
                                ny as int,
                                lx as int,
                                ly as int,
                                width as int,
                                height as int,
                            ).unwrap()) =~= out@.push(seg) + interp_from(
                                cmds@.skip(idx as int + 1),
                                cx as int,
                                ny as int,
                                lx as int,
                                ly as int,
                                width as int,
                                height as int,
                            ).unwrap());
                        }
                    }
                    out.push(seg);
                    cy = ny as u32;
                } else {
                    return None;
                }
            },
            PathCommand::ClosePath => {
                let seg = PxLine {
                    start: PxPoint { x: cx, y: cy },
                    end: PxPoint { x: lx, y: ly },
                };
                proof {
                    if goal is Some {
                        assert(out@ + (seq![seg]
                            + interp_from(
                            cmds@.skip(idx as int + 1),
                            lx as int,
                            ly as int,
                            lx as int,
                            ly as int,
                            width as int,
                            height as int,
                        ).unwrap()) =~= out@.push(seg) + interp_from(
                            cmds@.skip(idx as int + 1),
                            lx as int,
                            ly as int,
                            lx as int,
                            ly as int,
                            width as int,
                            height as int,
                        ).unwrap());
                    }
                }
                out.push(seg);
                cx = lx;
                cy = ly;
            },
        }
        idx = idx + 1;
    }
    proof {
        assert(cmds@.skip(cmds@.len() as int) =~= Seq::<PathCommand>::empty());
        assert(out@ + Seq::<PxLine>::empty() =~= out@);
    }
    Some(out)
}

/// The stored form of a sequence of exact pixel segments.
pub open spec fn cell_of_px(ls: Seq<PxLine>) -> Seq<Line> {
    ls.map_values(|l: PxLine| line_bits_of(l))
}

/// Converts interpreted pixel segments into a storable cell.
pub fn cell_from_px(ls: &Vec<PxLine>) -> (r: Cell)
    ensures
        r@ == cell_of_px(ls@),
{
    let mut lines: Vec<Line> = Vec::new();
    let mut i: usize = 0;
    while i < ls.len()
        invariant
            i <= ls@.len(),
            lines@ == cell_of_px(ls@.take(i as int)),
        decreases ls@.len() - i,
    {
        lines.push(Line::from_px(ls[i]));
        i = i + 1;
        proof {
            assert(lines@ =~= cell_of_px(ls@.take(i as int)));
        }
    }
    proof {
        assert(ls@.take(ls@.len() as int) =~= ls@);
    }
    Cell { lines }
}

/// A line sequence that some in-bounds command sequence interprets to,
/// for a cell of extent `[0, w] x [0, h]`.
pub open spec fn trace_ok(c: Seq<Line>, w: u32, h: u32) -> bool {
    exists|cmds: Seq<PathCommand>|
        {
            &&& (#[trigger] interp_cmds(cmds, w as int, h as int)) is Some
            &&& c == cell_of_px(interp_cmds(cmds, w as int, h as int).unwrap())
        }
}

/// Extracts the outline of one cell: asks the collaborator for the
/// boundary path of `mask` and interprets it.  `None` exactly when the
/// collaborator's path left the cell region.
pub fn extract_outline<T: Tracer>(mask: &Mask, tracer: &mut T) -> (r: Option<Cell>)
    ensures
        r matches Some(c) ==> trace_ok(c@, mask.width, mask.height),
{
    let cmds = tracer.trace(mask);
    match interpret(&cmds, mask.width, mask.height) {
        Some(ls) => {
            let c = cell_from_px(&ls);
            proof {
                assert(interp_cmds(cmds@, mask.width as int, mask.height as int) is Some && c@
                    == cell_of_px(
                    interp_cmds(cmds@, mask.width as int, mask.height as int).unwrap(),
                ));
            }
            Some(c)
        },
        None => None,
    }
}

/// Law, in the part the library can state: a collaborator that
/// reports no boundary yields zero segments, whatever the cell
/// extent.  That an all-empty occupancy matrix makes the collaborator
/// report no boundary is the collaborator's own contract.
pub proof fn lemma_empty_path_no_lines(w: u32, h: u32)
    ensures
        interp_cmds(Seq::<PathCommand>::empty(), w as int, h as int) == Some(
            Seq::<PxLine>::empty(),
        ),
{
}

/// The sum of the segments' horizontal deltas, start to end.
pub open spec fn delta_x_sum(ls: Seq<PxLine>) -> int
    decreases ls.len(),
{
    if ls.len() == 0 {
        0
    } else {
        (ls[0].end.x - ls[0].start.x) + delta_x_sum(ls.drop_first())
    }
}

/// The sum of the segments' vertical deltas, start to end.
pub open spec fn delta_y_sum(ls: Seq<PxLine>) -> int
    decreases ls.len(),
{
    if ls.len() == 0 {
        0
    } else {
        (ls[0].end.y - ls[0].start.y) + delta_y_sum(ls.drop_first())
    }
}

/// A command that only draws: an axis-aligned relative line.
pub open spec fn is_draw_cmd(c: PathCommand) -> bool {
    c is HLineTo || c is VLineTo
}

/// The segments of a loop body followed by its close sum to the
/// distance from the cursor back to the last-move position.
proof fn lemma_body_sum(
    body: Seq<PathCommand>,
    cx: int,
    cy: int,
    lx: int,
    ly: int,
    w: int,
    h: int,
)
    requires
        forall|j: int| 0 <= j < body.len() ==> is_draw_cmd(#[trigger] body[j]),
        0 <= cx <= w,
        0 <= cy <= h,
        0 <= lx <= w,
        0 <= ly <= h,
        w <= u32::MAX,
        h <= u32::MAX,
        interp_from(body + seq![PathCommand::ClosePath], cx, cy, lx, ly, w, h) is Some,
    ensures
        ({
            let ls = interp_from(body + seq![PathCommand::ClosePath], cx, cy, lx, ly, w, h).unwrap();
            &&& ls.len() == body.len() + 1
            &&& delta_x_sum(ls) == lx - cx
            &&& delta_y_sum(ls) == ly - cy
        }),
    decreases body.len(),
{
    let full = body + seq![PathCommand::ClosePath];
    let ls = interp_from(full, cx, cy, lx, ly, w, h).unwrap();
    if body.len() == 0 {
        assert(full[0] == PathCommand::ClosePath);
        assert(full.drop_first() =~= Seq::<PathCommand>::empty());
        assert(interp_from(full.drop_first(), lx, ly, lx, ly, w, h) == Some(
            Seq::<PxLine>::empty(),
        ));
        assert(ls =~= seq![PxLine { start: px(cx, cy), end: px(lx, ly) }]);
        assert(ls.drop_first() =~= Seq::<PxLine>::empty());
        assert(delta_x_sum(ls.drop_first()) == 0);
        assert(delta_y_sum(ls.drop_first()) == 0);
        assert(ls[0].start.x == cx && ls[0].start.y == cy && ls[0].end.x == lx && ls[0].end.y
            == ly);
        assert(delta_x_sum(ls) == lx - cx);
        assert(delta_y_sum(ls) == ly - cy);
    } else {
        assert(full[0] == body[0]);
        assert(full.drop_first() =~= body.drop_first() + seq![PathCommand::ClosePath]);
        assert(is_draw_cmd(body[0]));
        assert(forall|j: int|
            0 <= j < body.drop_first().len() ==> is_draw_cmd(#[trigger] body.drop_first()[j]))
            by {
            assert(forall|j: int|
                0 <= j < body.drop_first().len() ==> body.drop_first()[j] == body[j + 1]);
        };
        match body[0] {
            PathCommand::HLineTo { dx } => {
                let nx = cx + dx;
                lemma_body_sum(body.drop_first(), nx, cy, lx, ly, w, h);
                let t = interp_from(
                    body.drop_first() + seq![PathCommand::ClosePath],
                    nx,
                    cy,
                    lx,
                    ly,
                    w,
                    h,
                ).unwrap();
                assert(ls == seq![PxLine { start: px(cx, cy), end: px(nx, cy) }] + t);
                assert(ls.drop_first() =~= t);
                assert(0 <= nx <= w);
                assert(ls[0].start.x == cx && ls[0].start.y == cy && ls[0].end.x == nx && ls[0].end.y == cy);
                assert(delta_x_sum(ls) == (nx - cx) + delta_x_sum(t));
                assert(delta_y_sum(ls) == delta_y_sum(t));
            },
            PathCommand::VLineTo { dy } => {
                let ny = cy + dy;
                lemma_body_sum(body.drop_first(), cx, ny, lx, ly, w, h);
                let t = interp_from(
                    body.drop_first() + seq![PathCommand::ClosePath],
                    cx,
                    ny,
                    lx,
                    ly,
                    w,
                    h,
                ).unwrap();
                assert(ls == seq![PxLine { start: px(cx, cy), end: px(cx, ny) }] + t);
                assert(ls.drop_first() =~= t);
                assert(0 <= ny <= h);
                assert(ls[0].start.x == cx && ls[0].start.y == cy && ls[0].end.x == cx && ls[0].end.y == ny);
                assert(delta_x_sum(ls) == delta_x_sum(t));
                assert(delta_y_sum(ls) == (ny - cy) + delta_y_sum(t));
            },
            _ => {
                assert(false);
            },
        }
    }
}

/// Law: every traced loop is closed.  A path of one absolute move, any
/// run of axis-aligned line commands, and one close interprets, when
/// it stays inside the cell, to segments whose start-to-end deltas sum
/// to the zero vector -- the loop returns to its starting point.
pub proof fn lemma_loop_closed(body: Seq<PathCommand>, x: u32, y: u32, w: u32, h: u32)
    requires
        forall|j: int| 0 <= j < body.len() ==> is_draw_cmd(#[trigger] body[j]),
        interp_cmds(
            seq![PathCommand::MoveTo { x, y }] + body + seq![PathCommand::ClosePath],
            w as int,
            h as int,
        ) is Some,
    ensures
        ({
            let ls = interp_cmds(
                seq![PathCommand::MoveTo { x, y }] + body + seq![PathCommand::ClosePath],
                w as int,
                h as int,
            ).unwrap();
            &&& ls.len() == body.len() + 1
            &&& delta_x_sum(ls) == 0
            &&& delta_y_sum(ls) == 0
        }),
{
    let full = seq![PathCommand::MoveTo { x, y }] + body + seq![PathCommand::ClosePath];
    assert(full[0] == PathCommand::MoveTo { x, y });
    assert(full.drop_first() =~= body + seq![PathCommand::ClosePath]);
    assert(x <= w && y <= h);
    lemma_body_sum(body, x as int, y as int, x as int, y as int, w as int, h as int);
}

} // verus!
