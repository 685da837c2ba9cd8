//! The SHDW codec: serialises a grid to the packed little-endian byte
//! layout `"SHDW" | cell_count | cell_width | cell_height | cells`,
//! each cell being `line_count` followed by four stored coordinates
//! per line, and reads the same layout back.
//!
//! Decoding works on an in-memory byte slice; reading the stream and
//! surfacing I/O failures is the caller's part.  A record is checked
//! against the bytes actually remaining before anything is allocated
//! for it, so a corrupt count field cannot demand more memory than the
//! stream's own length justifies.

use crate::geom::{Line, Point};
use crate::grid::{Cell, Shdw, ShdwView};
use vstd::prelude::*;
use vstd::seq_lib::lemma_concat_associative;

verus! {

/// Why a decode failed.
#[derive(Clone, Copy, PartialEq, Eq, Structural, Debug)]
pub enum ShdwError {
    /// The stream does not begin with the `SHDW` magic.
    WrongMagic,
    /// The stream ended before a field or record was complete.
    Truncated,
}

/// The four magic bytes `SHDW`.
pub open spec fn magic() -> Seq<u8> {
    seq![0x53u8, 0x48u8, 0x44u8, 0x57u8]
}

/// The little-endian bytes of `v`.
pub open spec fn le32(v: u32) -> Seq<u8> {
    seq![
        (v % 0x100) as u8,
        ((v / 0x100) % 0x100) as u8,
        ((v / 0x10000) % 0x100) as u8,
        ((v / 0x1000000) % 0x100) as u8,
    ]
}

/// The value of four little-endian bytes.
pub open spec fn le32_val(b0: u8, b1: u8, b2: u8, b3: u8) -> u32 {
    (b0 + b1 * 0x100 + b2 * 0x10000 + b3 * 0x1000000) as u32
}

/// The value of the four little-endian bytes of `b` at `i`.
pub open spec fn le32_at(b: Seq<u8>, i: int) -> u32 {
    le32_val(b[i], b[i + 1], b[i + 2], b[i + 3])
}

/// Reading the little-endian bytes of `v` yields `v` back.
pub proof fn lemma_le32_val(v: u32)
    ensures
        le32_val(
            (v % 0x100) as u8,
            ((v / 0x100) % 0x100) as u8,
            ((v / 0x10000) % 0x100) as u8,
            ((v / 0x1000000) % 0x100) as u8,
        ) == v,
{
    assert(((v % 0x100) as u8) + (((v / 0x100) % 0x100) as u8) * 0x100 + (((v / 0x10000)
        % 0x100) as u8) * 0x10000 + (((v / 0x1000000) % 0x100) as u8) * 0x1000000 == v)
        by (bit_vector);
}

/// The encoded bytes of one line: start and end coordinates.
pub open spec fn enc_line(l: Line) -> Seq<u8> {
    le32(l.start.x) + le32(l.start.y) + le32(l.end.x) + le32(l.end.y)
}

/// The encoded bytes of a sequence of lines.
pub open spec fn enc_lines(ls: Seq<Line>) -> Seq<u8>
    decreases ls.len(),
{
    if ls.len() == 0 {
        Seq::empty()
    } else {
        enc_line(ls[0]) + enc_lines(ls.drop_first())
    }
}

/// The encoded bytes of one cell: its line count, then its lines.
pub open spec fn enc_cell(c: Seq<Line>) -> Seq<u8> {
    le32(c.len() as u32) + enc_lines(c)
}

/// The encoded bytes of a sequence of cells.
pub open spec fn enc_cells(cs: Seq<Seq<Line>>) -> Seq<u8>
    decreases cs.len(),
{
    if cs.len() == 0 {
        Seq::empty()
    } else {
        enc_cell(cs[0]) + enc_cells(cs.drop_first())
    }
}

/// The full encoded stream of a grid.
pub open spec fn spec_encode(v: ShdwView) -> Seq<u8> {
    magic() + le32(v.cells.len() as u32) + le32(v.cell_width) + le32(v.cell_height) + enc_cells(
        v.cells,
    )
}

/// A grid whose counts fit the format's 32-bit fields.
pub open spec fn encodable(v: ShdwView) -> bool {
    &&& v.cells.len() <= u32::MAX
    &&& forall|i: int| 0 <= i < v.cells.len() ==> (#[trigger] v.cells[i]).len() <= u32::MAX
}

/// Decodes `m` lines of `b` starting at `i`: the lines and the
/// position after them, or `None` when the bytes run out.
pub open spec fn dec_lines(b: Seq<u8>, i: int, m: nat) -> Option<(Seq<Line>, int)>
    decreases m,
{
    if m == 0 {
        Some((Seq::empty(), i))
    } else if i + 16 > b.len() {
        None
    } else {
        let l = Line {
            start: Point { x: le32_at(b, i), y: le32_at(b, i + 4) },
            end: Point { x: le32_at(b, i + 8), y: le32_at(b, i + 12) },
        };
        match dec_lines(b, i + 16, (m - 1) as nat) {
            Some((ls, j)) => Some((seq![l] + ls, j)),
            None => None,
        }
    }
}

/// Decodes `n` cells of `b` starting at `i`.
pub open spec fn dec_cells(b: Seq<u8>, i: int, n: nat) -> Option<(Seq<Seq<Line>>, int)>
    decreases n,
{
    if n == 0 {
        Some((Seq::empty(), i))
    } else if i + 4 > b.len() {
        None
    } else {
        let m = le32_at(b, i);
        match dec_lines(b, i + 4, m as nat) {
            Some((ls, j)) => match dec_cells(b, j, (n - 1) as nat) {
                Some((cs, k)) => Some((seq![ls] + cs, k)),
                None => None,
            },
            None => None,
        }
    }
}

/// The decode of a whole stream: the grid it holds, or why it is
/// rejected.  Bytes after the encoded grid are ignored, as a stream
/// reader would leave them unread.
pub open spec fn spec_read(b: Seq<u8>) -> Result<ShdwView, ShdwError> {
    if b.len() < 4 {
        Err(ShdwError::Truncated)
    } else if b.subrange(0, 4) != magic() {
        Err(ShdwError::WrongMagic)
    } else if b.len() < 16 {
        Err(ShdwError::Truncated)
    } else {
        match dec_cells(b, 16, le32_at(b, 4) as nat) {
            Some((cs, _)) => Ok(
                ShdwView { cell_width: le32_at(b, 8), cell_height: le32_at(b, 12), cells: cs },
            ),
            None => Err(ShdwError::Truncated),
        }
    }
}

/// Appends the little-endian bytes of `v`.
fn push_u32_le(out: &mut Vec<u8>, v: u32)
    ensures
        final(out)@ == old(out)@ + le32(v),
{
    out.push((v % 0x100) as u8);
    out.push(((v / 0x100) % 0x100) as u8);
    out.push(((v / 0x10000) % 0x100) as u8);
    out.push(((v / 0x1000000) % 0x100) as u8);
    proof {
        assert(out@ =~= old(out)@ + le32(v));
    }
}

/// Reads the four little-endian bytes of `b` at `i`.
fn read_u32_le(b: &[u8], i: usize) -> (r: u32)
    requires
        i + 4 <= b@.len(),
    ensures
        r == le32_at(b@, i as int),
{
    (b[i] as u32) + (b[i + 1] as u32) * 0x100 + (b[i + 2] as u32) * 0x10000 + (b[i + 3] as u32)
        * 0x1000000
}

/// `enc_lines` grows by one encoded line when one line is appended.
#[verifier::rlimit(30)]
proof fn lemma_enc_lines_snoc(ls: Seq<Line>, i: int)
    requires
        0 <= i < ls.len(),
    ensures
        enc_lines(ls.take(i + 1)) == enc_lines(ls.take(i)) + enc_line(ls[i]),
    decreases i,
{
    if i == 0 {
        assert(ls.take(1)[0] == ls[0]);
        assert(ls.take(1).drop_first() =~= Seq::<Line>::empty());
        assert(enc_lines(Seq::<Line>::empty()) =~= Seq::<u8>::empty());
        assert(enc_lines(ls.take(1)) =~= enc_line(ls[0]));
        assert(enc_lines(ls.take(0)) + enc_line(ls[0]) =~= enc_line(ls[0]));
    } else {
        lemma_enc_lines_snoc(ls.drop_first(), i - 1);
        assert(ls.take(i + 1).drop_first() =~= ls.drop_first().take(i));
        assert(ls.take(i).drop_first() =~= ls.drop_first().take(i - 1));
        assert(enc_lines(ls.take(i + 1)) == enc_line(ls[0]) + enc_lines(ls.drop_first().take(i)));
        assert(enc_lines(ls.take(i)) == enc_line(ls[0]) + enc_lines(ls.drop_first().take(i - 1)));
        assert(enc_line(ls[0]) + (enc_lines(ls.drop_first().take(i - 1)) + enc_line(ls[i])) =~= (
        enc_line(ls[0]) + enc_lines(ls.drop_first().take(i - 1))) + enc_line(ls[i]));
    }
}

/// `enc_cells` grows by one encoded cell when one cell is appended.
#[verifier::rlimit(30)]
proof fn lemma_enc_cells_snoc(cs: Seq<Seq<Line>>, i: int)
    requires
        0 <= i < cs.len(),
    ensures
        enc_cells(cs.take(i + 1)) == enc_cells(cs.take(i)) + enc_cell(cs[i]),
    decreases i,
{
    if i == 0 {
        assert(cs.take(1)[0] == cs[0]);
        assert(cs.take(1).drop_first() =~= Seq::<Seq<Line>>::empty());
        assert(enc_cells(Seq::<Seq<Line>>::empty()) =~= Seq::<u8>::empty());
        assert(enc_cells(cs.take(1)) =~= enc_cell(cs[0]));
        assert(enc_cells(cs.take(0)) + enc_cell(cs[0]) =~= enc_cell(cs[0]));
    } else {
        lemma_enc_cells_snoc(cs.drop_first(), i - 1);
        assert(cs.take(i + 1).drop_first() =~= cs.drop_first().take(i));
        assert(cs.take(i).drop_first() =~= cs.drop_first().take(i - 1));
        assert(enc_cells(cs.take(i + 1)) == enc_cell(cs[0]) + enc_cells(cs.drop_first().take(i)));
        assert(enc_cells(cs.take(i)) == enc_cell(cs[0]) + enc_cells(cs.drop_first().take(i - 1)));
        assert(enc_cell(cs[0]) + (enc_cells(cs.drop_first().take(i - 1)) + enc_cell(cs[i])) =~= (
        enc_cell(cs[0]) + enc_cells(cs.drop_first().take(i - 1))) + enc_cell(cs[i]));
    }
}

impl Shdw {
    /// Serialises the grid into the SHDW byte layout.  The counts must
    /// fit the format's 32-bit fields; the partitioner and the decoder
    /// only produce such grids.
    pub fn write(&self) -> (out: Vec<u8>)
        requires
            encodable(self@),
        ensures
            out@ == spec_encode(self@),
    {
        let mut out: Vec<u8> = Vec::new();
        out.push(0x53);
        out.push(0x48);
        out.push(0x44);
        out.push(0x57);
        proof {
            assert(out@ =~= magic());
        }
        push_u32_le(&mut out, self.cells.len() as u32);
        push_u32_le(&mut out, self.cell_width);
        push_u32_le(&mut out, self.cell_height);
        let ghost header = out@;
        proof {
            assert(enc_cells(self@.cells.take(0)) =~= Seq::<u8>::empty());
            assert(out@ =~= header + enc_cells(self@.cells.take(0)));
        }
        let mut t: usize = 0;
        while t < self.cells.len()
            invariant
                t <= self.cells@.len(),
                encodable(self@),
                self@.cells.len() == self.cells@.len(),
                out@ == header + enc_cells(self@.cells.take(t as int)),
            decreases self.cells@.len() - t,
        {
            let cell = &self.cells[t];
            proof {
                assert(self@.cells[t as int] == cell@);
            }
            push_u32_le(&mut out, cell.lines.len() as u32);
            let ghost cell_start = out@;
            proof {
                assert(enc_lines(cell@.take(0)) =~= Seq::<u8>::empty());
                assert(out@ =~= cell_start + enc_lines(cell@.take(0)));
            }
            let mut u: usize = 0;
            while u < cell.lines.len()
                invariant
                    u <= cell.lines@.len(),
                    out@ == cell_start + enc_lines(cell@.take(u as int)),
                decreases cell.lines@.len() - u,
            {
                let l = cell.lines[u];
                push_u32_le(&mut out, l.start.x);
                push_u32_le(&mut out, l.start.y);
                push_u32_le(&mut out, l.end.x);
                push_u32_le(&mut out, l.end.y);
                proof {
                    lemma_enc_lines_snoc(cell@, u as int);
                    assert(out@ =~= cell_start + enc_lines(cell@.take(u as int + 1)));
                }
                u = u + 1;
            }
            proof {
                assert(cell@.take(cell@.len() as int) =~= cell@);
                lemma_enc_cells_snoc(self@.cells, t as int);
                assert(cell_start =~= header + enc_cells(self@.cells.take(t as int)) + le32(
                    cell@.len() as u32,
                ));
                assert(out@ =~= header + enc_cells(self@.cells.take(t as int + 1)));
            }
            t = t + 1;
        }
        proof {
            assert(self@.cells.take(self@.cells.len() as int) =~= self@.cells);
            assert(out@ =~= spec_encode(self@));
        }
        out
    }
}

/// Reads `m` lines of `b` starting at `start`, or reports truncation.
fn read_lines(b: &[u8], start: usize, m: u32) -> (r: Result<(Vec<Line>, usize), ShdwError>)
    requires
        start <= b@.len(),
    ensures
        r matches Ok(p) ==> {
            &&& dec_lines(b@, start as int, m as nat) == Some((p.0@, p.1 as int))
            &&& start <= p.1 <= b@.len()
        },
        r is Err ==> r == Err::<(Vec<Line>, usize), ShdwError>(ShdwError::Truncated) && dec_lines(
            b@,
            start as int,
            m as nat,
        ) is None,
{
    let n: usize = b.len();
    let mut lines: Vec<Line> = Vec::new();
    let mut i: usize = start;
    let mut u: u32 = 0;
    while u < m
        invariant
            start <= i <= n,
            n == b@.len(),
            u <= m,
            lines@.len() == u,
            dec_lines(b@, start as int, m as nat) == (match dec_lines(
                b@,
                i as int,
                (m - u) as nat,
            ) {
                Some((ls, j)) => Some((lines@ + ls, j)),
                None => None::<(Seq<Line>, int)>,
            }),
        decreases m - u,
    {
        if n - i < 16 {
            return Err(ShdwError::Truncated);
        }
        let sx = read_u32_le(b, i);
        let sy = read_u32_le(b, i + 4);
        let ex = read_u32_le(b, i + 8);
        let ey = read_u32_le(b, i + 12);
        let l = Line { start: Point { x: sx, y: sy }, end: Point { x: ex, y: ey } };
        let ghost prev = lines@;
        lines.push(l);
        proof {
            let rest = dec_lines(b@, i as int + 16, (m - u - 1) as nat);
            if rest is Some {
                assert(prev + (seq![l] + rest.unwrap().0) =~= lines@ + rest.unwrap().0);
            }
        }
        i = i + 16;
        u = u + 1;
    }
    proof {
        assert(lines@ + Seq::<Line>::empty() =~= lines@);
    }
    Ok((lines, i))
}

impl Shdw {
    /// Decodes a grid from the SHDW byte layout: rejects a stream that
    /// does not begin with the magic, and a stream that ends before a
    /// field or line record is complete; bytes after the encoded grid
    /// are ignored.  `r` is `Ok` exactly when `spec_read` accepts the
    /// bytes, and carries the grid `spec_read` yields.
    pub fn read(bytes: &[u8]) -> (r: Result<Shdw, ShdwError>)
        ensures
            r is Ok <==> spec_read(bytes@) is Ok,
            r matches Ok(s) ==> spec_read(bytes@) == Ok::<ShdwView, ShdwError>(s@),
            r matches Err(e) ==> spec_read(bytes@) == Err::<ShdwView, ShdwError>(e),
    {
        let n: usize = bytes.len();
        if n < 4 {
            return Err(ShdwError::Truncated);
        }
        if !(bytes[0] == 0x53 && bytes[1] == 0x48 && bytes[2] == 0x44 && bytes[3] == 0x57) {
            proof {
                assert(bytes@.subrange(0, 4) != magic()) by {
                    assert(bytes@.subrange(0, 4)[0] == bytes@[0]);
                    assert(bytes@.subrange(0, 4)[1] == bytes@[1]);
                    assert(bytes@.subrange(0, 4)[2] == bytes@[2]);
                    assert(bytes@.subrange(0, 4)[3] == bytes@[3]);
                };
            }
            return Err(ShdwError::WrongMagic);
        }
        proof {
            assert(bytes@.subrange(0, 4) =~= magic());
        }
        if n < 16 {
            return Err(ShdwError::Truncated);
        }
        let cell_count = read_u32_le(bytes, 4);
        let cell_width = read_u32_le(bytes, 8);
        let cell_height = read_u32_le(bytes, 12);
        let mut cells: Vec<Cell> = Vec::new();
        let mut i: usize = 16;
        let mut t: u32 = 0;
        while t < cell_count
            invariant
                16 <= i <= n,
                n == bytes@.len(),
                t <= cell_count,
                cells@.len() == t,
                bytes@.subrange(0, 4) == magic(),
                cell_count == le32_at(bytes@, 4),
                cell_width == le32_at(bytes@, 8),
                cell_height == le32_at(bytes@, 12),
                dec_cells(bytes@, 16, cell_count as nat) == (match dec_cells(
                    bytes@,
                    i as int,
                    (cell_count - t) as nat,
                ) {
                    Some((cs, k)) => Some((cells@.map_values(|c: Cell| c@) + cs, k)),
                    None => None::<(Seq<Seq<Line>>, int)>,
                }),
            decreases cell_count - t,
        {
            if n - i < 4 {
                return Err(ShdwError::Truncated);
            }
            let line_count = read_u32_le(bytes, i);
            match read_lines(bytes, i + 4, line_count) {
                Ok((lines, end)) => {
                    let ghost prev = cells@;
                    cells.push(Cell { lines });
                    proof {
                        let rest = dec_cells(bytes@, end as int, (cell_count - t - 1) as nat);
                        if rest is Some {
                            assert(prev.map_values(|c: Cell| c@) + (seq![lines@] + rest.unwrap().0)
                                =~= cells@.map_values(|c: Cell| c@) + rest.unwrap().0);
                        }
                    }
                    i = end;
                },
                Err(_) => {
                    return Err(ShdwError::Truncated);
                },
            }
            t = t + 1;
        }
        proof {
            assert(cells@.map_values(|c: Cell| c@) + Seq::<Seq<Line>>::empty() =~= cells@.map_values(
                |c: Cell| c@,
            ));
        }
        let s = Shdw { cell_width, cell_height, cells };
        proof {
            assert(spec_read(bytes@) == Ok::<ShdwView, ShdwError>(s@));
        }
        Ok(s)
    }
}

/// Four little-endian bytes standing between `pre` and `post` read
/// back as their value.
proof fn lemma_le32_at_concat(pre: Seq<u8>, v: u32, post: Seq<u8>)
    ensures
        le32_at(pre + le32(v) + post, pre.len() as int) == v,
{
    let b = pre + le32(v) + post;
    let i = pre.len() as int;
    assert((pre + le32(v))[i] == le32(v)[0]);
    assert((pre + le32(v))[i + 1] == le32(v)[1]);
    assert((pre + le32(v))[i + 2] == le32(v)[2]);
    assert((pre + le32(v))[i + 3] == le32(v)[3]);
    assert(b[i] == (pre + le32(v))[i]);
    assert(b[i + 1] == (pre + le32(v))[i + 1]);
    assert(b[i + 2] == (pre + le32(v))[i + 2]);
    assert(b[i + 3] == (pre + le32(v))[i + 3]);
    lemma_le32_val(v);
}

/// Encoded lines take sixteen bytes each.
proof fn lemma_enc_lines_len(ls: Seq<Line>)
    ensures
        enc_lines(ls).len() == 16 * ls.len(),
    decreases ls.len(),
{
    if ls.len() > 0 {
        lemma_enc_lines_len(ls.drop_first());
    }
}

/// The four coordinate fields of one encoded line, standing between
/// `pre` and `post` in a stream, read back as the line's own.
proof fn lemma_enc_line_reads(pre: Seq<u8>, l: Line, post: Seq<u8>)
    ensures
        le32_at(pre + enc_line(l) + post, pre.len() as int) == l.start.x,
        le32_at(pre + enc_line(l) + post, pre.len() + 4 as int) == l.start.y,
        le32_at(pre + enc_line(l) + post, pre.len() + 8 as int) == l.end.x,
        le32_at(pre + enc_line(l) + post, pre.len() + 12 as int) == l.end.y,
{
    let b = pre + enc_line(l) + post;
    let i = pre.len() as int;
    let wa = le32(l.start.x);
    let wb = le32(l.start.y);
    let wc = le32(l.end.x);
    let wd = le32(l.end.y);
    assert(enc_line(l) == wa + wb + wc + wd);
    assert(enc_line(l)[0] == wa[0]);
    assert(enc_line(l)[1] == wa[1]);
    assert(enc_line(l)[2] == wa[2]);
    assert(enc_line(l)[3] == wa[3]);
    assert(enc_line(l)[4] == wb[0]);
    assert(enc_line(l)[5] == wb[1]);
    assert(enc_line(l)[6] == wb[2]);
    assert(enc_line(l)[7] == wb[3]);
    assert(enc_line(l)[8] == wc[0]);
    assert(enc_line(l)[9] == wc[1]);
    assert(enc_line(l)[10] == wc[2]);
    assert(enc_line(l)[11] == wc[3]);
    assert(enc_line(l)[12] == wd[0]);
    assert(enc_line(l)[13] == wd[1]);
    assert(enc_line(l)[14] == wd[2]);
    assert(enc_line(l)[15] == wd[3]);
    assert(b[i] == enc_line(l)[0]);
    assert(b[i + 1] == enc_line(l)[1]);
    assert(b[i + 2] == enc_line(l)[2]);
    assert(b[i + 3] == enc_line(l)[3]);
    assert(b[i + 4] == enc_line(l)[4]);
    assert(b[i + 5] == enc_line(l)[5]);
    assert(b[i + 6] == enc_line(l)[6]);
    assert(b[i + 7] == enc_line(l)[7]);
    assert(b[i + 8] == enc_line(l)[8]);
    assert(b[i + 9] == enc_line(l)[9]);
    assert(b[i + 10] == enc_line(l)[10]);
    assert(b[i + 11] == enc_line(l)[11]);
    assert(b[i + 12] == enc_line(l)[12]);
    assert(b[i + 13] == enc_line(l)[13]);
    assert(b[i + 14] == enc_line(l)[14]);
    assert(b[i + 15] == enc_line(l)[15]);
    lemma_le32_val(l.start.x);
    lemma_le32_val(l.start.y);
    lemma_le32_val(l.end.x);
    lemma_le32_val(l.end.y);
}

/// Decoding the encoded bytes of `ls`, wherever they stand in a
/// stream, yields `ls` back and stops right after them.
proof fn lemma_dec_lines_of_enc(pre: Seq<u8>, ls: Seq<Line>, post: Seq<u8>)
    ensures
        dec_lines(pre + enc_lines(ls) + post, pre.len() as int, ls.len()) == Some(
            (ls, pre.len() + 16 * ls.len() as int),
        ),
    decreases ls.len(),
{
    let b = pre + enc_lines(ls) + post;
    let i = pre.len() as int;
    lemma_enc_lines_len(ls);
    if ls.len() == 0 {
        assert(enc_lines(ls) =~= Seq::<u8>::empty());
    } else {
        let l0 = ls[0];
        let rest = ls.drop_first();
        lemma_enc_lines_len(rest);
        assert(enc_lines(ls) == enc_line(l0) + enc_lines(rest));
        assert(b =~= pre + enc_line(l0) + (enc_lines(rest) + post));
        lemma_enc_line_reads(pre, l0, enc_lines(rest) + post);
        assert(le32_at(b, i) == l0.start.x);
        assert(le32_at(b, i + 4) == l0.start.y);
        assert(le32_at(b, i + 8) == l0.end.x);
        assert(le32_at(b, i + 12) == l0.end.y);
        assert(b =~= (pre + enc_line(l0)) + enc_lines(rest) + post);
        lemma_dec_lines_of_enc(pre + enc_line(l0), rest, post);
        assert(dec_lines(b, i + 16, rest.len()) == Some((rest, i + 16 + 16 * rest.len() as int)));
        assert(seq![l0] + rest =~= ls);
    }
}

/// Decoding the encoded bytes of `cs`, wherever they stand in a
/// stream, yields `cs` back and stops right after them.
#[verifier::rlimit(80)]
#[verifier::spinoff_prover]
proof fn lemma_dec_cells_of_enc(pre: Seq<u8>, cs: Seq<Seq<Line>>, post: Seq<u8>)
    requires
        forall|i: int| 0 <= i < cs.len() ==> (#[trigger] cs[i]).len() <= u32::MAX,
    ensures
        dec_cells(pre + enc_cells(cs) + post, pre.len() as int, cs.len()) == Some(
            (cs, pre.len() + enc_cells(cs).len() as int),
        ),
    decreases cs.len(),
{
    let b = pre + enc_cells(cs) + post;
    let i = pre.len() as int;
    if cs.len() == 0 {
        assert(enc_cells(cs) =~= Seq::<u8>::empty());
    } else {
        let c0 = cs[0];
        let rest = cs.drop_first();
        let m = c0.len() as u32;
        let head = le32(m);
        let body = enc_lines(c0);
        let tail = enc_cells(rest);
        lemma_enc_lines_len(c0);
        assert(enc_cells(cs) == (head + body) + tail);
        assert(m as nat == c0.len());
        // Regroup the stream around the head field, the cell's lines,
        // and the remaining cells, by concatenation associativity.
        lemma_concat_associative(pre, head + body, tail);
        lemma_concat_associative(pre + (head + body), tail, post);
        lemma_concat_associative(pre, head, body);
        lemma_concat_associative(pre + head, body, tail + post);
        assert(b == (pre + head) + (body + (tail + post)));
        lemma_le32_at_concat(pre, m, body + (tail + post));
        assert(le32_at(b, i) == m);
        assert(b == ((pre + head) + body) + (tail + post));
        lemma_dec_lines_of_enc(pre + head, c0, tail + post);
        let j = i + 4 + 16 * c0.len();
        assert(dec_lines(b, i + 4, m as nat) == Some((c0, j)));
        assert(forall|q: int| 0 <= q < rest.len() ==> (#[trigger] rest[q]).len() <= u32::MAX) by {
            assert(forall|q: int| 0 <= q < rest.len() ==> rest[q] == cs[q + 1]);
        };
        lemma_concat_associative(pre, enc_cell(c0), tail);
        lemma_concat_associative(pre + enc_cell(c0), tail, post);
        assert(b == (pre + enc_cell(c0)) + tail + post);
        lemma_dec_cells_of_enc(pre + enc_cell(c0), rest, post);
        assert(dec_cells(b, j, rest.len()) == Some((rest, j + enc_cells(rest).len() as int)));
        assert(seq![c0] + rest =~= cs);
        assert(j + enc_cells(rest).len() == i + enc_cells(cs).len());
    }
}

/// What the encoded stream of an encodable grid holds at each place:
/// the magic, the three header fields, and cells that decode back to
/// the grid's own, ending exactly at the stream's end.
#[verifier::rlimit(80)]
proof fn lemma_spec_encode_facts(v: ShdwView)
    requires
        encodable(v),
    ensures
        spec_encode(v).len() == 16 + enc_cells(v.cells).len(),
        spec_encode(v).subrange(0, 4) == magic(),
        le32_at(spec_encode(v), 4) == v.cells.len() as u32,
        le32_at(spec_encode(v), 8) == v.cell_width,
        le32_at(spec_encode(v), 12) == v.cell_height,
        dec_cells(spec_encode(v), 16, v.cells.len()) == Some(
            (v.cells, spec_encode(v).len() as int),
        ),
{
    let b = spec_encode(v);
    let n = v.cells.len() as u32;
    assert(b.subrange(0, 4) =~= magic()) by {
        assert((magic() + le32(n))[0] == magic()[0]);
        assert((magic() + le32(n))[1] == magic()[1]);
        assert((magic() + le32(n))[2] == magic()[2]);
        assert((magic() + le32(n))[3] == magic()[3]);
    };
    assert(b =~= magic() + le32(n) + (le32(v.cell_width) + le32(v.cell_height) + enc_cells(
        v.cells,
    )));
    lemma_le32_at_concat(
        magic(),
        n,
        le32(v.cell_width) + le32(v.cell_height) + enc_cells(v.cells),
    );
    assert(b =~= (magic() + le32(n)) + le32(v.cell_width) + (le32(v.cell_height) + enc_cells(
        v.cells,
    )));
    lemma_le32_at_concat(
        magic() + le32(n),
        v.cell_width,
        le32(v.cell_height) + enc_cells(v.cells),
    );
    assert(b =~= (magic() + le32(n) + le32(v.cell_width)) + le32(v.cell_height) + enc_cells(
        v.cells,
    ));
    lemma_le32_at_concat(
        magic() + le32(n) + le32(v.cell_width),
        v.cell_height,
        enc_cells(v.cells),
    );
    assert(b =~= (magic() + le32(n) + le32(v.cell_width) + le32(v.cell_height)) + enc_cells(
        v.cells,
    ) + Seq::<u8>::empty());
    lemma_dec_cells_of_enc(
        magic() + le32(n) + le32(v.cell_width) + le32(v.cell_height),
        v.cells,
        Seq::<u8>::empty(),
    );
    assert(n as nat == v.cells.len());
}

/// Law: the codec round-trips.  Decoding the encoded stream of any
/// grid whose counts fit the format yields exactly that grid, bit for
/// bit.
pub proof fn lemma_round_trip(v: ShdwView)
    requires
        encodable(v),
    ensures
        spec_read(spec_encode(v)) == Ok::<ShdwView, ShdwError>(v),
{
    lemma_spec_encode_facts(v);
    assert((v.cells.len() as u32) as nat == v.cells.len());
    assert(spec_read(spec_encode(v)) == Ok::<ShdwView, ShdwError>(v));
}

/// Law: a stream that does not begin with the four magic bytes is
/// rejected with a format mismatch, whatever follows.
pub proof fn lemma_read_rejects_wrong_magic(b: Seq<u8>)
    requires
        b.len() >= 4,
        b.subrange(0, 4) != magic(),
    ensures
        spec_read(b) == Err::<ShdwView, ShdwError>(ShdwError::WrongMagic),
{
}

/// A successful line decode ends exactly sixteen bytes per line after
/// its start.
proof fn lemma_dec_lines_end(b: Seq<u8>, i: int, m: nat)
    requires
        dec_lines(b, i, m) is Some,
    ensures
        dec_lines(b, i, m).unwrap().1 == i + 16 * m,
    decreases m,
{
    if m > 0 {
        lemma_dec_lines_end(b, i + 16, (m - 1) as nat);
    }
}

/// A successful cell decode ends at or after its start.
proof fn lemma_dec_cells_end(b: Seq<u8>, i: int, n: nat)
    requires
        dec_cells(b, i, n) is Some,
    ensures
        dec_cells(b, i, n).unwrap().1 >= i,
    decreases n,
{
    if n > 0 {
        let m = le32_at(b, i);
        lemma_dec_lines_end(b, i + 4, m as nat);
        let j = dec_lines(b, i + 4, m as nat).unwrap().1;
        lemma_dec_cells_end(b, j, (n - 1) as nat);
    }
}

/// A line decode that succeeded within the first `k` bytes succeeds
/// unchanged on the `k`-byte prefix.
proof fn lemma_dec_lines_stable(b: Seq<u8>, i: int, m: nat, k: int)
    requires
        0 <= i,
        dec_lines(b, i, m) is Some,
        dec_lines(b, i, m).unwrap().1 <= k <= b.len(),
    ensures
        dec_lines(b.take(k), i, m) == dec_lines(b, i, m),
    decreases m,
{
    lemma_dec_lines_end(b, i, m);
    if m > 0 {
        lemma_dec_lines_end(b, i + 16, (m - 1) as nat);
        assert(b.take(k)[i] == b[i]);
        assert(b.take(k)[i + 1] == b[i + 1]);
        assert(b.take(k)[i + 2] == b[i + 2]);
        assert(b.take(k)[i + 3] == b[i + 3]);
        assert(b.take(k)[i + 4] == b[i + 4]);
        assert(b.take(k)[i + 5] == b[i + 5]);
        assert(b.take(k)[i + 6] == b[i + 6]);
        assert(b.take(k)[i + 7] == b[i + 7]);
        assert(b.take(k)[i + 8] == b[i + 8]);
        assert(b.take(k)[i + 9] == b[i + 9]);
        assert(b.take(k)[i + 10] == b[i + 10]);
        assert(b.take(k)[i + 11] == b[i + 11]);
        assert(b.take(k)[i + 12] == b[i + 12]);
        assert(b.take(k)[i + 13] == b[i + 13]);
        assert(b.take(k)[i + 14] == b[i + 14]);
        assert(b.take(k)[i + 15] == b[i + 15]);
        lemma_dec_lines_stable(b, i + 16, (m - 1) as nat, k);
    }
}

/// A line decode cut off before its end fails on the prefix.
proof fn lemma_dec_lines_prefix_none(b: Seq<u8>, i: int, m: nat, k: int)
    requires
        0 <= i,
        0 < m,
        dec_lines(b, i, m) is Some,
        0 <= k < dec_lines(b, i, m).unwrap().1,
        k <= b.len(),
    ensures
        dec_lines(b.take(k), i, m) is None,
    decreases m,
{
    lemma_dec_lines_end(b, i, m);
    if k < i + 16 {
        assert(b.take(k).len() == k);
    } else {
        lemma_dec_lines_end(b, i + 16, (m - 1) as nat);
        assert(m - 1 > 0);
        lemma_dec_lines_prefix_none(b, i + 16, (m - 1) as nat, k);
    }
}

/// A cell decode that succeeded within the first `k` bytes succeeds
/// unchanged on the `k`-byte prefix.
proof fn lemma_dec_cells_stable(b: Seq<u8>, i: int, n: nat, k: int)
    requires
        0 <= i,
        dec_cells(b, i, n) is Some,
        dec_cells(b, i, n).unwrap().1 <= k <= b.len(),
    ensures
        dec_cells(b.take(k), i, n) == dec_cells(b, i, n),
    decreases n,
{
    if n > 0 {
        let m = le32_at(b, i);
        lemma_dec_lines_end(b, i + 4, m as nat);
        let j = i + 4 + 16 * (m as nat);
        lemma_dec_cells_end(b, j, (n - 1) as nat);
        assert(b.take(k)[i] == b[i]);
        assert(b.take(k)[i + 1] == b[i + 1]);
        assert(b.take(k)[i + 2] == b[i + 2]);
        assert(b.take(k)[i + 3] == b[i + 3]);
        lemma_dec_lines_stable(b, i + 4, m as nat, k);
        lemma_dec_cells_stable(b, j, (n - 1) as nat, k);
    }
}

/// A cell decode cut off before its end fails on the prefix.
proof fn lemma_dec_cells_prefix_none(b: Seq<u8>, i: int, n: nat, k: int)
    requires
        0 <= i,
        0 < n,
        dec_cells(b, i, n) is Some,
        0 <= k < dec_cells(b, i, n).unwrap().1,
        k <= b.len(),
    ensures
        dec_cells(b.take(k), i, n) is None,
    decreases n,
{
    if k < i + 4 {
        assert(b.take(k).len() == k);
    } else {
        let m = le32_at(b, i);
        lemma_dec_lines_end(b, i + 4, m as nat);
        let j = i + 4 + 16 * (m as nat);
        lemma_dec_cells_end(b, j, (n - 1) as nat);
        assert(b.take(k)[i] == b[i]);
        assert(b.take(k)[i + 1] == b[i + 1]);
        assert(b.take(k)[i + 2] == b[i + 2]);
        assert(b.take(k)[i + 3] == b[i + 3]);
        if k < j {
            assert(0 < m as nat);
            lemma_dec_lines_prefix_none(b, i + 4, m as nat, k);
        } else {
            lemma_dec_lines_stable(b, i + 4, m as nat, k);
            assert(n - 1 > 0);
            lemma_dec_cells_prefix_none(b, j, (n - 1) as nat, k);
        }
    }
}

/// Law: a stream cut off at any point strictly inside an encoded grid
/// is rejected as truncated, never misread as some other grid.
pub proof fn lemma_read_truncated(v: ShdwView, k: int)
    requires
        encodable(v),
        0 <= k < spec_encode(v).len(),
    ensures
        spec_read(spec_encode(v).take(k)) == Err::<ShdwView, ShdwError>(ShdwError::Truncated),
{
    let b = spec_encode(v);
    let p = b.take(k);
    assert(p.len() == k);
    if k < 16 {
        if k >= 4 {
            assert(p.subrange(0, 4) =~= magic()) by {
                assert(b.subrange(0, 4) =~= magic());
                assert(p.subrange(0, 4)[0] == b.subrange(0, 4)[0]);
                assert(p.subrange(0, 4)[1] == b.subrange(0, 4)[1]);
                assert(p.subrange(0, 4)[2] == b.subrange(0, 4)[2]);
                assert(p.subrange(0, 4)[3] == b.subrange(0, 4)[3]);
            };
        }
    } else {
        lemma_spec_encode_facts(v);
        assert(p.subrange(0, 4) =~= magic()) by {
            assert(b.subrange(0, 4) =~= magic());
            assert(p.subrange(0, 4)[0] == b.subrange(0, 4)[0]);
            assert(p.subrange(0, 4)[1] == b.subrange(0, 4)[1]);
            assert(p.subrange(0, 4)[2] == b.subrange(0, 4)[2]);
            assert(p.subrange(0, 4)[3] == b.subrange(0, 4)[3]);
        };
        assert(le32_at(p, 4) == le32_at(b, 4)) by {
            assert(p[4] == b[4]);
            assert(p[5] == b[5]);
            assert(p[6] == b[6]);
            assert(p[7] == b[7]);
        };
        let n = le32_at(b, 4) as nat;
        assert(dec_cells(b, 16, n) is Some);
        let end = dec_cells(b, 16, n).unwrap().1;
        assert(end == b.len());
        if n == 0 {
            assert(b.len() == 16);
            assert(false);
        }
        lemma_dec_cells_prefix_none(b, 16, n, k);
    }
}

} // verus!
