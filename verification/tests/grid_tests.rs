use shdw::{Cell, Mask, PathCommand, RgbaBuffer, Shdw, Tracer};

/// A collaborator for tests: traces the whole region's border when any
/// pixel is occupied, and nothing when none is.
struct BorderTracer;

impl Tracer for BorderTracer {
    fn trace(&mut self, mask: &Mask) -> Vec<PathCommand> {
        let any = mask.bits.iter().any(|b| *b);
        if any {
            vec![
                PathCommand::MoveTo { x: 0, y: 0 },
                PathCommand::HLineTo { dx: mask.width as i32 },
                PathCommand::VLineTo { dy: mask.height as i32 },
                PathCommand::HLineTo { dx: -(mask.width as i32) },
                PathCommand::ClosePath,
            ]
        } else {
            vec![]
        }
    }
}

/// A collaborator that always emits a path leaving the region.
struct RunawayTracer;

impl Tracer for RunawayTracer {
    fn trace(&mut self, _mask: &Mask) -> Vec<PathCommand> {
        vec![PathCommand::HLineTo { dx: -1 }]
    }
}

fn opaque_image(width: u32, height: u32) -> RgbaBuffer {
    RgbaBuffer { width, height, data: vec![0xFF; (width * height * 4) as usize] }
}

#[test]
fn cell_count_is_cols_times_rows() {
    let img = opaque_image(10, 7);
    let s = Shdw::shdw_for_image(&img, 3, 2, &mut BorderTracer).unwrap();
    assert_eq!(s.cell_width, 3);
    assert_eq!(s.cell_height, 2);
    assert_eq!(s.cells.len(), (10 / 3) * (7 / 2));
}

#[test]
fn full_extent_cell_size_yields_one_cell() {
    let img = opaque_image(6, 5);
    let s = Shdw::shdw_for_image(&img, 6, 5, &mut BorderTracer).unwrap();
    assert_eq!(s.cells.len(), 1);
}

#[test]
fn oversized_cell_yields_empty_grid() {
    let img = opaque_image(10, 7);
    let s = Shdw::shdw_for_image(&img, 11, 2, &mut BorderTracer).unwrap();
    assert_eq!(s.cells.len(), 0);
    let s = Shdw::shdw_for_image(&img, 3, 8, &mut BorderTracer).unwrap();
    assert_eq!(s.cells.len(), 0);
}

#[test]
fn runaway_collaborator_path_is_refused() {
    let img = opaque_image(4, 4);
    assert!(Shdw::shdw_for_image(&img, 4, 4, &mut RunawayTracer).is_none());
}

#[test]
fn opaque_square_traces_its_border() {
    let img = opaque_image(4, 4);
    let s = Shdw::shdw_for_image(&img, 4, 4, &mut BorderTracer).unwrap();
    assert_eq!(s.cells.len(), 1);
    let lines = &s.cells[0].lines;
    assert_eq!(lines.len(), 4);
    let zero = 0.0f32.to_bits();
    let four = 4.0f32.to_bits();
    // The border quadrilateral, traced clockwise from the top-left
    // corner with axis-aligned segments.
    let expected = [
        ((zero, zero), (four, zero)),
        ((four, zero), (four, four)),
        ((four, four), (zero, four)),
        ((zero, four), (zero, zero)),
    ];
    for (l, ((sx, sy), (ex, ey))) in lines.iter().zip(expected) {
        assert_eq!(l.start.x, sx);
        assert_eq!(l.start.y, sy);
        assert_eq!(l.end.x, ex);
        assert_eq!(l.end.y, ey);
    }
}

#[test]
fn grid_of_built_cells_round_trips() {
    let img = opaque_image(9, 6);
    let s = Shdw::shdw_for_image(&img, 3, 3, &mut BorderTracer).unwrap();
    assert_eq!(s.cells.len(), 6);
    let back = Shdw::read(&s.write()).unwrap();
    assert_eq!(back, s);
}

#[test]
fn shdw_for_is_a_single_empty_cell() {
    let s = Shdw::shdw_for(64, 48);
    assert_eq!(s.cell_width, 64);
    assert_eq!(s.cell_height, 48);
    assert_eq!(s.cells, vec![Cell { lines: vec![] }]);
}

#[test]
fn transparent_cells_hold_no_lines() {
    let img = RgbaBuffer { width: 8, height: 8, data: vec![0x00; 8 * 8 * 4] };
    let s = Shdw::shdw_for_image(&img, 4, 4, &mut BorderTracer).unwrap();
    assert_eq!(s.cells.len(), 4);
    for c in &s.cells {
        assert_eq!(c.lines.len(), 0);
    }
}

#[test]
fn partitioner_visits_cells_in_row_major_order() {
    // 4 x 4 image, 2 x 2 cells: a 2 x 2 grid of cells.  Only the
    // bottom-left quadrant is visible, which is row 1, column 0 --
    // row-major index 2.
    let mut img = RgbaBuffer { width: 4, height: 4, data: vec![0x00; 4 * 4 * 4] };
    for y in 2..4u32 {
        for x in 0..2u32 {
            img.data[((y * 4 + x) * 4 + 3) as usize] = 0xFF;
        }
    }
    let s = Shdw::shdw_for_image(&img, 2, 2, &mut BorderTracer).unwrap();
    assert_eq!(s.cells.len(), 4);
    for (i, c) in s.cells.iter().enumerate() {
        if i == 2 {
            assert_eq!(c.lines.len(), 4, "the visible cell holds its border loop");
        } else {
            assert_eq!(c.lines.len(), 0, "cell {i} must be empty");
        }
    }
}
