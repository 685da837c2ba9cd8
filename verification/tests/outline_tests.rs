use shdw::outline::{extract_outline, interpret, occupancy};
use shdw::{f32_bits, Mask, PathCommand, PxLine, PxPoint, RgbaBuffer, Tracer};

fn px_line(sx: u32, sy: u32, ex: u32, ey: u32) -> PxLine {
    PxLine { start: PxPoint { x: sx, y: sy }, end: PxPoint { x: ex, y: ey } }
}

/// A collaborator for tests: traces the whole region's border when any
/// pixel is occupied, and nothing when none is.
struct BorderTracer;

impl Tracer for BorderTracer {
    fn trace(&mut self, mask: &Mask) -> Vec<PathCommand> {
        let any = mask.bits.iter().any(|b| *b);
        if any {
            vec![
                PathCommand::MoveTo { x: 0, y: 0 },
                PathCommand::HLineTo { dx: mask.width as i32 },
                PathCommand::VLineTo { dy: mask.height as i32 },
                PathCommand::HLineTo { dx: -(mask.width as i32) },
                PathCommand::ClosePath,
            ]
        } else {
            vec![]
        }
    }
}

#[test]
fn interpret_empty_command_sequence() {
    let r = interpret(&vec![], 4, 4).unwrap();
    assert_eq!(r, vec![]);
}

#[test]
fn interpret_square_path() {
    let cmds = vec![
        PathCommand::MoveTo { x: 0, y: 0 },
        PathCommand::HLineTo { dx: 4 },
        PathCommand::VLineTo { dy: 4 },
        PathCommand::HLineTo { dx: -4 },
        PathCommand::ClosePath,
    ];
    let r = interpret(&cmds, 4, 4).unwrap();
    assert_eq!(
        r,
        vec![
            px_line(0, 0, 4, 0),
            px_line(4, 0, 4, 4),
            px_line(4, 4, 0, 4),
            px_line(0, 4, 0, 0),
        ]
    );
}

#[test]
fn interpreted_loop_deltas_sum_to_zero() {
    // An L-shaped loop with negative deltas on the way back.
    let cmds = vec![
        PathCommand::MoveTo { x: 1, y: 1 },
        PathCommand::HLineTo { dx: 3 },
        PathCommand::VLineTo { dy: 2 },
        PathCommand::HLineTo { dx: -2 },
        PathCommand::VLineTo { dy: 1 },
        PathCommand::HLineTo { dx: -1 },
        PathCommand::ClosePath,
    ];
    let r = interpret(&cmds, 8, 8).unwrap();
    assert_eq!(r.len(), 6);
    let dx: i64 = r.iter().map(|l| l.end.x as i64 - l.start.x as i64).sum();
    let dy: i64 = r.iter().map(|l| l.end.y as i64 - l.start.y as i64).sum();
    assert_eq!(dx, 0);
    assert_eq!(dy, 0);
}

#[test]
fn interpret_rejects_path_leaving_the_region() {
    let cmds = vec![PathCommand::MoveTo { x: 0, y: 0 }, PathCommand::HLineTo { dx: 5 }];
    assert!(interpret(&cmds, 4, 4).is_none());
    let cmds = vec![PathCommand::HLineTo { dx: -1 }];
    assert!(interpret(&cmds, 4, 4).is_none());
    let cmds = vec![PathCommand::MoveTo { x: 5, y: 0 }];
    assert!(interpret(&cmds, 4, 4).is_none());
}

#[test]
fn interpret_close_without_move_closes_to_origin() {
    let cmds = vec![
        PathCommand::HLineTo { dx: 2 },
        PathCommand::ClosePath,
    ];
    let r = interpret(&cmds, 4, 4).unwrap();
    assert_eq!(r, vec![px_line(0, 0, 2, 0), px_line(2, 0, 0, 0)]);
}

fn solid_image(width: u32, height: u32, alpha: u8) -> RgbaBuffer {
    let mut data = Vec::new();
    for _ in 0..width * height {
        data.extend_from_slice(&[0x10, 0x20, 0x30, alpha]);
    }
    RgbaBuffer { width, height, data }
}

#[test]
fn occupancy_reads_the_alpha_channel() {
    let mut img = solid_image(3, 2, 0);
    // Make pixel (2, 1) opaque: alpha byte of the pixel at row 1, column 2.
    img.data[(1 * 3 + 2) * 4 + 3] = 0xFF;
    // And pixel (0, 0) barely visible.
    img.data[3] = 0x01;
    let mask = occupancy(&img, 0, 0, 3, 2);
    assert_eq!(mask.width, 3);
    assert_eq!(mask.height, 2);
    let expect = [
        (0, 0, true),
        (1, 0, false),
        (2, 0, false),
        (0, 1, false),
        (1, 1, false),
        (2, 1, true),
    ];
    for (x, y, occ) in expect {
        assert_eq!(mask.get(x, y), occ, "pixel ({x}, {y})");
    }
}

#[test]
fn occupancy_of_subregion() {
    let mut img = solid_image(4, 4, 0);
    // Opaque pixel at (2, 3).
    img.data[(3 * 4 + 2) * 4 + 3] = 0x80;
    let mask = occupancy(&img, 2, 2, 2, 2);
    assert!(!mask.get(0, 0));
    assert!(!mask.get(1, 0));
    assert!(mask.get(0, 1));
    assert!(!mask.get(1, 1));
}

#[test]
fn transparent_region_extracts_zero_lines() {
    let img = solid_image(4, 4, 0);
    let mask = occupancy(&img, 0, 0, 4, 4);
    let cell = extract_outline(&mask, &mut BorderTracer).unwrap();
    assert_eq!(cell.lines.len(), 0);
}

#[test]
fn stored_coordinates_match_ieee_bit_patterns() {
    let values: [u32; 25] = [
        0, 1, 2, 3, 4, 5, 7, 8, 100, 255, 256, 1023, 4096, 8388607, 8388608, 16777215,
        16777216, 16777217, 16777218, 16777219, 33554430, 33554433, 123456789, 0x80000000,
        0xFFFFFFFF,
    ];
    for v in values {
        assert_eq!(f32_bits(v), (v as f32).to_bits(), "coordinate {v}");
    }
}
