use shdw::{Cell, Line, Point, Shdw, ShdwError};

fn line(sx: u32, sy: u32, ex: u32, ey: u32) -> Line {
    Line { start: Point { x: sx, y: sy }, end: Point { x: ex, y: ey } }
}

fn sample_grid() -> Shdw {
    Shdw {
        cell_width: 3,
        cell_height: 2,
        cells: vec![
            Cell {
                lines: vec![
                    line(0x00000000, 0x3F800000, 0x40000000, 0x40400000),
                    line(0x40400000, 0x40000000, 0x3F800000, 0x00000000),
                ],
            },
            Cell { lines: vec![] },
            Cell { lines: vec![line(0x7FC00000, 0x80000000, 0xFF800000, 0x7F800000)] },
        ],
    }
}

#[test]
fn empty_grid_encodes_to_sixteen_bytes() {
    let s = Shdw { cell_width: 8, cell_height: 8, cells: vec![] };
    let bytes = s.write();
    assert_eq!(
        bytes,
        vec![
            0x53, 0x48, 0x44, 0x57, // "SHDW"
            0x00, 0x00, 0x00, 0x00, // cell_count = 0
            0x08, 0x00, 0x00, 0x00, // cell_width = 8
            0x08, 0x00, 0x00, 0x00, // cell_height = 8
        ]
    );
}

#[test]
fn round_trip_empty_grid() {
    let s = Shdw { cell_width: 8, cell_height: 8, cells: vec![] };
    let back = Shdw::read(&s.write()).unwrap();
    assert_eq!(back, s);
}

#[test]
fn round_trip_preserves_every_bit_pattern() {
    let s = sample_grid();
    let back = Shdw::read(&s.write()).unwrap();
    assert_eq!(back, s);
}

#[test]
fn round_trip_single_empty_cell() {
    let s = Shdw { cell_width: 1, cell_height: 1, cells: vec![Cell { lines: vec![] }] };
    let bytes = s.write();
    assert_eq!(bytes.len(), 20);
    let back = Shdw::read(&bytes).unwrap();
    assert_eq!(back, s);
}

#[test]
fn encoded_layout_is_little_endian() {
    let s = Shdw {
        cell_width: 0x01020304,
        cell_height: 0xAABBCCDD,
        cells: vec![Cell { lines: vec![line(0x11223344, 0, 0, 0)] }],
    };
    let bytes = s.write();
    assert_eq!(&bytes[8..12], &[0x04, 0x03, 0x02, 0x01]);
    assert_eq!(&bytes[12..16], &[0xDD, 0xCC, 0xBB, 0xAA]);
    assert_eq!(&bytes[16..20], &[0x01, 0x00, 0x00, 0x00]);
    assert_eq!(&bytes[20..24], &[0x44, 0x33, 0x22, 0x11]);
}

#[test]
fn read_rejects_wrong_magic() {
    let mut bytes = sample_grid().write();
    bytes[3] = 0x58;
    assert_eq!(Shdw::read(&bytes), Err(ShdwError::WrongMagic));
}

#[test]
fn read_rejects_arbitrary_garbage_magic() {
    assert_eq!(Shdw::read(b"ABCD\x01\x02\x03\x04"), Err(ShdwError::WrongMagic));
    assert_eq!(Shdw::read(b"shdw\x00\x00\x00\x00\x00\x00\x00\x00\x00\x00\x00\x00"), Err(ShdwError::WrongMagic));
}

#[test]
fn read_rejects_truncation_at_every_point() {
    let bytes = sample_grid().write();
    for k in 0..bytes.len() {
        assert_eq!(
            Shdw::read(&bytes[..k]),
            Err(ShdwError::Truncated),
            "prefix of {k} bytes must be rejected"
        );
    }
}

#[test]
fn read_rejects_count_beyond_stream_end() {
    // Header announcing 100 cells, followed by nothing.
    let mut bytes = vec![0x53, 0x48, 0x44, 0x57];
    bytes.extend_from_slice(&[100, 0, 0, 0]);
    bytes.extend_from_slice(&[1, 0, 0, 0]);
    bytes.extend_from_slice(&[1, 0, 0, 0]);
    assert_eq!(Shdw::read(&bytes), Err(ShdwError::Truncated));
}

#[test]
fn read_ignores_trailing_bytes() {
    let s = sample_grid();
    let mut bytes = s.write();
    bytes.extend_from_slice(&[0xDE, 0xAD, 0xBE, 0xEF]);
    assert_eq!(Shdw::read(&bytes).unwrap(), s);
}

#[test]
fn read_empty_stream_is_truncated() {
    assert_eq!(Shdw::read(&[]), Err(ShdwError::Truncated));
}
