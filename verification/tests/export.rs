use hashlife::export::{bmp_bytes, bmp_image, write_buffer, ExportError};
use hashlife::rule::Rule;
use hashlife::universe::Universe;

fn with_cells(cells: &[(i64, i64)]) -> Universe {
    let mut uni = Universe::new(Rule::game_of_life());
    for &(x, y) in cells {
        uni.set(x, y, true).unwrap();
    }
    uni
}

#[test]
fn write_buffer_of_one_cell() {
    let uni = with_cells(&[(12345, -67890)]);
    assert_eq!(write_buffer(&uni).unwrap(), vec![vec![0b1000_0000]]);
}

#[test]
fn write_buffer_of_a_row_across_leaves() {
    let uni = with_cells(&[(-9, 0), (-1, 0), (0, 0), (7, 0), (8, 0)]);
    assert_eq!(
        write_buffer(&uni).unwrap(),
        vec![vec![0b1000_0000, 0b1100_0000, 0b1100_0000]]
    );
}

#[test]
fn write_buffer_after_simulate() {
    let mut uni = with_cells(&[(0, 0), (1, 0), (2, 0)]);
    uni.simulate(1).unwrap();
    assert_eq!(
        write_buffer(&uni).unwrap(),
        vec![vec![0b1000_0000], vec![0b1000_0000], vec![0b1000_0000]]
    );
}

#[test]
fn viewport_passes_over_what_lies_outside() {
    let uni = with_cells(&[(0, 0), (100, 100), (-100, 5), (3, -200)]);
    assert_eq!(uni.write_cells().len(), 4);
    let seen = uni.write_cells_in((-8, -8, 8, 8));
    assert_eq!(seen.len(), 1);
    assert_eq!((seen[0].x, seen[0].y), (0, 0));
    let seen = uni.write_cells_in((-101, 0, 1, 8));
    assert_eq!(seen.len(), 2);
    assert_eq!((seen[0].x, seen[0].y), (-104, 0));
    assert_eq!((seen[1].x, seen[1].y), (0, 0));
    // A leaf that reaches into the viewport is written out whole.
    let seen = uni.write_cells_in((103, 103, 200, 200));
    assert_eq!(seen.len(), 1);
    assert_eq!((seen[0].x, seen[0].y), (96, 96));
    assert_eq!(uni.write_cells_in((104, 104, 200, 200)).len(), 0);
    assert_eq!(uni.write_cells_in((50, 50, 50, 50)).len(), 0);
}

#[test]
fn bmp_of_a_small_pattern() {
    let uni = with_cells(&[(0, 0), (9, 1)]);
    let bytes = bmp_image(&uni).unwrap();
    let expected: Vec<u8> = vec![
        0x42, 0x4D, 0x46, 0x00, 0x00, 0x00, 0x00, 0x00, 0x00, 0x00, 0x3E, 0x00, 0x00, 0x00, 0x28,
        0x00, 0x00, 0x00, 0x0A, 0x00, 0x00, 0x00, 0x02, 0x00, 0x00, 0x00, 0x01, 0x00, 0x01, 0x00,
        0x00, 0x00, 0x00, 0x00, 0x08, 0x00, 0x00, 0x00, 0x00, 0x00, 0x00, 0x00, 0x00, 0x00, 0x00,
        0x00, 0x00, 0x00, 0x00, 0x00, 0x00, 0x00, 0x00, 0x00, 0x00, 0x00, 0x00, 0x00, 0xFF, 0xFF,
        0xFF, 0x00, // the south row first
        0x00, 0x40, 0x00, 0x00, 0x80, 0x00, 0x00, 0x00,
    ];
    assert_eq!(bytes, expected);
}

#[test]
fn bmp_rows_are_filled_up_to_four_bytes() {
    let rows = vec![vec![1, 2, 3, 4], vec![5, 6, 7, 8]];
    let bytes = bmp_bytes(&rows, 32, 2).unwrap();
    assert_eq!(bytes.len(), 62 + 8);
    assert_eq!(&bytes[62..], &[5, 6, 7, 8, 1, 2, 3, 4]);
    let rows = vec![vec![1, 2, 3, 4, 5]];
    let bytes = bmp_bytes(&rows, 33, 1).unwrap();
    assert_eq!(&bytes[62..], &[1, 2, 3, 4, 5, 0, 0, 0]);
    assert_eq!(&bytes[2..6], &[70, 0, 0, 0]);
    assert_eq!(&bytes[18..26], &[33, 0, 0, 0, 1, 0, 0, 0]);
}

#[test]
fn bmp_refuses_the_empty_universe() {
    let uni = Universe::new(Rule::game_of_life());
    assert_eq!(bmp_image(&uni), Err(ExportError::EmptyUniverse));
}

#[test]
fn bmp_refuses_what_does_not_fit() {
    let rows: Vec<Vec<u8>> = Vec::new();
    assert_eq!(bmp_bytes(&rows, 1 << 32, 0), Err(ExportError::TooLarge));
}
