use hashlife::block::compute_level2_results;

#[test]
fn lib_test_level2_result() {
    let level2_results = compute_level2_results();
    assert_eq!(level2_results[0b0010_0011_0110_0000], 0b11);
}

#[test]
fn block_table_has_an_entry_for_every_square() {
    let level2_results = compute_level2_results();
    assert_eq!(level2_results.len(), 65536);
    assert_eq!(level2_results[0], 0);
}

#[test]
fn block_table_keeps_a_block() {
    // The 2x2 block in the centre is a still life.
    let level2_results = compute_level2_results();
    assert_eq!(level2_results[0b0000_0110_0110_0000], 0b1111);
}

#[test]
fn block_table_turns_a_blinker() {
    // A horizontal blinker through cells (0..3, 1): the centre column is born.
    let level2_results = compute_level2_results();
    assert_eq!(level2_results[0b0000_0000_0111_0000], 0b0101);
}

/// The 4x4 square with the given live cells, relative to its centre.
fn square(cells: &[(i32, i32)]) -> usize {
    let mut q = 0;
    for &(x, y) in cells {
        q |= 1 << ((x + 2) + 4 * (y + 2));
    }
    q
}

#[test]
fn test_one_step_level2() {
    let level2_results = compute_level2_results();
    let node = square(&[(-1, -1), (0, -1), (-2, 0), (-1, 0), (-1, 1)]);
    assert_eq!(level2_results[node], 0b11);
}
