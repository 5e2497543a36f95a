use hashlife::bits::{hmix, inner, level2_square_from_quadrant, quad_with, vmix};
use hashlife::node::{InternalNodeKey, LeafNodeKey, Node, NodeId, NodeKey};
use hashlife::rows::{leaf_row, leaf_rows};
use hashlife::rule::Rule;
use hashlife::table::{compute_level2_results, compute_level3_results, level2_entry};

#[test]
fn new_leaf_holds_key_and_results() {
    let key = LeafNodeKey { nw: 1, ne: 2, sw: 3, se: 4 };
    let node = Node::new_leaf(key, [5, 6]);
    assert_eq!(node.level(), 3);
    assert!(!node.mark());
    let leaf = node.unwrap_leaf_ref();
    assert_eq!(leaf.key, key);
    assert_eq!(leaf.results, [5, 6]);
}

#[test]
fn new_internal_has_nothing_cached() {
    let key = InternalNodeKey { nw: NodeId(1), ne: NodeId(2), sw: NodeId(3), se: NodeId(4) };
    let node = Node::new_internal(key, 7);
    assert_eq!(node.level(), 7);
    assert!(!node.mark());
    let inner = node.unwrap_internal_ref();
    assert_eq!(inner.key, key);
    assert_eq!(inner.result, NodeId::invalid());
    assert_eq!(inner.level, 7);
}

#[test]
fn keys_are_told_apart() {
    let leaf = NodeKey::new_leaf(1, 2, 3, 4);
    let internal = NodeKey::new_internal(NodeId(1), NodeId(2), NodeId(3), NodeId(4));
    assert_eq!(leaf, NodeKey::Leaf(LeafNodeKey { nw: 1, ne: 2, sw: 3, se: 4 }));
    assert_ne!(leaf, internal);
    assert_eq!(leaf.encode(), (1, 1, 2, 3, 4));
    assert_eq!(internal.encode(), (0, 1, 2, 3, 4));
    assert_ne!(NodeKey::new_leaf(1, 2, 3, 4).encode(), NodeKey::new_leaf(1, 2, 4, 3).encode());
}

#[test]
fn squares_straddle_their_neighbours() {
    // The east half of the west square, then the west half of the east one.
    assert_eq!(hmix(0b0011_0011_0011_0011, 0), 0b1100_1100_1100_1100);
    assert_eq!(hmix(0, 0b1100_1100_1100_1100), 0b0011_0011_0011_0011);
    assert_eq!(hmix(0b1100_1100_1100_1100, 0b0011_0011_0011_0011), 0);
    // The south half of the north square, then the north half of the south one.
    assert_eq!(vmix(0x00ab, 0xcd00), 0xabcd);
    assert_eq!(vmix(0xff00, 0x00ff), 0);
}

#[test]
fn squares_are_made_of_table_entries() {
    assert_eq!(level2_square_from_quadrant(0b11_0011, 0, 0, 0), 0b1100_1100_0000_0000);
    assert_eq!(level2_square_from_quadrant(0, 0b11_0011, 0, 0), 0b0011_0011_0000_0000);
    assert_eq!(level2_square_from_quadrant(0, 0, 0b11_0011, 0), 0b0000_0000_1100_1100);
    assert_eq!(level2_square_from_quadrant(0, 0, 0, 0b11_0011), 0b0000_0000_0011_0011);
    assert_eq!(level2_square_from_quadrant(0b10_0000, 0b01_0000, 0b00_0010, 0b00_0001), 0b1001_0000_0000_1001);
}

#[test]
fn inner_square_of_four_overlapping_squares() {
    assert_eq!(inner(0b0000_0110_0110_0000, 0, 0, 0), 0b1100_1100_0000_0000);
    assert_eq!(inner(0, 0b0000_0110_0110_0000, 0, 0), 0b0011_0011_0000_0000);
    assert_eq!(inner(0, 0, 0b0000_0110_0110_0000, 0), 0b0000_0000_1100_1100);
    assert_eq!(inner(0, 0, 0, 0b0000_0110_0110_0000), 0b0000_0000_0011_0011);
    assert_eq!(inner(0b1111_1001_1001_1111, 0, 0, 0), 0);
}

#[test]
fn quad_with_sets_and_clears_one_cell() {
    assert_eq!(quad_with(0, -2, -2, true), 0b1000_0000_0000_0000);
    assert_eq!(quad_with(0, 1, -2, true), 0b0001_0000_0000_0000);
    assert_eq!(quad_with(0, -2, 1, true), 0b0000_0000_0000_1000);
    assert_eq!(quad_with(0, 1, 1, true), 0b0000_0000_0000_0001);
    assert_eq!(quad_with(0xffff, 0, 0, false), 0b1111_1111_1101_1111);
    assert_eq!(quad_with(0b0100, 0, 1, true), 0b0110);
    assert_eq!(quad_with(0b0100, -1, 1, true), 0b0100);
    assert_eq!(quad_with(0b0100, 0, 1, false), 0b0100);
}

#[test]
fn table_entry_of_a_still_life() {
    let rule = Rule::game_of_life();
    // A block in the centre stays.
    assert_eq!(level2_entry(&rule, 0b0000_0110_0110_0000), 0b11_0011);
    // A lone cell dies.
    assert_eq!(level2_entry(&rule, 0b0000_0100_0000_0000), 0);
    // Three in a row: the middle column is alive next.
    assert_eq!(level2_entry(&rule, 0b0000_1110_0000_0000), 0b10_0010);
    let table = compute_level2_results(rule);
    assert_eq!(table.len(), 65536);
    for q in [0u16, 1, 0b0000_0110_0110_0000, 0b0000_1110_0000_0000, 0xffff, 0x1234] {
        assert_eq!(table[q as usize], level2_entry(&rule, q));
    }
}

#[test]
fn table_follows_the_rule() {
    let mut seeds = Rule::new();
    seeds.set_birth(2).unwrap();
    // Under B2/S, two neighbours give birth and nothing survives.
    assert_eq!(level2_entry(&seeds, 0b0000_0110_0000_0000), 0b00_0011);
    assert_eq!(level2_entry(&Rule::game_of_life(), 0b0000_0110_0000_0000), 0);
}

#[test]
fn leaf_results_of_a_blinker() {
    let rule = Rule::game_of_life();
    let table = compute_level2_results(rule);
    // The cells (-1, 0), (0, 0) and (1, 0): one in the top row of the
    // south-west square, two in the top row of the south-east square.
    let key = LeafNodeKey {
        nw: 0,
        ne: 0,
        sw: 0b0001_0000_0000_0000,
        se: 0b1100_0000_0000_0000,
    };
    let results = compute_level3_results(&rule, &table, &key);
    // One generation on the blinker stands upright in column 0.
    assert_eq!(results[0], 0b0000_0010_0010_0010);
    // Two generations on it lies flat again.
    assert_eq!(results[1], 0b0000_0000_0111_0000);
}

#[test]
fn rows_of_a_leaf() {
    let key = LeafNodeKey {
        nw: 0b1000_0000_0000_0001,
        ne: 0b0001_0000_0000_1000,
        sw: 0b0000_0000_0000_0000,
        se: 0b0000_0000_0000_1111,
    };
    assert_eq!(leaf_row(key.nw, key.ne, 0), 0b1000_0001);
    assert_eq!(leaf_row(key.nw, key.ne, 3), 0b0001_1000);
    assert_eq!(leaf_row(key.sw, key.se, 3), 0b0000_1111);
    assert_eq!(
        leaf_rows(&key),
        vec![0b1000_0001, 0, 0, 0b0001_1000, 0, 0, 0, 0b0000_1111]
    );
}
