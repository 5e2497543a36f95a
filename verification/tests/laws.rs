use hashlife::envelope::LATTICE_RADIUS;
use hashlife::export::{write_buffer, write_cells, CellData, ExportError};
use hashlife::node::{Node, NodeId, NodeKey};
use hashlife::rule::Rule;
use hashlife::universe::{Universe, UniverseError};

const EMPTY: (i64, i64, i64, i64) = (i64::MAX, i64::MAX, i64::MIN, i64::MIN);

fn life() -> Universe {
    Universe::new(Rule::game_of_life())
}

fn with_cells(cells: &[(i64, i64)]) -> Universe {
    let mut uni = life();
    for &(x, y) in cells {
        uni.set(x, y, true).unwrap();
    }
    uni
}

fn live_cells(uni: &Universe) -> Vec<(i64, i64)> {
    let mut cells = Vec::new();
    for item in uni.write_cells() {
        let quads = [(item.nw, 0, 0), (item.ne, 4, 0), (item.sw, 0, 4), (item.se, 4, 4)];
        for (q, dx, dy) in quads {
            for bit in 0..16 {
                if q >> bit & 1 == 1 {
                    let x = 3 - (bit % 4);
                    let y = 3 - (bit / 4);
                    cells.push((item.x + dx + x, item.y + dy + y));
                }
            }
        }
    }
    cells.sort();
    cells
}

fn sorted(cells: &[(i64, i64)]) -> Vec<(i64, i64)> {
    let mut cells = cells.to_vec();
    cells.sort();
    cells
}

/// One generation of Conway's rule, cell by cell.
fn naive_step(cells: &[(i64, i64)]) -> Vec<(i64, i64)> {
    let mut next = Vec::new();
    let min_x = cells.iter().map(|c| c.0).min().unwrap() - 1;
    let max_x = cells.iter().map(|c| c.0).max().unwrap() + 1;
    let min_y = cells.iter().map(|c| c.1).min().unwrap() - 1;
    let max_y = cells.iter().map(|c| c.1).max().unwrap() + 1;
    for x in min_x..=max_x {
        for y in min_y..=max_y {
            let mut n = 0;
            for dx in -1..=1 {
                for dy in -1..=1 {
                    if (dx, dy) != (0, 0) && cells.contains(&(x + dx, y + dy)) {
                        n += 1;
                    }
                }
            }
            if n == 3 || (n == 2 && cells.contains(&(x, y))) {
                next.push((x, y));
            }
        }
    }
    next.sort();
    next
}

#[test]
fn new_universe_is_empty() {
    let uni = life();
    assert_eq!(uni.boundary(), EMPTY);
    assert!(uni.write_cells().is_empty());
    assert_eq!(uni.level(), 3);
    assert_eq!(uni.mem(), 1);
    assert_eq!(write_buffer(&uni), Err(ExportError::EmptyUniverse));
}

#[test]
fn root_level_is_at_least_three() {
    let mut uni = life();
    assert!(uni.level() >= 3);
    uni.set(100, -100, true).unwrap();
    assert!(uni.level() >= 3);
    uni.simulate(5).unwrap();
    assert!(uni.level() >= 3);
    uni.set(100, -100, false).unwrap();
    uni.shrink();
    assert!(uni.level() >= 3);
}

#[test]
fn quadrants_are_one_level_lower() {
    let mut uni = with_cells(&[(0, 0), (1, 0), (2, 0), (40, 40)]);
    uni.simulate(3).unwrap();
    for i in 1..=uni.mem() as u64 {
        let id = NodeId(i);
        if let Node::Internal(node) = *uni.node(id) {
            assert!(node.level >= 4);
            for child in [node.key.nw, node.key.ne, node.key.sw, node.key.se] {
                assert_eq!(uni.node_level(child), node.level - 1);
            }
        } else {
            assert_eq!(uni.node_level(id), 3);
        }
    }
}

#[test]
fn empty_nodes_are_made_of_empty_nodes() {
    let mut uni = life();
    let top = uni.find_empty_node(9);
    assert_eq!(uni.node_level(top), 9);
    let mut node = top;
    for level in (4..=9).rev() {
        let inner = *uni.as_internal(node);
        assert_eq!(inner.level, level);
        assert_eq!(inner.key.nw, inner.key.ne);
        assert_eq!(inner.key.nw, inner.key.sw);
        assert_eq!(inner.key.nw, inner.key.se);
        assert_eq!(inner.key.nw, uni.find_empty_node(level - 1));
        assert_eq!(inner.result, inner.key.nw);
        node = inner.key.nw;
    }
    assert_eq!(uni.as_leaf(node).key.nw, 0);
    assert_eq!(uni.boundary_rec(top, 0, 0), EMPTY);
}

#[test]
fn find_node_twice_gives_the_same_handle() {
    let mut uni = life();
    let a = uni.find_node(NodeKey::new_leaf(1, 2, 3, 4));
    let count = uni.mem();
    let b = uni.find_node(NodeKey::new_leaf(1, 2, 3, 4));
    assert_eq!(a, b);
    assert_eq!(uni.mem(), count);
    let c = uni.find_node(NodeKey::new_leaf(1, 2, 3, 5));
    assert_ne!(a, c);
    assert_eq!(uni.mem(), count + 1);
    let d = uni.find_node(NodeKey::new_internal(a, a, c, c));
    let e = uni.find_node(NodeKey::new_internal(a, a, c, c));
    let f = uni.find_node(NodeKey::new_internal(a, c, a, c));
    assert_eq!(d, e);
    assert_ne!(d, f);
    assert_eq!(uni.mem(), count + 3);
    assert_eq!(uni.node_level(d), 4);
    assert_eq!(*uni.node(a).unwrap_leaf_ref().key.nw.to_le_bytes().first().unwrap(), 1);
    assert_eq!(uni.node(d).unwrap_internal_ref().key.sw, c);
}

#[test]
fn handles_count_from_one() {
    let mut uni = life();
    assert_eq!(uni.root(), NodeId(1));
    assert_eq!(NodeId::invalid(), NodeId(0));
    let a = uni.find_node(NodeKey::new_leaf(0, 0, 0, 1));
    assert_eq!(a, NodeId(2));
    assert_eq!(uni.node(a).level(), 3);
    assert!(!uni.node(a).mark());
}

#[test]
fn boundary_holds_every_live_cell() {
    let cells = [(-17, 3), (4, -9), (0, 0), (12, 12), (-1, -1)];
    let uni = with_cells(&cells);
    let (left, top, right, bottom) = uni.boundary();
    assert_eq!((left, top, right, bottom), (-17, -9, 13, 13));
    for (x, y) in live_cells(&uni) {
        assert!(left <= x && x < right && top <= y && y < bottom);
    }
}

#[test]
fn simulate_zero_is_a_no_op() {
    let mut uni = with_cells(&[(0, 0), (1, 0), (2, 0)]);
    let root = uni.root();
    let count = uni.mem();
    assert_eq!(uni.simulate(0), Ok(()));
    assert_eq!(uni.root(), root);
    assert_eq!(uni.mem(), count);
    assert_eq!(live_cells(&uni), vec![(0, 0), (1, 0), (2, 0)]);
}

#[test]
fn simulate_adds_up() {
    let start = [(0, 0), (1, 0), (1, 1), (1, 2), (-1, 0), (-1, 1), (-1, 2)];
    for (a, b) in [(1, 1), (3, 4), (5, 11), (16, 1), (7, 25), (0, 9), (64, 64)] {
        let mut one = with_cells(&start);
        one.simulate(a + b).unwrap();
        let mut two = with_cells(&start);
        two.simulate(a).unwrap();
        two.simulate(b).unwrap();
        assert_eq!(live_cells(&one), live_cells(&two), "{} + {}", a, b);
        assert_eq!(one.boundary(), two.boundary());
    }
}

#[test]
fn simulate_is_the_naive_step_many_times() {
    let start = [(-1, -1), (0, -1), (-2, 0), (-1, 0), (-1, 1)];
    let mut expected = sorted(&start);
    for n in 1..=40 {
        expected = naive_step(&expected);
        let mut uni = with_cells(&start);
        uni.simulate(n).unwrap();
        assert_eq!(live_cells(&uni), expected, "generation {}", n);
    }
}

#[test]
fn simulate_one_by_one_is_the_naive_step() {
    let start = [(0, 0), (1, 0), (1, 1), (1, 2), (-1, 0), (-1, 1), (-1, 2)];
    let mut expected = sorted(&start);
    let mut uni = with_cells(&start);
    for n in 1..=60 {
        expected = naive_step(&expected);
        uni.simulate(1).unwrap();
        assert_eq!(live_cells(&uni), expected, "generation {}", n);
    }
}

#[test]
fn simulate_in_mixed_steps_is_the_naive_step() {
    // The same macrocells come up with different exponents: what is cached
    // for one exponent must not be taken for another.
    let start = [(-1, -1), (0, -1), (-2, 0), (-1, 0), (-1, 1)];
    let mut expected = sorted(&start);
    let mut uni = with_cells(&start);
    for n in [3usize, 1, 2, 6, 1, 4, 5, 8, 1, 3] {
        for _ in 0..n {
            expected = naive_step(&expected);
        }
        uni.simulate(n).unwrap();
        assert_eq!(live_cells(&uni), expected, "after {} more", n);
    }
}

#[test]
fn simulate_under_another_rule() {
    // Under B36/S23 a pattern of six live neighbours gives birth.
    let mut rule = Rule::game_of_life();
    rule.set_birth(6).unwrap();
    let mut uni = Universe::new(rule);
    for (x, y) in [(-1, -1), (0, -1), (1, -1), (-1, 0), (1, 0), (-1, 1)] {
        uni.set(x, y, true).unwrap();
    }
    uni.simulate(1).unwrap();
    assert!(live_cells(&uni).contains(&(0, 0)));
    let mut uni = life();
    for (x, y) in [(-1, -1), (0, -1), (1, -1), (-1, 0), (1, 0), (-1, 1)] {
        uni.set(x, y, true).unwrap();
    }
    uni.simulate(1).unwrap();
    assert!(!live_cells(&uni).contains(&(0, 0)));
}

#[test]
fn second_set_interns_nothing() {
    let mut uni = with_cells(&[(5, 5), (-3, 2)]);
    uni.set(700, -7, true).unwrap();
    let root = uni.root();
    let count = uni.mem();
    let level = uni.level();
    let bounds = uni.boundary();
    uni.set(700, -7, true).unwrap();
    assert_eq!(uni.root(), root);
    assert_eq!(uni.mem(), count);
    assert_eq!(uni.level(), level);
    assert_eq!(uni.boundary(), bounds);
    uni.set(0, 0, false).unwrap();
    assert_eq!(uni.root(), root);
    assert_eq!(uni.mem(), count);
}

#[test]
fn set_grows_the_root_as_far_as_the_cell_asks() {
    let mut uni = life();
    assert_eq!(uni.level(), 3);
    uni.set(3, -4, true).unwrap();
    assert_eq!(uni.level(), 3);
    uni.set(4, 0, true).unwrap();
    assert_eq!(uni.level(), 4);
    uni.set(-9, 0, false).unwrap();
    assert_eq!(uni.level(), 5);
    uni.set(-16, 15, true).unwrap();
    assert_eq!(uni.level(), 5);
    uni.set(0, -17, true).unwrap();
    assert_eq!(uni.level(), 6);
    uni.set(1, 1, false).unwrap();
    assert_eq!(uni.level(), 6);
}

#[test]
fn simulate_leaves_the_least_root_from_level_four() {
    let mut uni = with_cells(&[(0, 0), (1, 0), (1, 1), (1, 2), (-1, 0), (-1, 1), (-1, 2)]);
    uni.simulate(7).unwrap();
    assert_eq!(uni.level(), 4);
    assert_eq!(uni.debug(uni.root()).len(), 16);
    let mut uni = with_cells(&[(1, 0), (2, 1), (0, 2), (1, 2), (2, 2)]);
    uni.simulate(4 * 40).unwrap();
    // The glider has its cells in columns and rows 40 to 42.
    assert_eq!(uni.level(), 7);
    let mut uni = life();
    uni.simulate(12).unwrap();
    assert_eq!(uni.level(), 4);
}

#[test]
fn set_twice_is_set_once() {
    let mut once = with_cells(&[(5, 5), (-3, 2)]);
    once.set(7, -7, true).unwrap();
    let mut twice = with_cells(&[(5, 5), (-3, 2)]);
    twice.set(7, -7, true).unwrap();
    twice.set(7, -7, true).unwrap();
    assert_eq!(live_cells(&once), live_cells(&twice));
    assert_eq!(once.root(), twice.root());
    assert_eq!(live_cells(&once), vec![(-3, 2), (5, 5), (7, -7)]);
}

#[test]
fn clearing_a_dead_cell_changes_nothing() {
    let mut uni = with_cells(&[(5, 5), (-3, 2)]);
    let before = live_cells(&uni);
    uni.set(1, 1, false).unwrap();
    assert_eq!(live_cells(&uni), before);
    uni.set(1000, -1000, false).unwrap();
    assert_eq!(live_cells(&uni), before);
    assert_eq!(uni.boundary(), (-3, 2, 6, 6));
}

#[test]
fn clearing_a_live_cell_removes_it() {
    let mut uni = with_cells(&[(5, 5), (-3, 2)]);
    uni.set(5, 5, false).unwrap();
    assert_eq!(live_cells(&uni), vec![(-3, 2)]);
    uni.set(-3, 2, false).unwrap();
    assert_eq!(uni.boundary(), EMPTY);
    assert!(uni.write_cells().is_empty());
}

#[test]
fn write_cells_then_set_gives_the_same_universe() {
    let mut uni = with_cells(&[(0, 0), (1, 0), (1, 1), (1, 2), (-1, 0), (-1, 1), (-1, 2)]);
    uni.simulate(37).unwrap();
    let cells = live_cells(&uni);
    let mut copy = life();
    for &(x, y) in &cells {
        copy.set(x, y, true).unwrap();
    }
    assert_eq!(copy.boundary(), uni.boundary());
    assert_eq!(live_cells(&copy), cells);
}

#[test]
fn write_cells_gives_leaves_with_live_cells() {
    let uni = with_cells(&[(0, 0), (9, 9), (-20, 3)]);
    let items: Vec<CellData> = write_cells(&uni);
    assert_eq!(items.len(), 3);
    for item in &items {
        assert!(item.nw | item.ne | item.sw | item.se != 0);
        assert_eq!(item.x.rem_euclid(8), 0);
        assert_eq!(item.y.rem_euclid(8), 0);
    }
    assert_eq!((items[0].x, items[0].y), (-24, 0));
    assert_eq!(items[0].ne, 0b0000_0000_0000_1000);
    assert_eq!((items[1].x, items[1].y), (0, 0));
    assert_eq!(items[1].nw, 0b1000_0000_0000_0000);
    assert_eq!((items[2].x, items[2].y), (8, 8));
    assert_eq!(items[2].nw, 0b0000_0100_0000_0000);
}

#[test]
fn single_cell_far_out_round_trips() {
    let far: i64 = 1 << 60;
    for (x, y) in [(far, far), (-far, far), (far, -far), (-far, -far), (far, 0), (0, -far), (0, 0), (-1, -1)] {
        let mut uni = life();
        uni.set(x, y, true).unwrap();
        assert_eq!(uni.boundary(), (x, y, x + 1, y + 1));
        assert_eq!(live_cells(&uni), vec![(x, y)]);
    }
}

#[test]
fn cells_at_the_edge_of_the_lattice() {
    let mut uni = life();
    uni.set(LATTICE_RADIUS - 1, -LATTICE_RADIUS, true).unwrap();
    assert_eq!(
        uni.boundary(),
        (LATTICE_RADIUS - 1, -LATTICE_RADIUS, LATTICE_RADIUS, -LATTICE_RADIUS + 1)
    );
    assert_eq!(uni.level(), 63);
}

#[test]
fn set_refuses_cells_outside_the_lattice() {
    let mut uni = with_cells(&[(1, 1)]);
    let root = uni.root();
    let count = uni.mem();
    for (x, y) in [
        (LATTICE_RADIUS, 0),
        (0, LATTICE_RADIUS),
        (-LATTICE_RADIUS - 1, 0),
        (0, -LATTICE_RADIUS - 1),
        (i64::MAX, i64::MIN),
    ] {
        assert_eq!(uni.set(x, y, true), Err(UniverseError::LatticeOverflow));
        assert_eq!(uni.set(x, y, false), Err(UniverseError::LatticeOverflow));
    }
    assert_eq!(uni.root(), root);
    assert_eq!(uni.mem(), count);
}

#[test]
fn expand_keeps_the_cells() {
    let mut uni = with_cells(&[(1, 1), (-4, 3)]);
    let before = live_cells(&uni);
    let level = uni.level();
    assert_eq!(uni.expand(), Ok(()));
    assert_eq!(uni.level(), level + 1);
    assert_eq!(live_cells(&uni), before);
    assert_eq!(uni.boundary(), (-4, 1, 2, 4));
}

#[test]
fn expand_stops_at_the_largest_root() {
    let mut uni = with_cells(&[(1, 1)]);
    while uni.level() < 63 {
        assert_eq!(uni.expand(), Ok(()));
    }
    let root = uni.root();
    assert_eq!(uni.expand(), Err(UniverseError::LatticeOverflow));
    assert_eq!(uni.root(), root);
    assert_eq!(uni.boundary(), (1, 1, 2, 2));
}

#[test]
fn shrink_undoes_expand() {
    let mut uni = with_cells(&[(1, 1), (-6, 3)]);
    assert_eq!(uni.level(), 4);
    let root = uni.root();
    for _ in 0..5 {
        uni.expand().unwrap();
    }
    assert_eq!(uni.level(), 9);
    uni.shrink();
    assert_eq!(uni.level(), 4);
    assert_eq!(uni.root(), root);
}

#[test]
fn shrink_stops_at_live_cells() {
    let mut uni = with_cells(&[(40, 0)]);
    assert_eq!(uni.level(), 7);
    uni.expand().unwrap();
    uni.expand().unwrap();
    uni.shrink();
    assert_eq!(uni.level(), 7);
    assert_eq!(uni.boundary(), (40, 0, 41, 1));
}

#[test]
fn simulate_refuses_a_pattern_that_leaves_the_lattice() {
    // A glider next to the south-east corner of the lattice, heading out.
    let x = LATTICE_RADIUS - 4;
    let cells = [(x + 1, x), (x + 2, x + 1), (x, x + 2), (x + 1, x + 2), (x + 2, x + 2)];
    let mut uni = with_cells(&cells);
    let root = uni.root();
    assert_eq!(uni.simulate(64), Err(UniverseError::LatticeOverflow));
    assert_eq!(uni.root(), root);
    assert_eq!(live_cells(&uni), sorted(&cells));
    // It has room for a few generations.
    assert_eq!(uni.simulate(4), Ok(()));
    assert_eq!(uni.boundary(), (x + 1, x + 1, x + 4, x + 4));
}

#[test]
fn blinker_period() {
    let mut uni = with_cells(&[(0, 0), (1, 0), (2, 0)]);
    uni.simulate(1).unwrap();
    assert_eq!(live_cells(&uni), vec![(1, -1), (1, 0), (1, 1)]);
    uni.simulate(1).unwrap();
    assert_eq!(live_cells(&uni), vec![(0, 0), (1, 0), (2, 0)]);
    let mut uni = with_cells(&[(0, 0), (1, 0), (2, 0)]);
    uni.simulate(2).unwrap();
    assert_eq!(live_cells(&uni), vec![(0, 0), (1, 0), (2, 0)]);
}

#[test]
fn glider_displacement() {
    let glider = [(1, 0), (2, 1), (0, 2), (1, 2), (2, 2)];
    let mut uni = with_cells(&glider);
    uni.simulate(4).unwrap();
    let moved: Vec<(i64, i64)> = glider.iter().map(|&(x, y)| (x + 1, y + 1)).collect();
    assert_eq!(live_cells(&uni), sorted(&moved));
    for k in [0i64, 1, 2, 5, 17, 250, 1 << 20, 1 << 40] {
        let mut uni = with_cells(&glider);
        uni.simulate(4 * k as usize).unwrap();
        let moved: Vec<(i64, i64)> = glider.iter().map(|&(x, y)| (x + k, y + k)).collect();
        assert_eq!(live_cells(&uni), sorted(&moved), "k = {}", k);
    }
}

#[test]
fn r_pentomino_stabilization() {
    let start = [(1, 0), (2, 0), (0, 1), (1, 1), (1, 2)];
    let mut uni = with_cells(&start);
    uni.simulate(1103).unwrap();
    assert_eq!(live_cells(&uni).len(), 116);
    uni.simulate(1).unwrap();
    assert_eq!(live_cells(&uni).len(), 116);
}

#[test]
fn empty_simulate() {
    let mut uni = life();
    assert_eq!(uni.simulate(1_000_000_000_000_000_000), Ok(()));
    assert_eq!(uni.boundary(), EMPTY);
    assert!(uni.write_cells().is_empty());
}

#[test]
fn empty_simulate_by_a_huge_power_of_two() {
    let mut uni = life();
    assert_eq!(uni.simulate(1 << 63), Ok(()));
    assert_eq!(uni.boundary(), EMPTY);
    // Only the chain of empty macrocells was interned.
    assert!(uni.mem() <= 70);
    assert_eq!(uni.simulate(usize::MAX), Ok(()));
    assert_eq!(uni.boundary(), EMPTY);
    assert!(uni.mem() <= 70);
}

#[test]
fn empty_simulate_interns_the_chain_of_empty_nodes() {
    for k in 0..=59usize {
        let mut uni = life();
        assert_eq!(uni.mem(), 1);
        uni.simulate(1 << k).unwrap();
        let top = if k + 3 > 6 { k + 3 } else { 6 };
        assert!(uni.mem() <= top - 2, "k = {}: {} nodes", k, uni.mem());
        assert!(uni.mem() - 1 <= k + 3);
        for i in 1..=uni.mem() as u64 {
            assert_eq!(uni.node_level(NodeId(i)) as u64, i + 2);
        }
        // A second run starts from a root of level 4 and stays in the chain.
        uni.simulate(1 << k).unwrap();
        assert!(uni.mem() <= top - 2, "k = {}: {} nodes", k, uni.mem());
    }
}

#[test]
fn step_of_an_empty_node_is_the_empty_node_below() {
    let mut uni = life();
    let top = uni.find_empty_node(6);
    let below = uni.find_empty_node(5);
    let count = uni.mem();
    for k in 0..8 {
        assert_eq!(uni.step(top, k), below);
    }
    assert_eq!(uni.mem(), count);
}

#[test]
fn step_is_remembered() {
    let mut uni = with_cells(&[(-1, -1), (0, -1), (-2, 0), (-1, 0), (-1, 1)]);
    uni.expand().unwrap();
    uni.expand().unwrap();
    let root = uni.root();
    let first = uni.step(root, 3);
    assert_eq!(uni.as_internal(root).result, first);
    assert_eq!(uni.as_internal(root).result_k, 3);
    let count = uni.mem();
    assert_eq!(uni.step(root, 3), first);
    assert_eq!(uni.step(root, 9), first);
    assert_eq!(uni.mem(), count);
    // Another exponent gives another result, and the first comes back.
    let other = uni.step(root, 0);
    assert_ne!(other, first);
    assert_eq!(uni.step(root, 3), first);
}

#[test]
fn clear_results_forgets_the_levels_in_between() {
    let mut uni = with_cells(&[(-1, -1), (0, -1), (-2, 0), (-1, 0), (-1, 1)]);
    uni.expand().unwrap();
    uni.expand().unwrap();
    uni.expand().unwrap();
    let root = uni.root();
    assert_eq!(uni.level(), 6);
    uni.step(root, 2);
    let nw = uni.as_internal(root).key.nw;
    let leaf_parent = uni.as_internal(nw).key.se;
    assert_ne!(uni.as_internal(root).result, NodeId(0));
    assert_ne!(uni.as_internal(nw).result, NodeId(0));
    assert_ne!(uni.as_internal(leaf_parent).result, NodeId(0));
    // Levels 5 and 6 ran for 4 generations and would run for more at 4;
    // level 4 runs for 4 generations either way.
    uni.clear_results(2, 4);
    assert_eq!(uni.as_internal(root).result, NodeId(0));
    assert_eq!(uni.as_internal(nw).result, NodeId(0));
    assert_ne!(uni.as_internal(leaf_parent).result, NodeId(0));
}

#[test]
fn write_buffer_packs_rows() {
    let uni = with_cells(&[(-3, -1), (0, -2), (-2, 0), (-1, 0), (-1, 2), (6, 2)]);
    assert_eq!(uni.boundary(), (-3, -2, 7, 3));
    let rows = write_buffer(&uni).unwrap();
    assert_eq!(
        rows,
        vec![
            vec![0b0001_0000, 0b0000_0000],
            vec![0b1000_0000, 0b0000_0000],
            vec![0b0110_0000, 0b0000_0000],
            vec![0b0000_0000, 0b0000_0000],
            vec![0b0010_0000, 0b0100_0000],
        ]
    );
}

#[test]
fn byte_range_table() {
    let table = hashlife::bounds::compute_byte_range();
    assert_eq!(table.len(), 256);
    assert_eq!(table[0], (i64::MAX, i64::MIN));
    assert_eq!(table[0b1000_0000], (-4, -3));
    assert_eq!(table[0b0000_0001], (3, 4));
    assert_eq!(table[0b0001_1000], (-1, 1));
    assert_eq!(table[0b1111_1111], (-4, 4));
    assert_eq!(table[0b0100_0010], (-3, 3));
    for m in 1..256usize {
        let low = (m as u8).leading_zeros() as i64 - 4;
        let high = 4 - (m as u8).trailing_zeros() as i64;
        assert_eq!(table[m], (low, high));
        assert_eq!(hashlife::bounds::byte_range(m as u16), (low, high));
    }
}

#[test]
fn leaf_center_is_the_middle_square() {
    let key = hashlife::node::LeafNodeKey {
        nw: 0b0000_0000_0011_0011,
        ne: 0b0000_0000_1100_0100,
        sw: 0b0010_0011_0000_0000,
        se: 0b1000_1100_0000_0000,
    };
    assert_eq!(key.center(), 0b1111_1101_1010_1111);
}
