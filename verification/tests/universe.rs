use hashlife::node::NodeKey;
use hashlife::rule::Rule;
use hashlife::universe::Universe;

fn life() -> Universe {
    Universe::new(Rule::game_of_life())
}

fn with_cells(cells: &[(i64, i64)]) -> Universe {
    let mut uni = life();
    for &(x, y) in cells {
        uni.set(x, y, true).unwrap();
    }
    uni
}

fn picture(rows: &[u128], side: usize) -> String {
    let mut lines: Vec<String> = Vec::new();
    for row in rows {
        let mut line = String::new();
        for c in 0..side {
            if row >> (side - 1 - c) & 1 == 1 {
                line.push('#');
            } else {
                line.push(' ');
            }
        }
        lines.push(line);
    }
    lines.join("\n")
}

#[test]
fn universe_test_debug_level3() {
    let mut uni = life();
    uni.set(-1, -1, true).unwrap();
    uni.set(0, 0, true).unwrap();
    assert_eq!(
        uni.debug(uni.root()),
        vec![
            0b_0000_0000,
            0b_0000_0000,
            0b_0000_0000,
            0b_0001_0000,
            0b_0000_1000,
            0b_0000_0000,
            0b_0000_0000,
            0b_0000_0000,
        ]
    );
}

#[test]
fn test_debug_level4() {
    let mut uni = life();
    uni.set(-7, -7, true).unwrap();
    uni.set(0, -6, true).unwrap();
    uni.set(-3, 0, true).unwrap();
    uni.set(-1, 0, true).unwrap();
    uni.set(-3, 1, true).unwrap();
    uni.set(3, 1, true).unwrap();
    uni.set(6, 3, true).unwrap();
    uni.set(4, 6, true).unwrap();
    assert_eq!(
        uni.debug(uni.root()),
        vec![
            0b_0000_0000_0000_0000,
            0b_0100_0000_0000_0000,
            0b_0000_0000_1000_0000,
            0b_0000_0000_0000_0000,
            0b_0000_0000_0000_0000,
            0b_0000_0000_0000_0000,
            0b_0000_0000_0000_0000,
            0b_0000_0000_0000_0000,
            0b_0000_0101_0000_0000,
            0b_0000_0100_0001_0000,
            0b_0000_0000_0000_0000,
            0b_0000_0000_0000_0010,
            0b_0000_0000_0000_0000,
            0b_0000_0000_0000_0000,
            0b_0000_0000_0000_1000,
            0b_0000_0000_0000_0000,
        ]
    );
}

#[test]
fn test_boundary_level3() {
    let mut uni = life();
    uni.set(-3, -1, true).unwrap();
    uni.set(0, -2, true).unwrap();
    uni.set(-2, 0, true).unwrap();
    uni.set(-1, 0, true).unwrap();
    uni.set(-1, 2, true).unwrap();
    assert_eq!(uni.boundary(), (-3, -2, 1, 3));
}

#[test]
fn test_boundary_level4() {
    let mut uni = life();
    uni.set(-3, -1, true).unwrap();
    uni.set(0, -2, true).unwrap();
    uni.set(-2, 0, true).unwrap();
    uni.set(4, 0, true).unwrap();
    uni.set(-6, 3, true).unwrap();
    uni.set(2, 1, true).unwrap();
    uni.set(-1, 0, true).unwrap();
    uni.set(-1, 2, true).unwrap();
    assert_eq!(uni.boundary(), (-6, -2, 5, 4));
}

#[test]
fn universe_test_level2_result() {
    let uni = life();
    assert_eq!(uni.level2_results()[0b_0000_0110_1100_0100], 0b_11_0000);
    assert_eq!(uni.level2_results()[0b_1100_0100_0000_0000], 0b_10_0000);
}

#[test]
fn test_level3_result1() {
    let mut uni = life();
    let node = uni.find_node(NodeKey::new_leaf(
        0b_0000_0000_0000_0001,
        0b_0000_0000_0000_1000,
        0b_0011_0001_0000_0000,
        0b_0000_0000_0000_0000,
    ));
    let node = *uni.as_leaf(node);
    assert_eq!(node.results[0], 0b_0000_1110_1000_1100);

    let node = uni.find_node(NodeKey::new_leaf(
        0b_0000_0000_0001_0011,
        0b_0000_0000_0000_0000,
        0b_0100_0011_0000_0000,
        0b_1000_0000_0000_0000,
    ));
    let node = *uni.as_leaf(node);
    assert_eq!(node.results[0], 0b_1100_1110_0010_1100);
}

#[test]
fn test_level3_result2() {
    let mut uni = life();
    let node = uni.find_node(NodeKey::new_leaf(
        0b_0000_0000_0000_0001,
        0b_0000_0000_0000_1000,
        0b_0011_0001_0000_0000,
        0b_0000_0000_0000_0000,
    ));
    let node = *uni.as_leaf(node);
    assert_eq!(node.results[1], 0b_0100_1100_0010_1100);

    let node = uni.find_node(NodeKey::new_leaf(
        0b_0000_0000_0000_0000,
        0b_0000_0000_0000_0000,
        0b_0000_0000_0001_0000,
        0b_0100_1100_0010_1100,
    ));
    let node = *uni.as_leaf(node);
    assert_eq!(node.results[1], 0b_0000_0000_0010_0100);
}

fn r_pentomino() -> Universe {
    with_cells(&[(-1, -1), (0, -1), (-2, 0), (-1, 0), (-1, 1)])
}

#[test]
fn test_level4_result1() {
    let mut uni = r_pentomino();
    uni.expand().unwrap();
    let node = uni.step(uni.root(), 0);
    assert_eq!(
        uni.debug(node),
        vec![
            0b_0000_0000,
            0b_0000_0000,
            0b_0000_0000,
            0b_0011_1000,
            0b_0010_0000,
            0b_0011_0000,
            0b_0000_0000,
            0b_0000_0000,
        ]
    );
}

#[test]
fn test_level4_result2() {
    let mut uni = r_pentomino();
    uni.expand().unwrap();
    let node = uni.step(uni.root(), 1);
    assert_eq!(
        uni.debug(node),
        vec![
            0b_0000_0000,
            0b_0000_0000,
            0b_0001_0000,
            0b_0011_0000,
            0b_0100_1000,
            0b_0011_0000,
            0b_0000_0000,
            0b_0000_0000,
        ]
    );
}

#[test]
fn test_level4_result4() {
    let mut uni = r_pentomino();
    uni.expand().unwrap();
    let node = uni.step(uni.root(), 2);
    assert_eq!(
        uni.debug(node),
        vec![
            0b_0000_0000,
            0b_0000_0000,
            0b_0010_1000,
            0b_0100_1000,
            0b_0100_1000,
            0b_0011_0000,
            0b_0000_0000,
            0b_0000_0000,
        ]
    );
}

#[test]
fn test_level5_result4() {
    let mut uni = life();
    uni.set(0, 0, true).unwrap();
    uni.set(0, -1, true).unwrap();
    uni.set(-1, -1, true).unwrap();
    uni.set(-2, -1, true).unwrap();
    uni.set(-1, -2, true).unwrap();
    uni.set(-2, -2, true).unwrap();
    uni.set(-3, 0, true).unwrap();
    uni.set(-2, 1, true).unwrap();
    uni.set(-1, 1, true).unwrap();
    uni.expand().unwrap();
    uni.expand().unwrap();
    let root = uni.step(uni.root(), 2);
    uni.set_root(root);
    uni.shrink();
    assert_eq!(
        uni.debug(uni.root()),
        vec![
            0b_0000_0000_0000_0000,
            0b_0000_0000_0000_0000,
            0b_0000_0000_0000_0000,
            0b_0000_0000_0000_0000,
            0b_0000_0000_0000_0000,
            0b_0000_0001_0000_0000,
            0b_0000_0110_1100_0000,
            0b_0000_0100_0000_0000,
            0b_0000_0100_0100_0000,
            0b_0000_0011_1000_0000,
            0b_0000_0000_0000_0000,
            0b_0000_0000_0000_0000,
            0b_0000_0000_0000_0000,
            0b_0000_0000_0000_0000,
            0b_0000_0000_0000_0000,
            0b_0000_0000_0000_0000,
        ]
    );
}

#[test]
fn test_simulation_2_gen() {
    let mut uni = r_pentomino();
    uni.simulate(2).unwrap();
    assert_eq!(
        uni.debug(uni.root()),
        vec![
            0b_0000_0000_0000_0000,
            0b_0000_0000_0000_0000,
            0b_0000_0000_0000_0000,
            0b_0000_0000_0000_0000,
            0b_0000_0000_0000_0000,
            0b_0000_0000_0000_0000,
            0b_0000_0001_0000_0000,
            0b_0000_0011_0000_0000,
            0b_0000_0100_1000_0000,
            0b_0000_0011_0000_0000,
            0b_0000_0000_0000_0000,
            0b_0000_0000_0000_0000,
            0b_0000_0000_0000_0000,
            0b_0000_0000_0000_0000,
            0b_0000_0000_0000_0000,
            0b_0000_0000_0000_0000,
        ]
    );
}

fn pi_heptomino() -> Universe {
    with_cells(&[(0, 0), (1, 0), (1, 1), (1, 2), (-1, 0), (-1, 1), (-1, 2)])
}

#[test]
fn test_simulation_7_gen() {
    let mut uni = pi_heptomino();
    uni.simulate(7).unwrap();
    assert_eq!(
        uni.debug(uni.root()),
        vec![
            0b_0000_0000_0000_0000,
            0b_0000_0000_0000_0000,
            0b_0000_0000_0000_0000,
            0b_0000_0000_0000_0000,
            0b_0000_0000_0000_0000,
            0b_0000_0000_1000_0000,
            0b_0000_0001_1100_0000,
            0b_0000_0011_0110_0000,
            0b_0000_0110_0011_0000,
            0b_0000_0011_0110_0000,
            0b_0000_0000_0000_0000,
            0b_0000_0000_0000_0000,
            0b_0000_0000_0000_0000,
            0b_0000_0000_0000_0000,
            0b_0000_0000_0000_0000,
            0b_0000_0000_0000_0000,
        ]
    );
}

#[test]
fn test_simulation_8_gen() {
    let mut uni = pi_heptomino();
    uni.simulate(8).unwrap();
    assert_eq!(
        uni.debug(uni.root()),
        vec![
            0b_0000_0000_0000_0000,
            0b_0000_0000_0000_0000,
            0b_0000_0000_0000_0000,
            0b_0000_0000_0000_0000,
            0b_0000_0000_0000_0000,
            0b_0000_0001_1100_0000,
            0b_0000_0010_0010_0000,
            0b_0000_0100_0001_0000,
            0b_0000_0100_0001_0000,
            0b_0000_0111_0111_0000,
            0b_0000_0000_0000_0000,
            0b_0000_0000_0000_0000,
            0b_0000_0000_0000_0000,
            0b_0000_0000_0000_0000,
            0b_0000_0000_0000_0000,
            0b_0000_0000_0000_0000,
        ]
    );
}

#[test]
fn test_simulation_16_gen() {
    let mut uni = pi_heptomino();
    uni.simulate(16).unwrap();
    assert_eq!(
        uni.debug(uni.root()),
        vec![
            0b_0000_0000_0000_0000,
            0b_0000_0000_0000_0000,
            0b_0000_0000_0000_0000,
            0b_0000_0001_1100_0000,
            0b_0000_0000_1000_0000,
            0b_0000_0000_0000_0000,
            0b_0011_1000_0000_1110,
            0b_0101_0001_1100_0101,
            0b_0100_0000_0000_0001,
            0b_0110_1100_0001_1011,
            0b_0001_0001_0100_0100,
            0b_0001_1100_0001_1100,
            0b_0000_0000_0000_0000,
            0b_0000_0000_0000_0000,
            0b_0000_0000_0000_0000,
            0b_0000_0000_0000_0000,
        ]
    );
}

#[test]
fn lib_test_debug_level3() {
    let uni = r_pentomino();
    assert_eq!(
        &picture(&uni.debug(uni.root()), 8),
        "
        
        
        
   ##   
  ##    
   #    
        
        "
        .trim_start_matches('\n')
    );
}

#[test]
fn test_boundary() {
    let uni = r_pentomino();
    assert_eq!(uni.boundary(), (-2, -1, 1, 2));
}
