use hashlife::block::{compute_level1_boundaries, level1_boundary};
use hashlife::node::NodeId;
use hashlife::rule::Rule;
use hashlife::universe::Universe;

/// A leaf with the given live cells, relative to its centre.
fn leaf(uni: &mut Universe, cells: &[(i64, i64)]) -> NodeId {
    let empty = uni.find_empty_node(3);
    uni.set_root(empty);
    for &(x, y) in cells {
        uni.set(x, y, true).unwrap();
    }
    assert_eq!(uni.level(), 3);
    uni.root()
}

fn quad_picture(q: u16) -> String {
    let mut lines: Vec<String> = Vec::new();
    for row in 0..4 {
        let mut line = String::new();
        for col in 0..4 {
            if q >> (15 - col - 4 * row) & 1 == 1 {
                line.push('#');
            } else {
                line.push(' ');
            }
        }
        lines.push(line);
    }
    lines.join("\n")
}

#[test]
fn test_quadrant_center_subnode() {
    let mut uni = Universe::new(Rule::game_of_life());
    let node = leaf(&mut uni, &[(-1, -1), (0, -1), (-2, 0), (-1, 0), (-1, 1)]);
    uni.expand().unwrap();
    let node = {
        let root = uni.root();
        let middle = uni.quadrant_center_subnode(root);
        assert_eq!(middle, node);
        uni.as_leaf(middle).key.center()
    };
    assert_eq!(
        quad_picture(node),
        "
    
 ## 
##  
 #  "
        .trim_start_matches('\n')
    );
}

#[test]
fn test_horizontal_center_subnode() {
    let mut uni = Universe::new(Rule::game_of_life());

    let node1 = leaf(
        &mut uni,
        &[(0, -4), (1, -3), (2, -2), (3, -1), (3, 0), (2, 1), (1, 2), (0, 3)],
    );
    let node2 = leaf(
        &mut uni,
        &[(-4, -1), (-3, -2), (-2, -3), (-1, -4), (-4, 0), (-3, 1), (-2, 2), (-1, 3)],
    );

    let node = uni.horizontal_center_subnode(node1, node2);
    let node = uni.as_leaf(node).key.center();

    assert_eq!(
        quad_picture(node),
        "
#  #
 ## 
 ## 
#  #"
        .trim_start_matches('\n')
    );
}

#[test]
fn test_vertical_center_subnode() {
    let mut uni = Universe::new(Rule::game_of_life());

    let node1 = leaf(
        &mut uni,
        &[(-4, 0), (-3, 1), (-2, 2), (-1, 3), (0, 3), (1, 2), (2, 1), (3, 0)],
    );
    let node2 = leaf(
        &mut uni,
        &[(-4, -1), (-3, -2), (-2, -3), (-1, -4), (0, -4), (1, -3), (2, -2), (3, -1)],
    );

    let node = uni.vertical_center_subnode(node1, node2);
    let node = uni.as_leaf(node).key.center();

    assert_eq!(
        quad_picture(node),
        "
#  #
 ## 
 ## 
#  #"
        .trim_start_matches('\n')
    );
}

#[test]
fn test_center_subnode() {
    let mut uni = Universe::new(Rule::game_of_life());

    let node1 = leaf(&mut uni, &[(0, 0), (1, 1), (2, 2), (3, 3)]);
    let node2 = leaf(&mut uni, &[(-4, 3), (-3, 2), (-2, 1), (-1, 0)]);
    let node3 = leaf(&mut uni, &[(1, -2), (2, -3), (3, -4)]);
    let node4 = leaf(&mut uni, &[(-4, -4), (-3, -4), (-4, -3), (-2, -2)]);

    let node = uni.center_subnode(node1, node2, node3, node4);
    let node = uni.as_leaf(node).key.center();

    assert_eq!(
        quad_picture(node),
        "
#  #
 ## 
 ###
# # "
            .trim_start_matches('\n')
    );
}

#[test]
fn test_one_step() {
    let mut uni = Universe::new(Rule::game_of_life());
    let node = leaf(&mut uni, &[(-1, -1), (0, -1), (-2, 0), (-1, 0), (-1, 1)]);
    assert_eq!(uni.root(), node);
    uni.expand().unwrap();
    let root = uni.root();
    let node = uni.step(root, 0);
    assert_eq!(
        quad_picture(uni.as_leaf(node).key.center()),
        "
    
### 
#   
##  "
        .trim_start_matches('\n')
    );

    uni.set_root(node);
    uni.expand().unwrap();
    let root = uni.root();
    let node = uni.step(root, 0);
    assert_eq!(
        quad_picture(uni.as_leaf(node).key.center()),
        "
 #  
##  
  # 
##  "
        .trim_start_matches('\n')
    );
}

#[test]
fn one_step_is_one_generation() {
    let mut uni = Universe::new(Rule::game_of_life());
    for (x, y) in [(-1, -1), (0, -1), (-2, 0), (-1, 0), (-1, 1)] {
        uni.set(x, y, true).unwrap();
    }
    uni.expand().unwrap();
    uni.expand().unwrap();
    uni.expand().unwrap();
    let root = uni.root();
    assert_eq!(uni.level(), 6);
    let a = uni.one_step(root);
    let b = uni.step(root, 0);
    assert_eq!(a, b);
    assert_eq!(uni.node_level(a), 5);
    let longest = uni.step(root, 60);
    assert_eq!(longest, uni.step(root, 4));
    assert_ne!(longest, a);
    // One generation on, and sixteen, as the driver has them.
    let mut other = Universe::new(Rule::game_of_life());
    for (x, y) in [(-1, -1), (0, -1), (-2, 0), (-1, 0), (-1, 1)] {
        other.set(x, y, true).unwrap();
    }
    other.simulate(1).unwrap();
    assert_eq!(uni.boundary_rec(a, 0, 0), other.boundary());
    other.simulate(15).unwrap();
    assert_eq!(uni.boundary_rec(longest, 0, 0), other.boundary());
}

#[test]
fn quadrant_center_subnode_is_the_middle() {
    let mut uni = Universe::new(Rule::game_of_life());
    for (x, y) in [(-5, -5), (4, 3), (-9, 0), (0, 10)] {
        uni.set(x, y, true).unwrap();
    }
    assert_eq!(uni.level(), 5);
    let root = uni.root();
    let middle = uni.quadrant_center_subnode(root);
    assert_eq!(uni.node_level(middle), 4);
    assert_eq!(uni.boundary_rec(middle, 0, 0), (-5, -5, 5, 4));
}

#[test]
fn subnodes_straddle_their_neighbours() {
    let mut uni = Universe::new(Rule::game_of_life());
    let west = leaf(&mut uni, &[(3, 0), (-4, 0)]);
    let east = leaf(&mut uni, &[(-4, 1), (3, 1)]);
    let h = uni.horizontal_center_subnode(west, east);
    assert_eq!(uni.boundary_rec(h, 0, 0), (-1, 0, 1, 2));
    let v = uni.vertical_center_subnode(west, east);
    assert_eq!(uni.boundary_rec(v, 0, 0), (-4, -4, 4, -3));
    // One level up.
    let a = uni.find_node(hashlife::node::NodeKey::new_internal(west, east, west, east));
    let b = uni.find_node(hashlife::node::NodeKey::new_internal(east, west, east, west));
    let h = uni.horizontal_center_subnode(a, b);
    assert_eq!(uni.as_internal(h).key.nw, east);
    assert_eq!(uni.as_internal(h).key.ne, east);
    assert_eq!(uni.as_internal(h).key.sw, east);
    assert_eq!(uni.as_internal(h).key.se, east);
    let v = uni.vertical_center_subnode(a, b);
    assert_eq!(uni.as_internal(v).key.nw, west);
    assert_eq!(uni.as_internal(v).key.ne, east);
    assert_eq!(uni.as_internal(v).key.sw, east);
    assert_eq!(uni.as_internal(v).key.se, west);
    let c = uni.center_subnode(a, b, b, a);
    assert_eq!(uni.as_internal(c).key.nw, east);
    assert_eq!(uni.as_internal(c).key.ne, east);
    assert_eq!(uni.as_internal(c).key.sw, west);
    assert_eq!(uni.as_internal(c).key.se, west);
}

#[test]
fn level_one_boundaries() {
    let table = compute_level1_boundaries();
    assert_eq!(table.len(), 16);
    assert_eq!(table[0], (i32::MAX, i32::MAX, i32::MIN, i32::MIN));
    assert_eq!(table[0b0001], (-1, -1, 0, 0));
    assert_eq!(table[0b0010], (0, -1, 1, 0));
    assert_eq!(table[0b0100], (-1, 0, 0, 1));
    assert_eq!(table[0b1000], (0, 0, 1, 1));
    assert_eq!(table[0b0110], (-1, -1, 1, 1));
    assert_eq!(table[0b0011], (-1, -1, 1, 0));
    assert_eq!(table[0b1010], (0, -1, 1, 1));
    assert_eq!(table[0b1111], (-1, -1, 1, 1));
    for q in 0..16u16 {
        assert_eq!(table[q as usize], level1_boundary(q));
    }
}
