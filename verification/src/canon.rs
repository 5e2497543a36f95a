//! Canonical form: a macrocell without live cells is the canonical empty
//! macrocell of its level.

use crate::bits::{bit16, lemma_bit_is_01, quad_alive, quad_grid};
use crate::life::{assembled, life_iter, shows, within};
use crate::node::{LeafNodeKey, Node, NodeId, NodeKey};
use crate::rule::Rule;
use crate::store::{
    grows, node_of, node_ok,
    empties_ok, empty_ok, half, index_ok, key_of, lemma_grid_within, lemma_internal, lemma_kind,
    lemma_leaf, lemma_same_key, level_of, node_grid, nodes_ok, valid_id,
};
use vstd::prelude::*;

verus! {

/// The pattern has no live cell.
pub open spec fn is_empty_grid(g: Set<(int, int)>) -> bool {
    forall|p: (int, int)| !g.contains(p)
}

proof fn lemma_nonzero_quad(q: u16)
    by (bit_vector)
    requires
        q != 0,
    ensures
        (q >> 0u16) & 1u16 == 1u16 || (q >> 1u16) & 1u16 == 1u16 || (q >> 2u16) & 1u16 == 1u16 || (q
            >> 3u16) & 1u16 == 1u16 || (q >> 4u16) & 1u16 == 1u16 || (q >> 5u16) & 1u16 == 1u16
            || (q >> 6u16) & 1u16 == 1u16 || (q >> 7u16) & 1u16 == 1u16 || (q >> 8u16) & 1u16
            == 1u16 || (q >> 9u16) & 1u16 == 1u16 || (q >> 10u16) & 1u16 == 1u16 || (q >> 11u16)
            & 1u16 == 1u16 || (q >> 12u16) & 1u16 == 1u16 || (q >> 13u16) & 1u16 == 1u16 || (q
            >> 14u16) & 1u16 == 1u16 || (q >> 15u16) & 1u16 == 1u16,
{
}

/// A 4x4 square that is not zero has a live cell.
pub proof fn lemma_quad_live(q: u16) -> (p: (int, int))
    requires
        q != 0,
    ensures
        quad_grid(q).contains(p),
{
    lemma_nonzero_quad(q);
    let i: int = if bit16(q, 0) {
        0
    } else if bit16(q, 1) {
        1
    } else if bit16(q, 2) {
        2
    } else if bit16(q, 3) {
        3
    } else if bit16(q, 4) {
        4
    } else if bit16(q, 5) {
        5
    } else if bit16(q, 6) {
        6
    } else if bit16(q, 7) {
        7
    } else if bit16(q, 8) {
        8
    } else if bit16(q, 9) {
        9
    } else if bit16(q, 10) {
        10
    } else if bit16(q, 11) {
        11
    } else if bit16(q, 12) {
        12
    } else if bit16(q, 13) {
        13
    } else if bit16(q, 14) {
        14
    } else {
        15
    };
    assert(bit16(q, i));
    let x = 1 - i % 4;
    let y = 1 - i / 4;
    assert(5 - x - 4 * y == i);
    assert(quad_alive(q, x, y));
    (x, y)
}

/// A leaf key that is not all zero has a live cell.
pub proof fn lemma_leaf_live(key: LeafNodeKey)
    requires
        key != (LeafNodeKey { nw: 0, ne: 0, sw: 0, se: 0 }),
    ensures
        !is_empty_grid(key.grid()),
{
    let g = key.grid();
    if key.nw != 0 {
        let p = lemma_quad_live(key.nw);
        assert(g.contains((p.0 - 2, p.1 - 2)));
    } else if key.ne != 0 {
        let p = lemma_quad_live(key.ne);
        assert(g.contains((p.0 + 2, p.1 - 2)));
    } else if key.sw != 0 {
        let p = lemma_quad_live(key.sw);
        assert(g.contains((p.0 - 2, p.1 + 2)));
    } else {
        let p = lemma_quad_live(key.se);
        assert(g.contains((p.0 + 2, p.1 + 2)));
    }
}

/// A square without live cells is made of four squares without live cells.
pub proof fn lemma_empty_quadrants(
    a: Set<(int, int)>,
    b: Set<(int, int)>,
    c: Set<(int, int)>,
    d: Set<(int, int)>,
    r: int,
)
    requires
        within(a, -r, r),
        within(b, -r, r),
        within(c, -r, r),
        within(d, -r, r),
        is_empty_grid(assembled(a, b, c, d, r)),
    ensures
        is_empty_grid(a),
        is_empty_grid(b),
        is_empty_grid(c),
        is_empty_grid(d),
{
    let g = assembled(a, b, c, d, r);
    assert forall|p: (int, int)| !a.contains(p) by {
        if a.contains(p) {
            assert(g.contains((p.0 - r, p.1 - r)));
        }
    }
    assert forall|p: (int, int)| !b.contains(p) by {
        if b.contains(p) {
            assert(g.contains((p.0 + r, p.1 - r)));
        }
    }
    assert forall|p: (int, int)| !c.contains(p) by {
        if c.contains(p) {
            assert(g.contains((p.0 - r, p.1 + r)));
        }
    }
    assert forall|p: (int, int)| !d.contains(p) by {
        if d.contains(p) {
            assert(g.contains((p.0 + r, p.1 + r)));
        }
    }
}

/// A macrocell without live cells is the canonical empty macrocell of its
/// level, if that one is interned.
pub proof fn lemma_empty_is_canonical(
    keys: Seq<(u8, u64, u64, u64, u64)>,
    nodes: Seq<Node>,
    rule: Rule,
    empties: Seq<NodeId>,
    id: NodeId,
)
    requires
        index_ok(keys, nodes),
        nodes_ok(nodes, rule),
        empties_ok(nodes, empties),
        valid_id(nodes, id),
        level_of(nodes, id) < empties.len(),
        is_empty_grid(node_grid(nodes, id)),
    ensures
        id == empties[level_of(nodes, id)],
    decreases level_of(nodes, id),
{
    let l = level_of(nodes, id);
    lemma_kind(nodes, rule, id);
    assert(empty_ok(nodes, empties, l));
    if l == 3 {
        lemma_leaf(nodes, rule, id);
        let key = key_of(nodes, id)->Leaf_0;
        if key != (LeafNodeKey { nw: 0, ne: 0, sw: 0, se: 0 }) {
            lemma_leaf_live(key);
        }
        lemma_same_key(keys, nodes, id, empties[3]);
    } else {
        lemma_internal(nodes, rule, id);
        let k = key_of(nodes, id)->Internal_0;
        lemma_grid_within(nodes, rule, k.nw);
        lemma_grid_within(nodes, rule, k.ne);
        lemma_grid_within(nodes, rule, k.sw);
        lemma_grid_within(nodes, rule, k.se);
        lemma_empty_quadrants(
            node_grid(nodes, k.nw),
            node_grid(nodes, k.ne),
            node_grid(nodes, k.sw),
            node_grid(nodes, k.se),
            half(l - 1),
        );
        lemma_empty_is_canonical(keys, nodes, rule, empties, k.nw);
        lemma_empty_is_canonical(keys, nodes, rule, empties, k.ne);
        lemma_empty_is_canonical(keys, nodes, rule, empties, k.sw);
        lemma_empty_is_canonical(keys, nodes, rule, empties, k.se);
        assert(empty_ok(nodes, empties, l - 1));
        lemma_same_key(keys, nodes, id, empties[l]);
    }
}

/// The pattern in the inner quarter of a square: if all live cells of a
/// square of half-width `4 * r` lie within `2 * r` of its centre, the twelve
/// outer squares of its sixteen squares of half-width `r` have no live cell.
pub proof fn lemma_outer_empty(
    nw: (Set<(int, int)>, Set<(int, int)>, Set<(int, int)>, Set<(int, int)>),
    ne: (Set<(int, int)>, Set<(int, int)>, Set<(int, int)>, Set<(int, int)>),
    sw: (Set<(int, int)>, Set<(int, int)>, Set<(int, int)>, Set<(int, int)>),
    se: (Set<(int, int)>, Set<(int, int)>, Set<(int, int)>, Set<(int, int)>),
    r: int,
)
    requires
        r > 0,
        within(nw.0, -r, r) && within(nw.1, -r, r) && within(nw.2, -r, r),
        within(ne.0, -r, r) && within(ne.1, -r, r) && within(ne.3, -r, r),
        within(sw.0, -r, r) && within(sw.2, -r, r) && within(sw.3, -r, r),
        within(se.1, -r, r) && within(se.2, -r, r) && within(se.3, -r, r),
        within(
            assembled(
                assembled(nw.0, nw.1, nw.2, nw.3, r),
                assembled(ne.0, ne.1, ne.2, ne.3, r),
                assembled(sw.0, sw.1, sw.2, sw.3, r),
                assembled(se.0, se.1, se.2, se.3, r),
                2 * r,
            ),
            -2 * r,
            2 * r,
        ),
    ensures
        is_empty_grid(nw.0) && is_empty_grid(nw.1) && is_empty_grid(nw.2),
        is_empty_grid(ne.0) && is_empty_grid(ne.1) && is_empty_grid(ne.3),
        is_empty_grid(sw.0) && is_empty_grid(sw.2) && is_empty_grid(sw.3),
        is_empty_grid(se.1) && is_empty_grid(se.2) && is_empty_grid(se.3),
{
    let a = assembled(nw.0, nw.1, nw.2, nw.3, r);
    let b = assembled(ne.0, ne.1, ne.2, ne.3, r);
    let c = assembled(sw.0, sw.1, sw.2, sw.3, r);
    let d = assembled(se.0, se.1, se.2, se.3, r);
    let g = assembled(a, b, c, d, 2 * r);
    assert forall|p: (int, int)| !nw.0.contains(p) by {
        if nw.0.contains(p) {
            assert(a.contains((p.0 - r, p.1 - r)));
            assert(g.contains((p.0 - 3 * r, p.1 - 3 * r)));
        }
    }
    assert forall|p: (int, int)| !nw.1.contains(p) by {
        if nw.1.contains(p) {
            assert(a.contains((p.0 + r, p.1 - r)));
            assert(g.contains((p.0 - r, p.1 - 3 * r)));
        }
    }
    assert forall|p: (int, int)| !nw.2.contains(p) by {
        if nw.2.contains(p) {
            assert(a.contains((p.0 - r, p.1 + r)));
            assert(g.contains((p.0 - 3 * r, p.1 - r)));
        }
    }
    assert forall|p: (int, int)| !ne.0.contains(p) by {
        if ne.0.contains(p) {
            assert(b.contains((p.0 - r, p.1 - r)));
            assert(g.contains((p.0 + r, p.1 - 3 * r)));
        }
    }
    assert forall|p: (int, int)| !ne.1.contains(p) by {
        if ne.1.contains(p) {
            assert(b.contains((p.0 + r, p.1 - r)));
            assert(g.contains((p.0 + 3 * r, p.1 - 3 * r)));
        }
    }
    assert forall|p: (int, int)| !ne.3.contains(p) by {
        if ne.3.contains(p) {
            assert(b.contains((p.0 + r, p.1 + r)));
            assert(g.contains((p.0 + 3 * r, p.1 - r)));
        }
    }
    assert forall|p: (int, int)| !sw.0.contains(p) by {
        if sw.0.contains(p) {
            assert(c.contains((p.0 - r, p.1 - r)));
            assert(g.contains((p.0 - 3 * r, p.1 + r)));
        }
    }
    assert forall|p: (int, int)| !sw.2.contains(p) by {
        if sw.2.contains(p) {
            assert(c.contains((p.0 - r, p.1 + r)));
            assert(g.contains((p.0 - 3 * r, p.1 + 3 * r)));
        }
    }
    assert forall|p: (int, int)| !sw.3.contains(p) by {
        if sw.3.contains(p) {
            assert(c.contains((p.0 + r, p.1 + r)));
            assert(g.contains((p.0 - r, p.1 + 3 * r)));
        }
    }
    assert forall|p: (int, int)| !se.1.contains(p) by {
        if se.1.contains(p) {
            assert(d.contains((p.0 + r, p.1 - r)));
            assert(g.contains((p.0 + 3 * r, p.1 + r)));
        }
    }
    assert forall|p: (int, int)| !se.2.contains(p) by {
        if se.2.contains(p) {
            assert(d.contains((p.0 - r, p.1 + r)));
            assert(g.contains((p.0 + r, p.1 + 3 * r)));
        }
    }
    assert forall|p: (int, int)| !se.3.contains(p) by {
        if se.3.contains(p) {
            assert(d.contains((p.0 + r, p.1 + r)));
            assert(g.contains((p.0 + 3 * r, p.1 + 3 * r)));
        }
    }
}

proof fn lemma_same_bits(a: u16, b: u16)
    by (bit_vector)
    requires
        (a >> 0u16) & 1u16 == (b >> 0u16) & 1u16,
        (a >> 1u16) & 1u16 == (b >> 1u16) & 1u16,
        (a >> 2u16) & 1u16 == (b >> 2u16) & 1u16,
        (a >> 3u16) & 1u16 == (b >> 3u16) & 1u16,
        (a >> 4u16) & 1u16 == (b >> 4u16) & 1u16,
        (a >> 5u16) & 1u16 == (b >> 5u16) & 1u16,
        (a >> 6u16) & 1u16 == (b >> 6u16) & 1u16,
        (a >> 7u16) & 1u16 == (b >> 7u16) & 1u16,
        (a >> 8u16) & 1u16 == (b >> 8u16) & 1u16,
        (a >> 9u16) & 1u16 == (b >> 9u16) & 1u16,
        (a >> 10u16) & 1u16 == (b >> 10u16) & 1u16,
        (a >> 11u16) & 1u16 == (b >> 11u16) & 1u16,
        (a >> 12u16) & 1u16 == (b >> 12u16) & 1u16,
        (a >> 13u16) & 1u16 == (b >> 13u16) & 1u16,
        (a >> 14u16) & 1u16 == (b >> 14u16) & 1u16,
        (a >> 15u16) & 1u16 == (b >> 15u16) & 1u16,
    ensures
        a == b,
{
}

/// Two 4x4 squares with the same live cells are the same square.
pub proof fn lemma_quad_same(a: u16, b: u16)
    requires
        quad_grid(a) == quad_grid(b),
    ensures
        a == b,
{
    assert forall|i: int| 0 <= i < 16 implies bit16(a, i) == bit16(b, i) by {
        let x = 1 - i % 4;
        let y = 1 - i / 4;
        assert(5 - x - 4 * y == i);
        assert(quad_grid(a).contains((x, y)) == quad_alive(a, x, y));
        assert(quad_grid(b).contains((x, y)) == quad_alive(b, x, y));
    }
    assert(bit16(a, 0) == bit16(b, 0));
    assert(bit16(a, 1) == bit16(b, 1));
    assert(bit16(a, 2) == bit16(b, 2));
    assert(bit16(a, 3) == bit16(b, 3));
    assert(bit16(a, 4) == bit16(b, 4));
    assert(bit16(a, 5) == bit16(b, 5));
    assert(bit16(a, 6) == bit16(b, 6));
    assert(bit16(a, 7) == bit16(b, 7));
    assert(bit16(a, 8) == bit16(b, 8));
    assert(bit16(a, 9) == bit16(b, 9));
    assert(bit16(a, 10) == bit16(b, 10));
    assert(bit16(a, 11) == bit16(b, 11));
    assert(bit16(a, 12) == bit16(b, 12));
    assert(bit16(a, 13) == bit16(b, 13));
    assert(bit16(a, 14) == bit16(b, 14));
    assert(bit16(a, 15) == bit16(b, 15));
    lemma_bit_is_01(a, 0);
    lemma_bit_is_01(a, 1);
    lemma_bit_is_01(a, 2);
    lemma_bit_is_01(a, 3);
    lemma_bit_is_01(a, 4);
    lemma_bit_is_01(a, 5);
    lemma_bit_is_01(a, 6);
    lemma_bit_is_01(a, 7);
    lemma_bit_is_01(a, 8);
    lemma_bit_is_01(a, 9);
    lemma_bit_is_01(a, 10);
    lemma_bit_is_01(a, 11);
    lemma_bit_is_01(a, 12);
    lemma_bit_is_01(a, 13);
    lemma_bit_is_01(a, 14);
    lemma_bit_is_01(a, 15);
    lemma_bit_is_01(b, 0);
    lemma_bit_is_01(b, 1);
    lemma_bit_is_01(b, 2);
    lemma_bit_is_01(b, 3);
    lemma_bit_is_01(b, 4);
    lemma_bit_is_01(b, 5);
    lemma_bit_is_01(b, 6);
    lemma_bit_is_01(b, 7);
    lemma_bit_is_01(b, 8);
    lemma_bit_is_01(b, 9);
    lemma_bit_is_01(b, 10);
    lemma_bit_is_01(b, 11);
    lemma_bit_is_01(b, 12);
    lemma_bit_is_01(b, 13);
    lemma_bit_is_01(b, 14);
    lemma_bit_is_01(b, 15);
    lemma_same_bits(a, b);
}

/// Two squares with the same live cells are made of quadrants with the same
/// live cells.
pub proof fn lemma_same_quadrants(
    a: (Set<(int, int)>, Set<(int, int)>, Set<(int, int)>, Set<(int, int)>),
    b: (Set<(int, int)>, Set<(int, int)>, Set<(int, int)>, Set<(int, int)>),
    r: int,
)
    requires
        within(a.0, -r, r) && within(a.1, -r, r) && within(a.2, -r, r) && within(a.3, -r, r),
        within(b.0, -r, r) && within(b.1, -r, r) && within(b.2, -r, r) && within(b.3, -r, r),
        assembled(a.0, a.1, a.2, a.3, r) == assembled(b.0, b.1, b.2, b.3, r),
    ensures
        a == b,
{
    let ga = assembled(a.0, a.1, a.2, a.3, r);
    let gb = assembled(b.0, b.1, b.2, b.3, r);
    assert forall|p: (int, int)| a.0.contains(p) == b.0.contains(p) by {
        if a.0.contains(p) || b.0.contains(p) {
            assert(ga.contains((p.0 - r, p.1 - r)) == a.0.contains(p));
            assert(gb.contains((p.0 - r, p.1 - r)) == b.0.contains(p));
        }
    }
    assert forall|p: (int, int)| a.1.contains(p) == b.1.contains(p) by {
        if a.1.contains(p) || b.1.contains(p) {
            assert(ga.contains((p.0 + r, p.1 - r)) == a.1.contains(p));
            assert(gb.contains((p.0 + r, p.1 - r)) == b.1.contains(p));
        }
    }
    assert forall|p: (int, int)| a.2.contains(p) == b.2.contains(p) by {
        if a.2.contains(p) || b.2.contains(p) {
            assert(ga.contains((p.0 - r, p.1 + r)) == a.2.contains(p));
            assert(gb.contains((p.0 - r, p.1 + r)) == b.2.contains(p));
        }
    }
    assert forall|p: (int, int)| a.3.contains(p) == b.3.contains(p) by {
        if a.3.contains(p) || b.3.contains(p) {
            assert(ga.contains((p.0 + r, p.1 + r)) == a.3.contains(p));
            assert(gb.contains((p.0 + r, p.1 + r)) == b.3.contains(p));
        }
    }
    assert(a.0 =~= b.0);
    assert(a.1 =~= b.1);
    assert(a.2 =~= b.2);
    assert(a.3 =~= b.3);
}

/// Two macrocells of one level with the same live cells are the same node.
pub proof fn lemma_canonical(
    keys: Seq<(u8, u64, u64, u64, u64)>,
    nodes: Seq<Node>,
    rule: Rule,
    a: NodeId,
    b: NodeId,
)
    requires
        index_ok(keys, nodes),
        nodes_ok(nodes, rule),
        valid_id(nodes, a),
        valid_id(nodes, b),
        level_of(nodes, a) == level_of(nodes, b),
        node_grid(nodes, a) == node_grid(nodes, b),
    ensures
        a == b,
    decreases level_of(nodes, a),
{
    lemma_kind(nodes, rule, a);
    lemma_kind(nodes, rule, b);
    if level_of(nodes, a) == 3 {
        lemma_leaf(nodes, rule, a);
        lemma_leaf(nodes, rule, b);
        let ka = key_of(nodes, a)->Leaf_0;
        let kb = key_of(nodes, b)->Leaf_0;
        crate::bits::lemma_quad_within(ka.nw);
        crate::bits::lemma_quad_within(ka.ne);
        crate::bits::lemma_quad_within(ka.sw);
        crate::bits::lemma_quad_within(ka.se);
        crate::bits::lemma_quad_within(kb.nw);
        crate::bits::lemma_quad_within(kb.ne);
        crate::bits::lemma_quad_within(kb.sw);
        crate::bits::lemma_quad_within(kb.se);
        lemma_same_quadrants(
            (quad_grid(ka.nw), quad_grid(ka.ne), quad_grid(ka.sw), quad_grid(ka.se)),
            (quad_grid(kb.nw), quad_grid(kb.ne), quad_grid(kb.sw), quad_grid(kb.se)),
            2,
        );
        lemma_quad_same(ka.nw, kb.nw);
        lemma_quad_same(ka.ne, kb.ne);
        lemma_quad_same(ka.sw, kb.sw);
        lemma_quad_same(ka.se, kb.se);
        lemma_same_key(keys, nodes, a, b);
    } else {
        lemma_internal(nodes, rule, a);
        lemma_internal(nodes, rule, b);
        let ka = key_of(nodes, a)->Internal_0;
        let kb = key_of(nodes, b)->Internal_0;
        lemma_grid_within(nodes, rule, ka.nw);
        lemma_grid_within(nodes, rule, ka.ne);
        lemma_grid_within(nodes, rule, ka.sw);
        lemma_grid_within(nodes, rule, ka.se);
        lemma_grid_within(nodes, rule, kb.nw);
        lemma_grid_within(nodes, rule, kb.ne);
        lemma_grid_within(nodes, rule, kb.sw);
        lemma_grid_within(nodes, rule, kb.se);
        lemma_same_quadrants(
            (
                node_grid(nodes, ka.nw),
                node_grid(nodes, ka.ne),
                node_grid(nodes, ka.sw),
                node_grid(nodes, ka.se),
            ),
            (
                node_grid(nodes, kb.nw),
                node_grid(nodes, kb.ne),
                node_grid(nodes, kb.sw),
                node_grid(nodes, kb.se),
            ),
            half(level_of(nodes, a) - 1),
        );
        lemma_canonical(keys, nodes, rule, ka.nw, kb.nw);
        lemma_canonical(keys, nodes, rule, ka.ne, kb.ne);
        lemma_canonical(keys, nodes, rule, ka.sw, kb.sw);
        lemma_canonical(keys, nodes, rule, ka.se, kb.se);
        lemma_same_key(keys, nodes, a, b);
    }
}

/// Every node of the store has no live cell.
#[verifier::opaque]
pub open spec fn barren(nodes: Seq<Node>) -> bool {
    forall|id: NodeId| valid_id(nodes, id) ==> is_empty_grid(#[trigger] node_grid(nodes, id))
}

/// Every node of the store has a level of `top` at most.
#[verifier::opaque]
pub open spec fn capped(nodes: Seq<Node>, top: int) -> bool {
    forall|id: NodeId| valid_id(nodes, id) ==> #[trigger] level_of(nodes, id) <= top
}

/// What a store without live cells says of one of its nodes.
pub proof fn lemma_barren_node(nodes: Seq<Node>, id: NodeId)
    requires
        barren(nodes),
        valid_id(nodes, id),
    ensures
        is_empty_grid(node_grid(nodes, id)),
{
    reveal(barren);
    assert(is_empty_grid(node_grid(nodes, id)));
}

/// What a store with a highest level says of one of its nodes.
pub proof fn lemma_capped_node(nodes: Seq<Node>, top: int, id: NodeId)
    requires
        capped(nodes, top),
        valid_id(nodes, id),
    ensures
        level_of(nodes, id) <= top,
{
    reveal(capped);
}

/// A cap on the levels is a cap at every higher level.
pub proof fn lemma_capped_higher(nodes: Seq<Node>, top: int, higher: int)
    requires
        capped(nodes, top),
        top <= higher,
    ensures
        capped(nodes, higher),
{
    reveal(capped);
}

/// Levels stay under their cap when nothing is added to the store.
pub proof fn lemma_capped_same(old: Seq<Node>, new: Seq<Node>, top: int)
    requires
        capped(old, top),
        grows(old, new),
        new.len() == old.len(),
    ensures
        capped(new, top),
{
    reveal(capped);
    assert forall|id: NodeId| valid_id(new, id) implies #[trigger] level_of(new, id) <= top by {
        assert(valid_id(old, id));
        assert(crate::store::shape_of(new, id) == crate::store::shape_of(old, id));
        assert(level_of(old, id) <= top);
    }
}

/// Levels stay under their cap when a node of a level under the cap is added
/// to the store.
pub proof fn lemma_capped_push(old: Seq<Node>, new: Seq<Node>, id: NodeId, top: int)
    requires
        capped(old, top),
        grows(old, new),
        new.len() == old.len() + 1,
        id.0 == new.len(),
        level_of(new, id) <= top,
    ensures
        capped(new, top),
{
    reveal(capped);
    assert forall|o: NodeId| valid_id(new, o) implies #[trigger] level_of(new, o) <= top by {
        if o.0 <= old.len() {
            assert(valid_id(old, o));
            assert(crate::store::shape_of(new, o) == crate::store::shape_of(old, o));
            assert(level_of(old, o) <= top);
        } else {
            assert(o == id);
        }
    }
}

/// A store without live cells stays one when nothing is added to it.
pub proof fn lemma_barren_same(old: Seq<Node>, new: Seq<Node>)
    requires
        barren(old),
        grows(old, new),
        new.len() == old.len(),
    ensures
        barren(new),
{
    reveal(barren);
    assert forall|id: NodeId| valid_id(new, id) implies is_empty_grid(
        #[trigger] node_grid(new, id),
    ) by {
        assert(valid_id(old, id));
        assert(is_empty_grid(node_grid(old, id)));
    }
}

/// A store without live cells stays one when an empty leaf, or a node made
/// of four of its nodes, is added to it.
pub proof fn lemma_barren_push(old: Seq<Node>, new: Seq<Node>, rule: Rule, id: NodeId)
    requires
        barren(old),
        grows(old, new),
        nodes_ok(new, rule),
        new.len() == old.len() + 1,
        id.0 == new.len(),
        key_of(new, id) is Leaf ==> key_of(new, id) == NodeKey::Leaf(
            LeafNodeKey { nw: 0, ne: 0, sw: 0, se: 0 },
        ),
    ensures
        barren(new),
{
    reveal(barren);
    assert forall|o: NodeId| valid_id(new, o) implies is_empty_grid(
        #[trigger] node_grid(new, o),
    ) by {
        if o.0 <= old.len() {
            assert(valid_id(old, o));
            assert(is_empty_grid(node_grid(old, o)));
        } else {
            assert(o == id);
            lemma_kind(new, rule, id);
            if key_of(new, id) is Leaf {
                lemma_leaf(new, rule, id);
                crate::universe::lemma_zero_quad();
                let g = node_grid(new, id);
                assert forall|p: (int, int)| !g.contains(p) by {
                    assert(!quad_grid(0).contains((p.0 + 2, p.1 + 2)));
                    assert(!quad_grid(0).contains((p.0 - 2, p.1 + 2)));
                    assert(!quad_grid(0).contains((p.0 + 2, p.1 - 2)));
                    assert(!quad_grid(0).contains((p.0 - 2, p.1 - 2)));
                }
            } else {
                lemma_internal(new, rule, id);
                let k = key_of(new, id)->Internal_0;
                assert(node_ok(new, rule, id.0 as int - 1));
                assert(valid_id(old, k.nw) && valid_id(old, k.ne) && valid_id(old, k.sw)
                    && valid_id(old, k.se));
                assert(is_empty_grid(node_grid(old, k.nw)));
                assert(is_empty_grid(node_grid(old, k.ne)));
                assert(is_empty_grid(node_grid(old, k.sw)));
                assert(is_empty_grid(node_grid(old, k.se)));
                assert(node_grid(new, k.nw) == node_grid(old, k.nw));
                assert(node_grid(new, k.ne) == node_grid(old, k.ne));
                assert(node_grid(new, k.sw) == node_grid(old, k.sw));
                assert(node_grid(new, k.se) == node_grid(old, k.se));
                let g = node_grid(new, id);
                let r = half(level_of(new, id) - 1);
                assert forall|p: (int, int)| !g.contains(p) by {
                    assert(!node_grid(new, k.nw).contains((p.0 + r, p.1 + r)));
                    assert(!node_grid(new, k.ne).contains((p.0 - r, p.1 + r)));
                    assert(!node_grid(new, k.sw).contains((p.0 + r, p.1 - r)));
                    assert(!node_grid(new, k.se).contains((p.0 - r, p.1 - r)));
                }
            }
        }
    }
}

/// A leaf without live cells has the all-zero key, and its results are zero.
pub proof fn lemma_empty_leaf(nodes: Seq<Node>, rule: Rule, id: NodeId)
    requires
        rule.wf(),
        nodes_ok(nodes, rule),
        valid_id(nodes, id),
        level_of(nodes, id) == 3,
        is_empty_grid(node_grid(nodes, id)),
    ensures
        key_of(nodes, id) == NodeKey::Leaf(LeafNodeKey { nw: 0, ne: 0, sw: 0, se: 0 }),
        node_of(nodes, id) is Leaf,
        (node_of(nodes, id)->Leaf_0).results[0] == 0,
        (node_of(nodes, id)->Leaf_0).results[1] == 0,
{
    lemma_kind(nodes, rule, id);
    lemma_leaf(nodes, rule, id);
    let key = key_of(nodes, id)->Leaf_0;
    if key != (LeafNodeKey { nw: 0, ne: 0, sw: 0, se: 0 }) {
        lemma_leaf_live(key);
    }
    let res = (node_of(nodes, id)->Leaf_0).results;
    let g = node_grid(nodes, id);
    crate::universe::lemma_iter_empty(rule, g, 1);
    crate::universe::lemma_iter_empty(rule, g, 2);
    crate::universe::lemma_zero_quad();
    reveal(shows);
    assert(quad_grid(res[0]) =~= quad_grid(0)) by {
        assert forall|p: (int, int)| !quad_grid(res[0]).contains(p) by {
            if quad_alive(res[0], p.0, p.1) {
                assert(quad_grid(res[0]).contains((p.0, p.1)) == life_iter(rule, g, 1).contains(
                    (p.0 + 0, p.1 + 0),
                ));
            }
        }
    }
    assert(quad_grid(res[1]) =~= quad_grid(0)) by {
        assert forall|p: (int, int)| !quad_grid(res[1]).contains(p) by {
            if quad_alive(res[1], p.0, p.1) {
                assert(quad_grid(res[1]).contains((p.0, p.1)) == life_iter(rule, g, 2).contains(
                    (p.0 + 0, p.1 + 0),
                ));
            }
        }
    }
    lemma_quad_same(res[0], 0);
    lemma_quad_same(res[1], 0);
}

/// In a store without live cells the nodes come level by level: the first
/// is the leaf, and every node is one level above the node before it.
pub proof fn lemma_chain_levels(
    keys: Seq<(u8, u64, u64, u64, u64)>,
    nodes: Seq<Node>,
    rule: Rule,
    n: int,
)
    requires
        index_ok(keys, nodes),
        nodes_ok(nodes, rule),
        barren(nodes),
        0 <= n <= nodes.len(),
    ensures
        forall|id: NodeId| 1 <= id.0 <= n ==> #[trigger] level_of(nodes, id) == id.0 + 2,
    decreases n,
{
    if n > 0 {
        lemma_chain_levels(keys, nodes, rule, n - 1);
        let me = NodeId(n as u64);
        lemma_kind(nodes, rule, me);
        lemma_barren_node(nodes, me);
        let l = level_of(nodes, me);
        if l == 3 {
            if n > 1 {
                let first = NodeId(1);
                assert(level_of(nodes, first) == 3);
                lemma_barren_node(nodes, first);
                assert(node_grid(nodes, first) =~= node_grid(nodes, me));
                lemma_canonical(keys, nodes, rule, first, me);
            }
        } else {
            lemma_internal(nodes, rule, me);
            assert(node_ok(nodes, rule, n - 1));
            let c = (key_of(nodes, me)->Internal_0).nw;
            assert(1 <= c.0 <= n - 1);
            assert(level_of(nodes, c) == c.0 + 2);
            if l < n + 2 {
                let other = NodeId((l - 2) as u64);
                assert(level_of(nodes, other) == other.0 + 2);
                lemma_barren_node(nodes, other);
                assert(node_grid(nodes, other) =~= node_grid(nodes, me));
                lemma_canonical(keys, nodes, rule, other, me);
            }
        }
        assert forall|id: NodeId| 1 <= id.0 <= n implies #[trigger] level_of(nodes, id) == id.0
            + 2 by {
            if id.0 == n {
                assert(id == me);
            }
        }
    }
}

} // verus!
