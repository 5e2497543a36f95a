//! The node store as a mathematical object: a sequence of nodes in which
//! every internal node comes after its quadrants.

use crate::bits::quad_grid;
use crate::life::{assembled, life_iter, shows, within};
use crate::node::{InternalNode, Node, NodeId, NodeKey};
use crate::rule::Rule;
use crate::table::leaf_results_ok;
use vstd::arithmetic::power2::{lemma_pow2_pos, lemma_pow2_unfold, pow2};
use vstd::prelude::*;

verus! {

/// `id` names a node of the store.
pub open spec fn valid_id(nodes: Seq<Node>, id: NodeId) -> bool {
    1 <= id.0 <= nodes.len()
}

/// The node that `id` names.
pub open spec fn node_of(nodes: Seq<Node>, id: NodeId) -> Node {
    nodes[id.0 as int - 1]
}

/// A node without what it caches.
pub open spec fn strip(n: Node) -> Node {
    match n {
        Node::Leaf(_) => n,
        Node::Internal(x) => Node::Internal(
            InternalNode { key: x.key, result: NodeId(0), result_k: 0, level: x.level, mark: x.mark },
        ),
    }
}

/// The part of a node that never changes once it is interned.
pub open spec fn shape_of(nodes: Seq<Node>, id: NodeId) -> Node {
    strip(node_of(nodes, id))
}

pub open spec fn key_of(nodes: Seq<Node>, id: NodeId) -> NodeKey {
    shape_of(nodes, id).key()
}

pub open spec fn level_of(nodes: Seq<Node>, id: NodeId) -> int {
    shape_of(nodes, id).spec_level() as int
}

/// Half the side of a macrocell of the given level.
pub open spec fn half(level: int) -> int {
    pow2((level - 1) as nat) as int
}

/// The live cells of the macrocell `id`, relative to its centre.
#[verifier::opaque]
pub open spec fn node_grid(nodes: Seq<Node>, id: NodeId) -> Set<(int, int)>
    decreases id.0,
{
    if !valid_id(nodes, id) {
        Set::empty()
    } else {
        match node_of(nodes, id) {
            Node::Leaf(l) => l.key.grid(),
            Node::Internal(n) => {
                if n.key.nw.0 < id.0 && n.key.ne.0 < id.0 && n.key.sw.0 < id.0 && n.key.se.0
                    < id.0 && n.level >= 2 {
                    assembled(
                        node_grid(nodes, n.key.nw),
                        node_grid(nodes, n.key.ne),
                        node_grid(nodes, n.key.sw),
                        node_grid(nodes, n.key.se),
                        half(n.level - 1),
                    )
                } else {
                    Set::empty()
                }
            },
        }
    }
}

/// `c` is a quadrant of the node at position `i`, which has level `level`:
/// it was interned earlier and is one level lower.
pub open spec fn child_ok(nodes: Seq<Node>, i: int, c: NodeId, level: u16) -> bool {
    &&& 1 <= c.0 <= i
    &&& nodes[c.0 as int - 1].spec_level() == level - 1
}

/// `r` is the centre of the macrocell `n` after `2 ^ e` generations.
pub open spec fn is_result(nodes: Seq<Node>, rule: Rule, n: NodeId, r: NodeId, e: nat) -> bool {
    &&& valid_id(nodes, r)
    &&& level_of(nodes, r) == level_of(nodes, n) - 1
    &&& shows(
        node_grid(nodes, r),
        0,
        0,
        half(level_of(nodes, n) - 1),
        life_iter(rule, node_grid(nodes, n), pow2(e)),
    )
}

/// The node at position `i` is sound: a leaf holds its true results, an
/// internal node has four quadrants one level lower, and what it caches is
/// its true result.
pub open spec fn node_ok(nodes: Seq<Node>, rule: Rule, i: int) -> bool {
    match nodes[i] {
        Node::Leaf(l) => leaf_results_ok(rule, l.key, l.results),
        Node::Internal(n) => {
            &&& n.level >= 4
            &&& child_ok(nodes, i, n.key.nw, n.level)
            &&& child_ok(nodes, i, n.key.ne, n.level)
            &&& child_ok(nodes, i, n.key.sw, n.level)
            &&& child_ok(nodes, i, n.key.se, n.level)
            &&& n.result.0 != 0 ==> {
                &&& n.result_k <= n.level - 2
                &&& is_result(nodes, rule, NodeId((i + 1) as u64), n.result, n.result_k as nat)
            }
        },
    }
}

pub open spec fn nodes_ok(nodes: Seq<Node>, rule: Rule) -> bool {
    &&& nodes.len() <= u64::MAX
    &&& forall|i: int| 0 <= i < nodes.len() ==> #[trigger] node_ok(nodes, rule, i)
}

/// The index holds the keys of the nodes, in the order of the nodes, and no
/// key twice.
pub open spec fn index_ok(keys: Seq<(u8, u64, u64, u64, u64)>, nodes: Seq<Node>) -> bool {
    &&& keys.len() == nodes.len()
    &&& forall|i: int| 0 <= i < nodes.len() ==> #[trigger] keys[i] == nodes[i].key().encoding()
    &&& forall|i: int, j: int|
        0 <= i < j < keys.len() ==> #[trigger] keys[i] != #[trigger] keys[j]
}

/// `empties[l]` is the macrocell of level `l` without live cells, for every
/// level from 3 that the sequence reaches.
pub open spec fn empties_ok(nodes: Seq<Node>, empties: Seq<NodeId>) -> bool {
    &&& empties.len() >= 4
    &&& empties.len() <= 65536
    &&& forall|l: int| 0 <= l < empties.len() ==> #[trigger] empty_ok(nodes, empties, l)
}

pub open spec fn empty_ok(nodes: Seq<Node>, empties: Seq<NodeId>, l: int) -> bool {
    if l < 3 {
        empties[l] == NodeId(0)
    } else {
        &&& valid_id(nodes, empties[l])
        &&& level_of(nodes, empties[l]) == l
        &&& if l == 3 {
            key_of(nodes, empties[l]) == NodeKey::Leaf(
                crate::node::LeafNodeKey { nw: 0, ne: 0, sw: 0, se: 0 },
            )
        } else {
            key_of(nodes, empties[l]) == NodeKey::Internal(
                crate::node::InternalNodeKey {
                    nw: empties[l - 1],
                    ne: empties[l - 1],
                    sw: empties[l - 1],
                    se: empties[l - 1],
                },
            )
        }
    }
}

/// The store `new` holds every node of `old` under the same handle, and the
/// same cells under every handle of `old`.
pub open spec fn grows(old: Seq<Node>, new: Seq<Node>) -> bool {
    &&& old.len() <= new.len()
    &&& forall|id: NodeId| valid_id(old, id) ==> #[trigger] shape_of(new, id) == shape_of(old, id)
    &&& forall|id: NodeId| valid_id(old, id) ==> #[trigger] node_grid(new, id) == node_grid(old, id)
}

/// The cells of a macrocell depend on the shapes of the nodes below it only.
pub proof fn lemma_grid_frame(old: Seq<Node>, new: Seq<Node>, id: NodeId)
    requires
        old.len() <= new.len(),
        forall|i: int| 0 <= i < old.len() ==> strip(old[i]) == strip(#[trigger] new[i]),
        valid_id(old, id),
    ensures
        node_grid(new, id) == node_grid(old, id),
    decreases id.0,
{
    reveal(node_grid);
    let i = id.0 as int - 1;
    assert(strip(old[i]) == strip(new[i]));
    match node_of(old, id) {
        Node::Leaf(l) => {},
        Node::Internal(n) => {
            if n.key.nw.0 < id.0 && n.key.ne.0 < id.0 && n.key.sw.0 < id.0 && n.key.se.0 < id.0
                && n.level >= 2 {
                if n.key.nw.0 >= 1 {
                    lemma_grid_frame(old, new, n.key.nw);
                }
                if n.key.ne.0 >= 1 {
                    lemma_grid_frame(old, new, n.key.ne);
                }
                if n.key.sw.0 >= 1 {
                    lemma_grid_frame(old, new, n.key.sw);
                }
                if n.key.se.0 >= 1 {
                    lemma_grid_frame(old, new, n.key.se);
                }
            }
        },
    }
}

/// A store that differs from another in what is cached, and in nodes added
/// at the end, grows from it.
pub proof fn lemma_grows(old: Seq<Node>, new: Seq<Node>)
    requires
        old.len() <= new.len(),
        forall|i: int| 0 <= i < old.len() ==> strip(old[i]) == strip(#[trigger] new[i]),
    ensures
        grows(old, new),
{
    assert forall|id: NodeId| valid_id(old, id) implies #[trigger] shape_of(new, id) == shape_of(
        old,
        id,
    ) by {
        assert(strip(old[id.0 as int - 1]) == strip(new[id.0 as int - 1]));
    }
    assert forall|id: NodeId| valid_id(old, id) implies #[trigger] node_grid(new, id) == node_grid(
        old,
        id,
    ) by {
        lemma_grid_frame(old, new, id);
    }
}

/// Sound nodes stay sound when the store grows, as long as what they cache
/// stays as it was.
pub proof fn lemma_node_ok_frame(old: Seq<Node>, new: Seq<Node>, rule: Rule, i: int)
    requires
        grows(old, new),
        0 <= i < old.len() <= u64::MAX,
        node_ok(old, rule, i),
        new[i] == old[i],
    ensures
        node_ok(new, rule, i),
{
    match old[i] {
        Node::Leaf(l) => {},
        Node::Internal(n) => {
            lemma_child_frame(old, new, i, n.key.nw, n.level);
            lemma_child_frame(old, new, i, n.key.ne, n.level);
            lemma_child_frame(old, new, i, n.key.sw, n.level);
            lemma_child_frame(old, new, i, n.key.se, n.level);
            if n.result.0 != 0 {
                let id = NodeId((i + 1) as u64);
                assert(valid_id(old, id));
                assert(shape_of(new, id) == shape_of(old, id));
                assert(shape_of(new, n.result) == shape_of(old, n.result));
                assert(node_grid(new, id) == node_grid(old, id));
                assert(node_grid(new, n.result) == node_grid(old, n.result));
            }
        },
    }
}

proof fn lemma_child_frame(old: Seq<Node>, new: Seq<Node>, i: int, c: NodeId, level: u16)
    requires
        grows(old, new),
        0 <= i < old.len(),
        child_ok(old, i, c, level),
    ensures
        child_ok(new, i, c, level),
{
    assert(valid_id(old, c));
    assert(shape_of(new, c) == shape_of(old, c));
}

/// The canonical empty macrocells stay what they are when the store grows.
pub proof fn lemma_empties_frame(old: Seq<Node>, new: Seq<Node>, empties: Seq<NodeId>)
    requires
        grows(old, new),
        empties_ok(old, empties),
    ensures
        empties_ok(new, empties),
{
    assert forall|l: int| 0 <= l < empties.len() implies #[trigger] empty_ok(new, empties, l) by {
        assert(empty_ok(old, empties, l));
        if l >= 3 {
            assert(shape_of(new, empties[l]) == shape_of(old, empties[l]));
        }
    }
}

/// Growing is transitive.
pub proof fn lemma_grows_trans(a: Seq<Node>, b: Seq<Node>, c: Seq<Node>)
    requires
        grows(a, b),
        grows(b, c),
    ensures
        grows(a, c),
{
    assert forall|id: NodeId| valid_id(a, id) implies #[trigger] shape_of(c, id) == shape_of(
        a,
        id,
    ) by {
        assert(shape_of(b, id) == shape_of(a, id));
    }
    assert forall|id: NodeId| valid_id(a, id) implies #[trigger] node_grid(c, id) == node_grid(
        a,
        id,
    ) by {
        assert(node_grid(b, id) == node_grid(a, id));
    }
}

/// `half` doubles from one level to the next and is positive.
pub proof fn lemma_half(level: int)
    requires
        level >= 1,
    ensures
        half(level) > 0,
        half(level + 1) == 2 * half(level),
{
    lemma_pow2_pos((level - 1) as nat);
    lemma_pow2_unfold(level as nat);
}

/// The live cells of a macrocell lie inside it.
pub proof fn lemma_grid_within(nodes: Seq<Node>, rule: Rule, id: NodeId)
    requires
        nodes_ok(nodes, rule),
        valid_id(nodes, id),
    ensures
        within(node_grid(nodes, id), -half(level_of(nodes, id)), half(level_of(nodes, id))),
    decreases id.0,
{
    reveal(node_grid);
    let i = id.0 as int - 1;
    assert(node_ok(nodes, rule, i));
    let g = node_grid(nodes, id);
    match node_of(nodes, id) {
        Node::Leaf(l) => {
            assert(half(3) == 4) by {
                vstd::arithmetic::power2::lemma2_to64();
            }
        },
        Node::Internal(n) => {
            lemma_grid_within(nodes, rule, n.key.nw);
            lemma_grid_within(nodes, rule, n.key.ne);
            lemma_grid_within(nodes, rule, n.key.sw);
            lemma_grid_within(nodes, rule, n.key.se);
            lemma_half(n.level - 1);
            let r = half(n.level - 1);
            assert forall|p: (int, int)| #[trigger] g.contains(p) implies -2 * r <= p.0 < 2 * r
                && -2 * r <= p.1 < 2 * r by {
                if p.0 < 0 {
                    if p.1 < 0 {
                        assert(node_grid(nodes, n.key.nw).contains((p.0 + r, p.1 + r)));
                    } else {
                        assert(node_grid(nodes, n.key.sw).contains((p.0 + r, p.1 - r)));
                    }
                } else {
                    if p.1 < 0 {
                        assert(node_grid(nodes, n.key.ne).contains((p.0 - r, p.1 + r)));
                    } else {
                        assert(node_grid(nodes, n.key.se).contains((p.0 - r, p.1 - r)));
                    }
                }
            }
        },
    }
}

/// What the store says of an internal node: its quadrants are nodes one
/// level lower, and its cells are theirs.
pub proof fn lemma_internal(nodes: Seq<Node>, rule: Rule, id: NodeId)
    requires
        nodes_ok(nodes, rule),
        valid_id(nodes, id),
        key_of(nodes, id) is Internal,
    ensures
        level_of(nodes, id) >= 4,
        ({
            let k = key_of(nodes, id)->Internal_0;
            &&& valid_id(nodes, k.nw)
            &&& valid_id(nodes, k.ne)
            &&& valid_id(nodes, k.sw)
            &&& valid_id(nodes, k.se)
            &&& level_of(nodes, k.nw) == level_of(nodes, id) - 1
            &&& level_of(nodes, k.ne) == level_of(nodes, id) - 1
            &&& level_of(nodes, k.sw) == level_of(nodes, id) - 1
            &&& level_of(nodes, k.se) == level_of(nodes, id) - 1
            &&& node_grid(nodes, id) == assembled(
                node_grid(nodes, k.nw),
                node_grid(nodes, k.ne),
                node_grid(nodes, k.sw),
                node_grid(nodes, k.se),
                half(level_of(nodes, id) - 1),
            )
        }),
{
    reveal(node_grid);
    assert(node_ok(nodes, rule, id.0 as int - 1));
}

/// What the store says of a leaf: it has level 3, its cells are those of its
/// key, and its results are true.
pub proof fn lemma_leaf(nodes: Seq<Node>, rule: Rule, id: NodeId)
    requires
        nodes_ok(nodes, rule),
        valid_id(nodes, id),
        key_of(nodes, id) is Leaf,
    ensures
        level_of(nodes, id) == 3,
        node_grid(nodes, id) == (key_of(nodes, id)->Leaf_0).grid(),
        node_of(nodes, id) is Leaf,
        leaf_results_ok(
            rule,
            key_of(nodes, id)->Leaf_0,
            (node_of(nodes, id)->Leaf_0).results,
        ),
{
    reveal(node_grid);
    assert(node_ok(nodes, rule, id.0 as int - 1));
}

/// Leaves are the nodes of level 3.
pub proof fn lemma_kind(nodes: Seq<Node>, rule: Rule, id: NodeId)
    requires
        nodes_ok(nodes, rule),
        valid_id(nodes, id),
    ensures
        level_of(nodes, id) >= 3,
        level_of(nodes, id) == 3 <==> key_of(nodes, id) is Leaf,
        level_of(nodes, id) >= 4 <==> key_of(nodes, id) is Internal,
{
    assert(node_ok(nodes, rule, id.0 as int - 1));
}

/// A sound node stays sound when what it caches is forgotten.
pub proof fn lemma_node_ok_cleared(old: Seq<Node>, new: Seq<Node>, rule: Rule, i: int)
    requires
        grows(old, new),
        0 <= i < old.len() <= u64::MAX,
        node_ok(old, rule, i),
        new[i] == strip(old[i]),
    ensures
        node_ok(new, rule, i),
{
    match old[i] {
        Node::Leaf(l) => {},
        Node::Internal(n) => {
            lemma_child_frame(old, new, i, n.key.nw, n.level);
            lemma_child_frame(old, new, i, n.key.ne, n.level);
            lemma_child_frame(old, new, i, n.key.sw, n.level);
            lemma_child_frame(old, new, i, n.key.se, n.level);
        },
    }
}

/// No two nodes have the same key.
pub proof fn lemma_same_key(
    keys: Seq<(u8, u64, u64, u64, u64)>,
    nodes: Seq<Node>,
    a: NodeId,
    b: NodeId,
)
    requires
        index_ok(keys, nodes),
        valid_id(nodes, a),
        valid_id(nodes, b),
        key_of(nodes, a) == key_of(nodes, b),
    ensures
        a == b,
{
    let i = a.0 as int - 1;
    let j = b.0 as int - 1;
    assert(keys[i] == nodes[i].key().encoding());
    assert(keys[j] == nodes[j].key().encoding());
    if i < j {
        assert(keys[i] != keys[j]);
    } else if j < i {
        assert(keys[j] != keys[i]);
    }
}

/// The live cells of the four quadrants of the macrocell `id`, each relative
/// to its own centre.
pub open spec fn quarters(nodes: Seq<Node>, id: NodeId) -> (
    Set<(int, int)>,
    Set<(int, int)>,
    Set<(int, int)>,
    Set<(int, int)>,
) {
    match key_of(nodes, id) {
        NodeKey::Leaf(k) => (quad_grid(k.nw), quad_grid(k.ne), quad_grid(k.sw), quad_grid(k.se)),
        NodeKey::Internal(k) => (
            node_grid(nodes, k.nw),
            node_grid(nodes, k.ne),
            node_grid(nodes, k.sw),
            node_grid(nodes, k.se),
        ),
    }
}

/// The cells of a macrocell are those of its four quadrants.
pub proof fn lemma_leaf_or_internal(nodes: Seq<Node>, rule: Rule, id: NodeId)
    requires
        nodes_ok(nodes, rule),
        valid_id(nodes, id),
    ensures
        ({
            let q = quarters(nodes, id);
            node_grid(nodes, id) == assembled(q.0, q.1, q.2, q.3, half(level_of(nodes, id) - 1))
        }),
{
    lemma_kind(nodes, rule, id);
    if key_of(nodes, id) is Leaf {
        lemma_leaf(nodes, rule, id);
        assert(half(2) == 2) by {
            vstd::arithmetic::power2::lemma2_to64();
        }
    } else {
        lemma_internal(nodes, rule, id);
    }
}

} // verus!
