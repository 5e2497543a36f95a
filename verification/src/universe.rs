//! The universe: the node store, the root macrocell and the canonical empty
//! macrocells.

use crate::bits::{lemma_zero_bit, quad_alive, quad_grid};
use crate::bounds::{byte_range_ok, compute_byte_range};
use crate::index::{index_find, index_insert, index_keys, index_len, index_new};
use crate::life::{lemma_shows_empty, life_iter, neighbor_count, next_alive};
use crate::node::{InternalNode, InternalNodeKey, LeafNode, LeafNodeKey, Node, NodeId, NodeKey};
use crate::rule::Rule;
use crate::store::{
    empties_ok, empty_ok, grows, half, index_ok, is_result, key_of, lemma_empties_frame,
    lemma_grows, lemma_node_ok_frame, level_of, node_grid, node_of, node_ok, nodes_ok,
    shape_of, strip, valid_id,
};
use crate::table::{compute_level2_results, compute_level3_results, level2_table_ok};
use indexmap::IndexSet;
use rustc_hash::FxBuildHasher;
use vstd::arithmetic::power2::pow2;
use vstd::prelude::*;

verus! {

/// Why an operation on the universe was refused.
#[derive(Clone, Copy, PartialEq, Eq, Debug, Structural)]
pub enum UniverseError {
    /// The pattern would not fit in a macrocell of level 63, the largest whose
    /// cells all have 64-bit coordinates to spare.
    LatticeOverflow,
}

/// The largest level that the root may have.
pub const MAX_ROOT_LEVEL: u16 = 63;

/// An unbounded plane of cells, held as a quadtree of interned macrocells
/// centred at the origin.
pub struct Universe {
    pub(crate) index: IndexSet<(u8, u64, u64, u64, u64), FxBuildHasher>,
    pub(crate) nodes: Vec<Node>,
    pub(crate) root: NodeId,
    pub(crate) empty_nodes: Vec<NodeId>,
    /// The centre 2x2 square of every 4x4 square after one generation:
    ///
    /// ```text
    /// bit 7 ...  5  4  3  2  1  0
    ///     -     NW NE  -  - SW SE
    /// ```
    pub(crate) level2_results: Vec<u8>,
    /// The box of every 8-bit mask of columns or rows.
    pub(crate) byte_range: Vec<(i64, i64)>,
    pub(crate) rule: Rule,
}

/// The all-zero 4x4 square has no live cell.
pub proof fn lemma_zero_quad()
    ensures
        forall|p: (int, int)| !(#[trigger] quad_grid(0).contains(p)),
{
    assert forall|p: (int, int)| !(#[trigger] quad_grid(0).contains(p)) by {
        if quad_alive(0, p.0, p.1) {
            lemma_zero_bit((5 - p.0 - 4 * p.1) as u16);
        }
    }
}

/// A universe without live cells stays without live cells.
pub proof fn lemma_iter_empty(rule: Rule, g: Set<(int, int)>, t: nat)
    requires
        rule.wf(),
        forall|p: (int, int)| !g.contains(p),
    ensures
        forall|p: (int, int)| !life_iter(rule, g, t).contains(p),
    decreases t,
{
    if t > 0 {
        let h = life_iter(rule, g, (t - 1) as nat);
        lemma_iter_empty(rule, g, (t - 1) as nat);
        assert forall|p: (int, int)| !life_iter(rule, g, t).contains(p) by {
            assert(neighbor_count(h, p.0, p.1) == 0);
            assert(!next_alive(rule, h, p.0, p.1));
        }
    }
}

/// The canonical empty macrocells have no live cell.
pub proof fn lemma_empty_grid(nodes: Seq<Node>, rule: Rule, empties: Seq<NodeId>, l: int)
    requires
        nodes_ok(nodes, rule),
        empties_ok(nodes, empties),
        3 <= l < empties.len(),
    ensures
        forall|p: (int, int)| !node_grid(nodes, empties[l]).contains(p),
    decreases l,
{
    reveal(node_grid);
    assert(empty_ok(nodes, empties, l));
    let id = empties[l];
    let g = node_grid(nodes, id);
    assert(node_ok(nodes, rule, id.0 as int - 1));
    match node_of(nodes, id) {
        Node::Leaf(leaf) => {
            lemma_zero_quad();
            assert(leaf.key == LeafNodeKey { nw: 0, ne: 0, sw: 0, se: 0 });
            assert forall|p: (int, int)| !g.contains(p) by {
                assert(!quad_grid(0).contains((p.0 + 2, p.1 + 2)));
                assert(!quad_grid(0).contains((p.0 - 2, p.1 + 2)));
                assert(!quad_grid(0).contains((p.0 + 2, p.1 - 2)));
                assert(!quad_grid(0).contains((p.0 - 2, p.1 - 2)));
            }
        },
        Node::Internal(n) => {
            lemma_empty_grid(nodes, rule, empties, l - 1);
            assert(empty_ok(nodes, empties, l - 1));
            let c = empties[l - 1];
            let r = half(n.level - 1);
            assert(n.key == InternalNodeKey { nw: c, ne: c, sw: c, se: c });
            assert forall|p: (int, int)| !g.contains(p) by {
                assert(!node_grid(nodes, c).contains((p.0 + r, p.1 + r)));
                assert(!node_grid(nodes, c).contains((p.0 - r, p.1 + r)));
                assert(!node_grid(nodes, c).contains((p.0 + r, p.1 - r)));
                assert(!node_grid(nodes, c).contains((p.0 - r, p.1 - r)));
            }
        },
    }
}

impl Universe {
    /// The nodes of the store, in the order in which they were interned.
    pub open(crate) spec fn store(&self) -> Seq<Node> {
        self.nodes@
    }

    pub open(crate) spec fn spec_root(&self) -> NodeId {
        self.root
    }

    pub open(crate) spec fn spec_rule(&self) -> Rule {
        self.rule
    }

    /// The canonical empty macrocells, by level.
    pub open(crate) spec fn empties(&self) -> Seq<NodeId> {
        self.empty_nodes@
    }

    pub open(crate) spec fn table(&self) -> Seq<u8> {
        self.level2_results@
    }

    /// The store is sound: the index and the nodes agree, every node is sound
    /// and the table belongs to the rule.
    pub open(crate) spec fn store_wf(&self) -> bool {
        &&& self.rule.wf()
        &&& level2_table_ok(self.rule, self.level2_results@)
        &&& byte_range_ok(self.byte_range@)
        &&& index_ok(index_keys(self.index), self.nodes@)
        &&& nodes_ok(self.nodes@, self.rule)
    }

    /// The store is sound, the canonical empty macrocells are what they are
    /// called, and the root is a macrocell.
    #[verifier::opaque]
    pub open(crate) spec fn inv(&self) -> bool {
        &&& self.store_wf()
        &&& empties_ok(self.nodes@, self.empty_nodes@)
        &&& valid_id(self.nodes@, self.root)
    }

    /// The universe is sound, and its root is a macrocell of level 63 at
    /// most.
    pub open(crate) spec fn wf(&self) -> bool {
        &&& self.inv()
        &&& level_of(self.nodes@, self.root) <= MAX_ROOT_LEVEL
    }

    /// `id` names a node of this universe.
    pub open spec fn valid(&self, id: NodeId) -> bool {
        valid_id(self.store(), id)
    }

    /// The live cells of the macrocell `id`, relative to its centre.
    pub open spec fn grid(&self, id: NodeId) -> Set<(int, int)> {
        node_grid(self.store(), id)
    }

    pub open spec fn spec_level_of(&self, id: NodeId) -> int {
        level_of(self.store(), id)
    }

    pub open spec fn spec_key_of(&self, id: NodeId) -> NodeKey {
        key_of(self.store(), id)
    }

    /// The live cells of the universe.
    pub open spec fn cells(&self) -> Set<(int, int)> {
        node_grid(self.store(), self.spec_root())
    }

    /// Every node of `old` is a node of this universe, under the same handle
    /// and with the same cells; rule and canonical empty macrocells are kept.
    pub open spec fn grows_from(&self, old: &Universe) -> bool {
        &&& grows(old.store(), self.store())
        &&& self.spec_rule() == old.spec_rule()
        &&& self.table() == old.table()
        &&& old.empties().len() <= self.empties().len()
        &&& forall|l: int| 0 <= l < old.empties().len() ==> self.empties()[l] == old.empties()[l]
    }

    /// The internal node `node` holds `result` as its centre after `2 ^ k`
    /// generations.
    pub open spec fn caches(&self, node: NodeId, result: NodeId, k: u16) -> bool {
        &&& self.valid(node)
        &&& node_of(self.store(), node) is Internal
        &&& node_of(self.store(), node)->Internal_0.result == result
        &&& node_of(self.store(), node)->Internal_0.result_k == k
    }

    /// No node of the store has a live cell.
    pub open spec fn is_barren(&self) -> bool {
        crate::canon::barren(self.store())
    }

    /// Every node of the store has a level of `top` at most.
    pub open spec fn is_capped(&self, top: int) -> bool {
        crate::canon::capped(self.store(), top)
    }

    /// `node` is the canonical empty macrocell of its level.
    pub open spec fn is_canonical_empty(&self, node: NodeId) -> bool {
        &&& self.spec_level_of(node) < self.empties().len()
        &&& node == self.empties()[self.spec_level_of(node)]
    }

    /// A sound universe has a sound store and a root that is one of its
    /// macrocells, of level 3 to 63.
    pub proof fn lemma_wf(&self)
        requires
            self.wf(),
        ensures
            self.inv(),
            self.store_wf(),
            self.valid(self.spec_root()),
            3 <= self.spec_level_of(self.spec_root()) <= MAX_ROOT_LEVEL,
    {
        reveal(Universe::inv);
        crate::store::lemma_kind(self.store(), self.spec_rule(), self.spec_root());
    }

    /// A universe whose store, canonical empty macrocells and root are sound
    /// has a sound store and a root that is one of its macrocells; it is
    /// sound if the level of its root is 63 at most.
    pub proof fn lemma_inv(&self)
        requires
            self.inv(),
        ensures
            self.store_wf(),
            self.valid(self.spec_root()),
            3 <= self.spec_level_of(self.spec_root()),
            self.spec_level_of(self.spec_root()) <= MAX_ROOT_LEVEL ==> self.wf(),
    {
        reveal(Universe::inv);
        crate::store::lemma_kind(self.store(), self.spec_rule(), self.spec_root());
    }

    /// Growing is transitive.
    pub proof fn lemma_grows_from_trans(&self, mid: &Universe, old: &Universe)
        requires
            self.grows_from(mid),
            mid.grows_from(old),
        ensures
            self.grows_from(old),
    {
        crate::store::lemma_grows_trans(old.store(), mid.store(), self.store());
    }

    /// `key` can be interned: the quadrants of an internal key are nodes of
    /// one level, and there is a level above it.
    pub open spec fn key_ok(&self, key: NodeKey) -> bool {
        match key {
            NodeKey::Leaf(_) => true,
            NodeKey::Internal(k) => {
                &&& self.valid(k.nw)
                &&& self.valid(k.ne)
                &&& self.valid(k.sw)
                &&& self.valid(k.se)
                &&& self.spec_level_of(k.nw) < u16::MAX
                &&& self.spec_level_of(k.ne) == self.spec_level_of(k.nw)
                &&& self.spec_level_of(k.sw) == self.spec_level_of(k.nw)
                &&& self.spec_level_of(k.se) == self.spec_level_of(k.nw)
            },
        }
    }

    /// The level that a node with the given key has.
    pub open spec fn key_level(&self, key: NodeKey) -> int {
        match key {
            NodeKey::Leaf(_) => 3,
            NodeKey::Internal(k) => self.spec_level_of(k.nw) + 1,
        }
    }

    /// What interning `key` in `pre` gives: the handle `id` of the one node
    /// with that key. If `pre` holds the node already, nothing changes;
    /// otherwise the node is added at the end of the store, with nothing
    /// cached.
    pub open spec fn interned(&self, pre: &Universe, key: NodeKey, id: NodeId) -> bool {
        &&& self.valid(id)
        &&& self.spec_key_of(id) == key
        &&& self.spec_level_of(id) == pre.key_level(key)
        &&& forall|o: NodeId| pre.valid(o) && pre.spec_key_of(o) == key ==> o == id
        &&& pre.valid(id) ==> self.store() == pre.store()
        &&& !pre.valid(id) ==> {
            &&& id.0 == pre.store().len() + 1
            &&& self.store().len() == pre.store().len() + 1
            &&& self.store().take(pre.store().len() as int) == pre.store()
            &&& node_of(self.store(), id) == strip(node_of(self.store(), id))
            &&& !node_of(self.store(), id).spec_mark()
        }
        &&& self.spec_root() == pre.spec_root()
        &&& self.empties() == pre.empties()
    }

    /// The position in the store of the node that `id` names.
    fn slot(&self, id: NodeId) -> (i: usize)
        requires
            self.valid(id),
        ensures
            i == id.0 - 1,
            i < self.store().len(),
    {
        let n = self.nodes.len();
        (id.0 - 1) as usize
    }

    /// The node that `id` names.
    pub fn node(&self, id: NodeId) -> (n: &Node)
        requires
            self.valid(id),
        ensures
            *n == node_of(self.store(), id),
    {
        &self.nodes[self.slot(id)]
    }

    /// The level of the node that `id` names.
    pub fn node_level(&self, id: NodeId) -> (level: u16)
        requires
            self.valid(id),
        ensures
            level == self.spec_level_of(id),
    {
        self.nodes[self.slot(id)].level()
    }

    /// The leaf that `id` names.
    pub fn as_leaf(&self, id: NodeId) -> (leaf: &LeafNode)
        requires
            self.valid(id),
            self.spec_key_of(id) is Leaf,
        ensures
            node_of(self.store(), id) == Node::Leaf(*leaf),
            self.spec_key_of(id) == NodeKey::Leaf(leaf.key),
    {
        self.nodes[self.slot(id)].unwrap_leaf_ref()
    }

    /// The internal node that `id` names.
    pub fn as_internal(&self, id: NodeId) -> (inner: &InternalNode)
        requires
            self.valid(id),
            self.spec_key_of(id) is Internal,
        ensures
            node_of(self.store(), id) == Node::Internal(*inner),
            self.spec_key_of(id) == NodeKey::Internal(inner.key),
            self.spec_level_of(id) == inner.level,
    {
        self.nodes[self.slot(id)].unwrap_internal_ref()
    }

    /// The number of interned nodes.
    pub fn mem(&self) -> (n: usize)
        requires
            self.store_wf(),
        ensures
            n == self.store().len(),
    {
        index_len(&self.index)
    }

    /// The handle of the root macrocell.
    pub fn root(&self) -> (id: NodeId)
        ensures
            id == self.spec_root(),
    {
        self.root
    }

    /// The rule of this universe.
    pub fn rule(&self) -> (rule: Rule)
        ensures
            rule == self.spec_rule(),
    {
        self.rule
    }

    /// The level of the root macrocell.
    pub fn level(&self) -> (level: u16)
        requires
            self.wf(),
        ensures
            level == self.spec_level_of(self.spec_root()),
            3 <= level <= MAX_ROOT_LEVEL,
    {
        proof {
            reveal(Universe::inv);
            assert(node_ok(self.nodes@, self.rule, self.root.0 as int - 1));
        }
        self.node_level(self.root)
    }

    /// The table of the centres of all 4x4 squares after one generation.
    pub fn level2_results(&self) -> (table: &Vec<u8>)
        ensures
            table@ == self.table(),
    {
        &self.level2_results
    }

    /// Makes `node` the root.
    pub fn set_root(&mut self, node: NodeId)
        requires
            old(self).wf(),
            old(self).valid(node),
            old(self).spec_level_of(node) <= MAX_ROOT_LEVEL,
        ensures
            final(self).wf(),
            final(self).grows_from(old(self)),
            final(self).store() == old(self).store(),
            final(self).spec_root() == node,
    {
        proof {
            reveal(Universe::inv);
            lemma_grows(self.nodes@, self.nodes@);
        }
        self.root = node;
    }

    /// The handle of the node with the given key, which is interned first if
    /// the store does not hold it yet.
    pub fn find_node(&mut self, key: NodeKey) -> (id: NodeId)
        requires
            old(self).store_wf(),
            old(self).key_ok(key),
        ensures
            final(self).store_wf(),
            final(self).grows_from(old(self)),
            final(self).interned(old(self), key, id),
            old(self).inv() ==> final(self).inv(),
            old(self).is_barren() && (key is Leaf ==> key == NodeKey::Leaf(
                LeafNodeKey { nw: 0, ne: 0, sw: 0, se: 0 },
            )) ==> final(self).is_barren(),
            forall|top: int|
                #[trigger] old(self).is_capped(top) && old(self).key_level(key) <= top
                    ==> final(self).is_capped(top),
    {
        proof {
            reveal(Universe::inv);
        }
        let ghost pre = *self;
        let code = key.encode();
        let count = self.nodes.len();
        match index_find(&self.index, &code) {
            Some(i) => {
                proof {
                    let found = NodeId((i + 1) as u64);
                    assert(self.nodes@[i as int].key().encoding() == key.encoding());
                    assert forall|o: NodeId|
                        pre.valid(o) && pre.spec_key_of(o) == key implies o == found by {
                        let j = o.0 as int - 1;
                        assert(index_keys(self.index)[j] == self.nodes@[j].key().encoding());
                        if j != i {
                            if j < i {
                                assert(index_keys(self.index)[j] != index_keys(self.index)[i as int]);
                            } else {
                                assert(index_keys(self.index)[i as int] != index_keys(self.index)[j]);
                            }
                        }
                    }
                    assert(node_ok(self.nodes@, self.rule, i as int));
                    match key {
                        NodeKey::Leaf(_) => {},
                        NodeKey::Internal(k) => {},
                    }
                    lemma_grows(self.nodes@, self.nodes@);
                }
                NodeId((i + 1) as u64)
            },
            None => {
                let node = match key {
                    NodeKey::Internal(k) => {
                        let level = self.node_level(k.nw) + 1;
                        Node::new_internal(k, level)
                    },
                    NodeKey::Leaf(k) => {
                        let results = compute_level3_results(&self.rule, &self.level2_results, &k);
                        Node::new_leaf(k, results)
                    },
                };
                let ghost keys = index_keys(self.index);
                let (_pos, _fresh) = index_insert(&mut self.index, code);
                self.nodes.push(node);
                let id = NodeId(self.nodes.len() as u64);
                proof {
                    let old_nodes = pre.nodes@;
                    let new_nodes = self.nodes@;
                    let n = old_nodes.len() as int;
                    assert(new_nodes.take(n) =~= old_nodes);
                    assert(index_keys(self.index) == keys.push(code));
                    assert forall|o: NodeId|
                        pre.valid(o) && pre.spec_key_of(o) == key implies o == id by {
                        let j = o.0 as int - 1;
                        assert(keys[j] == old_nodes[j].key().encoding());
                    }
                    assert forall|i: int| 0 <= i < new_nodes.len() implies #[trigger] index_keys(
                        self.index,
                    )[i] == new_nodes[i].key().encoding() by {
                        if i < n {
                            assert(keys[i] == old_nodes[i].key().encoding());
                        }
                    }
                    lemma_grows(old_nodes, new_nodes);
                    assert forall|i: int| 0 <= i < new_nodes.len() implies #[trigger] node_ok(
                        new_nodes,
                        self.rule,
                        i,
                    ) by {
                        if i < n {
                            assert(node_ok(old_nodes, self.rule, i));
                            lemma_node_ok_frame(old_nodes, new_nodes, self.rule, i);
                        } else {
                            match key {
                                NodeKey::Leaf(_) => {},
                                NodeKey::Internal(k) => {
                                    assert(node_ok(old_nodes, self.rule, k.nw.0 as int - 1));
                                },
                            }
                        }
                    }
                    if pre.inv() {
                        lemma_empties_frame(old_nodes, new_nodes, self.empty_nodes@);
                    }
                    match key {
                        NodeKey::Leaf(_) => {},
                        NodeKey::Internal(k) => {
                            assert(shape_of(new_nodes, k.nw) == shape_of(old_nodes, k.nw));
                        },
                    }
                    if pre.is_barren() && (key is Leaf ==> key == NodeKey::Leaf(
                        LeafNodeKey { nw: 0, ne: 0, sw: 0, se: 0 },
                    )) {
                        crate::canon::lemma_barren_push(old_nodes, new_nodes, self.rule, id);
                    }
                    assert forall|top: int|
                        #[trigger] pre.is_capped(top) && pre.key_level(key)
                            <= top implies self.is_capped(top) by {
                        crate::canon::lemma_capped_push(old_nodes, new_nodes, id, top);
                    }
                }
                id
            },
        }
    }

    /// A universe without live cells under the given rule.
    pub fn new(rule: Rule) -> (uni: Universe)
        requires
            rule.wf(),
        ensures
            uni.wf(),
            uni.spec_rule() == rule,
            uni.cells() == Set::<(int, int)>::empty(),
            uni.spec_level_of(uni.spec_root()) == 3,
            uni.store().len() == 1,
            uni.is_barren(),
            uni.is_capped(3),
    {
        let level2_results = compute_level2_results(rule);
        let byte_range = compute_byte_range();
        let mut empty_nodes: Vec<NodeId> = Vec::new();
        empty_nodes.push(NodeId(0));
        empty_nodes.push(NodeId(0));
        empty_nodes.push(NodeId(0));
        empty_nodes.push(NodeId(0));
        let mut uni = Universe {
            index: index_new(),
            nodes: Vec::new(),
            root: NodeId(0),
            empty_nodes,
            level2_results,
            byte_range,
            rule,
        };
        let root = uni.find_node(NodeKey::new_leaf(0, 0, 0, 0));
        uni.root = root;
        uni.empty_nodes.set(3, root);
        proof {
            reveal(Universe::inv);
            assert forall|l: int| 0 <= l < uni.empty_nodes@.len() implies #[trigger] empty_ok(
                uni.nodes@,
                uni.empty_nodes@,
                l,
            ) by {}
            lemma_empty_grid(uni.nodes@, uni.rule, uni.empty_nodes@, 3);
            assert(uni.empty_nodes@[3] == root);
            let g = node_grid(uni.nodes@, root);
            assert forall|p: (int, int)| !g.contains(p) by {
                assert(!node_grid(uni.nodes@, uni.empty_nodes@[3]).contains(p));
            }
            assert(g =~= Set::<(int, int)>::empty());
            assert(uni.is_barren() && uni.is_capped(3)) by {
                reveal(crate::canon::barren);
                reveal(crate::canon::capped);
                assert forall|id: NodeId| valid_id(uni.nodes@, id) implies id == root by {}
            }
        }
        uni
    }

    /// Stores `result` in `node` as its centre after `2 ^ k` generations.
    pub(crate) fn cache_result(&mut self, node: NodeId, result: NodeId, k: u16)
        requires
            old(self).store_wf(),
            old(self).valid(node),
            old(self).spec_key_of(node) is Internal,
            k <= old(self).spec_level_of(node) - 2,
            is_result(old(self).store(), old(self).spec_rule(), node, result, k as nat),
        ensures
            final(self).store_wf(),
            final(self).grows_from(old(self)),
            final(self).store().len() == old(self).store().len(),
            final(self).spec_root() == old(self).spec_root(),
            final(self).empties() == old(self).empties(),
            old(self).inv() ==> final(self).inv(),
            final(self).caches(node, result, k),
            forall|o: NodeId|
                old(self).valid(o) && o != node ==> #[trigger] node_of(final(self).store(), o)
                    == node_of(old(self).store(), o),
            old(self).is_barren() ==> final(self).is_barren(),
            forall|top: int| #[trigger] old(self).is_capped(top) ==> final(self).is_capped(top),
    {
        proof {
            reveal(Universe::inv);
        }
        let ghost pre = *self;
        let i = self.slot(node);
        let n = *self.nodes[i].unwrap_internal_ref();
        self.nodes.set(
            i,
            Node::Internal(
                InternalNode { key: n.key, result, result_k: k, level: n.level, mark: n.mark },
            ),
        );
        proof {
            let old_nodes = pre.nodes@;
            let new_nodes = self.nodes@;
            lemma_grows(old_nodes, new_nodes);
            assert forall|j: int| 0 <= j < new_nodes.len() implies #[trigger] node_ok(
                new_nodes,
                self.rule,
                j,
            ) by {
                assert(node_ok(old_nodes, self.rule, j));
                if j != i {
                    lemma_node_ok_frame(old_nodes, new_nodes, self.rule, j);
                } else {
                    assert(valid_id(old_nodes, n.key.nw));
                    assert(valid_id(old_nodes, n.key.ne));
                    assert(valid_id(old_nodes, n.key.sw));
                    assert(valid_id(old_nodes, n.key.se));
                    assert(shape_of(new_nodes, n.key.nw) == shape_of(old_nodes, n.key.nw));
                    assert(shape_of(new_nodes, n.key.ne) == shape_of(old_nodes, n.key.ne));
                    assert(shape_of(new_nodes, n.key.sw) == shape_of(old_nodes, n.key.sw));
                    assert(shape_of(new_nodes, n.key.se) == shape_of(old_nodes, n.key.se));
                    assert(shape_of(new_nodes, node) == shape_of(old_nodes, node));
                    assert(shape_of(new_nodes, result) == shape_of(old_nodes, result));
                    assert(node_grid(new_nodes, node) == node_grid(old_nodes, node));
                    assert(node_grid(new_nodes, result) == node_grid(old_nodes, result));
                }
            }
            assert forall|j: int| 0 <= j < new_nodes.len() implies #[trigger] index_keys(
                self.index,
            )[j] == new_nodes[j].key().encoding() by {
                assert(index_keys(pre.index)[j] == old_nodes[j].key().encoding());
            }
            if pre.inv() {
                lemma_empties_frame(old_nodes, new_nodes, self.empty_nodes@);
            }
            if pre.is_barren() {
                crate::canon::lemma_barren_same(old_nodes, new_nodes);
            }
            assert forall|top: int| #[trigger] pre.is_capped(top) implies self.is_capped(top) by {
                crate::canon::lemma_capped_same(old_nodes, new_nodes, top);
            }
        }
    }

    /// The canonical empty macrocell of the given level. The canonical empty
    /// macrocells of the levels up to it are interned first where they are
    /// missing; each one caches the one below it as its result.
    pub fn find_empty_node(&mut self, level: u16) -> (id: NodeId)
        requires
            old(self).inv(),
        ensures
            final(self).inv(),
            final(self).grows_from(old(self)),
            final(self).spec_root() == old(self).spec_root(),
            final(self).empties().len() > level,
            final(self).empties().len() == (if old(self).empties().len() > level {
                old(self).empties().len() as int
            } else {
                level + 1
            }),
            id == final(self).empties()[level as int],
            forall|l: int|
                old(self).empties().len() <= l <= level ==> #[trigger] final(self).caches(
                    final(self).empties()[l],
                    final(self).empties()[l - 1],
                    (l - 2) as u16,
                ),
            old(self).empties().len() > level ==> final(self).store() == old(self).store(),
            old(self).is_barren() ==> final(self).is_barren(),
            forall|top: int|
                #[trigger] old(self).is_capped(top) && level <= top ==> final(self).is_capped(top),
    {
        proof {
            reveal(Universe::inv);
            lemma_grows(self.nodes@, self.nodes@);
        }
        let ghost pre = *self;
        let mut len = self.empty_nodes.len();
        while len <= level as usize
            invariant
                self.inv(),
                self.grows_from(&pre),
                self.spec_root() == pre.spec_root(),
                len == self.empty_nodes@.len(),
                len >= 4,
                pre.empties().len() > level ==> self.empties().len() == pre.empties().len(),
                pre.empties().len() > level ==> self.store() == pre.store(),
                pre.is_barren() ==> self.is_barren(),
                forall|top: int|
                    #[trigger] pre.is_capped(top) && level <= top ==> self.is_capped(top),
                pre.empties().len() <= level ==> len <= level + 1,
                forall|l: int|
                    pre.empties().len() <= l < len ==> #[trigger] self.caches(
                        self.empties()[l],
                        self.empties()[l - 1],
                        (l - 2) as u16,
                    ),
            decreases level + 1 - len,
        {
            let ghost before = *self;
            let prev = self.empty_nodes[len - 1];
            proof {
                reveal(Universe::inv);
                assert(empty_ok(self.nodes@, self.empty_nodes@, len - 1));
            }
            let node = self.find_node(NodeKey::new_internal(prev, prev, prev, prev));
            proof {
                reveal(node_grid);
                let nodes = self.nodes@;
                lemma_empty_grid(nodes, self.rule, self.empty_nodes@, len - 1);
                assert(node_ok(nodes, self.rule, node.0 as int - 1));
                let g = node_grid(nodes, node);
                let r = half(len - 1);
                assert forall|p: (int, int)| !g.contains(p) by {
                    assert(!node_grid(nodes, prev).contains((p.0 + r, p.1 + r)));
                    assert(!node_grid(nodes, prev).contains((p.0 - r, p.1 + r)));
                    assert(!node_grid(nodes, prev).contains((p.0 + r, p.1 - r)));
                    assert(!node_grid(nodes, prev).contains((p.0 - r, p.1 - r)));
                }
                lemma_iter_empty(self.rule, g, pow2((len - 2) as nat));
                lemma_shows_empty(
                    node_grid(nodes, prev),
                    0,
                    0,
                    half(len - 1),
                    life_iter(self.rule, g, pow2((len - 2) as nat)),
                );
            }
            let ghost found = *self;
            self.cache_result(node, prev, (len - 2) as u16);
            self.empty_nodes.push(node);
            proof {
                assert forall|l: int| pre.empties().len() <= l < len + 1 implies #[trigger] self.caches(
                    self.empties()[l],
                    self.empties()[l - 1],
                    (l - 2) as u16,
                ) by {
                    if l < len {
                        let e = before.empties()[l];
                        assert(before.caches(e, before.empties()[l - 1], (l - 2) as u16));
                        assert(empty_ok(before.nodes@, before.empty_nodes@, l));
                        assert(empty_ok(before.nodes@, before.empty_nodes@, len - 1));
                        if e == node {
                            crate::store::lemma_same_key(
                                index_keys(found.index),
                                found.nodes@,
                                e,
                                node,
                            );
                            assert(false);
                        }
                        assert(found.nodes@.take(before.nodes@.len() as int) == before.nodes@
                            || found.nodes@ == before.nodes@);
                        assert(node_of(found.store(), e) == node_of(before.store(), e)) by {
                            if found.nodes@ != before.nodes@ {
                                assert(found.nodes@.take(before.nodes@.len() as int)[e.0 as int
                                    - 1] == found.nodes@[e.0 as int - 1]);
                            }
                        }
                        assert(node_of(self.store(), e) == node_of(found.store(), e));
                    }
                }
                assert forall|l: int| 0 <= l < self.empty_nodes@.len() implies #[trigger] empty_ok(
                    self.nodes@,
                    self.empty_nodes@,
                    l,
                ) by {
                    if l < len {
                        assert(empty_ok(self.nodes@, before.empty_nodes@, l));
                    }
                }
                crate::store::lemma_grows_trans(pre.nodes@, before.nodes@, self.nodes@);
            }
            len = len + 1;
        }
        self.empty_nodes[level as usize]
    }
}

} // verus!
