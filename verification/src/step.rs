//! The step engine: the centre of a macrocell, a power of two generations on.

use crate::bits::{lemma_center_shows, quad_grid};
use crate::life::{
    assembled, lemma_assemble_shows, lemma_cwindow, lemma_hwindow, lemma_quadrants_show,
    lemma_shows_empty, lemma_shows_self, lemma_shows_step, lemma_vwindow, life_iter, shows,
};
use crate::node::{InternalNodeKey, LeafNode, LeafNodeKey, NodeId, NodeKey};
use crate::store::{
    half, is_result, lemma_half, lemma_internal, lemma_kind, lemma_leaf, lemma_leaf_or_internal,
    node_ok,
};
use crate::table::leaf_results_ok;
use crate::universe::{lemma_empty_grid, lemma_iter_empty, Universe};
use vstd::arithmetic::power2::{lemma2_to64, lemma_pow2_adds, lemma_pow2_strictly_increases, pow2};
use vstd::prelude::*;

verus! {

/// The exponent that a step of the given level runs for when `k` is asked.
pub open spec fn step_exp(level: int, k: u16) -> nat {
    if k < level - 2 {
        k as nat
    } else {
        (level - 2) as nat
    }
}

/// Where the centre of the `j`-th of nine overlapping windows lies from
/// west to east, the windows being `w` apart and counted row by row.
pub open spec fn col(j: int, w: int) -> int {
    if j % 3 == 0 {
        -w
    } else if j % 3 == 1 {
        0
    } else {
        w
    }
}

/// Where the centre of the `j`-th of nine overlapping windows lies from
/// north to south.
pub open spec fn row(j: int, w: int) -> int {
    if j / 3 == 0 {
        -w
    } else if j / 3 == 1 {
        0
    } else {
        w
    }
}

impl Universe {
    /// A macrocell shows in a grown universe what it showed before.
    pub proof fn lemma_tile_kept(
        &self,
        old: &Universe,
        m: NodeId,
        level: int,
        cx: int,
        cy: int,
        s: Set<(int, int)>,
    )
        requires
            self.grows_from(old),
            old.tile(m, level, cx, cy, s),
        ensures
            self.tile(m, level, cx, cy, s),
    {
        assert(crate::store::shape_of(self.store(), m) == crate::store::shape_of(old.store(), m));
        assert(self.grid(m) == old.grid(m));
    }

    /// In a universe without live cells a leaf has the all-zero key and zero
    /// results.
    pub proof fn lemma_barren_leaf(&self, id: NodeId)
        requires
            self.inv(),
            self.valid(id),
            self.spec_level_of(id) == 3,
        ensures
            self.is_barren() ==> {
                &&& self.spec_key_of(id) == NodeKey::Leaf(
                    LeafNodeKey { nw: 0, ne: 0, sw: 0, se: 0 },
                )
                &&& crate::store::node_of(self.store(), id) is Leaf
                &&& (crate::store::node_of(self.store(), id)->Leaf_0).results[0] == 0
                &&& (crate::store::node_of(self.store(), id)->Leaf_0).results[1] == 0
            },
    {
        reveal(Universe::inv);
        if self.is_barren() {
            crate::canon::lemma_barren_node(self.store(), id);
            crate::canon::lemma_empty_leaf(self.store(), self.spec_rule(), id);
        }
    }

    /// The macrocell `m` has the given level and shows `s` around `(cx, cy)`.
    pub open spec fn tile(&self, m: NodeId, level: int, cx: int, cy: int, s: Set<(int, int)>) -> bool {
        &&& self.valid(m)
        &&& self.spec_level_of(m) == level
        &&& shows(self.grid(m), cx, cy, half(level), s)
    }

    /// The quadrants of the internal node `id`.
    pub fn quadrants(&self, id: NodeId) -> (k: InternalNodeKey)
        requires
            self.inv(),
            self.valid(id),
            self.spec_level_of(id) >= 4,
        ensures
            self.spec_key_of(id) == NodeKey::Internal(k),
            self.valid(k.nw),
            self.valid(k.ne),
            self.valid(k.sw),
            self.valid(k.se),
            self.spec_level_of(k.nw) == self.spec_level_of(id) - 1,
            self.spec_level_of(k.ne) == self.spec_level_of(id) - 1,
            self.spec_level_of(k.sw) == self.spec_level_of(id) - 1,
            self.spec_level_of(k.se) == self.spec_level_of(id) - 1,
            self.grid(id) == assembled(
                self.grid(k.nw),
                self.grid(k.ne),
                self.grid(k.sw),
                self.grid(k.se),
                half(self.spec_level_of(id) - 1),
            ),
    {
        proof {
            reveal(Universe::inv);
            lemma_kind(self.nodes@, self.rule, id);
            lemma_internal(self.nodes@, self.rule, id);
        }
        self.as_internal(id).key
    }

    /// The leaf `id`, with its quadrants and results.
    pub fn leaf(&self, id: NodeId) -> (leaf: LeafNode)
        requires
            self.inv(),
            self.valid(id),
            self.spec_level_of(id) == 3,
        ensures
            self.spec_key_of(id) == NodeKey::Leaf(leaf.key),
            crate::store::node_of(self.store(), id) == crate::node::Node::Leaf(leaf),
            self.grid(id) == leaf.key.grid(),
            leaf_results_ok(self.spec_rule(), leaf.key, leaf.results),
    {
        proof {
            reveal(Universe::inv);
            lemma_kind(self.nodes@, self.rule, id);
            lemma_leaf(self.nodes@, self.rule, id);
        }
        *self.as_leaf(id)
    }

    /// The internal node with the given quadrants.
    pub fn assemble(&mut self, nw: NodeId, ne: NodeId, sw: NodeId, se: NodeId) -> (id: NodeId)
        requires
            old(self).inv(),
            old(self).key_ok(NodeKey::Internal(InternalNodeKey { nw, ne, sw, se })),
        ensures
            final(self).inv(),
            final(self).grows_from(old(self)),
            final(self).spec_root() == old(self).spec_root(),
            final(self).empties() == old(self).empties(),
            old(self).is_barren() ==> final(self).is_barren(),
            forall|top: int|
                #[trigger] old(self).is_capped(top) && old(self).spec_level_of(nw) + 1 <= top
                    ==> final(self).is_capped(top),
            final(self).spec_key_of(id) == NodeKey::Internal(InternalNodeKey { nw, ne, sw, se }),
            final(self).valid(id),
            final(self).spec_level_of(id) == old(self).spec_level_of(nw) + 1,
            final(self).grid(id) == assembled(
                final(self).grid(nw),
                final(self).grid(ne),
                final(self).grid(sw),
                final(self).grid(se),
                half(old(self).spec_level_of(nw)),
            ),
    {
        proof {
            reveal(Universe::inv);
        }
        let id = self.find_node(NodeKey::new_internal(nw, ne, sw, se));
        proof {
            lemma_internal(self.nodes@, self.rule, id);
        }
        id
    }

    /// The leaf with the given quadrants.
    pub fn assemble_leaf(&mut self, nw: u16, ne: u16, sw: u16, se: u16) -> (id: NodeId)
        requires
            old(self).inv(),
        ensures
            final(self).inv(),
            final(self).grows_from(old(self)),
            final(self).spec_root() == old(self).spec_root(),
            final(self).empties() == old(self).empties(),
            old(self).is_barren() && nw == 0 && ne == 0 && sw == 0 && se == 0 ==> final(self).is_barren(),
            forall|top: int|
                #[trigger] old(self).is_capped(top) && 3 <= top ==> final(self).is_capped(top),
            final(self).spec_key_of(id) == NodeKey::Leaf(LeafNodeKey { nw, ne, sw, se }),
            final(self).valid(id),
            final(self).spec_level_of(id) == 3,
            final(self).grid(id) == (LeafNodeKey { nw, ne, sw, se }).grid(),
    {
        proof {
            reveal(Universe::inv);
        }
        let id = self.find_node(NodeKey::new_leaf(nw, ne, sw, se));
        proof {
            lemma_leaf(self.nodes@, self.rule, id);
        }
        id
    }

    /// The macrocell that straddles the macrocells `w` (west) and `e` (east)
    /// of one level: the east half of `w` and the west half of `e`.
    pub fn horizontal_center_subnode(&mut self, w: NodeId, e: NodeId) -> (id: NodeId)
        requires
            old(self).inv(),
            old(self).valid(w),
            old(self).valid(e),
            old(self).spec_level_of(w) == old(self).spec_level_of(e),
        ensures
            final(self).inv(),
            final(self).grows_from(old(self)),
            final(self).spec_root() == old(self).spec_root(),
            final(self).empties() == old(self).empties(),
            old(self).is_barren() ==> final(self).is_barren(),
            forall|top: int|
                #[trigger] old(self).is_capped(top) && old(self).spec_level_of(w) <= top
                    ==> final(self).is_capped(top),
            final(self).valid(id),
            final(self).spec_level_of(id) == old(self).spec_level_of(w),
            match (old(self).spec_key_of(w), old(self).spec_key_of(e)) {
                (NodeKey::Leaf(a), NodeKey::Leaf(b)) => final(self).spec_key_of(id)
                    == NodeKey::Leaf(LeafNodeKey { nw: a.ne, ne: b.nw, sw: a.se, se: b.sw }),
                (NodeKey::Internal(a), NodeKey::Internal(b)) => {
                    &&& final(self).spec_key_of(id) == NodeKey::Internal(
                        InternalNodeKey { nw: a.ne, ne: b.nw, sw: a.se, se: b.sw },
                    )
                    &&& final(self).grid(id) == assembled(
                        final(self).grid(a.ne),
                        final(self).grid(b.nw),
                        final(self).grid(a.se),
                        final(self).grid(b.sw),
                        half(old(self).spec_level_of(w) - 1),
                    )
                },
                _ => false,
            },
            old(self).spec_level_of(w) == 3 ==> final(self).grid(id) == (LeafNodeKey {
                nw: old(self).spec_key_of(w)->Leaf_0.ne,
                ne: old(self).spec_key_of(e)->Leaf_0.nw,
                sw: old(self).spec_key_of(w)->Leaf_0.se,
                se: old(self).spec_key_of(e)->Leaf_0.sw,
            }).grid(),
    {
        proof {
            reveal(Universe::inv);
            lemma_kind(self.nodes@, self.rule, w);
            lemma_kind(self.nodes@, self.rule, e);
        }
        if self.node_level(w) == 3 {
            let a = self.leaf(w).key;
            let b = self.leaf(e).key;
            proof {
                self.lemma_barren_leaf(w);
                self.lemma_barren_leaf(e);
            }
            self.assemble_leaf(a.ne, b.nw, a.se, b.sw)
        } else {
            let a = self.quadrants(w);
            let b = self.quadrants(e);
            self.assemble(a.ne, b.nw, a.se, b.sw)
        }
    }

    /// The macrocell that straddles the macrocells `n` (north) and `s`
    /// (south) of one level: the south half of `n` and the north half of `s`.
    pub fn vertical_center_subnode(&mut self, n: NodeId, s: NodeId) -> (id: NodeId)
        requires
            old(self).inv(),
            old(self).valid(n),
            old(self).valid(s),
            old(self).spec_level_of(n) == old(self).spec_level_of(s),
        ensures
            final(self).inv(),
            final(self).grows_from(old(self)),
            final(self).spec_root() == old(self).spec_root(),
            final(self).empties() == old(self).empties(),
            old(self).is_barren() ==> final(self).is_barren(),
            forall|top: int|
                #[trigger] old(self).is_capped(top) && old(self).spec_level_of(n) <= top
                    ==> final(self).is_capped(top),
            final(self).valid(id),
            final(self).spec_level_of(id) == old(self).spec_level_of(n),
            match (old(self).spec_key_of(n), old(self).spec_key_of(s)) {
                (NodeKey::Leaf(a), NodeKey::Leaf(b)) => final(self).spec_key_of(id)
                    == NodeKey::Leaf(LeafNodeKey { nw: a.sw, ne: a.se, sw: b.nw, se: b.ne }),
                (NodeKey::Internal(a), NodeKey::Internal(b)) => {
                    &&& final(self).spec_key_of(id) == NodeKey::Internal(
                        InternalNodeKey { nw: a.sw, ne: a.se, sw: b.nw, se: b.ne },
                    )
                    &&& final(self).grid(id) == assembled(
                        final(self).grid(a.sw),
                        final(self).grid(a.se),
                        final(self).grid(b.nw),
                        final(self).grid(b.ne),
                        half(old(self).spec_level_of(n) - 1),
                    )
                },
                _ => false,
            },
            old(self).spec_level_of(n) == 3 ==> final(self).grid(id) == (LeafNodeKey {
                nw: old(self).spec_key_of(n)->Leaf_0.sw,
                ne: old(self).spec_key_of(n)->Leaf_0.se,
                sw: old(self).spec_key_of(s)->Leaf_0.nw,
                se: old(self).spec_key_of(s)->Leaf_0.ne,
            }).grid(),
    {
        proof {
            reveal(Universe::inv);
            lemma_kind(self.nodes@, self.rule, n);
            lemma_kind(self.nodes@, self.rule, s);
        }
        if self.node_level(n) == 3 {
            let a = self.leaf(n).key;
            let b = self.leaf(s).key;
            proof {
                self.lemma_barren_leaf(n);
                self.lemma_barren_leaf(s);
            }
            self.assemble_leaf(a.sw, a.se, b.nw, b.ne)
        } else {
            let a = self.quadrants(n);
            let b = self.quadrants(s);
            self.assemble(a.sw, a.se, b.nw, b.ne)
        }
    }

    /// The macrocell in the middle of four macrocells of one level: their
    /// inner quadrants.
    pub fn center_subnode(&mut self, nw: NodeId, ne: NodeId, sw: NodeId, se: NodeId) -> (id:
        NodeId)
        requires
            old(self).inv(),
            old(self).valid(nw),
            old(self).valid(ne),
            old(self).valid(sw),
            old(self).valid(se),
            old(self).spec_level_of(ne) == old(self).spec_level_of(nw),
            old(self).spec_level_of(sw) == old(self).spec_level_of(nw),
            old(self).spec_level_of(se) == old(self).spec_level_of(nw),
        ensures
            final(self).inv(),
            final(self).grows_from(old(self)),
            final(self).spec_root() == old(self).spec_root(),
            final(self).empties() == old(self).empties(),
            old(self).is_barren() ==> final(self).is_barren(),
            forall|top: int|
                #[trigger] old(self).is_capped(top) && old(self).spec_level_of(nw) <= top
                    ==> final(self).is_capped(top),
            final(self).valid(id),
            final(self).spec_level_of(id) == old(self).spec_level_of(nw),
            match (
                old(self).spec_key_of(nw),
                old(self).spec_key_of(ne),
                old(self).spec_key_of(sw),
                old(self).spec_key_of(se),
            ) {
                (
                    NodeKey::Leaf(a),
                    NodeKey::Leaf(b),
                    NodeKey::Leaf(c),
                    NodeKey::Leaf(d),
                ) => final(self).spec_key_of(id) == NodeKey::Leaf(
                    LeafNodeKey { nw: a.se, ne: b.sw, sw: c.ne, se: d.nw },
                ),
                (
                    NodeKey::Internal(a),
                    NodeKey::Internal(b),
                    NodeKey::Internal(c),
                    NodeKey::Internal(d),
                ) => {
                    &&& final(self).spec_key_of(id) == NodeKey::Internal(
                        InternalNodeKey { nw: a.se, ne: b.sw, sw: c.ne, se: d.nw },
                    )
                    &&& final(self).grid(id) == assembled(
                        final(self).grid(a.se),
                        final(self).grid(b.sw),
                        final(self).grid(c.ne),
                        final(self).grid(d.nw),
                        half(old(self).spec_level_of(nw) - 1),
                    )
                },
                _ => false,
            },
            old(self).spec_level_of(nw) == 3 ==> final(self).grid(id) == (LeafNodeKey {
                nw: old(self).spec_key_of(nw)->Leaf_0.se,
                ne: old(self).spec_key_of(ne)->Leaf_0.sw,
                sw: old(self).spec_key_of(sw)->Leaf_0.ne,
                se: old(self).spec_key_of(se)->Leaf_0.nw,
            }).grid(),
    {
        proof {
            reveal(Universe::inv);
            lemma_kind(self.nodes@, self.rule, nw);
            lemma_kind(self.nodes@, self.rule, ne);
            lemma_kind(self.nodes@, self.rule, sw);
            lemma_kind(self.nodes@, self.rule, se);
        }
        if self.node_level(nw) == 3 {
            let a = self.leaf(nw).key;
            let b = self.leaf(ne).key;
            let c = self.leaf(sw).key;
            let d = self.leaf(se).key;
            proof {
                self.lemma_barren_leaf(nw);
                self.lemma_barren_leaf(ne);
                self.lemma_barren_leaf(sw);
                self.lemma_barren_leaf(se);
            }
            self.assemble_leaf(a.se, b.sw, c.ne, d.nw)
        } else {
            let a = self.quadrants(nw);
            let b = self.quadrants(ne);
            let c = self.quadrants(sw);
            let d = self.quadrants(se);
            self.assemble(a.se, b.sw, c.ne, d.nw)
        }
    }

    /// The macrocell in the middle of the macrocell `node`, one level lower:
    /// the inner quadrants of its quadrants.
    pub fn quadrant_center_subnode(&mut self, node: NodeId) -> (id: NodeId)
        requires
            old(self).inv(),
            old(self).valid(node),
            old(self).spec_level_of(node) >= 4,
        ensures
            final(self).inv(),
            final(self).grows_from(old(self)),
            final(self).spec_root() == old(self).spec_root(),
            final(self).empties() == old(self).empties(),
            old(self).is_barren() ==> final(self).is_barren(),
            forall|top: int|
                #[trigger] old(self).is_capped(top) && old(self).spec_level_of(node) <= top
                    ==> final(self).is_capped(top),
            final(self).valid(id),
            final(self).spec_level_of(id) == old(self).spec_level_of(node) - 1,
            shows(
                final(self).grid(id),
                0,
                0,
                half(old(self).spec_level_of(node) - 1),
                old(self).grid(node),
            ),
    {
        let ghost l = self.spec_level_of(node);
        let ghost g = self.grid(node);
        let ghost pre = *self;
        let key = self.quadrants(node);
        proof {
            reveal(Universe::inv);
            lemma_kind(self.nodes@, self.rule, key.nw);
            lemma_kind(self.nodes@, self.rule, key.ne);
            lemma_kind(self.nodes@, self.rule, key.sw);
            lemma_kind(self.nodes@, self.rule, key.se);
            lemma_leaf_or_internal(self.nodes@, self.rule, key.nw);
            lemma_leaf_or_internal(self.nodes@, self.rule, key.ne);
            lemma_leaf_or_internal(self.nodes@, self.rule, key.sw);
            lemma_leaf_or_internal(self.nodes@, self.rule, key.se);
            lemma_half(l - 1);
            if l > 4 {
                lemma_half(l - 2);
            } else {
                lemma2_to64();
            }
            lemma_shows_self(g, half(l));
            lemma_quadrants_show(
                pre.grid(key.nw),
                pre.grid(key.ne),
                pre.grid(key.sw),
                pre.grid(key.se),
                half(l - 1),
                0,
                0,
                g,
            );
        }
        let ghost gnw = crate::store::quarters(pre.store(), key.nw);
        let ghost gne = crate::store::quarters(pre.store(), key.ne);
        let ghost gsw = crate::store::quarters(pre.store(), key.sw);
        let ghost gse = crate::store::quarters(pre.store(), key.se);
        proof {
            lemma_cwindow(gnw, gne, gsw, gse, half(l - 2), 0, 0, g);
        }
        proof {
            if l > 4 {
                lemma_internal(self.nodes@, self.rule, key.nw);
                lemma_internal(self.nodes@, self.rule, key.ne);
                lemma_internal(self.nodes@, self.rule, key.sw);
                lemma_internal(self.nodes@, self.rule, key.se);
            }
        }
        let id = self.center_subnode(key.nw, key.ne, key.sw, key.se);
        proof {
            if l > 4 {
                let a = pre.spec_key_of(key.nw)->Internal_0;
                let b = pre.spec_key_of(key.ne)->Internal_0;
                let c = pre.spec_key_of(key.sw)->Internal_0;
                let d = pre.spec_key_of(key.se)->Internal_0;
                assert(self.grid(a.se) == pre.grid(a.se));
                assert(self.grid(b.sw) == pre.grid(b.sw));
                assert(self.grid(c.ne) == pre.grid(c.ne));
                assert(self.grid(d.nw) == pre.grid(d.nw));
            } else {
                assert(half(2) == 2);
            }
            assert(self.grid(id) == assembled(gnw.3, gne.2, gsw.1, gse.0, half(l - 2)));
        }
        id
    }

    /// The centre of the macrocell `node` one generation on.
    pub fn one_step(&mut self, node: NodeId) -> (r: NodeId)
        requires
            old(self).inv(),
            old(self).valid(node),
            old(self).spec_level_of(node) >= 4,
        ensures
            final(self).inv(),
            final(self).grows_from(old(self)),
            final(self).spec_root() == old(self).spec_root(),
            final(self).empties() == old(self).empties(),
            old(self).is_barren() ==> final(self).is_barren(),
            forall|top: int|
                #[trigger] old(self).is_capped(top) && old(self).spec_level_of(node) <= top
                    ==> final(self).is_capped(top),
            is_result(final(self).store(), final(self).spec_rule(), node, r, 0),
    {
        self.step(node, 0)
    }

    /// The centre of the macrocell `node` after `2 ^ min(k, level - 2)`
    /// generations, where `level` is the level of `node`. The result is one
    /// level lower than `node`. Of the canonical empty macrocell it is the
    /// canonical empty macrocell below; of any other macrocell it is
    /// remembered in the node together with the exponent, and taken from
    /// there when the same exponent is asked again.
    pub fn step(&mut self, node: NodeId, k: u16) -> (r: NodeId)
        requires
            old(self).inv(),
            old(self).valid(node),
            old(self).spec_level_of(node) >= 4,
        ensures
            final(self).inv(),
            final(self).grows_from(old(self)),
            final(self).spec_root() == old(self).spec_root(),
            final(self).empties() == old(self).empties(),
            old(self).is_barren() ==> final(self).is_barren(),
            forall|top: int|
                #[trigger] old(self).is_capped(top) && old(self).spec_level_of(node) <= top
                    ==> final(self).is_capped(top),
            is_result(
                final(self).store(),
                final(self).spec_rule(),
                node,
                r,
                step_exp(old(self).spec_level_of(node), k),
            ),
            old(self).is_canonical_empty(node) ==> final(self).store() == old(self).store(),
            old(self).is_canonical_empty(node) ==> r == old(self).empties()[
                old(self).spec_level_of(node) - 1
            ],
            !old(self).is_canonical_empty(node) ==> final(self).caches(
                node,
                r,
                step_exp(old(self).spec_level_of(node), k) as u16,
            ),
            !old(self).is_canonical_empty(node) && r != NodeId(0) && old(self).caches(
                node,
                r,
                step_exp(old(self).spec_level_of(node), k) as u16,
            ) ==> final(self).store() == old(self).store(),
        decreases old(self).spec_level_of(node), 2nat,
    {
        proof {
            reveal(Universe::inv);
        }
        let level = self.node_level(node);
        if self.empty_nodes.len() > level as usize && node == self.empty_nodes[level as usize] {
            let below = self.empty_nodes[(level - 1) as usize];
            proof {
                let nodes = self.nodes@;
                assert(crate::store::empty_ok(nodes, self.empty_nodes@, level - 1));
                lemma_empty_grid(nodes, self.rule, self.empty_nodes@, level as int);
                lemma_empty_grid(nodes, self.rule, self.empty_nodes@, level - 1);
                let t = pow2(step_exp(level as int, k));
                lemma_iter_empty(self.rule, self.grid(node), t);
                lemma_shows_empty(
                    self.grid(below),
                    0,
                    0,
                    half(level - 1),
                    life_iter(self.rule, self.grid(node), t),
                );
                crate::store::lemma_grows(nodes, nodes);
            }
            return below;
        }
        let e: u16 = if k < level - 2 {
            k
        } else {
            level - 2
        };
        proof {
            lemma_kind(self.nodes@, self.rule, node);
            assert(node_ok(self.nodes@, self.rule, node.0 as int - 1));
        }
        let n = *self.as_internal(node);
        if n.result.0 != 0 && n.result_k == e {
            proof {
                crate::store::lemma_grows(self.nodes@, self.nodes@);
            }
            return n.result;
        }
        let result = if level == 4 {
            self.leaf_step(node, k)
        } else {
            self.node_step(node, k)
        };
        self.cache_result(node, result, e);
        result
    }

    /// The step of a macrocell of level 5 or more.
    fn node_step(&mut self, node: NodeId, k: u16) -> (r: NodeId)
        requires
            old(self).inv(),
            old(self).valid(node),
            old(self).spec_level_of(node) >= 5,
        ensures
            final(self).inv(),
            final(self).grows_from(old(self)),
            final(self).spec_root() == old(self).spec_root(),
            final(self).empties() == old(self).empties(),
            old(self).is_barren() ==> final(self).is_barren(),
            forall|top: int|
                #[trigger] old(self).is_capped(top) && old(self).spec_level_of(node) <= top
                    ==> final(self).is_capped(top),
            is_result(
                final(self).store(),
                final(self).spec_rule(),
                node,
                r,
                step_exp(old(self).spec_level_of(node), k),
            ),
        decreases old(self).spec_level_of(node), 1nat,
    {
        let level = self.node_level(node);
        let m = self.step_windows(node, k);
        if k >= level - 2 {
            self.combine_full(node, m, k)
        } else {
            self.combine_partial(node, m, k)
        }
    }

    /// The nine overlapping macrocells one level below `node`: row by row,
    /// from north-west to south-east.
    #[verifier::rlimit(50)]
    fn windows(&mut self, node: NodeId) -> (n: [NodeId; 9])
        requires
            old(self).inv(),
            old(self).valid(node),
            old(self).spec_level_of(node) >= 5,
        ensures
            final(self).inv(),
            final(self).grows_from(old(self)),
            final(self).spec_root() == old(self).spec_root(),
            final(self).empties() == old(self).empties(),
            old(self).is_barren() ==> final(self).is_barren(),
            forall|top: int|
                #[trigger] old(self).is_capped(top) && old(self).spec_level_of(node) <= top
                    ==> final(self).is_capped(top),
            ({
                let l = old(self).spec_level_of(node);
                let w = half(l - 1);
                let g = old(self).grid(node);
                &&& final(self).tile(n[0], l - 1, -w, -w, g)
                &&& final(self).tile(n[1], l - 1, 0, -w, g)
                &&& final(self).tile(n[2], l - 1, w, -w, g)
                &&& final(self).tile(n[3], l - 1, -w, 0, g)
                &&& final(self).tile(n[4], l - 1, 0, 0, g)
                &&& final(self).tile(n[5], l - 1, w, 0, g)
                &&& final(self).tile(n[6], l - 1, -w, w, g)
                &&& final(self).tile(n[7], l - 1, 0, w, g)
                &&& final(self).tile(n[8], l - 1, w, w, g)
            }),
    {
        let ghost l = self.spec_level_of(node);
        let ghost g = self.grid(node);
        let ghost pre = *self;
        let key = self.quadrants(node);
        let nw = self.quadrants(key.nw);
        let ne = self.quadrants(key.ne);
        let sw = self.quadrants(key.sw);
        let se = self.quadrants(key.se);
        let ghost w = half(l - 1);
        let ghost h = half(l - 2);
        let ghost gnw = (pre.grid(nw.nw), pre.grid(nw.ne), pre.grid(nw.sw), pre.grid(nw.se));
        let ghost gne = (pre.grid(ne.nw), pre.grid(ne.ne), pre.grid(ne.sw), pre.grid(ne.se));
        let ghost gsw = (pre.grid(sw.nw), pre.grid(sw.ne), pre.grid(sw.sw), pre.grid(sw.se));
        let ghost gse = (pre.grid(se.nw), pre.grid(se.ne), pre.grid(se.sw), pre.grid(se.se));
        proof {
            lemma_half(l - 2);
            lemma_half(l - 1);
            lemma_shows_self(g, 2 * w);
            lemma_quadrants_show(
                pre.grid(key.nw),
                pre.grid(key.ne),
                pre.grid(key.sw),
                pre.grid(key.se),
                w,
                0,
                0,
                g,
            );
            lemma_hwindow(gnw, gne, h, 0, -w, g);
            lemma_vwindow(gnw, gsw, h, -w, 0, g);
            lemma_cwindow(gnw, gne, gsw, gse, h, 0, 0, g);
            lemma_vwindow(gne, gse, h, w, 0, g);
            lemma_hwindow(gsw, gse, h, 0, w, g);
        }
        let nn = self.horizontal_center_subnode(key.nw, key.ne);
        let ww = self.vertical_center_subnode(key.nw, key.sw);
        let cc = self.center_subnode(key.nw, key.ne, key.sw, key.se);
        let ee = self.vertical_center_subnode(key.ne, key.se);
        let ss = self.horizontal_center_subnode(key.sw, key.se);
        proof {
            assert(self.grid(nn) == assembled(gnw.1, gne.0, gnw.3, gne.2, h));
            assert(self.grid(ww) == assembled(gnw.2, gnw.3, gsw.0, gsw.1, h));
            assert(self.grid(cc) == assembled(gnw.3, gne.2, gsw.1, gse.0, h));
            assert(self.grid(ee) == assembled(gne.2, gne.3, gse.0, gse.1, h));
            assert(self.grid(ss) == assembled(gsw.1, gse.0, gsw.3, gse.2, h));
            assert(self.grid(key.nw) == pre.grid(key.nw));
            assert(self.grid(key.ne) == pre.grid(key.ne));
            assert(self.grid(key.sw) == pre.grid(key.sw));
            assert(self.grid(key.se) == pre.grid(key.se));
        }
        [key.nw, nn, key.ne, ww, cc, ee, key.sw, ss, key.se]
    }

    /// The step of a macrocell that shows `g` after `t` generations: the
    /// result shows `g` after the generations of the step more.
    fn step_tile(
        &mut self,
        n: NodeId,
        k: u16,
        Ghost(cx): Ghost<int>,
        Ghost(cy): Ghost<int>,
        Ghost(g): Ghost<Set<(int, int)>>,
        Ghost(t): Ghost<nat>,
    ) -> (m: NodeId)
        requires
            old(self).inv(),
            old(self).spec_level_of(n) >= 4,
            old(self).tile(n, old(self).spec_level_of(n), cx, cy, life_iter(old(self).spec_rule(), g, t)),
        ensures
            final(self).inv(),
            final(self).grows_from(old(self)),
            final(self).spec_root() == old(self).spec_root(),
            final(self).empties() == old(self).empties(),
            old(self).is_barren() ==> final(self).is_barren(),
            forall|top: int|
                #[trigger] old(self).is_capped(top) && old(self).spec_level_of(n) <= top
                    ==> final(self).is_capped(top),
            final(self).tile(
                m,
                old(self).spec_level_of(n) - 1,
                cx,
                cy,
                life_iter(
                    final(self).spec_rule(),
                    g,
                    t + pow2(step_exp(old(self).spec_level_of(n), k)),
                ),
            ),
        decreases old(self).spec_level_of(n), 3nat,
    {
        let ghost l = self.spec_level_of(n);
        let ghost before = self.grid(n);
        let m = self.step(n, k);
        proof {
            let e = step_exp(l, k);
            lemma_half(l - 1);
            if e < (l - 2) as nat {
                lemma_pow2_strictly_increases(e, (l - 2) as nat);
            }
            assert(self.grid(n) == before);
            lemma_shows_step(self.rule, before, self.grid(m), cx, cy, half(l - 1), g, t, pow2(e));
        }
        m
    }

    /// The nine overlapping macrocells one level below `node`, each advanced
    /// by `2 ^ min(k, level - 3)` generations: row by row, from north-west to
    /// south-east.
    #[verifier::rlimit(50)]
    fn step_windows(&mut self, node: NodeId, k: u16) -> (m: [NodeId; 9])
        requires
            old(self).inv(),
            old(self).valid(node),
            old(self).spec_level_of(node) >= 5,
        ensures
            final(self).inv(),
            final(self).grows_from(old(self)),
            final(self).spec_root() == old(self).spec_root(),
            final(self).empties() == old(self).empties(),
            old(self).is_barren() ==> final(self).is_barren(),
            forall|top: int|
                #[trigger] old(self).is_capped(top) && old(self).spec_level_of(node) <= top
                    ==> final(self).is_capped(top),
            ({
                let l = old(self).spec_level_of(node);
                let w = half(l - 1);
                let s = life_iter(
                    final(self).spec_rule(),
                    final(self).grid(node),
                    pow2(step_exp(l - 1, k)),
                );
                &&& final(self).tile(m[0], l - 2, -w, -w, s)
                &&& final(self).tile(m[1], l - 2, 0, -w, s)
                &&& final(self).tile(m[2], l - 2, w, -w, s)
                &&& final(self).tile(m[3], l - 2, -w, 0, s)
                &&& final(self).tile(m[4], l - 2, 0, 0, s)
                &&& final(self).tile(m[5], l - 2, w, 0, s)
                &&& final(self).tile(m[6], l - 2, -w, w, s)
                &&& final(self).tile(m[7], l - 2, 0, w, s)
                &&& final(self).tile(m[8], l - 2, w, w, s)
            }),
        decreases old(self).spec_level_of(node), 0nat,
    {
        let ghost pre = *self;
        let ghost l = self.spec_level_of(node);
        let ghost g = self.grid(node);
        let ghost w = half(l - 1);
        let ghost rule = self.rule;
        let ghost s = life_iter(rule, g, pow2(step_exp(l - 1, k)));
        let n = self.windows(node);
        let mut m: Vec<NodeId> = Vec::new();
        let mut i: usize = 0;
        proof {
            assert(life_iter(rule, g, 0) == g);
            assert forall|j: int| 0 <= j < 9 implies #[trigger] self.tile(
                n[j],
                l - 1,
                col(j, w),
                row(j, w),
                g,
            ) by {
                if j == 0 {
                } else if j == 1 {
                } else if j == 2 {
                } else if j == 3 {
                } else if j == 4 {
                } else if j == 5 {
                } else if j == 6 {
                } else if j == 7 {
                } else {
                }
            }
        }
        while i < 9
            invariant
                i <= 9,
                m@.len() == i,
                pre == *old(self),
                self.inv(),
                pre.is_barren() ==> self.is_barren(),
                forall|top: int| #[trigger] pre.is_capped(top) && l <= top ==> self.is_capped(top),
                self.grows_from(&pre),
                self.spec_root() == pre.spec_root(),
                self.empties() == pre.empties(),
                self.spec_rule() == rule,
                l == pre.spec_level_of(node),
                l >= 5,
                pre.valid(node),
                w == half(l - 1),
                g == pre.grid(node),
                s == life_iter(rule, g, pow2(step_exp(l - 1, k))),
                life_iter(rule, g, 0) == g,
                forall|j: int|
                    0 <= j < 9 ==> #[trigger] self.tile(n[j], l - 1, col(j, w), row(j, w), g),
                forall|j: int|
                    0 <= j < i ==> #[trigger] self.tile(m@[j], l - 2, col(j, w), row(j, w), s),
            decreases 9 - i,
        {
            let ghost before = *self;
            let ghost done = m@;
            proof {
                assert(self.tile(n[i as int], l - 1, col(i as int, w), row(i as int, w), g));
            }
            let r = self.step_tile(
                n[i],
                k,
                Ghost(col(i as int, w)),
                Ghost(row(i as int, w)),
                Ghost(g),
                Ghost(0),
            );
            m.push(r);
            proof {
                self.lemma_grows_from_trans(&before, &pre);
                assert forall|j: int| 0 <= j < 9 implies #[trigger] self.tile(
                    n[j],
                    l - 1,
                    col(j, w),
                    row(j, w),
                    g,
                ) by {
                    assert(before.tile(n[j], l - 1, col(j, w), row(j, w), g));
                    self.lemma_tile_kept(&before, n[j], l - 1, col(j, w), row(j, w), g);
                }
                assert forall|j: int| 0 <= j < i + 1 implies #[trigger] self.tile(
                    m@[j],
                    l - 2,
                    col(j, w),
                    row(j, w),
                    s,
                ) by {
                    if j < i {
                        assert(before.tile(done[j], l - 2, col(j, w), row(j, w), s));
                        self.lemma_tile_kept(&before, done[j], l - 2, col(j, w), row(j, w), s);
                    }
                }
            }
            i = i + 1;
        }
        proof {
            assert(self.grid(node) == g);
            assert(self.tile(m@[0], l - 2, col(0, w), row(0, w), s));
            assert(self.tile(m@[1], l - 2, col(1, w), row(1, w), s));
            assert(self.tile(m@[2], l - 2, col(2, w), row(2, w), s));
            assert(self.tile(m@[3], l - 2, col(3, w), row(3, w), s));
            assert(self.tile(m@[4], l - 2, col(4, w), row(4, w), s));
            assert(self.tile(m@[5], l - 2, col(5, w), row(5, w), s));
            assert(self.tile(m@[6], l - 2, col(6, w), row(6, w), s));
            assert(self.tile(m@[7], l - 2, col(7, w), row(7, w), s));
            assert(self.tile(m@[8], l - 2, col(8, w), row(8, w), s));
        }
        [m[0], m[1], m[2], m[3], m[4], m[5], m[6], m[7], m[8]]
    }

    /// The full step: the nine advanced macrocells make four macrocells,
    /// which are advanced once more and make the result.
    #[verifier::rlimit(50)]
    fn combine_full(&mut self, node: NodeId, m: [NodeId; 9], k: u16) -> (r: NodeId)
        requires
            old(self).inv(),
            old(self).valid(node),
            old(self).spec_level_of(node) >= 5,
            k >= old(self).spec_level_of(node) - 2,
            ({
                let l = old(self).spec_level_of(node);
                let w = half(l - 1);
                let s = life_iter(old(self).spec_rule(), old(self).grid(node), pow2((l - 3) as nat));
                &&& old(self).tile(m[0], l - 2, -w, -w, s)
                &&& old(self).tile(m[1], l - 2, 0, -w, s)
                &&& old(self).tile(m[2], l - 2, w, -w, s)
                &&& old(self).tile(m[3], l - 2, -w, 0, s)
                &&& old(self).tile(m[4], l - 2, 0, 0, s)
                &&& old(self).tile(m[5], l - 2, w, 0, s)
                &&& old(self).tile(m[6], l - 2, -w, w, s)
                &&& old(self).tile(m[7], l - 2, 0, w, s)
                &&& old(self).tile(m[8], l - 2, w, w, s)
            }),
        ensures
            final(self).inv(),
            final(self).grows_from(old(self)),
            final(self).spec_root() == old(self).spec_root(),
            final(self).empties() == old(self).empties(),
            old(self).is_barren() ==> final(self).is_barren(),
            forall|top: int|
                #[trigger] old(self).is_capped(top) && old(self).spec_level_of(node) <= top
                    ==> final(self).is_capped(top),
            is_result(
                final(self).store(),
                final(self).spec_rule(),
                node,
                r,
                (old(self).spec_level_of(node) - 2) as nat,
            ),
        decreases old(self).spec_level_of(node), 0nat,
    {
        let ghost l = self.spec_level_of(node);
        let ghost g = self.grid(node);
        let r0 = self.assemble(m[0], m[1], m[3], m[4]);
        let r1 = self.assemble(m[1], m[2], m[4], m[5]);
        let r2 = self.assemble(m[3], m[4], m[6], m[7]);
        let r3 = self.assemble(m[4], m[5], m[7], m[8]);
        let nw = self.step(r0, k);
        let ne = self.step(r1, k);
        let sw = self.step(r2, k);
        let se = self.step(r3, k);
        let r = self.assemble(nw, ne, sw, se);
        proof {
            let rule = self.rule;
            let w = half(l - 1);
            let h = half(l - 2);
            let e = pow2((l - 3) as nat);
            lemma_half(l - 2);
            lemma_half(l - 1);
            let s = life_iter(rule, g, e);
            assert(self.grid(node) == g);
            lemma_assemble_shows(
                self.grid(m[0]),
                self.grid(m[1]),
                self.grid(m[3]),
                self.grid(m[4]),
                h,
                -h,
                -h,
                s,
            );
            lemma_assemble_shows(
                self.grid(m[1]),
                self.grid(m[2]),
                self.grid(m[4]),
                self.grid(m[5]),
                h,
                h,
                -h,
                s,
            );
            lemma_assemble_shows(
                self.grid(m[3]),
                self.grid(m[4]),
                self.grid(m[6]),
                self.grid(m[7]),
                h,
                -h,
                h,
                s,
            );
            lemma_assemble_shows(
                self.grid(m[4]),
                self.grid(m[5]),
                self.grid(m[7]),
                self.grid(m[8]),
                h,
                h,
                h,
                s,
            );
            lemma_shows_step(rule, self.grid(r0), self.grid(nw), -h, -h, h, g, e, e);
            lemma_shows_step(rule, self.grid(r1), self.grid(ne), h, -h, h, g, e, e);
            lemma_shows_step(rule, self.grid(r2), self.grid(sw), -h, h, h, g, e, e);
            lemma_shows_step(rule, self.grid(r3), self.grid(se), h, h, h, g, e, e);
            lemma_pow2_adds((l - 3) as nat, 1);
            lemma2_to64();
            assert(e + e == pow2((l - 2) as nat));
            lemma_assemble_shows(
                self.grid(nw),
                self.grid(ne),
                self.grid(sw),
                self.grid(se),
                h,
                0,
                0,
                life_iter(rule, g, e + e),
            );
        }
        r
    }

    /// The partial step: the result is made of the inner quadrants of the
    /// nine advanced macrocells.
    #[verifier::rlimit(50)]
    fn combine_partial(&mut self, node: NodeId, m: [NodeId; 9], k: u16) -> (r: NodeId)
        requires
            old(self).inv(),
            old(self).valid(node),
            old(self).spec_level_of(node) >= 5,
            k < old(self).spec_level_of(node) - 2,
            ({
                let l = old(self).spec_level_of(node);
                let w = half(l - 1);
                let s = life_iter(old(self).spec_rule(), old(self).grid(node), pow2(k as nat));
                &&& old(self).tile(m[0], l - 2, -w, -w, s)
                &&& old(self).tile(m[1], l - 2, 0, -w, s)
                &&& old(self).tile(m[2], l - 2, w, -w, s)
                &&& old(self).tile(m[3], l - 2, -w, 0, s)
                &&& old(self).tile(m[4], l - 2, 0, 0, s)
                &&& old(self).tile(m[5], l - 2, w, 0, s)
                &&& old(self).tile(m[6], l - 2, -w, w, s)
                &&& old(self).tile(m[7], l - 2, 0, w, s)
                &&& old(self).tile(m[8], l - 2, w, w, s)
            }),
        ensures
            final(self).inv(),
            final(self).grows_from(old(self)),
            final(self).spec_root() == old(self).spec_root(),
            final(self).empties() == old(self).empties(),
            old(self).is_barren() ==> final(self).is_barren(),
            forall|top: int|
                #[trigger] old(self).is_capped(top) && old(self).spec_level_of(node) <= top
                    ==> final(self).is_capped(top),
            is_result(final(self).store(), final(self).spec_rule(), node, r, k as nat),
    {
        let ghost l = self.spec_level_of(node);
        let ghost g = self.grid(node);
        let ghost pre = *self;
        let ghost s = life_iter(self.rule, g, pow2(k as nat));
        let ghost h = half(l - 2);
        let ghost q = half(l - 3);
        proof {
            lemma_half(l - 3);
            lemma_half(l - 2);
            lemma_half(l - 1);
            lemma2_to64();
        }
        let sub_level = self.node_level(m[0]);
        let nw;
        let ne;
        let sw;
        let se;
        if sub_level == 3 {
            let m0 = self.leaf(m[0]).key;
            let m1 = self.leaf(m[1]).key;
            let m2 = self.leaf(m[2]).key;
            let m3 = self.leaf(m[3]).key;
            let m4 = self.leaf(m[4]).key;
            let m5 = self.leaf(m[5]).key;
            let m6 = self.leaf(m[6]).key;
            let m7 = self.leaf(m[7]).key;
            let m8 = self.leaf(m[8]).key;
            proof {
                self.lemma_barren_leaf(m[0]);
                self.lemma_barren_leaf(m[1]);
                self.lemma_barren_leaf(m[2]);
                self.lemma_barren_leaf(m[3]);
                self.lemma_barren_leaf(m[4]);
                self.lemma_barren_leaf(m[5]);
                self.lemma_barren_leaf(m[6]);
                self.lemma_barren_leaf(m[7]);
                self.lemma_barren_leaf(m[8]);
                let g0 = (quad_grid(m0.nw), quad_grid(m0.ne), quad_grid(m0.sw), quad_grid(m0.se));
                let g1 = (quad_grid(m1.nw), quad_grid(m1.ne), quad_grid(m1.sw), quad_grid(m1.se));
                let g2 = (quad_grid(m2.nw), quad_grid(m2.ne), quad_grid(m2.sw), quad_grid(m2.se));
                let g3 = (quad_grid(m3.nw), quad_grid(m3.ne), quad_grid(m3.sw), quad_grid(m3.se));
                let g4 = (quad_grid(m4.nw), quad_grid(m4.ne), quad_grid(m4.sw), quad_grid(m4.se));
                let g5 = (quad_grid(m5.nw), quad_grid(m5.ne), quad_grid(m5.sw), quad_grid(m5.se));
                let g6 = (quad_grid(m6.nw), quad_grid(m6.ne), quad_grid(m6.sw), quad_grid(m6.se));
                let g7 = (quad_grid(m7.nw), quad_grid(m7.ne), quad_grid(m7.sw), quad_grid(m7.se));
                let g8 = (quad_grid(m8.nw), quad_grid(m8.ne), quad_grid(m8.sw), quad_grid(m8.se));
                assert(q == 2);
                lemma_cwindow(g0, g1, g3, g4, q, -h, -h, s);
                lemma_cwindow(g1, g2, g4, g5, q, h, -h, s);
                lemma_cwindow(g3, g4, g6, g7, q, -h, h, s);
                lemma_cwindow(g4, g5, g7, g8, q, h, h, s);
            }
            nw = self.assemble_leaf(m0.se, m1.sw, m3.ne, m4.nw);
            ne = self.assemble_leaf(m1.se, m2.sw, m4.ne, m5.nw);
            sw = self.assemble_leaf(m3.se, m4.sw, m6.ne, m7.nw);
            se = self.assemble_leaf(m4.se, m5.sw, m7.ne, m8.nw);
        } else {
            let m0 = self.quadrants(m[0]);
            let m1 = self.quadrants(m[1]);
            let m2 = self.quadrants(m[2]);
            let m3 = self.quadrants(m[3]);
            let m4 = self.quadrants(m[4]);
            let m5 = self.quadrants(m[5]);
            let m6 = self.quadrants(m[6]);
            let m7 = self.quadrants(m[7]);
            let m8 = self.quadrants(m[8]);
            proof {
                let g0 = (pre.grid(m0.nw), pre.grid(m0.ne), pre.grid(m0.sw), pre.grid(m0.se));
                let g1 = (pre.grid(m1.nw), pre.grid(m1.ne), pre.grid(m1.sw), pre.grid(m1.se));
                let g2 = (pre.grid(m2.nw), pre.grid(m2.ne), pre.grid(m2.sw), pre.grid(m2.se));
                let g3 = (pre.grid(m3.nw), pre.grid(m3.ne), pre.grid(m3.sw), pre.grid(m3.se));
                let g4 = (pre.grid(m4.nw), pre.grid(m4.ne), pre.grid(m4.sw), pre.grid(m4.se));
                let g5 = (pre.grid(m5.nw), pre.grid(m5.ne), pre.grid(m5.sw), pre.grid(m5.se));
                let g6 = (pre.grid(m6.nw), pre.grid(m6.ne), pre.grid(m6.sw), pre.grid(m6.se));
                let g7 = (pre.grid(m7.nw), pre.grid(m7.ne), pre.grid(m7.sw), pre.grid(m7.se));
                let g8 = (pre.grid(m8.nw), pre.grid(m8.ne), pre.grid(m8.sw), pre.grid(m8.se));
                lemma_cwindow(g0, g1, g3, g4, q, -h, -h, s);
                lemma_cwindow(g1, g2, g4, g5, q, h, -h, s);
                lemma_cwindow(g3, g4, g6, g7, q, -h, h, s);
                lemma_cwindow(g4, g5, g7, g8, q, h, h, s);
            }
            nw = self.assemble(m0.se, m1.sw, m3.ne, m4.nw);
            ne = self.assemble(m1.se, m2.sw, m4.ne, m5.nw);
            sw = self.assemble(m3.se, m4.sw, m6.ne, m7.nw);
            se = self.assemble(m4.se, m5.sw, m7.ne, m8.nw);
        }
        let r = self.assemble(nw, ne, sw, se);
        proof {
            assert(self.grid(node) == g);
            lemma_assemble_shows(
                self.grid(nw),
                self.grid(ne),
                self.grid(sw),
                self.grid(se),
                h,
                0,
                0,
                s,
            );
        }
        r
    }

    /// The step of a macrocell of level 4, whose quadrants are leaves: the
    /// results that the leaves hold take the place of recursive steps.
    #[verifier::rlimit(50)]
    fn leaf_step(&mut self, node: NodeId, k: u16) -> (r: NodeId)
        requires
            old(self).inv(),
            old(self).valid(node),
            old(self).spec_level_of(node) == 4,
        ensures
            final(self).inv(),
            final(self).grows_from(old(self)),
            final(self).spec_root() == old(self).spec_root(),
            final(self).empties() == old(self).empties(),
            old(self).is_barren() ==> final(self).is_barren(),
            forall|top: int|
                #[trigger] old(self).is_capped(top) && old(self).spec_level_of(node) <= top
                    ==> final(self).is_capped(top),
            is_result(final(self).store(), final(self).spec_rule(), node, r, step_exp(4, k)),
    {
        let ghost g = self.grid(node);
        let ghost rule = self.rule;
        let key = self.quadrants(node);
        let nw = self.leaf(key.nw);
        let ne = self.leaf(key.ne);
        let sw = self.leaf(key.sw);
        let se = self.leaf(key.se);
        let ix: usize = if k > 0 {
            1
        } else {
            0
        };
        let ghost e: nat = if k > 0 {
            2
        } else {
            1
        };
        let ghost s = life_iter(rule, g, e);

        let ghost dead = self.is_barren();
        proof {
            self.lemma_barren_leaf(key.nw);
            self.lemma_barren_leaf(key.ne);
            self.lemma_barren_leaf(key.sw);
            self.lemma_barren_leaf(key.se);
        }
        let n0 = nw.results[ix];
        let t1 = self.horizontal_center_subnode(key.nw, key.ne);
        let n1 = self.leaf(t1).results[ix];
        proof {
            self.lemma_barren_leaf(t1);
        }
        let n2 = ne.results[ix];
        let t3 = self.vertical_center_subnode(key.nw, key.sw);
        let n3 = self.leaf(t3).results[ix];
        proof {
            self.lemma_barren_leaf(t3);
        }
        let t4 = self.center_subnode(key.nw, key.ne, key.sw, key.se);
        let n4 = self.leaf(t4).results[ix];
        proof {
            self.lemma_barren_leaf(t4);
        }
        let t5 = self.vertical_center_subnode(key.ne, key.se);
        let n5 = self.leaf(t5).results[ix];
        proof {
            self.lemma_barren_leaf(t5);
        }
        let n6 = sw.results[ix];
        let t7 = self.horizontal_center_subnode(key.sw, key.se);
        let n7 = self.leaf(t7).results[ix];
        proof {
            self.lemma_barren_leaf(t7);
            if dead {
                assert(n0 == 0 && n1 == 0 && n2 == 0 && n3 == 0 && n4 == 0 && n5 == 0 && n6 == 0
                    && n7 == 0);
            }
        }
        let n8 = se.results[ix];
        proof {
            if dead {
                assert(n8 == 0);
                assert(self.is_barren());
            }
        }

        proof {
            lemma2_to64();
            assert(half(3) == 4 && half(2) == 2);
            let gnw = (
                quad_grid(nw.key.nw),
                quad_grid(nw.key.ne),
                quad_grid(nw.key.sw),
                quad_grid(nw.key.se),
            );
            let gne = (
                quad_grid(ne.key.nw),
                quad_grid(ne.key.ne),
                quad_grid(ne.key.sw),
                quad_grid(ne.key.se),
            );
            let gsw = (
                quad_grid(sw.key.nw),
                quad_grid(sw.key.ne),
                quad_grid(sw.key.sw),
                quad_grid(sw.key.se),
            );
            let gse = (
                quad_grid(se.key.nw),
                quad_grid(se.key.ne),
                quad_grid(se.key.sw),
                quad_grid(se.key.se),
            );
            assert(g == assembled(nw.key.grid(), ne.key.grid(), sw.key.grid(), se.key.grid(), 4));
            lemma_shows_self(g, 8);
            lemma_quadrants_show(
                nw.key.grid(),
                ne.key.grid(),
                sw.key.grid(),
                se.key.grid(),
                4,
                0,
                0,
                g,
            );
            lemma_hwindow(gnw, gne, 2, 0, -4, g);
            lemma_vwindow(gnw, gsw, 2, -4, 0, g);
            lemma_cwindow(gnw, gne, gsw, gse, 2, 0, 0, g);
            lemma_vwindow(gne, gse, 2, 4, 0, g);
            lemma_hwindow(gsw, gse, 2, 0, 4, g);
            assert(life_iter(rule, g, 0) == g);
            lemma_shows_step(rule, nw.key.grid(), quad_grid(n0), -4, -4, 2, g, 0, e);
            lemma_shows_step(rule, self.grid(t1), quad_grid(n1), 0, -4, 2, g, 0, e);
            lemma_shows_step(rule, ne.key.grid(), quad_grid(n2), 4, -4, 2, g, 0, e);
            lemma_shows_step(rule, self.grid(t3), quad_grid(n3), -4, 0, 2, g, 0, e);
            lemma_shows_step(rule, self.grid(t4), quad_grid(n4), 0, 0, 2, g, 0, e);
            lemma_shows_step(rule, self.grid(t5), quad_grid(n5), 4, 0, 2, g, 0, e);
            lemma_shows_step(rule, sw.key.grid(), quad_grid(n6), -4, 4, 2, g, 0, e);
            lemma_shows_step(rule, self.grid(t7), quad_grid(n7), 0, 4, 2, g, 0, e);
            lemma_shows_step(rule, se.key.grid(), quad_grid(n8), 4, 4, 2, g, 0, e);
        }

        let qnw: u16;
        let qne: u16;
        let qsw: u16;
        let qse: u16;
        if k >= 2 {
            let r0 = self.assemble_leaf(n0, n1, n3, n4);
            qnw = self.leaf(r0).results[1];
            proof {
                self.lemma_barren_leaf(r0);
            }
            let r1 = self.assemble_leaf(n1, n2, n4, n5);
            qne = self.leaf(r1).results[1];
            proof {
                self.lemma_barren_leaf(r1);
            }
            let r2 = self.assemble_leaf(n3, n4, n6, n7);
            qsw = self.leaf(r2).results[1];
            proof {
                self.lemma_barren_leaf(r2);
            }
            let r3 = self.assemble_leaf(n4, n5, n7, n8);
            qse = self.leaf(r3).results[1];
            proof {
                self.lemma_barren_leaf(r3);
                if dead {
                    assert(qnw == 0 && qne == 0 && qsw == 0 && qse == 0);
                }
                lemma_assemble_shows(
                    quad_grid(n0),
                    quad_grid(n1),
                    quad_grid(n3),
                    quad_grid(n4),
                    2,
                    -2,
                    -2,
                    s,
                );
                lemma_assemble_shows(
                    quad_grid(n1),
                    quad_grid(n2),
                    quad_grid(n4),
                    quad_grid(n5),
                    2,
                    2,
                    -2,
                    s,
                );
                lemma_assemble_shows(
                    quad_grid(n3),
                    quad_grid(n4),
                    quad_grid(n6),
                    quad_grid(n7),
                    2,
                    -2,
                    2,
                    s,
                );
                lemma_assemble_shows(
                    quad_grid(n4),
                    quad_grid(n5),
                    quad_grid(n7),
                    quad_grid(n8),
                    2,
                    2,
                    2,
                    s,
                );
                lemma_shows_step(rule, self.grid(r0), quad_grid(qnw), -2, -2, 2, g, 2, 2);
                lemma_shows_step(rule, self.grid(r1), quad_grid(qne), 2, -2, 2, g, 2, 2);
                lemma_shows_step(rule, self.grid(r2), quad_grid(qsw), -2, 2, 2, g, 2, 2);
                lemma_shows_step(rule, self.grid(r3), quad_grid(qse), 2, 2, 2, g, 2, 2);
            }
        } else {
            qnw = (LeafNodeKey { nw: n0, ne: n1, sw: n3, se: n4 }).center();
            qne = (LeafNodeKey { nw: n1, ne: n2, sw: n4, se: n5 }).center();
            qsw = (LeafNodeKey { nw: n3, ne: n4, sw: n6, se: n7 }).center();
            qse = (LeafNodeKey { nw: n4, ne: n5, sw: n7, se: n8 }).center();
            proof {
                assert((0u16 << 10u16) & 0xcc00u16 | (0u16 << 6u16) & 0x3300u16 | (0u16 >> 6u16)
                    & 0x00ccu16 | (0u16 >> 10u16) & 0x0033u16 == 0u16) by (bit_vector);
                if dead {
                    assert(qnw == 0 && qne == 0 && qsw == 0 && qse == 0);
                }
                lemma_center_shows(n0, n1, n3, n4, -2, -2, s);
                lemma_center_shows(n1, n2, n4, n5, 2, -2, s);
                lemma_center_shows(n3, n4, n6, n7, -2, 2, s);
                lemma_center_shows(n4, n5, n7, n8, 2, 2, s);
            }
        }
        let ghost t: nat = if k >= 2 {
            4
        } else {
            e
        };
        let r = self.assemble_leaf(qnw, qne, qsw, qse);
        proof {
            lemma2_to64();
            assert(t == pow2(step_exp(4, k)));
            assert(self.grid(node) == g);
            lemma_assemble_shows(
                quad_grid(qnw),
                quad_grid(qne),
                quad_grid(qsw),
                quad_grid(qse),
                2,
                0,
                0,
                life_iter(rule, g, t),
            );
        }
        r
    }
}

} // verus!
