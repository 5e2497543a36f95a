//! The envelope of the universe: growing and shrinking the root, and setting
//! single cells.

use crate::bits::{lemma_quad_within, quad_grid, quad_with};
use crate::life::{
    assembled, lemma_assembled_update, lemma_expand_grid, with_cell, within,
};
use crate::node::{NodeId, NodeKey};
use crate::store::{half, lemma_grid_within, lemma_half};
use crate::universe::{lemma_empty_grid, lemma_zero_quad, Universe, UniverseError, MAX_ROOT_LEVEL};
use vstd::arithmetic::power2::{lemma2_to64, lemma_pow2_strictly_increases, lemma_pow2_unfold};
use vstd::prelude::*;

verus! {

/// Half the side of the lattice: cells have both coordinates in
/// `[-LATTICE_RADIUS, LATTICE_RADIUS)`.
pub const LATTICE_RADIUS: i64 = 0x4000_0000_0000_0000;

/// `x` is a coordinate of the lattice.
pub open spec fn in_lattice(x: int) -> bool {
    -LATTICE_RADIUS <= x < LATTICE_RADIUS
}

/// The cell `(x, y)` lies inside the macrocell of the given level that is
/// centred at the origin.
pub open spec fn inside(level: int, x: int, y: int) -> bool {
    -half(level) <= x < half(level) && -half(level) <= y < half(level)
}

/// `level` is the least level, from `least` on, of a macrocell centred at the
/// origin that holds every live cell of `g`.
pub open spec fn least_level(g: Set<(int, int)>, level: int, least: int) -> bool {
    &&& level >= least
    &&& within(g, -half(level), half(level))
    &&& level == least || !within(g, -half(level - 1), half(level - 1))
}

pub proof fn lemma_half_63()
    ensures
        half(63) == LATTICE_RADIUS,
{
    lemma2_to64();
    lemma_pow2_unfold(64);
    lemma_pow2_unfold(63);
}

/// `half` grows with the level.
pub proof fn lemma_half_increases(a: int, b: int)
    requires
        1 <= a <= b,
    ensures
        half(a) <= half(b),
{
    if a < b {
        lemma_pow2_strictly_increases((a - 1) as nat, (b - 1) as nat);
    }
}

/// Making a cell alive keeps the root the least that holds every live cell,
/// if the root grows only as far as the cell asks.
pub proof fn lemma_least_level_insert(
    g: Set<(int, int)>,
    l0: int,
    l1: int,
    x: int,
    y: int,
    least: int,
)
    requires
        least_level(g, l0, least),
        1 <= l0 <= l1,
        inside(l1, x, y),
        l1 > l0 ==> !inside(l1 - 1, x, y),
    ensures
        least_level(g.insert((x, y)), l1, least),
{
    let h = g.insert((x, y));
    lemma_half_increases(l0, l1);
    assert(h.contains((x, y)));
    if l1 == l0 {
        if l0 != least {
            let p = choose|p: (int, int)|
                g.contains(p) && !(-half(l0 - 1) <= p.0 < half(l0 - 1) && -half(l0 - 1) <= p.1
                    < half(l0 - 1));
            assert(h.contains(p));
        }
    }
}

/// Half the side of a macrocell of the given level.
pub fn radius(level: u16) -> (r: i64)
    requires
        1 <= level <= 63,
    ensures
        r == half(level as int),
        1 <= r <= LATTICE_RADIUS,
{
    let mut r: i64 = 1;
    let mut i: u16 = 1;
    proof {
        lemma2_to64();
        lemma_half_63();
    }
    while i < level
        invariant
            1 <= i <= level <= 63,
            r == half(i as int),
            1 <= r,
            half(63) == LATTICE_RADIUS,
        decreases level - i,
    {
        proof {
            lemma_half(i as int);
            lemma_half_increases(i + 1, 63);
        }
        r = r * 2;
        i = i + 1;
    }
    proof {
        lemma_half_increases(level as int, 63);
    }
    r
}

impl Universe {
    /// Doubles the side of the root: the pattern stays where it is, and half
    /// a root of empty space is added on every side.
    #[verifier::rlimit(50)]
    pub(crate) fn grow(&mut self)
        requires
            old(self).inv(),
            old(self).spec_level_of(old(self).spec_root()) < u16::MAX,
        ensures
            final(self).inv(),
            final(self).grows_from(old(self)),
            final(self).spec_level_of(final(self).spec_root()) == old(self).spec_level_of(
                old(self).spec_root(),
            ) + 1,
            final(self).cells() == old(self).cells(),
            final(self).empties().len() >= old(self).spec_level_of(old(self).spec_root()),
            old(self).is_barren() ==> final(self).is_barren(),
            forall|top: int|
                #[trigger] old(self).is_capped(top) && old(self).spec_level_of(
                    old(self).spec_root(),
                ) + 1 <= top ==> final(self).is_capped(top),
    {
        let ghost pre = *self;
        proof {
            reveal(Universe::inv);
        }
        let root = self.root;
        let level = self.node_level(root);
        proof {
            crate::store::lemma_kind(self.nodes@, self.rule, root);
        }
        let nw;
        let ne;
        let sw;
        let se;
        if level == 3 {
            let key = self.leaf(root).key;
            proof {
                self.lemma_barren_leaf(root);
            }
            let ghost a = quad_grid(key.nw);
            let ghost b = quad_grid(key.ne);
            let ghost c = quad_grid(key.sw);
            let ghost d = quad_grid(key.se);
            let ghost e = quad_grid(0);
            nw = self.assemble_leaf(0, 0, 0, key.nw);
            ne = self.assemble_leaf(0, 0, key.ne, 0);
            sw = self.assemble_leaf(0, key.sw, 0, 0);
            se = self.assemble_leaf(key.se, 0, 0, 0);
            proof {
                lemma_quad_within(key.nw);
                lemma_quad_within(key.ne);
                lemma_quad_within(key.sw);
                lemma_quad_within(key.se);
                lemma_zero_quad();
                lemma2_to64();
                assert(half(3) == 4 && half(2) == 2);
                lemma_expand_grid(a, b, c, d, e, 2);
                assert(self.grid(nw) == assembled(e, e, e, a, 2));
                assert(self.grid(ne) == assembled(e, e, b, e, 2));
                assert(self.grid(sw) == assembled(e, c, e, e, 2));
                assert(self.grid(se) == assembled(d, e, e, e, 2));
                assert(pre.cells() == assembled(a, b, c, d, 2));
            }
        } else {
            let key = self.quadrants(root);
            let ghost a = self.grid(key.nw);
            let ghost b = self.grid(key.ne);
            let ghost c = self.grid(key.sw);
            let ghost d = self.grid(key.se);
            let ghost r = half(level - 1);
            proof {
                lemma_grid_within(self.nodes@, self.rule, key.nw);
                lemma_grid_within(self.nodes@, self.rule, key.ne);
                lemma_grid_within(self.nodes@, self.rule, key.sw);
                lemma_grid_within(self.nodes@, self.rule, key.se);
                lemma_half(level - 1);
            }
            let empty = self.find_empty_node(level - 1);
            let ghost e = self.grid(empty);
            proof {
                reveal(Universe::inv);
                lemma_empty_grid(self.nodes@, self.rule, self.empty_nodes@, level - 1);
                assert(crate::store::empty_ok(self.nodes@, self.empty_nodes@, level - 1));
                lemma_expand_grid(a, b, c, d, e, r);
            }
            nw = self.assemble(empty, empty, empty, key.nw);
            ne = self.assemble(empty, empty, key.ne, empty);
            sw = self.assemble(empty, key.sw, empty, empty);
            se = self.assemble(key.se, empty, empty, empty);
            proof {
                assert(self.grid(nw) == assembled(e, e, e, a, r));
                assert(self.grid(ne) == assembled(e, e, b, e, r));
                assert(self.grid(sw) == assembled(e, c, e, e, r));
                assert(self.grid(se) == assembled(d, e, e, e, r));
                assert(pre.cells() == assembled(a, b, c, d, r));
            }
        }
        let ghost before = *self;
        let new_root = self.assemble(nw, ne, sw, se);
        proof {
            lemma_half(level as int);
            reveal(Universe::inv);
        }
        self.root = new_root;
    }

    /// Doubles the side of the root, unless the root has the largest level
    /// already.
    pub fn expand(&mut self) -> (r: Result<(), UniverseError>)
        requires
            old(self).wf(),
        ensures
            final(self).wf(),
            final(self).grows_from(old(self)),
            final(self).cells() == old(self).cells(),
            r is Ok <==> old(self).spec_level_of(old(self).spec_root()) < MAX_ROOT_LEVEL,
            r is Ok ==> final(self).spec_level_of(final(self).spec_root())
                == old(self).spec_level_of(old(self).spec_root()) + 1,
            r is Ok ==> final(self).empties().len() >= old(self).spec_level_of(
                old(self).spec_root(),
            ),
            old(self).is_barren() ==> final(self).is_barren(),
            forall|top: int|
                #[trigger] old(self).is_capped(top) && old(self).spec_level_of(
                    old(self).spec_root(),
                ) + 1 <= top ==> final(self).is_capped(top),
            r is Err ==> r->Err_0 == UniverseError::LatticeOverflow,
            r is Err ==> final(self).store() == old(self).store() && final(self).spec_root()
                == old(self).spec_root(),
    {
        if self.level() >= MAX_ROOT_LEVEL {
            proof {
                crate::store::lemma_grows(self.nodes@, self.nodes@);
            }
            return Err(UniverseError::LatticeOverflow);
        }
        self.grow();
        Ok(())
    }

    /// Halves the side of the root for as long as the root has a level above
    /// four and nothing alive outside its inner quarter. Nothing is done as
    /// long as the canonical empty macrocell two levels below the root is not
    /// interned.
    #[verifier::rlimit(50)]
    pub fn shrink(&mut self)
        requires
            old(self).inv(),
        ensures
            final(self).inv(),
            final(self).grows_from(old(self)),
            final(self).cells() == old(self).cells(),
            final(self).empties() == old(self).empties(),
            old(self).is_barren() ==> final(self).is_barren(),
            forall|top: int| #[trigger] old(self).is_capped(top) ==> final(self).is_capped(top),
            final(self).spec_level_of(final(self).spec_root()) <= old(self).spec_level_of(
                old(self).spec_root(),
            ),
            old(self).spec_level_of(old(self).spec_root()) >= 4 ==> final(self).spec_level_of(
                final(self).spec_root(),
            ) >= 4,
            old(self).empties().len() <= old(self).spec_level_of(old(self).spec_root()) - 2 ==> {
                &&& final(self).store() == old(self).store()
                &&& final(self).spec_root() == old(self).spec_root()
            },
            old(self).empties().len() > old(self).spec_level_of(old(self).spec_root()) - 2 ==> {
                ||| final(self).spec_level_of(final(self).spec_root()) <= 4
                ||| !within(
                    final(self).cells(),
                    -half(final(self).spec_level_of(final(self).spec_root()) - 1),
                    half(final(self).spec_level_of(final(self).spec_root()) - 1),
                )
            },
    {
        let ghost pre = *self;
        proof {
            reveal(Universe::inv);
            crate::store::lemma_grows(self.nodes@, self.nodes@);
        }
        let mut level = self.node_level(self.root);
        proof {
            crate::store::lemma_kind(self.nodes@, self.rule, self.root);
        }
        if self.empty_nodes.len() <= (level - 2) as usize {
            return ;
        }
        let mut tight = false;
        while level > 4 && !tight
            invariant
                self.inv(),
                self.grows_from(&pre),
                self.cells() == pre.cells(),
                self.empties() == pre.empties(),
                pre.is_barren() ==> self.is_barren(),
                forall|top: int| #[trigger] pre.is_capped(top) ==> self.is_capped(top),
                self.valid(self.spec_root()),
                level == self.spec_level_of(self.spec_root()),
                level <= pre.spec_level_of(pre.spec_root()),
                pre.spec_level_of(pre.spec_root()) >= 4 ==> level >= 4,
                level >= 3,
                self.empties().len() > level - 2,
                tight ==> !within(self.cells(), -half(level - 1), half(level - 1)),
            decreases level, (if tight { 0nat } else { 1nat }),
        {
            let ghost before = *self;
            let key = self.quadrants(self.root);
            let nw = self.quadrants(key.nw);
            let ne = self.quadrants(key.ne);
            let sw = self.quadrants(key.sw);
            let se = self.quadrants(key.se);
            let empty = self.empty_nodes[(level - 2) as usize];
            if nw.nw == empty && nw.ne == empty && nw.sw == empty && ne.nw == empty && ne.ne
                == empty && ne.se == empty && sw.nw == empty && sw.sw == empty && sw.se == empty
                && se.ne == empty && se.sw == empty && se.se == empty {
                let ghost a = self.grid(nw.se);
                let ghost b = self.grid(ne.sw);
                let ghost c = self.grid(sw.ne);
                let ghost d = self.grid(se.nw);
                let ghost e = self.grid(empty);
                let ghost r = half(level - 2);
                proof {
                    reveal(Universe::inv);
                    lemma_grid_within(self.nodes@, self.rule, nw.se);
                    lemma_grid_within(self.nodes@, self.rule, ne.sw);
                    lemma_grid_within(self.nodes@, self.rule, sw.ne);
                    lemma_grid_within(self.nodes@, self.rule, se.nw);
                    lemma_empty_grid(self.nodes@, self.rule, self.empty_nodes@, level - 2);
                    lemma_half(level - 2);
                    lemma_half(level - 1);
                    lemma_expand_grid(a, b, c, d, e, r);
                    assert(self.cells() == assembled(
                        assembled(e, e, e, a, r),
                        assembled(e, e, b, e, r),
                        assembled(e, c, e, e, r),
                        assembled(d, e, e, e, r),
                        2 * r,
                    ));
                }
                proof {
                    assert forall|top: int| #[trigger] self.is_capped(top) implies level
                        <= top by {
                        crate::canon::lemma_capped_node(self.store(), top, self.spec_root());
                    }
                }
                let new_root = self.assemble(nw.se, ne.sw, sw.ne, se.nw);
                self.root = new_root;
                level = level - 1;
                proof {
                    reveal(Universe::inv);
                    self.lemma_grows_from_trans(&before, &pre);
                }
            } else {
                tight = true;
                proof {
                    reveal(Universe::inv);
                    let r = half(level - 2);
                    lemma_half(level - 2);
                    lemma_half(level - 1);
                    let gnw = (
                        self.grid(nw.nw),
                        self.grid(nw.ne),
                        self.grid(nw.sw),
                        self.grid(nw.se),
                    );
                    let gne = (
                        self.grid(ne.nw),
                        self.grid(ne.ne),
                        self.grid(ne.sw),
                        self.grid(ne.se),
                    );
                    let gsw = (
                        self.grid(sw.nw),
                        self.grid(sw.ne),
                        self.grid(sw.sw),
                        self.grid(sw.se),
                    );
                    let gse = (
                        self.grid(se.nw),
                        self.grid(se.ne),
                        self.grid(se.sw),
                        self.grid(se.se),
                    );
                    if within(self.cells(), -half(level - 1), half(level - 1)) {
                        let nodes = self.nodes@;
                        let keys = crate::index::index_keys(self.index);
                        lemma_grid_within(nodes, self.rule, nw.nw);
                        lemma_grid_within(nodes, self.rule, nw.ne);
                        lemma_grid_within(nodes, self.rule, nw.sw);
                        lemma_grid_within(nodes, self.rule, ne.nw);
                        lemma_grid_within(nodes, self.rule, ne.ne);
                        lemma_grid_within(nodes, self.rule, ne.se);
                        lemma_grid_within(nodes, self.rule, sw.nw);
                        lemma_grid_within(nodes, self.rule, sw.sw);
                        lemma_grid_within(nodes, self.rule, sw.se);
                        lemma_grid_within(nodes, self.rule, se.ne);
                        lemma_grid_within(nodes, self.rule, se.sw);
                        lemma_grid_within(nodes, self.rule, se.se);
                        crate::canon::lemma_outer_empty(gnw, gne, gsw, gse, r);
                        let es = self.empty_nodes@;
                        crate::canon::lemma_empty_is_canonical(keys, nodes, self.rule, es, nw.nw);
                        crate::canon::lemma_empty_is_canonical(keys, nodes, self.rule, es, nw.ne);
                        crate::canon::lemma_empty_is_canonical(keys, nodes, self.rule, es, nw.sw);
                        crate::canon::lemma_empty_is_canonical(keys, nodes, self.rule, es, ne.nw);
                        crate::canon::lemma_empty_is_canonical(keys, nodes, self.rule, es, ne.ne);
                        crate::canon::lemma_empty_is_canonical(keys, nodes, self.rule, es, ne.se);
                        crate::canon::lemma_empty_is_canonical(keys, nodes, self.rule, es, sw.nw);
                        crate::canon::lemma_empty_is_canonical(keys, nodes, self.rule, es, sw.sw);
                        crate::canon::lemma_empty_is_canonical(keys, nodes, self.rule, es, sw.se);
                        crate::canon::lemma_empty_is_canonical(keys, nodes, self.rule, es, se.ne);
                        crate::canon::lemma_empty_is_canonical(keys, nodes, self.rule, es, se.sw);
                        crate::canon::lemma_empty_is_canonical(keys, nodes, self.rule, es, se.se);
                        assert(false);
                    }
                }
            }
        }
    }

    /// Makes the cell at `(x, y)` alive or dead. The root is doubled until the
    /// cell lies inside it, and no further. Where the cell lies inside the
    /// root and is in the asked state already, nothing is interned and the
    /// root stays the same node. Cells outside the lattice are refused.
    pub fn set(&mut self, x: i64, y: i64, alive: bool) -> (r: Result<(), UniverseError>)
        requires
            old(self).wf(),
        ensures
            final(self).wf(),
            final(self).grows_from(old(self)),
            r is Ok <==> in_lattice(x as int) && in_lattice(y as int),
            r is Ok ==> final(self).cells() == with_cell(
                old(self).cells(),
                x as int,
                y as int,
                alive,
            ),
            r is Ok ==> {
                let l0 = old(self).spec_level_of(old(self).spec_root());
                let l1 = final(self).spec_level_of(final(self).spec_root());
                &&& l1 >= l0
                &&& inside(l1, x as int, y as int)
                &&& l1 > l0 ==> !inside(l1 - 1, x as int, y as int)
            },
            r is Ok && inside(old(self).spec_level_of(old(self).spec_root()), x as int, y as int)
                && old(self).cells().contains((x as int, y as int)) == alive ==> {
                &&& final(self).store() == old(self).store()
                &&& final(self).spec_root() == old(self).spec_root()
            },
            r is Err ==> r->Err_0 == UniverseError::LatticeOverflow,
            r is Err ==> final(self).store() == old(self).store() && final(self).spec_root()
                == old(self).spec_root(),
    {
        let ghost pre = *self;
        proof {
            crate::store::lemma_grows(self.nodes@, self.nodes@);
        }
        if x < -LATTICE_RADIUS || x >= LATTICE_RADIUS || y < -LATTICE_RADIUS || y
            >= LATTICE_RADIUS {
            return Err(UniverseError::LatticeOverflow);
        }
        let mut level = self.level();
        let mut radius = radius(level);
        proof {
            lemma_half_63();
        }
        while x < -radius || x >= radius || y < -radius || y >= radius
            invariant
                self.wf(),
                self.grows_from(&pre),
                self.cells() == pre.cells(),
                level == self.spec_level_of(self.spec_root()),
                3 <= level <= 63,
                radius == half(level as int),
                in_lattice(x as int),
                in_lattice(y as int),
                half(63) == LATTICE_RADIUS,
                level >= pre.spec_level_of(pre.spec_root()),
                level > pre.spec_level_of(pre.spec_root()) ==> !inside(
                    level - 1,
                    x as int,
                    y as int,
                ),
                level == pre.spec_level_of(pre.spec_root()) ==> self.store() == pre.store()
                    && self.spec_root() == pre.spec_root(),
            decreases 63 - level,
        {
            let ghost before = *self;
            proof {
                if level == 63 {
                    assert(false);
                }
                lemma_half(level as int);
                lemma_half_increases(level + 1, 63);
            }
            self.grow();
            radius = radius * 2;
            level = level + 1;
            proof {
                self.lemma_grows_from_trans(&before, &pre);
            }
        }
        let ghost before = *self;
        proof {
            reveal(Universe::inv);
        }
        let root = self.set_rec(self.root, x, y, alive);
        self.root = root;
        proof {
            reveal(Universe::inv);
            self.lemma_grows_from_trans(&before, &pre);
            if inside(pre.spec_level_of(pre.spec_root()), x as int, y as int) {
                if level > pre.spec_level_of(pre.spec_root()) {
                    lemma_half_increases(pre.spec_level_of(pre.spec_root()), level - 1);
                }
                assert(level == pre.spec_level_of(pre.spec_root()));
                assert(before.store() == pre.store() && before.spec_root() == pre.spec_root());
            }
        }
        Ok(())
    }

    /// The macrocell `node` with the cell at `(x, y)`, relative to its centre,
    /// made alive or dead: `node` itself, with nothing interned, where the
    /// cell is in the asked state already.
    pub fn set_rec(&mut self, node: NodeId, x: i64, y: i64, alive: bool) -> (r: NodeId)
        requires
            old(self).inv(),
            old(self).valid(node),
            old(self).spec_level_of(node) <= 63,
            -half(old(self).spec_level_of(node)) <= x < half(old(self).spec_level_of(node)),
            -half(old(self).spec_level_of(node)) <= y < half(old(self).spec_level_of(node)),
        ensures
            final(self).inv(),
            final(self).grows_from(old(self)),
            final(self).spec_root() == old(self).spec_root(),
            final(self).empties() == old(self).empties(),
            final(self).valid(r),
            final(self).spec_level_of(r) == old(self).spec_level_of(node),
            final(self).grid(r) == with_cell(old(self).grid(node), x as int, y as int, alive),
            old(self).grid(node).contains((x as int, y as int)) == alive ==> {
                &&& r == node
                &&& final(self).store() == old(self).store()
            },
        decreases old(self).spec_level_of(node),
    {
        let ghost pre = *self;
        proof {
            reveal(Universe::inv);
            crate::store::lemma_kind(self.nodes@, self.rule, node);
            lemma2_to64();
        }
        let level = self.node_level(node);
        if level == 3 {
            let key = self.leaf(node).key;
            let mut new_key = key;
            proof {
                assert(half(3) == 4);
                lemma_assembled_update(
                    quad_grid(key.nw),
                    quad_grid(key.ne),
                    quad_grid(key.sw),
                    quad_grid(key.se),
                    2,
                    x as int,
                    y as int,
                    alive,
                );
            }
            if x < 0 {
                if y < 0 {
                    new_key.nw = quad_with(key.nw, x + 2, y + 2, alive);
                } else {
                    new_key.sw = quad_with(key.sw, x + 2, y - 2, alive);
                }
            } else {
                if y < 0 {
                    new_key.ne = quad_with(key.ne, x - 2, y + 2, alive);
                } else {
                    new_key.se = quad_with(key.se, x - 2, y - 2, alive);
                }
            }
            proof {
                if pre.grid(node).contains((x as int, y as int)) == alive {
                    let g = quad_grid(
                        if x < 0 {
                            if y < 0 {
                                key.nw
                            } else {
                                key.sw
                            }
                        } else {
                            if y < 0 {
                                key.ne
                            } else {
                                key.se
                            }
                        },
                    );
                    let u: int = if x < 0 {
                        x + 2
                    } else {
                        x - 2
                    };
                    let v: int = if y < 0 {
                        y + 2
                    } else {
                        y - 2
                    };
                    assert(g.contains((u, v)) == alive);
                    assert(with_cell(g, u, v, alive) =~= g);
                    crate::canon::lemma_quad_same(new_key.nw, key.nw);
                    crate::canon::lemma_quad_same(new_key.ne, key.ne);
                    crate::canon::lemma_quad_same(new_key.sw, key.sw);
                    crate::canon::lemma_quad_same(new_key.se, key.se);
                }
            }
            let id = self.find_node(
                NodeKey::new_leaf(new_key.nw, new_key.ne, new_key.sw, new_key.se),
            );
            proof {
                crate::store::lemma_leaf(self.nodes@, self.rule, id);
                if pre.grid(node).contains((x as int, y as int)) == alive {
                    assert(new_key == key);
                    assert(pre.valid(node) && pre.spec_key_of(node) == NodeKey::Leaf(key));
                    assert(id == node);
                }
            }
            id
        } else {
            let key = self.quadrants(node);
            let r = radius(level - 1);
            let ghost a = self.grid(key.nw);
            let ghost b = self.grid(key.ne);
            let ghost c = self.grid(key.sw);
            let ghost d = self.grid(key.se);
            proof {
                lemma_half(level - 1);
                lemma_assembled_update(a, b, c, d, r as int, x as int, y as int, alive);
            }
            let mut new_key = key;
            if y < 0 {
                if x < 0 {
                    new_key.nw = self.set_rec(key.nw, x + r, y + r, alive);
                } else {
                    new_key.ne = self.set_rec(key.ne, x - r, y + r, alive);
                }
            } else {
                if x < 0 {
                    new_key.sw = self.set_rec(key.sw, x + r, y - r, alive);
                } else {
                    new_key.se = self.set_rec(key.se, x - r, y - r, alive);
                }
            }
            let ghost mid = *self;
            let ghost same = pre.grid(node).contains((x as int, y as int)) == alive;
            proof {
                reveal(Universe::inv);
                assert(pre.grid(node) == assembled(a, b, c, d, r as int));
                if same {
                    if y < 0 {
                        if x < 0 {
                            assert(a.contains((x + r, y + r)) == alive);
                        } else {
                            assert(b.contains((x - r, y + r)) == alive);
                        }
                    } else {
                        if x < 0 {
                            assert(c.contains((x + r, y - r)) == alive);
                        } else {
                            assert(d.contains((x - r, y - r)) == alive);
                        }
                    }
                    assert(new_key == key);
                    assert(mid.store() == pre.store());
                    assert(mid.valid(node) && mid.spec_key_of(node) == NodeKey::Internal(key));
                }
            }
            let id = self.find_node(
                NodeKey::new_internal(new_key.nw, new_key.ne, new_key.sw, new_key.se),
            );
            proof {
                crate::store::lemma_internal(self.nodes@, self.rule, id);
                self.lemma_grows_from_trans(&mid, &pre);
                if same {
                    assert(id == node);
                }
            }
            id
        }
    }
}

} // verus!
