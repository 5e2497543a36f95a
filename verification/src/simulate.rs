//! The driver: any number of generations, as a sum of powers of two.

use crate::envelope::{least_level, lemma_half_63, lemma_half_increases, LATTICE_RADIUS};
use crate::index::index_keys;
use crate::life::{lemma_iter_add, lemma_iter_within, life_iter, shows, within};
use crate::node::{InternalNode, Node, NodeId};
use crate::rule::Rule;
use crate::step::step_exp;
use crate::store::{
    half, lemma_empties_frame, lemma_grid_within, lemma_grows, lemma_half, lemma_node_ok_cleared,
    lemma_node_ok_frame, node_ok, strip,
};
use crate::universe::{Universe, UniverseError, MAX_ROOT_LEVEL};
use vstd::arithmetic::power2::{
    lemma2_to64, lemma_pow2_adds, lemma_pow2_strictly_increases, lemma_pow2_unfold, pow2,
};
use vstd::prelude::*;

verus! {

/// A centre that shows the whole future of a pattern is that future: the
/// pattern has not had the time to leave the window.
pub proof fn lemma_result_is_future(
    rule: Rule,
    g: Set<(int, int)>,
    r: Set<(int, int)>,
    w: int,
    t: nat,
)
    requires
        rule.wf(),
        shows(r, 0, 0, w, life_iter(rule, g, t)),
        within(r, -w, w),
        within(g, -(w - t), w - t),
    ensures
        r == life_iter(rule, g, t),
{
    reveal(shows);
    let f = life_iter(rule, g, t);
    lemma_iter_within(rule, g, t, -(w - t), w - t);
    assert forall|p: (int, int)| r.contains(p) == f.contains(p) by {
        if -w <= p.0 < w && -w <= p.1 < w {
            assert(r.contains((p.0, p.1)) == f.contains((p.0 + 0, p.1 + 0)));
        }
    }
    assert(r =~= f);
}

/// The pattern lies inside the lattice.
pub open spec fn fits_lattice(g: Set<(int, int)>) -> bool {
    within(g, -LATTICE_RADIUS, LATTICE_RADIUS as int)
}

/// The number of generations that the driver has done when it has worked
/// off the `e` lowest bits of the count `n`.
pub open spec fn checkpoint(n: nat, e: nat) -> nat {
    n % pow2(e)
}

/// The pattern `g` lies inside the lattice at every checkpoint of a run of
/// `n` generations.
pub open spec fn stays_in_lattice(rule: Rule, g: Set<(int, int)>, n: nat) -> bool {
    forall|e: nat| e <= 64 ==> fits_lattice(life_iter(rule, g, #[trigger] checkpoint(n, e)))
}

/// A store whose levels go up to `top` has room for a run of `n` generations
/// of a universe without live cells whose root has the given level: the
/// root is given room for two levels, and for three more than the highest
/// exponent of the run.
pub open spec fn room_for(level: int, top: int, n: nat) -> bool {
    top >= level + 2 && top >= 6 && n < pow2((top - 2) as nat)
}

proof fn lemma_exp_below(rest: int, k: int, done: int, n: int, top: int)
    requires
        rest >= 1,
        k >= 0,
        done >= 0,
        n == rest * pow2(k as nat) + done,
        top >= 2,
        n < pow2((top - 2) as nat),
    ensures
        k + 3 <= top,
{
    assert(rest * pow2(k as nat) >= pow2(k as nat)) by (nonlinear_arith)
        requires
            rest >= 1,
            pow2(k as nat) >= 0,
    ;
    if k > top - 2 {
        lemma_pow2_strictly_increases((top - 2) as nat, k as nat);
    }
}

proof fn lemma_halve(rest: int, p: int, q: int)
    requires
        rest % 2 == 0,
        q == 2 * p,
    ensures
        (rest / 2) * q == rest * p,
{
    assert((rest / 2) * (2 * p) == rest * p) by (nonlinear_arith)
        requires
            rest % 2 == 0,
    ;
}

proof fn lemma_take_one(rest: int, p: int)
    ensures
        (rest - 1) * p == rest * p - p,
{
    assert((rest - 1) * p == rest * p - p) by (nonlinear_arith);
}

proof fn lemma_exp_bound(rest: int, k: int)
    requires
        rest >= 1,
        k >= 0,
        rest * pow2(k as nat) <= u64::MAX,
    ensures
        k < 64,
{
    lemma2_to64();
    if k >= 64 {
        if k > 64 {
            lemma_pow2_strictly_increases(64, k as nat);
        }
        assert(rest * pow2(k as nat) >= pow2(k as nat)) by (nonlinear_arith)
            requires
                rest >= 1,
                pow2(k as nat) >= 0,
        ;
    }
}

/// The checkpoint at `e` bits of a count whose bits from `kb` to `k` are
/// zero is the part of the count below bit `kb`.
proof fn lemma_checkpoint(n: nat, rest: nat, k: nat, done: nat, kb: nat, e: nat)
    requires
        n == rest * pow2(k) + done,
        done < pow2(kb),
        kb <= e <= k,
    ensures
        checkpoint(n, e) == done,
{
    let d = pow2(e) as int;
    let q = rest * pow2((k - e) as nat);
    lemma_pow2_adds((k - e) as nat, e);
    vstd::arithmetic::power2::lemma_pow2_pos(e);
    if kb < e {
        lemma_pow2_strictly_increases(kb, e);
    }
    assert(rest * pow2(k) == q * d) by (nonlinear_arith)
        requires
            pow2(k) == pow2((k - e) as nat) * pow2(e),
            q == rest * pow2((k - e) as nat),
            d == pow2(e),
    ;
    vstd::arithmetic::div_mod::lemma_fundamental_div_mod_converse(n as int, d, q as int, done as int);
}

/// When bit `k` of the count is set, the checkpoint at `k + 1` bits lies
/// `2 ^ k` generations after the checkpoint at `k` bits.
proof fn lemma_checkpoint_chunk(n: nat, rest: nat, k: nat, done: nat)
    requires
        n == rest * pow2(k) + done,
        done < pow2(k),
        rest % 2 == 1,
    ensures
        checkpoint(n, k + 1) == done + pow2(k),
{
    let m = rest / 2;
    lemma_pow2_unfold(k + 1);
    vstd::arithmetic::power2::lemma_pow2_pos(k + 1);
    assert(rest * pow2(k) == m * pow2(k + 1) + pow2(k)) by (nonlinear_arith)
        requires
            rest == 2 * m + 1,
            pow2(k + 1) == 2 * pow2(k),
    ;
    vstd::arithmetic::div_mod::lemma_fundamental_div_mod_converse(
        n as int,
        pow2(k + 1) as int,
        m as int,
        (done + pow2(k)) as int,
    );
}

/// A count below `2 ^ k` is its own checkpoint from `k` bits on.
proof fn lemma_checkpoint_end(n: nat, k: nat, e: nat)
    requires
        n < pow2(k),
        k <= e,
    ensures
        checkpoint(n, e) == n,
{
    if k < e {
        lemma_pow2_strictly_increases(k, e);
    }
    vstd::arithmetic::div_mod::lemma_small_mod(n, pow2(e));
}

impl Universe {
    /// Forgets the results cached in the macrocells whose step ran for
    /// `2 ^ k` generations and would run for more when `new_k` is asked: the
    /// macrocells of a level `l` with `k < l - 2 <= new_k`.
    pub fn clear_results(&mut self, k: u16, new_k: u16)
        requires
            old(self).inv(),
        ensures
            final(self).inv(),
            final(self).grows_from(old(self)),
            final(self).spec_root() == old(self).spec_root(),
            final(self).empties() == old(self).empties(),
            final(self).cells() == old(self).cells(),
            final(self).store().len() == old(self).store().len(),
            old(self).is_barren() ==> final(self).is_barren(),
            forall|top: int| #[trigger] old(self).is_capped(top) ==> final(self).is_capped(top),
            forall|i: int|
                0 <= i < old(self).store().len() ==> #[trigger] final(self).store()[i] == (if k
                    < old(self).store()[i].spec_level() - 2 <= new_k {
                    strip(old(self).store()[i])
                } else {
                    old(self).store()[i]
                }),
    {
        let ghost pre = *self;
        proof {
            reveal(Universe::inv);
        }
        let n = self.nodes.len();
        let mut i: usize = 0;
        while i < n
            invariant
                i <= n,
                n == self.nodes@.len(),
                n == pre.nodes@.len(),
                self.index == pre.index,
                self.root == pre.root,
                self.rule == pre.rule,
                self.empty_nodes == pre.empty_nodes,
                self.level2_results == pre.level2_results,
                self.byte_range == pre.byte_range,
                forall|j: int|
                    0 <= j < i ==> #[trigger] self.nodes@[j] == (if k < pre.nodes@[j].spec_level()
                        - 2 <= new_k {
                        strip(pre.nodes@[j])
                    } else {
                        pre.nodes@[j]
                    }),
                forall|j: int| i <= j < n ==> #[trigger] self.nodes@[j] == pre.nodes@[j],
            decreases n - i,
        {
            let node = self.nodes[i];
            match node {
                Node::Internal(x) => {
                    if x.level >= 2 && k < x.level - 2 && x.level - 2 <= new_k {
                        self.nodes.set(
                            i,
                            Node::Internal(
                                InternalNode {
                                    key: x.key,
                                    result: NodeId(0),
                                    result_k: 0,
                                    level: x.level,
                                    mark: x.mark,
                                },
                            ),
                        );
                    }
                },
                Node::Leaf(_) => {},
            }
            i = i + 1;
        }
        proof {
            let old_nodes = pre.nodes@;
            let new_nodes = self.nodes@;
            assert forall|j: int| 0 <= j < old_nodes.len() implies strip(old_nodes[j]) == strip(
                #[trigger] new_nodes[j],
            ) by {}
            lemma_grows(old_nodes, new_nodes);
            assert forall|j: int| 0 <= j < new_nodes.len() implies #[trigger] node_ok(
                new_nodes,
                self.rule,
                j,
            ) by {
                assert(node_ok(old_nodes, self.rule, j));
                if new_nodes[j] == old_nodes[j] {
                    lemma_node_ok_frame(old_nodes, new_nodes, self.rule, j);
                } else {
                    lemma_node_ok_cleared(old_nodes, new_nodes, self.rule, j);
                }
            }
            assert forall|j: int| 0 <= j < new_nodes.len() implies #[trigger] index_keys(
                self.index,
            )[j] == new_nodes[j].key().encoding() by {
                assert(index_keys(pre.index)[j] == old_nodes[j].key().encoding());
            }
            lemma_empties_frame(old_nodes, new_nodes, self.empty_nodes@);
            if pre.is_barren() {
                crate::canon::lemma_barren_same(old_nodes, new_nodes);
            }
            assert forall|top: int| #[trigger] pre.is_capped(top) implies self.is_capped(top) by {
                crate::canon::lemma_capped_same(old_nodes, new_nodes, top);
            }
        }
    }

    /// Advances the universe by `num_gen` generations. The count is taken
    /// apart into powers of two, the lowest first; for each of them the root
    /// is given room, stepped and shrunk again, so that after a run the root
    /// is the least from level 4 on that holds every live cell. If the
    /// pattern has outgrown the lattice after one of these steps, the
    /// universe is left as it was.
    #[verifier::rlimit(50)]
    pub fn simulate(&mut self, num_gen: usize) -> (r: Result<(), UniverseError>)
        requires
            old(self).wf(),
        ensures
            final(self).wf(),
            final(self).grows_from(old(self)),
            r is Ok <==> stays_in_lattice(old(self).spec_rule(), old(self).cells(), num_gen as nat),
            r is Ok ==> final(self).cells() == life_iter(
                old(self).spec_rule(),
                old(self).cells(),
                num_gen as nat,
            ),
            r is Err ==> r->Err_0 == UniverseError::LatticeOverflow,
            r is Err ==> final(self).cells() == old(self).cells() && final(self).spec_root()
                == old(self).spec_root(),
            num_gen == 0 ==> final(self).store() == old(self).store(),
            num_gen == 0 ==> final(self).spec_root() == old(self).spec_root(),
            num_gen > 0 && r is Ok ==> least_level(
                final(self).cells(),
                final(self).spec_level_of(final(self).spec_root()),
                4,
            ),
            old(self).is_barren() ==> final(self).is_barren(),
            forall|top: int|
                r is Ok && old(self).is_barren() && #[trigger] old(self).is_capped(top)
                    && room_for(old(self).spec_level_of(old(self).spec_root()), top, num_gen as nat)
                    ==> final(self).is_capped(top),
    {
        let ghost pre = *self;
        let ghost rule = self.rule;
        let ghost start = self.cells();
        let ghost n = num_gen as nat;
        proof {
            lemma_grows(self.nodes@, self.nodes@);
            reveal(Universe::inv);
            lemma_grid_within(self.nodes@, self.rule, self.root);
            crate::store::lemma_kind(self.nodes@, self.rule, self.root);
            lemma_half_63();
            lemma_half_increases(self.spec_level_of(self.spec_root()), 63);
            assert(fits_lattice(start));
            lemma2_to64();
        }
        if num_gen == 0 {
            proof {
                assert forall|e: nat| e <= 64 implies fits_lattice(
                    life_iter(rule, start, #[trigger] checkpoint(n, e)),
                ) by {
                    vstd::arithmetic::power2::lemma_pow2_pos(e);
                    vstd::arithmetic::div_mod::lemma_small_mod(0, pow2(e));
                }
            }
            return Ok(());
        }
        let saved_root = self.root;
        let mut rest: usize = num_gen;
        let mut k: u16 = 0;
        let ghost mut done: nat = 0;
        while rest % 2 == 0
            invariant
                rest >= 1,
                rest * pow2(k as nat) == num_gen,
                k < 64,
            decreases rest,
        {
            proof {
                lemma_pow2_unfold((k + 1) as nat);
                lemma_halve(rest as int, pow2(k as nat) as int, pow2((k + 1) as nat) as int);
                lemma_exp_bound(rest as int / 2, k + 1);
            }
            rest = rest / 2;
            k = k + 1;
        }
        proof {
            assert forall|e: nat| e <= k implies fits_lattice(
                life_iter(rule, start, #[trigger] checkpoint(n, e)),
            ) by {
                lemma_checkpoint(n, rest as nat, k as nat, 0, 0, e);
            }
        }
        let mut first = true;
        let mut old_k: u16 = 0;
        while rest != 0
            invariant
                pre == *old(self),
                num_gen != 0,
                n == num_gen,
                self.wf(),
                self.grows_from(&pre),
                self.spec_rule() == rule,
                rule == pre.spec_rule(),
                start == pre.cells(),
                pre.wf(),
                saved_root == pre.spec_root(),
                rest != 0 ==> rest % 2 == 1,
                rest != 0 ==> done < pow2(k as nat),
                rest != 0 ==> k < 64,
                n == rest * pow2(k as nat) + done,
                forall|e: nat|
                    e <= k ==> fits_lattice(life_iter(rule, start, #[trigger] checkpoint(n, e))),
                rest == 0 ==> stays_in_lattice(rule, start, n),
                self.cells() == life_iter(rule, start, done),
                first ==> rest != 0,
                !first ==> least_level(self.cells(), self.spec_level_of(self.spec_root()), 4),
                first ==> self.spec_level_of(self.spec_root()) == pre.spec_level_of(
                    pre.spec_root(),
                ),
                pre.is_barren() ==> self.is_barren(),
                forall|top: int|
                    pre.is_barren() && #[trigger] pre.is_capped(top) && room_for(
                        pre.spec_level_of(pre.spec_root()),
                        top,
                        n,
                    ) ==> self.is_capped(top),
            decreases rest,
        {
            let ghost g0 = self.cells();
            let ghost s0 = *self;
            let ghost rest0 = rest;
            let ghost lpre = pre.spec_level_of(pre.spec_root());
            proof {
                if pre.is_barren() && !first {
                    reveal(Universe::inv);
                    crate::canon::lemma_barren_node(self.store(), self.spec_root());
                    assert(self.spec_level_of(self.spec_root()) == 4);
                }
            }
            if !first {
                proof {
                    reveal(Universe::inv);
                }
                self.clear_results(old_k, k);
            }
            let ghost s1 = *self;
            let ghost l0 = self.spec_level_of(self.spec_root());
            proof {
                reveal(Universe::inv);
                lemma_grid_within(self.nodes@, self.rule, self.root);
                crate::store::lemma_kind(self.nodes@, self.rule, self.root);
            }
            self.grow();
            let ghost s2 = *self;
            self.grow();
            let ghost s3 = *self;
            proof {
                s2.lemma_grows_from_trans(&s1, &s0);
                s3.lemma_grows_from_trans(&s2, &s0);
                reveal(Universe::inv);
            }
            let need: u16 = if k + 3 > 4 {
                k + 3
            } else {
                4
            };
            let mut level = self.node_level(self.root);
            while level < need
                invariant
                    self.inv(),
                    self.grows_from(&s0),
                    self.cells() == g0,
                    self.valid(self.spec_root()),
                    level == self.spec_level_of(self.spec_root()),
                    l0 + 2 <= level <= 66,
                    need <= 66,
                    level <= need || level == l0 + 2,
                    self.empties().len() >= level - 1,
                    s0.is_barren() ==> self.is_barren(),
                    forall|top: int|
                        #[trigger] s0.is_capped(top) && need <= top && l0 + 2 <= top
                            ==> self.is_capped(top),
                decreases need - level,
            {
                let ghost b = *self;
                self.grow();
                level = level + 1;
                proof {
                    self.lemma_grows_from_trans(&b, &s0);
                    reveal(Universe::inv);
                }
            }
            let ghost s4 = *self;
            let root = self.step(self.root, k);
            let ghost s5 = *self;
            proof {
                reveal(Universe::inv);
                self.lemma_grows_from_trans(&s4, &s0);
                let w = half(level - 1);
                let t = pow2(k as nat);
                assert(step_exp(level as int, k) == k as nat);
                lemma_grid_within(self.nodes@, self.rule, root);
                lemma_half(level - 2);
                lemma_half(level - 1);
                lemma_half_increases(l0, level - 2);
                if (k as int) < level - 3 {
                    lemma_pow2_strictly_increases(k as nat, (level - 3) as nat);
                }
                assert(t <= half(level - 2));
                assert(self.grid(s4.spec_root()) == g0);
                assert(within(g0, -(w - t), w - t)) by {
                    assert(within(g0, -half(l0), half(l0)));
                }
                lemma_result_is_future(rule, g0, self.grid(root), w, t);
                lemma_iter_add(rule, start, done, t);
                lemma_checkpoint_chunk(n, rest as nat, k as nat, done);
            }
            self.root = root;
            let ghost s6 = *self;
            proof {
                reveal(Universe::inv);
            }
            self.shrink();
            let after = self.node_level(self.root);
            proof {
                assert forall|top: int|
                    pre.is_barren() && #[trigger] pre.is_capped(top) && room_for(
                        lpre,
                        top,
                        n,
                    ) implies self.is_capped(top) by {
                    lemma_exp_below(rest as int, k as int, done as int, n as int, top);
                    assert(s0.is_capped(top));
                    assert(need <= top && l0 + 2 <= top);
                    assert(s4.is_capped(top));
                    assert(s5.is_capped(top));
                    assert(s6.is_capped(top));
                }
                self.lemma_grows_from_trans(&s5, &s0);
                self.lemma_grows_from_trans(&s0, &pre);
                reveal(Universe::inv);
                lemma_half_63();
                if after > MAX_ROOT_LEVEL {
                    lemma_half_increases(63, after - 1);
                    assert(!fits_lattice(self.cells()));
                    assert(checkpoint(n, (k + 1) as nat) == done + pow2(k as nat));
                    assert(!stays_in_lattice(rule, start, n));
                } else {
                    lemma_grid_within(self.nodes@, self.rule, self.root);
                    crate::store::lemma_kind(self.nodes@, self.rule, self.root);
                    lemma_half_increases(after as int, 63);
                    assert(fits_lattice(self.cells()));
                    assert(s5.empties().len() > level - 3);
                    assert(least_level(self.cells(), after as int, 4));
                }
            }
            if after > MAX_ROOT_LEVEL {
                self.root = saved_root;
                proof {
                    reveal(Universe::inv);
                    assert(self.grid(saved_root) == pre.grid(saved_root));
                    assert(crate::store::shape_of(self.store(), saved_root)
                        == crate::store::shape_of(pre.store(), saved_root));
                }
                return Err(UniverseError::LatticeOverflow);
            }
            let ghost kb = (k + 1) as nat;
            proof {
                lemma_take_one(rest as int, pow2(k as nat) as int);
                lemma_pow2_unfold(kb);
                done = done + pow2(k as nat);
            }
            rest = rest - 1;
            old_k = k;
            first = false;
            proof {
                if rest == 0 {
                    assert(rest * pow2(k as nat) == 0) by (nonlinear_arith)
                        requires
                            rest == 0,
                    ;
                    assert forall|e: nat| e <= 64 implies fits_lattice(
                        life_iter(rule, start, #[trigger] checkpoint(n, e)),
                    ) by {
                        if e > k {
                            lemma_checkpoint_end(n, kb, e);
                        }
                    }
                }
            }
            let ghost mut top: nat = kb;
            let ghost finished = rest == 0;
            while rest != 0 && rest % 2 == 0
                invariant
                    finished == (rest == 0),
                    finished ==> stays_in_lattice(rule, start, n),
                    n == rest * pow2(k as nat) + done,
                    n == num_gen,
                    done < pow2(kb),
                    kb <= k + 1,
                    kb <= k || rest % 2 == 0 || rest == 0,
                    k < 64,
                    rest < rest0,
                    top >= k,
                    top >= kb,
                    forall|e: nat|
                        e <= top ==> fits_lattice(
                            life_iter(rule, start, #[trigger] checkpoint(n, e)),
                        ),
                    fits_lattice(life_iter(rule, start, done)),
                decreases rest,
            {
                proof {
                    lemma_pow2_unfold((k + 1) as nat);
                    lemma_halve(rest as int, pow2(k as nat) as int, pow2((k + 1) as nat) as int);
                    assert((rest as int / 2) * pow2((k + 1) as nat) <= n);
                    lemma_exp_bound(rest as int / 2, k + 1);
                }
                rest = rest / 2;
                k = k + 1;
                proof {
                    if (k as nat) > top {
                        assert forall|e: nat| e <= k implies fits_lattice(
                            life_iter(rule, start, #[trigger] checkpoint(n, e)),
                        ) by {
                            if e > top {
                                lemma_checkpoint(n, rest as nat, k as nat, done, kb, e);
                            }
                        }
                        top = k as nat;
                    }
                }
            }
            proof {
                if rest != 0 && kb < k {
                    lemma_pow2_strictly_increases(kb, k as nat);
                }
            }
        }
        proof {
            assert(done == num_gen) by {
                assert(rest * pow2(k as nat) == 0) by (nonlinear_arith)
                    requires
                        rest == 0,
                ;
            }
        }
        Ok(())
    }
}

} // verus!
