//! Laws that the operations of the universe obey, stated over the same
//! models as their contracts.

use crate::bounds::bounds_of;
use crate::canon::{is_empty_grid, lemma_empty_is_canonical};
use crate::export::{all_live, union_of, CellData};
use crate::index::index_keys;
use crate::life::{lemma_iter_add, lemma_iter_within, life_iter, with_cell, within};
use crate::node::{InternalNodeKey, NodeId, NodeKey};
use crate::rule::Rule;
use crate::simulate::{checkpoint, fits_lattice, stays_in_lattice};
use crate::store::{empty_ok, lemma_internal, lemma_kind};
use crate::universe::{lemma_empty_grid, lemma_iter_empty, Universe, MAX_ROOT_LEVEL};
use vstd::prelude::*;

verus! {

/// The root of a universe is a macrocell of level 3 at least and 63 at most.
pub proof fn law_root_level(uni: &Universe)
    requires
        uni.wf(),
    ensures
        3 <= uni.spec_level_of(uni.spec_root()) <= MAX_ROOT_LEVEL,
{
    reveal(Universe::inv);
    lemma_kind(uni.store(), uni.spec_rule(), uni.spec_root());
}

/// The four quadrants of an internal node are nodes of the level below it.
pub proof fn law_quadrant_levels(uni: &Universe, id: NodeId)
    requires
        uni.wf(),
        uni.valid(id),
        uni.spec_key_of(id) is Internal,
    ensures
        ({
            let k = uni.spec_key_of(id)->Internal_0;
            &&& uni.valid(k.nw) && uni.spec_level_of(k.nw) == uni.spec_level_of(id) - 1
            &&& uni.valid(k.ne) && uni.spec_level_of(k.ne) == uni.spec_level_of(id) - 1
            &&& uni.valid(k.sw) && uni.spec_level_of(k.sw) == uni.spec_level_of(id) - 1
            &&& uni.valid(k.se) && uni.spec_level_of(k.se) == uni.spec_level_of(id) - 1
        }),
{
    reveal(Universe::inv);
    lemma_internal(uni.store(), uni.spec_rule(), id);
}

/// The canonical empty macrocell of a level has no live cell, and above
/// level 3 its four quadrants are the canonical empty macrocell of the level
/// below.
pub proof fn law_canonical_empty(uni: &Universe, level: int)
    requires
        uni.wf(),
        3 <= level < uni.empties().len(),
    ensures
        uni.valid(uni.empties()[level]),
        uni.spec_level_of(uni.empties()[level]) == level,
        is_empty_grid(uni.grid(uni.empties()[level])),
        level > 3 ==> uni.spec_key_of(uni.empties()[level]) == NodeKey::Internal(
            InternalNodeKey {
                nw: uni.empties()[level - 1],
                ne: uni.empties()[level - 1],
                sw: uni.empties()[level - 1],
                se: uni.empties()[level - 1],
            },
        ),
{
    reveal(Universe::inv);
    assert(empty_ok(uni.store(), uni.empties(), level));
    lemma_empty_grid(uni.store(), uni.spec_rule(), uni.empties(), level);
}

/// A macrocell without live cells is the canonical empty macrocell of its
/// level, as far as the canonical empty macrocells are interned: emptiness
/// can be tested by comparing handles.
pub proof fn law_empty_is_canonical(uni: &Universe, id: NodeId)
    requires
        uni.wf(),
        uni.valid(id),
        uni.spec_level_of(id) < uni.empties().len(),
        is_empty_grid(uni.grid(id)),
    ensures
        id == uni.empties()[uni.spec_level_of(id)],
{
    reveal(Universe::inv);
    lemma_empty_is_canonical(
        index_keys(uni.index),
        uni.store(),
        uni.spec_rule(),
        uni.empties(),
        id,
    );
}

/// Two macrocells of one level with the same live cells are one node: a
/// handle stands for a pattern.
pub proof fn law_same_cells_same_node(uni: &Universe, a: NodeId, b: NodeId)
    requires
        uni.wf(),
        uni.valid(a),
        uni.valid(b),
        uni.spec_level_of(a) == uni.spec_level_of(b),
        uni.grid(a) == uni.grid(b),
    ensures
        a == b,
{
    reveal(Universe::inv);
    crate::canon::lemma_canonical(index_keys(uni.index), uni.store(), uni.spec_rule(), a, b);
}

/// Interning a key twice gives the same handle, and the second time changes
/// nothing.
pub proof fn law_find_node_twice(
    first: &Universe,
    second: &Universe,
    third: &Universe,
    key: NodeKey,
    id1: NodeId,
    id2: NodeId,
)
    requires
        second.interned(first, key, id1),
        third.interned(second, key, id2),
    ensures
        id1 == id2,
        third.store() == second.store(),
{
}

/// Advancing by `a` generations and then by `b` generations is advancing by
/// `a + b` generations.
pub proof fn law_simulate_adds(rule: Rule, cells: Set<(int, int)>, a: nat, b: nat)
    ensures
        life_iter(rule, life_iter(rule, cells, a), b) == life_iter(rule, cells, a + b),
{
    lemma_iter_add(rule, cells, a, b);
}

/// Advancing by no generation changes nothing.
pub proof fn law_simulate_zero(rule: Rule, cells: Set<(int, int)>)
    ensures
        life_iter(rule, cells, 0) == cells,
{
}

/// Making a cell alive twice is making it alive once.
pub proof fn law_set_twice(cells: Set<(int, int)>, x: int, y: int)
    ensures
        with_cell(with_cell(cells, x, y, true), x, y, true) == with_cell(cells, x, y, true),
{
    assert(with_cell(with_cell(cells, x, y, true), x, y, true) =~= with_cell(cells, x, y, true));
}

/// Making a dead cell dead changes nothing.
pub proof fn law_clear_dead(cells: Set<(int, int)>, x: int, y: int)
    requires
        !cells.contains((x, y)),
    ensures
        with_cell(cells, x, y, false) == cells,
{
    assert(with_cell(cells, x, y, false) =~= cells);
}

/// The pattern made by setting the cells of `list` alive one after the other
/// in a universe without live cells.
pub open spec fn replay(list: Seq<(int, int)>) -> Set<(int, int)>
    decreases list.len(),
{
    if list.len() == 0 {
        Set::empty()
    } else {
        with_cell(replay(list.drop_last()), list.last().0, list.last().1, true)
    }
}

/// Setting alive, in a universe without live cells, every live cell of the
/// squares that were written out gives the pattern that was written out.
pub proof fn law_write_then_set(items: Seq<CellData>, cells: Set<(int, int)>, list: Seq<(int, int)>)
    requires
        union_of(items) == cells,
        forall|p: (int, int)| #[trigger] list.contains(p) <==> union_of(items).contains(p),
    ensures
        replay(list) == cells,
{
    lemma_replay(list);
    assert forall|p: (int, int)| replay(list).contains(p) == cells.contains(p) by {
        assert(replay(list).contains(p) <==> list.contains(p));
        assert(list.contains(p) <==> union_of(items).contains(p));
    }
    assert(replay(list) =~= cells);
}

proof fn lemma_replay(list: Seq<(int, int)>)
    ensures
        forall|p: (int, int)| #[trigger] replay(list).contains(p) <==> list.contains(p),
    decreases list.len(),
{
    if list.len() > 0 {
        let front = list.drop_last();
        lemma_replay(front);
        assert forall|p: (int, int)| #[trigger] replay(list).contains(p) <==> list.contains(p) by {
            assert(replay(front).contains(p) <==> front.contains(p));
            if list.contains(p) {
                let i = choose|i: int| 0 <= i < list.len() && list[i] == p;
                if i < list.len() - 1 {
                    assert(front[i] == p);
                }
            }
            if front.contains(p) {
                let i = choose|i: int| 0 <= i < front.len() && front[i] == p;
                assert(list[i] == p);
            }
            assert(list[list.len() - 1] == list.last());
        }
    }
}

/// The leaves that are written out of a universe lie each at a place of its
/// own: no square comes twice.
pub proof fn law_leaves_once(uni: &Universe, viewport: crate::bounds::Boundary)
    requires
        uni.wf(),
    ensures
        crate::export::all_apart(
            crate::export::leaves(uni.store(), uni.spec_root(), 0, 0, viewport),
        ),
{
    reveal(Universe::inv);
    lemma_kind(uni.store(), uni.spec_rule(), uni.spec_root());
    crate::envelope::lemma_half_63();
    crate::envelope::lemma_half_increases(uni.spec_level_of(uni.spec_root()), 63);
    crate::export::lemma_leaves_apart(
        uni.store(),
        uni.spec_rule(),
        uni.spec_root(),
        0,
        0,
        viewport,
    );
}

/// Of a universe without live cells, nothing is written out.
pub proof fn law_empty_writes_nothing(items: Seq<CellData>)
    requires
        all_live(items),
        is_empty_grid(union_of(items)),
    ensures
        items.len() == 0,
{
    if items.len() > 0 {
        assert(!is_empty_grid(items[0].grid()));
        let p = choose|p: (int, int)| items[0].grid().contains(p);
        assert(union_of(items).contains(p));
    }
}

/// The bounding box of a single live cell is that cell.
pub proof fn law_single_cell_bounds(x: int, y: int, b: (int, int, int, int))
    requires
        bounds_of(with_cell(Set::empty(), x, y, true), b),
    ensures
        b == (x, y, x + 1, y + 1),
{
    let g = with_cell(Set::<(int, int)>::empty(), x, y, true);
    assert(g.contains((x, y)));
    let p0 = choose|p: (int, int)| #[trigger] g.contains(p) && p.0 == b.0;
    let p1 = choose|p: (int, int)| #[trigger] g.contains(p) && p.0 == b.2 - 1;
    let p2 = choose|p: (int, int)| #[trigger] g.contains(p) && p.1 == b.1;
    let p3 = choose|p: (int, int)| #[trigger] g.contains(p) && p.1 == b.3 - 1;
    assert(g.contains(p0) && g.contains(p1) && g.contains(p2) && g.contains(p3));
}

/// A store without live cells is the chain of the empty macrocells, one to a
/// level from level 3 on: it holds two nodes less than its highest level.
pub proof fn law_empty_store_is_a_chain(uni: &Universe, top: int)
    requires
        uni.wf(),
        uni.is_barren(),
        uni.is_capped(top),
    ensures
        forall|id: NodeId| uni.valid(id) ==> #[trigger] uni.spec_level_of(id) == id.0 + 2,
        uni.store().len() + 2 <= top,
{
    reveal(Universe::inv);
    let nodes = uni.store();
    crate::canon::lemma_chain_levels(
        index_keys(uni.index),
        nodes,
        uni.spec_rule(),
        nodes.len() as int,
    );
    let last = NodeId(nodes.len() as u64);
    assert(uni.valid(uni.spec_root()));
    assert(uni.valid(last));
    assert(uni.spec_level_of(last) == last.0 + 2);
    crate::canon::lemma_capped_node(nodes, top, last);
}

/// After a run of `n` generations a fresh universe holds `top - 2` nodes at
/// most, for every `top` from 6 on with `n < 2 ^ (top - 2)`: the run interns
/// nothing but the chain of empty macrocells up to level `top`. Here `after`
/// is any universe of which the two clauses hold that `simulate` states of a
/// store without live cells.
pub proof fn law_empty_run_interns_a_chain(
    before: &Universe,
    after: &Universe,
    top: int,
    n: nat,
)
    requires
        before.wf(),
        after.wf(),
        before.is_barren(),
        before.is_capped(3),
        before.spec_level_of(before.spec_root()) == 3,
        top >= 6,
        n < vstd::arithmetic::power2::pow2((top - 2) as nat),
        before.is_barren() ==> after.is_barren(),
        forall|t: int|
            before.is_barren() && #[trigger] before.is_capped(t) && crate::simulate::room_for(
                before.spec_level_of(before.spec_root()),
                t,
                n,
            ) ==> after.is_capped(t),
    ensures
        after.store().len() <= top - 2,
{
    crate::canon::lemma_capped_higher(before.store(), 3, top);
    assert(before.is_capped(top));
    law_empty_store_is_a_chain(after, top);
}

/// A universe without live cells can be advanced by any number of
/// generations, and stays without live cells.
pub proof fn law_empty_stays_empty(rule: Rule, cells: Set<(int, int)>, n: nat)
    requires
        rule.wf(),
        is_empty_grid(cells),
    ensures
        stays_in_lattice(rule, cells, n),
        is_empty_grid(life_iter(rule, cells, n)),
{
    lemma_iter_empty(rule, cells, n);
    assert forall|e: nat| e <= 64 implies fits_lattice(
        life_iter(rule, cells, #[trigger] checkpoint(n, e)),
    ) by {
        lemma_iter_empty(rule, cells, checkpoint(n, e));
    }
}

/// A pattern that lies `n` cells inside the lattice on every side can be
/// advanced by `n` generations.
pub proof fn law_room_to_grow(rule: Rule, cells: Set<(int, int)>, n: nat, lo: int, hi: int)
    requires
        rule.wf(),
        within(cells, lo, hi),
        -crate::envelope::LATTICE_RADIUS <= lo - n,
        hi + n <= crate::envelope::LATTICE_RADIUS,
    ensures
        stays_in_lattice(rule, cells, n),
{
    assert forall|e: nat| e <= 64 implies fits_lattice(
        life_iter(rule, cells, #[trigger] checkpoint(n, e)),
    ) by {
        let m = checkpoint(n, e);
        vstd::arithmetic::power2::lemma_pow2_pos(e);
        vstd::arithmetic::div_mod::lemma_mod_decreases(n, vstd::arithmetic::power2::pow2(e));
        lemma_iter_within(rule, cells, m, lo, hi);
    }
}

} // verus!
