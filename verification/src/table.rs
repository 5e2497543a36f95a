//! Transition tables: the future of every 4x4 square, computed once per rule,
//! and from it the future of an 8x8 square.

use crate::bits::{
    bit16, entry_alive, entry_clean, entry_grid, hmix, inner, lemma_bit_is_01, lemma_hmix_shows,
    lemma_inner_shows, lemma_square_shows, lemma_vmix_shows, lemma_center_shows,
    level2_square_from_quadrant, quad_alive, quad_grid, vmix,
};
use crate::life::{
    lemma_next_local, lemma_quadrants_show, lemma_shows_self, life_iter, life_step,
    neighbor_count, next_alive,
    shows,
};
use crate::node::LeafNodeKey;
use crate::rule::Rule;
use vstd::prelude::*;

verus! {

/// `e` packs the centre 2x2 square of the 4x4 square `q` after one generation.
pub open spec fn level2_entry_ok(rule: Rule, q: u16, e: u8) -> bool {
    &&& entry_clean(e)
    &&& forall|u: int, v: int|
        -1 <= u < 1 && -1 <= v < 1 ==> #[trigger] entry_alive(e, u, v) == next_alive(
            rule,
            quad_grid(q),
            u,
            v,
        )
}

/// `t` is the table of the centres of all 4x4 squares after one generation.
pub open spec fn level2_table_ok(rule: Rule, t: Seq<u8>) -> bool {
    &&& t.len() == 65536
    &&& forall|q: u16| level2_entry_ok(rule, q, #[trigger] t[q as int])
}

/// `results` holds the centre 4x4 square of the leaf after one generation and
/// after two generations.
pub open spec fn leaf_results_ok(rule: Rule, key: LeafNodeKey, results: [u16; 2]) -> bool {
    &&& shows(quad_grid(results[0]), 0, 0, 2, life_iter(rule, key.grid(), 1))
    &&& shows(quad_grid(results[1]), 0, 0, 2, life_iter(rule, key.grid(), 2))
}

proof fn lemma_entry_bits(a: u16, b: u16, c: u16, d: u16)
    by (bit_vector)
    requires
        a < 2,
        b < 2,
        c < 2,
        d < 2,
    ensures
        ((a << 5u16 | b << 4u16 | c << 1u16 | d) >> 5u16) & 1u16 == a,
        ((a << 5u16 | b << 4u16 | c << 1u16 | d) >> 4u16) & 1u16 == b,
        ((a << 5u16 | b << 4u16 | c << 1u16 | d) >> 1u16) & 1u16 == c,
        ((a << 5u16 | b << 4u16 | c << 1u16 | d) >> 0u16) & 1u16 == d,
        (a << 5u16 | b << 4u16 | c << 1u16 | d) < 64,
        ((a << 5u16 | b << 4u16 | c << 1u16 | d) as u8) & 0xccu8 == 0u8,
        ((a << 5u16 | b << 4u16 | c << 1u16 | d) as u8) as u16 == (a << 5u16 | b << 4u16 | c
            << 1u16 | d),
{
}

/// Bit `i` of `q`, as a number.
fn quad_bit(q: u16, i: u16) -> (b: u16)
    requires
        i < 16,
    ensures
        b == (if bit16(q, i as int) {
            1u16
        } else {
            0u16
        }),
{
    proof {
        lemma_bit_is_01(q, i);
    }
    (q >> i) & 1u16
}

/// The state after one generation of one of the four centre cells of the 4x4
/// square `q`: the cell held in bit `i`.
fn next_center(rule: &Rule, q: u16, i: u16) -> (a: u16)
    requires
        i == 10 || i == 9 || i == 6 || i == 5,
    ensures
        a < 2,
        (a == 1) == next_alive(
            *rule,
            quad_grid(q),
            if i == 10 || i == 6 {
                -1
            } else {
                0
            },
            if i >= 8 {
                -1
            } else {
                0
            },
        ),
{
    let count: u16 = quad_bit(q, i + 5) + quad_bit(q, i + 4) + quad_bit(q, i + 3) + quad_bit(
        q,
        i + 1,
    ) + quad_bit(q, i - 1) + quad_bit(q, i - 3) + quad_bit(q, i - 4) + quad_bit(q, i - 5);
    let alive = quad_bit(q, i) == 1;
    proof {
        let g = quad_grid(q);
        let x: int = if i == 10 || i == 6 { -1 } else { 0 };
        let y: int = if i >= 8 { -1 } else { 0 };
        assert(i == 5 - x - 4 * y);
        assert(g.contains((x, y)) == quad_alive(q, x, y));
        assert(g.contains((x - 1, y - 1)) == quad_alive(q, x - 1, y - 1));
        assert(g.contains((x, y - 1)) == quad_alive(q, x, y - 1));
        assert(g.contains((x + 1, y - 1)) == quad_alive(q, x + 1, y - 1));
        assert(g.contains((x - 1, y)) == quad_alive(q, x - 1, y));
        assert(g.contains((x + 1, y)) == quad_alive(q, x + 1, y));
        assert(g.contains((x - 1, y + 1)) == quad_alive(q, x - 1, y + 1));
        assert(g.contains((x, y + 1)) == quad_alive(q, x, y + 1));
        assert(g.contains((x + 1, y + 1)) == quad_alive(q, x + 1, y + 1));
        assert(neighbor_count(g, x, y) == count);
    }
    if rule.next_state(alive, count) {
        1
    } else {
        0
    }
}

/// The centre 2x2 square of the 4x4 square `q` after one generation, packed
/// as north-west, north-east, two empty bits, south-west, south-east.
pub fn level2_entry(rule: &Rule, q: u16) -> (e: u8)
    ensures
        level2_entry_ok(*rule, q, e),
{
    let nw: u16 = next_center(rule, q, 10);
    let ne: u16 = next_center(rule, q, 9);
    let sw: u16 = next_center(rule, q, 6);
    let se: u16 = next_center(rule, q, 5);
    let packed: u16 = nw << 5u16 | ne << 4u16 | sw << 1u16 | se;
    let e: u8 = packed as u8;
    proof {
        lemma_entry_bits(nw, ne, sw, se);
        let g = quad_grid(q);
        assert(entry_alive(e, -1, -1) == (nw == 1));
        assert(entry_alive(e, 0, -1) == (ne == 1));
        assert(entry_alive(e, -1, 0) == (sw == 1));
        assert(entry_alive(e, 0, 0) == (se == 1));
        assert forall|u: int, v: int| -1 <= u < 1 && -1 <= v < 1 implies #[trigger] entry_alive(
            e,
            u,
            v,
        ) == next_alive(*rule, g, u, v) by {
            if u == -1 && v == -1 {
            } else if u == 0 && v == -1 {
            } else if u == -1 && v == 0 {
            } else {
                assert(u == 0 && v == 0);
            }
        }
    }
    e
}

/// The table of the centres of all 4x4 squares after one generation, indexed
/// by the square.
pub fn compute_level2_results(rule: Rule) -> (table: Vec<u8>)
    ensures
        level2_table_ok(rule, table@),
{
    let mut table: Vec<u8> = Vec::with_capacity(65536);
    let mut i: u32 = 0;
    while i < 65536
        invariant
            i <= 65536,
            table@.len() == i,
            forall|q: u16| q < i ==> level2_entry_ok(rule, q, #[trigger] table@[q as int]),
        decreases 65536 - i,
    {
        let e = level2_entry(&rule, i as u16);
        table.push(e);
        i = i + 1;
    }
    table
}

/// What the table says of a square that shows `s`: the entry shows the centre
/// of `s` one generation on.
pub proof fn lemma_entry_shows(rule: Rule, q: u16, e: u8, cx: int, cy: int, s: Set<(int, int)>)
    requires
        level2_entry_ok(rule, q, e),
        shows(quad_grid(q), cx, cy, 2, s),
    ensures
        shows(entry_grid(e), cx, cy, 1, life_step(rule, s)),
{
    reveal(shows);
    let g = quad_grid(q);
    assert forall|u: int, v: int| -1 <= u < 1 && -1 <= v < 1 implies #[trigger] entry_grid(
        e,
    ).contains((u, v)) == life_step(rule, s).contains((u + cx, v + cy)) by {
        assert(entry_alive(e, u, v) == next_alive(rule, g, u, v));
        assert forall|a: int, b: int|
            u - 1 <= a <= u + 1 && v - 1 <= b <= v + 1 implies #[trigger] g.contains((a, b))
            == s.contains((a + cx, b + cy)) by {}
        lemma_next_local(rule, g, s, u, v, cx, cy);
    }
}

/// The centre 4x4 square of the leaf `key` after one generation and after
/// two generations.
pub fn compute_level3_results(rule: &Rule, table: &Vec<u8>, key: &LeafNodeKey) -> (results: [
    u16;
    2
])
    requires
        level2_table_ok(*rule, table@),
    ensures
        leaf_results_ok(*rule, *key, results),
{
    let n0 = table[key.nw as usize];
    let nn = hmix(key.nw, key.ne);
    let n1 = table[nn as usize];
    let n2 = table[key.ne as usize];
    let ww = vmix(key.nw, key.sw);
    let n3 = table[ww as usize];
    let cc = key.center();
    let n4 = table[cc as usize];
    let ee = vmix(key.ne, key.se);
    let n5 = table[ee as usize];
    let n6 = table[key.sw as usize];
    let ss = hmix(key.sw, key.se);
    let n7 = table[ss as usize];
    let n8 = table[key.se as usize];

    let r0 = level2_square_from_quadrant(n0, n1, n3, n4);
    let r1 = level2_square_from_quadrant(n1, n2, n4, n5);
    let r2 = level2_square_from_quadrant(n3, n4, n6, n7);
    let r3 = level2_square_from_quadrant(n4, n5, n7, n8);

    let result1 = inner(r0, r1, r2, r3);

    let result2_nw = table[r0 as usize];
    let result2_ne = table[r1 as usize];
    let result2_sw = table[r2 as usize];
    let result2_se = table[r3 as usize];
    let result2 = level2_square_from_quadrant(result2_nw, result2_ne, result2_sw, result2_se);

    proof {
        let g = key.grid();
        let s1 = life_iter(*rule, g, 1);
        let s2 = life_iter(*rule, g, 2);
        assert(s1 == life_step(*rule, g)) by {
            reveal_with_fuel(life_iter, 2);
        }
        assert(s2 == life_step(*rule, s1)) by {
            reveal_with_fuel(life_iter, 3);
        }
        lemma_shows_self(g, 4);
        lemma_quadrants_show(
            quad_grid(key.nw),
            quad_grid(key.ne),
            quad_grid(key.sw),
            quad_grid(key.se),
            2,
            0,
            0,
            g,
        );
        lemma_hmix_shows(key.nw, key.ne, 0, -2, g);
        lemma_vmix_shows(key.nw, key.sw, -2, 0, g);
        lemma_center_shows(key.nw, key.ne, key.sw, key.se, 0, 0, g);
        lemma_vmix_shows(key.ne, key.se, 2, 0, g);
        lemma_hmix_shows(key.sw, key.se, 0, 2, g);
        lemma_entry_shows(*rule, key.nw, n0, -2, -2, g);
        lemma_entry_shows(*rule, nn, n1, 0, -2, g);
        lemma_entry_shows(*rule, key.ne, n2, 2, -2, g);
        lemma_entry_shows(*rule, ww, n3, -2, 0, g);
        lemma_entry_shows(*rule, cc, n4, 0, 0, g);
        lemma_entry_shows(*rule, ee, n5, 2, 0, g);
        lemma_entry_shows(*rule, key.sw, n6, -2, 2, g);
        lemma_entry_shows(*rule, ss, n7, 0, 2, g);
        lemma_entry_shows(*rule, key.se, n8, 2, 2, g);
        lemma_square_shows(n0, n1, n3, n4, -1, -1, s1);
        lemma_square_shows(n1, n2, n4, n5, 1, -1, s1);
        lemma_square_shows(n3, n4, n6, n7, -1, 1, s1);
        lemma_square_shows(n4, n5, n7, n8, 1, 1, s1);
        lemma_inner_shows(r0, r1, r2, r3, 0, 0, s1);
        lemma_entry_shows(*rule, r0, result2_nw, -1, -1, s1);
        lemma_entry_shows(*rule, r1, result2_ne, 1, -1, s1);
        lemma_entry_shows(*rule, r2, result2_sw, -1, 1, s1);
        lemma_entry_shows(*rule, r3, result2_se, 1, 1, s1);
        lemma_square_shows(result2_nw, result2_ne, result2_sw, result2_se, 0, 0, s2);
    }
    [result1, result2]
}

} // verus!
