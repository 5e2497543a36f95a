//! The bounding box of the live cells.

use crate::bits::{bit16, lemma_bit_widths, lemma_mask_set, lemma_zero_bit, quad_grid};
use crate::canon::is_empty_grid;
use crate::life::{assembled, within};
use crate::node::{LeafNodeKey, NodeId};
use crate::rows::{bit128, leaf_row};
use crate::store::{half, lemma_grid_within, lemma_half};
use crate::envelope::{lemma_half_63, radius, LATTICE_RADIUS};
use crate::universe::{lemma_empty_grid, Universe};
use vstd::prelude::*;

verus! {

/// A box `(left, top, right, bottom)`; `right` and `bottom` are exclusive.
pub type Boundary = (i64, i64, i64, i64);

/// The pattern `g` moved by `(dx, dy)`.
pub open spec fn shifted(g: Set<(int, int)>, dx: int, dy: int) -> Set<(int, int)> {
    Set::new(|p: (int, int)| g.contains((p.0 - dx, p.1 - dy)))
}

/// `b` is the smallest box that holds every live cell of `g`: every live
/// cell lies inside it and a live cell touches each of its sides. For a
/// pattern without live cells it is `(MAX, MAX, MIN, MIN)`.
pub open spec fn bounds_of(g: Set<(int, int)>, b: (int, int, int, int)) -> bool {
    if is_empty_grid(g) {
        b == (i64::MAX as int, i64::MAX as int, i64::MIN as int, i64::MIN as int)
    } else {
        &&& forall|p: (int, int)| #[trigger] g.contains(p) ==> b.0 <= p.0 < b.2 && b.1 <= p.1 < b.3
        &&& exists|p: (int, int)| #[trigger] g.contains(p) && p.0 == b.0
        &&& exists|p: (int, int)| #[trigger] g.contains(p) && p.0 == b.2 - 1
        &&& exists|p: (int, int)| #[trigger] g.contains(p) && p.1 == b.1
        &&& exists|p: (int, int)| #[trigger] g.contains(p) && p.1 == b.3 - 1
    }
}

/// The box of an 8-bit mask whose bit `3 - x` stands for the position `x`:
/// from the lowest position that is set to one past the highest, or
/// `(MAX, MIN)` for the empty mask.
pub open spec fn range_ok(m: u16, lo: int, hi: int) -> bool {
    if m == 0 {
        lo == i64::MAX && hi == i64::MIN
    } else {
        &&& -4 <= lo < hi <= 4
        &&& bit16(m, 3 - lo)
        &&& bit16(m, 4 - hi)
        &&& forall|i: int| 0 <= i < 8 && #[trigger] bit16(m, i) ==> 4 - hi <= i <= 3 - lo
    }
}

/// `t` is the table of the boxes of all 8-bit masks.
pub open spec fn byte_range_ok(t: Seq<(i64, i64)>) -> bool {
    &&& t.len() == 256
    &&& forall|m: u16| m < 256 ==> range_ok(m, (#[trigger] t[m as int]).0 as int, t[m as int].1 as int)
}

proof fn lemma_nonzero_byte(m: u16)
    by (bit_vector)
    requires
        0 < m < 256,
    ensures
        (m >> 0u16) & 1u16 == 1u16 || (m >> 1u16) & 1u16 == 1u16 || (m >> 2u16) & 1u16 == 1u16 || (m
            >> 3u16) & 1u16 == 1u16 || (m >> 4u16) & 1u16 == 1u16 || (m >> 5u16) & 1u16 == 1u16
            || (m >> 6u16) & 1u16 == 1u16 || (m >> 7u16) & 1u16 == 1u16,
{
}

proof fn lemma_or_bit(a: u16, b: u16, i: u16)
    by (bit_vector)
    requires
        i < 16,
    ensures
        ((a | b) >> i) & 1u16 == 1u16 <==> ((a >> i) & 1u16 == 1u16 || (b >> i) & 1u16 == 1u16),
        a < 256 && b < 256 ==> (a | b) < 256,
{
}

proof fn lemma_one_bit_small(k: u16)
    by (bit_vector)
    requires
        k < 8,
    ensures
        (1u16 << k) < 256,
        (1u16 << k) != 0,
{
}

/// The box of the 8-bit mask `m`.
pub fn byte_range(m: u16) -> (r: (i64, i64))
    requires
        m < 256,
    ensures
        range_ok(m, r.0 as int, r.1 as int),
{
    if m == 0 {
        return (i64::MAX, i64::MIN);
    }
    proof {
        lemma_nonzero_byte(m);
        assert(bit16(m, 0) || bit16(m, 1) || bit16(m, 2) || bit16(m, 3) || bit16(m, 4) || bit16(
            m,
            5,
        ) || bit16(m, 6) || bit16(m, 7));
    }
    let mut high: u16 = 7;
    while (m >> high) & 1u16 != 1u16
        invariant
            high <= 7,
            forall|i: int| high < i < 8 ==> !#[trigger] bit16(m, i),
            exists|i: int| 0 <= i <= high && #[trigger] bit16(m, i),
        decreases high,
    {
        high = high - 1;
    }
    let mut low: u16 = 0;
    while (m >> low) & 1u16 != 1u16
        invariant
            low <= high <= 7,
            bit16(m, high as int),
            forall|i: int| 0 <= i < low ==> !#[trigger] bit16(m, i),
        decreases high - low,
    {
        low = low + 1;
    }
    (3 - high as i64, 4 - low as i64)
}

/// The table of the boxes of all 8-bit masks.
pub fn compute_byte_range() -> (table: Vec<(i64, i64)>)
    ensures
        byte_range_ok(table@),
{
    let mut table: Vec<(i64, i64)> = Vec::with_capacity(256);
    let mut i: u16 = 0;
    while i < 256
        invariant
            i <= 256,
            table@.len() == i,
            forall|m: u16|
                m < i ==> range_ok(m, (#[trigger] table@[m as int]).0 as int, table@[m as int].1 as int),
        decreases 256 - i,
    {
        let r = byte_range(i);
        table.push(r);
        i = i + 1;
    }
    table
}

/// The smaller of two numbers.
pub fn min_i64(a: i64, b: i64) -> (m: i64)
    ensures
        m == (if a <= b {
            a
        } else {
            b
        }),
{
    if a <= b {
        a
    } else {
        b
    }
}

/// The larger of two numbers.
pub fn max_i64(a: i64, b: i64) -> (m: i64)
    ensures
        m == (if a >= b {
            a
        } else {
            b
        }),
{
    if a >= b {
        a
    } else {
        b
    }
}

/// The box of a pattern made of four patterns is the box around their boxes.
pub proof fn lemma_bounds_merge(
    g: Set<(int, int)>,
    a: Set<(int, int)>,
    b: Set<(int, int)>,
    c: Set<(int, int)>,
    d: Set<(int, int)>,
    ba: (int, int, int, int),
    bb: (int, int, int, int),
    bc: (int, int, int, int),
    bd: (int, int, int, int),
    lim: int,
) -> (m: (int, int, int, int))
    requires
        forall|p: (int, int)|
            g.contains(p) == (a.contains(p) || b.contains(p) || c.contains(p) || d.contains(p)),
        bounds_of(a, ba),
        bounds_of(b, bb),
        bounds_of(c, bc),
        bounds_of(d, bd),
        within(a, -lim, lim),
        within(b, -lim, lim),
        within(c, -lim, lim),
        within(d, -lim, lim),
        0 <= lim < i64::MAX,
    ensures
        bounds_of(g, m),
        m.0 == vstd::math::min(vstd::math::min(vstd::math::min(ba.0, bb.0), bc.0), bd.0),
        m.1 == vstd::math::min(vstd::math::min(vstd::math::min(ba.1, bb.1), bc.1), bd.1),
        m.2 == vstd::math::max(vstd::math::max(vstd::math::max(ba.2, bb.2), bc.2), bd.2),
        m.3 == vstd::math::max(vstd::math::max(vstd::math::max(ba.3, bb.3), bc.3), bd.3),
{
    let m = (
        vstd::math::min(vstd::math::min(vstd::math::min(ba.0, bb.0), bc.0), bd.0),
        vstd::math::min(vstd::math::min(vstd::math::min(ba.1, bb.1), bc.1), bd.1),
        vstd::math::max(vstd::math::max(vstd::math::max(ba.2, bb.2), bc.2), bd.2),
        vstd::math::max(vstd::math::max(vstd::math::max(ba.3, bb.3), bc.3), bd.3),
    );
    lemma_bounds_inside(a, ba, lim);
    lemma_bounds_inside(b, bb, lim);
    lemma_bounds_inside(c, bc, lim);
    lemma_bounds_inside(d, bd, lim);
    if is_empty_grid(a) && is_empty_grid(b) && is_empty_grid(c) && is_empty_grid(d) {
        assert(is_empty_grid(g));
    } else {
        if !is_empty_grid(a) {
            let p = choose|p: (int, int)| a.contains(p);
            assert(g.contains(p));
        } else if !is_empty_grid(b) {
            let p = choose|p: (int, int)| b.contains(p);
            assert(g.contains(p));
        } else if !is_empty_grid(c) {
            let p = choose|p: (int, int)| c.contains(p);
            assert(g.contains(p));
        } else {
            let p = choose|p: (int, int)| d.contains(p);
            assert(g.contains(p));
        }
        assert(!is_empty_grid(g));
        lemma_side(g, a, b, c, d, ba, bb, bc, bd, m, 0);
        lemma_side(g, a, b, c, d, ba, bb, bc, bd, m, 1);
        lemma_side(g, a, b, c, d, ba, bb, bc, bd, m, 2);
        lemma_side(g, a, b, c, d, ba, bb, bc, bd, m, 3);
    }
    m
}

/// The coordinate of `p` that the side `side` of a box bounds, and the
/// value of that side as a coordinate of a cell.
pub open spec fn touches(p: (int, int), b: (int, int, int, int), side: int) -> bool {
    if side == 0 {
        p.0 == b.0
    } else if side == 1 {
        p.1 == b.1
    } else if side == 2 {
        p.0 == b.2 - 1
    } else {
        p.1 == b.3 - 1
    }
}

/// The box of a pattern inside `[-lim, lim)` lies inside `[-lim, lim]`, or is
/// the empty box.
proof fn lemma_bounds_inside(a: Set<(int, int)>, ba: (int, int, int, int), lim: int)
    requires
        bounds_of(a, ba),
        within(a, -lim, lim),
    ensures
        !is_empty_grid(a) ==> -lim <= ba.0 < ba.2 <= lim && -lim <= ba.1 < ba.3 <= lim,
{
    if !is_empty_grid(a) {
        let p0 = choose|p: (int, int)| #[trigger] a.contains(p) && p.0 == ba.0;
        let p1 = choose|p: (int, int)| #[trigger] a.contains(p) && p.1 == ba.1;
        let p2 = choose|p: (int, int)| #[trigger] a.contains(p) && p.0 == ba.2 - 1;
        let p3 = choose|p: (int, int)| #[trigger] a.contains(p) && p.1 == ba.3 - 1;
        assert(a.contains(p0) && a.contains(p1) && a.contains(p2) && a.contains(p3));
    }
}

proof fn lemma_side(
    g: Set<(int, int)>,
    a: Set<(int, int)>,
    b: Set<(int, int)>,
    c: Set<(int, int)>,
    d: Set<(int, int)>,
    ba: (int, int, int, int),
    bb: (int, int, int, int),
    bc: (int, int, int, int),
    bd: (int, int, int, int),
    m: (int, int, int, int),
    side: int,
)
    requires
        0 <= side < 4,
        forall|p: (int, int)|
            g.contains(p) == (a.contains(p) || b.contains(p) || c.contains(p) || d.contains(p)),
        bounds_of(a, ba),
        bounds_of(b, bb),
        bounds_of(c, bc),
        bounds_of(d, bd),
        !is_empty_grid(g),
        !is_empty_grid(a) ==> i64::MIN < ba.0 < ba.2 < i64::MAX && i64::MIN < ba.1 < ba.3
            < i64::MAX,
        !is_empty_grid(b) ==> i64::MIN < bb.0 < bb.2 < i64::MAX && i64::MIN < bb.1 < bb.3
            < i64::MAX,
        !is_empty_grid(c) ==> i64::MIN < bc.0 < bc.2 < i64::MAX && i64::MIN < bc.1 < bc.3
            < i64::MAX,
        !is_empty_grid(d) ==> i64::MIN < bd.0 < bd.2 < i64::MAX && i64::MIN < bd.1 < bd.3
            < i64::MAX,
        m.0 == vstd::math::min(vstd::math::min(vstd::math::min(ba.0, bb.0), bc.0), bd.0),
        m.1 == vstd::math::min(vstd::math::min(vstd::math::min(ba.1, bb.1), bc.1), bd.1),
        m.2 == vstd::math::max(vstd::math::max(vstd::math::max(ba.2, bb.2), bc.2), bd.2),
        m.3 == vstd::math::max(vstd::math::max(vstd::math::max(ba.3, bb.3), bc.3), bd.3),
    ensures
        exists|p: (int, int)| #[trigger] g.contains(p) && touches(p, m, side),
        forall|p: (int, int)|
            #[trigger] g.contains(p) ==> (if side == 0 {
                m.0 <= p.0
            } else if side == 1 {
                m.1 <= p.1
            } else if side == 2 {
                p.0 < m.2
            } else {
                p.1 < m.3
            }),
{
    let pa = choose|p: (int, int)| #[trigger] a.contains(p) && touches(p, ba, side);
    let pb = choose|p: (int, int)| #[trigger] b.contains(p) && touches(p, bb, side);
    let pc = choose|p: (int, int)| #[trigger] c.contains(p) && touches(p, bc, side);
    let pd = choose|p: (int, int)| #[trigger] d.contains(p) && touches(p, bd, side);
    if !is_empty_grid(a) {
        lemma_touch(a, ba, side);
    }
    if !is_empty_grid(b) {
        lemma_touch(b, bb, side);
    }
    if !is_empty_grid(c) {
        lemma_touch(c, bc, side);
    }
    if !is_empty_grid(d) {
        lemma_touch(d, bd, side);
    }
    if !is_empty_grid(a) && touches(pa, m, side) {
        assert(g.contains(pa));
    } else if !is_empty_grid(b) && touches(pb, m, side) {
        assert(g.contains(pb));
    } else if !is_empty_grid(c) && touches(pc, m, side) {
        assert(g.contains(pc));
    } else {
        assert(!is_empty_grid(d) && touches(pd, m, side));
        assert(g.contains(pd));
    }
}

proof fn lemma_touch(a: Set<(int, int)>, ba: (int, int, int, int), side: int)
    requires
        0 <= side < 4,
        bounds_of(a, ba),
        !is_empty_grid(a),
    ensures
        exists|p: (int, int)| #[trigger] a.contains(p) && touches(p, ba, side),
{
    if side == 0 {
        let p = choose|p: (int, int)| #[trigger] a.contains(p) && p.0 == ba.0;
        assert(a.contains(p) && touches(p, ba, side));
    } else if side == 1 {
        let p = choose|p: (int, int)| #[trigger] a.contains(p) && p.1 == ba.1;
        assert(a.contains(p) && touches(p, ba, side));
    } else if side == 2 {
        let p = choose|p: (int, int)| #[trigger] a.contains(p) && p.0 == ba.2 - 1;
        assert(a.contains(p) && touches(p, ba, side));
    } else {
        let p = choose|p: (int, int)| #[trigger] a.contains(p) && p.1 == ba.3 - 1;
        assert(a.contains(p) && touches(p, ba, side));
    }
}

/// Whether the cell in column `c` and row `r` of an 8x8 square, counted from
/// its north-west corner, is alive.
pub open spec fn at(g: Set<(int, int)>, c: int, r: int) -> bool {
    g.contains((c - 4, r - 4))
}

/// Column `c` has a live cell in one of the rows before `upto`.
pub open spec fn col_live(g: Set<(int, int)>, c: int, upto: int) -> bool {
    exists|r: int| 0 <= r < upto && #[trigger] at(g, c, r)
}

/// Row `r` has a live cell.
pub open spec fn row_live(g: Set<(int, int)>, r: int) -> bool {
    exists|c: int| 0 <= c < 8 && #[trigger] at(g, c, r)
}

/// The bounding box of a leaf, relative to its centre.
#[verifier::rlimit(50)]
pub fn leaf_boundary(key: &LeafNodeKey, table: &Vec<(i64, i64)>) -> (b: Boundary)
    requires
        byte_range_ok(table@),
    ensures
        bounds_of(key.grid(), (b.0 as int, b.1 as int, b.2 as int, b.3 as int)),
{
    let ghost g = key.grid();
    let mut cols: u16 = 0;
    let mut rmask: u16 = 0;
    let mut r: u16 = 0;
    proof {
        assert forall|c: int| 0 <= c < 8 implies #[trigger] bit16(cols, 7 - c) == col_live(
            g,
            c,
            0,
        ) by {
            lemma_zero_bit((7 - c) as u16);
        }
        assert forall|q: int| 0 <= q < 8 implies !#[trigger] bit16(rmask, 7 - q) by {
            lemma_zero_bit((7 - q) as u16);
        }
    }
    while r < 8
        invariant
            r <= 8,
            cols < 256,
            rmask < 256,
            g == key.grid(),
            forall|c: int| 0 <= c < 8 ==> #[trigger] bit16(cols, 7 - c) == col_live(g, c, r as int),
            forall|q: int|
                0 <= q < 8 ==> #[trigger] bit16(rmask, 7 - q) == (q < r && row_live(g, q)),
        decreases 8 - r,
    {
        let row = if r < 4 {
            leaf_row(key.nw, key.ne, r)
        } else {
            leaf_row(key.sw, key.se, r - 4)
        };
        let ghost old_cols = cols;
        let ghost old_rmask = rmask;
        proof {
            assert forall|c: int| 0 <= c < 8 implies #[trigger] bit16(row, 7 - c) == at(
                g,
                c,
                r as int,
            ) by {
                lemma_bit_widths(row, (7 - c) as u16);
                assert(bit16(row, 7 - c) == bit128(row as u128, 7 - c));
                if r < 4 {
                    if c < 4 {
                        assert(quad_grid(key.nw).contains((c - 2, r - 2)) == crate::bits::quad_alive(
                            key.nw,
                            c - 2,
                            r - 2,
                        ));
                    } else {
                        assert(quad_grid(key.ne).contains((c - 6, r - 2)) == crate::bits::quad_alive(
                            key.ne,
                            c - 6,
                            r - 2,
                        ));
                    }
                } else {
                    if c < 4 {
                        assert(quad_grid(key.sw).contains((c - 2, r - 6)) == crate::bits::quad_alive(
                            key.sw,
                            c - 2,
                            r - 6,
                        ));
                    } else {
                        assert(quad_grid(key.se).contains((c - 6, r - 6)) == crate::bits::quad_alive(
                            key.se,
                            c - 6,
                            r - 6,
                        ));
                    }
                }
            }
        }
        cols = cols | row;
        if row != 0 {
            proof {
                lemma_one_bit_small((7 - r) as u16);
                lemma_or_bit(rmask, 1u16 << ((7 - r) as u16), 0);
            }
            rmask = rmask | (1u16 << (7 - r));
        }
        proof {
            lemma_or_bit(old_cols, row, 0);
            assert forall|c: int| 0 <= c < 8 implies #[trigger] bit16(cols, 7 - c) == col_live(
                g,
                c,
                r + 1,
            ) by {
                lemma_or_bit(old_cols, row, (7 - c) as u16);
                assert(bit16(row, 7 - c) == at(g, c, r as int));
                assert(bit16(old_cols, 7 - c) == col_live(g, c, r as int));
                if col_live(g, c, r + 1) {
                    let w = choose|w: int| 0 <= w < r + 1 && #[trigger] at(g, c, w);
                    if w < r {
                        assert(col_live(g, c, r as int));
                    }
                }
                if col_live(g, c, r as int) {
                    let w = choose|w: int| 0 <= w < r && #[trigger] at(g, c, w);
                    assert(0 <= w < r + 1 && at(g, c, w));
                }
                if at(g, c, r as int) {
                    assert(col_live(g, c, r + 1));
                }
            }
            assert forall|q: int| 0 <= q < 8 implies #[trigger] bit16(rmask, 7 - q) == (q < r + 1
                && row_live(g, q)) by {
                assert(bit16(old_rmask, 7 - q) == (q < r && row_live(g, q)));
                if row != 0 {
                    lemma_mask_set(old_rmask, (7 - r) as u16, (7 - q) as u16);
                    lemma_nonzero_byte(row);
                    let i = if bit16(row, 0) {
                        0int
                    } else if bit16(row, 1) {
                        1
                    } else if bit16(row, 2) {
                        2
                    } else if bit16(row, 3) {
                        3
                    } else if bit16(row, 4) {
                        4
                    } else if bit16(row, 5) {
                        5
                    } else if bit16(row, 6) {
                        6
                    } else {
                        7
                    };
                    assert(bit16(row, 7 - (7 - i)));
                    assert(at(g, 7 - i, r as int));
                    assert(row_live(g, r as int));
                } else {
                    if row_live(g, r as int) {
                        let c = choose|c: int| 0 <= c < 8 && #[trigger] at(g, c, r as int);
                        assert(bit16(row, 7 - c));
                        lemma_zero_bit((7 - c) as u16);
                    }
                }
            }
        }
        r = r + 1;
    }
    let (left, right) = table[cols as usize];
    let (top, bottom) = table[rmask as usize];
    proof {
        assert(range_ok(cols, left as int, right as int));
        assert(range_ok(rmask, top as int, bottom as int));
        crate::bits::lemma_quad_within(key.nw);
        crate::bits::lemma_quad_within(key.ne);
        crate::bits::lemma_quad_within(key.sw);
        crate::bits::lemma_quad_within(key.se);
        assert forall|p: (int, int)| #[trigger] g.contains(p) implies -4 <= p.0 < 4 && -4 <= p.1
            < 4 && bit16(cols, 3 - p.0) && bit16(rmask, 3 - p.1) by {
            if p.0 < 0 {
                if p.1 < 0 {
                    assert(quad_grid(key.nw).contains((p.0 + 2, p.1 + 2)));
                } else {
                    assert(quad_grid(key.sw).contains((p.0 + 2, p.1 - 2)));
                }
            } else {
                if p.1 < 0 {
                    assert(quad_grid(key.ne).contains((p.0 - 2, p.1 + 2)));
                } else {
                    assert(quad_grid(key.se).contains((p.0 - 2, p.1 - 2)));
                }
            }
            assert(at(g, p.0 + 4, p.1 + 4));
            assert(col_live(g, p.0 + 4, 8));
            assert(row_live(g, p.1 + 4));
            assert(bit16(cols, 7 - (p.0 + 4)));
            assert(bit16(rmask, 7 - (p.1 + 4)));
        }
    }
    if cols == 0 {
        proof {
            assert forall|p: (int, int)| !g.contains(p) by {
                if g.contains(p) {
                    lemma_zero_bit((3 - p.0) as u16);
                }
            }
            if rmask != 0 {
                assert(bit16(rmask, 3 - top));
                assert(bit16(rmask, 7 - (top + 4)));
                assert(row_live(g, top + 4));
                let c = choose|c: int| 0 <= c < 8 && #[trigger] at(g, c, top + 4);
                assert(g.contains((c - 4, top + 4 - 4)));
            }
        }
        return (i64::MAX, i64::MAX, i64::MIN, i64::MIN);
    }
    proof {
        assert(bit16(cols, 7 - (left + 4)));
        assert(col_live(g, left + 4, 8));
        let r0 = choose|w: int| 0 <= w < 8 && #[trigger] at(g, left + 4, w);
        assert(g.contains((left as int, r0 - 4)));
        assert(bit16(cols, 7 - (right - 1 + 4)));
        assert(col_live(g, right - 1 + 4, 8));
        let r1 = choose|w: int| 0 <= w < 8 && #[trigger] at(g, right - 1 + 4, w);
        assert(g.contains((right - 1, r1 - 4)));
        assert(bit16(rmask, 3 - (r0 - 4)));
        if rmask == 0 {
            lemma_zero_bit((3 - (r0 - 4)) as u16);
        }
        assert(bit16(rmask, 7 - (top + 4)));
        assert(row_live(g, top + 4));
        let c0 = choose|c: int| 0 <= c < 8 && #[trigger] at(g, c, top + 4);
        assert(g.contains((c0 - 4, top as int)));
        assert(bit16(rmask, 7 - (bottom - 1 + 4)));
        assert(row_live(g, bottom - 1 + 4));
        let c1 = choose|c: int| 0 <= c < 8 && #[trigger] at(g, c, bottom - 1 + 4);
        assert(g.contains((c1 - 4, bottom - 1)));
        assert(!is_empty_grid(g));
    }
    (left, top, right, bottom)
}

/// The box of a moved pattern is the moved box.
pub proof fn lemma_bounds_shift(g: Set<(int, int)>, b: (int, int, int, int), dx: int, dy: int)
    requires
        bounds_of(g, b),
    ensures
        is_empty_grid(g) ==> is_empty_grid(shifted(g, dx, dy)),
        !is_empty_grid(g) ==> bounds_of(
            shifted(g, dx, dy),
            (b.0 + dx, b.1 + dy, b.2 + dx, b.3 + dy),
        ),
{
    let s = shifted(g, dx, dy);
    if !is_empty_grid(g) {
        let p0 = choose|p: (int, int)| #[trigger] g.contains(p) && p.0 == b.0;
        let p1 = choose|p: (int, int)| #[trigger] g.contains(p) && p.1 == b.1;
        let p2 = choose|p: (int, int)| #[trigger] g.contains(p) && p.0 == b.2 - 1;
        let p3 = choose|p: (int, int)| #[trigger] g.contains(p) && p.1 == b.3 - 1;
        assert(s.contains((p0.0 + dx, p0.1 + dy)));
        assert(s.contains((p1.0 + dx, p1.1 + dy)));
        assert(s.contains((p2.0 + dx, p2.1 + dy)));
        assert(s.contains((p3.0 + dx, p3.1 + dy)));
        assert forall|p: (int, int)| #[trigger] s.contains(p) implies b.0 + dx <= p.0 < b.2 + dx
            && b.1 + dy <= p.1 < b.3 + dy by {
            assert(g.contains((p.0 - dx, p.1 - dy)));
        }
    }
}

/// A moved square is made of its four moved quadrants.
pub proof fn lemma_shifted_union(
    a: Set<(int, int)>,
    b: Set<(int, int)>,
    c: Set<(int, int)>,
    d: Set<(int, int)>,
    r: int,
    ox: int,
    oy: int,
    lim: int,
)
    requires
        within(a, -r, r),
        within(b, -r, r),
        within(c, -r, r),
        within(d, -r, r),
        -lim <= ox - 2 * r,
        ox + 2 * r <= lim,
        -lim <= oy - 2 * r,
        oy + 2 * r <= lim,
    ensures
        forall|p: (int, int)|
            shifted(assembled(a, b, c, d, r), ox, oy).contains(p) == (shifted(
                a,
                ox - r,
                oy - r,
            ).contains(p) || shifted(b, ox + r, oy - r).contains(p) || shifted(
                c,
                ox - r,
                oy + r,
            ).contains(p) || shifted(d, ox + r, oy + r).contains(p)),
        within(shifted(a, ox - r, oy - r), -lim, lim),
        within(shifted(b, ox + r, oy - r), -lim, lim),
        within(shifted(c, ox - r, oy + r), -lim, lim),
        within(shifted(d, ox + r, oy + r), -lim, lim),
{
    assert forall|p: (int, int)|
        shifted(assembled(a, b, c, d, r), ox, oy).contains(p) == (shifted(
            a,
            ox - r,
            oy - r,
        ).contains(p) || shifted(b, ox + r, oy - r).contains(p) || shifted(
            c,
            ox - r,
            oy + r,
        ).contains(p) || shifted(d, ox + r, oy + r).contains(p)) by {
        let u = p.0 - ox;
        let v = p.1 - oy;
        assert(shifted(a, ox - r, oy - r).contains(p) == a.contains((u + r, v + r)));
        assert(shifted(b, ox + r, oy - r).contains(p) == b.contains((u - r, v + r)));
        assert(shifted(c, ox - r, oy + r).contains(p) == c.contains((u + r, v - r)));
        assert(shifted(d, ox + r, oy + r).contains(p) == d.contains((u - r, v - r)));
    }
    assert forall|p: (int, int)| #[trigger] shifted(a, ox - r, oy - r).contains(p) implies -lim
        <= p.0 < lim && -lim <= p.1 < lim by {
        assert(a.contains((p.0 - (ox - r), p.1 - (oy - r))));
    }
    assert forall|p: (int, int)| #[trigger] shifted(b, ox + r, oy - r).contains(p) implies -lim
        <= p.0 < lim && -lim <= p.1 < lim by {
        assert(b.contains((p.0 - (ox + r), p.1 - (oy - r))));
    }
    assert forall|p: (int, int)| #[trigger] shifted(c, ox - r, oy + r).contains(p) implies -lim
        <= p.0 < lim && -lim <= p.1 < lim by {
        assert(c.contains((p.0 - (ox - r), p.1 - (oy + r))));
    }
    assert forall|p: (int, int)| #[trigger] shifted(d, ox + r, oy + r).contains(p) implies -lim
        <= p.0 < lim && -lim <= p.1 < lim by {
        assert(d.contains((p.0 - (ox + r), p.1 - (oy + r))));
    }
}

impl Universe {
    /// The bounding box `(left, top, right, bottom)` of the live cells of the
    /// universe; `right` and `bottom` are exclusive. A universe without live
    /// cells has the box `(MAX, MAX, MIN, MIN)`.
    pub fn boundary(&self) -> (b: Boundary)
        requires
            self.wf(),
        ensures
            bounds_of(self.cells(), (b.0 as int, b.1 as int, b.2 as int, b.3 as int)),
    {
        proof {
            reveal(Universe::inv);
            crate::store::lemma_kind(self.nodes@, self.rule, self.root);
            lemma_half_63();
            crate::envelope::lemma_half_increases(self.spec_level_of(self.spec_root()), 63);
            assert(shifted(self.cells(), 0, 0) =~= self.cells());
        }
        self.boundary_rec(self.root, 0, 0)
    }

    /// The bounding box of the live cells of the macrocell `node`, whose
    /// centre lies at `(ox, oy)`.
    #[verifier::rlimit(50)]
    pub fn boundary_rec(&self, node: NodeId, ox: i64, oy: i64) -> (b: Boundary)
        requires
            self.inv(),
            self.valid(node),
            self.spec_level_of(node) <= 63,
            -LATTICE_RADIUS <= ox - half(self.spec_level_of(node)),
            ox + half(self.spec_level_of(node)) <= LATTICE_RADIUS,
            -LATTICE_RADIUS <= oy - half(self.spec_level_of(node)),
            oy + half(self.spec_level_of(node)) <= LATTICE_RADIUS,
        ensures
            bounds_of(
                shifted(self.grid(node), ox as int, oy as int),
                (b.0 as int, b.1 as int, b.2 as int, b.3 as int),
            ),
        decreases self.spec_level_of(node),
    {
        proof {
            reveal(Universe::inv);
            crate::store::lemma_kind(self.nodes@, self.rule, node);
        }
        let level = self.node_level(node);
        if self.empty_nodes.len() > level as usize && node == self.empty_nodes[level as usize] {
            proof {
                lemma_empty_grid(self.nodes@, self.rule, self.empty_nodes@, level as int);
                assert(is_empty_grid(shifted(self.grid(node), ox as int, oy as int)));
            }
            return (i64::MAX, i64::MAX, i64::MIN, i64::MIN);
        }
        if level == 3 {
            let leaf = self.leaf(node);
            let b = leaf_boundary(&leaf.key, &self.byte_range);
            proof {
                vstd::arithmetic::power2::lemma2_to64();
                assert(half(3) == 4);
                lemma_bounds_shift(
                    self.grid(node),
                    (b.0 as int, b.1 as int, b.2 as int, b.3 as int),
                    ox as int,
                    oy as int,
                );
                lemma_grid_within(self.nodes@, self.rule, node);
                if !is_empty_grid(self.grid(node)) {
                    let p0 = choose|p: (int, int)| #[trigger]
                        self.grid(node).contains(p) && p.0 == b.0;
                    let p1 = choose|p: (int, int)| #[trigger]
                        self.grid(node).contains(p) && p.1 == b.1;
                    let p2 = choose|p: (int, int)| #[trigger]
                        self.grid(node).contains(p) && p.0 == b.2 - 1;
                    let p3 = choose|p: (int, int)| #[trigger]
                        self.grid(node).contains(p) && p.1 == b.3 - 1;
                    assert(self.grid(node).contains(p0) && self.grid(node).contains(p1)
                        && self.grid(node).contains(p2) && self.grid(node).contains(p3));
                }
            }
            if b.0 == i64::MAX {
                return b;
            }
            (b.0 + ox, b.1 + oy, b.2 + ox, b.3 + oy)
        } else {
            let key = self.quadrants(node);
            let r = radius(level - 1);
            proof {
                lemma_half(level - 1);
            }
            let nw = self.boundary_rec(key.nw, ox - r, oy - r);
            let ne = self.boundary_rec(key.ne, ox + r, oy - r);
            let sw = self.boundary_rec(key.sw, ox - r, oy + r);
            let se = self.boundary_rec(key.se, ox + r, oy + r);
            let left = min_i64(min_i64(min_i64(nw.0, ne.0), sw.0), se.0);
            let right = max_i64(max_i64(max_i64(nw.2, ne.2), sw.2), se.2);
            let top = min_i64(min_i64(min_i64(nw.1, ne.1), sw.1), se.1);
            let bottom = max_i64(max_i64(max_i64(nw.3, ne.3), sw.3), se.3);
            proof {
                let a = self.grid(key.nw);
                let b = self.grid(key.ne);
                let c = self.grid(key.sw);
                let d = self.grid(key.se);
                lemma_grid_within(self.nodes@, self.rule, key.nw);
                lemma_grid_within(self.nodes@, self.rule, key.ne);
                lemma_grid_within(self.nodes@, self.rule, key.sw);
                lemma_grid_within(self.nodes@, self.rule, key.se);
                lemma_shifted_union(
                    a,
                    b,
                    c,
                    d,
                    r as int,
                    ox as int,
                    oy as int,
                    LATTICE_RADIUS as int,
                );
                let m = lemma_bounds_merge(
                    shifted(self.grid(node), ox as int, oy as int),
                    shifted(a, ox - r, oy - r),
                    shifted(b, ox + r, oy - r),
                    shifted(c, ox - r, oy + r),
                    shifted(d, ox + r, oy + r),
                    (nw.0 as int, nw.1 as int, nw.2 as int, nw.3 as int),
                    (ne.0 as int, ne.1 as int, ne.2 as int, ne.3 as int),
                    (sw.0 as int, sw.1 as int, sw.2 as int, sw.3 as int),
                    (se.0 as int, se.1 as int, se.2 as int, se.3 as int),
                    LATTICE_RADIUS as int,
                );
            }
            (left, top, right, bottom)
        }
    }
}

/// A pattern has one bounding box.
pub proof fn lemma_bounds_unique(
    g: Set<(int, int)>,
    a: (int, int, int, int),
    b: (int, int, int, int),
)
    requires
        bounds_of(g, a),
        bounds_of(g, b),
    ensures
        a == b,
{
    if !is_empty_grid(g) {
        let a0 = choose|p: (int, int)| #[trigger] g.contains(p) && p.0 == a.0;
        let a1 = choose|p: (int, int)| #[trigger] g.contains(p) && p.1 == a.1;
        let a2 = choose|p: (int, int)| #[trigger] g.contains(p) && p.0 == a.2 - 1;
        let a3 = choose|p: (int, int)| #[trigger] g.contains(p) && p.1 == a.3 - 1;
        let b0 = choose|p: (int, int)| #[trigger] g.contains(p) && p.0 == b.0;
        let b1 = choose|p: (int, int)| #[trigger] g.contains(p) && p.1 == b.1;
        let b2 = choose|p: (int, int)| #[trigger] g.contains(p) && p.0 == b.2 - 1;
        let b3 = choose|p: (int, int)| #[trigger] g.contains(p) && p.1 == b.3 - 1;
        assert(g.contains(a0) && g.contains(a1) && g.contains(a2) && g.contains(a3));
        assert(g.contains(b0) && g.contains(b1) && g.contains(b2) && g.contains(b3));
    }
}

/// The bounding box of the pattern `g`.
pub open spec fn bounds(g: Set<(int, int)>) -> (int, int, int, int) {
    choose|b: (int, int, int, int)| bounds_of(g, b)
}

/// The bounding box of a pattern is the box that bounds it.
pub proof fn lemma_bounds(g: Set<(int, int)>, b: (int, int, int, int))
    requires
        bounds_of(g, b),
    ensures
        bounds(g) == b,
{
    lemma_bounds_unique(g, bounds(g), b);
}

} // verus!
