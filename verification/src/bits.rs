//! Cells packed into machine words.
//!
//! A 4x4 square is a `u16`: bit 15 is its top left cell, bit 12 its top right
//! cell and bit 0 its bottom right cell. Positions inside a square are taken
//! relative to its centre, so both coordinates run from -2 to 1.

use crate::life::{shows, with_cell, within};
use vstd::prelude::*;

verus! {

/// Bit `i` of `v`.
pub open spec fn bit16(v: u16, i: int) -> bool {
    0 <= i < 16 && (v >> (i as u16)) & 1u16 == 1u16
}

/// Whether the cell at `(x, y)`, relative to the centre of the 4x4 square
/// `q`, is alive. Cells outside the square are dead.
pub open spec fn quad_alive(q: u16, x: int, y: int) -> bool {
    -2 <= x < 2 && -2 <= y < 2 && bit16(q, 5 - x - 4 * y)
}

/// The live cells of the 4x4 square `q`, relative to its centre.
pub open spec fn quad_grid(q: u16) -> Set<(int, int)> {
    Set::new(|p: (int, int)| quad_alive(q, p.0, p.1))
}

/// No bit of zero is set.
pub proof fn lemma_zero_bit(i: u16)
    by (bit_vector)
    requires
        i < 16,
    ensures
        (0u16 >> i) & 1u16 == 0u16,
{
}

/// A bit of a word is that bit of the word made wider.
pub proof fn lemma_bit_widths(v: u16, i: u16)
    by (bit_vector)
    requires
        i < 16,
    ensures
        ((v >> i) & 1u16 == 1u16) == (((v as u128) >> (i as u128)) & 1u128 == 1u128),
{
}

/// A bit is zero or one.
pub proof fn lemma_bit_is_01(v: u16, i: u16)
    by (bit_vector)
    requires
        i < 16,
    ensures
        (v >> i) & 1u16 == 0u16 || (v >> i) & 1u16 == 1u16,
{
}

/// Whether the cell at `(u, v)`, relative to the centre of the 2x2 square
/// packed in `e`, is alive. The top row of the square is in bits 5 and 4 of
/// `e`, the bottom row in bits 1 and 0.
pub open spec fn entry_alive(e: u8, u: int, v: int) -> bool {
    -1 <= u < 1 && -1 <= v < 1 && bit16(e as u16, -u - 4 * v)
}

/// The live cells of the 2x2 square packed in `e`, relative to its centre.
pub open spec fn entry_grid(e: u8) -> Set<(int, int)> {
    Set::new(|p: (int, int)| entry_alive(e, p.0, p.1))
}

/// Only the four bits that hold cells are set in `e`.
pub open spec fn entry_clean(e: u8) -> bool {
    e & 0xccu8 == 0u8
}

/// The 4x4 square that straddles the squares `a` (west) and `b` (east): the
/// two east columns of `a`, then the two west columns of `b`.
pub open spec fn spec_hmix(a: u16, b: u16) -> u16 {
    (a << 2u16) & 0xccccu16 | (b >> 2u16) & 0x3333u16
}

/// The 4x4 square that straddles the squares `a` (north) and `b` (south).
pub open spec fn spec_vmix(a: u16, b: u16) -> u16 {
    (a << 8u16) | (b >> 8u16)
}

/// The 4x4 square in the middle of the 8x8 square with the given quadrants.
pub open spec fn spec_center(nw: u16, ne: u16, sw: u16, se: u16) -> u16 {
    (nw << 10u16) & 0xcc00u16 | (ne << 6u16) & 0x3300u16 | (sw >> 6u16) & 0x00ccu16 | (se >> 10u16)
        & 0x0033u16
}

/// The 4x4 square made of four packed 2x2 squares.
pub open spec fn spec_square(nw: u8, ne: u8, sw: u8, se: u8) -> u16 {
    (nw as u16) << 10u16 | (ne as u16) << 8u16 | (sw as u16) << 2u16 | (se as u16)
}

/// The 4x4 square in the middle of four 4x4 squares that overlap by two
/// cells: `r0` lies one cell north-west of the middle, `r1` north-east, `r2`
/// south-west and `r3` south-east.
pub open spec fn spec_inner(r0: u16, r1: u16, r2: u16, r3: u16) -> u16 {
    (r0 << 5u16) & 0xcc00u16 | (r1 << 3u16) & 0x3300u16 | (r2 >> 3u16) & 0x00ccu16 | (r3 >> 5u16)
        & 0x0033u16
}

proof fn lemma_hmix_bit(a: u16, b: u16, i: u16)
    by (bit_vector)
    requires
        i < 16,
    ensures
        (((a << 2u16) & 0xccccu16 | (b >> 2u16) & 0x3333u16) >> i) & 1u16 == (if i % 4 >= 2 {
            (a >> ((i - 2) as u16)) & 1u16
        } else {
            (b >> ((i + 2) as u16)) & 1u16
        }),
{
}

proof fn lemma_vmix_bit(a: u16, b: u16, i: u16)
    by (bit_vector)
    requires
        i < 16,
    ensures
        (((a << 8u16) | (b >> 8u16)) >> i) & 1u16 == (if i >= 8 {
            (a >> ((i - 8) as u16)) & 1u16
        } else {
            (b >> ((i + 8) as u16)) & 1u16
        }),
{
}

proof fn lemma_center_bit(nw: u16, ne: u16, sw: u16, se: u16, i: u16)
    by (bit_vector)
    requires
        i < 16,
    ensures
        (((nw << 10u16) & 0xcc00u16 | (ne << 6u16) & 0x3300u16 | (sw >> 6u16) & 0x00ccu16 | (se
            >> 10u16) & 0x0033u16) >> i) & 1u16 == (if i % 4 >= 2 {
            if i >= 8 {
                (nw >> ((i - 10) as u16)) & 1u16
            } else {
                (sw >> ((i + 6) as u16)) & 1u16
            }
        } else {
            if i >= 8 {
                (ne >> ((i - 6) as u16)) & 1u16
            } else {
                (se >> ((i + 10) as u16)) & 1u16
            }
        }),
{
}

proof fn lemma_square_bit(nw: u8, ne: u8, sw: u8, se: u8, i: u16)
    by (bit_vector)
    requires
        i < 16,
        nw & 0xccu8 == 0u8,
        ne & 0xccu8 == 0u8,
        sw & 0xccu8 == 0u8,
        se & 0xccu8 == 0u8,
    ensures
        (((nw as u16) << 10u16 | (ne as u16) << 8u16 | (sw as u16) << 2u16 | (se as u16)) >> i)
            & 1u16 == (if i % 4 >= 2 {
            if i >= 8 {
                ((nw as u16) >> ((i - 10) as u16)) & 1u16
            } else {
                ((sw as u16) >> ((i - 2) as u16)) & 1u16
            }
        } else {
            if i >= 8 {
                ((ne as u16) >> ((i - 8) as u16)) & 1u16
            } else {
                ((se as u16) >> i) & 1u16
            }
        }),
{
}

proof fn lemma_inner_bit(r0: u16, r1: u16, r2: u16, r3: u16, i: u16)
    by (bit_vector)
    requires
        i < 16,
    ensures
        (((r0 << 5u16) & 0xcc00u16 | (r1 << 3u16) & 0x3300u16 | (r2 >> 3u16) & 0x00ccu16 | (r3
            >> 5u16) & 0x0033u16) >> i) & 1u16 == (if i % 4 >= 2 {
            if i >= 8 {
                (r0 >> ((i - 5) as u16)) & 1u16
            } else {
                (r2 >> ((i + 3) as u16)) & 1u16
            }
        } else {
            if i >= 8 {
                (r1 >> ((i - 3) as u16)) & 1u16
            } else {
                (r3 >> ((i + 5) as u16)) & 1u16
            }
        }),
{
}

/// The cells of `spec_hmix(a, b)` are the east half of `a` and the west half
/// of `b`.
pub proof fn lemma_hmix(a: u16, b: u16, x: int, y: int)
    requires
        -2 <= x < 2,
    ensures
        quad_alive(spec_hmix(a, b), x, y) == (if x < 0 {
            quad_alive(a, x + 2, y)
        } else {
            quad_alive(b, x - 2, y)
        }),
{
    if -2 <= y < 2 {
        lemma_hmix_bit(a, b, (5 - x - 4 * y) as u16);
    }
}

/// The cells of `spec_vmix(a, b)` are the south half of `a` and the north
/// half of `b`.
pub proof fn lemma_vmix(a: u16, b: u16, x: int, y: int)
    requires
        -2 <= y < 2,
    ensures
        quad_alive(spec_vmix(a, b), x, y) == (if y < 0 {
            quad_alive(a, x, y + 2)
        } else {
            quad_alive(b, x, y - 2)
        }),
{
    if -2 <= x < 2 {
        lemma_vmix_bit(a, b, (5 - x - 4 * y) as u16);
    }
}

/// The cells of `spec_center` are the inner corners of the four quadrants.
pub proof fn lemma_center(nw: u16, ne: u16, sw: u16, se: u16, x: int, y: int)
    requires
        -2 <= x < 2,
        -2 <= y < 2,
    ensures
        quad_alive(spec_center(nw, ne, sw, se), x, y) == (if x < 0 {
            if y < 0 {
                quad_alive(nw, x + 2, y + 2)
            } else {
                quad_alive(sw, x + 2, y - 2)
            }
        } else {
            if y < 0 {
                quad_alive(ne, x - 2, y + 2)
            } else {
                quad_alive(se, x - 2, y - 2)
            }
        }),
{
    lemma_center_bit(nw, ne, sw, se, (5 - x - 4 * y) as u16);
}

/// The cells of `spec_square` are those of its four 2x2 squares.
pub proof fn lemma_square(nw: u8, ne: u8, sw: u8, se: u8, x: int, y: int)
    requires
        -2 <= x < 2,
        -2 <= y < 2,
        entry_clean(nw),
        entry_clean(ne),
        entry_clean(sw),
        entry_clean(se),
    ensures
        quad_alive(spec_square(nw, ne, sw, se), x, y) == (if x < 0 {
            if y < 0 {
                entry_alive(nw, x + 1, y + 1)
            } else {
                entry_alive(sw, x + 1, y - 1)
            }
        } else {
            if y < 0 {
                entry_alive(ne, x - 1, y + 1)
            } else {
                entry_alive(se, x - 1, y - 1)
            }
        }),
{
    lemma_square_bit(nw, ne, sw, se, (5 - x - 4 * y) as u16);
}

/// The cells of `spec_inner` are the inner 2x2 squares of its four squares.
pub proof fn lemma_inner(r0: u16, r1: u16, r2: u16, r3: u16, x: int, y: int)
    requires
        -2 <= x < 2,
        -2 <= y < 2,
    ensures
        quad_alive(spec_inner(r0, r1, r2, r3), x, y) == (if x < 0 {
            if y < 0 {
                quad_alive(r0, x + 1, y + 1)
            } else {
                quad_alive(r2, x + 1, y - 1)
            }
        } else {
            if y < 0 {
                quad_alive(r1, x - 1, y + 1)
            } else {
                quad_alive(r3, x - 1, y - 1)
            }
        }),
{
    lemma_inner_bit(r0, r1, r2, r3, (5 - x - 4 * y) as u16);
}

/// Two squares that show `s` side by side make a straddling square that
/// shows `s` in between.
pub proof fn lemma_hmix_shows(a: u16, b: u16, cx: int, cy: int, s: Set<(int, int)>)
    requires
        shows(quad_grid(a), cx - 2, cy, 2, s),
        shows(quad_grid(b), cx + 2, cy, 2, s),
    ensures
        shows(quad_grid(spec_hmix(a, b)), cx, cy, 2, s),
{
    reveal(shows);
    let m = quad_grid(spec_hmix(a, b));
    assert forall|x: int, y: int| -2 <= x < 2 && -2 <= y < 2 implies #[trigger] m.contains((x, y))
        == s.contains((x + cx, y + cy)) by {
        lemma_hmix(a, b, x, y);
        if x < 0 {
            assert(quad_grid(a).contains((x + 2, y)) == s.contains((x + 2 + (cx - 2), y + cy)));
        } else {
            assert(quad_grid(b).contains((x - 2, y)) == s.contains((x - 2 + (cx + 2), y + cy)));
        }
    }
}

/// Two squares that show `s` one above the other make a straddling square
/// that shows `s` in between.
pub proof fn lemma_vmix_shows(a: u16, b: u16, cx: int, cy: int, s: Set<(int, int)>)
    requires
        shows(quad_grid(a), cx, cy - 2, 2, s),
        shows(quad_grid(b), cx, cy + 2, 2, s),
    ensures
        shows(quad_grid(spec_vmix(a, b)), cx, cy, 2, s),
{
    reveal(shows);
    let m = quad_grid(spec_vmix(a, b));
    assert forall|x: int, y: int| -2 <= x < 2 && -2 <= y < 2 implies #[trigger] m.contains((x, y))
        == s.contains((x + cx, y + cy)) by {
        lemma_vmix(a, b, x, y);
        if y < 0 {
            assert(quad_grid(a).contains((x, y + 2)) == s.contains((x + cx, y + 2 + (cy - 2))));
        } else {
            assert(quad_grid(b).contains((x, y - 2)) == s.contains((x + cx, y - 2 + (cy + 2))));
        }
    }
}

/// Four squares that show `s` around a point make a centre square that shows
/// `s` at that point.
pub proof fn lemma_center_shows(
    nw: u16,
    ne: u16,
    sw: u16,
    se: u16,
    cx: int,
    cy: int,
    s: Set<(int, int)>,
)
    requires
        shows(quad_grid(nw), cx - 2, cy - 2, 2, s),
        shows(quad_grid(ne), cx + 2, cy - 2, 2, s),
        shows(quad_grid(sw), cx - 2, cy + 2, 2, s),
        shows(quad_grid(se), cx + 2, cy + 2, 2, s),
    ensures
        shows(quad_grid(spec_center(nw, ne, sw, se)), cx, cy, 2, s),
{
    reveal(shows);
    let m = quad_grid(spec_center(nw, ne, sw, se));
    assert forall|x: int, y: int| -2 <= x < 2 && -2 <= y < 2 implies #[trigger] m.contains((x, y))
        == s.contains((x + cx, y + cy)) by {
        lemma_center(nw, ne, sw, se, x, y);
        if x < 0 {
            if y < 0 {
                assert(quad_grid(nw).contains((x + 2, y + 2)) == s.contains(
                    (x + 2 + (cx - 2), y + 2 + (cy - 2)),
                ));
            } else {
                assert(quad_grid(sw).contains((x + 2, y - 2)) == s.contains(
                    (x + 2 + (cx - 2), y - 2 + (cy + 2)),
                ));
            }
        } else {
            if y < 0 {
                assert(quad_grid(ne).contains((x - 2, y + 2)) == s.contains(
                    (x - 2 + (cx + 2), y + 2 + (cy - 2)),
                ));
            } else {
                assert(quad_grid(se).contains((x - 2, y - 2)) == s.contains(
                    (x - 2 + (cx + 2), y - 2 + (cy + 2)),
                ));
            }
        }
    }
}

/// Four packed 2x2 squares that show `s` around a point make a 4x4 square
/// that shows `s` at that point.
pub proof fn lemma_square_shows(
    nw: u8,
    ne: u8,
    sw: u8,
    se: u8,
    cx: int,
    cy: int,
    s: Set<(int, int)>,
)
    requires
        entry_clean(nw),
        entry_clean(ne),
        entry_clean(sw),
        entry_clean(se),
        shows(entry_grid(nw), cx - 1, cy - 1, 1, s),
        shows(entry_grid(ne), cx + 1, cy - 1, 1, s),
        shows(entry_grid(sw), cx - 1, cy + 1, 1, s),
        shows(entry_grid(se), cx + 1, cy + 1, 1, s),
    ensures
        shows(quad_grid(spec_square(nw, ne, sw, se)), cx, cy, 2, s),
{
    reveal(shows);
    let m = quad_grid(spec_square(nw, ne, sw, se));
    assert forall|x: int, y: int| -2 <= x < 2 && -2 <= y < 2 implies #[trigger] m.contains((x, y))
        == s.contains((x + cx, y + cy)) by {
        lemma_square(nw, ne, sw, se, x, y);
        if x < 0 {
            if y < 0 {
                assert(entry_grid(nw).contains((x + 1, y + 1)) == s.contains(
                    (x + 1 + (cx - 1), y + 1 + (cy - 1)),
                ));
            } else {
                assert(entry_grid(sw).contains((x + 1, y - 1)) == s.contains(
                    (x + 1 + (cx - 1), y - 1 + (cy + 1)),
                ));
            }
        } else {
            if y < 0 {
                assert(entry_grid(ne).contains((x - 1, y + 1)) == s.contains(
                    (x - 1 + (cx + 1), y + 1 + (cy - 1)),
                ));
            } else {
                assert(entry_grid(se).contains((x - 1, y - 1)) == s.contains(
                    (x - 1 + (cx + 1), y - 1 + (cy + 1)),
                ));
            }
        }
    }
}

/// Four overlapping squares that show `s` one cell off a point make an inner
/// square that shows `s` at that point.
pub proof fn lemma_inner_shows(
    r0: u16,
    r1: u16,
    r2: u16,
    r3: u16,
    cx: int,
    cy: int,
    s: Set<(int, int)>,
)
    requires
        shows(quad_grid(r0), cx - 1, cy - 1, 2, s),
        shows(quad_grid(r1), cx + 1, cy - 1, 2, s),
        shows(quad_grid(r2), cx - 1, cy + 1, 2, s),
        shows(quad_grid(r3), cx + 1, cy + 1, 2, s),
    ensures
        shows(quad_grid(spec_inner(r0, r1, r2, r3)), cx, cy, 2, s),
{
    reveal(shows);
    let m = quad_grid(spec_inner(r0, r1, r2, r3));
    assert forall|x: int, y: int| -2 <= x < 2 && -2 <= y < 2 implies #[trigger] m.contains((x, y))
        == s.contains((x + cx, y + cy)) by {
        lemma_inner(r0, r1, r2, r3, x, y);
        if x < 0 {
            if y < 0 {
                assert(quad_grid(r0).contains((x + 1, y + 1)) == s.contains(
                    (x + 1 + (cx - 1), y + 1 + (cy - 1)),
                ));
            } else {
                assert(quad_grid(r2).contains((x + 1, y - 1)) == s.contains(
                    (x + 1 + (cx - 1), y - 1 + (cy + 1)),
                ));
            }
        } else {
            if y < 0 {
                assert(quad_grid(r1).contains((x - 1, y + 1)) == s.contains(
                    (x - 1 + (cx + 1), y + 1 + (cy - 1)),
                ));
            } else {
                assert(quad_grid(r3).contains((x - 1, y - 1)) == s.contains(
                    (x - 1 + (cx + 1), y - 1 + (cy + 1)),
                ));
            }
        }
    }
}

/// Computes `spec_hmix`.
pub fn hmix(a: u16, b: u16) -> (r: u16)
    ensures
        r == spec_hmix(a, b),
{
    (a << 2u16) & 0xccccu16 | (b >> 2u16) & 0x3333u16
}

/// Computes `spec_vmix`.
pub fn vmix(a: u16, b: u16) -> (r: u16)
    ensures
        r == spec_vmix(a, b),
{
    (a << 8u16) | (b >> 8u16)
}

/// Computes `spec_square`.
pub fn level2_square_from_quadrant(nw: u8, ne: u8, sw: u8, se: u8) -> (r: u16)
    ensures
        r == spec_square(nw, ne, sw, se),
{
    (nw as u16) << 10u16 | (ne as u16) << 8u16 | (sw as u16) << 2u16 | (se as u16)
}

/// Computes `spec_inner`.
pub fn inner(r0: u16, r1: u16, r2: u16, r3: u16) -> (r: u16)
    ensures
        r == spec_inner(r0, r1, r2, r3),
{
    (r0 << 5u16) & 0xcc00u16 | (r1 << 3u16) & 0x3300u16 | (r2 >> 3u16) & 0x00ccu16 | (r3 >> 5u16)
        & 0x0033u16
}

pub proof fn lemma_mask_set(m: u16, k: u16, i: u16)
    by (bit_vector)
    requires
        k < 16,
        i < 16,
    ensures
        ((m | (1u16 << k)) >> i) & 1u16 == (if i == k {
            1u16
        } else {
            (m >> i) & 1u16
        }),
{
}

pub proof fn lemma_mask_clear(m: u16, k: u16, i: u16)
    by (bit_vector)
    requires
        k < 16,
        i < 16,
    ensures
        ((m & !(1u16 << k)) >> i) & 1u16 == (if i == k {
            0u16
        } else {
            (m >> i) & 1u16
        }),
{
}

/// The 4x4 square `q` with the cell at `(u, v)` made alive or dead.
pub fn quad_with(q: u16, u: i64, v: i64, alive: bool) -> (r: u16)
    requires
        -2 <= u < 2,
        -2 <= v < 2,
    ensures
        quad_grid(r) == with_cell(quad_grid(q), u as int, v as int, alive),
{
    let shift: u16 = (5 - u - 4 * v) as u16;
    let mask: u16 = 1u16 << shift;
    let r: u16 = if alive {
        q | mask
    } else {
        q & !mask
    };
    proof {
        let a = quad_grid(r);
        let b = with_cell(quad_grid(q), u as int, v as int, alive);
        assert forall|p: (int, int)| a.contains(p) == b.contains(p) by {
            if -2 <= p.0 < 2 && -2 <= p.1 < 2 {
                let i = (5 - p.0 - 4 * p.1) as u16;
                lemma_mask_set(q, shift, i);
                lemma_mask_clear(q, shift, i);
            }
        }
        assert(a =~= b);
    }
    r
}

/// The live cells of a 4x4 square lie inside it.
pub proof fn lemma_quad_within(q: u16)
    ensures
        within(quad_grid(q), -2, 2),
{
}

} // verus!
