//! Small squares packed row by row with the least significant bit first: bit
//! 0 is the top left cell. A 2x2 square takes four bits, a 4x4 square sixteen.
//! The tables here are for Conway's rule.

use crate::bits::{bit16, lemma_bit_is_01};
use crate::bounds::bounds_of;
use crate::canon::is_empty_grid;
use vstd::prelude::*;

verus! {

/// Whether the cell in column `x` and row `y` of the 4x4 square `q` is alive.
pub open spec fn block_alive(q: u16, x: int, y: int) -> bool {
    0 <= x < 4 && 0 <= y < 4 && bit16(q, x + 4 * y)
}

/// One if the cell is alive, else zero.
pub open spec fn block_count(q: u16, x: int, y: int) -> int {
    if block_alive(q, x, y) {
        1
    } else {
        0
    }
}

/// The number of live cells among the eight neighbours of a cell.
pub open spec fn block_neighbors(q: u16, x: int, y: int) -> int {
    block_count(q, x - 1, y - 1) + block_count(q, x, y - 1) + block_count(q, x + 1, y - 1)
        + block_count(q, x - 1, y) + block_count(q, x + 1, y) + block_count(q, x - 1, y + 1)
        + block_count(q, x, y + 1) + block_count(q, x + 1, y + 1)
}

/// Conway's rule: a cell is alive in the next generation if it has three live
/// neighbours, or if it is alive and has two.
pub open spec fn conway_next(alive: bool, n: int) -> bool {
    n == 3 || (alive && n == 2)
}

/// Whether one of the four centre cells of the 4x4 square `q` is alive after
/// one generation.
pub open spec fn block_next(q: u16, x: int, y: int) -> bool {
    conway_next(block_alive(q, x, y), block_neighbors(q, x, y))
}

/// The centre 2x2 square of the 4x4 square `q` after one generation.
pub open spec fn block_result(q: u16) -> int {
    (if block_next(q, 1, 1) {
        1int
    } else {
        0
    }) + (if block_next(q, 2, 1) {
        2int
    } else {
        0
    }) + (if block_next(q, 1, 2) {
        4int
    } else {
        0
    }) + (if block_next(q, 2, 2) {
        8int
    } else {
        0
    })
}

/// Bit `i` of `q`, as a number.
pub open spec fn block_bit_value(q: u16, i: int) -> int {
    if bit16(q, i) {
        1
    } else {
        0
    }
}

fn block_bit(q: u16, i: u16) -> (b: u8)
    requires
        i < 16,
    ensures
        b == block_bit_value(q, i as int),
{
    proof {
        lemma_bit_is_01(q, i);
    }
    ((q >> i) & 1u16) as u8
}

/// The state after one generation of the centre cell held in bit `i` of `q`.
fn new_bit(q: u16, i: u16) -> (b: u8)
    requires
        i == 5 || i == 6 || i == 9 || i == 10,
    ensures
        b < 2,
        (b == 1) == block_next(
            q,
            if i == 5 || i == 9 {
                1
            } else {
                2
            },
            if i < 8 {
                1
            } else {
                2
            },
        ),
{
    let num: u8 = block_bit(q, i - 5) + block_bit(q, i - 4) + block_bit(q, i - 3) + block_bit(
        q,
        i - 1,
    ) + block_bit(q, i + 1) + block_bit(q, i + 3) + block_bit(q, i + 4) + block_bit(q, i + 5);
    proof {
        let x: int = if i == 5 || i == 9 { 1 } else { 2 };
        let y: int = if i < 8 { 1 } else { 2 };
        assert(i == x + 4 * y);
        assert(block_count(q, x - 1, y - 1) == block_bit_value(q, i - 5));
        assert(block_count(q, x, y - 1) == block_bit_value(q, i - 4));
        assert(block_count(q, x + 1, y - 1) == block_bit_value(q, i - 3));
        assert(block_count(q, x - 1, y) == block_bit_value(q, i - 1));
        assert(block_count(q, x + 1, y) == block_bit_value(q, i + 1));
        assert(block_count(q, x - 1, y + 1) == block_bit_value(q, i + 3));
        assert(block_count(q, x, y + 1) == block_bit_value(q, i + 4));
        assert(block_count(q, x + 1, y + 1) == block_bit_value(q, i + 5));
        assert(block_neighbors(q, x, y) == num);
    }
    if num == 3 {
        1
    } else if num == 2 {
        block_bit(q, i)
    } else {
        0
    }
}

/// The table of the centre 2x2 squares of all 4x4 squares after one
/// generation of Conway's rule.
pub fn compute_level2_results() -> (output: Vec<u8>)
    ensures
        output@.len() == 65536,
        forall|q: u16| #[trigger] output@[q as int] == block_result(q),
{
    let mut output: Vec<u8> = Vec::with_capacity(65536);
    let mut i: u32 = 0;
    while i < 65536
        invariant
            i <= 65536,
            output@.len() == i,
            forall|q: u16| q < i ==> #[trigger] output@[q as int] == block_result(q),
        decreases 65536 - i,
    {
        let q: u16 = i as u16;
        let b0 = new_bit(q, 5);
        let b1 = new_bit(q, 6);
        let b2 = new_bit(q, 9);
        let b3 = new_bit(q, 10);
        output.push(b0 + b1 * 2 + b2 * 4 + b3 * 8);
        i = i + 1;
    }
    output
}

/// The live cells of the 2x2 square `q`, relative to its centre: bit 0 is
/// the cell at `(-1, -1)`, bit 1 the cell east of it, bits 2 and 3 the row
/// below.
pub open spec fn small_grid(q: u16) -> Set<(int, int)> {
    Set::new(|p: (int, int)| -1 <= p.0 < 1 && -1 <= p.1 < 1 && bit16(q, p.0 + 1 + 2 * (p.1 + 1)))
}

proof fn lemma_small_bits(q: u16)
    by (bit_vector)
    requires
        q < 16,
    ensures
        (q & 0b0101u16 != 0u16) == ((q >> 0u16) & 1u16 == 1u16 || (q >> 2u16) & 1u16 == 1u16),
        (q & 0b1010u16 != 0u16) == ((q >> 1u16) & 1u16 == 1u16 || (q >> 3u16) & 1u16 == 1u16),
        (q & 0b0011u16 != 0u16) == ((q >> 0u16) & 1u16 == 1u16 || (q >> 1u16) & 1u16 == 1u16),
        (q & 0b1100u16 != 0u16) == ((q >> 2u16) & 1u16 == 1u16 || (q >> 3u16) & 1u16 == 1u16),
        q == 0u16 ==> (q >> 0u16) & 1u16 == 0u16 && (q >> 1u16) & 1u16 == 0u16 && (q >> 2u16)
            & 1u16 == 0u16 && (q >> 3u16) & 1u16 == 0u16,
        q != 0u16 ==> (q >> 0u16) & 1u16 == 1u16 || (q >> 1u16) & 1u16 == 1u16 || (q >> 2u16)
            & 1u16 == 1u16 || (q >> 3u16) & 1u16 == 1u16,
{
}

/// The bounding box `(left, top, right, bottom)` of the 2x2 square `q`,
/// relative to its centre.
pub fn level1_boundary(q: u16) -> (b: (i32, i32, i32, i32))
    requires
        q < 16,
    ensures
        q == 0 ==> b == (i32::MAX, i32::MAX, i32::MIN, i32::MIN),
        q == 0 <==> is_empty_grid(small_grid(q)),
        q != 0 ==> bounds_of(small_grid(q), (b.0 as int, b.1 as int, b.2 as int, b.3 as int)),
{
    let g = Ghost(small_grid(q));
    proof {
        lemma_small_bits(q);
        assert(g@.contains((-1, -1)) == bit16(q, 0));
        assert(g@.contains((0, -1)) == bit16(q, 1));
        assert(g@.contains((-1, 0)) == bit16(q, 2));
        assert(g@.contains((0, 0)) == bit16(q, 3));
    }
    if q == 0 {
        return (i32::MAX, i32::MAX, i32::MIN, i32::MIN);
    }
    let (x0, x1): (i32, i32) = if q & 0b0101 != 0 {
        if q & 0b1010 != 0 {
            (-1, 1)
        } else {
            (-1, 0)
        }
    } else {
        (0, 1)
    };
    let (y0, y1): (i32, i32) = if q & 0b0011 != 0 {
        if q & 0b1100 != 0 {
            (-1, 1)
        } else {
            (-1, 0)
        }
    } else {
        (0, 1)
    };
    proof {
        let west = if bit16(q, 0) {
            (-1int, -1int)
        } else {
            (-1int, 0int)
        };
        let east = if bit16(q, 1) {
            (0int, -1int)
        } else {
            (0int, 0int)
        };
        let north = if bit16(q, 0) {
            (-1int, -1int)
        } else {
            (0int, -1int)
        };
        let south = if bit16(q, 2) {
            (-1int, 0int)
        } else {
            (0int, 0int)
        };
        let left = if x0 == -1 {
            west
        } else {
            east
        };
        let right = if x1 == 1 {
            east
        } else {
            west
        };
        let top = if y0 == -1 {
            north
        } else {
            south
        };
        let bottom = if y1 == 1 {
            south
        } else {
            north
        };
        assert(g@.contains(left) && left.0 == x0);
        assert(g@.contains(right) && right.0 == x1 - 1);
        assert(g@.contains(top) && top.1 == y0);
        assert(g@.contains(bottom) && bottom.1 == y1 - 1);
    }
    (x0, y0, x1, y1)
}

/// The table of the bounding boxes of all 2x2 squares.
pub fn compute_level1_boundaries() -> (output: Vec<(i32, i32, i32, i32)>)
    ensures
        output@.len() == 16,
        output@[0] == (i32::MAX, i32::MAX, i32::MIN, i32::MIN),
        forall|q: u16|
            0 < q < 16 ==> bounds_of(
                small_grid(q),
                (
                    (#[trigger] output@[q as int]).0 as int,
                    output@[q as int].1 as int,
                    output@[q as int].2 as int,
                    output@[q as int].3 as int,
                ),
            ),
{
    let mut output: Vec<(i32, i32, i32, i32)> = Vec::new();
    let mut i: u16 = 0;
    while i < 16
        invariant
            i <= 16,
            output@.len() == i,
            i > 0 ==> output@[0] == (i32::MAX, i32::MAX, i32::MIN, i32::MIN),
            forall|q: u16|
                0 < q < i ==> bounds_of(
                    small_grid(q),
                    (
                        (#[trigger] output@[q as int]).0 as int,
                        output@[q as int].1 as int,
                        output@[q as int].2 as int,
                        output@[q as int].3 as int,
                    ),
                ),
        decreases 16 - i,
    {
        output.push(level1_boundary(i));
        i = i + 1;
    }
    output
}

} // verus!
