//! Macrocells as rows of bits, for inspection: one word per row, the west
//! end of a row in the high bits.

use crate::bits::{quad_alive, quad_grid};
use crate::life::assembled;
use crate::node::{LeafNodeKey, NodeId};
use crate::store::{half, lemma_half};
use crate::universe::Universe;
use vstd::arithmetic::power2::lemma2_to64;
use vstd::prelude::*;

verus! {

/// Bit `i` of `v`.
pub open spec fn bit128(v: u128, i: int) -> bool {
    0 <= i < 128 && (v >> (i as u128)) & 1u128 == 1u128
}

/// No bit of `v` from bit `side` on is set.
pub open spec fn fits(v: u128, side: int) -> bool {
    side >= 128 || v >> (side as u128) == 0u128
}

/// `rows` are the rows of the square pattern `g` of the given side, from
/// north to south: in each word, the bit of value `2 ^ (side - 1 - c)` tells
/// whether the cell in column `c` is alive, and no higher bit is set.
pub open spec fn rows_show(rows: Seq<u128>, side: int, g: Set<(int, int)>) -> bool {
    &&& rows.len() == side
    &&& forall|r: int, c: int|
        0 <= r < side && 0 <= c < side ==> #[trigger] bit128(rows[r], side - 1 - c) == g.contains(
            (c - side / 2, r - side / 2),
        )
    &&& forall|r: int| 0 <= r < side ==> #[trigger] fits(rows[r], side)
}

proof fn lemma_row_bits(a: u16, b: u16, j: u16, i: u16)
    by (bit_vector)
    requires
        j < 4,
        i < 16,
    ensures
        (((((a >> ((12 - 4 * j) as u16)) & 0xfu16) << 4u16 | ((b >> ((12 - 4 * j) as u16))
            & 0xfu16)) as u128) >> (i as u128)) & 1u128 == 1u128 <==> (if i >= 8 {
            false
        } else if i >= 4 {
            (a >> ((8 - 4 * j + i) as u16)) & 1u16 == 1u16
        } else {
            (b >> ((12 - 4 * j + i) as u16)) & 1u16 == 1u16
        }),
{
}

proof fn lemma_concat_bits(x: u128, y: u128, h: u128, i: u128)
    by (bit_vector)
    requires
        h <= 64,
        i < 128,
        y >> h == 0u128,
        x >> h == 0u128,
    ensures
        ((x << h | y) >> i) & 1u128 == (if i < h {
            (y >> i) & 1u128
        } else if i < 2 * h {
            (x >> ((i - h) as u128)) & 1u128
        } else {
            0u128
        }),
        2 * h < 128 ==> (x << h | y) >> ((2 * h) as u128) == 0u128,
{
}

proof fn lemma_byte_fits(v: u16)
    by (bit_vector)
    requires
        v < 256,
    ensures
        (v as u128) >> 8u128 == 0u128,
{
}

/// Row `j` of the 4x4 squares `a` (west) and `b` (east) side by side.
pub fn leaf_row(a: u16, b: u16, j: u16) -> (row: u16)
    requires
        j < 4,
    ensures
        row < 256,
        forall|c: int|
            0 <= c < 4 ==> #[trigger] bit128(row as u128, 7 - c) == quad_alive(a, c - 2, j - 2),
        forall|c: int|
            4 <= c < 8 ==> #[trigger] bit128(row as u128, 7 - c) == quad_alive(b, c - 6, j - 2),
        fits(row as u128, 8),
{
    let s: u16 = 12 - 4 * j;
    let row: u16 = ((a >> s) & 0xfu16) << 4u16 | ((b >> s) & 0xfu16);
    proof {
        assert(row < 256) by (bit_vector)
            requires
                row == ((a >> s) & 0xfu16) << 4u16 | ((b >> s) & 0xfu16),
        ;
        assert forall|c: int| 0 <= c < 4 implies #[trigger] bit128(row as u128, 7 - c)
            == quad_alive(a, c - 2, j - 2) by {
            lemma_row_bits(a, b, j, (7 - c) as u16);
        }
        assert forall|c: int| 4 <= c < 8 implies #[trigger] bit128(row as u128, 7 - c)
            == quad_alive(b, c - 6, j - 2) by {
            lemma_row_bits(a, b, j, (7 - c) as u16);
        }
        lemma_byte_fits(row);
    }
    row
}

/// The eight rows of a leaf, from north to south.
pub fn leaf_rows(key: &LeafNodeKey) -> (rows: Vec<u128>)
    ensures
        rows_show(rows@, 8, key.grid()),
{
    let mut rows: Vec<u128> = Vec::new();
    rows.push(leaf_row(key.nw, key.ne, 0) as u128);
    rows.push(leaf_row(key.nw, key.ne, 1) as u128);
    rows.push(leaf_row(key.nw, key.ne, 2) as u128);
    rows.push(leaf_row(key.nw, key.ne, 3) as u128);
    rows.push(leaf_row(key.sw, key.se, 0) as u128);
    rows.push(leaf_row(key.sw, key.se, 1) as u128);
    rows.push(leaf_row(key.sw, key.se, 2) as u128);
    rows.push(leaf_row(key.sw, key.se, 3) as u128);
    proof {
        let g = key.grid();
        assert forall|r: int, c: int| 0 <= r < 8 && 0 <= c < 8 implies #[trigger] bit128(
            rows@[r],
            8 - 1 - c,
        ) == g.contains((c - 8int / 2, r - 8int / 2)) by {
            if r < 4 {
                if c < 4 {
                    assert(quad_grid(key.nw).contains((c - 2, r - 2)) == quad_alive(
                        key.nw,
                        c - 2,
                        r - 2,
                    ));
                } else {
                    assert(quad_grid(key.ne).contains((c - 6, r - 2)) == quad_alive(
                        key.ne,
                        c - 6,
                        r - 2,
                    ));
                }
            } else {
                if c < 4 {
                    assert(quad_grid(key.sw).contains((c - 2, r - 6)) == quad_alive(
                        key.sw,
                        c - 2,
                        r - 6,
                    ));
                } else {
                    assert(quad_grid(key.se).contains((c - 6, r - 6)) == quad_alive(
                        key.se,
                        c - 6,
                        r - 6,
                    ));
                }
            }
        }
    }
    rows
}

impl Universe {
    /// The rows of the macrocell `node`, from north to south, for macrocells
    /// small enough that a row fits in a word.
    pub fn debug(&self, node: NodeId) -> (rows: Vec<u128>)
        requires
            self.inv(),
            self.valid(node),
            self.spec_level_of(node) <= 7,
        ensures
            rows_show(rows@, 2 * half(self.spec_level_of(node)), self.grid(node)),
        decreases self.spec_level_of(node),
    {
        proof {
            reveal(Universe::inv);
            crate::store::lemma_kind(self.nodes@, self.rule, node);
            lemma2_to64();
        }
        let level = self.node_level(node);
        if level == 3 {
            let leaf = self.leaf(node);
            proof {
                assert(half(3) == 4);
            }
            leaf_rows(&leaf.key)
        } else {
            let key = self.quadrants(node);
            let nw = self.debug(key.nw);
            let ne = self.debug(key.ne);
            let sw = self.debug(key.sw);
            let se = self.debug(key.se);
            let h = crate::envelope::radius(level);
            let ghost q = half(level - 1);
            let ghost g = self.grid(node);
            proof {
                lemma_half(level - 1);
                lemma_half(level as int);
                crate::envelope::lemma_half_increases(level as int, 7);
                assert(half(7) == 64);
            }
            let mut rows: Vec<u128> = Vec::new();
            let mut i: usize = 0;
            while i < nw.len()
                invariant
                    i <= nw@.len(),
                    nw@.len() == h,
                    ne@.len() == h,
                    h == 2 * q,
                    0 < h <= 64,
                    rows_show(nw@, h as int, self.grid(key.nw)),
                    rows_show(ne@, h as int, self.grid(key.ne)),
                    rows@.len() == i,
                    g == assembled(
                        self.grid(key.nw),
                        self.grid(key.ne),
                        self.grid(key.sw),
                        self.grid(key.se),
                        q,
                    ),
                    forall|r: int, c: int|
                        0 <= r < i && 0 <= c < 2 * h ==> #[trigger] bit128(rows@[r], 2 * h - 1 - c)
                            == g.contains((c - h, r - h)),
                    forall|r: int| 0 <= r < i ==> #[trigger] fits(rows@[r], 2 * h),
                decreases nw@.len() - i,
            {
                let x = nw[i];
                let y = ne[i];
                let row = x << (h as u128) | y;
                proof {
                    assert(fits(nw@[i as int], h as int));
                    assert(fits(ne@[i as int], h as int));
                    lemma_concat_bits(x, y, h as u128, 0);
                    assert forall|c: int| 0 <= c < 2 * h implies #[trigger] bit128(
                        row,
                        2 * h - 1 - c,
                    ) == g.contains((c - h, i - h)) by {
                        lemma_concat_bits(x, y, h as u128, (2 * h - 1 - c) as u128);
                        if c < h {
                            assert(bit128(nw@[i as int], h - 1 - c) == self.grid(key.nw).contains(
                                (c - h / 2, i - h / 2),
                            ));
                        } else {
                            assert(bit128(ne@[i as int], h - 1 - (c - h)) == self.grid(
                                key.ne,
                            ).contains((c - h - h / 2, i - h / 2)));
                        }
                    }
                }
                rows.push(row);
                i = i + 1;
            }
            let mut j: usize = 0;
            while j < sw.len()
                invariant
                    j <= sw@.len(),
                    sw@.len() == h,
                    se@.len() == h,
                    h == 2 * q,
                    0 < h <= 64,
                    rows_show(sw@, h as int, self.grid(key.sw)),
                    rows_show(se@, h as int, self.grid(key.se)),
                    rows@.len() == h + j,
                    g == assembled(
                        self.grid(key.nw),
                        self.grid(key.ne),
                        self.grid(key.sw),
                        self.grid(key.se),
                        q,
                    ),
                    forall|r: int, c: int|
                        0 <= r < h + j && 0 <= c < 2 * h ==> #[trigger] bit128(
                            rows@[r],
                            2 * h - 1 - c,
                        ) == g.contains((c - h, r - h)),
                    forall|r: int| 0 <= r < h + j ==> #[trigger] fits(rows@[r], 2 * h),
                decreases sw@.len() - j,
            {
                let x = sw[j];
                let y = se[j];
                let row = x << (h as u128) | y;
                proof {
                    assert(fits(sw@[j as int], h as int));
                    assert(fits(se@[j as int], h as int));
                    lemma_concat_bits(x, y, h as u128, 0);
                    assert forall|c: int| 0 <= c < 2 * h implies #[trigger] bit128(
                        row,
                        2 * h - 1 - c,
                    ) == g.contains((c - h, h + j - h)) by {
                        lemma_concat_bits(x, y, h as u128, (2 * h - 1 - c) as u128);
                        if c < h {
                            assert(bit128(sw@[j as int], h - 1 - c) == self.grid(key.sw).contains(
                                (c - h / 2, j - h / 2),
                            ));
                        } else {
                            assert(bit128(se@[j as int], h - 1 - (c - h)) == self.grid(
                                key.se,
                            ).contains((c - h - h / 2, j - h / 2)));
                        }
                    }
                }
                rows.push(row);
                j = j + 1;
            }
            rows
        }
    }
}

} // verus!
