//! The automaton itself, on the unbounded plane: what one generation is, and
//! what follows from it for patterns seen through a window.

use crate::rule::Rule;
use vstd::prelude::*;

verus! {

/// One if the cell at `(x, y)` of `g` is alive, else zero.
pub open spec fn count_at(g: Set<(int, int)>, x: int, y: int) -> int {
    if g.contains((x, y)) {
        1
    } else {
        0
    }
}

/// The number of live cells among the eight neighbours of `(x, y)`.
pub open spec fn neighbor_count(g: Set<(int, int)>, x: int, y: int) -> int {
    count_at(g, x - 1, y - 1) + count_at(g, x, y - 1) + count_at(g, x + 1, y - 1) + count_at(
        g,
        x - 1,
        y,
    ) + count_at(g, x + 1, y) + count_at(g, x - 1, y + 1) + count_at(g, x, y + 1) + count_at(
        g,
        x + 1,
        y + 1,
    )
}

/// Whether the cell at `(x, y)` is alive one generation after `g`.
pub open spec fn next_alive(rule: Rule, g: Set<(int, int)>, x: int, y: int) -> bool {
    rule.spec_next_state(g.contains((x, y)), neighbor_count(g, x, y))
}

/// The live cells one generation after `g`.
pub open spec fn life_step(rule: Rule, g: Set<(int, int)>) -> Set<(int, int)> {
    Set::new(|p: (int, int)| next_alive(rule, g, p.0, p.1))
}

/// The live cells `n` generations after `g`.
pub open spec fn life_iter(rule: Rule, g: Set<(int, int)>, n: nat) -> Set<(int, int)>
    decreases n,
{
    if n == 0 {
        g
    } else {
        life_step(rule, life_iter(rule, g, (n - 1) as nat))
    }
}

/// Every live cell of `g` has its coordinates in `[lo, hi)`.
pub open spec fn within(g: Set<(int, int)>, lo: int, hi: int) -> bool {
    forall|p: (int, int)| #[trigger] g.contains(p) ==> lo <= p.0 < hi && lo <= p.1 < hi
}

/// Seen through the window of half-width `w` centred at `(cx, cy)`, the
/// pattern `s` looks like `a` seen through the window of the same size
/// centred at the origin.
#[verifier::opaque]
pub open spec fn shows(a: Set<(int, int)>, cx: int, cy: int, w: int, s: Set<(int, int)>) -> bool {
    forall|x: int, y: int|
        -w <= x < w && -w <= y < w ==> #[trigger] a.contains((x, y)) == s.contains(
            (x + cx, y + cy),
        )
}

/// The square of half-width `2 * r` made of four squares of half-width `r`,
/// each given relative to its own centre.
pub open spec fn assembled(
    nw: Set<(int, int)>,
    ne: Set<(int, int)>,
    sw: Set<(int, int)>,
    se: Set<(int, int)>,
    r: int,
) -> Set<(int, int)> {
    Set::new(
        |p: (int, int)|
            if p.0 < 0 {
                if p.1 < 0 {
                    nw.contains((p.0 + r, p.1 + r))
                } else {
                    sw.contains((p.0 + r, p.1 - r))
                }
            } else {
                if p.1 < 0 {
                    ne.contains((p.0 - r, p.1 + r))
                } else {
                    se.contains((p.0 - r, p.1 - r))
                }
            },
    )
}

/// Four squares that show `s` around the corners of a window make a square
/// that shows `s` through the whole window.
pub proof fn lemma_assemble_shows(
    nw: Set<(int, int)>,
    ne: Set<(int, int)>,
    sw: Set<(int, int)>,
    se: Set<(int, int)>,
    r: int,
    cx: int,
    cy: int,
    s: Set<(int, int)>,
)
    requires
        shows(nw, cx - r, cy - r, r, s),
        shows(ne, cx + r, cy - r, r, s),
        shows(sw, cx - r, cy + r, r, s),
        shows(se, cx + r, cy + r, r, s),
    ensures
        shows(assembled(nw, ne, sw, se, r), cx, cy, 2 * r, s),
{
    reveal(shows);
    let a = assembled(nw, ne, sw, se, r);
    assert forall|x: int, y: int| -2 * r <= x < 2 * r && -2 * r <= y < 2 * r implies #[trigger]
        a.contains((x, y)) == s.contains((x + cx, y + cy)) by {
        if x < 0 {
            if y < 0 {
                assert(nw.contains((x + r, y + r)) == s.contains((x + r + (cx - r), y + r + (cy - r))));
            } else {
                assert(sw.contains((x + r, y - r)) == s.contains((x + r + (cx - r), y - r + (cy + r))));
            }
        } else {
            if y < 0 {
                assert(ne.contains((x - r, y + r)) == s.contains((x - r + (cx + r), y + r + (cy - r))));
            } else {
                assert(se.contains((x - r, y - r)) == s.contains((x - r + (cx + r), y - r + (cy + r))));
            }
        }
    }
}

/// A square that shows `s` through a window has quadrants that show `s`
/// around the corners of the window.
pub proof fn lemma_quadrants_show(
    nw: Set<(int, int)>,
    ne: Set<(int, int)>,
    sw: Set<(int, int)>,
    se: Set<(int, int)>,
    r: int,
    cx: int,
    cy: int,
    s: Set<(int, int)>,
)
    requires
        shows(assembled(nw, ne, sw, se, r), cx, cy, 2 * r, s),
    ensures
        shows(nw, cx - r, cy - r, r, s),
        shows(ne, cx + r, cy - r, r, s),
        shows(sw, cx - r, cy + r, r, s),
        shows(se, cx + r, cy + r, r, s),
{
    reveal(shows);
    let a = assembled(nw, ne, sw, se, r);
    assert forall|x: int, y: int| -r <= x < r && -r <= y < r implies #[trigger] nw.contains((x, y))
        == s.contains((x + (cx - r), y + (cy - r))) by {
        assert(a.contains((x - r, y - r)) == s.contains((x - r + cx, y - r + cy)));
    }
    assert forall|x: int, y: int| -r <= x < r && -r <= y < r implies #[trigger] ne.contains((x, y))
        == s.contains((x + (cx + r), y + (cy - r))) by {
        assert(a.contains((x + r, y - r)) == s.contains((x + r + cx, y - r + cy)));
    }
    assert forall|x: int, y: int| -r <= x < r && -r <= y < r implies #[trigger] sw.contains((x, y))
        == s.contains((x + (cx - r), y + (cy + r))) by {
        assert(a.contains((x - r, y + r)) == s.contains((x - r + cx, y + r + cy)));
    }
    assert forall|x: int, y: int| -r <= x < r && -r <= y < r implies #[trigger] se.contains((x, y))
        == s.contains((x + (cx + r), y + (cy + r))) by {
        assert(a.contains((x + r, y + r)) == s.contains((x + r + cx, y + r + cy)));
    }
}

/// The next state of a cell depends on the cell and its eight neighbours
/// only, wherever in the plane they lie.
pub proof fn lemma_next_local(
    rule: Rule,
    g1: Set<(int, int)>,
    g2: Set<(int, int)>,
    x: int,
    y: int,
    dx: int,
    dy: int,
)
    requires
        forall|u: int, v: int|
            x - 1 <= u <= x + 1 && y - 1 <= v <= y + 1 ==> #[trigger] g1.contains((u, v))
                == g2.contains((u + dx, v + dy)),
    ensures
        next_alive(rule, g1, x, y) == next_alive(rule, g2, x + dx, y + dy),
{
    assert(g1.contains((x - 1, y - 1)) == g2.contains((x - 1 + dx, y - 1 + dy)));
    assert(g1.contains((x, y - 1)) == g2.contains((x + dx, y - 1 + dy)));
    assert(g1.contains((x + 1, y - 1)) == g2.contains((x + 1 + dx, y - 1 + dy)));
    assert(g1.contains((x - 1, y)) == g2.contains((x - 1 + dx, y + dy)));
    assert(g1.contains((x, y)) == g2.contains((x + dx, y + dy)));
    assert(g1.contains((x + 1, y)) == g2.contains((x + 1 + dx, y + dy)));
    assert(g1.contains((x - 1, y + 1)) == g2.contains((x - 1 + dx, y + 1 + dy)));
    assert(g1.contains((x, y + 1)) == g2.contains((x + dx, y + 1 + dy)));
    assert(g1.contains((x + 1, y + 1)) == g2.contains((x + 1 + dx, y + 1 + dy)));
}

/// Information travels one cell per generation: the state of a cell after
/// `t` generations depends only on the cells within distance `t` of it.
pub proof fn lemma_iter_local(
    rule: Rule,
    g1: Set<(int, int)>,
    g2: Set<(int, int)>,
    t: nat,
    x: int,
    y: int,
    dx: int,
    dy: int,
)
    requires
        forall|u: int, v: int|
            x - t <= u <= x + t && y - t <= v <= y + t ==> #[trigger] g1.contains((u, v))
                == g2.contains((u + dx, v + dy)),
    ensures
        life_iter(rule, g1, t).contains((x, y)) == life_iter(rule, g2, t).contains(
            (x + dx, y + dy),
        ),
    decreases t,
{
    if t == 0 {
        assert(g1.contains((x, y)) == g2.contains((x + dx, y + dy)));
    } else {
        let s = (t - 1) as nat;
        let h1 = life_iter(rule, g1, s);
        let h2 = life_iter(rule, g2, s);
        assert forall|u: int, v: int|
            x - 1 <= u <= x + 1 && y - 1 <= v <= y + 1 implies #[trigger] h1.contains((u, v))
            == h2.contains((u + dx, v + dy)) by {
            lemma_iter_local(rule, g1, g2, s, u, v, dx, dy);
        }
        lemma_next_local(rule, h1, h2, x, y, dx, dy);
    }
}

/// Generations add up.
pub proof fn lemma_iter_add(rule: Rule, g: Set<(int, int)>, a: nat, b: nat)
    ensures
        life_iter(rule, g, a + b) == life_iter(rule, life_iter(rule, g, a), b),
    decreases b,
{
    if b > 0 {
        lemma_iter_add(rule, g, a, (b - 1) as nat);
        assert((a + b - 1) as nat == a + (b - 1) as nat);
    }
}

/// A pattern grows by at most one cell per generation in each direction.
pub proof fn lemma_iter_within(rule: Rule, g: Set<(int, int)>, t: nat, lo: int, hi: int)
    requires
        rule.wf(),
        within(g, lo, hi),
    ensures
        within(life_iter(rule, g, t), lo - t, hi + t),
    decreases t,
{
    if t > 0 {
        let s = (t - 1) as nat;
        let h = life_iter(rule, g, s);
        lemma_iter_within(rule, g, s, lo, hi);
        assert forall|p: (int, int)| #[trigger]
            life_iter(rule, g, t).contains(p) implies lo - t <= p.0 < hi + t && lo - t <= p.1 < hi
            + t by {
            let (x, y) = p;
            assert(next_alive(rule, h, x, y));
            if !(lo - t <= x < hi + t && lo - t <= y < hi + t) {
                assert(!h.contains((x - 1, y - 1)));
                assert(!h.contains((x, y - 1)));
                assert(!h.contains((x + 1, y - 1)));
                assert(!h.contains((x - 1, y)));
                assert(!h.contains((x, y)));
                assert(!h.contains((x + 1, y)));
                assert(!h.contains((x - 1, y + 1)));
                assert(!h.contains((x, y + 1)));
                assert(!h.contains((x + 1, y + 1)));
                assert(neighbor_count(h, x, y) == 0);
            }
        }
    }
}

/// What a macrocell's result shows: if `a`, of half-width `2 * w`, shows `g`
/// after `t` generations around `(cx, cy)`, and `r` shows the centre of `a`
/// after `e` more generations, with `e` at most `w`, then `r` shows `g` after
/// `t + e` generations around `(cx, cy)`.
pub proof fn lemma_shows_step(
    rule: Rule,
    a: Set<(int, int)>,
    r: Set<(int, int)>,
    cx: int,
    cy: int,
    w: int,
    g: Set<(int, int)>,
    t: nat,
    e: nat,
)
    requires
        shows(a, cx, cy, 2 * w, life_iter(rule, g, t)),
        shows(r, 0, 0, w, life_iter(rule, a, e)),
        e <= w,
    ensures
        shows(r, cx, cy, w, life_iter(rule, g, t + e)),
{
    reveal(shows);
    let s = life_iter(rule, g, t);
    assert forall|x: int, y: int| -w <= x < w && -w <= y < w implies #[trigger] r.contains((x, y))
        == life_iter(rule, g, t + e).contains((x + cx, y + cy)) by {
        assert(r.contains((x, y)) == life_iter(rule, a, e).contains((x + 0, y + 0)));
        assert forall|u: int, v: int|
            x - e <= u <= x + e && y - e <= v <= y + e implies #[trigger] a.contains((u, v))
            == s.contains((u + cx, v + cy)) by {}
        lemma_iter_local(rule, a, s, e, x, y, cx, cy);
        lemma_iter_add(rule, g, t, e);
    }
}

/// Nothing shows nothing.
pub proof fn lemma_shows_empty(
    a: Set<(int, int)>,
    cx: int,
    cy: int,
    w: int,
    s: Set<(int, int)>,
)
    requires
        forall|p: (int, int)| !a.contains(p),
        forall|p: (int, int)| !s.contains(p),
    ensures
        shows(a, cx, cy, w, s),
{
    reveal(shows);
}

/// Every pattern shows itself.
pub proof fn lemma_shows_self(g: Set<(int, int)>, w: int)
    ensures
        shows(g, 0, 0, w, g),
{
    reveal(shows);
}

/// The square that straddles two squares side by side shows what they show,
/// in between.
pub proof fn lemma_hwindow(
    w: (Set<(int, int)>, Set<(int, int)>, Set<(int, int)>, Set<(int, int)>),
    e: (Set<(int, int)>, Set<(int, int)>, Set<(int, int)>, Set<(int, int)>),
    r: int,
    cx: int,
    cy: int,
    s: Set<(int, int)>,
)
    requires
        shows(assembled(w.0, w.1, w.2, w.3, r), cx - 2 * r, cy, 2 * r, s),
        shows(assembled(e.0, e.1, e.2, e.3, r), cx + 2 * r, cy, 2 * r, s),
    ensures
        shows(assembled(w.1, e.0, w.3, e.2, r), cx, cy, 2 * r, s),
{
    lemma_quadrants_show(w.0, w.1, w.2, w.3, r, cx - 2 * r, cy, s);
    lemma_quadrants_show(e.0, e.1, e.2, e.3, r, cx + 2 * r, cy, s);
    lemma_assemble_shows(w.1, e.0, w.3, e.2, r, cx, cy, s);
}

/// The square that straddles two squares one above the other shows what they
/// show, in between.
pub proof fn lemma_vwindow(
    n: (Set<(int, int)>, Set<(int, int)>, Set<(int, int)>, Set<(int, int)>),
    z: (Set<(int, int)>, Set<(int, int)>, Set<(int, int)>, Set<(int, int)>),
    r: int,
    cx: int,
    cy: int,
    s: Set<(int, int)>,
)
    requires
        shows(assembled(n.0, n.1, n.2, n.3, r), cx, cy - 2 * r, 2 * r, s),
        shows(assembled(z.0, z.1, z.2, z.3, r), cx, cy + 2 * r, 2 * r, s),
    ensures
        shows(assembled(n.2, n.3, z.0, z.1, r), cx, cy, 2 * r, s),
{
    lemma_quadrants_show(n.0, n.1, n.2, n.3, r, cx, cy - 2 * r, s);
    lemma_quadrants_show(z.0, z.1, z.2, z.3, r, cx, cy + 2 * r, s);
    lemma_assemble_shows(n.2, n.3, z.0, z.1, r, cx, cy, s);
}

/// The square in the middle of four squares shows what they show, in the
/// middle.
pub proof fn lemma_cwindow(
    nw: (Set<(int, int)>, Set<(int, int)>, Set<(int, int)>, Set<(int, int)>),
    ne: (Set<(int, int)>, Set<(int, int)>, Set<(int, int)>, Set<(int, int)>),
    sw: (Set<(int, int)>, Set<(int, int)>, Set<(int, int)>, Set<(int, int)>),
    se: (Set<(int, int)>, Set<(int, int)>, Set<(int, int)>, Set<(int, int)>),
    r: int,
    cx: int,
    cy: int,
    s: Set<(int, int)>,
)
    requires
        shows(assembled(nw.0, nw.1, nw.2, nw.3, r), cx - 2 * r, cy - 2 * r, 2 * r, s),
        shows(assembled(ne.0, ne.1, ne.2, ne.3, r), cx + 2 * r, cy - 2 * r, 2 * r, s),
        shows(assembled(sw.0, sw.1, sw.2, sw.3, r), cx - 2 * r, cy + 2 * r, 2 * r, s),
        shows(assembled(se.0, se.1, se.2, se.3, r), cx + 2 * r, cy + 2 * r, 2 * r, s),
    ensures
        shows(assembled(nw.3, ne.2, sw.1, se.0, r), cx, cy, 2 * r, s),
{
    lemma_quadrants_show(nw.0, nw.1, nw.2, nw.3, r, cx - 2 * r, cy - 2 * r, s);
    lemma_quadrants_show(ne.0, ne.1, ne.2, ne.3, r, cx + 2 * r, cy - 2 * r, s);
    lemma_quadrants_show(sw.0, sw.1, sw.2, sw.3, r, cx - 2 * r, cy + 2 * r, s);
    lemma_quadrants_show(se.0, se.1, se.2, se.3, r, cx + 2 * r, cy + 2 * r, s);
    lemma_assemble_shows(nw.3, ne.2, sw.1, se.0, r, cx, cy, s);
}

/// The pattern `g` with the cell at `(x, y)` made alive or dead.
pub open spec fn with_cell(g: Set<(int, int)>, x: int, y: int, alive: bool) -> Set<(int, int)> {
    if alive {
        g.insert((x, y))
    } else {
        g.remove((x, y))
    }
}

/// Changing a cell of a square changes that cell in one of its quadrants.
pub proof fn lemma_assembled_update(
    nw: Set<(int, int)>,
    ne: Set<(int, int)>,
    sw: Set<(int, int)>,
    se: Set<(int, int)>,
    r: int,
    x: int,
    y: int,
    alive: bool,
)
    ensures
        with_cell(assembled(nw, ne, sw, se, r), x, y, alive) == (if x < 0 {
            if y < 0 {
                assembled(with_cell(nw, x + r, y + r, alive), ne, sw, se, r)
            } else {
                assembled(nw, ne, with_cell(sw, x + r, y - r, alive), se, r)
            }
        } else {
            if y < 0 {
                assembled(nw, with_cell(ne, x - r, y + r, alive), sw, se, r)
            } else {
                assembled(nw, ne, sw, with_cell(se, x - r, y - r, alive), r)
            }
        }),
{
    let a = with_cell(assembled(nw, ne, sw, se, r), x, y, alive);
    let b = if x < 0 {
        if y < 0 {
            assembled(with_cell(nw, x + r, y + r, alive), ne, sw, se, r)
        } else {
            assembled(nw, ne, with_cell(sw, x + r, y - r, alive), se, r)
        }
    } else {
        if y < 0 {
            assembled(nw, with_cell(ne, x - r, y + r, alive), sw, se, r)
        } else {
            assembled(nw, ne, sw, with_cell(se, x - r, y - r, alive), r)
        }
    };
    assert forall|p: (int, int)| a.contains(p) == b.contains(p) by {
        if p == (x, y) {
        } else {
            assert((p.0 + r, p.1 + r) != (x + r, y + r));
            assert((p.0 + r, p.1 - r) != (x + r, y - r));
            assert((p.0 - r, p.1 + r) != (x - r, y + r));
            assert((p.0 - r, p.1 - r) != (x - r, y - r));
        }
    }
    assert(a =~= b);
}

/// A square surrounded by nothing is the same pattern in a square of twice
/// the size.
pub proof fn lemma_expand_grid(
    a: Set<(int, int)>,
    b: Set<(int, int)>,
    c: Set<(int, int)>,
    d: Set<(int, int)>,
    e: Set<(int, int)>,
    r: int,
)
    requires
        within(a, -r, r),
        within(b, -r, r),
        within(c, -r, r),
        within(d, -r, r),
        forall|p: (int, int)| !e.contains(p),
    ensures
        assembled(
            assembled(e, e, e, a, r),
            assembled(e, e, b, e, r),
            assembled(e, c, e, e, r),
            assembled(d, e, e, e, r),
            2 * r,
        ) == assembled(a, b, c, d, r),
{
    let big = assembled(
        assembled(e, e, e, a, r),
        assembled(e, e, b, e, r),
        assembled(e, c, e, e, r),
        assembled(d, e, e, e, r),
        2 * r,
    );
    let small = assembled(a, b, c, d, r);
    assert forall|p: (int, int)| big.contains(p) == small.contains(p) by {
        let (x, y) = p;
        if x < 0 {
            if y < 0 {
                let q = assembled(e, e, e, a, r);
                assert(big.contains(p) == q.contains((x + 2 * r, y + 2 * r)));
                if a.contains((x + r, y + r)) {
                    assert(q.contains((x + 2 * r, y + 2 * r)));
                }
            } else {
                let q = assembled(e, c, e, e, r);
                assert(big.contains(p) == q.contains((x + 2 * r, y - 2 * r)));
                if c.contains((x + r, y - r)) {
                    assert(q.contains((x + 2 * r, y - 2 * r)));
                }
            }
        } else {
            if y < 0 {
                let q = assembled(e, e, b, e, r);
                assert(big.contains(p) == q.contains((x - 2 * r, y + 2 * r)));
                if b.contains((x - r, y + r)) {
                    assert(q.contains((x - 2 * r, y + 2 * r)));
                }
            } else {
                let q = assembled(d, e, e, e, r);
                assert(big.contains(p) == q.contains((x - 2 * r, y - 2 * r)));
                if d.contains((x - r, y - r)) {
                    assert(q.contains((x - 2 * r, y - 2 * r)));
                }
            }
        }
    }
    assert(big =~= small);
}

} // verus!
