//! Reading the universe out: the leaves that hold live cells.

use crate::bits::{lemma_bit_widths, quad_alive, quad_grid};
use crate::canon::lemma_leaf_live;
use crate::bounds::{
    bounds, bounds_of, lemma_bounds, lemma_shifted_union, shifted, Boundary,
};
use crate::rows::{bit128, leaf_row};
use crate::canon::is_empty_grid;
use crate::envelope::{lemma_half_63, lemma_half_increases, radius, LATTICE_RADIUS};
use crate::node::{LeafNodeKey, Node, NodeId};
use crate::store::{
    half, lemma_grid_within, node_ok, lemma_half, lemma_same_key, level_of, node_grid, node_of, valid_id,
};
use crate::universe::{lemma_empty_grid, Universe};
use vstd::prelude::*;

verus! {

/// An 8x8 square of cells and the place of its north-west corner.
#[derive(Clone, Copy, Debug)]
pub struct CellData {
    pub nw: u16,
    pub ne: u16,
    pub sw: u16,
    pub se: u16,
    pub x: i64,
    pub y: i64,
}

impl CellData {
    /// The live cells of the square, at their places in the universe.
    pub open spec fn grid(&self) -> Set<(int, int)> {
        shifted(
            (LeafNodeKey { nw: self.nw, ne: self.ne, sw: self.sw, se: self.se }).grid(),
            self.x + 4,
            self.y + 4,
        )
    }
}

/// The live cells of all the squares of `items`.
pub open spec fn union_of(items: Seq<CellData>) -> Set<(int, int)> {
    Set::new(|p: (int, int)| exists|i: int| 0 <= i < items.len() && #[trigger] items[i].grid().contains(p))
}

/// Every square of `items` has a live cell.
pub open spec fn all_live(items: Seq<CellData>) -> bool {
    forall|i: int| 0 <= i < items.len() ==> !is_empty_grid(#[trigger] items[i].grid())
}

/// The squares of two sequences, one after the other, hold what the two
/// sequences hold.
pub proof fn lemma_union_concat(a: Seq<CellData>, b: Seq<CellData>)
    ensures
        forall|p: (int, int)|
            union_of(a + b).contains(p) == (union_of(a).contains(p) || union_of(b).contains(p)),
        all_live(a) && all_live(b) ==> all_live(a + b),
{
    let s = a + b;
    assert forall|p: (int, int)|
        union_of(s).contains(p) == (union_of(a).contains(p) || union_of(b).contains(p)) by {
        if union_of(s).contains(p) {
            let i = choose|i: int| 0 <= i < s.len() && #[trigger] s[i].grid().contains(p);
            if i < a.len() {
                assert(a[i].grid().contains(p));
            } else {
                assert(b[i - a.len()].grid().contains(p));
            }
        }
        if union_of(a).contains(p) {
            let i = choose|i: int| 0 <= i < a.len() && #[trigger] a[i].grid().contains(p);
            assert(s[i].grid().contains(p));
        }
        if union_of(b).contains(p) {
            let i = choose|i: int| 0 <= i < b.len() && #[trigger] b[i].grid().contains(p);
            assert(s[i + a.len()].grid().contains(p));
        }
    }
    if all_live(a) && all_live(b) {
        assert forall|i: int| 0 <= i < s.len() implies !is_empty_grid(#[trigger] s[i].grid()) by {
            if i < a.len() {
                assert(!is_empty_grid(a[i].grid()));
            } else {
                assert(!is_empty_grid(b[i - a.len()].grid()));
            }
        }
    }
}

/// The cell `p` lies inside the box `v`.
pub open spec fn in_view(v: Boundary, p: (int, int)) -> bool {
    v.0 <= p.0 < v.2 && v.1 <= p.1 < v.3
}

/// The square with the north-west corner `(x, y)` and the given side has a
/// cell inside the box `v`.
pub open spec fn meets(v: Boundary, x: int, y: int, side: int) -> bool {
    x < v.2 && v.0 < x + side && y < v.3 && v.1 < y + side
}

/// `items` are squares of the pattern `g` for the viewport `v`: each of them
/// has a live cell and a cell inside `v`, their live cells are live cells of
/// `g`, and every live cell of `g` inside `v` is a live cell of one of them.
pub open spec fn view_of(items: Seq<CellData>, g: Set<(int, int)>, v: Boundary) -> bool {
    &&& all_live(items)
    &&& forall|i: int|
        0 <= i < items.len() ==> meets(v, (#[trigger] items[i]).x as int, items[i].y as int, 8)
    &&& forall|p: (int, int)| #[trigger] union_of(items).contains(p) ==> g.contains(p)
    &&& forall|p: (int, int)| in_view(v, p) && #[trigger] g.contains(p) ==> union_of(items).contains(p)
}

/// The leaves below the macrocell `id`, whose centre lies at `(ox, oy)`, that
/// hold live cells and have a cell inside the viewport `v`, each with the
/// place of its north-west corner: quadrant by quadrant, north-west,
/// north-east, south-west, south-east.
pub open spec fn leaves(nodes: Seq<Node>, id: NodeId, ox: int, oy: int, v: Boundary) -> Seq<
    CellData,
>
    decreases id.0,
{
    let h = half(level_of(nodes, id));
    if !valid_id(nodes, id) || is_empty_grid(node_grid(nodes, id)) || !meets(
        v,
        ox - h,
        oy - h,
        2 * h,
    ) {
        Seq::empty()
    } else {
        match node_of(nodes, id) {
            Node::Leaf(l) => seq![
                CellData {
                    nw: l.key.nw,
                    ne: l.key.ne,
                    sw: l.key.sw,
                    se: l.key.se,
                    x: (ox - 4) as i64,
                    y: (oy - 4) as i64,
                },
            ],
            Node::Internal(n) => {
                let r = half(n.level - 1);
                if n.key.nw.0 < id.0 && n.key.ne.0 < id.0 && n.key.sw.0 < id.0 && n.key.se.0
                    < id.0 {
                    leaves(nodes, n.key.nw, ox - r, oy - r, v) + leaves(
                        nodes,
                        n.key.ne,
                        ox + r,
                        oy - r,
                        v,
                    ) + leaves(nodes, n.key.sw, ox - r, oy + r, v) + leaves(
                        nodes,
                        n.key.se,
                        ox + r,
                        oy + r,
                        v,
                    )
                } else {
                    Seq::empty()
                }
            },
        }
    }
}

/// The squares of `items` lie inside the box from `(x0, y0)` to `(x1, y1)`.
pub open spec fn all_inside(items: Seq<CellData>, x0: int, y0: int, x1: int, y1: int) -> bool {
    forall|i: int|
        0 <= i < items.len() ==> x0 <= (#[trigger] items[i]).x && items[i].x + 8 <= x1 && y0
            <= items[i].y && items[i].y + 8 <= y1
}

/// No two squares of `items` lie at the same place.
pub open spec fn all_apart(items: Seq<CellData>) -> bool {
    forall|i: int, j: int|
        0 <= i < j < items.len() ==> (#[trigger] items[i]).x != (#[trigger] items[j]).x
            || items[i].y != items[j].y
}

/// No square of `a` lies at the place of a square of `b`.
pub open spec fn apart_from(a: Seq<CellData>, b: Seq<CellData>) -> bool {
    forall|i: int, j: int|
        0 <= i < a.len() && 0 <= j < b.len() ==> (#[trigger] a[i]).x != (#[trigger] b[j]).x
            || a[i].y != b[j].y
}

/// Squares in two boxes side by side, or one above the other, lie at
/// different places.
proof fn lemma_boxes_apart(
    a: Seq<CellData>,
    b: Seq<CellData>,
    a0: (int, int),
    a1: (int, int),
    b0: (int, int),
    b1: (int, int),
)
    requires
        all_inside(a, a0.0, a0.1, a1.0, a1.1),
        all_inside(b, b0.0, b0.1, b1.0, b1.1),
        a1.0 <= b0.0 || b1.0 <= a0.0 || a1.1 <= b0.1 || b1.1 <= a0.1,
    ensures
        apart_from(a, b),
{
}

/// Squares that are apart among themselves and from each other are apart
/// when put one after the other.
proof fn lemma_apart_concat(a: Seq<CellData>, b: Seq<CellData>, c: Seq<CellData>)
    requires
        all_apart(a),
        all_apart(b),
        apart_from(a, b),
        apart_from(a, c),
        apart_from(b, c),
    ensures
        all_apart(a + b),
        apart_from(a + b, c),
{
    let s = a + b;
    assert forall|i: int, j: int| 0 <= i < j < s.len() implies (#[trigger] s[i]).x != (
    #[trigger] s[j]).x || s[i].y != s[j].y by {
        if j < a.len() {
            assert(s[i] == a[i] && s[j] == a[j]);
        } else if i >= a.len() {
            assert(s[i] == b[i - a.len()] && s[j] == b[j - a.len()]);
        } else {
            assert(s[i] == a[i] && s[j] == b[j - a.len()]);
        }
    }
    assert forall|i: int, j: int| 0 <= i < s.len() && 0 <= j < c.len() implies (
    #[trigger] s[i]).x != (#[trigger] c[j]).x || s[i].y != c[j].y by {
        if i < a.len() {
            assert(s[i] == a[i]);
        } else {
            assert(s[i] == b[i - a.len()]);
        }
    }
}

/// Squares inside a box lie inside every box around it, and so do they when
/// put one after the other.
proof fn lemma_inside_concat(
    a: Seq<CellData>,
    b: Seq<CellData>,
    a0: (int, int),
    a1: (int, int),
    b0: (int, int),
    b1: (int, int),
    x0: int,
    y0: int,
    x1: int,
    y1: int,
)
    requires
        all_inside(a, a0.0, a0.1, a1.0, a1.1),
        all_inside(b, b0.0, b0.1, b1.0, b1.1),
        x0 <= a0.0 && x0 <= b0.0 && y0 <= a0.1 && y0 <= b0.1,
        a1.0 <= x1 && b1.0 <= x1 && a1.1 <= y1 && b1.1 <= y1,
    ensures
        all_inside(a + b, x0, y0, x1, y1),
{
    let s = a + b;
    assert forall|i: int| 0 <= i < s.len() implies x0 <= (#[trigger] s[i]).x && s[i].x + 8 <= x1
        && y0 <= s[i].y && s[i].y + 8 <= y1 by {
        if i < a.len() {
            assert(s[i] == a[i]);
        } else {
            assert(s[i] == b[i - a.len()]);
        }
    }
}

/// The leaves that are written out of a macrocell lie inside it, each at a
/// place of its own.
pub proof fn lemma_leaves_apart(
    nodes: Seq<Node>,
    rule: crate::rule::Rule,
    id: NodeId,
    ox: int,
    oy: int,
    v: Boundary,
)
    requires
        crate::store::nodes_ok(nodes, rule),
        valid_id(nodes, id),
        -LATTICE_RADIUS <= ox - half(level_of(nodes, id)),
        ox + half(level_of(nodes, id)) <= LATTICE_RADIUS,
        -LATTICE_RADIUS <= oy - half(level_of(nodes, id)),
        oy + half(level_of(nodes, id)) <= LATTICE_RADIUS,
    ensures
        all_apart(leaves(nodes, id, ox, oy, v)),
        all_inside(
            leaves(nodes, id, ox, oy, v),
            ox - half(level_of(nodes, id)),
            oy - half(level_of(nodes, id)),
            ox + half(level_of(nodes, id)),
            oy + half(level_of(nodes, id)),
        ),
    decreases id.0,
{
    let l = level_of(nodes, id);
    let h = half(l);
    let out = leaves(nodes, id, ox, oy, v);
    crate::store::lemma_kind(nodes, rule, id);
    assert(node_ok(nodes, rule, id.0 as int - 1));
    if is_empty_grid(node_grid(nodes, id)) || !meets(v, ox - h, oy - h, 2 * h) {
        assert(out =~= Seq::<CellData>::empty());
    } else {
        match node_of(nodes, id) {
            Node::Leaf(leaf) => {
                vstd::arithmetic::power2::lemma2_to64();
                assert(h == 4);
                assert(out.len() == 1);
            },
            Node::Internal(n) => {
                crate::store::lemma_internal(nodes, rule, id);
                lemma_half(l - 1);
                let r = half(l - 1);
                let a = leaves(nodes, n.key.nw, ox - r, oy - r, v);
                let b = leaves(nodes, n.key.ne, ox + r, oy - r, v);
                let c = leaves(nodes, n.key.sw, ox - r, oy + r, v);
                let d = leaves(nodes, n.key.se, ox + r, oy + r, v);
                lemma_leaves_apart(nodes, rule, n.key.nw, ox - r, oy - r, v);
                lemma_leaves_apart(nodes, rule, n.key.ne, ox + r, oy - r, v);
                lemma_leaves_apart(nodes, rule, n.key.sw, ox - r, oy + r, v);
                lemma_leaves_apart(nodes, rule, n.key.se, ox + r, oy + r, v);
                lemma_boxes_apart(a, b, (ox - h, oy - h), (ox, oy), (ox, oy - h), (ox + h, oy));
                lemma_boxes_apart(a, c, (ox - h, oy - h), (ox, oy), (ox - h, oy), (ox, oy + h));
                lemma_boxes_apart(a, d, (ox - h, oy - h), (ox, oy), (ox, oy), (ox + h, oy + h));
                lemma_boxes_apart(b, c, (ox, oy - h), (ox + h, oy), (ox - h, oy), (ox, oy + h));
                lemma_boxes_apart(b, d, (ox, oy - h), (ox + h, oy), (ox, oy), (ox + h, oy + h));
                lemma_boxes_apart(c, d, (ox - h, oy), (ox, oy + h), (ox, oy), (ox + h, oy + h));
                lemma_apart_concat(a, b, c);
                lemma_apart_concat(a, b, d);
                lemma_apart_concat(a + b, c, d);
                lemma_apart_concat((a + b) + c, d, Seq::<CellData>::empty());
                lemma_inside_concat(
                    a,
                    b,
                    (ox - h, oy - h),
                    (ox, oy),
                    (ox, oy - h),
                    (ox + h, oy),
                    ox - h,
                    oy - h,
                    ox + h,
                    oy + h,
                );
                lemma_inside_concat(
                    a + b,
                    c,
                    (ox - h, oy - h),
                    (ox + h, oy + h),
                    (ox - h, oy),
                    (ox, oy + h),
                    ox - h,
                    oy - h,
                    ox + h,
                    oy + h,
                );
                lemma_inside_concat(
                    (a + b) + c,
                    d,
                    (ox - h, oy - h),
                    (ox + h, oy + h),
                    (ox, oy),
                    (ox + h, oy + h),
                    ox - h,
                    oy - h,
                    ox + h,
                    oy + h,
                );
                assert(out == ((a + b) + c) + d);
            },
        }
    }
}

/// The squares of two patterns for a viewport, one after the other, are the
/// squares of the two patterns together.
pub proof fn lemma_view_concat(
    a: Seq<CellData>,
    b: Seq<CellData>,
    ga: Set<(int, int)>,
    gb: Set<(int, int)>,
    v: Boundary,
)
    requires
        view_of(a, ga, v),
        view_of(b, gb, v),
    ensures
        view_of(a + b, ga.union(gb), v),
{
    lemma_union_concat(a, b);
    let s = a + b;
    assert forall|i: int| 0 <= i < s.len() implies meets(
        v,
        (#[trigger] s[i]).x as int,
        s[i].y as int,
        8,
    ) by {
        if i < a.len() {
            assert(s[i] == a[i]);
        } else {
            assert(s[i] == b[i - a.len()]);
        }
    }
    assert forall|p: (int, int)| #[trigger] union_of(s).contains(p) implies ga.union(gb).contains(
        p,
    ) by {
        if union_of(a).contains(p) {
            assert(ga.contains(p));
        } else {
            assert(union_of(b).contains(p));
            assert(gb.contains(p));
        }
    }
    assert forall|p: (int, int)| in_view(v, p) && #[trigger] ga.union(gb).contains(
        p,
    ) implies union_of(s).contains(p) by {
        if ga.contains(p) {
            assert(union_of(a).contains(p));
        } else {
            assert(gb.contains(p));
            assert(union_of(b).contains(p));
        }
    }
}

impl Universe {
    /// The leaves of the universe that hold live cells, from north-west to
    /// south-east quadrant by quadrant, each with the place of its north-west
    /// corner.
    pub fn write_cells(&self) -> (out: Vec<CellData>)
        requires
            self.wf(),
        ensures
            out@ == leaves(self.store(), self.spec_root(), 0, 0, (i64::MIN, i64::MIN, i64::MAX, i64::MAX)),
            union_of(out@) == self.cells(),
            all_live(out@),
    {
        let all = (i64::MIN, i64::MIN, i64::MAX, i64::MAX);
        let out = self.write_cells_in(all);
        proof {
            reveal(Universe::inv);
            crate::store::lemma_kind(self.nodes@, self.rule, self.root);
            lemma_half_63();
            lemma_half_increases(self.spec_level_of(self.spec_root()), 63);
            lemma_grid_within(self.nodes@, self.rule, self.root);
            assert forall|p: (int, int)| union_of(out@).contains(p) == self.cells().contains(p) by {
                if self.cells().contains(p) {
                    assert(in_view(all, p));
                }
            }
            assert(union_of(out@) =~= self.cells());
        }
        out
    }

    /// The leaves of the universe that hold live cells and have a cell inside
    /// the viewport `(left, top, right, bottom)`, of which `right` and
    /// `bottom` are exclusive.
    pub fn write_cells_in(&self, viewport: Boundary) -> (out: Vec<CellData>)
        requires
            self.wf(),
        ensures
            out@ == leaves(self.store(), self.spec_root(), 0, 0, viewport),
            view_of(out@, self.cells(), viewport),
    {
        let mut out: Vec<CellData> = Vec::new();
        proof {
            reveal(Universe::inv);
            crate::store::lemma_kind(self.nodes@, self.rule, self.root);
            lemma_half_63();
            lemma_half_increases(self.spec_level_of(self.spec_root()), 63);
        }
        self.write_cells_rec(self.root, 0, 0, viewport, &mut out);
        proof {
            assert(out@.subrange(0, out@.len() as int) =~= out@);
            assert(shifted(self.cells(), 0, 0) =~= self.cells());
            assert(Seq::<CellData>::empty() + out@ =~= out@);
        }
        out
    }

    /// Appends to `out` the leaves of the macrocell `node`, whose centre lies
    /// at `(ox, oy)`, that hold live cells and have a cell inside the
    /// viewport. Macrocells that lie outside the viewport are passed over
    /// whole.
    #[verifier::rlimit(40)]
    pub fn write_cells_rec(
        &self,
        node: NodeId,
        ox: i64,
        oy: i64,
        viewport: Boundary,
        out: &mut Vec<CellData>,
    )
        requires
            self.inv(),
            self.valid(node),
            self.spec_level_of(node) <= 63,
            -LATTICE_RADIUS <= ox - half(self.spec_level_of(node)),
            ox + half(self.spec_level_of(node)) <= LATTICE_RADIUS,
            -LATTICE_RADIUS <= oy - half(self.spec_level_of(node)),
            oy + half(self.spec_level_of(node)) <= LATTICE_RADIUS,
        ensures
            final(out)@.len() >= old(out)@.len(),
            final(out)@.subrange(0, old(out)@.len() as int) == old(out)@,
            view_of(
                final(out)@.subrange(old(out)@.len() as int, final(out)@.len() as int),
                shifted(self.grid(node), ox as int, oy as int),
                viewport,
            ),
            final(out)@ == old(out)@ + leaves(self.store(), node, ox as int, oy as int, viewport),
        decreases self.spec_level_of(node),
    {
        let ghost start = out@;
        let ghost g = shifted(self.grid(node), ox as int, oy as int);
        let ghost want = leaves(self.store(), node, ox as int, oy as int, viewport);
        proof {
            reveal(Universe::inv);
            crate::store::lemma_kind(self.nodes@, self.rule, node);
            assert(out@.subrange(0, start.len() as int) =~= start);
            lemma_grid_within(self.nodes@, self.rule, node);
            lemma_half_63();
            lemma_half_increases(self.spec_level_of(node), 63);
        }
        let level = self.node_level(node);
        if self.empty_nodes.len() > level as usize && node == self.empty_nodes[level as usize] {
            proof {
                lemma_empty_grid(self.nodes@, self.rule, self.empty_nodes@, level as int);
                let none = out@.subrange(start.len() as int, out@.len() as int);
                assert(union_of(none) =~= g);
                assert(start + want =~= start);
            }
            return ;
        }
        let h = radius(level);
        if !(ox - h < viewport.2 && viewport.0 < ox + h && oy - h < viewport.3 && viewport.1 < oy
            + h) {
            proof {
                let none = out@.subrange(start.len() as int, out@.len() as int);
                assert(union_of(none) =~= Set::<(int, int)>::empty());
                assert forall|p: (int, int)| in_view(viewport, p) implies !#[trigger] g.contains(
                    p,
                ) by {
                    if g.contains(p) {
                        assert(self.grid(node).contains((p.0 - ox, p.1 - oy)));
                    }
                }
                assert(start + want =~= start);
            }
            return ;
        }
        if level == 3 {
            let leaf = self.leaf(node);
            let key = leaf.key;
            let item = CellData {
                nw: key.nw,
                ne: key.ne,
                sw: key.sw,
                se: key.se,
                x: ox - 4,
                y: oy - 4,
            };
            proof {
                vstd::arithmetic::power2::lemma2_to64();
                assert(half(3) == 4);
            }
            out.push(item);
            proof {
                let one = out@.subrange(start.len() as int, out@.len() as int);
                assert(one =~= seq![item]);
                assert(out@.subrange(0, start.len() as int) =~= start);
                assert(item.grid() == g);
                assert forall|p: (int, int)| union_of(one).contains(p) == g.contains(p) by {
                    if g.contains(p) {
                        assert(one[0].grid().contains(p));
                    }
                }
                assert(union_of(one) =~= g);
                let zero = LeafNodeKey { nw: 0, ne: 0, sw: 0, se: 0 };
                if key == zero {
                    assert(crate::store::empty_ok(self.nodes@, self.empty_nodes@, 3));
                    lemma_same_key(
                        crate::index::index_keys(self.index),
                        self.nodes@,
                        node,
                        self.empty_nodes@[3],
                    );
                }
                lemma_leaf_live(key);
                assert(!is_empty_grid(g)) by {
                    let q = choose|q: (int, int)| key.grid().contains(q);
                    assert(g.contains((q.0 + ox, q.1 + oy)));
                }
                assert(want =~= seq![item]);
                assert(out@ =~= start + want);
            }
        } else {
            let key = self.quadrants(node);
            let r = radius(level - 1);
            proof {
                lemma_half(level - 1);
            }
            self.write_cells_rec(key.nw, ox - r, oy - r, viewport, out);
            let ghost s1 = out@;
            self.write_cells_rec(key.ne, ox + r, oy - r, viewport, out);
            let ghost s2 = out@;
            self.write_cells_rec(key.sw, ox - r, oy + r, viewport, out);
            let ghost s3 = out@;
            self.write_cells_rec(key.se, ox + r, oy + r, viewport, out);
            proof {
                let s4 = out@;
                let n0 = start.len() as int;
                let n1 = s1.len() as int;
                let n2 = s2.len() as int;
                let n3 = s3.len() as int;
                let n4 = s4.len() as int;
                let a = s1.subrange(n0, n1);
                let b = s2.subrange(n1, n2);
                let c = s3.subrange(n2, n3);
                let d = s4.subrange(n3, n4);
                assert(s2.subrange(0, n1) == s1);
                assert(s3.subrange(0, n2) == s2);
                assert(s4.subrange(0, n3) == s3);
                assert(s4.subrange(n0, n4) =~= ((a + b) + c) + d) by {
                    assert forall|i: int| n0 <= i < n4 implies s4[i] == (((a + b) + c) + d)[i - n0] by {
                        if i < n1 {
                            assert(s3[i] == s4.subrange(0, n3)[i]);
                            assert(s2[i] == s3.subrange(0, n2)[i]);
                            assert(s1[i] == s2.subrange(0, n1)[i]);
                        } else if i < n2 {
                            assert(s3[i] == s4.subrange(0, n3)[i]);
                            assert(s2[i] == s3.subrange(0, n2)[i]);
                        } else if i < n3 {
                            assert(s3[i] == s4.subrange(0, n3)[i]);
                        }
                    }
                }
                assert(s4.subrange(0, n0) =~= start) by {
                    assert forall|i: int| 0 <= i < n0 implies s4[i] == start[i] by {
                        assert(s3[i] == s4.subrange(0, n3)[i]);
                        assert(s2[i] == s3.subrange(0, n2)[i]);
                        assert(s1[i] == s2.subrange(0, n1)[i]);
                        assert(start[i] == s1.subrange(0, n0)[i]);
                    }
                }
                let ga = shifted(self.grid(key.nw), ox - r, oy - r);
                let gb = shifted(self.grid(key.ne), ox + r, oy - r);
                let gc = shifted(self.grid(key.sw), ox - r, oy + r);
                let gd = shifted(self.grid(key.se), ox + r, oy + r);
                lemma_view_concat(a, b, ga, gb, viewport);
                lemma_view_concat(a + b, c, ga.union(gb), gc, viewport);
                lemma_view_concat((a + b) + c, d, ga.union(gb).union(gc), gd, viewport);
                lemma_grid_within(self.nodes@, self.rule, key.nw);
                lemma_grid_within(self.nodes@, self.rule, key.ne);
                lemma_grid_within(self.nodes@, self.rule, key.sw);
                lemma_grid_within(self.nodes@, self.rule, key.se);
                lemma_shifted_union(
                    self.grid(key.nw),
                    self.grid(key.ne),
                    self.grid(key.sw),
                    self.grid(key.se),
                    r as int,
                    ox as int,
                    oy as int,
                    LATTICE_RADIUS as int,
                );
                assert(ga.union(gb).union(gc).union(gd) =~= g);
                crate::store::lemma_internal(self.nodes@, self.rule, node);
                assert(node_ok(self.nodes@, self.rule, node.0 as int - 1));
                let whole = ((a + b) + c) + d;
                assert(s1 =~= start + a);
                assert(s2 =~= s1 + b);
                assert(s3 =~= s2 + c);
                assert(s4 =~= s3 + d);
                if is_empty_grid(self.grid(node)) {
                    assert(is_empty_grid(g));
                    if whole.len() > 0 {
                        assert(!is_empty_grid(whole[0].grid()));
                        let q = choose|q: (int, int)| whole[0].grid().contains(q);
                        assert(union_of(whole).contains(q));
                    }
                    assert(whole =~= want);
                } else {
                    assert(want =~= whole);
                }
                assert(s4 =~= start + want);
            }
        }
    }
}

/// The leaves of the universe that hold live cells, from north-west to
/// south-east quadrant by quadrant, each with the place of its north-west
/// corner.
pub fn write_cells(univ: &Universe) -> (out: Vec<CellData>)
    requires
        univ.wf(),
    ensures
        out@ == leaves(
            univ.store(),
            univ.spec_root(),
            0,
            0,
            (i64::MIN, i64::MIN, i64::MAX, i64::MAX),
        ),
        union_of(out@) == univ.cells(),
        all_live(out@),
{
    univ.write_cells()
}

/// Why a rectangle of cells could not be written out.
#[derive(Clone, Copy, PartialEq, Eq, Debug, Structural)]
pub enum ExportError {
    /// The universe has no live cell, and so no bounding box.
    EmptyUniverse,
    /// The bounding box has more rows, or more bytes in a row, than a vector
    /// can hold.
    TooLarge,
}

/// Bit `i` of `b`.
pub open spec fn bit8(b: u8, i: int) -> bool {
    0 <= i < 8 && (b >> (i as u8)) & 1u8 == 1u8
}

/// The number of bytes that hold a row of `w` cells.
pub open spec fn row_bytes(w: int) -> int {
    (w + 7) / 8
}

/// `rows` are the rows, from north to south, of the cells of `s` in the box
/// with the north-west corner `(left, top)`, `w` cells wide: eight cells to a
/// byte, the west end in the high bit. No other bit is set.
pub open spec fn buffer_shows(
    rows: Seq<Vec<u8>>,
    s: Set<(int, int)>,
    left: int,
    top: int,
    w: int,
    h: int,
) -> bool {
    &&& rows.len() == h
    &&& forall|y: int| 0 <= y < h ==> (#[trigger] rows[y])@.len() == row_bytes(w)
    &&& forall|y: int, x: int|
        0 <= y < h && 0 <= x < 8 * row_bytes(w) ==> #[trigger] bit8(rows[y]@[x / 8], 7 - x % 8)
            == (x < w && s.contains((left + x, top + y)))
}

proof fn lemma_byte_set(m: u8, k: u8, i: u8)
    by (bit_vector)
    requires
        k < 8,
        i < 8,
    ensures
        ((m | (1u8 << k)) >> i) & 1u8 == (if i == k {
            1u8
        } else {
            (m >> i) & 1u8
        }),
{
}

proof fn lemma_byte_zero(i: u8)
    by (bit_vector)
    requires
        i < 8,
    ensures
        (0u8 >> i) & 1u8 == 0u8,
{
}

/// Rows of zero bytes.
fn blank_rows(
    h: usize,
    bw: usize,
    Ghost(left): Ghost<int>,
    Ghost(top): Ghost<int>,
    Ghost(w): Ghost<int>,
) -> (rows: Vec<Vec<u8>>)
    requires
        bw == row_bytes(w),
    ensures
        buffer_shows(rows@, Set::empty(), left, top, w, h as int),
{
    let mut rows: Vec<Vec<u8>> = Vec::new();
    let mut y: usize = 0;
    while y < h
        invariant
            y <= h,
            bw == row_bytes(w),
            buffer_shows(rows@, Set::empty(), left, top, w, y as int),
        decreases h - y,
    {
        let mut row: Vec<u8> = Vec::new();
        let mut i: usize = 0;
        while i < bw
            invariant
                i <= bw,
                row@.len() == i,
                forall|j: int| 0 <= j < i ==> #[trigger] row@[j] == 0,
            decreases bw - i,
        {
            row.push(0u8);
            i = i + 1;
        }
        let ghost before = rows@;
        rows.push(row);
        proof {
            assert forall|r: int, x: int| 0 <= r < y + 1 && 0 <= x < 8 * row_bytes(w) implies #[trigger] bit8(
                rows@[r]@[x / 8],
                7 - x % 8,
            ) == (x < w && Set::<(int, int)>::empty().contains((left + x, top + r))) by {
                if r < y {
                    assert(rows@[r] == before[r]);
                    assert(bit8(before[r]@[x / 8], 7 - x % 8) == (x < w && Set::<
                        (int, int),
                    >::empty().contains((left + x, top + r))));
                } else {
                    lemma_byte_zero((7 - x % 8) as u8);
                }
            }
            assert forall|r: int| 0 <= r < y + 1 implies (#[trigger] rows@[r])@.len() == row_bytes(
                w,
            ) by {
                if r < y {
                    assert(rows@[r] == before[r]);
                }
            }
        }
        y = y + 1;
    }
    rows
}

/// Sets the bit of the cell in column `x` and row `y` of the box.
fn set_cell(
    rows: &mut Vec<Vec<u8>>,
    x: u64,
    y: usize,
    Ghost(s): Ghost<Set<(int, int)>>,
    Ghost(left): Ghost<int>,
    Ghost(top): Ghost<int>,
    Ghost(w): Ghost<int>,
    Ghost(h): Ghost<int>,
)
    requires
        buffer_shows(old(rows)@, s, left, top, w, h),
        x < w,
        y < h,
    ensures
        buffer_shows(final(rows)@, s.insert((left + x, top + y)), left, top, w, h),
{
    let ghost before = rows@;
    let row_len = rows[y].len();
    proof {
        assert(before[y as int]@.len() == row_bytes(w));
        assert(x / 8 < row_len);
    }
    let bx = (x / 8) as usize;
    let k: u8 = (7 - x % 8) as u8;
    let row = &mut rows[y];
    let old_byte = row[bx];
    row.set(bx, old_byte | (1u8 << k));
    proof {
        let t = s.insert((left + x, top + y));
        assert forall|r: int, c: int| 0 <= r < h && 0 <= c < 8 * row_bytes(w) implies #[trigger] bit8(
            rows@[r]@[c / 8],
            7 - c % 8,
        ) == (c < w && t.contains((left + c, top + r))) by {
            assert(bit8(before[r]@[c / 8], 7 - c % 8) == (c < w && s.contains(
                (left + c, top + r),
            )));
            if r == y {
                if c / 8 == bx {
                    lemma_byte_set(old_byte, k, (7 - c % 8) as u8);
                }
            } else {
                assert(rows@[r] == before[r]);
            }
        }
        assert forall|r: int| 0 <= r < h implies (#[trigger] rows@[r])@.len() == row_bytes(w) by {
            assert(before[r]@.len() == row_bytes(w));
            if r != y {
                assert(rows@[r] == before[r]);
            }
        }
    }
}

/// The cells of `item` in its first `j` rows, and in row `j` the first `c`.
pub open spec fn part(item: CellData, j: int, c: int) -> Set<(int, int)> {
    Set::new(
        |p: (int, int)|
            item.grid().contains(p) && (p.1 - item.y < j || (p.1 - item.y == j && p.0 - item.x
                < c)),
    )
}

/// Sets the bits of the live cells of `item`.
#[verifier::rlimit(50)]
fn write_item(
    rows: &mut Vec<Vec<u8>>,
    item: &CellData,
    left: i64,
    top: i64,
    Ghost(s): Ghost<Set<(int, int)>>,
    Ghost(w): Ghost<int>,
    Ghost(h): Ghost<int>,
)
    requires
        buffer_shows(old(rows)@, s, left as int, top as int, w, h),
        forall|p: (int, int)|
            #[trigger] item.grid().contains(p) ==> left <= p.0 < left + w && top <= p.1 < top + h,
        0 <= w <= u64::MAX,
        0 <= h <= usize::MAX,
        row_bytes(w) <= usize::MAX,
    ensures
        buffer_shows(final(rows)@, s.union(item.grid()), left as int, top as int, w, h),
{
    let ghost g = item.grid();
    let ghost key = LeafNodeKey { nw: item.nw, ne: item.ne, sw: item.sw, se: item.se };
    let mut j: u16 = 0;
    proof {
        assert(s.union(part(*item, 0, 0)) =~= s);
    }
    while j < 8
        invariant
            j <= 8,
            g == item.grid(),
            key == (LeafNodeKey { nw: item.nw, ne: item.ne, sw: item.sw, se: item.se }),
            buffer_shows(rows@, s.union(part(*item, j as int, 0)), left as int, top as int, w, h),
            forall|p: (int, int)|
                #[trigger] g.contains(p) ==> left <= p.0 < left + w && top <= p.1 < top + h,
            0 <= w <= u64::MAX,
            0 <= h <= usize::MAX,
            row_bytes(w) <= usize::MAX,
        decreases 8 - j,
    {
        let row = if j < 4 {
            leaf_row(item.nw, item.ne, j)
        } else {
            leaf_row(item.sw, item.se, j - 4)
        };
        proof {
            assert forall|c: int| 0 <= c < 8 implies #[trigger] bit128(row as u128, 7 - c)
                == g.contains((item.x + c, item.y + j)) by {
                assert(g.contains((item.x + c, item.y + j)) == key.grid().contains(
                    (c - 4, j - 4),
                ));
                if j < 4 {
                    if c < 4 {
                        assert(quad_grid(item.nw).contains((c - 2, j - 2)) == quad_alive(
                            item.nw,
                            c - 2,
                            j - 2,
                        ));
                    } else {
                        assert(quad_grid(item.ne).contains((c - 6, j - 2)) == quad_alive(
                            item.ne,
                            c - 6,
                            j - 2,
                        ));
                    }
                } else {
                    if c < 4 {
                        assert(quad_grid(item.sw).contains((c - 2, j - 6)) == quad_alive(
                            item.sw,
                            c - 2,
                            j - 6,
                        ));
                    } else {
                        assert(quad_grid(item.se).contains((c - 6, j - 6)) == quad_alive(
                            item.se,
                            c - 6,
                            j - 6,
                        ));
                    }
                }
            }
        }
        let mut c: u16 = 0;
        while c < 8
            invariant
                c <= 8,
                j < 8,
                row < 256,
                g == item.grid(),
                buffer_shows(
                    rows@,
                    s.union(part(*item, j as int, c as int)),
                    left as int,
                    top as int,
                    w,
                    h,
                ),
                forall|p: (int, int)|
                    #[trigger] g.contains(p) ==> left <= p.0 < left + w && top <= p.1 < top + h,
                forall|c: int|
                    0 <= c < 8 ==> #[trigger] bit128(row as u128, 7 - c) == g.contains(
                        (item.x + c, item.y + j),
                    ),
                0 <= w <= u64::MAX,
                0 <= h <= usize::MAX,
                row_bytes(w) <= usize::MAX,
            decreases 8 - c,
        {
            let alive = (row >> (7 - c)) & 1u16 == 1u16;
            proof {
                lemma_bit_widths(row, (7 - c) as u16);
                assert(alive == bit128(row as u128, 7 - c));
            }
            if alive {
                proof {
                    assert(g.contains((item.x + c, item.y + j)));
                }
                let x: u64 = ((item.x as i128 + c as i128) - left as i128) as u64;
                let y: usize = ((item.y as i128 + j as i128) - top as i128) as usize;
                set_cell(
                    rows,
                    x,
                    y,
                    Ghost(s.union(part(*item, j as int, c as int))),
                    Ghost(left as int),
                    Ghost(top as int),
                    Ghost(w),
                    Ghost(h),
                );
                proof {
                    assert(s.union(part(*item, j as int, c as int)).insert(
                        (left + x, top + y),
                    ) =~= s.union(part(*item, j as int, c + 1)));
                }
            } else {
                proof {
                    assert(part(*item, j as int, c as int) =~= part(*item, j as int, c + 1));
                }
            }
            c = c + 1;
        }
        proof {
            assert(part(*item, j as int, 8) =~= part(*item, j + 1, 0)) by {
                assert forall|p: (int, int)|
                    part(*item, j as int, 8).contains(p) == part(*item, j + 1, 0).contains(p) by {
                    if g.contains(p) {
                        lemma_item_box(*item, p);
                    }
                }
            }
        }
        j = j + 1;
    }
    proof {
        assert(part(*item, 8, 0) =~= g) by {
            assert forall|p: (int, int)| part(*item, 8, 0).contains(p) == g.contains(p) by {
                if g.contains(p) {
                    lemma_item_box(*item, p);
                }
            }
        }
    }
}

/// The live cells of a square lie in the eight rows and eight columns from
/// its north-west corner.
pub proof fn lemma_item_box(item: CellData, p: (int, int))
    requires
        item.grid().contains(p),
    ensures
        item.x <= p.0 < item.x + 8,
        item.y <= p.1 < item.y + 8,
{
    crate::bits::lemma_quad_within(item.nw);
    crate::bits::lemma_quad_within(item.ne);
    crate::bits::lemma_quad_within(item.sw);
    crate::bits::lemma_quad_within(item.se);
    let u = p.0 - (item.x + 4);
    let v = p.1 - (item.y + 4);
    if u < 0 {
        if v < 0 {
            assert(quad_grid(item.nw).contains((u + 2, v + 2)));
        } else {
            assert(quad_grid(item.sw).contains((u + 2, v - 2)));
        }
    } else {
        if v < 0 {
            assert(quad_grid(item.ne).contains((u - 2, v + 2)));
        } else {
            assert(quad_grid(item.se).contains((u - 2, v - 2)));
        }
    }
}

/// The cells inside the bounding box of the universe as rows of bytes, from
/// north to south: eight cells to a byte, the west end in the high bit.
pub fn write_buffer(uni: &Universe) -> (r: Result<Vec<Vec<u8>>, ExportError>)
    requires
        uni.wf(),
    ensures
        match r {
            Ok(rows) => {
                let b = bounds(uni.cells());
                &&& !is_empty_grid(uni.cells())
                &&& buffer_shows(rows@, uni.cells(), b.0, b.1, b.2 - b.0, b.3 - b.1)
            },
            Err(ExportError::EmptyUniverse) => is_empty_grid(uni.cells()),
            Err(ExportError::TooLarge) => {
                let b = bounds(uni.cells());
                &&& !is_empty_grid(uni.cells())
                &&& (b.3 - b.1 > usize::MAX || row_bytes(b.2 - b.0) > usize::MAX)
            },
        },
{
    let (left, top, right, bottom) = uni.boundary();
    let ghost cells = uni.cells();
    proof {
        lemma_bounds(cells, (left as int, top as int, right as int, bottom as int));
    }
    if right <= left {
        proof {
            if !is_empty_grid(cells) {
                let p = choose|p: (int, int)| #[trigger] cells.contains(p) && p.0 == left;
                assert(cells.contains(p));
            }
        }
        return Err(ExportError::EmptyUniverse);
    }
    proof {
        assert(!is_empty_grid(cells));
        let p0 = choose|p: (int, int)| #[trigger] cells.contains(p) && p.1 == top;
        assert(cells.contains(p0));
    }
    let w: u64 = (right as i128 - left as i128) as u64;
    let h: u64 = (bottom as i128 - top as i128) as u64;
    let bw: u64 = w / 8 + (if w % 8 == 0 {
        0
    } else {
        1
    });
    if h > usize::MAX as u64 || bw > usize::MAX as u64 {
        return Err(ExportError::TooLarge);
    }
    let mut rows = blank_rows(
        h as usize,
        bw as usize,
        Ghost(left as int),
        Ghost(top as int),
        Ghost(w as int),
    );
    let items = uni.write_cells();
    let mut k: usize = 0;
    proof {
        assert(union_of(items@.take(0)) =~= Set::<(int, int)>::empty());
    }
    while k < items.len()
        invariant
            k <= items@.len(),
            union_of(items@) == cells,
            bounds_of(cells, (left as int, top as int, right as int, bottom as int)),
            !is_empty_grid(cells),
            w == right - left,
            h == bottom - top,
            h <= usize::MAX,
            row_bytes(w as int) <= usize::MAX,
            buffer_shows(
                rows@,
                union_of(items@.take(k as int)),
                left as int,
                top as int,
                w as int,
                h as int,
            ),
        decreases items@.len() - k,
    {
        let item = items[k];
        proof {
            assert forall|p: (int, int)| #[trigger] item.grid().contains(p) implies left <= p.0
                < left + w && top <= p.1 < top + h by {
                assert(items@[k as int].grid().contains(p));
                assert(union_of(items@).contains(p));
                assert(cells.contains(p));
            }
        }
        write_item(
            &mut rows,
            &item,
            left,
            top,
            Ghost(union_of(items@.take(k as int))),
            Ghost(w as int),
            Ghost(h as int),
        );
        proof {
            let a = items@.take(k as int);
            let b = items@.take(k + 1);
            assert(b =~= a.push(item));
            assert(union_of(a).union(item.grid()) =~= union_of(b)) by {
                assert forall|p: (int, int)|
                    union_of(a).union(item.grid()).contains(p) == union_of(b).contains(p) by {
                    if union_of(a).contains(p) {
                        let i = choose|i: int| 0 <= i < a.len() && #[trigger] a[i].grid().contains(p);
                        assert(b[i].grid().contains(p));
                    }
                    if item.grid().contains(p) {
                        assert(b[k as int].grid().contains(p));
                    }
                    if union_of(b).contains(p) {
                        let i = choose|i: int| 0 <= i < b.len() && #[trigger] b[i].grid().contains(p);
                        if i < k {
                            assert(a[i].grid().contains(p));
                        }
                    }
                }
            }
        }
        k = k + 1;
    }
    proof {
        assert(items@.take(items@.len() as int) =~= items@);
    }
    Ok(rows)
}

/// The four bytes of `v`, the low byte first.
pub open spec fn le32(v: u32) -> Seq<u8> {
    seq![
        (v % 256) as u8,
        (v / 256 % 256) as u8,
        (v / 65536 % 256) as u8,
        (v / 16777216) as u8,
    ]
}

/// The number of bytes that fill a row of `bw` bytes up to a multiple of
/// four bytes.
pub open spec fn row_pad(bw: int) -> int {
    (4 - bw % 4) % 4
}

/// The header of a bitmap of one bit per pixel, `w` pixels wide and `h`
/// pixels high, whose rows take `size` bytes: the file header, the
/// information header and the palette, which maps 0 to black and 1 to white.
pub open spec fn bmp_header(w: u32, h: u32, size: u32) -> Seq<u8> {
    seq![0x42u8, 0x4du8] + le32((62 + size) as u32) + le32(0) + le32(62) + le32(40) + le32(w)
        + le32(h) + seq![1u8, 0u8, 1u8, 0u8] + le32(0) + le32(size) + le32(0) + le32(0) + le32(0)
        + le32(0) + seq![0u8, 0u8, 0u8, 0u8, 0xffu8, 0xffu8, 0xffu8, 0u8]
}

/// The last `k` rows of `rows`, the last one first, each filled up with
/// `pad` zero bytes.
pub open spec fn bmp_rows(rows: Seq<Vec<u8>>, pad: nat, k: nat) -> Seq<u8>
    decreases k,
{
    if k == 0 || k > rows.len() {
        Seq::empty()
    } else {
        bmp_rows(rows, pad, (k - 1) as nat) + rows[rows.len() - k]@ + Seq::new(pad, |i: int| 0u8)
    }
}

/// Appends the four bytes of `v`, the low byte first.
fn push_le32(out: &mut Vec<u8>, v: u32)
    ensures
        final(out)@ == old(out)@ + le32(v),
{
    let ghost start = out@;
    out.push((v % 256) as u8);
    out.push((v / 256 % 256) as u8);
    out.push((v / 65536 % 256) as u8);
    out.push((v / 16777216) as u8);
    proof {
        assert(out@ =~= start + le32(v));
    }
}

/// The rows of a pattern as a bitmap file: one bit per pixel, the rows from
/// south to north, each filled up to a multiple of four bytes. Live cells
/// are white. Bitmaps of more than `u32::MAX` bytes are refused.
pub fn bmp_bytes(rows: &Vec<Vec<u8>>, width: u64, height: u64) -> (r: Result<Vec<u8>, ExportError>)
    requires
        rows@.len() == height,
        forall|y: int| 0 <= y < height ==> (#[trigger] rows@[y])@.len() == row_bytes(width as int),
    ensures
        match r {
            Ok(out) => {
                let bw = row_bytes(width as int);
                let size = (bw + row_pad(bw)) * height;
                &&& 62 + size <= u32::MAX
                &&& width <= u32::MAX
                &&& height <= u32::MAX
                &&& out@ == bmp_header(width as u32, height as u32, size as u32) + bmp_rows(
                    rows@,
                    row_pad(bw) as nat,
                    height as nat,
                )
            },
            Err(e) => {
                let bw = row_bytes(width as int);
                &&& e == ExportError::TooLarge
                &&& (width > u32::MAX || height > u32::MAX || 62 + (bw + row_pad(bw)) * height
                    > u32::MAX)
            },
        },
{
    if width > u32::MAX as u64 || height > u32::MAX as u64 {
        return Err(ExportError::TooLarge);
    }
    let bw: u64 = width / 8 + (if width % 8 == 0 {
        0
    } else {
        1
    });
    let pad: u64 = (4 - bw % 4) % 4;
    proof {
        assert((bw + pad) * height <= 0x2000_0004 * 0xffff_ffff) by (nonlinear_arith)
            requires
                bw + pad <= 0x2000_0004,
                height <= 0xffff_ffff,
        ;
    }
    let size: u64 = (bw + pad) * height;
    if size > u32::MAX as u64 - 62 {
        return Err(ExportError::TooLarge);
    }
    let mut out: Vec<u8> = Vec::new();
    out.push(0x42);
    out.push(0x4d);
    proof {
        assert(out@ =~= seq![0x42u8, 0x4du8]);
    }
    push_le32(&mut out, (62 + size) as u32);
    push_le32(&mut out, 0);
    push_le32(&mut out, 62);
    push_le32(&mut out, 40);
    push_le32(&mut out, width as u32);
    push_le32(&mut out, height as u32);
    let ghost before_planes = out@;
    out.push(1);
    out.push(0);
    out.push(1);
    out.push(0);
    proof {
        assert(out@ =~= before_planes + seq![1u8, 0u8, 1u8, 0u8]);
    }
    push_le32(&mut out, 0);
    push_le32(&mut out, size as u32);
    push_le32(&mut out, 0);
    push_le32(&mut out, 0);
    push_le32(&mut out, 0);
    push_le32(&mut out, 0);
    let ghost before_palette = out@;
    out.push(0);
    out.push(0);
    out.push(0);
    out.push(0);
    out.push(0xff);
    out.push(0xff);
    out.push(0xff);
    out.push(0);
    let ghost head = bmp_header(width as u32, height as u32, size as u32);
    proof {
        assert(out@ =~= before_palette + seq![
            0u8,
            0u8,
            0u8,
            0u8,
            0xffu8,
            0xffu8,
            0xffu8,
            0u8,
        ]);
        assert(out@ =~= head);
        assert(out@ =~= head + bmp_rows(rows@, pad as nat, 0));
    }
    let mut k: usize = 0;
    let n = rows.len();
    while k < n
        invariant
            k <= n,
            n == rows@.len(),
            n == height,
            pad == row_pad(bw as int),
            bw == row_bytes(width as int),
            forall|y: int| 0 <= y < height ==> (#[trigger] rows@[y])@.len() == row_bytes(
                width as int,
            ),
            out@ == head + bmp_rows(rows@, pad as nat, k as nat),
        decreases n - k,
    {
        let row = &rows[n - 1 - k];
        let ghost start = out@;
        let mut i: usize = 0;
        while i < row.len()
            invariant
                i <= row@.len(),
                out@ == start + row@.subrange(0, i as int),
            decreases row@.len() - i,
        {
            out.push(row[i]);
            proof {
                assert(row@.subrange(0, i + 1) =~= row@.subrange(0, i as int).push(row@[i as int]));
            }
            i = i + 1;
        }
        let mut j: u64 = 0;
        while j < pad
            invariant
                j <= pad,
                out@ == start + row@ + Seq::new(j as nat, |i: int| 0u8),
            decreases pad - j,
        {
            out.push(0);
            proof {
                assert(Seq::new((j + 1) as nat, |i: int| 0u8) =~= Seq::new(
                    j as nat,
                    |i: int| 0u8,
                ).push(0u8));
            }
            j = j + 1;
        }
        proof {
            assert(row@.subrange(0, row@.len() as int) =~= row@);
            assert(out@ =~= head + bmp_rows(rows@, pad as nat, (k + 1) as nat));
        }
        k = k + 1;
    }
    Ok(out)
}

/// A box of `w` by `h` cells is too large for a bitmap: its rows do not fit
/// in a vector, or its width, its height or the size of its file do not fit
/// in 32 bits.
pub open spec fn bmp_too_large(w: int, h: int) -> bool {
    ||| h > usize::MAX
    ||| row_bytes(w) > usize::MAX
    ||| w > u32::MAX
    ||| h > u32::MAX
    ||| 62 + (row_bytes(w) + row_pad(row_bytes(w))) * h > u32::MAX
}

/// The cells inside the bounding box of the universe as a bitmap file. A
/// universe without live cells is refused, and so is a bounding box whose
/// rows do not fit in a vector or whose bitmap does not fit in `u32::MAX`
/// bytes.
pub fn bmp_image(uni: &Universe) -> (r: Result<Vec<u8>, ExportError>)
    requires
        uni.wf(),
    ensures
        match r {
            Ok(out) => {
                let b = bounds(uni.cells());
                let w = b.2 - b.0;
                let h = b.3 - b.1;
                let size = (row_bytes(w) + row_pad(row_bytes(w))) * h;
                &&& !is_empty_grid(uni.cells())
                &&& !bmp_too_large(w, h)
                &&& exists|rows: Seq<Vec<u8>>|
                    buffer_shows(rows, uni.cells(), b.0, b.1, w, h) && out@ == bmp_header(
                        w as u32,
                        h as u32,
                        size as u32,
                    ) + bmp_rows(rows, row_pad(row_bytes(w)) as nat, h as nat)
            },
            Err(ExportError::EmptyUniverse) => is_empty_grid(uni.cells()),
            Err(ExportError::TooLarge) => {
                let b = bounds(uni.cells());
                &&& !is_empty_grid(uni.cells())
                &&& bmp_too_large(b.2 - b.0, b.3 - b.1)
            },
        },
{
    let (left, top, right, bottom) = uni.boundary();
    proof {
        lemma_bounds(uni.cells(), (left as int, top as int, right as int, bottom as int));
    }
    let rows = match write_buffer(uni) {
        Ok(rows) => rows,
        Err(e) => {
            return Err(e);
        },
    };
    proof {
        let p = choose|p: (int, int)| #[trigger] uni.cells().contains(p) && p.0 == left;
        let q = choose|p: (int, int)| #[trigger] uni.cells().contains(p) && p.1 == top;
        assert(uni.cells().contains(p) && uni.cells().contains(q));
    }
    let width: u64 = (right as i128 - left as i128) as u64;
    let height: u64 = (bottom as i128 - top as i128) as u64;
    bmp_bytes(&rows, width, height)
}

} // verus!
