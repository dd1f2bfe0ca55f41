//! A grid and a threshold have one contour set and no other.

use vstd::prelude::*;
use crate::contour::{
    is_contour_set, lemma_edge_covered, lemma_line_is_ring, lemma_line_order, lemma_lines_apart,
};
use crate::grid::GridView;
use crate::lines::{follows, is_round};
use crate::mesh::{lemma_rank_injective, rank, successor, ContourPoint};

verus! {

/// Two lines that follow the contour from the same edge agree as far as both
/// go.
proof fn lemma_same_prefix(
    g: GridView,
    t: int,
    x: Seq<ContourPoint>,
    y: Seq<ContourPoint>,
    i: int,
)
    requires
        follows(g, t, x),
        follows(g, t, y),
        0 <= i < x.len(),
        i < y.len(),
        x[0].edge == y[0].edge,
    ensures
        x[i] == y[i],
    decreases i,
{
    if i > 0 {
        lemma_same_prefix(g, t, x, y, i - 1);
        assert(successor(g, t, x[i - 1].edge) == Some(x[i].edge));
        assert(successor(g, t, y[i - 1].edge) == Some(y[i].edge));
    }
}

/// Of two rounds that agree as far as both go, the second is no longer:
/// the first is back at its beginning where it ends, and the second comes
/// by no edge twice.
proof fn lemma_longer(g: GridView, t: int, x: Seq<ContourPoint>, y: Seq<ContourPoint>)
    requires
        is_round(g, t, x),
        is_round(g, t, y),
        forall|i: int| 0 <= i < x.len() && i < y.len() ==> x[i] == y[i],
    ensures
        y.len() <= x.len(),
{
    if x.len() < y.len() {
        let last = x.len() - 1;
        assert(x[last] == y[last]);
        assert(x[0] == y[0]);
        assert(y[0].edge != y[last].edge);
    }
}

/// Two rounds of the contour that begin on the same edge are the same.
proof fn lemma_same_start(g: GridView, t: int, x: Seq<ContourPoint>, y: Seq<ContourPoint>)
    requires
        is_round(g, t, x),
        is_round(g, t, y),
        x[0].edge == y[0].edge,
    ensures
        x == y,
{
    assert forall|i: int| 0 <= i < x.len() && i < y.len() implies x[i] == y[i] by {
        lemma_same_prefix(g, t, x, y, i);
    }
    lemma_longer(g, t, x, y);
    lemma_longer(g, t, y, x);
    assert(x =~= y);
}

/// Whether `m` has the first `q` lines of `l`.
spec fn agree(l: Seq<Seq<ContourPoint>>, m: Seq<Seq<ContourPoint>>, q: int) -> bool {
    forall|j: int| 0 <= j < q ==> j < m.len() && #[trigger] l[j] == m[j]
}

/// If contour set `m` agrees with contour set `l` on the rings before the
/// `q`th, then `m` has a `q`th ring too, and it begins no later in scan
/// order.
proof fn lemma_next_line(
    g: GridView,
    t: int,
    l: Seq<Seq<ContourPoint>>,
    m: Seq<Seq<ContourPoint>>,
    q: int,
)
    requires
        is_contour_set(g, t, l),
        is_contour_set(g, t, m),
        0 <= q < l.len(),
        agree(l, m, q),
    ensures
        q < m.len(),
        rank(g, m[q][0].edge) <= rank(g, l[q][0].edge),
{
    let e = l[q][0].edge;
    lemma_line_is_ring(g, t, l, q);
    let (k, i) = lemma_edge_covered(g, t, m, e);
    if k < q {
        assert(l[k] == m[k]);
        lemma_lines_apart(g, t, l, k, i, q, 0);
    }
    lemma_line_order(g, t, m, q, k);
}

/// Two contour sets that agree on the rings before the `q`th agree on the
/// `q`th.
proof fn lemma_line_agrees(
    g: GridView,
    t: int,
    a: Seq<Seq<ContourPoint>>,
    b: Seq<Seq<ContourPoint>>,
    q: int,
)
    requires
        is_contour_set(g, t, a),
        is_contour_set(g, t, b),
        0 <= q < a.len(),
        agree(a, b, q),
    ensures
        q < b.len(),
        a[q] == b[q],
{
    lemma_next_line(g, t, a, b, q);
    assert(agree(b, a, q)) by {
        assert forall|j: int| 0 <= j < q implies j < a.len() && #[trigger] b[j] == a[j] by {
            assert(a[j] == b[j]);
        }
    }
    lemma_next_line(g, t, b, a, q);
    let x = a[q];
    let y = b[q];
    lemma_line_is_ring(g, t, a, q);
    lemma_line_is_ring(g, t, b, q);
    lemma_rank_injective(g, x[0].edge, y[0].edge);
    lemma_same_start(g, t, x, y);
}

/// Two contour sets of the same grid at the same threshold agree on their
/// first `k` rings.
proof fn lemma_agree(
    g: GridView,
    t: int,
    a: Seq<Seq<ContourPoint>>,
    b: Seq<Seq<ContourPoint>>,
    k: int,
)
    requires
        is_contour_set(g, t, a),
        is_contour_set(g, t, b),
        0 <= k <= a.len(),
    ensures
        agree(a, b, k),
    decreases k,
{
    if k > 0 {
        lemma_agree(g, t, a, b, k - 1);
        lemma_line_agrees(g, t, a, b, k - 1);
    }
}

/// The contour set is unique: a grid and a threshold determine the rings,
/// their points and their order.
pub proof fn lemma_contour_set_unique(
    g: GridView,
    t: int,
    a: Seq<Seq<ContourPoint>>,
    b: Seq<Seq<ContourPoint>>,
)
    requires
        is_contour_set(g, t, a),
        is_contour_set(g, t, b),
    ensures
        a == b,
{
    lemma_agree(g, t, a, b, a.len() as int);
    lemma_agree(g, t, b, a, b.len() as int);
    if a.len() < b.len() {
        assert(b[a.len() as int] == a[a.len() as int]);
    }
    if b.len() < a.len() {
        assert(a[b.len() as int] == b[b.len() as int]);
    }
    assert forall|j: int| 0 <= j < a.len() implies a[j] == b[j] by {
        assert(#[trigger] a[j] == b[j]);
    }
    assert(a =~= b);
}

} // verus!
