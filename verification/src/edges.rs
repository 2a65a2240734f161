//! Which pairs of locations become edges of the spatial graph.

use vstd::prelude::*;
use crate::report::pair_count_spec;

verus! {

/// `a` comes strictly before `b` in row-major (lexicographic) order.
pub open spec fn pair_before(a: (usize, usize), b: (usize, usize)) -> bool {
    a.0 < b.0 || (a.0 == b.0 && a.1 < b.1)
}

/// The pair list is in strictly increasing row-major order.
pub open spec fn strictly_ordered(pairs: Seq<(usize, usize)>) -> bool {
    forall|k: int, l: int| 0 <= k < l < pairs.len() ==> pair_before(#[trigger] pairs[k], #[trigger] pairs[l])
}

/// The edge rule of the spatial graph over `n` locations: the result lists,
/// in row-major order, exactly the pairs `(i, j)` with `i < j < n` for which
/// `keep(i, j)` holds. Only the strict upper triangle is ever asked about,
/// so the diagonal and the lower triangle never produce an edge.
pub fn spatial_edges<F: Fn(usize, usize) -> bool>(n: usize, keep: F) -> (edges: Vec<(usize, usize)>)
    requires
        forall|i: usize, j: usize| i < j < n ==> call_requires(keep, (i, j)),
    ensures
        forall|k: int|
            0 <= k < edges.len() ==> {
                &&& (#[trigger] edges@[k]).0 < edges@[k].1
                &&& edges@[k].1 < n
                &&& call_ensures(keep, (edges@[k].0, edges@[k].1), true)
            },
        strictly_ordered(edges@),
        forall|i: usize, j: usize|
            i < j < n && !edges@.contains((i, j)) ==> call_ensures(keep, (i, j), false),
{
    let mut edges: Vec<(usize, usize)> = Vec::new();
    let mut i: usize = 0;
    while i < n
        invariant
            i <= n,
            forall|i: usize, j: usize| i < j < n ==> call_requires(keep, (i, j)),
            forall|k: int|
                0 <= k < edges.len() ==> {
                    &&& (#[trigger] edges@[k]).0 < edges@[k].1
                    &&& edges@[k].1 < n
                    &&& edges@[k].0 < i
                    &&& call_ensures(keep, (edges@[k].0, edges@[k].1), true)
                },
            strictly_ordered(edges@),
            forall|a: usize, b: usize|
                a < b < n && a < i && !edges@.contains((a, b)) ==> call_ensures(keep, (a, b), false),
        decreases n - i,
    {
        let mut j: usize = i + 1;
        while j < n
            invariant
                i < n,
                i + 1 <= j <= n,
                forall|i: usize, j: usize| i < j < n ==> call_requires(keep, (i, j)),
                forall|k: int|
                    0 <= k < edges.len() ==> {
                        &&& (#[trigger] edges@[k]).0 < edges@[k].1
                        &&& edges@[k].1 < n
                        &&& pair_before(edges@[k], (i, j))
                        &&& call_ensures(keep, (edges@[k].0, edges@[k].1), true)
                    },
                strictly_ordered(edges@),
                forall|a: usize, b: usize|
                    a < b < n && pair_before((a, b), (i, j)) && !edges@.contains((a, b))
                        ==> call_ensures(keep, (a, b), false),
            decreases n - j,
        {
            let ghost before = edges@;
            let take = keep(i, j);
            if take {
                edges.push((i, j));
                assert(edges@[edges.len() - 1] == (i, j));
            }
            assert forall|a: usize, b: usize|
                a < b < n && pair_before((a, b), (i, (j + 1) as usize)) && !edges@.contains((a, b))
                    implies call_ensures(keep, (a, b), false) by {
                if before.contains((a, b)) {
                    let w = choose|w: int| 0 <= w < before.len() && before[w] == (a, b);
                    assert(edges@[w] == (a, b));
                }
            }
            j = j + 1;
        }
        i = i + 1;
    }
    edges
}

/// The graph that `spatial_edges` describes is simple: no pair joins a
/// location to itself, and no pair occurs twice.
pub proof fn lemma_spatial_edges_simple(edges: Seq<(usize, usize)>)
    requires
        strictly_ordered(edges),
        forall|k: int| 0 <= k < edges.len() ==> (#[trigger] edges[k]).0 < edges[k].1,
    ensures
        forall|k: int| 0 <= k < edges.len() ==> (#[trigger] edges[k]).0 != edges[k].1,
        forall|k: int, l: int| 0 <= k < edges.len() && 0 <= l < edges.len() && k != l
            ==> #[trigger] edges[k] != #[trigger] edges[l],
{
    assert forall|k: int, l: int| 0 <= k < edges.len() && 0 <= l < edges.len() && k != l
        implies #[trigger] edges[k] != #[trigger] edges[l] by {
        if k < l {
            assert(pair_before(edges[k], edges[l]));
        } else {
            assert(pair_before(edges[l], edges[k]));
        }
    }
}

/// Position of row `a` in the row-major listing of the pairs `i < j < n`:
/// how many pairs lie in the rows above it.
spec fn row_offset(a: nat, n: nat) -> nat
    decreases a,
{
    if a == 0 {
        0
    } else {
        row_offset((a - 1) as nat, n) + (n - a) as nat
    }
}

/// Position of the pair `(a, b)`, `a < b < n`, in that listing.
spec fn pair_rank(p: (usize, usize), n: nat) -> int {
    row_offset(p.0 as nat, n) + p.1 - p.0 - 1
}

proof fn lemma_row_offset_closed(a: nat, n: nat)
    requires
        a <= n,
    ensures
        2 * row_offset(a, n) == a * (2 * n - a - 1),
    decreases a,
{
    if a > 0 {
        let a1 = (a - 1) as nat;
        lemma_row_offset_closed(a1, n);
        let prev = row_offset(a1, n);
        assert(row_offset(a, n) == prev + (n - a));
        assert(a1 * (2 * n - a1 - 1) + 2 * (n - a) == a * (2 * n - a - 1)) by (nonlinear_arith)
            requires
                a1 + 1 == a,
        ;
    } else {
        assert(a * (2 * n - a - 1) == 0) by (nonlinear_arith)
            requires
                a == 0,
        ;
    }
}

proof fn lemma_row_offset_monotone(a: nat, b: nat, n: nat)
    requires
        a <= b,
    ensures
        row_offset(a, n) <= row_offset(b, n),
    decreases b,
{
    if a < b {
        lemma_row_offset_monotone(a, (b - 1) as nat, n);
    }
}

proof fn lemma_rank_ordered(p: (usize, usize), q: (usize, usize), n: nat)
    requires
        p.0 < p.1 < n,
        q.0 < q.1 < n,
        pair_before(p, q),
    ensures
        pair_rank(p, n) < pair_rank(q, n),
{
    if p.0 < q.0 {
        lemma_row_offset_monotone((p.0 + 1) as nat, q.0 as nat, n);
        assert(row_offset((p.0 + 1) as nat, n) == row_offset(p.0 as nat, n) + (n - (p.0 + 1)) as nat);
    }
}

proof fn lemma_rank_below_total(p: (usize, usize), n: nat)
    requires
        p.0 < p.1 < n,
    ensures
        0 <= pair_rank(p, n) < row_offset(n, n),
{
    lemma_row_offset_monotone((p.0 + 1) as nat, n, n);
    assert(row_offset((p.0 + 1) as nat, n) == row_offset(p.0 as nat, n) + (n - (p.0 + 1)) as nat);
}

/// The report's edge figure `n * (n - 1) / 2` bounds the spatial graph: an
/// ordered, duplicate-free list of pairs `i < j < n`, such as `spatial_edges`
/// returns, has at most that many entries.
pub proof fn lemma_edge_count_bounded(edges: Seq<(usize, usize)>, n: usize)
    requires
        strictly_ordered(edges),
        forall|k: int| 0 <= k < edges.len() ==> (#[trigger] edges[k]).0 < edges[k].1 && edges[k].1 < n,
    ensures
        edges.len() <= pair_count_spec(n as nat),
{
    let m = n as nat;
    lemma_row_offset_closed(m, m);
    if m >= 1 {
        assert(m * (2 * m - m - 1) == m * (m - 1)) by (nonlinear_arith);
    }
    assert(row_offset(m, m) == pair_count_spec(m));
    // Each position holds a rank at least its index.
    assert forall|k: int| 0 <= k < edges.len() implies pair_rank(#[trigger] edges[k], m) >= k by {
        lemma_rank_at_least_index(edges, m, k);
    }
    if edges.len() > 0 {
        let last = edges.len() - 1;
        assert(pair_rank(edges[last], m) >= last);
        lemma_rank_below_total(edges[last], m);
    }
}

proof fn lemma_rank_at_least_index(edges: Seq<(usize, usize)>, n: nat, k: int)
    requires
        strictly_ordered(edges),
        forall|k: int| 0 <= k < edges.len() ==> (#[trigger] edges[k]).0 < edges[k].1 && edges[k].1 < n,
        0 <= k < edges.len(),
    ensures
        pair_rank(edges[k], n) >= k,
    decreases k,
{
    if k == 0 {
        lemma_rank_below_total(edges[0], n);
    } else {
        lemma_rank_at_least_index(edges, n, k - 1);
        assert(pair_before(edges[k - 1], edges[k]));
        lemma_rank_ordered(edges[k - 1], edges[k], n);
    }
}

/// In a strictly ordered list, every entry before the last comes before it.
proof fn lemma_last_is_greatest(pairs: Seq<(usize, usize)>, k: int)
    requires
        strictly_ordered(pairs),
        0 <= k < pairs.len() - 1,
    ensures
        pair_before(pairs[k], pairs.last()),
{
    assert(pairs[pairs.len() - 1] == pairs.last());
}

/// Two strictly ordered lists with the same entries are the same list.
proof fn lemma_ordered_lists_equal(a: Seq<(usize, usize)>, b: Seq<(usize, usize)>)
    requires
        strictly_ordered(a),
        strictly_ordered(b),
        forall|p: (usize, usize)| a.contains(p) <==> b.contains(p),
    ensures
        a == b,
    decreases a.len() + b.len(),
{
    if a.len() == 0 {
        if b.len() > 0 {
            assert(b.contains(b[0]));
        }
        assert(a =~= b);
    } else if b.len() == 0 {
        assert(a.contains(a[0]));
    } else {
        let la = a.last();
        let lb = b.last();
        assert(a[a.len() - 1] == la);
        assert(b[b.len() - 1] == lb);
        assert(a.contains(la));
        assert(b.contains(lb));
        let wa = choose|w: int| 0 <= w < a.len() && a[w] == lb;
        let wb = choose|w: int| 0 <= w < b.len() && b[w] == la;
        if la != lb {
            if wa < a.len() - 1 {
                lemma_last_is_greatest(a, wa);
            }
            if wb < b.len() - 1 {
                lemma_last_is_greatest(b, wb);
            }
            assert(pair_before(lb, la) && pair_before(la, lb));
        }
        let pa = a.drop_last();
        let pb = b.drop_last();
        assert forall|k: int, l: int| 0 <= k < l < pa.len() implies pair_before(#[trigger] pa[k], #[trigger] pa[l]) by {
            assert(pa[k] == a[k] && pa[l] == a[l]);
        }
        assert forall|k: int, l: int| 0 <= k < l < pb.len() implies pair_before(#[trigger] pb[k], #[trigger] pb[l]) by {
            assert(pb[k] == b[k] && pb[l] == b[l]);
        }
        assert forall|p: (usize, usize)| pa.contains(p) <==> pb.contains(p) by {
            if pa.contains(p) {
                let k = choose|k: int| 0 <= k < pa.len() && pa[k] == p;
                assert(a[k] == p);
                lemma_last_is_greatest(a, k);
                assert(a.contains(p));
                assert(b.contains(p));
                let j = choose|j: int| 0 <= j < b.len() && b[j] == p;
                assert(j != b.len() - 1);
                assert(pb[j] == p);
            }
            if pb.contains(p) {
                let k = choose|k: int| 0 <= k < pb.len() && pb[k] == p;
                assert(b[k] == p);
                lemma_last_is_greatest(b, k);
                assert(b.contains(p));
                assert(a.contains(p));
                let j = choose|j: int| 0 <= j < a.len() && a[j] == p;
                assert(j != a.len() - 1);
                assert(pa[j] == p);
            }
        }
        lemma_ordered_lists_equal(pa, pb);
        assert(a =~= pa.push(la));
        assert(b =~= pb.push(lb));
    }
}

/// Only the answers for the pairs `i < j < n` decide the edges: two edge tests
/// whose possible answers agree on every such pair yield the same edge list
/// from `spatial_edges`, whatever they say about the diagonal, the lower
/// triangle or anything beyond `n`.
pub proof fn lemma_spatial_edges_determined<F: Fn(usize, usize) -> bool, G: Fn(usize, usize) -> bool>(
    n: usize,
    keep1: F,
    edges1: Seq<(usize, usize)>,
    keep2: G,
    edges2: Seq<(usize, usize)>,
)
    requires
        forall|i: usize, j: usize, b1: bool, b2: bool|
            i < j < n && call_ensures(keep1, (i, j), b1) && call_ensures(keep2, (i, j), b2) ==> b1 == b2,
        forall|k: int| 0 <= k < edges1.len() ==> {
            &&& (#[trigger] edges1[k]).0 < edges1[k].1
            &&& edges1[k].1 < n
            &&& call_ensures(keep1, (edges1[k].0, edges1[k].1), true)
        },
        strictly_ordered(edges1),
        forall|i: usize, j: usize| i < j < n && !edges1.contains((i, j)) ==> call_ensures(keep1, (i, j), false),
        forall|k: int| 0 <= k < edges2.len() ==> {
            &&& (#[trigger] edges2[k]).0 < edges2[k].1
            &&& edges2[k].1 < n
            &&& call_ensures(keep2, (edges2[k].0, edges2[k].1), true)
        },
        strictly_ordered(edges2),
        forall|i: usize, j: usize| i < j < n && !edges2.contains((i, j)) ==> call_ensures(keep2, (i, j), false),
    ensures
        edges1 == edges2,
{
    assert forall|p: (usize, usize)| edges1.contains(p) <==> edges2.contains(p) by {
        if edges1.contains(p) && !edges2.contains(p) {
            let k = choose|k: int| 0 <= k < edges1.len() && edges1[k] == p;
            assert(call_ensures(keep1, (p.0, p.1), true));
            assert(call_ensures(keep2, (p.0, p.1), false));
        }
        if edges2.contains(p) && !edges1.contains(p) {
            let k = choose|k: int| 0 <= k < edges2.len() && edges2[k] == p;
            assert(call_ensures(keep2, (p.0, p.1), true));
            assert(call_ensures(keep1, (p.0, p.1), false));
        }
    }
    lemma_ordered_lists_equal(edges1, edges2);
}

} // verus!
