//! Unweighted shortest-path search over floor adjacency: every walking,
//! digging and jump edge counts as one hop.
//!
//! [`weightless_breadth_first_search`] works on a plain adjacency list and
//! carries the full correctness contract: a returned route is a valid route
//! of minimal hop count, a `None` means no route exists at all, and the
//! returned route never lists more floors than the graph holds.
//! [`find_path`] applies it to a [`FloorGraph`].

use vstd::prelude::*;

verus! {

use crate::graph::Floor;
use crate::graph::FloorGraph;

/// The sequence view of an adjacency list: row `i` lists the successors of
/// node `i`, in enumeration order.
pub open spec fn adj_view(g: Seq<Vec<usize>>) -> Seq<Seq<usize>> {
    Seq::new(g.len(), |i: int| g[i]@)
}

/// Every listed successor is itself a node of the graph.
pub open spec fn adj_wf(a: Seq<Seq<usize>>) -> bool {
    forall|i: int, j: int|
        0 <= i < a.len() && 0 <= j < a[i].len() ==> #[trigger] a[i][j] < a.len()
}

/// A directed edge from `u` to `v`: `v` occurs in `u`'s adjacency row.
pub open spec fn edge(a: Seq<Seq<usize>>, u: usize, v: usize) -> bool {
    u < a.len() && a[u as int].contains(v)
}

/// Consecutive elements of `p` are joined by edges.
pub open spec fn is_route(a: Seq<Seq<usize>>, p: Seq<usize>) -> bool {
    forall|i: int| 0 <= i < p.len() - 1 ==> edge(a, #[trigger] p[i], p[i + 1])
}

/// `p` is a route that starts at `s` and ends at `t`, listing every node it
/// passes through, endpoints included.
pub open spec fn connects(a: Seq<Seq<usize>>, p: Seq<usize>, s: usize, t: usize) -> bool {
    p.len() >= 1 && p[0] == s && p.last() == t && is_route(a, p)
}

/// The target of an edge is a node of the graph.
proof fn lemma_edge_target(a: Seq<Seq<usize>>, u: usize, v: usize)
    requires
        adj_wf(a),
        edge(a, u, v),
    ensures
        v < a.len(),
{
    let j = choose|j: int| 0 <= j < a[u as int].len() && a[u as int][j] == v;
    assert(a[u as int][j] < a.len());
}

/// Every node of a route whose first node is a graph node is a graph node.
proof fn lemma_route_elements(a: Seq<Seq<usize>>, p: Seq<usize>, i: int)
    requires
        adj_wf(a),
        is_route(a, p),
        0 <= i < p.len(),
        p[0] < a.len(),
    ensures
        p[i] < a.len(),
    decreases i,
{
    if i > 0 {
        lemma_route_elements(a, p, i - 1);
        assert(edge(a, p[i - 1], p[i]));
        lemma_edge_target(a, p[i - 1], p[i]);
    }
}

/// Dropping the last node of a route leaves a route.
proof fn lemma_route_prefix(a: Seq<Seq<usize>>, p: Seq<usize>)
    requires
        is_route(a, p),
        p.len() >= 1,
    ensures
        is_route(a, p.drop_last()),
{
    let q = p.drop_last();
    assert forall|i: int| 0 <= i < q.len() - 1 implies edge(a, #[trigger] q[i], q[i + 1]) by {
        assert(q[i] == p[i] && q[i + 1] == p[i + 1]);
    }
}

/// A sequence without duplicates whose elements lie below `n` has at most
/// `n` elements.
proof fn lemma_no_dup_bound(p: Seq<usize>, n: int)
    requires
        p.no_duplicates(),
        forall|i: int| 0 <= i < p.len() ==> p[i] < n,
        n >= 0,
    ensures
        p.len() <= n,
{
    let f = |v: usize| v as int;
    let q = p.map_values(f);
    assert(vstd::relations::injective(f)) by {
        assert forall|x: usize, y: usize| #[trigger] f(x) == #[trigger] f(y) implies x == y by {}
    }
    p.lemma_no_duplicates_injective(f);
    q.unique_seq_to_set();
    assert(q.to_set().subset_of(vstd::set_lib::set_int_range(0, n))) by {
        assert forall|x: int| q.to_set().contains(x) implies 0 <= x < n by {
            let i = choose|i: int| 0 <= i < q.len() && q[i] == x;
            assert(p[i] < n);
        }
    }
    vstd::set_lib::lemma_int_range(0, n);
    vstd::set_lib::lemma_len_subset(q.to_set(), vstd::set_lib::set_int_range(0, n));
}

/// Cutting the cycle between two equal nodes of a connecting route leaves a
/// strictly shorter connecting route.
proof fn lemma_splice(a: Seq<Seq<usize>>, q: Seq<usize>, s: usize, t: usize, i: int, j: int)
    requires
        connects(a, q, s, t),
        0 <= i < j < q.len(),
        q[i] == q[j],
    ensures
        connects(a, q.subrange(0, i) + q.subrange(j, q.len() as int), s, t),
        (q.subrange(0, i) + q.subrange(j, q.len() as int)).len() < q.len(),
{
    let r = q.subrange(0, i) + q.subrange(j, q.len() as int);
    assert(r.len() == i + q.len() - j);
    assert(r[0] == s) by {
        if i > 0 {
            assert(r[0] == q[0]);
        } else {
            assert(r[0] == q[j]);
        }
    }
    assert(r.last() == q.last());
    assert forall|k: int| 0 <= k < r.len() - 1 implies edge(a, #[trigger] r[k], r[k + 1]) by {
        if k < i - 1 {
            assert(r[k] == q[k] && r[k + 1] == q[k + 1]);
            assert(edge(a, q[k], q[k + 1]));
        } else if k == i - 1 {
            assert(r[k] == q[i - 1] && r[k + 1] == q[j]);
            assert(q[j] == q[i]);
            assert(edge(a, q[i - 1], q[i]));
        } else {
            assert(r[k] == q[j + k - i] && r[k + 1] == q[j + k - i + 1]);
            assert(edge(a, q[j + k - i], q[j + k - i + 1]));
        }
    }
}

/// A connecting route of minimal length visits no node twice, so it has at
/// most as many nodes as the graph.
proof fn lemma_min_connects_bound(a: Seq<Seq<usize>>, q: Seq<usize>, s: usize, t: usize)
    requires
        adj_wf(a),
        connects(a, q, s, t),
        s < a.len(),
        forall|q2: Seq<usize>| connects(a, q2, s, t) ==> q.len() <= q2.len(),
    ensures
        q.len() <= a.len(),
{
    assert forall|i: int| 0 <= i < q.len() implies q[i] < a.len() by {
        lemma_route_elements(a, q, i);
    }
    if q.len() > a.len() {
        assert(!q.no_duplicates()) by {
            if q.no_duplicates() {
                lemma_no_dup_bound(q, a.len() as int);
            }
        }
        let (i, j) = choose|i: int, j: int|
            0 <= i < q.len() && 0 <= j < q.len() && i != j && q[i] == q[j];
        if i < j {
            lemma_splice(a, q, s, t, i, j);
        } else {
            lemma_splice(a, q, s, t, j, i);
        }
    }
}

/// Sum of the adjacency-row lengths of the nodes below `k` that are not yet
/// marked in `vis`; the traversal's termination measure.
spec fn pending_degree(a: Seq<Seq<usize>>, vis: Seq<bool>, k: int) -> int
    decreases k,
{
    if k <= 0 {
        0
    } else {
        pending_degree(a, vis, k - 1) + if 0 <= k - 1 < a.len() && k - 1 < vis.len() && !vis[k - 1] {
            a[k - 1].len() as int
        } else {
            0
        }
    }
}

proof fn lemma_pending_degree_nonneg(a: Seq<Seq<usize>>, vis: Seq<bool>, k: int)
    ensures
        pending_degree(a, vis, k) >= 0,
    decreases k,
{
    if k > 0 {
        lemma_pending_degree_nonneg(a, vis, k - 1);
    }
}

/// Marking one unmarked node removes exactly its row length from the
/// pending degree.
proof fn lemma_pending_degree_update(a: Seq<Seq<usize>>, vis: Seq<bool>, v: int, k: int)
    requires
        0 <= v < vis.len(),
        !vis[v],
    ensures
        pending_degree(a, vis.update(v, true), k) == pending_degree(a, vis, k) - if v < k && v
            < a.len() {
            a[v].len() as int
        } else {
            0
        },
    decreases k,
{
    if k > 0 {
        lemma_pending_degree_update(a, vis, v, k - 1);
    }
}

/// Some recorded entry ends at `c` and has at most `bound` nodes.
spec fn discovered(hist: Seq<Seq<usize>>, c: usize, bound: int) -> bool {
    exists|j: int| 0 <= j < hist.len() && (#[trigger] hist[j]).last() == c && hist[j].len() <= bound
}

/// Every recorded entry is a route from `start` through graph nodes.
spec fn entries_ok(a: Seq<Seq<usize>>, hist: Seq<Seq<usize>>, start: usize) -> bool {
    forall|j: int|
        0 <= j < hist.len() ==> {
            let p = #[trigger] hist[j];
            &&& p.len() >= 1
            &&& p[0] == start
            &&& is_route(a, p)
            &&& forall|i: int| 0 <= i < p.len() ==> #[trigger] p[i] < a.len()
        }
}

/// Entry lengths never decrease along the record.
spec fn entries_sorted(hist: Seq<Seq<usize>>) -> bool {
    forall|i: int, j: int|
        #![trigger hist[i], hist[j]]
        0 <= i <= j < hist.len() ==> hist[i].len() <= hist[j].len()
}

/// No entry is more than one hop longer than the front entry.
spec fn back_bounded(hist: Seq<Seq<usize>>, head: int) -> bool {
    forall|j: int|
        0 <= j < hist.len() && head < hist.len() ==> (#[trigger] hist[j]).len() <= hist[head].len()
            + 1
}

/// Every entry before the head ends at an expanded node whose recorded
/// depth is no larger than the entry's length.
spec fn processed_ok(hist: Seq<Seq<usize>>, head: int, vd: Map<usize, int>) -> bool {
    forall|j: int|
        0 <= j < head ==> vd.dom().contains((#[trigger] hist[j]).last()) && vd[hist[j].last()]
            <= hist[j].len()
}

/// Every expanded node was the end of some already-processed entry of
/// exactly its recorded depth.
spec fn vd_ok(a: Seq<Seq<usize>>, hist: Seq<Seq<usize>>, head: int, vd: Map<usize, int>) -> bool {
    forall|v: usize|
        #[trigger] vd.dom().contains(v) ==> v < a.len() && exists|i: int|
            0 <= i < head && (#[trigger] hist[i]).last() == v && hist[i].len() == vd[v]
}

/// Expanding a node recorded all its successors: none of them is the goal,
/// and each was discovered one hop beyond the node's depth.
spec fn expanded_ok(a: Seq<Seq<usize>>, hist: Seq<Seq<usize>>, vd: Map<usize, int>, end: usize) -> bool {
    forall|v: usize, c: usize|
        #[trigger] vd.dom().contains(v) && #[trigger] edge(a, v, c) ==> c != end && discovered(
            hist,
            c,
            vd[v] + 1,
        )
}

/// The goal never ends a recorded entry: its discovery returns at once.
spec fn no_entry_ends_at(hist: Seq<Seq<usize>>, end: usize) -> bool {
    forall|j: int| 0 <= j < hist.len() ==> (#[trigger] hist[j]).last() != end
}

/// Breadth-first coverage: every route from `start` no longer than the
/// front entry has already been discovered at matching depth.  Kept opaque
/// so that its quantifier over routes only unfolds where a proof asks for
/// it.
#[verifier::opaque]
spec fn coverage_ok(a: Seq<Seq<usize>>, hist: Seq<Seq<usize>>, head: int, start: usize) -> bool {
    forall|p: Seq<usize>|
        #[trigger] is_route(a, p) && p.len() >= 1 && p[0] == start && head < hist.len() && p.len()
            <= hist[head].len() ==> discovered(hist, p.last(), p.len() as int)
}

/// Advancing the head by one entry preserves breadth-first coverage,
/// provided the entry's end node is expanded at matching depth.
#[verifier::rlimit(100)]
proof fn lemma_coverage_step(
    a: Seq<Seq<usize>>,
    hist0: Seq<Seq<usize>>,
    hist1: Seq<Seq<usize>>,
    head: int,
    vd1: Map<usize, int>,
    start: usize,
    end: usize,
)
    requires
        adj_wf(a),
        0 <= head < hist0.len(),
        hist0[head].len() >= 1,
        hist1.len() >= hist0.len(),
        forall|j: int| 0 <= j < hist0.len() ==> #[trigger] hist1[j] == hist0[j],
        entries_sorted(hist1),
        forall|j: int|
            0 <= j < hist1.len() ==> (#[trigger] hist1[j]).len() <= hist0[head].len() + 1,
        coverage_ok(a, hist0, head, start),
        processed_ok(hist1, head + 1, vd1),
        expanded_ok(a, hist1, vd1, end),
    ensures
        coverage_ok(a, hist1, head + 1, start),
{
    assert(coverage_ok(a, hist1, head + 1, start)) by {
        reveal(coverage_ok);
        lemma_coverage_step_body(a, hist0, hist1, head, vd1, start, end);
    }
}

/// The quantified core of [`lemma_coverage_step`], separated so that the
/// opaque coverage predicate is only unfolded here.
#[verifier::rlimit(100)]
proof fn lemma_coverage_step_body(
    a: Seq<Seq<usize>>,
    hist0: Seq<Seq<usize>>,
    hist1: Seq<Seq<usize>>,
    head: int,
    vd1: Map<usize, int>,
    start: usize,
    end: usize,
)
    requires
        adj_wf(a),
        0 <= head < hist0.len(),
        hist0[head].len() >= 1,
        hist1.len() >= hist0.len(),
        forall|j: int| 0 <= j < hist0.len() ==> #[trigger] hist1[j] == hist0[j],
        entries_sorted(hist1),
        forall|j: int|
            0 <= j < hist1.len() ==> (#[trigger] hist1[j]).len() <= hist0[head].len() + 1,
        forall|p: Seq<usize>|
            #[trigger] is_route(a, p) && p.len() >= 1 && p[0] == start && head < hist0.len()
                && p.len() <= hist0[head].len() ==> discovered(hist0, p.last(), p.len() as int),
        processed_ok(hist1, head + 1, vd1),
        expanded_ok(a, hist1, vd1, end),
    ensures
        forall|p: Seq<usize>|
            #[trigger] is_route(a, p) && p.len() >= 1 && p[0] == start && head + 1 < hist1.len()
                && p.len() <= hist1[head + 1].len() ==> discovered(hist1, p.last(), p.len() as int),
{
    let front0 = hist0[head].len() as int;
    assert forall|p: Seq<usize>|
        #[trigger] is_route(a, p) && p.len() >= 1 && p[0] == start && head + 1 < hist1.len()
            && p.len() <= hist1[head + 1].len() implies discovered(hist1, p.last(), p.len() as int) by {
        let front1 = hist1[head + 1].len() as int;
        assert(hist1[head] == hist0[head]);
        assert(hist1[head].len() >= 1);
        assert(front0 <= front1) by {
            assert(hist1[head].len() <= hist1[head + 1].len());
        }
        assert(front1 <= front0 + 1);
        if p.len() <= front0 {
            assert(discovered(hist0, p.last(), p.len() as int));
            let j = choose|j: int|
                0 <= j < hist0.len() && (#[trigger] hist0[j]).last() == p.last() && hist0[j].len()
                    <= p.len();
            assert(hist1[j] == hist0[j]);
            assert(discovered(hist1, p.last(), p.len() as int));
        } else {
            assert(p.len() == front0 + 1);
            assert(front0 >= 1);
            assert(p.len() >= 2);
            let p2 = p.drop_last();
            lemma_route_prefix(a, p);
            assert(p2[0] == start);
            assert(p2.len() == front0);
            assert(discovered(hist0, p2.last(), p2.len() as int));
            let j = choose|j: int|
                0 <= j < hist0.len() && (#[trigger] hist0[j]).last() == p2.last() && hist0[j].len()
                    <= p2.len();
            assert(hist1[j] == hist0[j]);
            assert(j <= head) by {
                if j > head {
                    assert(hist1[head + 1].len() <= hist1[j].len());
                }
            }
            let u = p2.last();
            assert(vd1.dom().contains(u) && vd1[u] <= hist1[j].len());
            assert(edge(a, u, p.last())) by {
                assert(p[p.len() - 2] == u);
                assert(edge(a, p[p.len() - 2], p[p.len() - 2 + 1]));
            }
            assert(discovered(hist1, p.last(), vd1[u] + 1));
            let j2 = choose|j2: int|
                0 <= j2 < hist1.len() && (#[trigger] hist1[j2]).last() == p.last()
                    && hist1[j2].len() <= vd1[u] + 1;
            assert(hist1[j2].len() <= p.len());
        }
    }
}

/// Extending a route by one edge leaves a route.
proof fn lemma_extend_route(a: Seq<Seq<usize>>, p: Seq<usize>, c: usize)
    requires
        is_route(a, p),
        p.len() >= 1,
        edge(a, p.last(), c),
    ensures
        is_route(a, p.push(c)),
{
    let q = p.push(c);
    assert forall|i: int| 0 <= i < q.len() - 1 implies edge(a, #[trigger] q[i], q[i + 1]) by {
        if i < q.len() - 2 {
            assert(q[i] == p[i] && q[i + 1] == p[i + 1]);
            assert(edge(a, p[i], p[i + 1]));
        } else {
            assert(q[i] == p.last() && q[i + 1] == c);
        }
    }
}

/// When the front entry's end node discovers the goal, no connecting route
/// is shorter than the front entry plus that one hop.
#[verifier::rlimit(100)]
proof fn lemma_return_minimal(
    a: Seq<Seq<usize>>,
    hist: Seq<Seq<usize>>,
    head: int,
    vd: Map<usize, int>,
    start: usize,
    end: usize,
)
    requires
        adj_wf(a),
        start != end,
        0 <= head < hist.len(),
        entries_sorted(hist),
        processed_ok(hist, head, vd),
        expanded_ok(a, hist, vd, end),
        coverage_ok(a, hist, head, start),
    ensures
        forall|q: Seq<usize>| connects(a, q, start, end) ==> hist[head].len() + 1 <= q.len(),
{
    assert forall|q: Seq<usize>| connects(a, q, start, end) implies hist[head].len() + 1
        <= q.len() by {
        if q.len() <= hist[head].len() {
            assert(q.len() >= 2) by {
                if q.len() == 1 {
                    assert(q[0] == q.last());
                }
            }
            let q2 = q.drop_last();
            lemma_route_prefix(a, q);
            assert(is_route(a, q2));
            assert(q2[0] == start);
            assert(q2.len() < hist[head].len());
            assert(discovered(hist, q2.last(), q2.len() as int)) by {
                reveal(coverage_ok);
            }
            let j = choose|j: int|
                0 <= j < hist.len() && (#[trigger] hist[j]).last() == q2.last() && hist[j].len()
                    <= q2.len();
            assert(j < head) by {
                if j >= head {
                    assert(hist[head].len() <= hist[j].len());
                }
            }
            let u = q2.last();
            assert(vd.dom().contains(u));
            assert(edge(a, u, end)) by {
                assert(q[q.len() - 2] == u);
                assert(q.last() == end);
                assert(edge(a, q[q.len() - 2], q[q.len() - 2 + 1]));
            }
        }
    }
}

/// Shape of the record after expanding the front entry's end node: one new
/// entry per successor, each the front entry extended by that successor,
/// and none of the successors is the goal.
spec fn expand_shape(
    a: Seq<Seq<usize>>,
    hist_pre: Seq<Seq<usize>>,
    hist: Seq<Seq<usize>>,
    head0: int,
    p0: Seq<usize>,
    node: usize,
    end: usize,
) -> bool {
    &&& 0 <= head0 < hist_pre.len()
    &&& node < a.len()
    &&& hist.len() == hist_pre.len() + a[node as int].len()
    &&& forall|j: int| 0 <= j < hist_pre.len() ==> #[trigger] hist[j] == hist_pre[j]
    &&& forall|k: int|
        0 <= k < a[node as int].len() ==> #[trigger] hist[hist_pre.len() + k] == p0.push(
            a[node as int][k],
        )
    &&& forall|k: int| 0 <= k < a[node as int].len() ==> #[trigger] a[node as int][k] != end
    &&& p0 == hist_pre[head0]
    &&& node == p0.last()
}

proof fn lemma_expand_entries_ok(
    a: Seq<Seq<usize>>,
    hist_pre: Seq<Seq<usize>>,
    hist: Seq<Seq<usize>>,
    head0: int,
    p0: Seq<usize>,
    node: usize,
    start: usize,
    end: usize,
)
    requires
        adj_wf(a),
        expand_shape(a, hist_pre, hist, head0, p0, node, end),
        entries_ok(a, hist_pre, start),
    ensures
        entries_ok(a, hist, start),
{
    let base = hist_pre.len() as int;
    assert forall|j: int| 0 <= j < hist.len() implies {
        let p = #[trigger] hist[j];
        &&& p.len() >= 1
        &&& p[0] == start
        &&& is_route(a, p)
        &&& forall|ii: int| 0 <= ii < p.len() ==> #[trigger] p[ii] < a.len()
    } by {
        if j < base {
            assert(hist[j] == hist_pre[j]);
        } else {
            let k = j - base;
            let c = a[node as int][k];
            assert(hist[base + k] == p0.push(a[node as int][k]));
            let p = hist[j];
            assert(edge(a, node, c)) by {
                assert(a[node as int][k] == c);
            }
            lemma_edge_target(a, node, c);
            lemma_extend_route(a, p0, c);
            assert forall|ii: int| 0 <= ii < p.len() implies #[trigger] p[ii] < a.len() by {
                if ii < p.len() - 1 {
                    assert(p[ii] == p0[ii]);
                    assert(p0[ii] < a.len());
                } else {
                    assert(p[ii] == c);
                }
            }
        }
    }
}

proof fn lemma_expand_sorted(
    a: Seq<Seq<usize>>,
    hist_pre: Seq<Seq<usize>>,
    hist: Seq<Seq<usize>>,
    head0: int,
    p0: Seq<usize>,
    node: usize,
    end: usize,
)
    requires
        expand_shape(a, hist_pre, hist, head0, p0, node, end),
        entries_sorted(hist_pre),
        back_bounded(hist_pre, head0),
    ensures
        entries_sorted(hist),
        back_bounded(hist, head0 + 1),
        forall|j: int|
            0 <= j < hist.len() ==> (#[trigger] hist[j]).len() <= hist_pre[head0].len() + 1,
{
    let base = hist_pre.len() as int;
    let front0 = hist_pre[head0].len() as int;
    assert forall|j: int| 0 <= j < hist.len() implies (#[trigger] hist[j]).len() <= front0 + 1 by {
        if j < base {
            assert(hist[j] == hist_pre[j]);
            assert(hist[j].len() <= front0 + 1);
        } else {
            assert(hist[base + (j - base)] == p0.push(a[node as int][j - base]));
            assert(hist[j].len() == p0.len() + 1);
        }
    }
    assert forall|x: int, y: int|
        #![trigger hist[x], hist[y]]
        0 <= x <= y < hist.len() implies hist[x].len() <= hist[y].len() by {
        if y < base {
            assert(hist[x] == hist_pre[x] && hist[y] == hist_pre[y]);
        } else if x < base {
            assert(hist[x] == hist_pre[x]);
            assert(hist[x].len() <= front0 + 1);
            assert(hist[base + (y - base)] == p0.push(a[node as int][y - base]));
            assert(hist[y].len() == p0.len() + 1);
        } else {
            assert(hist[base + (x - base)] == p0.push(a[node as int][x - base]));
            assert(hist[base + (y - base)] == p0.push(a[node as int][y - base]));
            assert(hist[x].len() == p0.len() + 1);
            assert(hist[y].len() == p0.len() + 1);
        }
    }
    assert forall|j: int|
        0 <= j < hist.len() && head0 + 1 < hist.len() implies (#[trigger] hist[j]).len() <= hist[head0
        + 1].len() + 1 by {
        assert(hist[head0] == hist_pre[head0]);
        assert(hist[head0].len() <= hist[head0 + 1].len());
        if j < base {
            assert(hist[j] == hist_pre[j]);
            assert(hist[j].len() <= front0 + 1);
        } else {
            assert(hist[base + (j - base)] == p0.push(a[node as int][j - base]));
            assert(hist[j].len() == p0.len() + 1);
        }
    }
}

proof fn lemma_expand_maps(
    a: Seq<Seq<usize>>,
    hist_pre: Seq<Seq<usize>>,
    hist: Seq<Seq<usize>>,
    head0: int,
    p0: Seq<usize>,
    node: usize,
    vd_pre: Map<usize, int>,
    vd: Map<usize, int>,
    end: usize,
)
    requires
        expand_shape(a, hist_pre, hist, head0, p0, node, end),
        processed_ok(hist_pre, head0, vd_pre),
        vd_ok(a, hist_pre, head0, vd_pre),
        !vd_pre.dom().contains(node),
        vd == vd_pre.insert(node, p0.len() as int),
    ensures
        processed_ok(hist, head0 + 1, vd),
        vd_ok(a, hist, head0 + 1, vd),
{
    assert forall|j: int| 0 <= j < head0 + 1 implies vd.dom().contains(
        (#[trigger] hist[j]).last(),
    ) && vd[hist[j].last()] <= hist[j].len() by {
        assert(hist[j] == hist_pre[j]);
        if j < head0 {
            assert(vd_pre.dom().contains(hist_pre[j].last()));
        } else {
            assert(hist[j].last() == node);
        }
    }
    assert forall|v: usize| #[trigger] vd.dom().contains(v) implies v < a.len() && exists|ii: int|
        0 <= ii < head0 + 1 && (#[trigger] hist[ii]).last() == v && hist[ii].len() == vd[v] by {
        if v == node {
            assert(hist[head0] == hist_pre[head0]);
            assert(hist[head0].last() == node && hist[head0].len() == vd[node]);
        } else {
            assert(vd_pre.dom().contains(v));
            let ii = choose|ii: int|
                0 <= ii < head0 && (#[trigger] hist_pre[ii]).last() == v && hist_pre[ii].len()
                    == vd_pre[v];
            assert(hist[ii] == hist_pre[ii]);
        }
    }
}

proof fn lemma_expand_expanded(
    a: Seq<Seq<usize>>,
    hist_pre: Seq<Seq<usize>>,
    hist: Seq<Seq<usize>>,
    head0: int,
    p0: Seq<usize>,
    node: usize,
    vd_pre: Map<usize, int>,
    vd: Map<usize, int>,
    end: usize,
)
    requires
        expand_shape(a, hist_pre, hist, head0, p0, node, end),
        expanded_ok(a, hist_pre, vd_pre, end),
        no_entry_ends_at(hist_pre, end),
        vd == vd_pre.insert(node, p0.len() as int),
    ensures
        expanded_ok(a, hist, vd, end),
        no_entry_ends_at(hist, end),
{
    let base = hist_pre.len() as int;
    assert forall|v: usize, c: usize|
        #[trigger] vd.dom().contains(v) && #[trigger] edge(a, v, c) implies c != end && discovered(
        hist,
        c,
        vd[v] + 1,
    ) by {
        if v == node {
            let k = choose|k: int| 0 <= k < a[node as int].len() && a[node as int][k] == c;
            assert(a[node as int][k] != end);
            assert(hist[base + k] == p0.push(a[node as int][k]));
            assert(hist[base + k].last() == c);
            assert(hist[base + k].len() == p0.len() + 1);
            assert(vd[v] == p0.len());
            assert(discovered(hist, c, vd[v] + 1));
        } else {
            assert(vd_pre.dom().contains(v));
            assert(discovered(hist_pre, c, vd_pre[v] + 1));
            let j = choose|j: int|
                0 <= j < hist_pre.len() && (#[trigger] hist_pre[j]).last() == c && hist_pre[j].len()
                    <= vd_pre[v] + 1;
            assert(hist[j] == hist_pre[j]);
            assert(discovered(hist, c, vd[v] + 1));
        }
    }
    assert forall|j: int| 0 <= j < hist.len() implies (#[trigger] hist[j]).last() != end by {
        if j < base {
            assert(hist[j] == hist_pre[j]);
        } else {
            assert(hist[base + (j - base)] == p0.push(a[node as int][j - base]));
            assert(hist[j].last() == a[node as int][j - base]);
        }
    }
}

/// Re-establishes the traversal invariants after expanding the front
/// entry's end node: its successor entries were appended, the node was
/// recorded at the front entry's depth, and the head moved on by one.
#[verifier::rlimit(100)]
proof fn lemma_expand_invariants(
    a: Seq<Seq<usize>>,
    hist_pre: Seq<Seq<usize>>,
    hist: Seq<Seq<usize>>,
    head0: int,
    p0: Seq<usize>,
    node: usize,
    vd_pre: Map<usize, int>,
    vd: Map<usize, int>,
    start: usize,
    end: usize,
)
    requires
        adj_wf(a),
        start < a.len(),
        start != end,
        0 <= head0 < hist_pre.len(),
        node < a.len(),
        hist.len() == hist_pre.len() + a[node as int].len(),
        forall|j: int| 0 <= j < hist_pre.len() ==> #[trigger] hist[j] == hist_pre[j],
        forall|k: int|
            0 <= k < a[node as int].len() ==> #[trigger] hist[hist_pre.len() + k] == p0.push(
                a[node as int][k],
            ),
        forall|k: int| 0 <= k < a[node as int].len() ==> #[trigger] a[node as int][k] != end,
        p0 == hist_pre[head0],
        node == p0.last(),
        hist_pre.len() >= 1,
        hist_pre[0] == seq![start],
        entries_ok(a, hist_pre, start),
        entries_sorted(hist_pre),
        back_bounded(hist_pre, head0),
        processed_ok(hist_pre, head0, vd_pre),
        vd_ok(a, hist_pre, head0, vd_pre),
        expanded_ok(a, hist_pre, vd_pre, end),
        no_entry_ends_at(hist_pre, end),
        coverage_ok(a, hist_pre, head0, start),
        !vd_pre.dom().contains(node),
        vd == vd_pre.insert(node, p0.len() as int),
    ensures
        hist.len() >= 1,
        hist[0] == seq![start],
        entries_ok(a, hist, start),
        entries_sorted(hist),
        back_bounded(hist, head0 + 1),
        processed_ok(hist, head0 + 1, vd),
        vd_ok(a, hist, head0 + 1, vd),
        expanded_ok(a, hist, vd, end),
        no_entry_ends_at(hist, end),
        coverage_ok(a, hist, head0 + 1, start),
{
    lemma_expand_entries_ok(a, hist_pre, hist, head0, p0, node, start, end);
    lemma_expand_sorted(a, hist_pre, hist, head0, p0, node, end);
    lemma_expand_maps(a, hist_pre, hist, head0, p0, node, vd_pre, vd, end);
    lemma_expand_expanded(a, hist_pre, hist, head0, p0, node, vd_pre, vd, end);
    assert(vd.dom().contains(node) && vd[node] <= hist_pre[head0].len());
    assert(hist_pre[head0].len() >= 1);
    lemma_coverage_step(a, hist_pre, hist, head0, vd, start, end);
}

/// Re-establishes the traversal invariants when the front entry's end node
/// was expanded before: the head just moves on by one.
proof fn lemma_skip_invariants(
    a: Seq<Seq<usize>>,
    hist: Seq<Seq<usize>>,
    head0: int,
    node: usize,
    vd: Map<usize, int>,
    start: usize,
    end: usize,
)
    requires
        adj_wf(a),
        0 <= head0 < hist.len(),
        node == hist[head0].last(),
        vd.dom().contains(node),
        entries_ok(a, hist, start),
        entries_sorted(hist),
        back_bounded(hist, head0),
        processed_ok(hist, head0, vd),
        vd_ok(a, hist, head0, vd),
        expanded_ok(a, hist, vd, end),
        coverage_ok(a, hist, head0, start),
    ensures
        back_bounded(hist, head0 + 1),
        processed_ok(hist, head0 + 1, vd),
        vd_ok(a, hist, head0 + 1, vd),
        coverage_ok(a, hist, head0 + 1, start),
{
    assert(vd[node] <= hist[head0].len()) by {
        let ii = choose|ii: int|
            0 <= ii < head0 && (#[trigger] hist[ii]).last() == node && hist[ii].len() == vd[node];
        assert(hist[ii].len() <= hist[head0].len());
    }
    assert(processed_ok(hist, head0 + 1, vd)) by {
        assert forall|j: int| 0 <= j < head0 + 1 implies vd.dom().contains(
            (#[trigger] hist[j]).last(),
        ) && vd[hist[j].last()] <= hist[j].len() by {
            if j == head0 {
                assert(hist[j].last() == node);
            }
        }
    }
    assert(back_bounded(hist, head0 + 1)) by {
        assert forall|j: int|
            0 <= j < hist.len() && head0 + 1 < hist.len() implies (#[trigger] hist[j]).len()
            <= hist[head0 + 1].len() + 1 by {
            assert(hist[head0].len() <= hist[head0 + 1].len());
            assert(hist[j].len() <= hist[head0].len() + 1);
        }
    }
    assert(vd_ok(a, hist, head0 + 1, vd)) by {
        assert forall|v: usize| #[trigger] vd.dom().contains(v) implies v < a.len() && exists|ii: int|
            0 <= ii < head0 + 1 && (#[trigger] hist[ii]).last() == v && hist[ii].len() == vd[v] by {
            let ii = choose|ii: int|
                0 <= ii < head0 && (#[trigger] hist[ii]).last() == v && hist[ii].len() == vd[v];
            assert(0 <= ii < head0 + 1 && hist[ii].last() == v && hist[ii].len() == vd[v]);
        }
    }
    assert forall|j: int| 0 <= j < hist.len() implies (#[trigger] hist[j]).len() <= hist[head0].len()
        + 1 by {}
    assert(hist[head0].len() >= 1);
    lemma_coverage_step(a, hist, hist, head0, vd, start, end);
}

/// Once every entry is processed, every route from `start` ends at a
/// discovered node.
proof fn lemma_drained(
    a: Seq<Seq<usize>>,
    hist: Seq<Seq<usize>>,
    vd: Map<usize, int>,
    start: usize,
    end: usize,
    p: Seq<usize>,
)
    requires
        adj_wf(a),
        hist.len() >= 1,
        hist[0] == seq![start],
        entries_ok(a, hist, start),
        processed_ok(hist, hist.len() as int, vd),
        expanded_ok(a, hist, vd, end),
        is_route(a, p),
        p.len() >= 1,
        p[0] == start,
    ensures
        discovered(hist, p.last(), p.len() as int),
    decreases p.len(),
{
    if p.len() == 1 {
        assert(hist[0].last() == start);
        assert(discovered(hist, p.last(), 1));
    } else {
        let p2 = p.drop_last();
        lemma_route_prefix(a, p);
        lemma_drained(a, hist, vd, start, end, p2);
        let j = choose|j: int|
            0 <= j < hist.len() && (#[trigger] hist[j]).last() == p2.last() && hist[j].len()
                <= p2.len();
        let u = p2.last();
        assert(vd.dom().contains(u) && vd[u] <= hist[j].len());
        assert(edge(a, u, p.last())) by {
            assert(p[p.len() - 2] == u);
            assert(edge(a, p[p.len() - 2], p[p.len() - 2 + 1]));
        }
        assert(discovered(hist, p.last(), vd[u] + 1));
        let j2 = choose|j2: int|
            0 <= j2 < hist.len() && (#[trigger] hist[j2]).last() == p.last() && hist[j2].len() <= vd[u]
                + 1;
        assert(hist[j2].len() <= p.len());
    }
}

/// Copies a path of floor ids.
fn copy_path(p: &Vec<usize>) -> (r: Vec<usize>)
    ensures
        r@ == p@,
{
    let mut r: Vec<usize> = Vec::new();
    let n = p.len();
    for i in 0..n
        invariant
            n == p@.len(),
            r@ == p@.subrange(0, i as int),
    {
        r.push(p[i]);
        proof {
            assert(r@ =~= p@.subrange(0, i + 1 as int));
        }
    }
    proof {
        assert(r@ =~= p@);
    }
    r
}

/// Breadth-first search over an unweighted directed graph, given as an
/// adjacency list indexed by node id.
///
/// Returns the node ids from the step after `start` up to and including
/// `end`, in traversal order, so the result for `start == end` is an empty
/// sequence.  Among all routes from `start` to `end` the returned one has
/// the fewest hops; ties are broken by the fixed enumeration order of each
/// adjacency row, so the result is reproducible.  Returns `None` exactly
/// when no route of any length leads from `start` to `end`.
#[verifier::rlimit(100)]
#[verifier::loop_isolation(false)]
pub fn weightless_breadth_first_search(graph: &Vec<Vec<usize>>, start: usize, end: usize) -> (r:
    Option<Vec<usize>>)
    requires
        adj_wf(adj_view(graph@)),
    ensures
        ({
            let a = adj_view(graph@);
            match r {
                Some(p) => {
                    &&& (start == end ==> p@ == Seq::<usize>::empty())
                    &&& (start != end ==> connects(a, seq![start] + p@, start, end))
                    &&& (start != end ==> forall|q: Seq<usize>|
                        connects(a, q, start, end) ==> p@.len() + 1 <= q.len())
                    &&& p@.len() <= a.len()
                },
                None => forall|q: Seq<usize>| !connects(a, q, start, end),
            }
        }),
{
    let ghost a = adj_view(graph@);
    if start == end {
        return Some(Vec::new());
    }
    let n = graph.len();
    proof {
        assert(a.len() == n);
    }
    if start >= n {
        proof {
            assert forall|q: Seq<usize>| !connects(a, q, start, end) by {
                if connects(a, q, start, end) {
                    if q.len() == 1 {
                        assert(q[0] == q.last());
                    } else {
                        assert(edge(a, q[0], q[1]));
                    }
                }
            }
        }
        return None;
    }
    let mut queue: Vec<Vec<usize>> = Vec::new();
    let mut first: Vec<usize> = Vec::new();
    first.push(start);
    proof {
        assert(first@ =~= seq![start]);
    }
    queue.push(first);
    let mut head: usize = 0;
    let mut visited: Vec<bool> = Vec::new();
    for k in 0..n
        invariant
            visited@.len() == k,
            forall|v: int| 0 <= v < k ==> !(#[trigger] visited@[v]),
    {
        visited.push(false);
    }
    let ghost mut hist: Seq<Seq<usize>> = seq![seq![start]];
    let ghost mut vd: Map<usize, int> = Map::empty();
    proof {
        assert(hist[0] == seq![start]);
        assert(hist[0].last() == start && hist[0].len() == 1);
        assert(coverage_ok(a, hist, 0, start)) by {
            reveal(coverage_ok);
            assert forall|p: Seq<usize>|
                #[trigger] is_route(a, p) && p.len() >= 1 && p[0] == start && 0 < hist.len()
                    && p.len() <= hist[0].len() implies discovered(hist, p.last(), p.len() as int) by {
                assert(p.len() == 1);
                assert(p.last() == start);
            }
        }
    }
    while head < queue.len()
        invariant
            visited@.len() == n,
            head <= queue.len(),
            hist.len() == queue@.len(),
            forall|j: int| 0 <= j < queue@.len() ==> hist[j] == (#[trigger] queue@[j])@,
            forall|v: usize| v < n ==> ((#[trigger] visited@[v as int]) <==> vd.dom().contains(v)),
            hist.len() >= 1,
            hist[0] == seq![start],
            entries_ok(a, hist, start),
            entries_sorted(hist),
            back_bounded(hist, head as int),
            processed_ok(hist, head as int, vd),
            vd_ok(a, hist, head as int, vd),
            expanded_ok(a, hist, vd, end),
            no_entry_ends_at(hist, end),
            coverage_ok(a, hist, head as int, start),
        decreases queue.len() - head + pending_degree(a, visited@, n as int),
    {
        proof {
            lemma_pending_degree_nonneg(a, visited@, n as int);
        }
        let ghost hist_pre = hist;
        let ghost vd_pre = vd;
        let ghost visited_pre = visited@;
        let ghost head0 = head as int;
        let p0 = copy_path(&queue[head]);
        let node = p0[p0.len() - 1];
        proof {
            assert(hist[head0] == queue@[head0]@);
            assert(p0@ == hist[head0]);
            assert(node == hist[head0].last());
            assert(node < n);
        }
        if !visited[node] {
            let deg = graph[node].len();
            proof {
                assert(graph@[node as int]@ == a[node as int]);
                assert(deg == a[node as int].len());
            }
            let ghost base = hist.len();
            let mut i: usize = 0;
            while i < deg
                invariant
                    i <= deg,
                    hist.len() == queue@.len(),
                    forall|j: int| 0 <= j < queue@.len() ==> hist[j] == (#[trigger] queue@[j])@,
                    hist.len() == base + i,
                    forall|j: int| 0 <= j < base ==> #[trigger] hist[j] == hist_pre[j],
                    forall|k: int|
                        0 <= k < i ==> #[trigger] hist[base + k] == p0@.push(a[node as int][k]),
                    forall|k: int| 0 <= k < i ==> #[trigger] a[node as int][k] != end,
                decreases deg - i,
            {
                let c = graph[node][i];
                proof {
                    assert(c == a[node as int][i as int]);
                    assert(edge(a, node, c)) by {
                        assert(a[node as int][i as int] == c);
                    }
                    lemma_edge_target(a, node, c);
                }
                let mut next = copy_path(&p0);
                next.push(c);
                proof {
                    assert(next@ == p0@.push(c));
                }
                if c == end {
                    let mut out = next;
                    out.remove(0);
                    proof {
                        let full = seq![start] + out@;
                        assert(out@ == p0@.push(c).remove(0));
                        assert(full =~= p0@.push(c)) by {
                            assert(p0@[0] == start);
                        }
                        lemma_extend_route(a, p0@, c);
                        assert(connects(a, full, start, end));
                        lemma_return_minimal(a, hist_pre, head0, vd_pre, start, end);
                        assert(forall|q: Seq<usize>|
                            connects(a, q, start, end) ==> out@.len() + 1 <= q.len());
                        lemma_min_connects_bound(a, full, start, end);
                        assert(out@.len() <= a.len());
                    }
                    return Some(out);
                }
                let ghost nv = next@;
                queue.push(next);
                proof {
                    hist = hist.push(nv);
                    assert(hist[base + i as int] == p0@.push(a[node as int][i as int]));
                }
                i += 1;
            }
            visited.set(node, true);
            proof {
                vd = vd.insert(node, p0@.len() as int);
                lemma_pending_degree_update(a, visited_pre, node as int, n as int);
                lemma_pending_degree_nonneg(a, visited@, n as int);
            }
            head += 1;
            proof {
                lemma_expand_invariants(
                    a,
                    hist_pre,
                    hist,
                    head0,
                    p0@,
                    node,
                    vd_pre,
                    vd,
                    start,
                    end,
                );
            }
        } else {
            head += 1;
            proof {
                lemma_skip_invariants(a, hist, head0, node, vd, start, end);
            }
        }
    }
    proof {
        assert forall|q: Seq<usize>| !connects(a, q, start, end) by {
            if connects(a, q, start, end) {
                assert(is_route(a, q));
                lemma_drained(a, hist, vd, start, end, q);
                let j = choose|j: int|
                    0 <= j < hist.len() && (#[trigger] hist[j]).last() == q.last() && hist[j].len()
                        <= q.len();
                assert(hist[j].last() != end);
            }
        }
    }
    None
}

/// A directed edge of the floor graph: `v` occurs among `u`'s successors
/// (walking, digging or jump, in enumeration order).
pub open spec fn graph_edge(floors: Seq<Floor>, u: usize, v: usize) -> bool {
    u < floors.len() && floors[u as int].successors().contains(v)
}

/// Consecutive elements of `p` are joined by floor-graph edges.
pub open spec fn graph_route(floors: Seq<Floor>, p: Seq<usize>) -> bool {
    forall|i: int| 0 <= i < p.len() - 1 ==> graph_edge(floors, #[trigger] p[i], p[i + 1])
}

/// `p` is a floor-graph route from `s` to `t`, endpoints included.
pub open spec fn graph_connects(floors: Seq<Floor>, p: Seq<usize>, s: usize, t: usize) -> bool {
    p.len() >= 1 && p[0] == s && p.last() == t && graph_route(floors, p)
}

/// The successors of one floor, as a vector in enumeration order.
fn successor_row(f: &Floor) -> (row: Vec<usize>)
    ensures
        row@ == f.successors(),
{
    let ghost pre = crate::graph::neighbor_ids(f.id_left_walking_neighbor)
        + crate::graph::neighbor_ids(f.id_right_walking_neighbor) + crate::graph::neighbor_ids(
        f.id_left_digging_neighbor,
    ) + crate::graph::neighbor_ids(f.id_right_digging_neighbor);
    let mut row: Vec<usize> = Vec::new();
    match f.id_left_walking_neighbor {
        Some(k) => row.push(k),
        None => {},
    }
    match f.id_right_walking_neighbor {
        Some(k) => row.push(k),
        None => {},
    }
    match f.id_left_digging_neighbor {
        Some(k) => row.push(k),
        None => {},
    }
    match f.id_right_digging_neighbor {
        Some(k) => row.push(k),
        None => {},
    }
    proof {
        assert(row@ =~= pre);
    }
    let m = f.id_jump_neighbors.len();
    for j in 0..m
        invariant
            m == f.id_jump_neighbors@.len(),
            row@ =~= pre + f.jump_targets().subrange(0, j as int),
    {
        row.push(f.id_jump_neighbors[j].id_target);
        proof {
            assert(f.jump_targets()[j as int] == f.id_jump_neighbors@[j as int].id_target);
            assert(row@ =~= pre + f.jump_targets().subrange(0, j + 1 as int));
        }
    }
    proof {
        assert(f.jump_targets().subrange(0, m as int) =~= f.jump_targets());
        assert(row@ =~= f.successors());
    }
    row
}

/// The adjacency list of a well-formed floor graph, row `i` holding floor
/// `i`'s successors in enumeration order.
fn build_adjacency(graph: &FloorGraph) -> (adj: Vec<Vec<usize>>)
    requires
        graph.wf(),
    ensures
        adj@.len() == graph.floors@.len(),
        forall|i: int| 0 <= i < adj@.len() ==> (#[trigger] adj@[i])@ == graph.floors@[i].successors(),
        adj_wf(adj_view(adj@)),
{
    let n = graph.floors.len();
    let mut adj: Vec<Vec<usize>> = Vec::new();
    for i in 0..n
        invariant
            n == graph.floors@.len(),
            graph.wf(),
            adj@.len() == i,
            forall|k: int|
                0 <= k < i ==> (#[trigger] adj@[k])@ == graph.floors@[k].successors(),
    {
        let row = successor_row(&graph.floors[i]);
        adj.push(row);
    }
    proof {
        let a = adj_view(adj@);
        assert forall|i: int, j: int|
            0 <= i < a.len() && 0 <= j < a[i].len() implies #[trigger] a[i][j] < a.len() by {
            let f = graph.floors@[i];
            assert(f.links_valid(n as int));
            assert(a[i] == f.successors());
            let s = f.successors();
            assert(s[j] < n) by {
                let nl = crate::graph::neighbor_ids(f.id_left_walking_neighbor)
                    + crate::graph::neighbor_ids(f.id_right_walking_neighbor)
                    + crate::graph::neighbor_ids(f.id_left_digging_neighbor)
                    + crate::graph::neighbor_ids(f.id_right_digging_neighbor);
                if j < nl.len() {
                    assert(s[j] == nl[j]);
                } else {
                    assert(s[j] == f.jump_targets()[j - nl.len()]);
                    assert(f.id_jump_neighbors@[j - nl.len()].id_target < n);
                }
            }
        }
    }
    adj
}

/// Shortest route over the floor graph: an unweighted breadth-first search
/// treating every walking, digging and jump edge as one directed hop.
///
/// Returns the floor ids from the step after `start` up to and including
/// `goal`, in traversal order; `Some` of the empty sequence when `start ==
/// goal`; `None` exactly when no route of any edge type leads from `start`
/// to `goal`.  Among several shortest routes the result is the one
/// determined by the fixed edge enumeration order, so it is reproducible.
pub fn find_path(graph: &FloorGraph, start: usize, goal: usize) -> (r: Option<Vec<usize>>)
    requires
        graph.wf(),
    ensures
        ({
            let floors = graph.floors@;
            match r {
                Some(p) => {
                    &&& (start == goal ==> p@ == Seq::<usize>::empty())
                    &&& (start != goal ==> graph_connects(floors, seq![start] + p@, start, goal))
                    &&& (start != goal ==> forall|q: Seq<usize>|
                        graph_connects(floors, q, start, goal) ==> p@.len() + 1 <= q.len())
                    &&& p@.len() <= floors.len()
                },
                None => forall|q: Seq<usize>| !graph_connects(floors, q, start, goal),
            }
        }),
{
    let adj = build_adjacency(graph);
    let r = weightless_breadth_first_search(&adj, start, goal);
    proof {
        let a = adj_view(adj@);
        let floors = graph.floors@;
        assert forall|u: usize, v: usize| #[trigger] edge(a, u, v) == #[trigger] graph_edge(
            floors,
            u,
            v,
        ) by {
            if u < floors.len() {
                assert(a[u as int] == floors[u as int].successors());
            }
        }
        assert forall|p: Seq<usize>| #[trigger] is_route(a, p) == #[trigger] graph_route(
            floors,
            p,
        ) by {
            if is_route(a, p) {
                assert forall|i: int| 0 <= i < p.len() - 1 implies graph_edge(
                    floors,
                    #[trigger] p[i],
                    p[i + 1],
                ) by {
                    assert(edge(a, p[i], p[i + 1]));
                }
            }
            if graph_route(floors, p) {
                assert forall|i: int| 0 <= i < p.len() - 1 implies edge(
                    a,
                    #[trigger] p[i],
                    p[i + 1],
                ) by {
                    assert(graph_edge(floors, p[i], p[i + 1]));
                }
            }
        }
        match &r {
            Some(p) => {
                if start != goal {
                    assert(graph_connects(floors, seq![start] + p@, start, goal));
                    assert forall|q: Seq<usize>|
                        graph_connects(floors, q, start, goal) implies p@.len() + 1 <= q.len() by {
                        assert(connects(a, q, start, goal));
                    }
                }
            },
            None => {
                assert forall|q: Seq<usize>| !graph_connects(floors, q, start, goal) by {
                    assert(!connects(a, q, start, goal));
                }
            },
        }
    }
    r
}

} // verus!
