use vstd::prelude::*;

use crate::csr::{ascending, Csr};
use crate::graph::UndirectedCsrGraph;
use crate::Error;

verus! {

/// Nodes claimed by one unit of parallel work.
pub const CHUNK_SIZE: usize = 64;

/// Number of entries `w` of `b` with `w < bound` that also occur in `a`.
pub open spec fn common_below(a: Seq<usize>, b: Seq<usize>, bound: usize) -> nat
    decreases b.len(),
{
    if b.len() == 0 {
        0
    } else {
        common_below(a, b.drop_last(), bound) + if b.last() < bound && a.contains(b.last()) {
            1nat
        } else {
            0nat
        }
    }
}

/// Triangles `w < v < u` closed at `u`, over the first `k` neighbours `v` of `u`.
pub open spec fn node_triangles_upto(g: Csr, u: int, k: int) -> nat
    decreases k,
{
    if k <= 0 {
        0
    } else {
        let v = g.adj(u)[k - 1];
        node_triangles_upto(g, u, k - 1) + if v < u {
            common_below(g.adj(u), g.adj(v as int), v)
        } else {
            0nat
        }
    }
}

/// Triangles `w < v < u` whose largest node is `u`.
pub open spec fn node_triangles(g: Csr, u: int) -> nat {
    node_triangles_upto(g, u, g.adj(u).len() as int)
}

/// Triangles whose largest node lies in `[lo, hi)`.
pub open spec fn range_triangles(g: Csr, lo: int, hi: int) -> nat
    decreases hi - lo,
{
    if hi <= lo {
        0
    } else {
        range_triangles(g, lo, hi - 1) + node_triangles(g, hi - 1)
    }
}

/// Triangles of the whole graph, each counted once at its largest node.
pub open spec fn triangles(g: Csr) -> nat {
    range_triangles(g, 0, g.nodes() as int)
}

/// The graph a counter accepts: well formed, ascending neighbour lists, and few
/// enough neighbour slots that any count fits in a `u64`.
pub open spec fn countable(g: Csr) -> bool {
    &&& g.wf()
    &&& g.all_ascending()
    &&& g.targets@.len() * g.targets@.len() <= u64::MAX
}

proof fn lemma_common_below_bounded(a: Seq<usize>, b: Seq<usize>, bound: usize)
    ensures
        common_below(a, b, bound) <= b.len(),
    decreases b.len(),
{
    if b.len() > 0 {
        lemma_common_below_bounded(a, b.drop_last(), bound);
    }
}

/// Entries from `j` on that reach the bound add nothing.
proof fn lemma_common_below_cut(a: Seq<usize>, b: Seq<usize>, bound: usize, j: int)
    requires
        0 <= j <= b.len(),
        forall|m: int| j <= m < b.len() ==> b[m] >= bound,
    ensures
        common_below(a, b.take(j), bound) == common_below(a, b, bound),
    decreases b.len() - j,
{
    if j < b.len() {
        assert(b.drop_last().take(j) =~= b.take(j));
        lemma_common_below_cut(a, b.drop_last(), bound, j);
    } else {
        assert(b.take(j) =~= b);
    }
}

proof fn lemma_node_upto_bounded(g: Csr, u: int, k: int)
    requires
        g.wf(),
        0 <= u < g.nodes(),
        0 <= k <= g.adj(u).len(),
    ensures
        node_triangles_upto(g, u, k) <= k * g.targets@.len(),
    decreases k,
{
    if k > 0 {
        lemma_node_upto_bounded(g, u, k - 1);
        g.lemma_offsets_monotone(u);
        let v = g.adj(u)[k - 1];
        let e = g.targets@.len();
        if v < u {
            g.lemma_offsets_monotone(v as int);
            lemma_common_below_bounded(g.adj(u), g.adj(v as int), v);
        }
        assert((k - 1) * e + e == k * e) by (nonlinear_arith);
    }
}

/// Neighbours from `k` on that are not below `u` add nothing.
proof fn lemma_node_upto_cut(g: Csr, u: int, k: int, m: int)
    requires
        0 <= k <= m <= g.adj(u).len(),
        forall|i: int| k <= i < g.adj(u).len() ==> g.adj(u)[i] >= u,
    ensures
        node_triangles_upto(g, u, m) == node_triangles_upto(g, u, k),
    decreases m - k,
{
    if m > k {
        lemma_node_upto_cut(g, u, k, m - 1);
    }
}

proof fn lemma_range_bounded(g: Csr, lo: int, hi: int)
    requires
        g.wf(),
        0 <= lo <= hi <= g.nodes(),
    ensures
        range_triangles(g, lo, hi) <= (g.offsets@[hi] - g.offsets@[lo]) * g.targets@.len(),
    decreases hi - lo,
{
    if hi > lo {
        lemma_range_bounded(g, lo, hi - 1);
        g.lemma_offsets_monotone(hi - 1);
        lemma_node_upto_bounded(g, hi - 1, g.adj(hi - 1).len() as int);
        let e = g.targets@.len() as int;
        let a = g.offsets@[hi - 1] - g.offsets@[lo];
        let b = g.offsets@[hi] - g.offsets@[hi - 1];
        assert(a * e + b * e == (a + b) * e) by (nonlinear_arith);
    }
}

/// The triangles in `[lo, hi)` are those in `[lo, mid)` and those in `[mid, hi)`:
/// however the nodes are cut into ranges, the counts of the ranges add up to the
/// same total.
pub proof fn lemma_range_split(g: Csr, lo: int, mid: int, hi: int)
    requires
        lo <= mid <= hi,
    ensures
        range_triangles(g, lo, hi) == range_triangles(g, lo, mid) + range_triangles(g, mid, hi),
    decreases hi - mid,
{
    if hi > mid {
        lemma_range_split(g, lo, mid, hi - 1);
    }
}

/// Sum of the triangle counts of the ranges between consecutive cut points.
pub open spec fn chunks_total(g: Csr, cuts: Seq<int>) -> nat
    decreases cuts.len(),
{
    if cuts.len() < 2 {
        0
    } else {
        chunks_total(g, cuts.drop_last()) + range_triangles(
            g,
            cuts[cuts.len() - 2],
            cuts[cuts.len() - 1],
        )
    }
}

/// However the nodes are cut into consecutive ranges, and however the ranges are
/// shared among workers, the counts of the ranges add up to the count of the
/// whole graph.
pub proof fn lemma_chunks_cover(g: Csr, cuts: Seq<int>)
    requires
        cuts.len() >= 1,
        cuts[0] == 0,
        cuts.last() == g.nodes(),
        forall|i: int| 0 <= i < cuts.len() - 1 ==> cuts[i] <= #[trigger] cuts[i + 1],
    ensures
        chunks_total(g, cuts) == triangles(g),
{
    lemma_chunks_prefix(g, cuts);
}

proof fn lemma_chunks_prefix(g: Csr, cuts: Seq<int>)
    requires
        cuts.len() >= 1,
        forall|i: int| 0 <= i < cuts.len() - 1 ==> cuts[i] <= #[trigger] cuts[i + 1],
    ensures
        chunks_total(g, cuts) == range_triangles(g, cuts[0], cuts.last()),
    decreases cuts.len(),
{
    if cuts.len() >= 2 {
        let head = cuts.drop_last();
        assert forall|i: int| 0 <= i < head.len() - 1 implies head[i] <= #[trigger] head[i + 1] by {
            assert(cuts[i] <= cuts[i + 1]);
        }
        lemma_chunks_prefix(g, head);
        lemma_chunks_ordered(cuts, cuts.len() - 2);
        let j = cuts.len() - 2;
        assert(cuts[j] <= cuts[j + 1]);
        lemma_range_split(g, cuts[0], cuts[cuts.len() - 2], cuts[cuts.len() - 1]);
    }
}

proof fn lemma_chunks_ordered(cuts: Seq<int>, k: int)
    requires
        0 <= k < cuts.len(),
        forall|i: int| 0 <= i < cuts.len() - 1 ==> cuts[i] <= #[trigger] cuts[i + 1],
    ensures
        cuts[0] <= cuts[k],
    decreases k,
{
    if k > 0 {
        lemma_chunks_ordered(cuts, k - 1);
        let j = k - 1;
        assert(cuts[j] <= cuts[j + 1]);
    }
}

/// Counts the entries `w < bound` of `b` that occur in `a`, walking `a` once with a
/// cursor that never moves back.
pub fn intersect_below(a: &[usize], b: &[usize], bound: usize) -> (r: u64)
    requires
        ascending(a@),
        ascending(b@),
    ensures
        r == common_below(a@, b@, bound),
{
    let mut pos: usize = 0;
    let mut count: u64 = 0;
    let mut j: usize = 0;
    while j < b.len()
        invariant
            ascending(a@),
            ascending(b@),
            pos <= a@.len(),
            j <= b@.len(),
            count == common_below(a@, b@.take(j as int), bound),
            count <= j,
            forall|k: int, m: int| 0 <= k < pos && j <= m < b@.len() ==> a@[k] < b@[m],
        decreases b@.len() - j,
    {
        let w = b[j];
        if w >= bound {
            proof {
                lemma_common_below_cut(a@, b@, bound, j as int);
            }
            return count;
        }
        while pos < a.len() && a[pos] < w
            invariant
                ascending(a@),
                ascending(b@),
                pos <= a@.len(),
                j < b@.len(),
                w == b@[j as int],
                forall|k: int, m: int| 0 <= k < pos && j <= m < b@.len() ==> a@[k] < b@[m],
            decreases a@.len() - pos,
        {
            pos += 1;
        }
        let found = pos < a.len() && a[pos] == w;
        proof {
            assert(b@.take(j + 1).drop_last() =~= b@.take(j as int));
            assert(b@.take(j + 1).last() == w);
            if a@.contains(w) {
                let k = choose|k: int| 0 <= k < a@.len() && a@[k] == w;
                if k >= pos {
                    assert(pos < a@.len());
                    assert(a@[pos as int] <= a@[k]);
                }
            }
            if found {
                assert(a@[pos as int] == w);
            }
        }
        if found {
            count += 1;
        }
        j += 1;
    }
    assert(b@.take(j as int) =~= b@);
    count
}

/// Counts the triangles `w < v < u` whose largest node is `u`.
pub fn count_node(g: &Csr, u: usize) -> (r: u64)
    requires
        countable(*g),
        u < g.nodes(),
    ensures
        r == node_triangles(*g, u as int),
{
    let nu = g.neighbors(u);
    let mut t: u64 = 0;
    let mut k: usize = 0;
    proof {
        g.lemma_offsets_monotone(u as int);
        lemma_node_upto_bounded(*g, u as int, nu@.len() as int);
        assert(nu@.len() * g.targets@.len() <= g.targets@.len() * g.targets@.len())
            by (nonlinear_arith)
            requires
                nu@.len() <= g.targets@.len(),
        ;
    }
    while k < nu.len()
        invariant
            countable(*g),
            u < g.nodes(),
            nu@ == g.adj(u as int),
            k <= nu@.len(),
            t == node_triangles_upto(*g, u as int, k as int),
            node_triangles(*g, u as int) <= u64::MAX,
        decreases nu@.len() - k,
    {
        let v = nu[k];
        if v >= u {
            proof {
                assert forall|i: int| k <= i < nu@.len() implies nu@[i] >= u by {
                    assert(nu@[k as int] <= nu@[i]);
                }
                lemma_node_upto_cut(*g, u as int, k as int, nu@.len() as int);
            }
            return t;
        }
        proof {
            assert(g.targets@.contains(v)) by {
                g.lemma_offsets_monotone(u as int);
                assert(g.targets@[g.offsets@[u as int] + k] == v);
            }
        }
        let nv = g.neighbors(v);
        let c = intersect_below(nu, nv, v);
        proof {
            lemma_node_upto_monotone(*g, u as int, k + 1, nu@.len() as int);
        }
        t = t + c;
        k += 1;
    }
    t
}

proof fn lemma_node_upto_monotone(g: Csr, u: int, k: int, m: int)
    requires
        0 <= k <= m,
    ensures
        node_triangles_upto(g, u, k) <= node_triangles_upto(g, u, m),
    decreases m - k,
{
    if m > k {
        lemma_node_upto_monotone(g, u, k, m - 1);
    }
}

/// Counts the triangles whose largest node lies in `[lo, hi)`.
pub fn count_range(g: &Csr, lo: usize, hi: usize) -> (r: u64)
    requires
        countable(*g),
        lo <= hi <= g.nodes(),
    ensures
        r == range_triangles(*g, lo as int, hi as int),
{
    proof {
        lemma_range_bounded(*g, lo as int, hi as int);
        assert((g.offsets@[hi as int] - g.offsets@[lo as int]) * g.targets@.len()
            <= g.targets@.len() * g.targets@.len()) by (nonlinear_arith)
            requires
                0 <= g.offsets@[hi as int] - g.offsets@[lo as int] <= g.targets@.len(),
        ;
    }
    let mut total: u64 = 0;
    let mut u: usize = lo;
    while u < hi
        invariant
            countable(*g),
            lo <= u <= hi <= g.nodes(),
            total == range_triangles(*g, lo as int, u as int),
            range_triangles(*g, lo as int, hi as int) <= u64::MAX,
        decreases hi - u,
    {
        proof {
            lemma_range_split(*g, lo as int, u as int + 1, hi as int);
        }
        total = total + count_node(g, u);
        u += 1;
    }
    total
}

/// Counts all triangles, walking the nodes in ranges of `chunk_size`; the
/// result does not depend on the range size.
pub fn count_chunked(g: &Csr, chunk_size: usize) -> (r: u64)
    requires
        countable(*g),
        chunk_size > 0,
    ensures
        r == triangles(*g),
{
    let n = g.node_count();
    proof {
        lemma_range_bounded(*g, 0, n as int);
        assert(g.targets@.len() * g.targets@.len() <= u64::MAX);
    }
    let mut total: u64 = 0;
    let mut start: usize = 0;
    while start < n
        invariant
            countable(*g),
            n == g.nodes(),
            start <= n,
            chunk_size > 0,
            total == range_triangles(*g, 0, start as int),
            range_triangles(*g, 0, n as int) <= u64::MAX,
        decreases n - start,
    {
        let end = if n - start < chunk_size {
            n
        } else {
            start + chunk_size
        };
        proof {
            lemma_range_split(*g, 0, start as int, end as int);
            lemma_range_split(*g, 0, end as int, n as int);
        }
        total = total + count_range(g, start, end);
        start = end;
    }
    total
}

/// The next unit of work for a cursor value: the nodes `[start, end)` with
/// `end` at most `CHUNK_SIZE` past `start` and at most `node_count`; `None`
/// once the cursor has passed the last node.
pub fn claim_chunk(start: usize, node_count: usize) -> (r: Option<(usize, usize)>)
    ensures
        start >= node_count ==> r is None,
        start < node_count ==> r == Some(
            (
                start,
                if node_count - start < CHUNK_SIZE {
                    node_count
                } else {
                    (start + CHUNK_SIZE) as usize
                },
            ),
        ),
{
    if start >= node_count {
        None
    } else if node_count - start < CHUNK_SIZE {
        Some((start, node_count))
    } else {
        Some((start, start + CHUNK_SIZE))
    }
}

/// Whether every neighbour list is ascending.
pub fn rows_ascending(g: &Csr) -> (r: bool)
    requires
        g.wf(),
    ensures
        r == g.all_ascending(),
{
    let n = g.node_count();
    let mut u: usize = 0;
    while u < n
        invariant
            g.wf(),
            n == g.nodes(),
            u <= n,
            forall|x: int| 0 <= x < u ==> ascending(#[trigger] g.adj(x)),
        decreases n - u,
    {
        let nu = g.neighbors(u);
        let mut k: usize = 1;
        while k < nu.len()
            invariant
                nu@ == g.adj(u as int),
                u < g.nodes(),
                1 <= k,
                forall|i: int, j: int| 0 <= i <= j < k && j < nu@.len() ==> nu@[i] <= nu@[j],
            decreases nu@.len() - k,
        {
            if nu[k - 1] > nu[k] {
                assert(!ascending(g.adj(u as int)));
                return false;
            }
            k += 1;
        }
        u += 1;
    }
    true
}

/// Counts the triangles of an undirected graph whose neighbour lists are
/// ascending, one range of `CHUNK_SIZE` nodes at a time.
pub fn global_triangle_count(graph: &UndirectedCsrGraph) -> (r: u64)
    requires
        graph.wf(),
        countable(graph.csr),
    ensures
        r == triangles(graph.csr),
{
    count_chunked(&graph.csr, CHUNK_SIZE)
}

/// Counts the triangles after checking the layout: `LayoutViolation` where a
/// neighbour list is not ascending.
pub fn checked_triangle_count(graph: &UndirectedCsrGraph) -> (r: Result<u64, Error>)
    requires
        graph.wf(),
        graph.csr.targets@.len() * graph.csr.targets@.len() <= u64::MAX,
    ensures
        graph.csr.all_ascending() ==> r == Ok::<u64, Error>(triangles(graph.csr) as u64),
        !graph.csr.all_ascending() ==> r == Err::<u64, Error>(Error::LayoutViolation),
{
    if rows_ascending(&graph.csr) {
        Ok(global_triangle_count(graph))
    } else {
        Err(Error::LayoutViolation)
    }
}

/// Two counts of one unchanged graph agree, whatever the range size each used.
pub proof fn lemma_count_deterministic(g: Csr, r1: u64, r2: u64)
    requires
        r1 == triangles(g),
        r2 == triangles(g),
    ensures
        r1 == r2,
{
}

} // verus!
