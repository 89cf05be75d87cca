use vstd::prelude::*;

use crate::csr::{
    ascending, dedup_sorted, same_members, sorted_copy, strictly_ascending, total_len, Csr,
};
use crate::Error;

verus! {

/// Order and multiplicity of each node's neighbours.
#[derive(Clone, Copy, Debug, PartialEq, Eq, Structural)]
pub enum CsrLayout {
    Sorted,
    Unsorted,
    Deduplicated,
}

#[derive(Clone, Copy, Debug, PartialEq, Eq, Structural)]
pub enum Orientation {
    Directed,
    Undirected,
}

/// `g`'s neighbour lists are ordered as `layout` asks.
pub open spec fn layout_holds(g: Csr, layout: CsrLayout) -> bool {
    match layout {
        CsrLayout::Unsorted => true,
        CsrLayout::Sorted => g.all_ascending(),
        CsrLayout::Deduplicated => g.all_ascending() && g.all_strictly_ascending(),
    }
}

/// Edge `e` places `v` among the neighbours of `u`: read forwards (source to
/// target), backwards (target to source), or both.
pub open spec fn places(e: (usize, usize), u: usize, v: usize, fwd: bool, bwd: bool) -> bool {
    (fwd && e.0 == u && e.1 == v) || (bwd && e.1 == u && e.0 == v)
}

/// Some edge of `edges` places `v` among the neighbours of `u`.
pub open spec fn linked(edges: Seq<(usize, usize)>, u: usize, v: usize, fwd: bool, bwd: bool) -> bool {
    exists|i: int| 0 <= i < edges.len() && places(#[trigger] edges[i], u, v, fwd, bwd)
}

/// The neighbours that `edges` give `u`, in edge order: a forward read adds the
/// target to the source's list, a backward read the source to the target's
/// list, and a self-loop read both ways is added once.
pub open spec fn placed(edges: Seq<(usize, usize)>, u: usize, fwd: bool, bwd: bool) -> Seq<usize>
    decreases edges.len(),
{
    if edges.len() == 0 {
        Seq::empty()
    } else {
        let e = edges.last();
        let p = placed(edges.drop_last(), u, fwd, bwd);
        let p1 = if fwd && e.0 == u {
            p.push(e.1)
        } else {
            p
        };
        if bwd && e.1 == u && !(fwd && e.0 == e.1) {
            p1.push(e.0)
        } else {
            p1
        }
    }
}

/// `a` is `placed` arranged as `layout` asks: the same sequence, the same
/// entries in some order, or the same values each once.
pub open spec fn arranged(a: Seq<usize>, placed: Seq<usize>, layout: CsrLayout) -> bool {
    match layout {
        CsrLayout::Unsorted => a == placed,
        CsrLayout::Sorted => a.to_multiset() == placed.to_multiset(),
        CsrLayout::Deduplicated => same_members(a, placed),
    }
}

/// Neighbour slots an edge takes: two for an undirected edge between distinct
/// nodes, one otherwise.
pub open spec fn slots(e: (usize, usize), fwd: bool, bwd: bool) -> nat {
    if fwd && bwd && e.0 != e.1 {
        2
    } else if fwd || bwd {
        1
    } else {
        0
    }
}

pub open spec fn total_slots(edges: Seq<(usize, usize)>, fwd: bool, bwd: bool) -> nat
    decreases edges.len(),
{
    if edges.len() == 0 {
        0
    } else {
        total_slots(edges.drop_last(), fwd, bwd) + slots(edges.last(), fwd, bwd)
    }
}

/// Largest node id named by the edges, plus one; zero for no edges.
pub open spec fn id_bound(edges: Seq<(usize, usize)>) -> nat
    decreases edges.len(),
{
    if edges.len() == 0 {
        0
    } else {
        let e = edges.last();
        let m = if e.0 >= e.1 {
            e.0 + 1
        } else {
            e.1 + 1
        };
        let rest = id_bound(edges.drop_last());
        if rest >= m {
            rest
        } else {
            m as nat
        }
    }
}

proof fn lemma_id_bound(edges: Seq<(usize, usize)>)
    ensures
        forall|i: int| 0 <= i < edges.len() ==> #[trigger] edges[i].0 < id_bound(edges) && edges[i].1 < id_bound(edges),
    decreases edges.len(),
{
    if edges.len() > 0 {
        lemma_id_bound(edges.drop_last());
        assert forall|i: int| 0 <= i < edges.len() - 1 implies #[trigger] edges[i] == edges.drop_last()[i] by {}
    }
}

proof fn lemma_total_slots_bounded(edges: Seq<(usize, usize)>, fwd: bool, bwd: bool)
    ensures
        total_slots(edges, fwd, bwd) <= 2 * edges.len(),
        !(fwd && bwd) ==> total_slots(edges, fwd, bwd) <= edges.len(),
    decreases edges.len(),
{
    if edges.len() > 0 {
        lemma_total_slots_bounded(edges.drop_last(), fwd, bwd);
    }
}

proof fn lemma_total_len_update(lists: Seq<Vec<usize>>, x: int, l: Vec<usize>)
    requires
        0 <= x < lists.len(),
    ensures
        total_len(lists.update(x, l)) + lists[x]@.len() == total_len(lists) + l@.len(),
    decreases lists.len(),
{
    if x < lists.len() - 1 {
        assert(lists.update(x, l).drop_last() =~= lists.drop_last().update(x, l));
        lemma_total_len_update(lists.drop_last(), x, l);
    } else {
        assert(lists.update(x, l).drop_last() =~= lists.drop_last());
    }
}

/// Per-node neighbour lists in edge order.
fn gather(edges: &Vec<(usize, usize)>, n: usize, fwd: bool, bwd: bool) -> (lists: Vec<Vec<usize>>)
    requires
        forall|i: int| 0 <= i < edges@.len() ==> #[trigger] edges@[i].0 < n && edges@[i].1 < n,
        total_slots(edges@, fwd, bwd) <= usize::MAX,
    ensures
        lists@.len() == n,
        total_len(lists@) == total_slots(edges@, fwd, bwd),
        forall|u: int, k: int|
            0 <= u < n && 0 <= k < lists@[u]@.len() ==> #[trigger] lists@[u]@[k] < n,
        forall|u: usize, v: usize|
            u < n ==> (lists@[u as int]@.contains(v) <==> linked(edges@, u, v, fwd, bwd)),
        forall|u: usize| u < n ==> #[trigger] lists@[u as int]@ == placed(edges@, u, fwd, bwd),
{
    let mut lists: Vec<Vec<usize>> = Vec::new();
    let mut u: usize = 0;
    assert(edges@.take(0) =~= Seq::<(usize, usize)>::empty());
    while u < n
        invariant
            u <= n,
            lists@.len() == u,
            total_len(lists@) == 0,
            forall|x: int| 0 <= x < u ==> (#[trigger] lists@[x])@.len() == 0,
        decreases n - u,
    {
        let ghost pre = lists@;
        lists.push(Vec::new());
        assert(lists@.drop_last() =~= pre);
        u += 1;
    }
    let mut i: usize = 0;
    while i < edges.len()
        invariant
            i <= edges@.len(),
            lists@.len() == n,
            forall|j: int| 0 <= j < edges@.len() ==> #[trigger] edges@[j].0 < n && edges@[j].1 < n,
            total_slots(edges@, fwd, bwd) <= usize::MAX,
            total_len(lists@) == total_slots(edges@.take(i as int), fwd, bwd),
            forall|u: usize, v: usize|
                u < n ==> (lists@[u as int]@.contains(v) <==> linked(
                    edges@.take(i as int),
                    u,
                    v,
                    fwd,
                    bwd,
                )),
            forall|u: usize|
                u < n ==> #[trigger] lists@[u as int]@ == placed(edges@.take(i as int), u, fwd, bwd),
        decreases edges@.len() - i,
    {
        let (a, b) = edges[i];
        let ghost before = lists@;
        let ghost seen = edges@.take(i as int);
        let ghost next = edges@.take(i + 1);
        proof {
            assert(next.drop_last() =~= seen);
            assert(next.last() == (a, b));
            assert(edges@[i as int] == (a, b));
            lemma_total_slots_prefix(edges@, i + 1, fwd, bwd);
            assert forall|j: int| 0 <= j < seen.len() implies #[trigger] seen[j] == next[j] by {}
        }
        let ghost mid = lists@;
        if fwd {
            lists[a].push(b);
            proof {
                lemma_total_len_update(before, a as int, lists@[a as int]);
                assert(before.update(a as int, lists@[a as int]) =~= lists@);
                lemma_push_contains(before[a as int]@, b);
                assert(lists@[a as int]@ =~= before[a as int]@.push(b));
            }
        }
        proof {
            mid = lists@;
        }
        let back = bwd && !(fwd && a == b);
        if back {
            lists[b].push(a);
            proof {
                lemma_total_len_update(mid, b as int, lists@[b as int]);
                assert(mid.update(b as int, lists@[b as int]) =~= lists@);
                lemma_push_contains(mid[b as int]@, a);
                assert(lists@[b as int]@ =~= mid[b as int]@.push(a));
            }
        }
        proof {
            assert forall|u: usize| u < n implies #[trigger] lists@[u as int]@ == placed(
                next,
                u,
                fwd,
                bwd,
            ) by {
                if u != a || !fwd {
                    assert(mid[u as int] == before[u as int]);
                }
                if u != b || !back {
                    assert(mid[u as int] == lists@[u as int]);
                }
            }
            assert forall|u: usize, v: usize| u < n implies (lists@[u as int]@.contains(v)
                <==> linked(next, u, v, fwd, bwd)) by {
                if u != a || !fwd {
                    assert(mid[u as int] == before[u as int]);
                }
                if u != b || !back {
                    assert(mid[u as int] == lists@[u as int]);
                }
                assert(mid[u as int]@.contains(v) <==> before[u as int]@.contains(v)
                    || (fwd && u == a && v == b));
                assert(lists@[u as int]@.contains(v) <==> mid[u as int]@.contains(v)
                    || (back && u == b && v == a));
                assert(before[u as int]@.contains(v) <==> linked(seen, u, v, fwd, bwd));
                if linked(next, u, v, fwd, bwd) {
                    let j = choose|j: int| 0 <= j < next.len() && places(#[trigger] next[j], u, v, fwd, bwd);
                    if j < seen.len() {
                        assert(places(seen[j], u, v, fwd, bwd));
                    }
                }
                if linked(seen, u, v, fwd, bwd) {
                    let j = choose|j: int| 0 <= j < seen.len() && places(#[trigger] seen[j], u, v, fwd, bwd);
                    assert(places(next[j], u, v, fwd, bwd));
                }
                if places(next[i as int], u, v, fwd, bwd) {
                    assert(linked(next, u, v, fwd, bwd));
                }
            }
        }
        i += 1;
    }
    assert(edges@.take(edges@.len() as int) =~= edges@);
    assert forall|u: int, k: int|
        0 <= u < n && 0 <= k < lists@[u]@.len() implies #[trigger] lists@[u]@[k] < n by {
        let v = lists@[u]@[k];
        assert(lists@[u]@.contains(v));
        assert(linked(edges@, u as usize, v, fwd, bwd));
        let j = choose|j: int| 0 <= j < edges@.len() && places(#[trigger] edges@[j], u as usize, v, fwd, bwd);
    }
    lists
}

proof fn lemma_push_contains(s: Seq<usize>, y: usize)
    ensures
        forall|v: usize| s.push(y).contains(v) <==> s.contains(v) || v == y,
{
    assert forall|v: usize| s.push(y).contains(v) <==> s.contains(v) || v == y by {
        if s.contains(v) {
            let k = choose|k: int| 0 <= k < s.len() && s[k] == v;
            assert(s.push(y)[k] == v);
        }
        if v == y {
            assert(s.push(y)[s.len() as int] == v);
        }
        if s.push(y).contains(v) {
            let k = choose|k: int| 0 <= k < s.len() + 1 && s.push(y)[k] == v;
            if k < s.len() {
                assert(s[k] == v);
            }
        }
    }
}

proof fn lemma_total_slots_prefix(edges: Seq<(usize, usize)>, k: int, fwd: bool, bwd: bool)
    requires
        0 <= k <= edges.len(),
    ensures
        total_slots(edges.take(k), fwd, bwd) <= total_slots(edges, fwd, bwd),
    decreases edges.len(),
{
    if k < edges.len() {
        assert(edges.drop_last().take(k) =~= edges.take(k));
        lemma_total_slots_prefix(edges.drop_last(), k, fwd, bwd);
    } else {
        assert(edges.take(k) =~= edges);
    }
}

/// Orders each list as `layout` asks: kept as gathered, ascending, or ascending
/// with repeats removed.
fn arrange(lists: &Vec<Vec<usize>>, layout: CsrLayout) -> (out: Vec<Vec<usize>>)
    ensures
        out@.len() == lists@.len(),
        total_len(out@) <= total_len(lists@),
        layout != CsrLayout::Deduplicated ==> total_len(out@) == total_len(lists@),
        forall|u: int| 0 <= u < lists@.len() ==> same_members(#[trigger] out@[u]@, lists@[u]@),
        forall|u: int| 0 <= u < lists@.len() ==> arranged(#[trigger] out@[u]@, lists@[u]@, layout),
        layout != CsrLayout::Unsorted ==> forall|u: int|
            0 <= u < lists@.len() ==> ascending(#[trigger] out@[u]@),
        layout == CsrLayout::Deduplicated ==> forall|u: int|
            0 <= u < lists@.len() ==> strictly_ascending(#[trigger] out@[u]@),
{
    let mut out: Vec<Vec<usize>> = Vec::new();
    let mut u: usize = 0;
    while u < lists.len()
        invariant
            u <= lists@.len(),
            out@.len() == u,
            total_len(out@) <= total_len(lists@.take(u as int)),
            layout != CsrLayout::Deduplicated ==> total_len(out@) == total_len(lists@.take(u as int)),
            forall|x: int| 0 <= x < u ==> same_members(#[trigger] out@[x]@, lists@[x]@),
            forall|x: int| 0 <= x < u ==> arranged(#[trigger] out@[x]@, lists@[x]@, layout),
            layout != CsrLayout::Unsorted ==> forall|x: int|
                0 <= x < u ==> ascending(#[trigger] out@[x]@),
            layout == CsrLayout::Deduplicated ==> forall|x: int|
                0 <= x < u ==> strictly_ascending(#[trigger] out@[x]@),
        decreases lists@.len() - u,
    {
        let list = &lists[u];
        let arranged = match layout {
            CsrLayout::Unsorted => list.clone(),
            CsrLayout::Sorted => sorted_copy(list.as_slice()),
            CsrLayout::Deduplicated => {
                let sorted = sorted_copy(list.as_slice());
                dedup_sorted(&sorted)
            },
        };
        proof {
            if layout == CsrLayout::Unsorted {
                assert(arranged@ =~= list@);
            }
            if layout == CsrLayout::Deduplicated {
                assert forall|i: int, j: int| 0 <= i <= j < arranged@.len() implies arranged@[i] <= arranged@[j] by {
                    if i < j {
                        assert(arranged@[i] < arranged@[j]);
                    }
                }
            }
        }
        let ghost pre = out@;
        out.push(arranged);
        proof {
            assert(out@.drop_last() =~= pre);
            assert(lists@.take(u + 1).drop_last() =~= lists@.take(u as int));
        }
        u += 1;
    }
    assert(lists@.take(lists@.len() as int) =~= lists@);
    out
}

/// Builds the rows for `n` nodes from `edges`, each edge read forwards,
/// backwards or both.
pub fn build_csr(
    edges: &Vec<(usize, usize)>,
    n: usize,
    layout: CsrLayout,
    fwd: bool,
    bwd: bool,
) -> (g: Csr)
    requires
        forall|i: int| 0 <= i < edges@.len() ==> #[trigger] edges@[i].0 < n && edges@[i].1 < n,
        n < usize::MAX,
        total_slots(edges@, fwd, bwd) <= usize::MAX,
    ensures
        g.wf(),
        g.nodes() == n,
        layout_holds(g, layout),
        layout != CsrLayout::Deduplicated ==> g.targets@.len() == total_slots(edges@, fwd, bwd),
        forall|u: usize, v: usize|
            u < n ==> (g.adj(u as int).contains(v) <==> linked(edges@, u, v, fwd, bwd)),
        forall|u: usize|
            u < n ==> arranged(#[trigger] g.adj(u as int), placed(edges@, u, fwd, bwd), layout),
{
    let lists = gather(edges, n, fwd, bwd);
    let out = arrange(&lists, layout);
    proof {
        assert forall|u: int, k: int|
            0 <= u < out@.len() && 0 <= k < out@[u]@.len() implies #[trigger] out@[u]@[k] < out@.len() by {
            let v = out@[u]@[k];
            assert(out@[u]@.contains(v));
            assert(same_members(out@[u]@, lists@[u]@));
            assert(lists@[u]@.contains(v));
            let j = choose|j: int| 0 <= j < lists@[u]@.len() && lists@[u]@[j] == v;
        }
    }
    let g = Csr::from_lists(&out);
    proof {
        assert forall|u: usize, v: usize| u < n implies (g.adj(u as int).contains(v)
            <==> linked(edges@, u, v, fwd, bwd)) by {
            assert(same_members(out@[u as int]@, lists@[u as int]@));
        }
        assert forall|u: usize| u < n implies arranged(
            #[trigger] g.adj(u as int),
            placed(edges@, u, fwd, bwd),
            layout,
        ) by {
            assert(arranged(out@[u as int]@, lists@[u as int]@, layout));
            assert(lists@[u as int]@ == placed(edges@, u, fwd, bwd));
        }
        if layout != CsrLayout::Unsorted {
            assert forall|u: int| 0 <= u < g.nodes() implies ascending(#[trigger] g.adj(u)) by {
                assert(ascending(out@[u]@));
            }
        }
        if layout == CsrLayout::Deduplicated {
            assert forall|u: int| 0 <= u < g.nodes() implies strictly_ascending(#[trigger] g.adj(u)) by {
                assert(strictly_ascending(out@[u]@));
            }
        }
    }
    g
}

/// Slots that the edges take, where that count fits in a `usize`.
fn count_slots(edges: &Vec<(usize, usize)>, fwd: bool, bwd: bool) -> (r: Option<usize>)
    ensures
        r == (if total_slots(edges@, fwd, bwd) <= usize::MAX {
            Some(total_slots(edges@, fwd, bwd) as usize)
        } else {
            None::<usize>
        }),
{
    let mut total: usize = 0;
    let mut i: usize = 0;
    while i < edges.len()
        invariant
            i <= edges@.len(),
            total == total_slots(edges@.take(i as int), fwd, bwd),
        decreases edges@.len() - i,
    {
        let (a, b) = edges[i];
        let add: usize = if fwd && bwd && a != b {
            2
        } else if fwd || bwd {
            1
        } else {
            0
        };
        proof {
            assert(edges@.take(i + 1).drop_last() =~= edges@.take(i as int));
            assert(edges@.take(i + 1).last() == edges@[i as int]);
            lemma_total_slots_prefix(edges@, i + 1, fwd, bwd);
        }
        if total > usize::MAX - add {
            proof {
                lemma_total_slots_prefix(edges@, i + 1, fwd, bwd);
            }
            return None;
        }
        total = total + add;
        i += 1;
    }
    assert(edges@.take(i as int) =~= edges@);
    Some(total)
}

/// The raw input: `(source, target)` pairs in the order given.
pub struct EdgeList {
    pub edges: Vec<(usize, usize)>,
}

impl EdgeList {
    pub fn new(edges: Vec<(usize, usize)>) -> (r: EdgeList)
        ensures
            r.edges@ == edges@,
    {
        EdgeList { edges }
    }

    /// One more than the largest node id, zero without edges; `None` where that
    /// count leaves no room for the offset past the last node.
    pub fn node_count(&self) -> (r: Option<usize>)
        ensures
            r == (if id_bound(self.edges@) < usize::MAX {
                Some(id_bound(self.edges@) as usize)
            } else {
                None::<usize>
            }),
    {
        let mut bound: usize = 0;
        let mut i: usize = 0;
        while i < self.edges.len()
            invariant
                i <= self.edges@.len(),
                bound == id_bound(self.edges@.take(i as int)),
                bound < usize::MAX,
            decreases self.edges@.len() - i,
        {
            let (a, b) = self.edges[i];
            proof {
                assert(self.edges@.take(i + 1).drop_last() =~= self.edges@.take(i as int));
                assert(self.edges@.take(i + 1).last() == self.edges@[i as int]);
            }
            if a >= usize::MAX - 1 || b >= usize::MAX - 1 {
                proof {
                    lemma_id_bound(self.edges@);
                }
                return None;
            }
            let m = if a >= b {
                a + 1
            } else {
                b + 1
            };
            if m > bound {
                bound = m;
            }
            i += 1;
        }
        assert(self.edges@.take(i as int) =~= self.edges@);
        Some(bound)
    }
}

/// Each neighbour relation is mutual.
pub open spec fn symmetric(g: Csr) -> bool {
    forall|u: usize, v: usize|
        u < g.nodes() && v < g.nodes() ==> (g.adj(u as int).contains(v) <==> g.adj(
            v as int,
        ).contains(u))
}

/// In an undirected graph `v` is a neighbour of `u` exactly when `u` is a
/// neighbour of `v`.
pub proof fn lemma_neighbours_mutual(g: &UndirectedCsrGraph, u: usize, v: usize)
    requires
        g.wf(),
        u < g.csr.nodes(),
        v < g.csr.nodes(),
    ensures
        g.csr.adj(u as int).contains(v) <==> g.csr.adj(v as int).contains(u),
{
}

/// An undirected graph: every edge is a neighbour of both its ends.
pub struct UndirectedCsrGraph {
    pub csr: Csr,
    pub edges: usize,
}

impl UndirectedCsrGraph {
    /// Well-formed rows, mutual neighbours, and the edge count that halves the
    /// slots once self-loops are counted twice.
    pub open spec fn wf(&self) -> bool {
        &&& self.csr.wf()
        &&& symmetric(self.csr)
        &&& self.edges == (self.csr.targets@.len() + self.csr.loop_slots(self.csr.nodes() as int))
            / 2
    }

    /// The graph holds exactly the edges of `edges`, in both directions.
    pub open spec fn built_from(&self, edges: Seq<(usize, usize)>, layout: CsrLayout) -> bool {
        &&& self.wf()
        &&& self.csr.nodes() == id_bound(edges)
        &&& layout_holds(self.csr, layout)
        &&& forall|u: usize|
            u < self.csr.nodes() ==> arranged(
                #[trigger] self.csr.adj(u as int),
                placed(edges, u, true, true),
                layout,
            )
        &&& forall|u: usize, v: usize|
            u < self.csr.nodes() ==> (self.csr.adj(u as int).contains(v) <==> linked(
                edges,
                u,
                v,
                true,
                true,
            ))
    }

    /// Builds the graph; fails with `IdOverflow` where a node id leaves no room
    /// for the offsets, else with `AllocFailure` where the neighbour slots do not
    /// fit in a `usize`.
    pub fn from_edge_list(edge_list: &EdgeList, layout: CsrLayout) -> (r: Result<
        UndirectedCsrGraph,
        Error,
    >)
        ensures
            id_bound(edge_list.edges@) >= usize::MAX ==> r == Err::<UndirectedCsrGraph, Error>(
                Error::IdOverflow,
            ),
            id_bound(edge_list.edges@) < usize::MAX && total_slots(edge_list.edges@, true, true)
                > usize::MAX ==> r == Err::<UndirectedCsrGraph, Error>(Error::AllocFailure),
            id_bound(edge_list.edges@) < usize::MAX && total_slots(edge_list.edges@, true, true)
                <= usize::MAX ==> (r matches Ok(g) && g.built_from(edge_list.edges@, layout)),
    {
        let n = match edge_list.node_count() {
            Some(n) => n,
            None => {
                return Err(Error::IdOverflow);
            },
        };
        if count_slots(&edge_list.edges, true, true).is_none() {
            return Err(Error::AllocFailure);
        }
        proof {
            lemma_id_bound(edge_list.edges@);
        }
        let csr = build_csr(&edge_list.edges, n, layout, true, true);
        proof {
            assert forall|u: usize, v: usize|
                u < csr.nodes() && v < csr.nodes() implies (csr.adj(u as int).contains(v)
                <==> csr.adj(v as int).contains(u)) by {
                if linked(edge_list.edges@, u, v, true, true) {
                    let i = choose|i: int| 0 <= i < edge_list.edges@.len() && places(#[trigger] edge_list.edges@[i], u, v, true, true);
                    assert(places(edge_list.edges@[i], v, u, true, true));
                }
                if linked(edge_list.edges@, v, u, true, true) {
                    let i = choose|i: int| 0 <= i < edge_list.edges@.len() && places(#[trigger] edge_list.edges@[i], v, u, true, true);
                    assert(places(edge_list.edges@[i], u, v, true, true));
                }
            }
        }
        let loops = csr.self_loop_slots();
        let t = csr.targets.len();
        let edges = (t - loops) / 2 + loops;
        Ok(UndirectedCsrGraph { csr, edges })
    }

    pub fn node_count(&self) -> (r: usize)
        requires
            self.wf(),
        ensures
            r == self.csr.nodes(),
    {
        self.csr.node_count()
    }

    pub fn edge_count(&self) -> (r: usize)
        ensures
            r == self.edges,
    {
        self.edges
    }

    pub fn degree(&self, node: usize) -> (r: usize)
        requires
            self.wf(),
            node < self.csr.nodes(),
        ensures
            r == self.csr.adj(node as int).len(),
    {
        self.csr.degree(node)
    }

    pub fn neighbors(&self, node: usize) -> (r: &[usize])
        requires
            self.wf(),
            node < self.csr.nodes(),
        ensures
            r@ == self.csr.adj(node as int),
    {
        self.csr.neighbors(node)
    }
}

/// A directed graph with both its outgoing and its incoming rows.
pub struct DirectedCsrGraph {
    pub out: Csr,
    pub inc: Csr,
}

impl DirectedCsrGraph {
    /// Both rows are well formed over the same nodes, and `v` is an
    /// out-neighbour of `u` exactly when `u` is an in-neighbour of `v`.
    pub open spec fn wf(&self) -> bool {
        &&& self.out.wf()
        &&& self.inc.wf()
        &&& self.out.nodes() == self.inc.nodes()
        &&& forall|u: usize, v: usize|
            u < self.out.nodes() && v < self.out.nodes() ==> (self.out.adj(u as int).contains(v)
                <==> self.inc.adj(v as int).contains(u))
    }

    /// The out-rows hold exactly the edges of `edges`.
    pub open spec fn built_from(&self, edges: Seq<(usize, usize)>, layout: CsrLayout) -> bool {
        &&& self.wf()
        &&& self.out.nodes() == id_bound(edges)
        &&& layout_holds(self.out, layout)
        &&& layout_holds(self.inc, layout)
        &&& forall|u: usize|
            u < self.out.nodes() ==> arranged(
                #[trigger] self.out.adj(u as int),
                placed(edges, u, true, false),
                layout,
            )
        &&& forall|u: usize|
            u < self.out.nodes() ==> arranged(
                #[trigger] self.inc.adj(u as int),
                placed(edges, u, false, true),
                layout,
            )
        &&& forall|u: usize, v: usize|
            u < self.out.nodes() ==> (self.out.adj(u as int).contains(v) <==> linked(
                edges,
                u,
                v,
                true,
                false,
            ))
    }

    /// Builds the graph; fails with `IdOverflow` where a node id leaves no room
    /// for the offsets.
    pub fn from_edge_list(edge_list: &EdgeList, layout: CsrLayout) -> (r: Result<
        DirectedCsrGraph,
        Error,
    >)
        ensures
            id_bound(edge_list.edges@) >= usize::MAX ==> r == Err::<DirectedCsrGraph, Error>(
                Error::IdOverflow,
            ),
            id_bound(edge_list.edges@) < usize::MAX ==> (r matches Ok(g) && g.built_from(
                edge_list.edges@,
                layout,
            )),
    {
        let n = match edge_list.node_count() {
            Some(n) => n,
            None => {
                return Err(Error::IdOverflow);
            },
        };
        let m = edge_list.edges.len();
        proof {
            lemma_id_bound(edge_list.edges@);
            lemma_total_slots_bounded(edge_list.edges@, true, false);
            lemma_total_slots_bounded(edge_list.edges@, false, true);
        }
        let out = build_csr(&edge_list.edges, n, layout, true, false);
        let inc = build_csr(&edge_list.edges, n, layout, false, true);
        proof {
            assert forall|u: usize, v: usize|
                u < n && v < n implies (out.adj(u as int).contains(v) <==> inc.adj(
                v as int,
            ).contains(u)) by {
                if linked(edge_list.edges@, u, v, true, false) {
                    let i = choose|i: int| 0 <= i < edge_list.edges@.len() && places(#[trigger] edge_list.edges@[i], u, v, true, false);
                    assert(places(edge_list.edges@[i], v, u, false, true));
                }
                if linked(edge_list.edges@, v, u, false, true) {
                    let i = choose|i: int| 0 <= i < edge_list.edges@.len() && places(#[trigger] edge_list.edges@[i], v, u, false, true);
                    assert(places(edge_list.edges@[i], u, v, true, false));
                }
            }
        }
        Ok(DirectedCsrGraph { out, inc })
    }

    pub fn node_count(&self) -> (r: usize)
        requires
            self.wf(),
        ensures
            r == self.out.nodes(),
    {
        self.out.node_count()
    }

    /// Number of out-neighbour slots.
    pub fn edge_count(&self) -> (r: usize)
        ensures
            r == self.out.targets@.len(),
    {
        self.out.targets.len()
    }

    pub fn out_degree(&self, node: usize) -> (r: usize)
        requires
            self.wf(),
            node < self.out.nodes(),
        ensures
            r == self.out.adj(node as int).len(),
    {
        self.out.degree(node)
    }

    pub fn out_neighbors(&self, node: usize) -> (r: &[usize])
        requires
            self.wf(),
            node < self.out.nodes(),
        ensures
            r@ == self.out.adj(node as int),
    {
        self.out.neighbors(node)
    }

    pub fn in_degree(&self, node: usize) -> (r: usize)
        requires
            self.wf(),
            node < self.inc.nodes(),
        ensures
            r == self.inc.adj(node as int).len(),
    {
        self.inc.degree(node)
    }

    pub fn in_neighbors(&self, node: usize) -> (r: &[usize])
        requires
            self.wf(),
            node < self.inc.nodes(),
        ensures
            r@ == self.inc.adj(node as int),
    {
        self.inc.neighbors(node)
    }
}

} // verus!
