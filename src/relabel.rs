use vstd::prelude::*;

use crate::csr::{ascending, sorted_copy, strictly_ascending, Csr};
use crate::graph::{symmetric, UndirectedCsrGraph};

verus! {

/// `perm` is a permutation of the nodes `0..n`.
pub open spec fn is_permutation(perm: Seq<usize>, n: nat) -> bool {
    &&& perm.len() == n
    &&& forall|i: int| 0 <= i < n ==> #[trigger] perm[i] < n
    &&& forall|i: int, j: int| 0 <= i < j < n ==> perm[i] != perm[j]
    &&& forall|x: usize| x < n ==> perm.contains(x)
}

/// Node `i` of `new` is node `perm[i]` of `old`: the same degree, and the
/// neighbours renamed by `perm`.
pub open spec fn relabelled(old: Csr, new: Csr, perm: Seq<usize>) -> bool {
    &&& new.nodes() == old.nodes()
    &&& is_permutation(perm, old.nodes())
    &&& forall|i: int|
        0 <= i < old.nodes() ==> (#[trigger] new.adj(i)).len() == old.adj(perm[i] as int).len()
    &&& forall|i: int, v: usize|
        0 <= i < old.nodes() && v < old.nodes() ==> (#[trigger] new.adj(i).contains(v)
            <==> old.adj(perm[i] as int).contains(perm[v as int]))
}

/// Degrees never increase from one node id to the next.
pub open spec fn degree_ordered(g: Csr) -> bool {
    forall|i: int, j: int| 0 <= i <= j < g.nodes() ==> g.adj(i).len() >= g.adj(j).len()
}

/// Node ids by non-increasing `degs`, equal degrees by ascending id.
fn degree_order(degs: &Vec<usize>) -> (perm: Vec<usize>)
    ensures
        is_permutation(perm@, degs@.len()),
        forall|i: int, j: int|
            0 <= i <= j < perm@.len() ==> degs@[perm@[i] as int] >= degs@[perm@[j] as int],
        forall|i: int, j: int|
            0 <= i < j < perm@.len() && degs@[perm@[i] as int] == degs@[perm@[j] as int]
                ==> perm@[i] < perm@[j],
{
    let n = degs.len();
    let mut r: Vec<usize> = Vec::new();
    let mut x: usize = 0;
    while x < n
        invariant
            n == degs@.len(),
            x <= n,
            r@.len() == x,
            forall|i: int| 0 <= i < x ==> #[trigger] r@[i] < x,
            forall|i: int, j: int| 0 <= i < j < x ==> r@[i] != r@[j],
            forall|y: usize| y < x ==> r@.contains(y),
            forall|i: int, j: int|
                0 <= i <= j < r@.len() ==> degs@[r@[i] as int] >= degs@[r@[j] as int],
            forall|i: int, j: int|
                0 <= i < j < r@.len() && degs@[r@[i] as int] == degs@[r@[j] as int] ==> r@[i]
                    < r@[j],
        decreases n - x,
    {
        let d = degs[x];
        let mut j: usize = r.len();
        while j > 0 && degs[r[j - 1]] < d
            invariant
                n == degs@.len(),
                x < n,
                d == degs@[x as int],
                j <= r@.len(),
                forall|i: int| 0 <= i < r@.len() ==> #[trigger] r@[i] < x,
                forall|k: int| j <= k < r@.len() ==> degs@[r@[k] as int] < d,
            decreases j,
        {
            j -= 1;
        }
        let ghost old_r = r@;
        r.insert(j, x);
        proof {
            old_r.insert_ensures(j as int, x);
            if j > 0 {
                assert(degs@[old_r[j - 1] as int] >= d);
            }
            assert forall|a: int, b: int| 0 <= a <= b < r@.len() implies degs@[r@[a] as int]
                >= degs@[r@[b] as int] by {
                if a < j && b > j {
                    assert(r@[b] == old_r[b - 1]);
                    assert(degs@[old_r[a] as int] >= degs@[old_r[b - 1] as int]);
                }
                if a < j && b == j {
                    assert(degs@[old_r[a] as int] >= degs@[old_r[j - 1] as int]);
                }
                if a > j {
                    assert(r@[a] == old_r[a - 1]);
                    assert(r@[b] == old_r[b - 1]);
                }
                if a == j && b > j {
                    assert(r@[b] == old_r[b - 1]);
                }
            }
            assert forall|a: int, b: int|
                0 <= a < b < r@.len() && degs@[r@[a] as int] == degs@[r@[b] as int] implies r@[a]
                < r@[b] by {
                if a < j && b > j {
                    assert(r@[b] == old_r[b - 1]);
                }
                if a > j {
                    assert(r@[a] == old_r[a - 1]);
                    assert(r@[b] == old_r[b - 1]);
                }
                if a == j && b > j {
                    assert(r@[b] == old_r[b - 1]);
                }
                if a < j && b == j {
                    assert(old_r[a] < x);
                }
            }
            assert forall|i: int| 0 <= i < x + 1 implies #[trigger] r@[i] < x + 1 by {
                if i > j {
                    assert(r@[i] == old_r[i - 1]);
                }
            }
            assert forall|a: int, b: int| 0 <= a < b < x + 1 implies r@[a] != r@[b] by {
                if a < j && b > j {
                    assert(r@[b] == old_r[b - 1]);
                }
                if a > j {
                    assert(r@[a] == old_r[a - 1]);
                    assert(r@[b] == old_r[b - 1]);
                }
                if a == j && b > j {
                    assert(r@[b] == old_r[b - 1]);
                    assert(old_r[b - 1] < x);
                }
                if a < j && b == j {
                    assert(old_r[a] < x);
                }
            }
            assert forall|y: usize| y < x + 1 implies r@.contains(y) by {
                if y == x {
                    assert(r@[j as int] == y);
                } else {
                    assert(old_r.contains(y));
                    let k = choose|k: int| 0 <= k < old_r.len() && old_r[k] == y;
                    if k < j {
                        assert(r@[k] == y);
                    } else {
                        assert(r@[k + 1] == y);
                    }
                }
            }
        }
        x += 1;
    }
    r
}

/// The inverse of a permutation of `0..n`.
fn invert(perm: &Vec<usize>) -> (inv: Vec<usize>)
    requires
        is_permutation(perm@, perm@.len()),
    ensures
        inv@.len() == perm@.len(),
        forall|i: int| 0 <= i < perm@.len() ==> inv@[perm@[i] as int] == i,
        forall|x: int| 0 <= x < perm@.len() ==> #[trigger] inv@[x] < perm@.len() && perm@[inv@[x] as int] == x,
{
    let n = perm.len();
    let mut inv: Vec<usize> = Vec::new();
    let mut k: usize = 0;
    while k < n
        invariant
            k <= n,
            inv@.len() == k,
        decreases n - k,
    {
        inv.push(0);
        k += 1;
    }
    let mut i: usize = 0;
    while i < n
        invariant
            n == perm@.len(),
            is_permutation(perm@, perm@.len()),
            inv@.len() == n,
            i <= n,
            forall|k: int| 0 <= k < i ==> inv@[perm@[k] as int] == k,
        decreases n - i,
    {
        let p = perm[i];
        inv.set(p, i);
        proof {
            assert forall|k: int| 0 <= k < i + 1 implies inv@[perm@[k] as int] == k by {
                if k < i {
                    assert(perm@[k] != perm@[i as int]);
                }
            }
        }
        i += 1;
    }
    proof {
        assert forall|x: int| 0 <= x < n implies #[trigger] inv@[x] < n && perm@[inv@[x] as int] == x by {
            assert(perm@.contains(x as usize));
            let k = choose|k: int| 0 <= k < n && perm@[k] == x as usize;
            assert(inv@[perm@[k] as int] == k);
        }
    }
    inv
}

/// Renames the nodes so that degrees never increase with the id, equal
/// degrees keeping their order, and sorts every neighbour list.
pub fn degree_ordered_csr(g: &Csr) -> (r: Csr)
    requires
        g.wf(),
    ensures
        r.wf(),
        r.all_ascending(),
        g.all_strictly_ascending() ==> r.all_strictly_ascending(),
        degree_ordered(r),
        exists|perm: Seq<usize>| relabelled(*g, r, perm),
{
    let n = g.node_count();
    let mut degs: Vec<usize> = Vec::new();
    let mut x: usize = 0;
    while x < n
        invariant
            g.wf(),
            n == g.nodes(),
            x <= n,
            degs@.len() == x,
            forall|y: int| 0 <= y < x ==> degs@[y] == g.adj(y).len(),
        decreases n - x,
    {
        degs.push(g.degree(x));
        x += 1;
    }
    let perm = degree_order(&degs);
    let inv = invert(&perm);
    let mut lists: Vec<Vec<usize>> = Vec::new();
    let mut i: usize = 0;
    while i < n
        invariant
            g.wf(),
            n == g.nodes(),
            i <= n,
            degs@.len() == n,
            forall|y: int| 0 <= y < n ==> degs@[y] == g.adj(y).len(),
            is_permutation(perm@, n as nat),
            inv@.len() == n,
            forall|x: int| 0 <= x < n ==> #[trigger] inv@[x] < n && perm@[inv@[x] as int] == x,
            forall|k: int| 0 <= k < n ==> inv@[perm@[k] as int] == k,
            lists@.len() == i,
            forall|y: int, k: int|
                0 <= y < i && 0 <= k < lists@[y]@.len() ==> #[trigger] lists@[y]@[k] < n,
            forall|y: int| 0 <= y < i ==> ascending(#[trigger] lists@[y]@),
            g.all_strictly_ascending() ==> forall|y: int|
                0 <= y < i ==> strictly_ascending(#[trigger] lists@[y]@),
            forall|y: int| 0 <= y < i ==> (#[trigger] lists@[y]@).len() == g.adj(perm@[y] as int).len(),
            forall|y: int, v: usize|
                0 <= y < i && v < n ==> (#[trigger] lists@[y]@.contains(v) <==> g.adj(
                    perm@[y] as int,
                ).contains(perm@[v as int])),
        decreases n - i,
    {
        let p = perm[i];
        let old_adj = g.neighbors(p);
        let mut mapped: Vec<usize> = Vec::new();
        let mut k: usize = 0;
        while k < old_adj.len()
            invariant
                g.wf(),
                n == g.nodes(),
                p < n,
                old_adj@ == g.adj(p as int),
                inv@.len() == n,
                forall|x: int| 0 <= x < n ==> #[trigger] inv@[x] < n && perm@[inv@[x] as int] == x,
                k <= old_adj@.len(),
                mapped@.len() == k,
                forall|j: int| 0 <= j < k ==> #[trigger] mapped@[j] == inv@[old_adj@[j] as int],
            decreases old_adj@.len() - k,
        {
            proof {
                g.lemma_offsets_monotone(p as int);
                assert(g.targets@[g.offsets@[p as int] + k] == old_adj@[k as int]);
            }
            mapped.push(inv[old_adj[k]]);
            k += 1;
        }
        let sorted = sorted_copy(mapped.as_slice());
        proof {
            g.lemma_offsets_monotone(p as int);
            assert forall|j: int| 0 <= j < old_adj@.len() implies #[trigger] old_adj@[j] < n by {
                assert(g.targets@[g.offsets@[p as int] + j] == old_adj@[j]);
            }
            assert forall|v: usize| v < n implies (sorted@.contains(v) <==> old_adj@.contains(
                perm@[v as int],
            )) by {
                if mapped@.contains(v) {
                    let j = choose|j: int| 0 <= j < mapped@.len() && mapped@[j] == v;
                    assert(perm@[inv@[old_adj@[j] as int] as int] == old_adj@[j]);
                    assert(old_adj@[j] == perm@[v as int]);
                }
                if old_adj@.contains(perm@[v as int]) {
                    let j = choose|j: int| 0 <= j < old_adj@.len() && old_adj@[j] == perm@[v as int];
                    assert(mapped@[j] == v);
                }
            }
            assert forall|j: int| 0 <= j < sorted@.len() implies #[trigger] sorted@[j] < n by {
                assert(sorted@.contains(sorted@[j]));
                assert(mapped@.contains(sorted@[j]));
                let m = choose|m: int| 0 <= m < mapped@.len() && mapped@[m] == sorted@[j];
                assert(inv@[old_adj@[m] as int] < n);
            }
        }
        proof {
            if g.all_strictly_ascending() {
                assert(strictly_ascending(old_adj@));
                assert forall|j1: int, j2: int|
                    0 <= j1 < mapped@.len() && 0 <= j2 < mapped@.len() && j1 != j2 implies mapped@[j1]
                    != mapped@[j2] by {
                    assert(perm@[inv@[old_adj@[j1] as int] as int] == old_adj@[j1]);
                    assert(perm@[inv@[old_adj@[j2] as int] as int] == old_adj@[j2]);
                    if j1 < j2 {
                        assert(old_adj@[j1] < old_adj@[j2]);
                    } else {
                        assert(old_adj@[j2] < old_adj@[j1]);
                    }
                }
                assert(mapped@.no_duplicates());
                mapped@.lemma_multiset_has_no_duplicates();
                sorted@.lemma_multiset_has_no_duplicates_conv();
                assert forall|a: int, b: int| 0 <= a < b < sorted@.len() implies sorted@[a]
                    < sorted@[b] by {
                    assert(sorted@[a] <= sorted@[b]);
                    assert(sorted@[a] != sorted@[b]);
                }
            }
        }
        let ghost pre = lists@;
        lists.push(sorted);
        proof {
            assert forall|y: int| 0 <= y < i + 1 implies (#[trigger] lists@[y]@) == if y < i {
                pre[y]@
            } else {
                sorted@
            } by {}
        }
        i += 1;
    }
    let r = Csr::from_lists(&lists);
    proof {
        if g.all_strictly_ascending() {
            assert forall|u: int| 0 <= u < r.nodes() implies strictly_ascending(#[trigger] r.adj(u)) by {
                assert(strictly_ascending(lists@[u]@));
            }
        }
        assert(relabelled(*g, r, perm@));
        assert forall|a: int, b: int| 0 <= a <= b < r.nodes() implies r.adj(a).len() >= r.adj(
            b,
        ).len() by {
            assert(degs@[perm@[a] as int] >= degs@[perm@[b] as int]);
        }
    }
    r
}

/// Symmetry carries over to a renamed copy.
proof fn lemma_relabel_symmetric(old: Csr, new: Csr, perm: Seq<usize>)
    requires
        symmetric(old),
        relabelled(old, new, perm),
    ensures
        symmetric(new),
{
    assert forall|u: usize, v: usize|
        u < new.nodes() && v < new.nodes() implies (new.adj(u as int).contains(v) <==> new.adj(
        v as int,
    ).contains(u)) by {
        assert(new.adj(u as int).contains(v) <==> old.adj(perm[u as int] as int).contains(
            perm[v as int],
        ));
        assert(new.adj(v as int).contains(u) <==> old.adj(perm[v as int] as int).contains(
            perm[u as int],
        ));
        assert(perm[u as int] < old.nodes() && perm[v as int] < old.nodes());
    }
}

impl UndirectedCsrGraph {
    /// Renames the nodes in order of non-increasing degree (equal degrees keep
    /// their order) and leaves every neighbour list ascending.
    pub fn to_degree_ordered(&mut self)
        requires
            old(self).wf(),
        ensures
            final(self).wf(),
            final(self).csr.all_ascending(),
            old(self).csr.all_strictly_ascending() ==> final(self).csr.all_strictly_ascending(),
            degree_ordered(final(self).csr),
            exists|perm: Seq<usize>| relabelled(old(self).csr, final(self).csr, perm),
    {
        let csr = degree_ordered_csr(&self.csr);
        proof {
            let perm = choose|perm: Seq<usize>| relabelled(self.csr, csr, perm);
            lemma_relabel_symmetric(self.csr, csr, perm);
        }
        let loops = csr.self_loop_slots();
        let t = csr.targets.len();
        self.edges = (t - loops) / 2 + loops;
        self.csr = csr;
    }
}

/// Renames the graph's nodes by non-increasing degree; see
/// `UndirectedCsrGraph::to_degree_ordered`.
pub fn relabel_graph(graph: &mut UndirectedCsrGraph)
    requires
        old(graph).wf(),
    ensures
        final(graph).wf(),
        final(graph).csr.all_ascending(),
        old(graph).csr.all_strictly_ascending() ==> final(graph).csr.all_strictly_ascending(),
        degree_ordered(final(graph).csr),
        exists|perm: Seq<usize>| relabelled(old(graph).csr, final(graph).csr, perm),
{
    graph.to_degree_ordered();
}

} // verus!
