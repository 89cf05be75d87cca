use vstd::prelude::*;

verus! {

/// Every entry of `s` is at most every later entry.
pub open spec fn ascending(s: Seq<usize>) -> bool {
    forall|i: int, j: int| 0 <= i <= j < s.len() ==> s[i] <= s[j]
}

/// Every entry of `s` is smaller than every later entry.
pub open spec fn strictly_ascending(s: Seq<usize>) -> bool {
    forall|i: int, j: int| 0 <= i < j < s.len() ==> s[i] < s[j]
}

/// `a` and `b` hold the same values, disregarding order and repetition.
pub open spec fn same_members(a: Seq<usize>, b: Seq<usize>) -> bool {
    forall|x: usize| a.contains(x) <==> b.contains(x)
}

/// Sum of the lengths of the lists.
pub open spec fn total_len(lists: Seq<Vec<usize>>) -> nat
    decreases lists.len(),
{
    if lists.len() == 0 {
        0
    } else {
        total_len(lists.drop_last()) + lists.last()@.len()
    }
}

/// How often `x` occurs in `s`.
pub open spec fn occurrences(s: Seq<usize>, x: usize) -> nat
    decreases s.len(),
{
    if s.len() == 0 {
        0
    } else {
        occurrences(s.drop_last(), x) + if s.last() == x {
            1nat
        } else {
            0nat
        }
    }
}

proof fn lemma_occurrences_bounded(s: Seq<usize>, x: usize)
    ensures
        occurrences(s, x) <= s.len(),
    decreases s.len(),
{
    if s.len() > 0 {
        lemma_occurrences_bounded(s.drop_last(), x);
    }
}

/// Compressed sparse rows: node `u`'s neighbours are
/// `targets[offsets[u]..offsets[u + 1]]`.
pub struct Csr {
    pub offsets: Vec<usize>,
    pub targets: Vec<usize>,
}

impl Csr {
    pub open spec fn nodes(&self) -> nat {
        (self.offsets@.len() - 1) as nat
    }

    /// Offsets start at zero, never decrease, end at the number of targets,
    /// and every target is a node of the graph.
    pub open spec fn wf(&self) -> bool {
        &&& 1 <= self.offsets@.len() <= usize::MAX
        &&& self.offsets@[0] == 0
        &&& self.offsets@.last() == self.targets@.len()
        &&& forall|i: int, j: int|
            0 <= i <= j < self.offsets@.len() ==> self.offsets@[i] <= self.offsets@[j]
        &&& forall|k: int| 0 <= k < self.targets@.len() ==> self.targets@[k] < self.nodes()
    }

    pub open spec fn adj(&self, u: int) -> Seq<usize> {
        self.targets@.subrange(self.offsets@[u] as int, self.offsets@[u + 1] as int)
    }

    /// Self-loop slots of the nodes below `k`.
    pub open spec fn loop_slots(&self, k: int) -> nat
        decreases k,
    {
        if k <= 0 {
            0
        } else {
            self.loop_slots(k - 1) + occurrences(self.adj(k - 1), (k - 1) as usize)
        }
    }

    pub open spec fn all_ascending(&self) -> bool {
        forall|u: int| 0 <= u < self.nodes() ==> ascending(#[trigger] self.adj(u))
    }

    pub open spec fn all_strictly_ascending(&self) -> bool {
        forall|u: int| 0 <= u < self.nodes() ==> strictly_ascending(#[trigger] self.adj(u))
    }

    /// Offsets of a well-formed graph never decrease from one node to the next.
    pub proof fn lemma_offsets_monotone(&self, u: int)
        requires
            self.wf(),
            0 <= u < self.nodes(),
        ensures
            self.offsets@[u] <= self.offsets@[u + 1],
            self.offsets@[u + 1] <= self.targets@.len(),
            self.adj(u).len() == self.offsets@[u + 1] - self.offsets@[u],
    {
    }

    pub fn node_count(&self) -> (r: usize)
        requires
            self.wf(),
        ensures
            r == self.nodes(),
    {
        self.offsets.len() - 1
    }

    pub fn degree(&self, u: usize) -> (r: usize)
        requires
            self.wf(),
            u < self.nodes(),
        ensures
            r == self.adj(u as int).len(),
    {
        proof {
            self.lemma_offsets_monotone(u as int);
        }
        self.offsets[u + 1] - self.offsets[u]
    }

    pub fn neighbors(&self, u: usize) -> (r: &[usize])
        requires
            self.wf(),
            u < self.nodes(),
        ensures
            r@ == self.adj(u as int),
    {
        proof {
            self.lemma_offsets_monotone(u as int);
        }
        vstd::slice::slice_subrange(self.targets.as_slice(), self.offsets[u], self.offsets[u + 1])
    }

    /// Counts the neighbour slots that lead from a node back to itself.
    pub fn self_loop_slots(&self) -> (r: usize)
        requires
            self.wf(),
        ensures
            r == self.loop_slots(self.nodes() as int),
            r <= self.targets@.len(),
    {
        let n = self.node_count();
        let mut count: usize = 0;
        let mut u: usize = 0;
        while u < n
            invariant
                self.wf(),
                n == self.nodes(),
                u <= n,
                count == self.loop_slots(u as int),
                count <= self.offsets@[u as int],
            decreases n - u,
        {
            let nu = self.neighbors(u);
            proof {
                self.lemma_offsets_monotone(u as int);
            }
            let mut k: usize = 0;
            while k < nu.len()
                invariant
                    self.wf(),
                    u < n == self.nodes(),
                    nu@ == self.adj(u as int),
                    k <= nu@.len(),
                    count == self.loop_slots(u as int) + occurrences(nu@.take(k as int), u),
                    count <= self.offsets@[u as int] + k,
                    self.offsets@[u as int] + nu@.len() == self.offsets@[u + 1],
                    self.offsets@[u + 1] <= self.targets@.len(),
                decreases nu@.len() - k,
            {
                proof {
                    assert(nu@.take(k + 1).drop_last() =~= nu@.take(k as int));
                }
                if nu[k] == u {
                    count += 1;
                }
                k += 1;
            }
            assert(nu@.take(k as int) =~= nu@);
            u += 1;
        }
        count
    }

    /// Lays out per-node lists one after another.
    pub fn from_lists(lists: &Vec<Vec<usize>>) -> (r: Csr)
        requires
            forall|u: int, k: int|
                0 <= u < lists@.len() && 0 <= k < lists@[u]@.len() ==> #[trigger] lists@[u]@[k]
                    < lists@.len(),
            lists@.len() < usize::MAX,
        ensures
            r.wf(),
            r.nodes() == lists@.len(),
            r.targets@.len() == total_len(lists@),
            forall|u: int| 0 <= u < lists@.len() ==> r.adj(u) == lists@[u]@,
    {
        let n = lists.len();
        let mut offsets: Vec<usize> = Vec::new();
        let mut targets: Vec<usize> = Vec::new();
        offsets.push(0);
        let mut u: usize = 0;
        while u < n
            invariant
                n == lists@.len(),
                u <= n,
                offsets@.len() == u + 1,
                offsets@[0] == 0,
                offsets@.last() == targets@.len(),
                forall|i: int, j: int| 0 <= i <= j <= u ==> offsets@[i] <= offsets@[j],
                forall|k: int| 0 <= k < targets@.len() ==> targets@[k] < n,
                forall|x: int|
                    0 <= x < u ==> targets@.subrange(offsets@[x] as int, offsets@[x + 1] as int)
                        == lists@[x]@,
                forall|u: int, k: int|
                    0 <= u < lists@.len() && 0 <= k < lists@[u]@.len() ==> #[trigger] lists@[u]@[k]
                        < lists@.len(),
                targets@.len() == total_len(lists@.take(u as int)),
            decreases n - u,
        {
            let list = &lists[u];
            let start = targets.len();
            let ghost before = targets@;
            proof {
                assert(lists@.take(u + 1).drop_last() =~= lists@.take(u as int));
            }
            let mut k: usize = 0;
            while k < list.len()
                invariant
                    k <= list@.len(),
                    list@ == lists@[u as int]@,
                    targets@.len() == start + k,
                    targets@.subrange(0, start as int) == before,
                    targets@.subrange(start as int, start + k) == list@.subrange(0, k as int),
                    forall|j: int| 0 <= j < targets@.len() ==> targets@[j] < n,
                    forall|j: int| 0 <= j < list@.len() ==> list@[j] < n,
                decreases list@.len() - k,
            {
                targets.push(list[k]);
                k += 1;
                assert(targets@.subrange(0, start as int) =~= before);
                assert(targets@.subrange(start as int, start + k) =~= list@.subrange(0, k as int));
            }
            assert(list@.subrange(0, k as int) =~= list@);
            offsets.push(targets.len());
            assert forall|x: int|
                0 <= x < u + 1 implies targets@.subrange(
                offsets@[x] as int,
                offsets@[x + 1] as int,
            ) == lists@[x]@ by {
                if x < u {
                    assert(targets@.subrange(offsets@[x] as int, offsets@[x + 1] as int)
                        =~= before.subrange(offsets@[x] as int, offsets@[x + 1] as int));
                }
            }
            u += 1;
        }
        assert(lists@.take(n as int) =~= lists@);
        Csr { offsets, targets }
    }
}

/// A copy of `s` in ascending order, built by inserting each entry at its place.
pub fn sorted_copy(s: &[usize]) -> (r: Vec<usize>)
    ensures
        ascending(r@),
        r@.to_multiset() == s@.to_multiset(),
        r@.len() == s@.len(),
        same_members(r@, s@),
{
    let mut r: Vec<usize> = Vec::new();
    let mut i: usize = 0;
    assert(r@ =~= s@.subrange(0, 0));
    while i < s.len()
        invariant
            i <= s@.len(),
            r@.len() == i,
            ascending(r@),
            r@.to_multiset() == s@.subrange(0, i as int).to_multiset(),
            same_members(r@, s@.subrange(0, i as int)),
        decreases s@.len() - i,
    {
        let x = s[i];
        let mut j: usize = r.len();
        while j > 0 && r[j - 1] > x
            invariant
                j <= r@.len(),
                forall|k: int| j <= k < r@.len() ==> r@[k] > x,
            decreases j,
        {
            j -= 1;
        }
        let ghost old_r = r@;
        r.insert(j, x);
        proof {
            vstd::seq_lib::to_multiset_insert(old_r, j as int, x);
            vstd::seq_lib::to_multiset_build(s@.subrange(0, i as int), x);
            assert(s@.subrange(0, i + 1) =~= s@.subrange(0, i as int).push(x));
            old_r.insert_ensures(j as int, x);
            assert forall|a: int, b: int| 0 <= a <= b < r@.len() implies r@[a] <= r@[b] by {
                if j > 0 {
                    assert(old_r[j - 1] <= x);
                }
                if a < j && b > j {
                    assert(old_r[a] <= old_r[b - 1]);
                }
                if a < j && b == j {
                    assert(old_r[a] <= old_r[j - 1]);
                }
                if a > j {
                    assert(old_r[a - 1] <= old_r[b - 1]);
                }
                if a == j && b > j {
                    assert(old_r[b - 1] > x);
                }
            }
            let prefix = s@.subrange(0, i + 1);
            assert(prefix =~= s@.subrange(0, i as int).push(x));
            assert forall|y: usize| r@.contains(y) <==> prefix.contains(y) by {
                if r@.contains(y) {
                    let k = choose|k: int| 0 <= k < r@.len() && r@[k] == y;
                    if k < j {
                        assert(old_r.contains(y));
                    } else if k > j {
                        assert(old_r[k - 1] == y);
                        assert(old_r.contains(y));
                    }
                    if y != x {
                        assert(s@.subrange(0, i as int).contains(y));
                        let m = choose|m: int| 0 <= m < i && s@.subrange(0, i as int)[m] == y;
                        assert(prefix[m] == y);
                    } else {
                        assert(prefix[i as int] == y);
                    }
                }
                if prefix.contains(y) {
                    let m = choose|m: int| 0 <= m < prefix.len() && prefix[m] == y;
                    if m == i {
                        assert(r@[j as int] == y);
                    } else {
                        assert(s@.subrange(0, i as int)[m] == y);
                        assert(old_r.contains(y));
                        let k = choose|k: int| 0 <= k < old_r.len() && old_r[k] == y;
                        if k < j {
                            assert(r@[k] == y);
                        } else {
                            assert(r@[k + 1] == y);
                        }
                    }
                }
            }
        }
        i += 1;
    }
    assert(s@.subrange(0, s@.len() as int) =~= s@);
    r
}

/// The entries of an ascending sequence, each kept once.
pub fn dedup_sorted(s: &Vec<usize>) -> (r: Vec<usize>)
    requires
        ascending(s@),
    ensures
        strictly_ascending(r@),
        same_members(r@, s@),
        r@.len() <= s@.len(),
{
    let mut r: Vec<usize> = Vec::new();
    let mut i: usize = 0;
    while i < s.len()
        invariant
            i <= s@.len(),
            ascending(s@),
            r@.len() <= i,
            strictly_ascending(r@),
            same_members(r@, s@.subrange(0, i as int)),
            i > 0 ==> r@.len() > 0 && r@.last() == s@[i - 1],
        decreases s@.len() - i,
    {
        let x = s[i];
        let ghost old_r = r@;
        let prefix = Ghost(s@.subrange(0, i + 1));
        assert(prefix@ =~= s@.subrange(0, i as int).push(x));
        if r.len() == 0 || r[r.len() - 1] != x {
            r.push(x);
            proof {
                if i > 0 {
                    assert(s@[i - 1] <= x);
                }
                assert forall|y: usize| r@.contains(y) <==> prefix@.contains(y) by {
                    if r@.contains(y) && y != x {
                        let k = choose|k: int| 0 <= k < r@.len() && r@[k] == y;
                        assert(old_r[k] == y);
                        assert(old_r.contains(y));
                        let m = choose|m: int| 0 <= m < i && s@.subrange(0, i as int)[m] == y;
                        assert(prefix@[m] == y);
                    }
                    if r@.contains(y) && y == x {
                        assert(prefix@[i as int] == y);
                    }
                    if prefix@.contains(y) {
                        let m = choose|m: int| 0 <= m < prefix@.len() && prefix@[m] == y;
                        if m == i {
                            assert(r@[old_r.len() as int] == y);
                        } else {
                            assert(s@.subrange(0, i as int)[m] == y);
                            assert(s@.subrange(0, i as int).contains(y));
                            assert(old_r.contains(y));
                            let k = choose|k: int| 0 <= k < old_r.len() && old_r[k] == y;
                            assert(r@[k] == y);
                        }
                    }
                }
            }
        } else {
            proof {
                assert forall|y: usize| r@.contains(y) <==> prefix@.contains(y) by {
                    if r@.contains(y) {
                        let m = choose|m: int| 0 <= m < i && s@.subrange(0, i as int)[m] == y;
                        assert(prefix@[m] == y);
                    }
                    if prefix@.contains(y) {
                        let m = choose|m: int| 0 <= m < prefix@.len() && prefix@[m] == y;
                        if m == i {
                            assert(r@[r@.len() - 1] == y);
                        } else {
                            assert(s@.subrange(0, i as int)[m] == y);
                        }
                    }
                }
            }
        }
        i += 1;
    }
    assert(s@.subrange(0, s@.len() as int) =~= s@);
    r
}

} // verus!
