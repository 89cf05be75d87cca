use vstd::prelude::*;

use crate::graph::{CsrLayout, EdgeList};
use crate::{Error, FromEdgeList};

verus! {

pub open spec fn is_digit(c: u8) -> bool {
    48 <= c <= 57
}

pub open spec fn is_space(c: u8) -> bool {
    c == 32 || c == 9 || c == 10 || c == 13
}

/// Reads `b` left to right: the numbers completed so far, the number being
/// read, and whether every byte so far was a digit or white space.
pub open spec fn scan(b: Seq<u8>) -> (Seq<nat>, Option<nat>, bool)
    decreases b.len(),
{
    if b.len() == 0 {
        (Seq::empty(), None, true)
    } else {
        let p = scan(b.drop_last());
        let c = b.last();
        if !p.2 {
            p
        } else if is_digit(c) {
            let d = (c - 48) as nat;
            (
                p.0,
                Some(
                    match p.1 {
                        Some(v) => v * 10 + d,
                        None => d,
                    },
                ),
                true,
            )
        } else if is_space(c) {
            (
                match p.1 {
                    Some(v) => p.0.push(v),
                    None => p.0,
                },
                None,
                true,
            )
        } else {
            (p.0, p.1, false)
        }
    }
}

/// The decimal numbers of a text made of digits and white space; `None` where
/// another byte occurs.
pub open spec fn numbers(b: Seq<u8>) -> Option<Seq<nat>> {
    let s = scan(b);
    if s.2 {
        Some(
            match s.1 {
                Some(v) => s.0.push(v),
                None => s.0,
            },
        )
    } else {
        None
    }
}

/// Consecutive numbers taken two at a time as `(source, target)`.
pub open spec fn pairs(t: Seq<nat>) -> Seq<(usize, usize)> {
    Seq::new(t.len() / 2, |i: int| (t[2 * i] as usize, t[2 * i + 1] as usize))
}

pub open spec fn all_fit(t: Seq<nat>) -> bool {
    forall|i: int| 0 <= i < t.len() ==> #[trigger] t[i] <= usize::MAX
}

proof fn lemma_scan_failed(b: Seq<u8>, k: int)
    requires
        0 <= k <= b.len(),
        !scan(b.take(k)).2,
    ensures
        !scan(b).2,
    decreases b.len() - k,
{
    if k < b.len() {
        assert(b.take(k + 1).drop_last() =~= b.take(k));
        lemma_scan_failed(b, k + 1);
    } else {
        assert(b.take(k) =~= b);
    }
}

/// Reads an edge list written as decimal node ids separated by white space,
/// two per edge. A byte that is neither a digit nor white space, or an odd
/// number of ids, is an `InvalidArgument`; an id beyond `usize` is an
/// `IdOverflow`.
pub fn parse_edge_list(b: &[u8]) -> (r: Result<EdgeList, Error>)
    ensures
        numbers(b@) is None ==> r == Err::<EdgeList, Error>(Error::InvalidArgument),
        numbers(b@) is Some && !all_fit(numbers(b@)->Some_0) ==> r == Err::<EdgeList, Error>(
            Error::IdOverflow,
        ),
        numbers(b@) is Some && all_fit(numbers(b@)->Some_0) && numbers(b@)->Some_0.len() % 2
            == 1 ==> r == Err::<EdgeList, Error>(Error::InvalidArgument),
        numbers(b@) is Some && all_fit(numbers(b@)->Some_0) && numbers(b@)->Some_0.len() % 2
            == 0 ==> (r matches Ok(el) && el.edges@ == pairs(numbers(b@)->Some_0)),
{
    let mut toks: Vec<usize> = Vec::new();
    let mut cur: Option<usize> = None;
    let mut big = false;
    let mut i: usize = 0;
    while i < b.len()
        invariant
            i <= b@.len(),
            scan(b@.take(i as int)).2,
            big ==> (exists|j: int|
                0 <= j < scan(b@.take(i as int)).0.len() && #[trigger] scan(b@.take(i as int)).0[j]
                    > usize::MAX) || (scan(b@.take(i as int)).1 matches Some(v) && v > usize::MAX),
            !big ==> toks@.len() == scan(b@.take(i as int)).0.len(),
            !big ==> forall|j: int|
                0 <= j < toks@.len() ==> toks@[j] == #[trigger] scan(b@.take(i as int)).0[j],
            !big ==> (scan(b@.take(i as int)).1 matches Some(v) <==> cur is Some),
            !big ==> (cur matches Some(c) ==> scan(b@.take(i as int)).1 == Some(c as nat)),
        decreases b@.len() - i,
    {
        let c = b[i];
        let ghost p = scan(b@.take(i as int));
        proof {
            assert(b@.take(i + 1).drop_last() =~= b@.take(i as int));
            assert(b@.take(i + 1).last() == c);
        }
        if c >= 48 && c <= 57 {
            let d = (c - 48) as usize;
            if !big {
                match cur {
                    Some(v) => {
                        if v <= (usize::MAX - d) / 10 {
                            proof {
                                assert(v * 10 + d <= usize::MAX) by (nonlinear_arith)
                                    requires
                                        v <= (usize::MAX - d) / 10,
                                        d <= 9,
                                ;
                            }
                            cur = Some(v * 10 + d);
                        } else {
                            proof {
                                assert(v * 10 + d > usize::MAX) by (nonlinear_arith)
                                    requires
                                        v > (usize::MAX - d) / 10,
                                        d <= 9,
                                ;
                            }
                            big = true;
                        }
                    },
                    None => {
                        cur = Some(d);
                    },
                }
            } else {
                proof {
                    if p.1 is Some {
                        let v = p.1->Some_0;
                        if v > usize::MAX {
                            assert(v * 10 + d >= v) by (nonlinear_arith)
                                requires
                                    v >= 0,
                                    d >= 0,
                            ;
                        }
                    }
                    if exists|j: int| 0 <= j < p.0.len() && #[trigger] p.0[j] > usize::MAX {
                        let j = choose|j: int| 0 <= j < p.0.len() && #[trigger] p.0[j] > usize::MAX;
                        assert(scan(b@.take(i + 1)).0[j] > usize::MAX);
                    }
                }
            }
        } else if c == 32 || c == 9 || c == 10 || c == 13 {
            if !big {
                match cur {
                    Some(v) => {
                        toks.push(v);
                    },
                    None => {},
                }
                cur = None;
                proof {
                    let q = scan(b@.take(i + 1));
                    assert(toks@.len() == q.0.len());
                    assert forall|j: int| 0 <= j < toks@.len() implies toks@[j] == #[trigger] q.0[j] by {
                        if j < p.0.len() {
                            assert(q.0[j] == p.0[j]);
                        }
                    }
                }
            } else {
                proof {
                    let q = scan(b@.take(i + 1));
                    if exists|j: int| 0 <= j < p.0.len() && #[trigger] p.0[j] > usize::MAX {
                        let j = choose|j: int| 0 <= j < p.0.len() && #[trigger] p.0[j] > usize::MAX;
                        assert(q.0[j] > usize::MAX);
                    } else {
                        let v = p.1->Some_0;
                        assert(q.0[p.0.len() as int] == v);
                    }
                }
            }
        } else {
            proof {
                lemma_scan_failed(b@, i + 1);
            }
            return Err(Error::InvalidArgument);
        }
        i += 1;
    }
    proof {
        assert(b@.take(i as int) =~= b@);
    }
    let ghost t = numbers(b@)->Some_0;
    if big {
        proof {
            let s = scan(b@);
            if exists|j: int| 0 <= j < s.0.len() && #[trigger] s.0[j] > usize::MAX {
                let j = choose|j: int| 0 <= j < s.0.len() && #[trigger] s.0[j] > usize::MAX;
                assert(t[j] > usize::MAX);
            } else {
                assert(t[s.0.len() as int] > usize::MAX);
            }
        }
        return Err(Error::IdOverflow);
    }
    match cur {
        Some(v) => {
            toks.push(v);
        },
        None => {},
    }
    proof {
        assert(toks@.len() == t.len());
        assert forall|j: int| 0 <= j < t.len() implies toks@[j] == #[trigger] t[j] by {}
        assert(all_fit(t));
    }
    if toks.len() % 2 == 1 {
        return Err(Error::InvalidArgument);
    }
    let mut edges: Vec<(usize, usize)> = Vec::new();
    let mut k: usize = 0;
    let len = toks.len();
    let half = len / 2;
    while k < half
        invariant
            len == toks@.len(),
            half == len / 2,
            toks@.len() == t.len(),
            forall|j: int| 0 <= j < t.len() ==> toks@[j] == #[trigger] t[j],
            k <= half,
            edges@.len() == k,
            forall|j: int| 0 <= j < k ==> #[trigger] edges@[j] == pairs(t)[j],
        decreases half - k,
    {
        edges.push((toks[2 * k], toks[2 * k + 1]));
        k += 1;
    }
    assert(edges@ =~= pairs(t));
    Ok(EdgeList::new(edges))
}

/// The input formats a graph can be read from.
pub trait InputCapabilities {
    type GraphInput;
}

/// Text with two decimal node ids per edge.
pub struct EdgeListInput;

impl InputCapabilities for EdgeListInput {
    type GraphInput = EdgeList;
}

/// Builds a graph of type `G`, with ascending neighbour lists, from the bytes
/// of an edge-list text.
pub fn read_graph<G: FromEdgeList>(input: &[u8], _fmt: EdgeListInput) -> (r: Result<G, Error>)
    ensures
        numbers(input@) is None ==> r == Err::<G, Error>(Error::InvalidArgument),
        numbers(input@) is Some && !all_fit(numbers(input@)->Some_0) ==> r == Err::<G, Error>(
            Error::IdOverflow,
        ),
        numbers(input@) is Some && all_fit(numbers(input@)->Some_0) && numbers(input@)->Some_0.len()
            % 2 == 1 ==> r == Err::<G, Error>(Error::InvalidArgument),
        numbers(input@) is Some && all_fit(numbers(input@)->Some_0) && numbers(input@)->Some_0.len()
            % 2 == 0 && G::fits(pairs(numbers(input@)->Some_0)) ==> (r matches Ok(g)
            && g.built_from_edges(pairs(numbers(input@)->Some_0), CsrLayout::Sorted)),
        numbers(input@) is Some && all_fit(numbers(input@)->Some_0) && numbers(input@)->Some_0.len()
            % 2 == 0 && !G::fits(pairs(numbers(input@)->Some_0)) ==> r is Err,
{
    match parse_edge_list(input) {
        Ok(edge_list) => G::from_edges(&edge_list, CsrLayout::Sorted),
        Err(e) => Err(e),
    }
}

} // verus!
