//! Pairs edges head to tail and walks the resulting chains into closed loops.
use vstd::prelude::*;
use vstd::set_lib::*;

use crate::handle::TileHandle;

verus! {

/// An edge between two stored points, with the tile that contributed it.
pub type Edge = (usize, usize, TileHandle);

/// The last edge among the first `n` whose start point is `p`.
pub open spec fn last_start_at(edges: Seq<Edge>, p: usize, n: int) -> Option<usize>
    decreases n,
{
    if n <= 0 {
        None
    } else if edges[n - 1].0 == p {
        Some((n - 1) as usize)
    } else {
        last_start_at(edges, p, n - 1)
    }
}

/// The successor of edge `i`: the last edge that starts where `i` ends.
pub open spec fn successor(edges: Seq<Edge>, i: int) -> Option<usize> {
    last_start_at(edges, edges[i].1, edges.len() as int)
}

proof fn lemma_last_start_at(edges: Seq<Edge>, p: usize, n: int)
    requires
        n <= edges.len(),
        n <= usize::MAX,
    ensures
        match last_start_at(edges, p, n) {
            Some(j) => 0 <= j < n && edges[j as int].0 == p,
            None => forall|k: int| 0 <= k < n ==> (#[trigger] edges[k]).0 != p,
        },
    decreases n,
{
    if n > 0 && edges[n - 1].0 != p {
        lemma_last_start_at(edges, p, n - 1);
    }
}

/// A successor, where there is one, is an edge index that starts where `i` ends.
pub proof fn lemma_successor(edges: Seq<Edge>, i: int)
    requires
        0 <= i < edges.len(),
        edges.len() <= usize::MAX,
    ensures
        match successor(edges, i) {
            Some(j) => j < edges.len() && edges[j as int].0 == edges[i].1,
            None => forall|k: int| 0 <= k < edges.len() ==> (#[trigger] edges[k]).0 != edges[i].1,
        },
{
    lemma_last_start_at(edges, edges[i].1, edges.len() as int);
}

/// For every edge, its successor; where several edges start at the same point
/// the last of them is taken. Such points should not occur on a hex grid:
/// [`ambiguous_edges`] reports them.
pub fn edge_pairs(edges: &Vec<Edge>) -> (pairs: Vec<Option<usize>>)
    ensures
        pairs@.len() == edges@.len(),
        forall|i: int| 0 <= i < edges@.len() ==> #[trigger] pairs@[i] == successor(edges@, i),
{
    let n = edges.len();
    let mut pairs: Vec<Option<usize>> = Vec::new();
    let mut i: usize = 0;
    while i < n
        invariant
            n == edges@.len(),
            i <= n,
            pairs@.len() == i,
            forall|k: int| 0 <= k < i ==> #[trigger] pairs@[k] == successor(edges@, k),
        decreases n - i,
    {
        let end = edges[i].1;
        let mut found: Option<usize> = None;
        let mut j: usize = 0;
        while j < n
            invariant
                n == edges@.len(),
                j <= n,
                i < n,
                end == edges@[i as int].1,
                found == last_start_at(edges@, end, j as int),
            decreases n - j,
        {
            if edges[j].0 == end {
                found = Some(j);
            }
            j = j + 1;
        }
        pairs.push(found);
        i = i + 1;
    }
    pairs
}

/// Edge `i` has more than one candidate successor: two distinct edges start
/// where it ends. On a hex grid this should not happen; the pairing then keeps
/// the last candidate.
pub open spec fn several_successors(edges: Seq<Edge>, i: int) -> bool {
    exists|j1: int, j2: int|
        0 <= j1 < j2 < edges.len() && #[trigger] edges[j1].0 == edges[i].1 && #[trigger] edges[j2].0
            == edges[i].1
}

/// The edges with more than one candidate successor.
pub open spec fn ambiguous_set(edges: Seq<Edge>) -> Set<int> {
    Set::new(|i: int| 0 <= i < edges.len() && several_successors(edges, i))
}

/// The edges that have more than one candidate successor, in increasing order.
pub fn ambiguous_edges(edges: &Vec<Edge>) -> (r: Vec<usize>)
    ensures
        r@.no_duplicates(),
        forall|k: int| 0 <= k < r@.len() ==> #[trigger] r@[k] < edges@.len(),
        forall|i: int| 0 <= i < edges@.len() ==> (r@.contains(i as usize) <==> several_successors(edges@, i)),
        r@.len() == ambiguous_set(edges@).len(),
{
    let n = edges.len();
    let mut r: Vec<usize> = Vec::new();
    let mut i: usize = 0;
    while i < n
        invariant
            n == edges@.len(),
            i <= n,
            forall|k: int| 0 <= k < r@.len() ==> #[trigger] r@[k] < i,
            forall|a: int, b: int| 0 <= a < b < r@.len() ==> r@[a] < r@[b],
            forall|x: int| 0 <= x < i ==> (r@.contains(x as usize) <==> several_successors(edges@, x)),
        decreases n - i,
    {
        let end = edges[i].1;
        let mut first: Option<usize> = None;
        let mut several = false;
        let mut j: usize = 0;
        while j < n
            invariant
                n == edges@.len(),
                i < n,
                j <= n,
                end == edges@[i as int].1,
                first is None ==> forall|k: int| 0 <= k < j ==> edges@[k].0 != end,
                first matches Some(f) ==> f < j && edges@[f as int].0 == end,
                several ==> several_successors(edges@, i as int),
                !several ==> forall|k1: int, k2: int|
                    0 <= k1 < k2 < j ==> !(edges@[k1].0 == end && edges@[k2].0 == end),
            decreases n - j,
        {
            if edges[j].0 == end {
                match first {
                    Some(f) => {
                        assert(edges@[f as int].0 == edges@[i as int].1);
                        assert(edges@[j as int].0 == edges@[i as int].1);
                        several = true;
                    },
                    None => {
                        first = Some(j);
                    },
                }
            }
            j = j + 1;
        }
        proof {
            if !several {
                assert(!several_successors(edges@, i as int));
            }
        }
        let ghost r0 = r@;
        if several {
            r.push(i);
        }
        proof {
            assert forall|x: int| 0 <= x < i + 1 implies (r@.contains(x as usize) <==> several_successors(edges@, x)) by {
                if x < i {
                    if r0.contains(x as usize) {
                        let k = choose|k: int| 0 <= k < r0.len() && r0[k] == x as usize;
                        assert(r@[k] == x as usize);
                    }
                    if r@.contains(x as usize) {
                        let k = choose|k: int| 0 <= k < r@.len() && r@[k] == x as usize;
                        assert(k < r0.len());
                        assert(r0[k] == x as usize);
                    }
                } else {
                    if several {
                        assert(r@[r@.len() - 1] == i);
                    } else if r@.contains(i) {
                        let k = choose|k: int| 0 <= k < r@.len() && r@[k] == i;
                        assert(r0[k] < i);
                    }
                }
            }
        }
        i = i + 1;
    }
    proof {
        let m = r@.map_values(|u: usize| u as int);
        assert(m.to_set() =~= ambiguous_set(edges@)) by {
            assert forall|x: int| m.to_set().contains(x) implies ambiguous_set(edges@).contains(x) by {
                let k = choose|k: int| 0 <= k < m.len() && m[k] == x;
                assert(r@.contains(r@[k]));
            }
            assert forall|x: int| ambiguous_set(edges@).contains(x) implies m.to_set().contains(x) by {
                assert(r@.contains(x as usize));
                let k = choose|k: int| 0 <= k < r@.len() && r@[k] == x as usize;
                assert(m[k] == x);
            }
        }
        assert(m.no_duplicates()) by {
            assert forall|a: int, b: int| 0 <= a < m.len() && 0 <= b < m.len() && a != b implies m[a] != m[b] by {
                if a < b {
                    assert(r@[a] < r@[b]);
                } else {
                    assert(r@[b] < r@[a]);
                }
            }
        }
        m.unique_seq_to_set();
        assert(r@.no_duplicates()) by {
            assert forall|a: int, b: int| 0 <= a < r@.len() && 0 <= b < r@.len() && a != b implies r@[a] != r@[b] by {
                assert(m[a] != m[b]);
            }
        }
    }
    r
}

/// How the walk of one chain of edges ended.
#[derive(Clone, Copy, Debug, PartialEq, Eq, Structural)]
pub enum TraceEnd {
    /// The chain returned to its first edge.
    Closed,
    /// The last edge has no successor.
    Unclosed,
    /// The last edge's successor was already taken by an earlier walk or by this
    /// one, other than at its first edge.
    Revisited,
}

/// One walk along successors, from a start edge until it closes or breaks.
pub struct LoopTrace {
    pub edges: Vec<usize>,
    pub end: TraceEnd,
}

/// Consecutive edges of `list` follow successors.
pub open spec fn chained(edges: Seq<Edge>, list: Seq<usize>) -> bool {
    forall|k: int| 0 <= k < list.len() - 1 ==> successor(edges, #[trigger] list[k] as int) == Some(list[k + 1])
}

/// Edge `e` is taken by one of the walks `traces[0..=a]`.
pub open spec fn taken_by(traces: Seq<LoopTrace>, a: int, e: int) -> bool {
    exists|b: int, k: int|
        0 <= b <= a && 0 <= k < traces[b].edges@.len() && #[trigger] traces[b].edges@[k] == e
}

/// Walk `a` is a nonempty chain that ends as its `end` says.
pub open spec fn trace_ok(edges: Seq<Edge>, traces: Seq<LoopTrace>, a: int) -> bool {
    let list = traces[a].edges@;
    let last = list[list.len() - 1];
    &&& list.len() > 0
    &&& chained(edges, list)
    &&& match traces[a].end {
        TraceEnd::Closed => successor(edges, last as int) == Some(list[0]),
        TraceEnd::Unclosed => successor(edges, last as int) == None::<usize>,
        TraceEnd::Revisited => match successor(edges, last as int) {
            Some(j) => j != list[0] && taken_by(traces, a, j as int),
            None => false,
        },
    }
}

/// Every edge index below `n` lies in exactly one walk, at exactly one place.
pub open spec fn partitions(traces: Seq<LoopTrace>, n: int) -> bool {
    &&& forall|a: int, k: int|
        0 <= a < traces.len() && 0 <= k < traces[a].edges@.len() ==> #[trigger] traces[a].edges@[k]
            < n
    &&& forall|e: int| 0 <= e < n ==> #[trigger] taken_by(traces, traces.len() - 1, e)
    &&& forall|a1: int, k1: int, a2: int, k2: int|
        0 <= a1 < traces.len() && 0 <= k1 < traces[a1].edges@.len() && 0 <= a2 < traces.len() && 0
            <= k2 < traces[a2].edges@.len() && #[trigger] traces[a1].edges@[k1]
            == #[trigger] traces[a2].edges@[k2] ==> a1 == a2 && k1 == k2
}

/// Walks every edge exactly once: repeatedly starts at the lowest edge not yet
/// taken and follows successors until the chain returns to its start, has no
/// successor, or reaches an edge that was already taken.
pub fn trace_loops(edges: &Vec<Edge>) -> (traces: Vec<LoopTrace>)
    ensures
        partitions(traces@, edges@.len() as int),
        forall|a: int| 0 <= a < traces@.len() ==> trace_ok(edges@, traces@, a),
{
    let n = edges.len();
    let pairs = edge_pairs(edges);
    let mut left: Vec<bool> = Vec::new();
    let mut i: usize = 0;
    while i < n
        invariant
            i <= n,
            left@.len() == i,
            forall|k: int| 0 <= k < i ==> #[trigger] left@[k],
        decreases n - i,
    {
        left.push(true);
        i = i + 1;
    }
    let mut traces: Vec<LoopTrace> = Vec::new();
    // Where each taken edge went: the walk and the place in it.
    let ghost mut own: Seq<int> = Seq::new(n as nat, |e: int| -1);
    let ghost mut pos: Seq<int> = Seq::new(n as nat, |e: int| 0);
    let ghost mut taken: Set<int> = Set::empty();
    let mut next: usize = 0;
    while next < n
        invariant
            n == edges@.len(),
            pairs@.len() == n,
            forall|k: int| 0 <= k < n ==> #[trigger] pairs@[k] == successor(edges@, k),
            next <= n,
            left@.len() == n,
            own.len() == n,
            pos.len() == n,
            taken.finite(),
            forall|e: int| #[trigger] taken.contains(e) <==> 0 <= e < n && !left@[e],
            forall|e: int| 0 <= e < next ==> !#[trigger] left@[e],
            forall|e: int| 0 <= e < n ==> (#[trigger] left@[e] <==> own[e] == -1),
            forall|e: int|
                0 <= e < n && !#[trigger] left@[e] ==> 0 <= own[e] < traces@.len() && 0 <= pos[e]
                    < traces@[own[e]].edges@.len() && traces@[own[e]].edges@[pos[e]] == e,
            forall|a: int, k: int|
                0 <= a < traces@.len() && 0 <= k < traces@[a].edges@.len() ==> {
                    let e = #[trigger] traces@[a].edges@[k];
                    e < n && own[e as int] == a && pos[e as int] == k
                },
            forall|a: int| 0 <= a < traces@.len() ==> trace_ok(edges@, traces@, a),
        decreases n - next,
    {
        if left[next] {
            let start = next;
            let ghost a = traces@.len() as int;
            let mut list: Vec<usize> = Vec::new();
            let mut edge = start;
            let mut end = TraceEnd::Unclosed;
            let mut done = false;
            let ghost mut hit: int = 0;
            while !done
                invariant
                    n == edges@.len(),
                    pairs@.len() == n,
                    forall|k: int| 0 <= k < n ==> #[trigger] pairs@[k] == successor(edges@, k),
                    next <= n,
                    start == next,
                    start < n,
                    a == traces@.len(),
                    left@.len() == n,
                    own.len() == n,
                    pos.len() == n,
                    taken.finite(),
                    forall|e: int| #[trigger] taken.contains(e) <==> 0 <= e < n && !left@[e],
                    forall|e: int| 0 <= e < start ==> !#[trigger] left@[e],
                    forall|e: int| 0 <= e < n ==> (#[trigger] left@[e] <==> own[e] == -1),
                    forall|e: int|
                        0 <= e < n && !#[trigger] left@[e] ==> (0 <= own[e] < a && 0 <= pos[e]
                            < traces@[own[e]].edges@.len() && traces@[own[e]].edges@[pos[e]] == e)
                            || (own[e] == a && 0 <= pos[e] < list@.len() && list@[pos[e]] == e),
                    forall|b: int, k: int|
                        0 <= b < a && 0 <= k < traces@[b].edges@.len() ==> {
                            let e = #[trigger] traces@[b].edges@[k];
                            e < n && own[e as int] == b && pos[e as int] == k
                        },
                    forall|k: int|
                        0 <= k < list@.len() ==> {
                            let e = #[trigger] list@[k];
                            e < n && own[e as int] == a && pos[e as int] == k
                        },
                    forall|b: int| 0 <= b < a ==> trace_ok(edges@, traces@, b),
                    chained(edges@, list@),
                    list@.len() == 0 <==> !done && edge == start,
                    list@.len() > 0 ==> list@[0] == start,
                    !done ==> edge < n && left@[edge as int],
                    !done && list@.len() > 0 ==> successor(edges@, list@.last() as int) == Some(
                        edge,
                    ) && edge != start,
                    done ==> list@.len() > 0,
                    done ==> match end {
                        TraceEnd::Closed => successor(edges@, list@.last() as int) == Some(start),
                        TraceEnd::Unclosed => successor(edges@, list@.last() as int) == None::<
                            usize,
                        >,
                        TraceEnd::Revisited => match successor(edges@, list@.last() as int) {
                            Some(j) => j != start && j < n && !left@[j as int] && hit == j,
                            None => false,
                        },
                    },
                decreases n - taken.len(),
            {
                proof {
                    lemma_int_range(0, n as int);
                    assert(taken.insert(edge as int).subset_of(set_int_range(0, n as int)));
                    lemma_len_subset(taken.insert(edge as int), set_int_range(0, n as int));
                }
                left.set(edge, false);
                proof {
                    own = own.update(edge as int, a);
                    pos = pos.update(edge as int, list@.len() as int);
                    taken = taken.insert(edge as int);
                }
                list.push(edge);
                match pairs[edge] {
                    None => {
                        end = TraceEnd::Unclosed;
                        done = true;
                    },
                    Some(nx) => {
                        proof {
                            lemma_successor(edges@, edge as int);
                        }
                        if nx == start {
                            end = TraceEnd::Closed;
                            done = true;
                        } else if !left[nx] {
                            end = TraceEnd::Revisited;
                            proof {
                                hit = nx as int;
                            }
                            done = true;
                        } else {
                            edge = nx;
                        }
                    },
                }
            }
            let ghost old_traces = traces@;
            traces.push(LoopTrace { edges: list, end });
            proof {
                assert(traces@[a].edges@ == list@);
                assert forall|b: int| 0 <= b <= a implies trace_ok(edges@, traces@, b) by {
                    if b < a {
                        assert(trace_ok(edges@, old_traces, b));
                        assert(traces@[b] == old_traces[b]);
                        if traces@[b].end == TraceEnd::Revisited {
                            let lb = old_traces[b].edges@;
                            let j = successor(edges@, lb[lb.len() - 1] as int)->Some_0;
                            assert(taken_by(old_traces, b, j as int));
                            let (b2, k2) = choose|b2: int, k2: int|
                                0 <= b2 <= b && 0 <= k2 < old_traces[b2].edges@.len()
                                    && #[trigger] old_traces[b2].edges@[k2] == j;
                            assert(traces@[b2] == old_traces[b2]);
                            assert(taken_by(traces@, b, j as int));
                        }
                    } else if end == TraceEnd::Revisited {
                        let j = hit;
                        let b2 = own[j];
                        let k2 = pos[j];
                        if b2 < a {
                            assert(traces@[b2] == old_traces[b2]);
                        }
                        assert(traces@[b2].edges@[k2] == j as usize);
                        assert(taken_by(traces@, b, j));
                    }
                }
            }
        }
        next = next + 1;
    }
    proof {
        let t = traces@;
        assert forall|e: int| 0 <= e < n implies #[trigger] taken_by(t, t.len() - 1, e) by {
            assert(!left@[e]);
            assert(t[own[e]].edges@[pos[e]] == e as usize);
        }
        assert forall|a1: int, k1: int, a2: int, k2: int|
            0 <= a1 < t.len() && 0 <= k1 < t[a1].edges@.len() && 0 <= a2 < t.len() && 0 <= k2
                < t[a2].edges@.len() && #[trigger] t[a1].edges@[k1]
                == #[trigger] t[a2].edges@[k2] implies a1 == a2 && k1 == k2 by {
            let e = t[a1].edges@[k1];
            assert(own[e as int] == a1 && pos[e as int] == k1);
            assert(own[e as int] == a2 && pos[e as int] == k2);
        }
    }
    traces
}

} // verus!
