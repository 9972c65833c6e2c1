//! The tile world: tile slots, the tile index, boundary loops, and the throttled
//! recompute pass that keeps colliders and loops in step with the tiles.
use vstd::prelude::*;

use crate::dedup::{insert_point, lemma_insert_point, lemma_lattice_within, within, DedupEdges, DEFAULT_THRESHOLD};
use crate::handle::TileHandle;
use crate::hex::{lemma_corners, lemma_neighbor_back, on_lattice, opposite, Point, TilePos};
use crate::index::TileCache;
use crate::tracer::{
    ambiguous_edges, ambiguous_set, partitions, taken_by, trace_loops, trace_ok, LoopTrace, TraceEnd,
};

verus! {

/// A tile's flags.
#[derive(Clone, Copy, Debug, PartialEq, Eq, Structural)]
pub struct TileType {
    pub wall: bool,
    /// Give the tile a full hexagon collider at once, before the next recompute
    /// pass has derived its boundary-only one.
    pub immediate_collider: bool,
}

/// Where a tile slot stands in the mark-then-reap removal scheme.
#[derive(Clone, Copy, Debug, PartialEq, Eq, Structural)]
pub enum TileState {
    Live,
    PendingRemoval,
    Removed,
}

/// One slot of the tile arena.
#[derive(Clone, Copy, Debug)]
pub struct TileSlot {
    pub generation: u32,
    pub state: TileState,
    pub pos: TilePos,
    pub kind: TileType,
    /// For each side `i`, whether the tile's collider holds that side.
    pub collider: Option<[bool; 6]>,
}

/// A closed polygon (the last point joins the first) and the tiles whose sides
/// it is made of.
pub struct BoundaryLoop {
    pub points: Vec<Point>,
    pub owners: Vec<TileHandle>,
}

/// Milliseconds between two recompute passes.
pub const RECOMPUTE_INTERVAL_MS: u64 = 100;

/// For each side `i` of the hex at `p`, whether it faces a free position.
pub open spec fn boundary_sides(tiles: Map<TilePos, TileHandle>, p: TilePos) -> Seq<bool> {
    Seq::new(6, |i: int| !tiles.contains_key(p.neighbor(i)))
}

/// The tiles found at the first `k` neighbours of `p`.
pub open spec fn neighbor_occupants(tiles: Map<TilePos, TileHandle>, p: TilePos, k: int) -> Set<
    TileHandle,
> {
    Set::new(
        |x: TileHandle|
            exists|i: int|
                0 <= i < k && #[trigger] tiles.contains_key(p.neighbor(i)) && tiles[p.neighbor(i)]
                    == x,
    )
}

/// The tiles a loop is made of.
pub open spec fn owner_set(l: BoundaryLoop) -> Set<TileHandle> {
    l.owners@.to_set()
}

/// Every loop of `ls` that shares a tile with `s` has all its tiles in `s`.
pub open spec fn closed_under(ls: Seq<BoundaryLoop>, s: Set<TileHandle>) -> bool {
    forall|j: int|
        0 <= j < ls.len() && !(#[trigger] owner_set(ls[j])).disjoint(s) ==> owner_set(
            ls[j],
        ).subset_of(s)
}

/// `e` is the least set that contains `start` and is closed under `ls`: the
/// tiles of `start` and of every loop linked to them by a chain of loops that
/// share tiles.
pub open spec fn least_closure(ls: Seq<BoundaryLoop>, start: Set<TileHandle>, e: Set<TileHandle>) -> bool {
    &&& start.subset_of(e)
    &&& closed_under(ls, e)
    &&& forall|s: Set<TileHandle>|
        start.subset_of(s) && closed_under(ls, s) ==> #[trigger] e.subset_of(s)
}

/// A larger starting set reaches a larger closure, so it takes out at least
/// the loops a smaller one takes out.
pub proof fn lemma_closure_monotone(
    ls: Seq<BoundaryLoop>,
    s1: Set<TileHandle>,
    e1: Set<TileHandle>,
    s2: Set<TileHandle>,
    e2: Set<TileHandle>,
)
    requires
        least_closure(ls, s1, e1),
        least_closure(ls, s2, e2),
        s1.subset_of(s2),
    ensures
        e1.subset_of(e2),
        forall|j: int|
            0 <= j < ls.len() && !owner_set(ls[j]).disjoint(e1) ==> !(#[trigger] owner_set(ls[j])).disjoint(e2),
{
    assert(s1.subset_of(e2));
    assert(e1.subset_of(e2));
    assert forall|j: int|
        0 <= j < ls.len() && !owner_set(ls[j]).disjoint(e1) implies !(#[trigger] owner_set(ls[j])).disjoint(e2) by {
        let x = choose|x: TileHandle| owner_set(ls[j]).contains(x) && e1.contains(x);
        assert(e2.contains(x));
    }
}

/// When no loop shares a tile with the starting set, the closure is the
/// starting set itself, so every loop is kept.
pub proof fn lemma_closure_untouched(ls: Seq<BoundaryLoop>, s: Set<TileHandle>, e: Set<TileHandle>)
    requires
        least_closure(ls, s, e),
        forall|j: int| 0 <= j < ls.len() ==> (#[trigger] owner_set(ls[j])).disjoint(s),
    ensures
        e == s,
{
    assert(closed_under(ls, s));
    assert(e.subset_of(s));
    assert(e =~= s);
}

/// Loop `j` of `ls` was taken out against `s`: it shares a tile with `s` and
/// all its tiles are in `s`.
pub open spec fn taken_out(ls: Seq<BoundaryLoop>, j: int, s: Set<TileHandle>) -> bool {
    owner_set(ls[j]).subset_of(s) && !owner_set(ls[j]).disjoint(s)
}

/// Whether some element of `a` is in `b`.
fn shares_any(a: &Vec<TileHandle>, b: &Vec<TileHandle>) -> (r: bool)
    ensures
        r == !a@.to_set().disjoint(b@.to_set()),
{
    let mut i: usize = 0;
    while i < a.len()
        invariant
            i <= a@.len(),
            forall|k: int| 0 <= k < i ==> !b@.contains(#[trigger] a@[k]),
        decreases a@.len() - i,
    {
        let mut j: usize = 0;
        while j < b.len()
            invariant
                i < a@.len(),
                j <= b@.len(),
                forall|k: int| 0 <= k < j ==> b@[k] != a@[i as int],
            decreases b@.len() - j,
        {
            if a[i] == b[j] {
                assert(a@.to_set().contains(a@[i as int]) && b@.to_set().contains(a@[i as int]));
                return true;
            }
            j = j + 1;
        }
        i = i + 1;
    }
    assert(a@.to_set().disjoint(b@.to_set())) by {
        assert forall|x: TileHandle| a@.to_set().contains(x) implies !b@.to_set().contains(x) by {
            let k = choose|k: int| 0 <= k < a@.len() && a@[k] == x;
        }
    }
    false
}

/// Appends the elements of `src` that `dst` lacks.
fn extend_unique(dst: &mut Vec<TileHandle>, src: &Vec<TileHandle>)
    requires
        old(dst)@.no_duplicates(),
    ensures
        final(dst)@.no_duplicates(),
        final(dst)@.to_set() == old(dst)@.to_set().union(src@.to_set()),
{
    let mut i: usize = 0;
    while i < src.len()
        invariant
            i <= src@.len(),
            dst@.no_duplicates(),
            dst@.to_set() == old(dst)@.to_set().union(src@.subrange(0, i as int).to_set()),
        decreases src@.len() - i,
    {
        let x = src[i];
        let mut j: usize = 0;
        let mut found = false;
        while j < dst.len()
            invariant
                j <= dst@.len(),
                found ==> dst@.contains(x),
                !found ==> forall|k: int| 0 <= k < j ==> dst@[k] != x,
            decreases dst@.len() - j,
        {
            if dst[j] == x {
                found = true;
            }
            j = j + 1;
        }
        let ghost before = dst@;
        if !found {
            dst.push(x);
            proof {
                before.lemma_push_to_set_commute(x);
            }
        }
        proof {
            assert(src@.subrange(0, i + 1) == src@.subrange(0, i as int).push(x));
            src@.subrange(0, i as int).lemma_push_to_set_commute(x);
            assert(dst@.to_set() =~= old(dst)@.to_set().union(src@.subrange(0, i + 1).to_set()));
        }
        i = i + 1;
    }
    assert(src@.subrange(0, src@.len() as int) == src@);
}

/// Appends `x` to `v` unless it is there already.
fn push_unique(v: &mut Vec<TileHandle>, x: TileHandle)
    requires
        old(v)@.no_duplicates(),
    ensures
        final(v)@.no_duplicates(),
        final(v)@.to_set() == old(v)@.to_set().insert(x),
{
    let mut j: usize = 0;
    while j < v.len()
        invariant
            v@ == old(v)@,
            v@.no_duplicates(),
            j <= v@.len(),
            forall|k: int| 0 <= k < j ==> v@[k] != x,
        decreases v@.len() - j,
    {
        if v[j] == x {
            assert(old(v)@.to_set().insert(x) =~= old(v)@.to_set());
            return ;
        }
        j = j + 1;
    }
    v.push(x);
    proof {
        old(v)@.lemma_push_to_set_commute(x);
    }
}

/// The owners of the edges `trace` names.
pub open spec fn trace_owners(d: DedupEdges, trace: Seq<usize>) -> Set<TileHandle> {
    Set::new(
        |x: TileHandle|
            exists|k: int| 0 <= k < trace.len() && #[trigger] d.edges@[trace[k] as int].2 == x,
    )
}

/// The polygon of a traced chain: the start point of each of its edges, in
/// order, and the tiles that contributed them.
pub fn build_loop(d: &DedupEdges, trace: &Vec<usize>) -> (l: BoundaryLoop)
    requires
        d.wf(),
        forall|k: int| 0 <= k < trace@.len() ==> #[trigger] trace@[k] < d.edges@.len(),
    ensures
        l.points@.len() == trace@.len(),
        forall|k: int|
            0 <= k < trace@.len() ==> #[trigger] l.points@[k] == d.points@[d.edges@[trace@[k] as int].0 as int],
        l.owners@.no_duplicates(),
        owner_set(l) == trace_owners(*d, trace@),
        traced_loop(*d, trace@, l),
{
    let mut points: Vec<Point> = Vec::new();
    let mut owners: Vec<TileHandle> = Vec::new();
    let mut k: usize = 0;
    while k < trace.len()
        invariant
            d.wf(),
            forall|j: int| 0 <= j < trace@.len() ==> #[trigger] trace@[j] < d.edges@.len(),
            k <= trace@.len(),
            points@.len() == k,
            forall|j: int|
                0 <= j < k ==> #[trigger] points@[j] == d.points@[d.edges@[trace@[j] as int].0 as int],
            owners@.no_duplicates(),
            owners@.to_set() == trace_owners(*d, trace@.subrange(0, k as int)),
        decreases trace@.len() - k,
    {
        let e = trace[k];
        let (p0, _, owner) = d.edges[e];
        points.push(d.points[p0]);
        push_unique(&mut owners, owner);
        proof {
            let sub = trace@.subrange(0, k as int);
            let sub1 = trace@.subrange(0, k + 1);
            assert forall|x: TileHandle| trace_owners(*d, sub1).contains(x) == trace_owners(
                *d,
                sub,
            ).insert(owner).contains(x) by {
                if trace_owners(*d, sub1).contains(x) && x != owner {
                    let j = choose|j: int| 0 <= j < sub1.len() && #[trigger] d.edges@[sub1[j] as int].2 == x;
                    assert(j < k);
                    assert(sub[j] == sub1[j]);
                }
                if trace_owners(*d, sub).contains(x) {
                    let j = choose|j: int| 0 <= j < sub.len() && #[trigger] d.edges@[sub[j] as int].2 == x;
                    assert(sub1[j] == sub[j]);
                }
                if x == owner {
                    assert(sub1[k as int] == e);
                }
            }
            assert(owners@.to_set() =~= trace_owners(*d, sub1));
        }
        k = k + 1;
    }
    assert(trace@.subrange(0, trace@.len() as int) == trace@);
    let l = BoundaryLoop { points, owners };
    proof {
        reveal(traced_loop);
    }
    l
}

/// Edge `e` of `d` runs along side `i` of the hex at `p`: from corner `i` to
/// corner `(i + 1) % 6`.
pub open spec fn edge_follows_side(d: DedupEdges, e: int, p: TilePos, i: int) -> bool {
    &&& d.points@[d.edges@[e].0 as int] == p.0.corner_spec(i)
    &&& d.points@[d.edges@[e].1 as int] == p.0.corner_spec((i + 1) % 6)
}

/// No two edges of `d` with the same owner start at the same point: each side
/// of each tile has at most one edge.
pub open spec fn one_edge_per_side(d: DedupEdges) -> bool {
    forall|e1: int, e2: int|
        0 <= e1 < d.edges@.len() && 0 <= e2 < d.edges@.len() && e1 != e2 && (#[trigger] d.edges@[e1]).2
            == (#[trigger] d.edges@[e2]).2 ==> d.edges@[e1].0 != d.edges@[e2].0
}

/// Growing `d1` into `d2` (edges and points appended, tolerance kept) keeps
/// what the old edges follow.
pub proof fn lemma_follows_kept(d1: DedupEdges, d2: DedupEdges, e: int, p: TilePos, i: int)
    requires
        d1.wf(),
        0 <= e < d1.edges@.len() <= d2.edges@.len(),
        d1.points@.len() <= d2.points@.len(),
        d2.edges@[e] == d1.edges@[e],
        forall|k: int| 0 <= k < d1.points@.len() ==> #[trigger] d2.points@[k] == d1.points@[k],
        d2.threshold == d1.threshold,
        edge_follows_side(d1, e, p, i),
    ensures
        edge_follows_side(d2, e, p, i),
{
}

/// Every edge of `d` is owned by a tile of `owners` that exists in `w`, and runs
/// along a side of that tile that faces a free position.
pub open spec fn edges_on_free_sides(w: TileWorld, d: DedupEdges, owners: Seq<TileHandle>) -> bool {
    forall|e: int|
        0 <= e < d.edges@.len() ==> {
            let h = (#[trigger] d.edges@[e]).2;
            let p = w.slot(h).pos;
            &&& owners.contains(h)
            &&& w.resolves(h)
            &&& exists|i: int|
                0 <= i < 6 && boundary_sides(w.tiles(), p)[i] && #[trigger] edge_follows_side(
                    d,
                    e,
                    p,
                    i,
                )
        }
}

/// Each of the first `n` sides of tile `g` that faces a free position has an
/// edge of `d`, owned by `g`, running along it.
pub open spec fn sides_registered(w: TileWorld, d: DedupEdges, g: TileHandle, n: int) -> bool {
    forall|i: int|
        0 <= i < n && #[trigger] boundary_sides(w.tiles(), w.slot(g).pos)[i] ==> exists|e: int|
            0 <= e < d.edges@.len() && d.edges@[e].2 == g && #[trigger] edge_follows_side(
                d,
                e,
                w.slot(g).pos,
                i,
            )
}

/// `d2` extends `d1`: old edges and points stay, the tolerance is kept.
pub open spec fn extends(d1: DedupEdges, d2: DedupEdges) -> bool {
    &&& d1.edges@.len() <= d2.edges@.len()
    &&& d1.points@.len() <= d2.points@.len()
    &&& forall|e: int| 0 <= e < d1.edges@.len() ==> #[trigger] d2.edges@[e] == d1.edges@[e]
    &&& forall|k: int| 0 <= k < d1.points@.len() ==> #[trigger] d2.points@[k] == d1.points@[k]
    &&& d2.threshold == d1.threshold
}

/// Registered sides stay registered as the edge set grows.
pub proof fn lemma_sides_registered_grow(
    w: TileWorld,
    d1: DedupEdges,
    d2: DedupEdges,
    g: TileHandle,
    n: int,
)
    requires
        d1.wf(),
        extends(d1, d2),
        sides_registered(w, d1, g, n),
    ensures
        sides_registered(w, d2, g, n),
{
    assert forall|i: int|
        0 <= i < n && #[trigger] boundary_sides(w.tiles(), w.slot(g).pos)[i] implies exists|e: int|
        0 <= e < d2.edges@.len() && d2.edges@[e].2 == g && #[trigger] edge_follows_side(
            d2,
            e,
            w.slot(g).pos,
            i,
        ) by {
        let e = choose|e: int|
            0 <= e < d1.edges@.len() && d1.edges@[e].2 == g && #[trigger] edge_follows_side(
                d1,
                e,
                w.slot(g).pos,
                i,
            );
        lemma_follows_kept(d1, d2, e, w.slot(g).pos, i);
    }
}

/// Edges on free sides stay so as the edge set grows, while new edges satisfy it too.
pub proof fn lemma_edges_on_free_sides_grow(
    w: TileWorld,
    d1: DedupEdges,
    d2: DedupEdges,
    owners: Seq<TileHandle>,
)
    requires
        d1.wf(),
        extends(d1, d2),
        edges_on_free_sides(w, d1, owners),
        forall|e: int|
            d1.edges@.len() <= e < d2.edges@.len() ==> {
                let h = (#[trigger] d2.edges@[e]).2;
                let p = w.slot(h).pos;
                &&& owners.contains(h)
                &&& w.resolves(h)
                &&& exists|i: int|
                    0 <= i < 6 && boundary_sides(w.tiles(), p)[i] && #[trigger] edge_follows_side(
                        d2,
                        e,
                        p,
                        i,
                    )
            },
    ensures
        edges_on_free_sides(w, d2, owners),
{
    assert forall|e: int| 0 <= e < d1.edges@.len() implies {
        let h = (#[trigger] d2.edges@[e]).2;
        let p = w.slot(h).pos;
        &&& owners.contains(h)
        &&& w.resolves(h)
        &&& exists|i: int|
            0 <= i < 6 && boundary_sides(w.tiles(), p)[i] && #[trigger] edge_follows_side(d2, e, p, i)
    } by {
        let h = d1.edges@[e].2;
        let p = w.slot(h).pos;
        let i = choose|i: int|
            0 <= i < 6 && boundary_sides(w.tiles(), p)[i] && #[trigger] edge_follows_side(d1, e, p, i);
        lemma_follows_kept(d1, d2, e, p, i);
    }
}

/// Two worlds with the same index and the same slots but for colliders agree
/// on which edges lie on free sides and which sides are registered.
pub proof fn lemma_same_shape(w1: TileWorld, w2: TileWorld, d: DedupEdges, owners: Seq<TileHandle>)
    requires
        w1.tiles() == w2.tiles(),
        w1.slots().len() == w2.slots().len(),
        forall|i: int|
            0 <= i < w1.slots().len() ==> (#[trigger] w2.slots()[i]).generation
                == w1.slots()[i].generation && w2.slots()[i].state == w1.slots()[i].state
                && w2.slots()[i].pos == w1.slots()[i].pos,
    ensures
        edges_on_free_sides(w1, d, owners) ==> edges_on_free_sides(w2, d, owners),
        forall|g: TileHandle, n: int|
            w1.resolves(g) ==> (#[trigger] sides_registered(w1, d, g, n) ==> sides_registered(
                w2,
                d,
                g,
                n,
            )),
        forall|g: TileHandle| #[trigger] w1.resolves(g) ==> w2.resolves(g) && w2.slot(g).pos == w1.slot(g).pos,
{
    assert forall|g: TileHandle| #[trigger] w1.resolves(g) implies w2.resolves(g) && w2.slot(g).pos
        == w1.slot(g).pos by {
        assert(w2.slots()[g.index as int].generation == w1.slots()[g.index as int].generation);
    }
    if edges_on_free_sides(w1, d, owners) {
        assert forall|e: int| 0 <= e < d.edges@.len() implies {
            let h = (#[trigger] d.edges@[e]).2;
            let p = w2.slot(h).pos;
            &&& owners.contains(h)
            &&& w2.resolves(h)
            &&& exists|i: int|
                0 <= i < 6 && boundary_sides(w2.tiles(), p)[i] && #[trigger] edge_follows_side(d, e, p, i)
        } by {
            let h = d.edges@[e].2;
            assert(w1.resolves(h));
        }
    }
}

/// `l` is the polygon of the walk `t` over `d`: the start point of each edge,
/// in order, and the tiles that own those edges.
#[verifier::opaque]
pub open spec fn traced_loop(d: DedupEdges, t: Seq<usize>, l: BoundaryLoop) -> bool {
    &&& l.points@.len() == t.len()
    &&& forall|k: int|
        0 <= k < t.len() ==> #[trigger] l.points@[k] == d.points@[d.edges@[t[k] as int].0 as int]
    &&& owner_set(l) == trace_owners(d, t)
}

/// Through the index maps `src` and `dst`: loop `ls[from + j]` is the polygon
/// of the closed walk `ts[src[j]]`, and each closed walk `ts[a]` among the
/// first `n` has its polygon at `ls[from + dst[a]]`.
pub open spec fn published_upto(
    d: DedupEdges,
    ts: Seq<LoopTrace>,
    ls: Seq<BoundaryLoop>,
    from: int,
    src: Seq<int>,
    dst: Seq<int>,
    n: int,
) -> bool {
    &&& 0 <= from <= ls.len()
    &&& src.len() == ls.len() - from
    &&& dst.len() == ts.len()
    &&& forall|j: int|
        0 <= j < src.len() ==> 0 <= #[trigger] src[j] < n && ts[src[j]].end == TraceEnd::Closed
            && traced_loop(d, ts[src[j]].edges@, ls[from + j])
    &&& forall|a: int|
        0 <= a < n && #[trigger] ts[a].end == TraceEnd::Closed ==> 0 <= dst[a] < src.len()
            && src[dst[a]] == a
    &&& forall|j: int| 0 <= j < src.len() ==> dst[#[trigger] src[j]] == j
}

/// The loops `ls[from..]` are the polygons of the closed walks of `ts`, one
/// for each.
pub open spec fn loops_of_closed_walks(
    d: DedupEdges,
    ts: Seq<LoopTrace>,
    ls: Seq<BoundaryLoop>,
    from: int,
) -> bool {
    exists|src: Seq<int>, dst: Seq<int>|
        #[trigger] published_upto(d, ts, ls, from, src, dst, ts.len() as int)
}

/// The tiles of the loops `ls[from..]` own edges of `d`.
pub proof fn lemma_fresh_owners(d: DedupEdges, ts: Seq<LoopTrace>, ls: Seq<BoundaryLoop>, from: int)
    requires
        loops_of_closed_walks(d, ts, ls, from),
        partitions(ts, d.edges@.len() as int),
    ensures
        forall|j: int, x: TileHandle|
            from <= j < ls.len() && #[trigger] owner_set(ls[j]).contains(x) ==> exists|e: int|
                0 <= e < d.edges@.len() && #[trigger] d.edges@[e].2 == x,
{
    let (src, dst) = choose|src: Seq<int>, dst: Seq<int>|
        #[trigger] published_upto(d, ts, ls, from, src, dst, ts.len() as int);
    assert forall|j: int, x: TileHandle|
        from <= j < ls.len() && #[trigger] owner_set(ls[j]).contains(x) implies exists|e: int|
        0 <= e < d.edges@.len() && #[trigger] d.edges@[e].2 == x by {
        let a = src[j - from];
        let t = ts[a].edges@;
        assert(traced_loop(d, t, ls[from + (j - from)]));
        reveal(traced_loop);
        assert(trace_owners(d, t).contains(x));
        let k = choose|k: int| 0 <= k < t.len() && #[trigger] d.edges@[t[k] as int].2 == x;
        assert(ts[a].edges@[k] < d.edges@.len());
    }
}

/// The handles of the tiles in slots `0..n` of `w` that are marked for removal.
pub open spec fn reaped_handles(w: TileWorld, n: int) -> Set<TileHandle> {
    Set::new(
        |h: TileHandle|
            h.index < n && h.index < w.slots().len() && w.slots()[h.index as int].state
                == TileState::PendingRemoval && w.slots()[h.index as int].generation == h.generation,
    )
}

/// The tiles of `w` next to the tiles in slots `0..n` that are marked for removal.
pub open spec fn reaped_neighbors(w: TileWorld, n: int) -> Set<TileHandle> {
    Set::new(
        |x: TileHandle|
            exists|i: int, k: int|
                0 <= i < n && i < w.slots().len() && w.slots()[i].state == TileState::PendingRemoval
                    && 0 <= k < 6 && #[trigger] w.tiles().contains_key(w.slots()[i].pos.neighbor(k))
                    && w.tiles()[w.slots()[i].pos.neighbor(k)] == x,
    )
}

/// The number of walks of `ts` that did not close.
pub open spec fn count_unclosed(ts: Seq<LoopTrace>) -> nat
    decreases ts.len(),
{
    if ts.len() == 0 {
        0
    } else {
        count_unclosed(ts.drop_last()) + if ts.last().end == TraceEnd::Closed {
            0nat
        } else {
            1nat
        }
    }
}

/// The number of walks that did not close.
pub fn count_broken(traces: &Vec<LoopTrace>) -> (n: usize)
    ensures
        n == count_unclosed(traces@),
{
    let mut n: usize = 0;
    let mut a: usize = 0;
    while a < traces.len()
        invariant
            a <= traces@.len(),
            n <= a,
            n == count_unclosed(traces@.subrange(0, a as int)),
        decreases traces@.len() - a,
    {
        assert(traces@.subrange(0, a + 1).drop_last() == traces@.subrange(0, a as int));
        if traces[a].end != TraceEnd::Closed {
            n = n + 1;
        }
        a = a + 1;
    }
    assert(traces@.subrange(0, traces@.len() as int) == traces@);
    n
}

/// The tile context: every operation on tiles and their boundaries goes through it.
pub struct TileWorld {
    cache: TileCache,
    slots: Vec<TileSlot>,
    free: Vec<u32>,
    loops: Vec<BoundaryLoop>,
    delay_ms: u64,
    broken_walks: usize,
    ambiguous_pairings: usize,
}

impl TileWorld {
    /// The occupied positions and their tiles.
    pub closed spec fn tiles(&self) -> Map<TilePos, TileHandle> {
        self.cache.tiles()
    }

    /// The tiles whose boundary may be stale.
    pub closed spec fn dirty(&self) -> Set<TileHandle> {
        self.cache.dirty()
    }

    /// The slots, by index.
    pub closed spec fn slots(&self) -> Seq<TileSlot> {
        self.slots@
    }

    /// The live boundary loops.
    pub closed spec fn loops(&self) -> Seq<BoundaryLoop> {
        self.loops@
    }

    /// Milliseconds left until the next pass may run.
    pub closed spec fn delay(&self) -> u64 {
        self.delay_ms
    }

    /// How many walks of the last recompute call did not close.
    pub closed spec fn broken(&self) -> usize {
        self.broken_walks
    }

    /// How many edges of the last recompute call had more than one candidate
    /// successor.
    pub closed spec fn ambiguous(&self) -> usize {
        self.ambiguous_pairings
    }

    /// Whether `h` names a tile that has not been removed.
    pub open spec fn resolves(&self, h: TileHandle) -> bool {
        &&& h.index < self.slots().len()
        &&& self.slots()[h.index as int].generation == h.generation
        &&& self.slots()[h.index as int].state != TileState::Removed
    }

    /// The slot that `h` names (meaningful where `h` resolves).
    pub open spec fn slot(&self, h: TileHandle) -> TileSlot {
        self.slots()[h.index as int]
    }

    /// Every occupied position's tile has a collider made of exactly the sides
    /// that face free positions.
    pub open spec fn colliders_exact(&self) -> bool {
        forall|p: TilePos| #[trigger]
            self.tiles().contains_key(p) ==> match self.slot(self.tiles()[p]).collider {
                Some(c) => c@ == boundary_sides(self.tiles(), p),
                None => false,
            }
    }

    /// The slots, the free list and the index agree with each other.
    pub closed spec fn core_wf(&self) -> bool {
        &&& self.cache.wf()
        &&& forall|p: TilePos| #[trigger]
            self.tiles().contains_key(p) ==> {
                let h = self.tiles()[p];
                &&& self.resolves(h)
                &&& self.slot(h).pos == p
            }
        &&& forall|i: int|
            0 <= i < self.slots@.len() && #[trigger] self.slots@[i].state != TileState::Removed
                ==> self.slots@[i].pos.0.has_neighbors()
        &&& self.free@.no_duplicates()
        &&& forall|k: int|
            0 <= k < self.free@.len() ==> #[trigger] self.free@[k] < self.slots@.len()
                && self.slots@[self.free@[k] as int].state == TileState::Removed
        &&& self.slots@.len() <= u32::MAX
    }

    /// Every occupied position whose tile is not in `stale` has the collider
    /// its surroundings call for.
    pub open spec fn colliders_fresh_outside(&self, stale: Set<TileHandle>) -> bool {
        forall|p: TilePos| #[trigger]
            self.tiles().contains_key(p) ==> (!stale.contains(self.tiles()[p]) ==> match self.slot(
                self.tiles()[p],
            ).collider {
                Some(c) => c@ == boundary_sides(self.tiles(), p),
                None => false,
            })
    }

    /// Well-formed: consistent, and only dirty tiles may have stale colliders.
    pub closed spec fn wf(&self) -> bool {
        &&& self.core_wf()
        &&& self.colliders_fresh_outside(self.dirty())
    }

    /// An empty world.
    pub fn new() -> (w: TileWorld)
        ensures
            w.wf(),
            w.tiles() == Map::<TilePos, TileHandle>::empty(),
            w.dirty() == Set::<TileHandle>::empty(),
            w.loops().len() == 0,
            w.slots().len() == 0,
    {
        let w = TileWorld {
            cache: TileCache::new(),
            slots: Vec::new(),
            free: Vec::new(),
            loops: Vec::new(),
            delay_ms: 0,
            broken_walks: 0,
            ambiguous_pairings: 0,
        };
        assert(w.dirty() =~= Set::<TileHandle>::empty());
        w
    }

    /// How many walks of the last recompute call did not close; their edges
    /// gave no loop.
    pub fn broken_walk_count(&self) -> (n: usize)
        ensures
            n == self.broken(),
    {
        self.broken_walks
    }

    /// How many edges of the last recompute call had more than one candidate
    /// successor.
    pub fn ambiguous_pairing_count(&self) -> (n: usize)
        ensures
            n == self.ambiguous(),
    {
        self.ambiguous_pairings
    }

    /// The live boundary loops.
    pub fn boundary_loops(&self) -> (r: &Vec<BoundaryLoop>)
        ensures
            r@ == self.loops(),
    {
        &self.loops
    }

    /// Whether `pos` is occupied.
    pub fn contains(&self, pos: TilePos) -> (b: bool)
        ensures
            b == self.tiles().contains_key(pos),
    {
        self.cache.contains(pos)
    }

    /// The tile at `pos`, if any.
    pub fn get(&self, pos: TilePos) -> (h: Option<TileHandle>)
        ensures
            h == (if self.tiles().contains_key(pos) {
                Some(self.tiles()[pos])
            } else {
                None
            }),
    {
        self.cache.get(pos)
    }

    /// For each direction `i`, whether the neighbour of `pos` there is occupied.
    pub fn neighbors_occupied(&self, pos: TilePos) -> (occ: [bool; 6])
        requires
            pos.0.has_neighbors(),
        ensures
            forall|i: int|
                0 <= i < 6 ==> #[trigger] occ@[i] == self.tiles().contains_key(pos.neighbor(i)),
    {
        self.cache.neighbors_occupied(pos)
    }

    /// Whether nothing awaits a recompute pass.
    pub fn is_clean(&self) -> (b: bool)
        requires
            self.wf(),
        ensures
            b == (self.dirty() == Set::<TileHandle>::empty()),
    {
        self.cache.is_dirty_empty()
    }

    /// The slot that `h` names, if `h` is not stale.
    pub fn slot_of(&self, h: TileHandle) -> (s: Option<TileSlot>)
        ensures
            s == (if self.resolves(h) {
                Some(self.slot(h))
            } else {
                None
            }),
    {
        let i = h.index as usize;
        if i < self.slots.len() && self.slots[i].generation == h.generation && self.slots[i].state
            != TileState::Removed {
            Some(self.slots[i])
        } else {
            None
        }
    }

    /// The position of the tile `h` names, if `h` is not stale.
    pub fn tile_pos(&self, h: TileHandle) -> (p: Option<TilePos>)
        ensures
            p == (if self.resolves(h) {
                Some(self.slot(h).pos)
            } else {
                None
            }),
    {
        match self.slot_of(h) {
            Some(s) => Some(s.pos),
            None => None,
        }
    }

    /// The collider of the tile `h` names: for each side, whether it holds it.
    pub fn collider(&self, h: TileHandle) -> (c: Option<[bool; 6]>)
        ensures
            c == (if self.resolves(h) {
                self.slot(h).collider
            } else {
                None
            }),
    {
        match self.slot_of(h) {
            Some(s) => s.collider,
            None => None,
        }
    }

    /// The number of slots in the arena, free ones included.
    pub fn slot_count(&self) -> (n: usize)
        ensures
            n == self.slots().len(),
    {
        self.slots.len()
    }

    /// Marks `h` and every tile next to `pos` dirty.
    fn mark_around(&mut self, pos: TilePos, h: TileHandle)
        requires
            old(self).cache.wf(),
            pos.0.has_neighbors(),
        ensures
            final(self).cache.wf(),
            final(self).dirty() == old(self).dirty().insert(h).union(
                neighbor_occupants(old(self).tiles(), pos, 6),
            ),
            final(self).tiles() == old(self).tiles(),
            final(self).slots == old(self).slots,
            final(self).free == old(self).free,
            final(self).loops == old(self).loops,
            final(self).delay_ms == old(self).delay_ms,
    {
        self.cache.mark_dirty(h);
        let n = pos.get_neighbors();
        let mut i: usize = 0;
        while i < 6
            invariant
                self.cache.wf(),
                0 <= i <= 6,
                forall|k: int| 0 <= k < 6 ==> #[trigger] n@[k] == pos.neighbor(k),
                self.tiles() == old(self).tiles(),
                self.dirty() == old(self).dirty().insert(h).union(
                    neighbor_occupants(old(self).tiles(), pos, i as int),
                ),
                self.slots == old(self).slots,
                self.free == old(self).free,
                self.loops == old(self).loops,
                self.delay_ms == old(self).delay_ms,
            decreases 6 - i,
        {
            match self.cache.get(n[i]) {
                Some(o) => {
                    self.cache.mark_dirty(o);
                    assert(self.dirty() =~= old(self).dirty().insert(h).union(
                        neighbor_occupants(old(self).tiles(), pos, i + 1),
                    )) by {
                        assert(self.tiles().contains_key(pos.neighbor(i as int)));
                    }
                },
                None => {
                    assert(self.dirty() =~= old(self).dirty().insert(h).union(
                        neighbor_occupants(old(self).tiles(), pos, i + 1),
                    ));
                },
            }
            i = i + 1;
        }
    }

    /// Adds a tile at `pos` and returns its handle. The tile takes `pos` in the
    /// index (an earlier occupant stays in its slot but leaves the index), and
    /// it and every tile next to it are marked dirty.
    pub fn spawn_tile(&mut self, pos: TilePos, kind: TileType) -> (h: TileHandle)
        requires
            old(self).wf(),
            pos.0.has_neighbors(),
            old(self).slots().len() < u32::MAX,
        ensures
            final(self).wf(),
            !old(self).resolves(h),
            final(self).resolves(h),
            final(self).slots().len() <= old(self).slots().len() + 1,
            final(self).slot(h).pos == pos,
            final(self).slot(h).kind == kind,
            final(self).slot(h).state == TileState::Live,
            final(self).slot(h).collider == (if kind.immediate_collider {
                Some([true, true, true, true, true, true])
            } else {
                None
            }),
            forall|g: TileHandle| #[trigger]
                old(self).resolves(g) ==> final(self).resolves(g) && final(self).slot(g) == old(
                    self,
                ).slot(g),
            final(self).tiles() == old(self).tiles().insert(pos, h),
            final(self).dirty() == old(self).dirty().insert(h).union(
                neighbor_occupants(final(self).tiles(), pos, 6),
            ),
            final(self).loops() == old(self).loops(),
            final(self).delay() == old(self).delay(),
    {
        let collider = if kind.immediate_collider {
            Some([true, true, true, true, true, true])
        } else {
            None
        };
        let h = match self.free.pop() {
            Some(i) => {
                let generation = self.slots[i as usize].generation;
                let slot = TileSlot { generation, state: TileState::Live, pos, kind, collider };
                self.slots.set(i as usize, slot);
                TileHandle { index: i, generation }
            },
            None => {
                let i = self.slots.len() as u32;
                self.slots.push(TileSlot { generation: 0, state: TileState::Live, pos, kind, collider });
                TileHandle { index: i, generation: 0 }
            },
        };
        assert forall|g: TileHandle| #[trigger]
            old(self).resolves(g) implies self.resolves(g) && self.slot(g) == old(self).slot(g) by {
            assert(g.index != h.index);
        }
        assert forall|k: int|
            0 <= k < self.free@.len() implies #[trigger] self.free@[k] < self.slots@.len()
                && self.slots@[self.free@[k] as int].state == TileState::Removed by {
            assert(self.free@[k] == old(self).free@[k]);
            if old(self).free@.len() > 0 && h.index == old(self).free@.last() {
                assert(old(self).free@[k] != old(self).free@[old(self).free@.len() - 1]);
            }
        }
        self.cache.insert(pos, h);
        self.mark_around(pos, h);
        proof {
            let new_tiles = self.tiles();
            let old_tiles = old(self).tiles();
            assert forall|p: TilePos| #[trigger] new_tiles.contains_key(p) implies {
                let g = new_tiles[p];
                &&& self.resolves(g)
                &&& self.slot(g).pos == p
                &&& (!self.dirty().contains(g) ==> match self.slot(g).collider {
                    Some(c) => c@ == boundary_sides(new_tiles, p),
                    None => false,
                })
            } by {
                if p != pos {
                    let g = new_tiles[p];
                    assert(old_tiles.contains_key(p) && old_tiles[p] == g);
                    if !self.dirty().contains(g) {
                        assert(!old(self).dirty().contains(g));
                        assert(boundary_sides(new_tiles, p) =~= boundary_sides(old_tiles, p)) by {
                            assert forall|i: int| 0 <= i < 6 implies new_tiles.contains_key(
                                #[trigger] p.neighbor(i),
                            ) == old_tiles.contains_key(p.neighbor(i)) by {
                                if p.neighbor(i) == pos {
                                    lemma_neighbor_back(p, i);
                                    let j = opposite(i);
                                    assert(new_tiles.contains_key(pos.neighbor(j)));
                                    assert(neighbor_occupants(new_tiles, pos, 6).contains(g));
                                }
                            }
                        }
                    }
                }
            }
            assert forall|i: int|
                0 <= i < self.slots@.len() && #[trigger] self.slots@[i].state != TileState::Removed
                    implies self.slots@[i].pos.0.has_neighbors() by {
                if i != h.index {
                    assert(self.slots@[i] == old(self).slots@[i]);
                }
            }
        }
        h
    }

    /// Marks a live tile for removal; the next [`TileWorld::reap`] removes it.
    /// Returns whether `h` named a live tile.
    pub fn request_despawn(&mut self, h: TileHandle) -> (marked: bool)
        requires
            old(self).wf(),
        ensures
            final(self).wf(),
            marked == (old(self).resolves(h) && old(self).slot(h).state == TileState::Live),
            final(self).slots() == (if marked {
                old(self).slots().update(
                    h.index as int,
                    TileSlot { state: TileState::PendingRemoval, ..old(self).slot(h) },
                )
            } else {
                old(self).slots()
            }),
            final(self).tiles() == old(self).tiles(),
            final(self).dirty() == old(self).dirty(),
            final(self).loops() == old(self).loops(),
            final(self).delay() == old(self).delay(),
    {
        let i = h.index as usize;
        if i < self.slots.len() && self.slots[i].generation == h.generation && self.slots[i].state
            == TileState::Live {
            let slot = self.slots[i];
            self.slots.set(i, TileSlot { state: TileState::PendingRemoval, ..slot });
            proof {
                assert forall|p: TilePos| #[trigger] self.tiles().contains_key(p) implies {
                    let g = self.tiles()[p];
                    &&& self.resolves(g)
                    &&& self.slot(g).pos == p
                    &&& (!self.dirty().contains(g) ==> match self.slot(g).collider {
                        Some(c) => c@ == boundary_sides(self.tiles(), p),
                        None => false,
                    })
                } by {
                    let g = self.tiles()[p];
                    assert(old(self).resolves(g));
                    if g.index == i {
                        assert(self.slots@[i as int].pos == old(self).slots@[i as int].pos);
                    }
                }
                assert forall|k: int|
                    0 <= k < self.free@.len() implies #[trigger] self.free@[k] < self.slots@.len()
                        && self.slots@[self.free@[k] as int].state == TileState::Removed by {
                    assert(old(self).slots@[self.free@[k] as int].state == TileState::Removed);
                }
                assert forall|j: int|
                    0 <= j < self.slots@.len() && #[trigger] self.slots@[j].state
                        != TileState::Removed implies self.slots@[j].pos.0.has_neighbors() by {
                    assert(old(self).slots@[j].state != TileState::Removed);
                }
            }
            true
        } else {
            false
        }
    }

    /// Finishes the removal of the tile in slot `i`, which is marked for removal.
    fn remove_slot(&mut self, i: usize)
        requires
            old(self).wf(),
            i < old(self).slots@.len(),
            old(self).slots@[i as int].state == TileState::PendingRemoval,
        ensures
            final(self).wf(),
            final(self).slots@.len() == old(self).slots@.len(),
            final(self).slots@[i as int].state == TileState::Removed,
            forall|j: int|
                0 <= j < old(self).slots@.len() && j != i ==> #[trigger] final(self).slots@[j]
                    == old(self).slots@[j],
            ({
                let h = TileHandle { index: i as u32, generation: old(self).slots@[i as int].generation };
                let p = old(self).slots@[i as int].pos;
                &&& final(self).tiles() == (if old(self).tiles().contains_key(p) && old(
                    self,
                ).tiles()[p] == h {
                    old(self).tiles().remove(p)
                } else {
                    old(self).tiles()
                })
                &&& final(self).dirty() == old(self).dirty().insert(h).union(
                    neighbor_occupants(final(self).tiles(), p, 6),
                )
            }),
            final(self).loops() == old(self).loops(),
            final(self).delay() == old(self).delay(),
    {
        let slot = self.slots[i];
        let h = TileHandle { index: i as u32, generation: slot.generation };
        let pos = slot.pos;
        proof {
            if old(self).tiles().contains_key(pos) {
                let g = old(self).tiles()[pos];
                assert(old(self).slot(g).pos == pos);
                if g.index == i {
                    assert(g == h);
                }
            }
        }
        match self.cache.get(pos) {
            Some(o) => {
                if o == h {
                    self.cache.remove(pos);
                }
            },
            None => {},
        }
        self.mark_around(pos, h);
        if slot.generation < u32::MAX {
            self.slots.set(
                i,
                TileSlot {
                    generation: slot.generation + 1,
                    state: TileState::Removed,
                    collider: None,
                    ..slot
                },
            );
            self.free.push(i as u32);
        } else {
            self.slots.set(i, TileSlot { state: TileState::Removed, collider: None, ..slot });
        }
        proof {
            let new_tiles = self.tiles();
            let old_tiles = old(self).tiles();
            assert forall|p: TilePos| #[trigger] new_tiles.contains_key(p) implies {
                let g = new_tiles[p];
                &&& self.resolves(g)
                &&& self.slot(g).pos == p
                &&& (!self.dirty().contains(g) ==> match self.slot(g).collider {
                    Some(c) => c@ == boundary_sides(new_tiles, p),
                    None => false,
                })
            } by {
                let g = new_tiles[p];
                assert(old_tiles.contains_key(p) && old_tiles[p] == g);
                assert(old(self).resolves(g));
                assert(g.index != i);
                assert(self.slots@[g.index as int] == old(self).slots@[g.index as int]);
                if !self.dirty().contains(g) {
                    assert(!old(self).dirty().contains(g));
                    assert(boundary_sides(new_tiles, p) =~= boundary_sides(old_tiles, p)) by {
                        assert forall|k: int| 0 <= k < 6 implies new_tiles.contains_key(
                            #[trigger] p.neighbor(k),
                        ) == old_tiles.contains_key(p.neighbor(k)) by {
                            if p.neighbor(k) == pos && !new_tiles.contains_key(pos) {
                                lemma_neighbor_back(p, k);
                                let j = opposite(k);
                                assert(new_tiles.contains_key(pos.neighbor(j)));
                                assert(neighbor_occupants(new_tiles, pos, 6).contains(g));
                            }
                        }
                    }
                }
            }
            assert forall|j: int|
                0 <= j < self.slots@.len() && #[trigger] self.slots@[j].state != TileState::Removed
                    implies self.slots@[j].pos.0.has_neighbors() by {
                assert(self.slots@[j] == old(self).slots@[j]);
            }
            assert forall|k: int|
                0 <= k < self.free@.len() implies #[trigger] self.free@[k] < self.slots@.len()
                    && self.slots@[self.free@[k] as int].state == TileState::Removed by {
                if k < old(self).free@.len() {
                    assert(self.free@[k] == old(self).free@[k]);
                }
            }
            if slot.generation < u32::MAX {
                assert forall|a: int, b: int|
                    0 <= a < b < self.free@.len() implies self.free@[a] != self.free@[b] by {
                    if b == self.free@.len() - 1 {
                        assert(old(self).slots@[old(self).free@[a] as int].state
                            == TileState::Removed);
                    }
                }
            }
        }
    }

    /// Removes every tile marked for removal: each leaves the index (where it
    /// still holds its position) and its slot, and it and its neighbours are
    /// marked dirty.
    pub fn reap(&mut self)
        requires
            old(self).wf(),
        ensures
            final(self).wf(),
            final(self).slots().len() == old(self).slots().len(),
            forall|i: int|
                0 <= i < old(self).slots().len() ==> (#[trigger] final(self).slots()[i]).state
                    != TileState::PendingRemoval,
            forall|i: int|
                0 <= i < old(self).slots().len() && old(self).slots()[i].state
                    == TileState::PendingRemoval ==> (#[trigger] final(self).slots()[i]).state
                    == TileState::Removed,
            forall|i: int|
                0 <= i < old(self).slots().len() && old(self).slots()[i].state
                    != TileState::PendingRemoval ==> #[trigger] final(self).slots()[i] == old(
                    self,
                ).slots()[i],
            forall|p: TilePos| #[trigger]
                final(self).tiles().contains_key(p) == (old(self).tiles().contains_key(p)
                    && old(self).slot(old(self).tiles()[p]).state != TileState::PendingRemoval),
            forall|p: TilePos| #[trigger]
                final(self).tiles().contains_key(p) ==> final(self).tiles()[p] == old(
                    self,
                ).tiles()[p],
            final(self).dirty() == old(self).dirty().union(
                reaped_handles(*old(self), old(self).slots().len() as int),
            ).union(reaped_neighbors(*old(self), old(self).slots().len() as int)),
            final(self).loops() == old(self).loops(),
            final(self).delay() == old(self).delay(),
    {
        let n = self.slots.len();
        let mut i: usize = 0;
        while i < n
            invariant
                self.wf(),
                old(self).wf(),
                n == self.slots@.len(),
                n == old(self).slots@.len(),
                i <= n,
                forall|j: int| 0 <= j < i ==> (#[trigger] self.slots@[j]).state
                    != TileState::PendingRemoval,
                forall|j: int|
                    0 <= j < i && old(self).slots@[j].state == TileState::PendingRemoval
                        ==> (#[trigger] self.slots@[j]).state == TileState::Removed,
                forall|j: int|
                    0 <= j < n && (i <= j || old(self).slots@[j].state
                        != TileState::PendingRemoval) ==> #[trigger] self.slots@[j]
                        == old(self).slots@[j],
                forall|p: TilePos| #[trigger]
                    self.tiles().contains_key(p) == (old(self).tiles().contains_key(p)
                        && (old(self).slot(old(self).tiles()[p]).state != TileState::PendingRemoval
                        || old(self).tiles()[p].index >= i)),
                forall|p: TilePos| #[trigger]
                    self.tiles().contains_key(p) ==> self.tiles()[p] == old(self).tiles()[p],
                self.dirty() == old(self).dirty().union(reaped_handles(*old(self), i as int)).union(
                    reaped_neighbors(*old(self), i as int),
                ),
                self.loops() == old(self).loops(),
                self.delay() == old(self).delay(),
            decreases n - i,
        {
            if self.slots[i].state == TileState::PendingRemoval {
                let ghost before = *self;
                self.remove_slot(i);
                proof {
                    let rp = before.slots@[i as int].pos;
                    assert forall|p: TilePos| #[trigger]
                        self.tiles().contains_key(p) == (old(self).tiles().contains_key(p)
                            && (old(self).slot(old(self).tiles()[p]).state
                            != TileState::PendingRemoval || old(self).tiles()[p].index >= i + 1)) by {
                        if old(self).tiles().contains_key(p) {
                            let g = old(self).tiles()[p];
                            assert(old(self).resolves(g));
                            assert(old(self).slot(g).pos == p);
                            if g.index == i && old(self).slot(g).state == TileState::PendingRemoval {
                                assert(before.slots@[i as int] == old(self).slots@[i as int]);
                                assert(rp == p);
                            }
                            if p == rp && before.tiles().contains_key(p) {
                                let g2 = before.tiles()[p];
                                assert(before.resolves(g2));
                                assert(before.slot(g2).pos == p);
                                assert(g2 == g);
                                if g.index != i {
                                    assert(before.slots@[g.index as int] == old(self).slots@[g.index as int]);
                                }
                            }
                        }
                    }
                    let ow = *old(self);
                    let hi = TileHandle { index: i as u32, generation: before.slots@[i as int].generation };
                    assert(before.slots@[i as int] == ow.slots@[i as int]);
                    assert(reaped_handles(ow, i + 1) =~= reaped_handles(ow, i as int).insert(hi));
                    let nb = neighbor_occupants(self.tiles(), rp, 6);
                    let lhs = before.dirty().insert(hi).union(nb);
                    let rhs = ow.dirty().union(reaped_handles(ow, i + 1)).union(
                        reaped_neighbors(ow, i + 1),
                    );
                    assert forall|x: TileHandle| lhs.contains(x) implies rhs.contains(x) by {
                        if nb.contains(x) {
                            let k = choose|k: int|
                                0 <= k < 6 && #[trigger] self.tiles().contains_key(rp.neighbor(k))
                                    && self.tiles()[rp.neighbor(k)] == x;
                            assert(ow.tiles().contains_key(rp.neighbor(k)));
                            assert(ow.slots()[i as int].pos == rp);
                            assert(reaped_neighbors(ow, i + 1).contains(x));
                        }
                        if reaped_neighbors(ow, i as int).contains(x) {
                            let (j, k) = choose|j: int, k: int|
                                0 <= j < i && j < ow.slots().len() && ow.slots()[j].state
                                    == TileState::PendingRemoval && 0 <= k < 6
                                    && #[trigger] ow.tiles().contains_key(ow.slots()[j].pos.neighbor(k))
                                    && ow.tiles()[ow.slots()[j].pos.neighbor(k)] == x;
                            assert(reaped_neighbors(ow, i + 1).contains(x));
                        }
                    }
                    assert forall|x: TileHandle| rhs.contains(x) implies lhs.contains(x) by {
                        if reaped_neighbors(ow, i + 1).contains(x) && !reaped_neighbors(
                            ow,
                            i as int,
                        ).contains(x) {
                            let (j, k) = choose|j: int, k: int|
                                0 <= j < i + 1 && j < ow.slots().len() && ow.slots()[j].state
                                    == TileState::PendingRemoval && 0 <= k < 6
                                    && #[trigger] ow.tiles().contains_key(ow.slots()[j].pos.neighbor(k))
                                    && ow.tiles()[ow.slots()[j].pos.neighbor(k)] == x;
                            if j < i {
                                assert(reaped_neighbors(ow, i as int).contains(x));
                            }
                            assert(j == i);
                            let nbp = rp.neighbor(k);
                            assert(ow.slots()[j].pos == rp);
                            assert(ow.resolves(x));
                            if self.tiles().contains_key(nbp) {
                                assert(nb.contains(x));
                            } else {
                                assert(before.tiles().contains_key(nbp) ==> before.tiles()[nbp] == x);
                                if before.tiles().contains_key(nbp) {
                                    assert(self.tiles().contains_key(nbp) || nbp == rp);
                                    assert(nbp != rp) by {
                                        lemma_neighbor_back(rp, k);
                                    }
                                }
                                assert(ow.slot(x).state == TileState::PendingRemoval && x.index < i);
                                assert(reaped_handles(ow, i as int).contains(x));
                            }
                        }
                    }
                    assert(self.dirty() =~= rhs);
                }
            } else {
                proof {
                    let ow = *old(self);
                    assert(reaped_handles(ow, i + 1) =~= reaped_handles(ow, i as int));
                    assert(reaped_neighbors(ow, i + 1) =~= reaped_neighbors(ow, i as int)) by {
                        assert forall|x: TileHandle|
                            reaped_neighbors(ow, i + 1).contains(x) implies reaped_neighbors(
                            ow,
                            i as int,
                        ).contains(x) by {
                            let (j, k) = choose|j: int, k: int|
                                0 <= j < i + 1 && j < ow.slots().len() && ow.slots()[j].state
                                    == TileState::PendingRemoval && 0 <= k < 6
                                    && #[trigger] ow.tiles().contains_key(ow.slots()[j].pos.neighbor(k))
                                    && ow.tiles()[ow.slots()[j].pos.neighbor(k)] == x;
                            assert(j != i);
                        }
                    }
                }
            }
            i = i + 1;
        }
        proof {
            assert forall|p: TilePos| #[trigger]
                self.tiles().contains_key(p) == (old(self).tiles().contains_key(p)
                    && old(self).slot(old(self).tiles()[p]).state != TileState::PendingRemoval) by {
                if old(self).tiles().contains_key(p) {
                    assert(old(self).resolves(old(self).tiles()[p]));
                }
            }
        }
    }

    /// Takes out every loop that shares a tile with `ext` and adds that loop's
    /// tiles to `ext`, repeating until no remaining loop shares a tile with it.
    /// The set reached is the least one that holds the starting set and the
    /// tiles of every loop it touches; exactly the loops disjoint from it stay.
    fn invalidate_loops(&mut self, ext: &mut Vec<TileHandle>)
        requires
            old(ext)@.no_duplicates(),
        ensures
            final(ext)@.no_duplicates(),
            least_closure(old(self).loops@, old(ext)@.to_set(), final(ext)@.to_set()),
            forall|j: int|
                0 <= j < old(self).loops@.len() ==> (final(self).loops@.contains(
                    #[trigger] old(self).loops@[j],
                ) <==> owner_set(old(self).loops@[j]).disjoint(final(ext)@.to_set())),
            forall|i: int|
                0 <= i < final(self).loops@.len() ==> old(self).loops@.contains(
                    #[trigger] final(self).loops@[i],
                ),
            forall|i: int|
                0 <= i < final(self).loops@.len() ==> owner_set(
                    #[trigger] final(self).loops@[i],
                ).disjoint(final(ext)@.to_set()),
            final(self).cache == old(self).cache,
            final(self).slots == old(self).slots,
            final(self).free == old(self).free,
            final(self).delay_ms == old(self).delay_ms,
    {
        let ghost orig = self.loops@;
        let ghost start = ext@.to_set();
        let mut current: Vec<BoundaryLoop> = Vec::new();
        std::mem::swap(&mut current, &mut self.loops);
        proof {
            assert forall|j: int| 0 <= j < orig.len() implies current@.contains(
                #[trigger] orig[j],
            ) || taken_out(orig, j, ext@.to_set()) by {
                assert(current@[j] == orig[j]);
            }
            assert forall|i: int| 0 <= i < current@.len() implies orig.contains(
                #[trigger] current@[i],
            ) by {
                assert(orig[i] == current@[i]);
            }
        }
        let mut grew = true;
        while grew
            invariant
                orig == old(self).loops@,
                start == old(ext)@.to_set(),
                ext@.no_duplicates(),
                start.subset_of(ext@.to_set()),
                forall|s: Set<TileHandle>|
                    start.subset_of(s) && closed_under(orig, s) ==> #[trigger] ext@.to_set().subset_of(
                        s,
                    ),
                forall|j: int|
                    0 <= j < orig.len() ==> current@.contains(#[trigger] orig[j]) || taken_out(
                        orig,
                        j,
                        ext@.to_set(),
                    ),
                forall|i: int| 0 <= i < current@.len() ==> orig.contains(#[trigger] current@[i]),
                !grew ==> forall|i: int|
                    0 <= i < current@.len() ==> owner_set(#[trigger] current@[i]).disjoint(
                        ext@.to_set(),
                    ),
                self.cache == old(self).cache,
                self.slots == old(self).slots,
                self.free == old(self).free,
                self.delay_ms == old(self).delay_ms,
            decreases current@.len() + (if grew {
                1int
            } else {
                0int
            }),
        {
            let ghost n0 = current@.len();
            let ghost ext_start = ext@.to_set();
            let mut kept: Vec<BoundaryLoop> = Vec::new();
            let mut removed_any = false;
            while current.len() > 0
                invariant
                    orig == old(self).loops@,
                    start == old(ext)@.to_set(),
                    kept@.len() + current@.len() + (if removed_any {
                        1int
                    } else {
                        0int
                    }) <= n0,
                    ext@.no_duplicates(),
                    start.subset_of(ext@.to_set()),
                    forall|s: Set<TileHandle>|
                        start.subset_of(s) && closed_under(orig, s) ==> #[trigger] ext@.to_set().subset_of(
                            s,
                        ),
                    forall|j: int|
                        0 <= j < orig.len() ==> current@.contains(#[trigger] orig[j])
                            || kept@.contains(orig[j]) || taken_out(orig, j, ext@.to_set()),
                    forall|i: int| 0 <= i < current@.len() ==> orig.contains(#[trigger] current@[i]),
                    forall|i: int| 0 <= i < kept@.len() ==> orig.contains(#[trigger] kept@[i]),
                    !removed_any ==> ext@.to_set() == ext_start,
                    !removed_any ==> forall|i: int|
                        0 <= i < kept@.len() ==> owner_set(#[trigger] kept@[i]).disjoint(
                            ext@.to_set(),
                        ),
                decreases current@.len(),
            {
                let ghost cur = current@;
                let ghost kept0 = kept@;
                match current.pop() {
                    Some(l) => {
                        assert(l == cur[cur.len() - 1]);
                        assert(current@ == cur.drop_last());
                        assert(orig.contains(l));
                        let ghost jl = choose|jl: int| 0 <= jl < orig.len() && orig[jl] == l;
                        if shares_any(&l.owners, ext) {
                            let ghost before = ext@.to_set();
                            extend_unique(ext, &l.owners);
                            proof {
                                assert forall|s: Set<TileHandle>|
                                    start.subset_of(s) && closed_under(
                                        orig,
                                        s,
                                    ) implies #[trigger] ext@.to_set().subset_of(s) by {
                                    assert(before.subset_of(s));
                                    assert(!owner_set(orig[jl]).disjoint(s)) by {
                                        let x = choose|x: TileHandle|
                                            owner_set(l).contains(x) && before.contains(x);
                                    }
                                }
                                assert forall|j: int|
                                    0 <= j < orig.len() implies current@.contains(
                                        #[trigger] orig[j],
                                    ) || kept@.contains(orig[j]) || taken_out(
                                        orig,
                                        j,
                                        ext@.to_set(),
                                    ) by {
                                    if taken_out(orig, j, before) {
                                    } else if cur.contains(orig[j]) {
                                        let k = choose|k: int| 0 <= k < cur.len() && cur[k] == orig[j];
                                        if k < cur.len() - 1 {
                                            assert(current@[k] == orig[j]);
                                        } else {
                                            assert(orig[j] == l);
                                            let x = choose|x: TileHandle|
                                                owner_set(l).contains(x) && before.contains(x);
                                            assert(ext@.to_set().contains(x));
                                        }
                                    }
                                }
                            }
                            removed_any = true;
                        } else {
                            kept.push(l);
                            proof {
                                assert forall|j: int|
                                    0 <= j < orig.len() implies current@.contains(
                                        #[trigger] orig[j],
                                    ) || kept@.contains(orig[j]) || taken_out(
                                        orig,
                                        j,
                                        ext@.to_set(),
                                    ) by {
                                    if kept0.contains(orig[j]) {
                                        let k = choose|k: int| 0 <= k < kept0.len() && kept0[k] == orig[j];
                                        assert(kept@[k] == orig[j]);
                                    } else if cur.contains(orig[j]) {
                                        let k = choose|k: int| 0 <= k < cur.len() && cur[k] == orig[j];
                                        if k < cur.len() - 1 {
                                            assert(current@[k] == orig[j]);
                                        } else {
                                            assert(kept@[kept@.len() - 1] == orig[j]);
                                        }
                                    }
                                }
                            }
                        }
                    },
                    None => {},
                }
            }
            current = kept;
            grew = removed_any;
        }
        self.loops = current;
        proof {
            let e = ext@.to_set();
            assert forall|j: int|
                0 <= j < orig.len() && !(#[trigger] owner_set(orig[j])).disjoint(e) implies owner_set(
                orig[j],
            ).subset_of(e) by {
                if self.loops@.contains(orig[j]) {
                    let k = choose|k: int| 0 <= k < self.loops@.len() && self.loops@[k] == orig[j];
                    assert(owner_set(self.loops@[k]).disjoint(e));
                }
            }
            assert forall|j: int| 0 <= j < orig.len() implies (self.loops@.contains(
                #[trigger] orig[j],
            ) <==> owner_set(orig[j]).disjoint(e)) by {
                if self.loops@.contains(orig[j]) {
                    let k = choose|k: int| 0 <= k < self.loops@.len() && self.loops@[k] == orig[j];
                    assert(owner_set(self.loops@[k]).disjoint(e));
                }
            }
        }
    }

    /// Gives every tile of `ext` that still exists a collider made of exactly
    /// its sides that face free positions, and registers each such side in
    /// `edges`, owned by that tile.
    #[verifier::rlimit(100)]
    #[verifier::spinoff_prover]
    fn regenerate(&mut self, ext: &Vec<TileHandle>, edges: &mut DedupEdges)
        requires
            old(self).core_wf(),
            old(edges).wf(),
            old(edges).edges@.len() == 0,
            old(edges).points@.len() == 0,
            old(edges).threshold == DEFAULT_THRESHOLD,
            ext@.no_duplicates(),
        ensures
            final(self).core_wf(),
            final(edges).wf(),
            final(edges).threshold == old(edges).threshold,
            one_edge_per_side(*final(edges)),
            forall|k: int| 0 <= k < final(edges).points@.len() ==> on_lattice(#[trigger] final(edges).points@[k]),
            edges_on_free_sides(*final(self), *final(edges), ext@),
            forall|g: TileHandle|
                final(self).resolves(g) && ext@.contains(g) ==> #[trigger] sides_registered(
                    *final(self),
                    *final(edges),
                    g,
                    6,
                ),
            final(self).cache == old(self).cache,
            final(self).free == old(self).free,
            final(self).loops == old(self).loops,
            final(self).delay_ms == old(self).delay_ms,
            final(self).slots@.len() == old(self).slots@.len(),
            forall|i: int|
                0 <= i < old(self).slots@.len() ==> (#[trigger] final(self).slots@[i]).generation
                    == old(self).slots@[i].generation && final(self).slots@[i].state == old(
                    self,
                ).slots@[i].state && final(self).slots@[i].pos == old(self).slots@[i].pos
                    && final(self).slots@[i].kind == old(self).slots@[i].kind,
            forall|g: TileHandle| #[trigger]
                final(self).resolves(g) && ext@.contains(g) ==> match final(self).slot(g).collider {
                    Some(c) => c@ == boundary_sides(final(self).tiles(), final(self).slot(g).pos),
                    None => false,
                },
            forall|g: TileHandle| #[trigger]
                old(self).resolves(g) && !ext@.contains(g) ==> final(self).slot(g) == old(self).slot(
                    g,
                ),
    {
        let mut k: usize = 0;
        while k < ext.len()
            invariant
                k <= ext@.len(),
                self.core_wf(),
                edges.wf(),
                edges.threshold == old(edges).threshold,
                edges.threshold == DEFAULT_THRESHOLD,
                ext@.no_duplicates(),
                one_edge_per_side(*edges),
                forall|j: int| 0 <= j < edges.points@.len() ==> on_lattice(#[trigger] edges.points@[j]),
                forall|e: int|
                    0 <= e < edges.edges@.len() ==> ext@.subrange(0, k as int).contains(
                        (#[trigger] edges.edges@[e]).2,
                    ),
                edges_on_free_sides(*self, *edges, ext@),
                forall|g: TileHandle|
                    self.resolves(g) && ext@.subrange(0, k as int).contains(g) ==> #[trigger] sides_registered(
                        *self,
                        *edges,
                        g,
                        6,
                    ),
                self.cache == old(self).cache,
                self.free == old(self).free,
                self.loops == old(self).loops,
                self.delay_ms == old(self).delay_ms,
                self.slots@.len() == old(self).slots@.len(),
                forall|i: int|
                    0 <= i < old(self).slots@.len() ==> (#[trigger] self.slots@[i]).generation
                        == old(self).slots@[i].generation && self.slots@[i].state == old(
                        self,
                    ).slots@[i].state && self.slots@[i].pos == old(self).slots@[i].pos
                        && self.slots@[i].kind == old(self).slots@[i].kind,
                forall|g: TileHandle| #[trigger]
                    self.resolves(g) && ext@.subrange(0, k as int).contains(g) ==> match self.slot(
                        g,
                    ).collider {
                        Some(c) => c@ == boundary_sides(self.tiles(), self.slot(g).pos),
                        None => false,
                    },
                forall|g: TileHandle| #[trigger]
                    old(self).resolves(g) && !ext@.subrange(0, k as int).contains(g) ==> self.slot(g)
                        == old(self).slot(g),
            decreases ext@.len() - k,
        {
            let h = ext[k];
            let i = h.index as usize;
            let ghost sub = ext@.subrange(0, k as int);
            let ghost sub1 = ext@.subrange(0, k + 1);
            assert(sub1 == sub.push(h));
            assert forall|x: TileHandle| sub.contains(x) implies sub1.contains(x) by {
                let j = choose|j: int| 0 <= j < sub.len() && sub[j] == x;
                assert(sub1[j] == x);
            }
            assert(sub1.contains(h)) by {
                assert(sub1[k as int] == h);
            }
            assert(ext@.contains(h)) by {
                assert(ext@[k as int] == h);
            }
            if i < self.slots.len() && self.slots[i].generation == h.generation && self.slots[i].state
                != TileState::Removed {
                let slot = self.slots[i];
                let pos = slot.pos;
                let occ = self.cache.neighbors_occupied(pos);
                let sides = [!occ[0], !occ[1], !occ[2], !occ[3], !occ[4], !occ[5]];
                let ghost before = *self;
                self.slots.set(i, TileSlot { collider: Some(sides), ..slot });
                proof {
                    lemma_same_shape(before, *self, *edges, ext@);
                    assert(sides@ =~= boundary_sides(self.tiles(), pos));
                    assert forall|g: TileHandle| #[trigger]
                        self.resolves(g) && sub1.contains(g) implies match self.slot(g).collider {
                        Some(c) => c@ == boundary_sides(self.tiles(), self.slot(g).pos),
                        None => false,
                    } by {
                        if g.index != h.index {
                            assert(before.resolves(g));
                            if !sub.contains(g) {
                                assert(g == h);
                            }
                        } else {
                            assert(g == h);
                        }
                    }
                    assert forall|g: TileHandle| #[trigger]
                        old(self).resolves(g) && !sub1.contains(g) implies self.slot(g) == old(
                            self,
                        ).slot(g) by {
                        assert(g != h);
                        if g.index == h.index {
                            assert(before.slots@[i as int].generation == old(self).slots@[i as int].generation);
                        }
                    }
                    assert forall|g: TileHandle|
                        self.resolves(g) && sub.contains(g) implies #[trigger] sides_registered(
                        *self,
                        *edges,
                        g,
                        6,
                    ) by {
                        assert(before.slots@[g.index as int].generation == self.slots@[g.index as int].generation);
                        assert(before.resolves(g));
                        assert(sides_registered(before, *edges, g, 6));
                    }
                    assert(self.core_wf()) by {
                        assert forall|p: TilePos| #[trigger] self.tiles().contains_key(p) implies {
                            let g = self.tiles()[p];
                            &&& self.resolves(g)
                            &&& self.slot(g).pos == p
                        } by {
                            assert(before.resolves(self.tiles()[p]));
                        }
                        assert forall|j: int|
                            0 <= j < self.slots@.len() && #[trigger] self.slots@[j].state
                                != TileState::Removed implies self.slots@[j].pos.0.has_neighbors() by {
                            assert(before.slots@[j].state != TileState::Removed);
                        }
                        assert forall|f: int|
                            0 <= f < self.free@.len() implies #[trigger] self.free@[f]
                                < self.slots@.len() && self.slots@[self.free@[f] as int].state
                                == TileState::Removed by {
                            assert(before.slots@[before.free@[f] as int].state == TileState::Removed);
                        }
                    }
                    assert(self.resolves(h) && self.slot(h).pos == pos);
                }
                let mut side: usize = 0;
                while side < 6
                    invariant
                        side <= 6,
                        edges.wf(),
                        edges.threshold == old(edges).threshold,
                        edges.threshold == DEFAULT_THRESHOLD,
                        one_edge_per_side(*edges),
                        forall|j: int|
                            0 <= j < edges.points@.len() ==> on_lattice(#[trigger] edges.points@[j]),
                        !sub.contains(h),
                        forall|e: int|
                            0 <= e < edges.edges@.len() && (#[trigger] edges.edges@[e]).2 != h
                                ==> sub.contains(edges.edges@[e].2),
                        forall|e: int|
                            0 <= e < edges.edges@.len() && (#[trigger] edges.edges@[e]).2 == h
                                ==> exists|j: int|
                                0 <= j < side && edges.points@[edges.edges@[e].0 as int]
                                    == #[trigger] pos.0.corner_spec(j),
                        ext@.contains(h),
                        self.resolves(h),
                        self.slot(h).pos == pos,
                        pos.0.has_neighbors(),
                        sides@ == boundary_sides(self.tiles(), pos),
                        edges_on_free_sides(*self, *edges, ext@),
                        forall|g: TileHandle|
                            self.resolves(g) && sub.contains(g) ==> #[trigger] sides_registered(
                                *self,
                                *edges,
                                g,
                                6,
                            ),
                        sides_registered(*self, *edges, h, side as int),
                    decreases 6 - side,
                {
                    if sides[side] {
                        let a = pos.0.corner(side);
                        let b = pos.0.corner((side + 1) % 6);
                        let ghost d1 = *edges;
                        edges.add_edge(a, b, h);
                        proof {
                            let e_new = d1.edges@.len() as int;
                            assert(edges.edges@[e_new] == edges.edges@.last());
                            assert(extends(d1, *edges));
                            let nx = ((side + 1) % 6) as int;
                            lemma_corners(pos.0, side as int, nx);
                            lemma_corners(pos.0, nx, side as int);
                            let t = d1.threshold as int;
                            lemma_insert_point(d1.points@, a, t);
                            let (pa, ia) = insert_point(d1.points@, a, t);
                            lemma_insert_point(pa, b, t);
                            assert forall|j: int|
                                0 <= j < edges.points@.len() implies on_lattice(
                                #[trigger] edges.points@[j],
                            ) by {
                                if j < d1.points@.len() {
                                    assert(edges.points@[j] == d1.points@[j]);
                                } else if j < pa.len() {
                                    assert(pa[j] == a);
                                    assert(edges.points@.subrange(0, pa.len() as int)[j] == pa[j]);
                                } else {
                                    assert(edges.points@[j] == b);
                                }
                            }
                            let s0 = edges.edges@[e_new].0 as int;
                            let s1 = edges.edges@[e_new].1 as int;
                            lemma_lattice_within(edges.points@[s0], a);
                            lemma_lattice_within(edges.points@[s1], b);
                            assert(edge_follows_side(*edges, e_new, pos, side as int));
                            assert forall|e1: int, e2: int|
                                0 <= e1 < edges.edges@.len() && 0 <= e2 < edges.edges@.len() && e1
                                    != e2 && (#[trigger] edges.edges@[e1]).2
                                    == (#[trigger] edges.edges@[e2]).2 implies edges.edges@[e1].0
                                != edges.edges@[e2].0 by {
                                if e1 == e_new || e2 == e_new {
                                    let other = if e1 == e_new { e2 } else { e1 };
                                    assert(edges.edges@[other] == d1.edges@[other]);
                                    let j = choose|j: int|
                                        0 <= j < side && d1.points@[d1.edges@[other].0 as int]
                                            == #[trigger] pos.0.corner_spec(j);
                                    lemma_corners(pos.0, j, side as int);
                                    assert(edges.points@[d1.edges@[other].0 as int] == d1.points@[d1.edges@[other].0 as int]);
                                } else {
                                    assert(edges.edges@[e1] == d1.edges@[e1]);
                                    assert(edges.edges@[e2] == d1.edges@[e2]);
                                }
                            }
                            assert forall|e: int|
                                0 <= e < edges.edges@.len() && (#[trigger] edges.edges@[e]).2 == h
                                    implies exists|j: int|
                                    0 <= j < side + 1 && edges.points@[edges.edges@[e].0 as int]
                                        == #[trigger] pos.0.corner_spec(j) by {
                                if e < e_new {
                                    assert(edges.edges@[e] == d1.edges@[e]);
                                    let j = choose|j: int|
                                        0 <= j < side && d1.points@[d1.edges@[e].0 as int]
                                            == #[trigger] pos.0.corner_spec(j);
                                    assert(edges.points@[d1.edges@[e].0 as int] == d1.points@[d1.edges@[e].0 as int]);
                                } else {
                                    assert(edges.points@[edges.edges@[e].0 as int] == pos.0.corner_spec(side as int));
                                }
                            }
                            assert forall|e: int|
                                0 <= e < edges.edges@.len() && (#[trigger] edges.edges@[e]).2 != h
                                    implies sub.contains(edges.edges@[e].2) by {
                                assert(e != e_new);
                                assert(edges.edges@[e] == d1.edges@[e]);
                            }
                            assert forall|e: int|
                                d1.edges@.len() <= e < edges.edges@.len() implies {
                                let hh = (#[trigger] edges.edges@[e]).2;
                                let p = self.slot(hh).pos;
                                &&& ext@.contains(hh)
                                &&& self.resolves(hh)
                                &&& exists|j: int|
                                    0 <= j < 6 && boundary_sides(self.tiles(), p)[j]
                                        && #[trigger] edge_follows_side(*edges, e, p, j)
                            } by {
                                assert(e == e_new);
                            }
                            lemma_edges_on_free_sides_grow(*self, d1, *edges, ext@);
                            assert forall|g: TileHandle|
                                self.resolves(g) && sub.contains(g) implies #[trigger] sides_registered(
                                *self,
                                *edges,
                                g,
                                6,
                            ) by {
                                lemma_sides_registered_grow(*self, d1, *edges, g, 6);
                            }
                            lemma_sides_registered_grow(*self, d1, *edges, h, side as int);
                            assert forall|j: int|
                                0 <= j < side + 1 && #[trigger] boundary_sides(
                                    self.tiles(),
                                    self.slot(h).pos,
                                )[j] implies exists|e: int|
                                0 <= e < edges.edges@.len() && edges.edges@[e].2 == h
                                    && #[trigger] edge_follows_side(*edges, e, self.slot(h).pos, j) by {
                                if j == side {
                                    assert(edges.edges@[e_new].2 == h);
                                }
                            }
                        }
                    }
                    side = side + 1;
                }
            } else {
                proof {
                    assert forall|g: TileHandle| #[trigger]
                        self.resolves(g) && sub1.contains(g) implies match self.slot(g).collider {
                        Some(c) => c@ == boundary_sides(self.tiles(), self.slot(g).pos),
                        None => false,
                    } by {
                        if !sub.contains(g) {
                            assert(g == h);
                        }
                    }
                    assert forall|g: TileHandle| #[trigger]
                        old(self).resolves(g) && !sub1.contains(g) implies self.slot(g) == old(
                            self,
                        ).slot(g) by {
                        assert(!sub.contains(g));
                    }
                }
            }
            proof {
                assert forall|g: TileHandle|
                    self.resolves(g) && sub1.contains(g) implies #[trigger] sides_registered(
                    *self,
                    *edges,
                    g,
                    6,
                ) by {
                    if !sub.contains(g) {
                        assert(g == h);
                    }
                }
            }
            k = k + 1;
        }
        assert(ext@.subrange(0, ext@.len() as int) == ext@);
    }

    /// Appends one loop for every walk in `traces` that closed.
    fn publish(&mut self, edges: &DedupEdges, traces: &Vec<LoopTrace>)
        requires
            edges.wf(),
            forall|a: int, k: int|
                0 <= a < traces@.len() && 0 <= k < traces@[a].edges@.len() ==> #[trigger] traces@[a].edges@[k]
                    < edges.edges@.len(),
        ensures
            final(self).loops@.len() >= old(self).loops@.len(),
            final(self).loops@.subrange(0, old(self).loops@.len() as int) == old(self).loops@,
            loops_of_closed_walks(*edges, traces@, final(self).loops@, old(self).loops@.len() as int),
            final(self).cache == old(self).cache,
            final(self).slots == old(self).slots,
            final(self).free == old(self).free,
            final(self).delay_ms == old(self).delay_ms,
    {
        let ghost from = old(self).loops@.len() as int;
        let ghost mut src: Seq<int> = Seq::empty();
        let ghost mut dst: Seq<int> = Seq::new(traces@.len(), |a: int| 0);
        let mut a: usize = 0;
        while a < traces.len()
            invariant
                a <= traces@.len(),
                edges.wf(),
                from == old(self).loops@.len(),
                forall|b: int, k: int|
                    0 <= b < traces@.len() && 0 <= k < traces@[b].edges@.len() ==> #[trigger] traces@[b].edges@[k]
                        < edges.edges@.len(),
                self.loops@.subrange(0, from) == old(self).loops@,
                published_upto(*edges, traces@, self.loops@, from, src, dst, a as int),
                self.cache == old(self).cache,
                self.slots == old(self).slots,
                self.free == old(self).free,
                self.delay_ms == old(self).delay_ms,
            decreases traces@.len() - a,
        {
            if traces[a].end == TraceEnd::Closed {
                assert(forall|k: int|
                    0 <= k < traces@[a as int].edges@.len() ==> #[trigger] traces@[a as int].edges@[k]
                        < edges.edges@.len());
                let l = build_loop(edges, &traces[a].edges);
                let ghost before = self.loops@;
                let ghost old_src = src;
                self.loops.push(l);
                proof {
                    dst = dst.update(a as int, src.len() as int);
                    src = src.push(a as int);
                    assert(self.loops@.subrange(0, from) =~= before.subrange(0, from));
                    assert forall|j: int|
                        0 <= j < src.len() implies 0 <= #[trigger] src[j] < a + 1
                            && traces@[src[j]].end == TraceEnd::Closed && traced_loop(
                            *edges,
                            traces@[src[j]].edges@,
                            self.loops@[from + j],
                        ) by {
                        if j < old_src.len() {
                            assert(src[j] == old_src[j]);
                            assert(self.loops@[from + j] == before[from + j]);
                        }
                    }
                }
            } else {
                proof {
                    assert forall|j: int|
                        0 <= j < src.len() implies 0 <= #[trigger] src[j] < a + 1
                            && traces@[src[j]].end == TraceEnd::Closed && traced_loop(
                            *edges,
                            traces@[src[j]].edges@,
                            self.loops@[from + j],
                        ) by {}
                }
            }
            a = a + 1;
        }
        assert(published_upto(*edges, traces@, self.loops@, from, src, dst, traces@.len() as int));
    }

    /// What a recompute pass leaves behind, given the world before it.
    pub open spec fn recomputed(pre: TileWorld, post: TileWorld) -> bool {
        &&& post.wf()
        &&& post.tiles() == pre.tiles()
        &&& post.dirty() == Set::<TileHandle>::empty()
        &&& post.colliders_exact()
        &&& post.slots().len() == pre.slots().len()
        &&& forall|i: int|
            0 <= i < pre.slots().len() ==> (#[trigger] post.slots()[i]).generation
                == pre.slots()[i].generation && post.slots()[i].state == pre.slots()[i].state
                && post.slots()[i].pos == pre.slots()[i].pos && post.slots()[i].kind
                == pre.slots()[i].kind
        &&& (pre.dirty() == Set::<TileHandle>::empty() ==> {
            &&& post.slots() == pre.slots()
            &&& post.loops() == pre.loops()
        })
        &&& exists|kept: int, d: DedupEdges, ts: Seq<LoopTrace>, owners: Seq<TileHandle>|
            #[trigger] Self::pass_witness(pre, post, kept, d, ts, owners)
    }

    /// How the pass from `pre` to `post` went. `owners` are the tiles whose sides
    /// were recomputed: the least set that holds the dirty tiles and the tiles
    /// of every loop it touches. Exactly the old loops disjoint from it are kept,
    /// as the first `kept` loops. `d` holds one edge per free side of each of
    /// those tiles, from corner to corner, over distinct points merged with the
    /// default tolerance. `ts` are the walks over those edges, and the loops
    /// after the first `kept` are the closed walks' polygons, one per walk.
    pub open spec fn pass_witness(
        pre: TileWorld,
        post: TileWorld,
        kept: int,
        d: DedupEdges,
        ts: Seq<LoopTrace>,
        owners: Seq<TileHandle>,
    ) -> bool {
        &&& Self::kept_then_fresh(pre, post, kept)
        &&& least_closure(pre.loops(), pre.dirty(), owners.to_set())
        &&& forall|j: int|
            0 <= j < pre.loops().len() ==> (post.loops().subrange(0, kept).contains(
                #[trigger] pre.loops()[j],
            ) <==> owner_set(pre.loops()[j]).disjoint(owners.to_set()))
        &&& forall|i: int|
            0 <= i < kept ==> owner_set(#[trigger] post.loops()[i]).disjoint(owners.to_set())
        &&& d.wf()
        &&& d.edges@.len() <= usize::MAX
        &&& d.threshold == DEFAULT_THRESHOLD
        &&& one_edge_per_side(d)
        &&& edges_on_free_sides(post, d, owners)
        &&& forall|g: TileHandle|
            post.resolves(g) && owners.contains(g) ==> #[trigger] sides_registered(post, d, g, 6)
        &&& partitions(ts, d.edges@.len() as int)
        &&& forall|a: int| 0 <= a < ts.len() ==> trace_ok(d.edges@, ts, a)
        &&& loops_of_closed_walks(d, ts, post.loops(), kept)
        &&& post.broken() == count_unclosed(ts)
        &&& post.ambiguous() == ambiguous_set(d.edges@).len()
    }

    /// The first `kept` loops of `post` are loops of `pre` that share no tile
    /// with `pre`'s dirty set, and none of them shares a tile with a later loop.
    pub open spec fn kept_then_fresh(pre: TileWorld, post: TileWorld, kept: int) -> bool {
        &&& 0 <= kept <= post.loops().len()
        &&& forall|i: int|
            0 <= i < kept ==> pre.loops().contains(#[trigger] post.loops()[i]) && owner_set(
                post.loops()[i],
            ).disjoint(pre.dirty())
        &&& forall|i: int, j: int|
            0 <= i < kept <= j < post.loops().len() ==> owner_set(
                #[trigger] post.loops()[i],
            ).disjoint(owner_set(#[trigger] post.loops()[j]))
    }

    /// One recompute pass. When nothing is dirty it does nothing. Otherwise it
    /// takes out every loop that shares a tile with the dirty set (and, in turn,
    /// with the tiles of loops taken out), gives each of those tiles that still
    /// exists a collider of exactly its sides facing free positions, traces the
    /// new sides into loops, keeps the loops that close, and clears the dirty set.
    pub fn recompute(&mut self)
        requires
            old(self).wf(),
        ensures
            Self::recomputed(*old(self), *final(self)),
            final(self).delay() == old(self).delay(),
    {
        if self.cache.is_dirty_empty() {
            let d = DedupEdges::new();
            self.broken_walks = 0;
            self.ambiguous_pairings = 0;
            proof {
                assert(ambiguous_set(d.edges@) =~= Set::<int>::empty());
                let n = self.loops@.len() as int;
                let ts = Seq::<LoopTrace>::empty();
                let owners = Seq::<TileHandle>::empty();
                assert(Self::kept_then_fresh(*old(self), *self, n));
                assert(self.colliders_fresh_outside(self.dirty()));
                assert(published_upto(d, ts, self.loops@, n, Seq::empty(), Seq::empty(), 0));
                assert(owners.to_set() =~= Set::<TileHandle>::empty());
                assert(self.dirty() =~= Set::<TileHandle>::empty());
                assert(self.loops@.subrange(0, n) == self.loops@);
                assert(least_closure(self.loops@, self.dirty(), owners.to_set()));
                assert(Self::pass_witness(*old(self), *self, n, d, ts, owners));
            }
            return;
        }
        let mut ext = self.cache.drain_dirty();
        self.invalidate_loops(&mut ext);
        let ghost invalidated = *self;
        let mut edges = DedupEdges::new();
        self.regenerate(&ext, &mut edges);
        let ghost regenerated = *self;
        let traces = trace_loops(&edges.edges);
        self.publish(&edges, &traces);
        let n_edges = edges.edges.len();
        self.broken_walks = count_broken(&traces);
        self.ambiguous_pairings = ambiguous_edges(&edges.edges).len();
        proof {
            lemma_same_shape(regenerated, *self, edges, ext@);
            lemma_fresh_owners(edges, traces@, self.loops@, invalidated.loops@.len() as int);
            let pre = *old(self);
            assert(self.tiles() == pre.tiles());
            assert(self.dirty() == Set::<TileHandle>::empty());
            assert(pre.dirty().subset_of(ext@.to_set()));
            assert forall|p: TilePos| #[trigger] self.tiles().contains_key(p) implies match self.slot(
                self.tiles()[p],
            ).collider {
                Some(c) => c@ == boundary_sides(self.tiles(), p),
                None => false,
            } by {
                let g = self.tiles()[p];
                assert(self.resolves(g));
                assert(invalidated.resolves(g));
                if ext@.contains(g) {
                    assert(regenerated.slot(g).pos == p);
                } else {
                    assert(!ext@.to_set().contains(g));
                    assert(!pre.dirty().contains(g));
                    assert(regenerated.slot(g) == invalidated.slot(g));
                }
            }
            let kept = invalidated.loops@.len() as int;
            assert forall|i: int| 0 <= i < kept implies pre.loops().contains(
                #[trigger] self.loops()[i],
            ) && owner_set(self.loops()[i]).disjoint(pre.dirty()) by {
                assert(self.loops@[i] == self.loops@.subrange(0, kept)[i]);
                assert(self.loops@[i] == invalidated.loops@[i]);
            }
            assert forall|i: int, j: int| 0 <= i < kept <= j < self.loops().len() implies owner_set(
                #[trigger] self.loops()[i],
            ).disjoint(owner_set(#[trigger] self.loops()[j])) by {
                assert(self.loops@[i] == self.loops@.subrange(0, kept)[i]);
                assert(self.loops@[i] == invalidated.loops@[i]);
                assert forall|x: TileHandle| owner_set(self.loops@[j]).contains(x) implies !owner_set(
                    self.loops@[i],
                ).contains(x) by {
                    let e = choose|e: int| 0 <= e < edges.edges@.len() && #[trigger] edges.edges@[e].2 == x;
                    assert(ext@.contains(edges.edges@[e].2));
                    assert(ext@.to_set().contains(x));
                }
            }
            assert(Self::kept_then_fresh(pre, *self, kept));
            assert forall|i: int| 0 <= i < kept implies owner_set(#[trigger] self.loops()[i]).disjoint(
                ext@.to_set(),
            ) by {
                assert(self.loops@[i] == self.loops@.subrange(0, kept)[i]);
                assert(self.loops@[i] == invalidated.loops@[i]);
            }
            assert forall|g: TileHandle|
                self.resolves(g) && ext@.contains(g) implies #[trigger] sides_registered(
                *self,
                edges,
                g,
                6,
            ) by {
                assert(regenerated.resolves(g));
                assert(sides_registered(regenerated, edges, g, 6));
            }
            assert(self.loops@.subrange(0, kept) == invalidated.loops@);
            assert(Self::pass_witness(pre, *self, kept, edges, traces@, ext@));
        }
    }

    /// Advances the throttle by `elapsed_ms`. While the interval runs, only the
    /// remaining delay shrinks. Once it has run out, it restarts and a recompute
    /// pass runs if anything is dirty. Returns whether a pass ran.
    pub fn update(&mut self, elapsed_ms: u64) -> (ran: bool)
        requires
            old(self).wf(),
        ensures
            final(self).wf(),
            old(self).delay() > 0 ==> {
                &&& !ran
                &&& final(self).delay() == (if elapsed_ms >= old(self).delay() {
                    0
                } else {
                    old(self).delay() - elapsed_ms
                })
                &&& final(self).tiles() == old(self).tiles()
                &&& final(self).dirty() == old(self).dirty()
                &&& final(self).slots() == old(self).slots()
                &&& final(self).loops() == old(self).loops()
                &&& final(self).broken() == old(self).broken()
                &&& final(self).ambiguous() == old(self).ambiguous()
            },
            old(self).delay() == 0 ==> {
                &&& final(self).delay() == RECOMPUTE_INTERVAL_MS
                &&& ran == (old(self).dirty() != Set::<TileHandle>::empty())
                &&& Self::recomputed(*old(self), *final(self))
            },
    {
        if self.delay_ms > 0 {
            self.delay_ms = if elapsed_ms >= self.delay_ms {
                0
            } else {
                self.delay_ms - elapsed_ms
            };
            return false;
        }
        self.delay_ms = RECOMPUTE_INTERVAL_MS;
        let ran = !self.cache.is_dirty_empty();
        let ghost mid = *self;
        self.recompute();
        proof {
            let (kept, d, ts, owners) = choose|
                kept: int,
                d: DedupEdges,
                ts: Seq<LoopTrace>,
                owners: Seq<TileHandle>,
            | #[trigger] Self::pass_witness(mid, *self, kept, d, ts, owners);
            assert(Self::pass_witness(*old(self), *self, kept, d, ts, owners));
        }
        ran
    }
}


/// A second recompute pass with no tile change in between finds nothing dirty
/// and leaves the world, its loops included, exactly as the first pass left it.
pub proof fn lemma_recompute_idempotent(w0: TileWorld, w1: TileWorld, w2: TileWorld)
    requires
        w0.wf(),
        TileWorld::recomputed(w0, w1),
        TileWorld::recomputed(w1, w2),
    ensures
        w1.dirty() == Set::<TileHandle>::empty(),
        w2.tiles() == w1.tiles(),
        w2.slots() == w1.slots(),
        w2.loops() == w1.loops(),
{
}


/// After a pass, each free side of each recomputed tile lies along an edge that
/// exactly one walk takes; where that walk closed, the tile is among the tiles
/// of a newly traced loop. No tile belongs both to a loop kept from before the
/// pass and to a newly traced one.
#[verifier::rlimit(50)]
pub proof fn lemma_pass_covers_free_sides(
    pre: TileWorld,
    post: TileWorld,
    kept: int,
    d: DedupEdges,
    ts: Seq<LoopTrace>,
    owners: Seq<TileHandle>,
    g: TileHandle,
    i: int,
)
    requires
        TileWorld::pass_witness(pre, post, kept, d, ts, owners),
        post.resolves(g),
        owners.contains(g),
        0 <= i < 6,
        boundary_sides(post.tiles(), post.slot(g).pos)[i],
    ensures
        exists|e: int, a: int, k: int|
            0 <= e < d.edges@.len() && d.edges@[e].2 == g && edge_follows_side(
                d,
                e,
                post.slot(g).pos,
                i,
            ) && 0 <= a < ts.len() && 0 <= k < ts[a].edges@.len() && ts[a].edges@[k] == e && (
            ts[a].end == TraceEnd::Closed ==> exists|j: int|
                kept <= j < post.loops().len() && #[trigger] owner_set(post.loops()[j]).contains(g)),
        forall|j1: int, j2: int|
            0 <= j1 < kept <= j2 < post.loops().len() ==> !(owner_set(#[trigger] post.loops()[j1]).contains(g)
                && owner_set(#[trigger] post.loops()[j2]).contains(g)),
{
    let p = post.slot(g).pos;
    assert(sides_registered(post, d, g, 6));
    let e = choose|e: int|
        0 <= e < d.edges@.len() && d.edges@[e].2 == g && #[trigger] edge_follows_side(d, e, p, i);
    assert(taken_by(ts, ts.len() - 1, e));
    let (a, k) = choose|a: int, k: int|
        0 <= a <= ts.len() - 1 && 0 <= k < ts[a].edges@.len() && #[trigger] ts[a].edges@[k] == e;
    if ts[a].end == TraceEnd::Closed {
        let (src, dst) = choose|src: Seq<int>, dst: Seq<int>|
            #[trigger] published_upto(d, ts, post.loops(), kept, src, dst, ts.len() as int);
        let j = kept + dst[a];
        assert(src[dst[a]] == a);
        assert(traced_loop(d, ts[a].edges@, post.loops()[kept + dst[a]]));
        reveal(traced_loop);
        assert(trace_owners(d, ts[a].edges@).contains(g));
        assert(owner_set(post.loops()[j]).contains(g));
    }
    assert(TileWorld::kept_then_fresh(pre, post, kept));
}

/// After a pass, every occupied position's tile has a collider made of exactly
/// the sides that face free positions, whatever tiles were added or removed
/// before it.
pub proof fn lemma_pass_leaves_colliders_exact(pre: TileWorld, post: TileWorld)
    requires
        pre.wf(),
        TileWorld::recomputed(pre, post),
    ensures
        post.colliders_exact(),
        forall|p: TilePos| #[trigger]
            post.tiles().contains_key(p) ==> post.slot(post.tiles()[p]).collider is Some,
{
}

} // verus!

verus! {

/// The edge of `d` owned by `h` that runs along side `i` of the hex at `p`.
pub open spec fn side_edge(d: DedupEdges, h: TileHandle, p: TilePos, i: int) -> int {
    choose|e: int| 0 <= e < d.edges@.len() && d.edges@[e].2 == h && #[trigger] edge_follows_side(d, e, p, i)
}

/// Some edge of `d` owned by `h` runs along side `i` of the hex at `p`.
pub open spec fn has_side_edge(d: DedupEdges, h: TileHandle, p: TilePos, i: int) -> bool {
    exists|e: int| 0 <= e < d.edges@.len() && d.edges@[e].2 == h && #[trigger] edge_follows_side(d, e, p, i)
}

/// The points of `l` are the six corners of the hex at `p`, in walking order
/// from corner `s`.
pub open spec fn corners_from(l: BoundaryLoop, p: TilePos, s: int) -> bool {
    &&& l.points@.len() == 6
    &&& forall|k: int| 0 <= k < 6 ==> #[trigger] l.points@[k] == p.0.corner_spec((s + k) % 6)
}

/// Edge `e` of `d` is owned by `h` and runs along some side of the hex at `p`.
pub open spec fn edge_on_some_side(d: DedupEdges, h: TileHandle, p: TilePos, e: int) -> bool {
    exists|i: int| 0 <= i < 6 && d.edges@[e].2 == h && #[trigger] edge_follows_side(d, e, p, i)
}

/// Edge `e` is the side edge of some side of the hex at `p`.
pub open spec fn is_side_edge(d: DedupEdges, h: TileHandle, p: TilePos, e: int) -> bool {
    exists|i: int| 0 <= i < 6 && e == #[trigger] side_edge(d, h, p, i)
}

/// Equal stored points sit at equal indices.
proof fn lemma_point_unique(d: DedupEdges, a: int, b: int)
    requires
        d.wf(),
        d.threshold == DEFAULT_THRESHOLD,
        0 <= a < d.points@.len(),
        0 <= b < d.points@.len(),
        d.points@[a] == d.points@[b],
    ensures
        a == b,
{
    let x = d.points@[a];
    assert(within(x, x, 1)) by (nonlinear_arith);
    if a != b {
        assert(!within(d.points@[a], d.points@[b], d.threshold as int));
    }
}

/// An edge owned by `h` that starts at corner `i` of `p` is the edge of side `i`.
proof fn lemma_start_determines(d: DedupEdges, h: TileHandle, p: TilePos, e: int, i: int)
    requires
        d.wf(),
        d.threshold == DEFAULT_THRESHOLD,
        one_edge_per_side(d),
        has_side_edge(d, h, p, i),
        0 <= e < d.edges@.len(),
        d.edges@[e].2 == h,
        d.points@[d.edges@[e].0 as int] == p.0.corner_spec(i),
    ensures
        e == side_edge(d, h, p, i),
        0 <= side_edge(d, h, p, i) < d.edges@.len(),
        d.edges@[side_edge(d, h, p, i)].2 == h,
        edge_follows_side(d, side_edge(d, h, p, i), p, i),
{
    let f = side_edge(d, h, p, i);
    if e != f {
        assert(d.edges@[e].2 == d.edges@[f].2);
        assert(d.edges@[e].0 != d.edges@[f].0);
        lemma_point_unique(d, d.edges@[e].0 as int, d.edges@[f].0 as int);
    }
}

/// The successor of the edge of side `i` is the edge of side `(i + 1) % 6`.
proof fn lemma_side_edge_next(d: DedupEdges, h: TileHandle, p: TilePos, i: int)
    requires
        d.wf(),
        d.threshold == DEFAULT_THRESHOLD,
        one_edge_per_side(d),
        d.edges@.len() <= usize::MAX,
        0 <= i < 6,
        has_side_edge(d, h, p, i),
        has_side_edge(d, h, p, (i + 1) % 6),
        forall|e: int| 0 <= e < d.edges@.len() ==> #[trigger] edge_on_some_side(d, h, p, e),
    ensures
        crate::tracer::successor(d.edges@, side_edge(d, h, p, i)) == Some(
            side_edge(d, h, p, (i + 1) % 6) as usize,
        ),
{
    let e = side_edge(d, h, p, i);
    let f = side_edge(d, h, p, (i + 1) % 6);
    assert(edge_follows_side(d, e, p, i));
    assert(edge_follows_side(d, f, p, (i + 1) % 6));
    lemma_point_unique(d, d.edges@[e].1 as int, d.edges@[f].0 as int);
    crate::tracer::lemma_successor(d.edges@, e);
    match crate::tracer::successor(d.edges@, e) {
        Some(j) => {
            assert(edge_on_some_side(d, h, p, j as int));
            lemma_start_determines(d, h, p, j as int, (i + 1) % 6);
        },
        None => {
            assert(d.edges@[f].0 != d.edges@[e].1);
        },
    }
}

/// Facts about one tile's edge set: each side has exactly one edge, and the
/// edges follow one another round the hex.
proof fn lemma_hexagon_edges(d: DedupEdges, h: TileHandle, p: TilePos)
    requires
        d.wf(),
        d.threshold == DEFAULT_THRESHOLD,
        one_edge_per_side(d),
        d.edges@.len() <= usize::MAX,
        forall|e: int| 0 <= e < d.edges@.len() ==> #[trigger] edge_on_some_side(d, h, p, e),
        forall|i: int| 0 <= i < 6 ==> #[trigger] has_side_edge(d, h, p, i),
    ensures
        forall|i: int| 0 <= i < 6 ==> {
            let e = #[trigger] side_edge(d, h, p, i);
            &&& 0 <= e < d.edges@.len()
            &&& d.edges@[e].2 == h
            &&& edge_follows_side(d, e, p, i)
        },
        forall|e: int| 0 <= e < d.edges@.len() ==> #[trigger] is_side_edge(d, h, p, e),
        forall|i: int| 0 <= i < 6 ==> #[trigger] crate::tracer::successor(d.edges@, side_edge(d, h, p, i)) == Some(
            side_edge(d, h, p, (i + 1) % 6) as usize,
        ),
{
    assert forall|i: int| 0 <= i < 6 implies {
        let e = #[trigger] side_edge(d, h, p, i);
        &&& 0 <= e < d.edges@.len()
        &&& d.edges@[e].2 == h
        &&& edge_follows_side(d, e, p, i)
    } by {
        assert(has_side_edge(d, h, p, i));
    }
    assert forall|e: int| 0 <= e < d.edges@.len() implies #[trigger] is_side_edge(d, h, p, e) by {
        assert(edge_on_some_side(d, h, p, e));
        let i = choose|i: int| 0 <= i < 6 && d.edges@[e].2 == h && #[trigger] edge_follows_side(d, e, p, i);
        assert(has_side_edge(d, h, p, i));
        lemma_start_determines(d, h, p, e, i);
    }
    assert forall|i: int| 0 <= i < 6 implies #[trigger] crate::tracer::successor(d.edges@, side_edge(d, h, p, i)) == Some(
        side_edge(d, h, p, (i + 1) % 6) as usize,
    ) by {
        assert(has_side_edge(d, h, p, i));
        assert(has_side_edge(d, h, p, (i + 1) % 6));
        lemma_side_edge_next(d, h, p, i);
    }
}

/// Distinct sides have distinct edges.
proof fn lemma_side_edge_injective(d: DedupEdges, h: TileHandle, p: TilePos, i: int, j: int)
    requires
        0 <= i < 6,
        0 <= j < 6,
        edge_follows_side(d, side_edge(d, h, p, i), p, i),
        edge_follows_side(d, side_edge(d, h, p, j), p, j),
        side_edge(d, h, p, i) == side_edge(d, h, p, j),
    ensures
        i == j,
{
    lemma_corners(p.0, i, j);
}

/// Along a chained walk that starts at the edge of side `s`, the `k`-th edge
/// is the edge of side `(s + k) % 6`.
#[verifier::spinoff_prover]
proof fn lemma_walk_round_hex(d: DedupEdges, h: TileHandle, p: TilePos, list: Seq<usize>, s: int, k: int)
    requires
        0 <= s < 6,
        0 <= k < list.len(),
        list[0] == side_edge(d, h, p, s),
        crate::tracer::chained(d.edges@, list),
        forall|i: int| 0 <= i < 6 ==> #[trigger] crate::tracer::successor(d.edges@, side_edge(d, h, p, i)) == Some(
            side_edge(d, h, p, (i + 1) % 6) as usize,
        ),
        forall|i: int| 0 <= i < 6 ==> 0 <= #[trigger] side_edge(d, h, p, i) <= usize::MAX,
    ensures
        list[k] == side_edge(d, h, p, (s + k) % 6),
    decreases k,
{
    if k > 0 {
        lemma_walk_round_hex(d, h, p, list, s, k - 1);
        let i = (s + k - 1) % 6;
        assert(crate::tracer::successor(d.edges@, list[k - 1] as int) == Some(list[k]));
        vstd::arithmetic::div_mod::lemma_add_mod_noop(s + k - 1, 1, 6);
        assert((i + 1) % 6 == (s + k) % 6);
        assert(crate::tracer::successor(d.edges@, side_edge(d, h, p, i)) == Some(
            side_edge(d, h, p, (i + 1) % 6) as usize,
        ));
    }
}

/// The edge set of a pass over a world whose only tile is `h` at `p`, with no
/// loop before: it holds exactly one edge per side of `p`, all owned by `h`.
#[verifier::spinoff_prover]
proof fn lemma_single_tile_edges(
    pre: TileWorld,
    post: TileWorld,
    kept: int,
    d: DedupEdges,
    ts: Seq<LoopTrace>,
    owners: Seq<TileHandle>,
    h: TileHandle,
    p: TilePos,
)
    requires
        pre.wf(),
        post.wf(),
        post.tiles() == pre.tiles(),
        TileWorld::pass_witness(pre, post, kept, d, ts, owners),
        pre.tiles() == Map::<TilePos, TileHandle>::empty().insert(p, h),
        pre.dirty() == Set::<TileHandle>::empty().insert(h),
        pre.loops().len() == 0,
    ensures
        kept == 0,
        p.0.has_neighbors(),
        forall|e: int| 0 <= e < d.edges@.len() ==> #[trigger] edge_on_some_side(d, h, p, e),
        forall|i: int| 0 <= i < 6 ==> #[trigger] has_side_edge(d, h, p, i),
{
    let one = Set::<TileHandle>::empty().insert(h);
    assert(closed_under(pre.loops(), one));
    assert(owners.to_set().subset_of(one));
    if kept > 0 {
        assert(pre.loops().contains(post.loops()[0]));
    }
    assert(post.tiles().contains_key(p));
    assert(post.resolves(h) && post.slot(h).pos == p);
    assert(p.0.has_neighbors()) by {
        assert(post.slots()[h.index as int].state != TileState::Removed);
    }
    assert forall|i: int| 0 <= i < 6 implies #[trigger] boundary_sides(post.tiles(), p)[i] by {
        lemma_neighbor_back(p, i);
        assert(p.neighbor(i) != p);
    }
    assert(owners.contains(h)) by {
        assert(pre.dirty().subset_of(owners.to_set()));
        assert(owners.to_set().contains(h));
    }
    assert(sides_registered(post, d, h, 6));
    assert forall|e: int| 0 <= e < d.edges@.len() implies #[trigger] edge_on_some_side(d, h, p, e) by {
        let g = d.edges@[e].2;
        assert(owners.contains(g));
        assert(owners.to_set().contains(g));
        assert(g == h);
        let i = choose|i: int|
            0 <= i < 6 && boundary_sides(post.tiles(), post.slot(g).pos)[i]
                && #[trigger] edge_follows_side(d, e, post.slot(g).pos, i);
        assert(edge_follows_side(d, e, p, i));
    }
    assert forall|i: int| 0 <= i < 6 implies #[trigger] has_side_edge(d, h, p, i) by {
        assert(boundary_sides(post.tiles(), post.slot(h).pos)[i]);
    }
}

/// Walks over the six side edges of one hex: the first goes once round and
/// closes, no other walk remains, and the single published loop is its polygon.
#[verifier::rlimit(100)]
#[verifier::spinoff_prover]
proof fn lemma_one_hexagon_walk(
    d: DedupEdges,
    ts: Seq<LoopTrace>,
    ls: Seq<BoundaryLoop>,
    h: TileHandle,
    p: TilePos,
)
    requires
        d.wf(),
        d.threshold == DEFAULT_THRESHOLD,
        one_edge_per_side(d),
        d.edges@.len() <= usize::MAX,
        forall|e: int| 0 <= e < d.edges@.len() ==> #[trigger] edge_on_some_side(d, h, p, e),
        forall|i: int| 0 <= i < 6 ==> #[trigger] has_side_edge(d, h, p, i),
        partitions(ts, d.edges@.len() as int),
        forall|a: int| 0 <= a < ts.len() ==> trace_ok(d.edges@, ts, a),
        loops_of_closed_walks(d, ts, ls, 0),
    ensures
        ls.len() == 1,
        owner_set(ls[0]) == Set::<TileHandle>::empty().insert(h),
        exists|s: int| 0 <= s < 6 && #[trigger] corners_from(ls[0], p, s),
{
    lemma_hexagon_edges(d, h, p);
    let s = lemma_first_walk_round_hex(d, ts, h, p);
    lemma_hexagon_loop(d, ts, ls, h, p, s);
}

/// Over the six side edges of one hex the first walk goes once round and
/// closes, and it is the only walk. Returns the side it starts at.
#[verifier::rlimit(100)]
#[verifier::spinoff_prover]
proof fn lemma_first_walk_round_hex(d: DedupEdges, ts: Seq<LoopTrace>, h: TileHandle, p: TilePos) -> (s: int)
    requires
        d.edges@.len() <= usize::MAX,
        forall|i: int| 0 <= i < 6 ==> {
            let e = #[trigger] side_edge(d, h, p, i);
            &&& 0 <= e < d.edges@.len()
            &&& d.edges@[e].2 == h
            &&& edge_follows_side(d, e, p, i)
        },
        forall|e: int| 0 <= e < d.edges@.len() ==> #[trigger] is_side_edge(d, h, p, e),
        forall|i: int| 0 <= i < 6 ==> #[trigger] crate::tracer::successor(d.edges@, side_edge(d, h, p, i)) == Some(
            side_edge(d, h, p, (i + 1) % 6) as usize,
        ),
        partitions(ts, d.edges@.len() as int),
        forall|a: int| 0 <= a < ts.len() ==> trace_ok(d.edges@, ts, a),
    ensures
        0 <= s < 6,
        ts.len() == 1,
        ts[0].end == TraceEnd::Closed,
        ts[0].edges@.len() == 6,
        forall|k: int| 0 <= k < 6 ==> ts[0].edges@[k] == #[trigger] side_edge(d, h, p, (s + k) % 6),
{
    let e0 = side_edge(d, h, p, 0);
    assert(crate::tracer::taken_by(ts, ts.len() - 1, e0));
    assert(trace_ok(d.edges@, ts, 0));
    let list = ts[0].edges@;
    assert(is_side_edge(d, h, p, list[0] as int));
    let s = choose|i: int| 0 <= i < 6 && list[0] as int == #[trigger] side_edge(d, h, p, i);
    assert forall|k: int| 0 <= k < list.len() implies list[k] == #[trigger] side_edge(d, h, p, (s + k) % 6) by {
        lemma_walk_round_hex(d, h, p, list, s, k);
    }
    if list.len() > 6 {
        assert(list[6] == side_edge(d, h, p, (s + 6) % 6));
        assert(list[6] == list[0]);
    }
    let len = list.len() as int;
    let last = list[len - 1];
    let i_last = (s + len - 1) % 6;
    assert(last == side_edge(d, h, p, i_last));
    vstd::arithmetic::div_mod::lemma_add_mod_noop(s + len - 1, 1, 6);
    let nx = side_edge(d, h, p, (s + len) % 6);
    assert(crate::tracer::successor(d.edges@, side_edge(d, h, p, i_last)) == Some(
        side_edge(d, h, p, (i_last + 1) % 6) as usize,
    ));
    assert(crate::tracer::successor(d.edges@, last as int) == Some(nx as usize));
    if ts[0].end == TraceEnd::Revisited {
        let (b, k) = choose|b: int, k: int|
            0 <= b <= 0 && 0 <= k < ts[b].edges@.len() && #[trigger] ts[b].edges@[k] == nx;
        assert(list[k] == side_edge(d, h, p, (s + k) % 6));
        lemma_side_edge_injective(d, h, p, (s + k) % 6, (s + len) % 6);
        assert(k == 0);
    }
    assert(ts[0].end == TraceEnd::Closed);
    assert(side_edge(d, h, p, (s + len) % 6) == side_edge(d, h, p, s));
    lemma_side_edge_injective(d, h, p, (s + len) % 6, s);
    assert(len == 6);
    if ts.len() > 1 {
        assert(trace_ok(d.edges@, ts, 1));
        let x = ts[1].edges@[0];
        assert(is_side_edge(d, h, p, x as int));
        let i = choose|i: int| 0 <= i < 6 && x as int == #[trigger] side_edge(d, h, p, i);
        let k = (i - s + 6) % 6;
        assert(list[k] == side_edge(d, h, p, (s + k) % 6));
        assert((s + k) % 6 == i);
        assert(ts[0].edges@[k] == ts[1].edges@[0]);
    }
    assert(ts.len() == 1);
    s
}

/// The only closed walk goes once round the hex from side `s`: the single
/// published loop is that hexagon, owned by `h` alone.
#[verifier::spinoff_prover]
proof fn lemma_hexagon_loop(d: DedupEdges, ts: Seq<LoopTrace>, ls: Seq<BoundaryLoop>, h: TileHandle, p: TilePos, s: int)
    requires
        0 <= s < 6,
        forall|i: int| 0 <= i < 6 ==> {
            let e = #[trigger] side_edge(d, h, p, i);
            &&& 0 <= e < d.edges@.len()
            &&& d.edges@[e].2 == h
            &&& edge_follows_side(d, e, p, i)
        },
        ts.len() == 1,
        ts[0].end == TraceEnd::Closed,
        ts[0].edges@.len() == 6,
        forall|k: int| 0 <= k < 6 ==> ts[0].edges@[k] == #[trigger] side_edge(d, h, p, (s + k) % 6),
        loops_of_closed_walks(d, ts, ls, 0),
    ensures
        ls.len() == 1,
        owner_set(ls[0]) == Set::<TileHandle>::empty().insert(h),
        exists|s: int| 0 <= s < 6 && #[trigger] corners_from(ls[0], p, s),
{
    let list = ts[0].edges@;
    let (src, dst) = choose|src: Seq<int>, dst: Seq<int>|
        #[trigger] published_upto(d, ts, ls, 0, src, dst, ts.len() as int);
    assert(0 <= dst[0] < src.len() && src[dst[0]] == 0);
    assert forall|j: int| 0 <= j < src.len() implies j == dst[0] && #[trigger] src[j] == 0 by {
        assert(0 <= src[j] < 1);
        assert(dst[src[j]] == j);
    }
    if src.len() > 1 {
        assert(src[0] == 0);
        assert(src[1] == 0);
    }
    assert(ls.len() == 1);
    assert(traced_loop(d, list, ls[0]));
    reveal(traced_loop);
    let l = ls[0];
    assert forall|k: int| 0 <= k < 6 implies #[trigger] l.points@[k] == p.0.corner_spec((s + k) % 6) by {
        assert(list[k] == side_edge(d, h, p, (s + k) % 6));
        lemma_corners(p.0, (s + k) % 6, 0);
    }
    assert(trace_owners(d, list) =~= Set::<TileHandle>::empty().insert(h)) by {
        assert(list[0] == side_edge(d, h, p, (s + 0) % 6));
        assert((s + 0) % 6 == s);
        assert(d.edges@[list[0] as int].2 == h);
        assert forall|x: TileHandle| #[trigger] trace_owners(d, list).contains(x) implies x == h by {
            let k = choose|k: int| 0 <= k < list.len() && #[trigger] d.edges@[list[k] as int].2 == x;
            assert(list[k] == side_edge(d, h, p, (s + k) % 6));
            assert(0 <= (s + k) % 6 < 6);
        }
    }
    assert(corners_from(l, p, s));
}

/// A world that holds a single tile, dirty, and no loop: a pass leaves exactly
/// one loop, whose points are the six corners of the tile in walking order and
/// whose only tile is that one.
pub proof fn lemma_single_tile_loop(pre: TileWorld, post: TileWorld, h: TileHandle, p: TilePos)
    requires
        pre.wf(),
        TileWorld::recomputed(pre, post),
        pre.tiles() == Map::<TilePos, TileHandle>::empty().insert(p, h),
        pre.dirty() == Set::<TileHandle>::empty().insert(h),
        pre.loops().len() == 0,
    ensures
        post.loops().len() == 1,
        owner_set(post.loops()[0]) == Set::<TileHandle>::empty().insert(h),
        exists|s: int| 0 <= s < 6 && #[trigger] corners_from(post.loops()[0], p, s),
{
    let (kept, d, ts, owners) = choose|
        kept: int,
        d: DedupEdges,
        ts: Seq<LoopTrace>,
        owners: Seq<TileHandle>,
    | #[trigger] TileWorld::pass_witness(pre, post, kept, d, ts, owners);
    lemma_single_tile_edges(pre, post, kept, d, ts, owners, h, p);
    lemma_one_hexagon_walk(d, ts, post.loops(), h, p);
}

} // verus!
