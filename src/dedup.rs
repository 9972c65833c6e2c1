//! Tolerance-based point merging and edge registration for one recompute pass.
use vstd::prelude::*;

use crate::handle::TileHandle;
use crate::hex::{on_lattice, Point};

verus! {

/// Whether `a` and `b` are at most `t` apart (Euclidean distance on the lattice).
pub open spec fn within(a: Point, b: Point, t: int) -> bool {
    (a.x - b.x) * (a.x - b.x) + (a.y - b.y) * (a.y - b.y) <= t * t
}

/// The first index at or after `k` whose point lies within `t` of `p`.
pub open spec fn scan(pts: Seq<Point>, p: Point, t: int, k: int) -> Option<int>
    decreases pts.len() - k,
{
    if k < 0 || k >= pts.len() {
        None
    } else if within(pts[k], p, t) {
        Some(k)
    } else {
        scan(pts, p, t, k + 1)
    }
}

/// The stored points after registering `p`, and the index that `p` maps to: the
/// first stored point within tolerance, or a new point appended at the end.
pub open spec fn insert_point(pts: Seq<Point>, p: Point, t: int) -> (Seq<Point>, int) {
    match scan(pts, p, t, 0) {
        Some(k) => (pts, k),
        None => (pts.push(p), pts.len() as int),
    }
}

/// No two stored points lie within `t` of each other.
pub open spec fn spread(pts: Seq<Point>, t: int) -> bool {
    forall|a: int, b: int|
        0 <= a < pts.len() && 0 <= b < pts.len() && a != b ==> !within(#[trigger] pts[a], #[trigger] pts[b], t)
}

/// Two points of the even sublattice within one step of each other coincide.
pub proof fn lemma_lattice_within(a: Point, b: Point)
    requires
        on_lattice(a),
        on_lattice(b),
        within(a, b, 1),
    ensures
        a == b,
{
    let dx = a.x - b.x;
    let dy = a.y - b.y;
    assert(-1 <= dx <= 1 && -1 <= dy <= 1 && (dx == 0 || dy == 0)) by (nonlinear_arith)
        requires
            dx * dx + dy * dy <= 1,
    ;
}

/// What `scan` finds lies in range, matches, and no earlier candidate matches.
pub proof fn lemma_scan(pts: Seq<Point>, p: Point, t: int, k: int)
    requires
        0 <= k,
    ensures
        match scan(pts, p, t, k) {
            Some(j) => k <= j < pts.len() && within(pts[j], p, t) && forall|i: int|
                k <= i < j ==> !within(#[trigger] pts[i], p, t),
            None => forall|i: int| k <= i < pts.len() ==> !within(#[trigger] pts[i], p, t),
        },
    decreases pts.len() - k,
{
    if k < pts.len() && !within(pts[k], p, t) {
        lemma_scan(pts, p, t, k + 1);
    }
}

/// Registering a point keeps the stored points as a prefix and yields the index
/// of a point within the tolerance of it.
pub proof fn lemma_insert_point(pts: Seq<Point>, p: Point, t: int)
    requires
        0 <= t,
    ensures
        ({
            let (next, i) = insert_point(pts, p, t);
            &&& 0 <= i < next.len()
            &&& pts.len() <= next.len() <= pts.len() + 1
            &&& next.subrange(0, pts.len() as int) == pts
            &&& within(next[i], p, t)
            &&& (next == pts || next == pts.push(p))
            &&& (spread(pts, t) ==> spread(next, t))
        }),
{
    lemma_scan(pts, p, t, 0);
    let (next, i) = insert_point(pts, p, t);
    assert(next.subrange(0, pts.len() as int) =~= pts);
    assert(within(p, p, t)) by (nonlinear_arith)
        requires
            0 <= t,
    ;
    if next != pts && spread(pts, t) {
        assert forall|a: int, b: int|
            0 <= a < next.len() && 0 <= b < next.len() && a != b implies !within(
            #[trigger] next[a],
            #[trigger] next[b],
            t,
        ) by {
            if a == pts.len() {
                assert(!within(pts[b], p, t));
                assert(within(p, pts[b], t) == within(pts[b], p, t)) by (nonlinear_arith);
            } else if b == pts.len() {
                assert(!within(pts[a], p, t));
            } else {
                assert(next[a] == pts[a] && next[b] == pts[b]);
            }
        }
    }
}

/// Two points registered into an empty set map to the same index exactly when
/// they lie within the tolerance of each other.
pub proof fn lemma_two_points_merge(p: Point, q: Point, t: int)
    ensures
        ({
            let (pts1, i) = insert_point(Seq::empty(), p, t);
            let (pts2, j) = insert_point(pts1, q, t);
            &&& i == 0
            &&& (i == j <==> within(p, q, t))
        }),
{
    let e = Seq::<Point>::empty();
    assert(scan(e, p, t, 0) == None::<int>);
    let pts1 = e.push(p);
    assert(pts1[0] == p);
    assert(scan(pts1, q, t, 1) == None::<int>);
    assert(within(p, q, t) == within(q, p, t)) by (nonlinear_arith);
}

/// A pass-scoped collection of distinct points and the edges between them.
pub struct DedupEdges {
    pub points: Vec<Point>,
    pub edges: Vec<(usize, usize, TileHandle)>,
    pub threshold: u32,
}

/// The tolerance used unless another is chosen: distinct hex corners lie at
/// least `sqrt(2)` lattice steps apart, so only coincident corners merge.
pub const DEFAULT_THRESHOLD: u32 = 1;

/// Whether `a` and `b` are at most `t` apart, without overflow.
fn close_enough(a: Point, b: Point, t: u32) -> (r: bool)
    ensures
        r == within(a, b, t as int),
{
    let dx: i128 = a.x as i128 - b.x as i128;
    let dy: i128 = a.y as i128 - b.y as i128;
    let tt: i128 = t as i128;
    if dx > tt || dx < -tt || dy > tt || dy < -tt {
        proof {
            let (x, y, ti) = (dx as int, dy as int, tt as int);
            assert(x * x + y * y > ti * ti) by (nonlinear_arith)
                requires
                    x > ti || x < -ti || y > ti || y < -ti,
                    ti >= 0,
            ;
        }
        false
    } else {
        assert(0 <= dx * dx <= tt * tt) by (nonlinear_arith)
            requires
                -tt <= dx <= tt,
        ;
        assert(0 <= dy * dy <= tt * tt) by (nonlinear_arith)
            requires
                -tt <= dy <= tt,
        ;
        assert(tt * tt <= 0xffff_ffff * 0xffff_ffff) by (nonlinear_arith)
            requires
                0 <= tt <= 0xffff_ffff,
        ;
        dx * dx + dy * dy <= tt * tt
    }
}

impl DedupEdges {
    /// Every edge refers to stored points.
    pub open spec fn wf(&self) -> bool {
        &&& spread(self.points@, self.threshold as int)
        &&& forall|e: int|
            0 <= e < self.edges@.len() ==> (#[trigger] self.edges@[e]).0 < self.points@.len()
                && self.edges@[e].1 < self.points@.len()
    }

    /// An empty collection with the default tolerance.
    pub fn new() -> (d: DedupEdges)
        ensures
            d.points@.len() == 0,
            d.edges@.len() == 0,
            d.threshold == DEFAULT_THRESHOLD,
            d.wf(),
    {
        DedupEdges { points: Vec::new(), edges: Vec::new(), threshold: DEFAULT_THRESHOLD }
    }

    /// An empty collection with tolerance `threshold`.
    pub fn with_threshold(threshold: u32) -> (d: DedupEdges)
        ensures
            d.points@.len() == 0,
            d.edges@.len() == 0,
            d.threshold == threshold,
            d.wf(),
    {
        DedupEdges { points: Vec::new(), edges: Vec::new(), threshold }
    }

    /// Returns the index of the first stored point within the tolerance of `p`,
    /// or appends `p` and returns its new index.
    pub fn get_or_insert_point(&mut self, p: Point) -> (i: usize)
        ensures
            (final(self).points@, i as int) == insert_point(
                old(self).points@,
                p,
                old(self).threshold as int,
            ),
            final(self).edges == old(self).edges,
            final(self).threshold == old(self).threshold,
    {
        let n = self.points.len();
        let mut i: usize = 0;
        while i < n
            invariant
                n == self.points@.len(),
                self.points == old(self).points,
                self.edges == old(self).edges,
                self.threshold == old(self).threshold,
                0 <= i <= n,
                scan(self.points@, p, self.threshold as int, 0) == scan(
                    self.points@,
                    p,
                    self.threshold as int,
                    i as int,
                ),
            decreases n - i,
        {
            if close_enough(p, self.points[i], self.threshold) {
                assert(within(self.points@[i as int], p, self.threshold as int)) by (
                nonlinear_arith)
                    requires
                        within(p, self.points@[i as int], self.threshold as int),
                ;
                return i;
            }
            assert(!within(self.points@[i as int], p, self.threshold as int)) by (nonlinear_arith)
                requires
                    !within(p, self.points@[i as int], self.threshold as int),
            ;
            i = i + 1;
        }
        self.points.push(p);
        self.points.len() - 1
    }

    /// The stored point at index `i`.
    pub fn get_point_by_index(&self, i: usize) -> (p: Point)
        requires
            i < self.points@.len(),
        ensures
            p == self.points@[i as int],
    {
        self.points[i]
    }

    /// Registers both endpoints and appends the edge `a -> b` owned by `owner`.
    pub fn add_edge(&mut self, a: Point, b: Point, owner: TileHandle)
        requires
            old(self).wf(),
        ensures
            final(self).wf(),
            final(self).threshold == old(self).threshold,
            old(self).points@.len() <= final(self).points@.len(),
            forall|k: int|
                0 <= k < old(self).points@.len() ==> #[trigger] final(self).points@[k] == old(
                    self,
                ).points@[k],
            within(final(self).points@[final(self).edges@.last().0 as int], a, old(self).threshold as int),
            within(final(self).points@[final(self).edges@.last().1 as int], b, old(self).threshold as int),
            ({
                let t = old(self).threshold as int;
                let (pa, ia) = insert_point(old(self).points@, a, t);
                let (pb, ib) = insert_point(pa, b, t);
                &&& final(self).points@ == pb
                &&& final(self).edges@ == old(self).edges@.push((ia as usize, ib as usize, owner))
            }),
    {
        proof {
            let t = self.threshold as int;
            lemma_insert_point(self.points@, a, t);
            let (pa, ia) = insert_point(self.points@, a, t);
            lemma_insert_point(pa, b, t);
            let (pb, ib) = insert_point(pa, b, t);
            assert(pb[ia] == pa[ia]) by {
                assert(pb.subrange(0, pa.len() as int)[ia] == pa[ia]);
            }
            assert forall|k: int| 0 <= k < self.points@.len() implies pb[k] == self.points@[k] by {
                assert(pb.subrange(0, pa.len() as int)[k] == pa[k]);
                assert(pa.subrange(0, self.points@.len() as int)[k] == self.points@[k]);
            }
        }
        let ia = self.get_or_insert_point(a);
        let ib = self.get_or_insert_point(b);
        self.edges.push((ia, ib, owner));
    }

    /// The start point of edge `edge`.
    pub fn get_edge_p0(&self, edge: usize) -> (p: Point)
        requires
            self.wf(),
            edge < self.edges@.len(),
        ensures
            p == self.points@[self.edges@[edge as int].0 as int],
    {
        let (p0, _, _) = self.edges[edge];
        self.points[p0]
    }
}

} // verus!
