//! The starting level: a ring of wall tiles.
use vstd::prelude::*;

use crate::hex::{Hex, TilePos};

verus! {

/// Whether `p` lies on the border of the axial square of radius `radius`: both
/// coordinates within `[-radius, radius]`, at least one of them at its limit.
pub open spec fn on_border(p: TilePos, radius: int) -> bool {
    &&& -radius <= p.0.q <= radius
    &&& -radius <= p.0.r <= radius
    &&& (p.0.q == radius || p.0.q == -radius || p.0.r == radius || p.0.r == -radius)
}

/// Positions are listed by `q`, then by `r`.
pub open spec fn before(p: TilePos, q: int, r: int) -> bool {
    p.0.q < q || (p.0.q == q && p.0.r < r)
}

/// Every border position of the axial square of radius `radius`, once each,
/// ordered by `q` and then by `r`.
pub fn border_positions(radius: i32) -> (ps: Vec<TilePos>)
    requires
        0 <= radius < i32::MAX,
    ensures
        ps@.no_duplicates(),
        forall|p: TilePos| #[trigger] ps@.contains(p) <==> on_border(p, radius as int),
        forall|k: int| 0 <= k < ps@.len() ==> (#[trigger] ps@[k]).0.has_neighbors(),
{
    let mut ps: Vec<TilePos> = Vec::new();
    let mut q: i32 = -radius;
    while q <= radius
        invariant
            0 <= radius < i32::MAX,
            -radius <= q <= radius + 1,
            ps@.no_duplicates(),
            forall|p: TilePos|
                #[trigger] ps@.contains(p) <==> on_border(p, radius as int) && before(p, q as int, -radius),
        decreases radius + 1 - q,
    {
        let mut r: i32 = -radius;
        while r <= radius
            invariant
                0 <= radius < i32::MAX,
                -radius <= q <= radius,
                -radius <= r <= radius + 1,
                ps@.no_duplicates(),
                forall|p: TilePos|
                    #[trigger] ps@.contains(p) <==> on_border(p, radius as int) && before(
                        p,
                        q as int,
                        r as int,
                    ),
            decreases radius + 1 - r,
        {
            let p = TilePos(Hex { q, r });
            if q == radius || q == -radius || r == radius || r == -radius {
                let ghost old_ps = ps@;
                ps.push(p);
                proof {
                    assert(!before(p, q as int, r as int));
                    assert(!old_ps.contains(p));
                    assert forall|x: TilePos| #[trigger] ps@.contains(x) <==> on_border(x, radius as int)
                        && before(x, q as int, r + 1) by {
                        if x.0.q == q && x.0.r == r {
                            assert(x.0 == p.0);
                        }
                        if ps@.contains(x) && x != p {
                            let k = choose|k: int| 0 <= k < ps@.len() && ps@[k] == x;
                            assert(k < old_ps.len());
                            assert(old_ps[k] == x);
                            assert(old_ps.contains(x));
                        }
                        if on_border(x, radius as int) && before(x, q as int, r + 1) && x != p {
                            assert(old_ps.contains(x));
                            let k = choose|k: int| 0 <= k < old_ps.len() && old_ps[k] == x;
                            assert(ps@[k] == x);
                        }
                        if x == p {
                            assert(ps@[ps@.len() - 1] == p);
                        }
                    }
                }
            } else {
                assert forall|x: TilePos| #[trigger] ps@.contains(x) <==> on_border(x, radius as int) && before(
                    x,
                    q as int,
                    r + 1,
                ) by {
                    if x.0.q == q && x.0.r == r {
                        assert(x == p);
                    }
                }
            }
            r = r + 1;
        }
        assert forall|x: TilePos| #[trigger] ps@.contains(x) <==> on_border(x, radius as int) && before(
            x,
            q + 1,
            -radius,
        ) by {}
        q = q + 1;
    }
    proof {
        assert forall|k: int| 0 <= k < ps@.len() implies (#[trigger] ps@[k]).0.has_neighbors() by {
            assert(ps@.contains(ps@[k]));
        }
    }
    ps
}

} // verus!
