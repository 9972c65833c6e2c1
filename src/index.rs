//! The tile index: which hex positions are occupied, and by which tile, plus the
//! set of tiles whose boundary geometry may be stale.
use std::collections::HashMap;
use vstd::prelude::*;

use crate::handle::TileHandle;
use crate::hex::TilePos;

verus! {

broadcast use vstd::std_specs::hash::group_hash_axioms;

/// A position's key in the index: `q` and `r`, each shifted to be unsigned, side
/// by side in one 64-bit word.
pub open spec fn pos_key(p: TilePos) -> int {
    (p.0.q + 0x8000_0000) * 0x1_0000_0000 + (p.0.r + 0x8000_0000)
}

/// Distinct positions have distinct keys, and every key fits in 64 bits.
pub proof fn lemma_pos_key(a: TilePos, b: TilePos)
    ensures
        0 <= pos_key(a) <= u64::MAX,
        pos_key(a) == pos_key(b) ==> a == b,
{
    let (qa, ra) = (a.0.q + 0x8000_0000, a.0.r + 0x8000_0000);
    let (qb, rb) = (b.0.q + 0x8000_0000, b.0.r + 0x8000_0000);
    assert(0 <= qa * 0x1_0000_0000 <= 0xffff_ffff * 0x1_0000_0000) by (nonlinear_arith)
        requires
            0 <= qa <= 0xffff_ffff,
    ;
    if pos_key(a) == pos_key(b) {
        assert(qa == qb && ra == rb) by (nonlinear_arith)
            requires
                qa * 0x1_0000_0000 + ra == qb * 0x1_0000_0000 + rb,
                0 <= ra < 0x1_0000_0000,
                0 <= rb < 0x1_0000_0000,
        ;
        assert(a.0 == b.0);
    }
}

fn key_of(p: TilePos) -> (k: u64)
    ensures
        k == pos_key(p),
{
    proof {
        lemma_pos_key(p, p);
    }
    let q = (p.0.q as i64 + 0x8000_0000) as u64;
    let r = (p.0.r as i64 + 0x8000_0000) as u64;
    assert(q * 0x1_0000_0000 <= 0xffff_ffff * 0x1_0000_0000) by (nonlinear_arith)
        requires
            q <= 0xffff_ffff,
    ;
    q * 0x1_0000_0000 + r
}

/// Maps occupied positions to their tiles and collects tiles to recompute.
pub struct TileCache {
    tiles: HashMap<u64, TileHandle>,
    dirty_set: Vec<TileHandle>,
}

impl TileCache {
    /// The occupied positions and their tiles.
    pub closed spec fn tiles(&self) -> Map<TilePos, TileHandle> {
        Map::new(
            |p: TilePos| self.tiles@.contains_key(pos_key(p) as u64),
            |p: TilePos| self.tiles@[pos_key(p) as u64],
        )
    }

    /// The tiles whose boundary may be stale, in the order they were marked.
    pub closed spec fn dirty_seq(&self) -> Seq<TileHandle> {
        self.dirty_set@
    }

    /// The tiles whose boundary may be stale.
    pub open spec fn dirty(&self) -> Set<TileHandle> {
        self.dirty_seq().to_set()
    }

    pub closed spec fn wf(&self) -> bool {
        self.dirty_set@.no_duplicates()
    }

    /// An empty index with nothing dirty.
    pub fn new() -> (c: TileCache)
        ensures
            c.wf(),
            c.tiles() == Map::<TilePos, TileHandle>::empty(),
            c.dirty_seq() == Seq::<TileHandle>::empty(),
    {
        let c = TileCache { tiles: HashMap::new(), dirty_set: Vec::new() };
        assert(c.tiles() =~= Map::<TilePos, TileHandle>::empty());
        c
    }

    /// Records `handle` at `pos`, replacing and returning any previous occupant.
    pub fn insert(&mut self, pos: TilePos, handle: TileHandle) -> (prev: Option<TileHandle>)
        requires
            old(self).wf(),
        ensures
            final(self).wf(),
            final(self).tiles() == old(self).tiles().insert(pos, handle),
            final(self).dirty_seq() == old(self).dirty_seq(),
            prev == (if old(self).tiles().contains_key(pos) {
                Some(old(self).tiles()[pos])
            } else {
                None
            }),
    {
        let k = key_of(pos);
        let prev = self.tiles.insert(k, handle);
        proof {
            assert forall|p: TilePos| #![auto]
                self.tiles().contains_key(p) == old(self).tiles().insert(pos, handle).contains_key(
                    p,
                ) && (self.tiles().contains_key(p) ==> self.tiles()[p] == old(self).tiles().insert(
                    pos,
                    handle,
                )[p]) by {
                lemma_pos_key(p, pos);
            }
            assert(self.tiles() =~= old(self).tiles().insert(pos, handle));
        }
        prev
    }

    /// Removes and returns the occupant of `pos`, if any.
    pub fn remove(&mut self, pos: TilePos) -> (prev: Option<TileHandle>)
        requires
            old(self).wf(),
        ensures
            final(self).wf(),
            final(self).tiles() == old(self).tiles().remove(pos),
            final(self).dirty_seq() == old(self).dirty_seq(),
            prev == (if old(self).tiles().contains_key(pos) {
                Some(old(self).tiles()[pos])
            } else {
                None
            }),
    {
        let k = key_of(pos);
        let prev = self.tiles.remove(&k);
        proof {
            assert forall|p: TilePos| #![auto]
                self.tiles().contains_key(p) == old(self).tiles().remove(pos).contains_key(p) && (
                self.tiles().contains_key(p) ==> self.tiles()[p] == old(self).tiles()[p]) by {
                lemma_pos_key(p, pos);
            }
            assert(self.tiles() =~= old(self).tiles().remove(pos));
        }
        prev
    }

    /// Whether `pos` is occupied.
    pub fn contains(&self, pos: TilePos) -> (b: bool)
        ensures
            b == self.tiles().contains_key(pos),
    {
        let k = key_of(pos);
        self.tiles.contains_key(&k)
    }

    /// The occupant of `pos`, if any.
    pub fn get(&self, pos: TilePos) -> (h: Option<TileHandle>)
        ensures
            h == (if self.tiles().contains_key(pos) {
                Some(self.tiles()[pos])
            } else {
                None
            }),
    {
        let k = key_of(pos);
        match self.tiles.get(&k) {
            Some(h) => Some(*h),
            None => None,
        }
    }

    /// For each direction `i`, whether the neighbour of `pos` in that direction
    /// is occupied.
    pub fn neighbors_occupied(&self, pos: TilePos) -> (occ: [bool; 6])
        requires
            pos.0.has_neighbors(),
        ensures
            forall|i: int|
                0 <= i < 6 ==> #[trigger] occ@[i] == self.tiles().contains_key(pos.neighbor(i)),
    {
        let n = pos.get_neighbors();
        [
            self.contains(n[0]),
            self.contains(n[1]),
            self.contains(n[2]),
            self.contains(n[3]),
            self.contains(n[4]),
            self.contains(n[5]),
        ]
    }

    /// Adds `handle` to the dirty set.
    pub fn mark_dirty(&mut self, handle: TileHandle)
        requires
            old(self).wf(),
        ensures
            final(self).wf(),
            final(self).dirty() == old(self).dirty().insert(handle),
            final(self).tiles() == old(self).tiles(),
    {
        let n = self.dirty_set.len();
        let mut i: usize = 0;
        while i < n
            invariant
                *self == *old(self),
                self.wf(),
                n == self.dirty_set@.len(),
                i <= n,
                forall|k: int| 0 <= k < i ==> self.dirty_set@[k] != handle,
            decreases n - i,
        {
            if self.dirty_set[i] == handle {
                proof {
                    assert(old(self).dirty().insert(handle) =~= old(self).dirty());
                }
                return;
            }
            i = i + 1;
        }
        self.dirty_set.push(handle);
        proof {
            assert(self.dirty_set@ =~= old(self).dirty_set@.push(handle));
            old(self).dirty_set@.lemma_push_to_set_commute(handle);
            assert(self.dirty_set@.no_duplicates());
        }
    }

    /// Whether nothing is dirty.
    pub fn is_dirty_empty(&self) -> (b: bool)
        requires
            self.wf(),
        ensures
            b == (self.dirty() == Set::<TileHandle>::empty()),
    {
        proof {
            if self.dirty_set@.len() > 0 {
                assert(self.dirty().contains(self.dirty_set@[0]));
            }
            if self.dirty_set@.len() == 0 {
                assert(self.dirty() =~= Set::<TileHandle>::empty());
            }
        }
        self.dirty_set.len() == 0
    }

    /// Takes the dirty set, leaving it empty.
    pub fn drain_dirty(&mut self) -> (drained: Vec<TileHandle>)
        requires
            old(self).wf(),
        ensures
            final(self).wf(),
            drained@.no_duplicates(),
            drained@.to_set() == old(self).dirty(),
            final(self).dirty() == Set::<TileHandle>::empty(),
            final(self).tiles() == old(self).tiles(),
    {
        let mut drained: Vec<TileHandle> = Vec::new();
        std::mem::swap(&mut drained, &mut self.dirty_set);
        proof {
            assert(self.dirty_set@ =~= Seq::<TileHandle>::empty());
            assert(self.dirty() =~= Set::<TileHandle>::empty());
        }
        drained
    }
}

} // verus!
