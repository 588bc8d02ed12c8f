//! Resident-region storage: which regions currently exist in the world, the
//! region contents, and the retention sweep that evicts regions nobody views.
//!
//! The store is keyed by region coordinate; its mathematical model is a map
//! from coordinates to entries. A region is evicted only when its live-viewer
//! count is zero: there is no other eviction mechanism.

use vstd::prelude::*;

use crate::assoc::assoc_view;
use crate::assoc::assoc_wf;
use crate::assoc::lemma_assoc_empty;
use crate::assoc::lemma_assoc_push_new;
use crate::assoc::lemma_assoc_remove;
use crate::assoc::lemma_assoc_value;
use crate::assoc::lemma_assoc_upsert;
use crate::column::Region;

verus! {

/// Integer coordinates of one horizontally-indexed vertical region.
#[derive(Clone, Copy, PartialEq, Eq, Structural, Debug, Hash)]
pub struct ChunkPos {
    pub x: i32,
    pub z: i32,
}

/// One resident region together with its live-viewer count.
pub struct WorldEntry {
    pub region: Region,
    pub viewers: u32,
}

/// The set of resident regions, keyed by coordinate.
pub struct WorldStore {
    entries: Vec<(ChunkPos, WorldEntry)>,
}

impl WorldStore {
    /// The store as a map from coordinate to entry.
    pub closed spec fn view(&self) -> Map<ChunkPos, WorldEntry> {
        assoc_view(self.entries@)
    }

    /// Coordinates appear at most once.
    pub closed spec fn wf(&self) -> bool {
        assoc_wf(self.entries@)
    }

    pub fn new() -> (w: Self)
        ensures
            w.wf(),
            w@ == Map::<ChunkPos, WorldEntry>::empty(),
    {
        let w = WorldStore { entries: Vec::new() };
        proof {
            assert(w.entries@ =~= Seq::<(ChunkPos, WorldEntry)>::empty());
            lemma_assoc_empty::<ChunkPos, WorldEntry>();
        }
        w
    }

    /// The index holding `pos`, if any.
    fn find(&self, pos: ChunkPos) -> (r: Option<usize>)
        ensures
            match r {
                Some(i) => i < self.entries.len() && self.entries[i as int].0 == pos,
                None => forall|i: int|
                    0 <= i < self.entries.len() ==> self.entries[i].0 != pos,
            },
    {
        let mut i: usize = 0;
        while i < self.entries.len()
            invariant
                i <= self.entries.len(),
                forall|j: int| 0 <= j < i ==> self.entries[j].0 != pos,
            decreases self.entries.len() - i,
        {
            if self.entries[i].0 == pos {
                return Some(i);
            }
            i = i + 1;
        }
        None
    }

    /// Whether a region is resident at `pos`.
    pub fn contains(&self, pos: ChunkPos) -> (r: bool)
        requires
            self.wf(),
        ensures
            r == self@.contains_key(pos),
    {
        self.find(pos).is_some()
    }

    /// Insert a freshly generated region with no viewers recorded yet,
    /// replacing whatever was resident at `pos`.
    pub fn insert(&mut self, pos: ChunkPos, region: Region)
        requires
            old(self).wf(),
        ensures
            final(self).wf(),
            final(self)@ == old(self)@.insert(pos, WorldEntry { region, viewers: 0u32 }),
    {
        let entry = WorldEntry { region, viewers: 0 };
        match self.find(pos) {
            Some(i) => {
                proof {
                    lemma_assoc_upsert(self.entries@, i as int, (pos, entry));
                }
                self.entries.remove(i);
                self.entries.push((pos, entry));
            },
            None => {
                proof {
                    lemma_assoc_push_new(self.entries@, (pos, entry));
                }
                self.entries.push((pos, entry));
            },
        }
    }

    /// Record the current live-viewer count of a resident region; a no-op
    /// when `pos` is not resident.
    pub fn set_viewers(&mut self, pos: ChunkPos, viewers: u32)
        requires
            old(self).wf(),
        ensures
            final(self).wf(),
            old(self)@.contains_key(pos) ==> final(self)@ == old(self)@.insert(
                pos,
                WorldEntry { region: old(self)@[pos].region, viewers },
            ),
            !old(self)@.contains_key(pos) ==> final(self)@ == old(self)@,
    {
        match self.find(pos) {
            Some(i) => {
                proof {
                    lemma_assoc_value(self.entries@, i as int);
                }
                let e = self.entries.remove(i);
                let entry = WorldEntry { region: e.1.region, viewers };
                proof {
                    lemma_assoc_upsert(old(self).entries@, i as int, (pos, entry));
                }
                self.entries.push((pos, entry));
            },
            None => {
            },
        }
    }

    /// The region resident at `pos`, if any.
    pub fn get(&self, pos: ChunkPos) -> (r: Option<&Region>)
        requires
            self.wf(),
        ensures
            match r {
                Some(region) => self@.contains_key(pos) && *region == self@[pos].region,
                None => !self@.contains_key(pos),
            },
    {
        match self.find(pos) {
            Some(i) => Some(&self.entries[i].1.region),
            None => None,
        }
    }

    /// The index of some entry with no live viewers, if any.
    fn find_unviewed(&self) -> (r: Option<usize>)
        ensures
            match r {
                Some(i) => i < self.entries.len() && self.entries[i as int].1.viewers == 0,
                None => forall|i: int|
                    0 <= i < self.entries.len() ==> self.entries[i].1.viewers > 0,
            },
    {
        let mut i: usize = 0;
        while i < self.entries.len()
            invariant
                i <= self.entries.len(),
                forall|j: int| 0 <= j < i ==> self.entries[j].1.viewers > 0,
            decreases self.entries.len() - i,
        {
            if self.entries[i].1.viewers == 0 {
                return Some(i);
            }
            i = i + 1;
        }
        None
    }

    /// The retention sweep: evict every region whose live-viewer count is
    /// zero. This is the sole eviction mechanism.
    #[verifier::loop_isolation(false)]
    pub fn remove_unviewed(&mut self)
        requires
            old(self).wf(),
        ensures
            final(self).wf(),
            forall|k: ChunkPos|
                final(self)@.contains_key(k) <==> (old(self)@.contains_key(k) && old(
                    self,
                )@[k].viewers > 0),
            forall|k: ChunkPos|
                #[trigger] final(self)@.contains_key(k) ==> final(self)@[k] == old(self)@[k],
    {
        let ghost orig = self@;
        let mut done = false;
        while !done
            invariant
                self.wf(),
                forall|k: ChunkPos|
                    #[trigger] self@.contains_key(k) ==> orig.contains_key(k) && self@[k]
                        == orig[k],
                forall|k: ChunkPos|
                    #[trigger] orig.contains_key(k) && orig[k].viewers > 0 ==> self@.contains_key(
                        k,
                    ),
                done ==> forall|k: ChunkPos|
                    #[trigger] self@.contains_key(k) ==> self@[k].viewers > 0,
            decreases self.entries.len(), (if done { 0int } else { 1int }),
        {
            match self.find_unviewed() {
                Some(i) => {
                    let ghost prev = self.entries@;
                    let ghost k0 = self.entries@[i as int].0;
                    proof {
                        assert(self@ == assoc_view(prev));
                        lemma_assoc_value(prev, i as int);
                        lemma_assoc_remove(prev, i as int);
                    }
                    self.entries.remove(i);
                    proof {
                        assert(self@ == assoc_view(prev).remove(k0));
                        assert forall|k: ChunkPos|
                            orig.contains_key(k) && orig[k].viewers > 0 implies self@.contains_key(
                            k,
                        ) by {
                            assert(assoc_view(prev).contains_key(k));
                            if k == k0 {
                                assert(assoc_view(prev)[k0] == prev[i as int].1);
                                assert(false);
                            }
                        }
                        assert forall|k: ChunkPos| #[trigger] self@.contains_key(k) implies orig.contains_key(
                            k,
                        ) && self@[k] == orig[k] by {
                            assert(k != k0);
                            assert(assoc_view(prev).contains_key(k));
                            assert(orig.contains_key(k));
                            assert(assoc_view(prev)[k] == orig[k]);
                            assert(self@[k] == assoc_view(prev)[k]);
                        }
                    }
                },
                None => {
                    proof {
                        assert forall|k: ChunkPos| #[trigger] self@.contains_key(k) implies self@[k].viewers
                            > 0 by {
                            let i = choose|i: int|
                                0 <= i < self.entries@.len() && self.entries@[i].0 == k;
                            lemma_assoc_value(self.entries@, i);
                        }
                    }
                    done = true;
                },
            }
        }
    }
}

} // verus!
