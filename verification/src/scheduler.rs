//! The generation scheduler: pending-work bookkeeping, priority ordering,
//! and the two channels connecting the scheduler to its worker pool.
//!
//! At most one in-flight request exists per coordinate; queued requests are
//! dispatched in ascending priority order; completed results are reconciled
//! into world storage, and a result for a coordinate with no pending entry
//! is a protocol violation.

use vstd::prelude::*;

use crate::assoc::assoc_view;
use crate::assoc::assoc_wf;
use crate::assoc::lemma_assoc_empty;
use crate::assoc::lemma_assoc_push_new;
use crate::assoc::lemma_assoc_remove;
use crate::assoc::lemma_assoc_value;
use crate::assoc::lemma_assoc_upsert;
use crate::column::Region;
use crate::config::TerrainGenConfig;
use crate::world::ChunkPos;
use crate::world::WorldEntry;
use crate::world::WorldStore;

verus! {

/// The state of one pending coordinate: still waiting to be dispatched
/// (with its priority, lower is more urgent), or already handed to a worker.
#[derive(Clone, Copy, PartialEq, Eq, Structural, Debug)]
pub enum PendingState {
    Queued(u64),
    InFlight,
}

/// The pending-work table: every coordinate that is wanted but not yet
/// resident, each either queued or in flight.
pub struct PendingTable {
    entries: Vec<(ChunkPos, PendingState)>,
}

impl PendingTable {
    /// The table as a map from coordinate to state.
    pub closed spec fn view(&self) -> Map<ChunkPos, PendingState> {
        assoc_view(self.entries@)
    }

    /// Coordinates appear at most once.
    pub closed spec fn wf(&self) -> bool {
        assoc_wf(self.entries@)
    }

    pub fn new() -> (t: Self)
        ensures
            t.wf(),
            t@ == Map::<ChunkPos, PendingState>::empty(),
    {
        let t = PendingTable { entries: Vec::new() };
        proof {
            assert(t.entries@ =~= Seq::<(ChunkPos, PendingState)>::empty());
            lemma_assoc_empty::<ChunkPos, PendingState>();
        }
        t
    }

    /// The index holding `pos`, if any.
    fn find(&self, pos: ChunkPos) -> (r: Option<usize>)
        ensures
            match r {
                Some(i) => i < self.entries.len() && self.entries[i as int].0 == pos,
                None => forall|i: int|
                    0 <= i < self.entries.len() ==> self.entries[i].0 != pos,
            },
    {
        let mut i: usize = 0;
        while i < self.entries.len()
            invariant
                i <= self.entries.len(),
                forall|j: int| 0 <= j < i ==> self.entries[j].0 != pos,
            decreases self.entries.len() - i,
        {
            if self.entries[i].0 == pos {
                return Some(i);
            }
            i = i + 1;
        }
        None
    }

    /// The state recorded for `pos`, if any.
    pub fn get(&self, pos: ChunkPos) -> (r: Option<PendingState>)
        requires
            self.wf(),
        ensures
            r == if self@.contains_key(pos) {
                Some(self@[pos])
            } else {
                None::<PendingState>
            },
    {
        proof {
            assert(self@ == assoc_view(self.entries@));
        }
        match self.find(pos) {
            Some(i) => {
                proof {
                    lemma_assoc_value(self.entries@, i as int);
                }
                Some(self.entries[i].1)
            },
            None => None,
        }
    }

    /// Record `state` for `pos`, replacing any earlier record.
    pub fn set(&mut self, pos: ChunkPos, state: PendingState)
        requires
            old(self).wf(),
        ensures
            final(self).wf(),
            final(self)@ == old(self)@.insert(pos, state),
    {
        match self.find(pos) {
            Some(i) => {
                proof {
                    lemma_assoc_upsert(self.entries@, i as int, (pos, state));
                }
                self.entries.remove(i);
                self.entries.push((pos, state));
            },
            None => {
                proof {
                    lemma_assoc_push_new(self.entries@, (pos, state));
                }
                self.entries.push((pos, state));
            },
        }
    }

    /// Drop the record for `pos`, saying what it was.
    pub fn remove(&mut self, pos: ChunkPos) -> (r: Option<PendingState>)
        requires
            old(self).wf(),
        ensures
            final(self).wf(),
            final(self)@ == old(self)@.remove(pos),
            r == if old(self)@.contains_key(pos) {
                Some(old(self)@[pos])
            } else {
                None::<PendingState>
            },
    {
        proof {
            assert(self@ == assoc_view(self.entries@));
        }
        match self.find(pos) {
            Some(i) => {
                proof {
                    lemma_assoc_value(self.entries@, i as int);
                    lemma_assoc_remove(self.entries@, i as int);
                }
                let e = self.entries.remove(i);
                Some(e.1)
            },
            None => {
                proof {
                    assert(self@ =~= old(self)@.remove(pos));
                }
                None
            },
        }
    }

    /// Collect every queued entry as a `(priority, coordinate)` pair and mark
    /// it in flight. The batch holds exactly the previously queued
    /// coordinates, each once.
    pub fn take_queued(&mut self) -> (batch: Vec<(u64, ChunkPos)>)
        requires
            old(self).wf(),
        ensures
            final(self).wf(),
            final(self)@.dom() == old(self)@.dom(),
            forall|k: ChunkPos|
                #[trigger] final(self)@.contains_key(k) ==> final(self)@[k]
                    == PendingState::InFlight,
            forall|i: int|
                0 <= i < batch.len() ==> old(self)@.contains_key(#[trigger] batch[i].1) && old(
                    self,
                )@[batch[i].1] == PendingState::Queued(batch[i].0),
            forall|k: ChunkPos, p: u64|
                old(self)@.contains_key(k) && old(self)@[k] == PendingState::Queued(p)
                    ==> batch@.contains((p, k)),
            forall|i: int, j: int| 0 <= i < j < batch.len() ==> batch[i].1 != batch[j].1,
    {
        let ghost orig = self.entries@;
        proof {
            assert(self@ == assoc_view(self.entries@));
        }
        let mut batch: Vec<(u64, ChunkPos)> = Vec::new();
        let mut fresh: Vec<(ChunkPos, PendingState)> = Vec::new();
        let mut i: usize = 0;
        while i < self.entries.len()
            invariant
                self.entries@ == orig,
                assoc_wf(orig),
                i <= orig.len(),
                fresh.len() == i,
                forall|j: int| 0 <= j < i ==> fresh[j].0 == orig[j].0,
                forall|j: int|
                    0 <= j < i ==> #[trigger] fresh[j].1 == PendingState::InFlight,
                forall|m: int|
                    0 <= m < batch.len() ==> exists|j: int|
                        0 <= j < i && orig[j].0 == #[trigger] batch[m].1 && orig[j].1
                            == PendingState::Queued(batch[m].0),
                forall|j: int|
                    0 <= j < i && (#[trigger] orig[j].1) is Queued ==> batch@.contains(
                        (orig[j].1->Queued_0, orig[j].0),
                    ),
                forall|m: int, n: int| 0 <= m < n < batch.len() ==> batch[m].1 != batch[n].1,
            decreases orig.len() - i,
        {
            let (pos, state) = self.entries[i];
            match state {
                PendingState::Queued(p) => {
                    proof {
                        assert forall|m: int| 0 <= m < batch.len() implies batch[m].1 != pos by {
                            let j = choose|j: int|
                                0 <= j < i && orig[j].0 == batch[m].1 && orig[j].1
                                    == PendingState::Queued(batch[m].0);
                            assert(orig[j].0 != orig[i as int].0);
                        }
                    }
                    let ghost b0 = batch@;
                    batch.push((p, pos));
                    proof {
                        assert(batch[batch.len() - 1] == (p, pos));
                        assert(orig[i as int].0 == pos && orig[i as int].1
                            == PendingState::Queued(p));
                        assert forall|j: int|
                            0 <= j <= i && (#[trigger] orig[j].1) is Queued implies batch@.contains(
                            (orig[j].1->Queued_0, orig[j].0),
                        ) by {
                            if j < i {
                                let m = choose|m: int|
                                    0 <= m < b0.len() && b0[m] == (
                                        orig[j].1->Queued_0,
                                        orig[j].0,
                                    );
                                assert(batch@[m] == b0[m]);
                            } else {
                                assert(batch@[batch@.len() - 1] == (p, pos));
                            }
                        }
                    }
                },
                PendingState::InFlight => {
                },
            }
            fresh.push((pos, PendingState::InFlight));
            i = i + 1;
        }
        self.entries = fresh;
        proof {
            assert forall|a: int, b: int|
                0 <= a < b < self.entries@.len() implies self.entries@[a].0
                != self.entries@[b].0 by {
                assert(orig[a].0 != orig[b].0);
            }
            assert(assoc_wf(self.entries@));
            assert(self@ == assoc_view(self.entries@));
            assert forall|k: ChunkPos| #[trigger] self@.contains_key(k) implies assoc_view(
                orig,
            ).contains_key(k) && self@[k] == PendingState::InFlight by {
                let j = choose|j: int|
                    0 <= j < self.entries@.len() && self.entries@[j].0 == k;
                assert(orig[j].0 == k);
                lemma_assoc_value(self.entries@, j);
            }
            assert forall|k: ChunkPos| #[trigger] assoc_view(orig).contains_key(k) implies self@.contains_key(
                k,
            ) by {
                let j = choose|j: int| 0 <= j < orig.len() && orig[j].0 == k;
                assert(self.entries@[j].0 == k);
            }
            assert(self@.dom() =~= assoc_view(orig).dom());
            assert forall|m: int| 0 <= m < batch.len() implies assoc_view(orig).contains_key(
                #[trigger] batch[m].1,
            ) && assoc_view(orig)[batch[m].1] == PendingState::Queued(batch[m].0) by {
                let j = choose|j: int|
                    0 <= j < orig.len() && orig[j].0 == batch[m].1 && orig[j].1
                        == PendingState::Queued(batch[m].0);
                lemma_assoc_value(orig, j);
            }
            assert forall|k: ChunkPos, p: u64|
                assoc_view(orig).contains_key(k) && assoc_view(orig)[k] == PendingState::Queued(
                    p,
                ) implies batch@.contains((p, k)) by {
                let j = choose|j: int| 0 <= j < orig.len() && orig[j].0 == k;
                lemma_assoc_value(orig, j);
                assert(orig[j].1 == PendingState::Queued(p));
            }
        }
        batch
    }
}

/// A synthesis result arrived for a coordinate with no pending entry: an
/// internal-consistency fault that must fail loudly rather than corrupt
/// world storage.
#[derive(Clone, Copy, PartialEq, Eq, Structural, Debug)]
pub struct ProtocolViolation;

/// Whether some batch element is for coordinate `k`.
pub open spec fn batch_has(batch: Seq<(u64, ChunkPos)>, k: ChunkPos) -> bool {
    exists|i: int| 0 <= i < batch.len() && batch[i].1 == k
}

/// Sort a dispatch batch ascending by priority, keeping exactly the same
/// pairs and keeping coordinates distinct.
fn sort_by_priority(batch: Vec<(u64, ChunkPos)>) -> (out: Vec<(u64, ChunkPos)>)
    requires
        forall|i: int, j: int| 0 <= i < j < batch.len() ==> batch[i].1 != batch[j].1,
    ensures
        forall|x: (u64, ChunkPos)| batch@.contains(x) <==> out@.contains(x),
        forall|i: int, j: int| 0 <= i < j < out.len() ==> out[i].0 <= out[j].0,
        forall|i: int, j: int| 0 <= i < j < out.len() ==> out[i].1 != out[j].1,
{
    let mut rest = batch;
    let mut out: Vec<(u64, ChunkPos)> = Vec::new();
    while rest.len() > 0
        invariant
            forall|x: (u64, ChunkPos)|
                #[trigger] batch@.contains(x) <==> (out@.contains(x) || rest@.contains(x)),
            forall|i: int, j: int| 0 <= i < j < rest.len() ==> rest[i].1 != rest[j].1,
            forall|i: int, j: int| 0 <= i < j < out.len() ==> out[i].1 != out[j].1,
            forall|i: int, j: int|
                0 <= i < out.len() && 0 <= j < rest.len() ==> out[i].1 != rest[j].1,
            forall|i: int, j: int| 0 <= i < j < out.len() ==> out[i].0 <= out[j].0,
            forall|i: int, j: int|
                0 <= i < out.len() && 0 <= j < rest.len() ==> out[i].0 <= rest[j].0,
        decreases rest.len(),
    {
        let mut m: usize = 0;
        let mut j: usize = 1;
        while j < rest.len()
            invariant
                m < j <= rest.len(),
                rest.len() > 0,
                forall|q: int| 0 <= q < j ==> rest[m as int].0 <= rest[q].0,
            decreases rest.len() - j,
        {
            if rest[j].0 < rest[m].0 {
                m = j;
            }
            j = j + 1;
        }
        let ghost rest0 = rest@;
        let ghost out0 = out@;
        let e = rest.remove(m);
        out.push(e);
        proof {
            assert(e == rest0[m as int]);
            assert(out@ == out0.push(e));
            assert(rest@ == rest0.remove(m as int));
            assert forall|x: (u64, ChunkPos)| #[trigger] batch@.contains(x) implies (
            out@.contains(x) || rest@.contains(x)) by {
                if out0.contains(x) {
                    let q = choose|q: int| 0 <= q < out0.len() && out0[q] == x;
                    assert(out@[q] == x);
                } else {
                    let q = choose|q: int| 0 <= q < rest0.len() && rest0[q] == x;
                    if q == m {
                        assert(out@[out@.len() - 1] == x);
                    } else if q < m {
                        assert(rest@[q] == x);
                    } else {
                        assert(rest@[q - 1] == x);
                    }
                }
            }
            assert forall|x: (u64, ChunkPos)| (out@.contains(x) || rest@.contains(x)) implies #[trigger] batch@.contains(
                x,
            ) by {
                if out@.contains(x) {
                    let q = choose|q: int| 0 <= q < out@.len() && out@[q] == x;
                    if q < out0.len() {
                        assert(out0[q] == x);
                    } else {
                        assert(rest0.contains(x));
                    }
                } else {
                    let q = choose|q: int| 0 <= q < rest@.len() && rest@[q] == x;
                    let q0 = if q < m { q } else { q + 1 };
                    assert(rest0[q0] == x);
                }
            }
            assert forall|i: int, j2: int|
                0 <= i < out.len() && 0 <= j2 < rest.len() implies out[i].1 != rest[j2].1 by {
                let q0 = if j2 < m { j2 } else { j2 + 1 };
                assert(rest@[j2] == rest0[q0]);
            }
            assert forall|i: int, j2: int|
                0 <= i < out.len() && 0 <= j2 < rest.len() implies out[i].0 <= rest[j2].0 by {
                let q0 = if j2 < m { j2 } else { j2 + 1 };
                assert(rest@[j2] == rest0[q0]);
                assert(rest0[m as int].0 <= rest0[q0].0);
            }
        }
    }
    out
}

/// What one enqueue request does to the pending table: nothing when the
/// region is already resident; a fresh `Queued` entry for an unknown
/// coordinate; the minimum of the old and new priority for a queued one;
/// and no change at all for an in-flight one.
pub open spec fn spec_enqueue(
    m: Map<ChunkPos, PendingState>,
    pos: ChunkPos,
    priority: u64,
    resident: bool,
) -> Map<ChunkPos, PendingState> {
    if resident {
        m
    } else if m.contains_key(pos) {
        match m[pos] {
            PendingState::Queued(p) => m.insert(
                pos,
                PendingState::Queued(if p <= priority { p } else { priority }),
            ),
            PendingState::InFlight => m,
        }
    } else {
        m.insert(pos, PendingState::Queued(priority))
    }
}

/// Reconciling a sequence of completed results into the table and the
/// world, one at a time: each result's coordinate must have a pending
/// entry, which is removed as the region becomes resident; a result for an
/// unknown coordinate fails the whole reconciliation.
pub open spec fn spec_apply(
    t: Map<ChunkPos, PendingState>,
    w: Map<ChunkPos, WorldEntry>,
    rs: Seq<(ChunkPos, Region)>,
) -> Option<(Map<ChunkPos, PendingState>, Map<ChunkPos, WorldEntry>)>
    decreases rs.len(),
{
    if rs.len() == 0 {
        Some((t, w))
    } else if t.contains_key(rs[0].0) {
        spec_apply(
            t.remove(rs[0].0),
            w.insert(rs[0].0, WorldEntry { region: rs[0].1, viewers: 0u32 }),
            rs.drop_first(),
        )
    } else {
        None
    }
}

/// Reconcile completed results: insert each region into world storage and
/// drop its pending entry; a result with no pending entry is a protocol
/// violation.
pub fn apply_results(
    table: &mut PendingTable,
    world: &mut WorldStore,
    results: Vec<(ChunkPos, Region)>,
) -> (r: Result<(), ProtocolViolation>)
    requires
        old(table).wf(),
        old(world).wf(),
    ensures
        final(table).wf(),
        final(world).wf(),
        forall|k: ChunkPos|
            #[trigger] final(table)@.contains_key(k) ==> old(table)@.contains_key(k),
        match r {
            Ok(_) => spec_apply(old(table)@, old(world)@, results@) == Some(
                (final(table)@, final(world)@),
            ),
            Err(_) => spec_apply(old(table)@, old(world)@, results@) is None,
        },
{
    let ghost t0 = table@;
    let ghost w0 = world@;
    let ghost all = results@;
    let mut rs = results;
    let mut failed = false;
    while !failed && rs.len() > 0
        invariant
            table.wf(),
            world.wf(),
            t0 == old(table)@,
            w0 == old(world)@,
            !failed ==> spec_apply(t0, w0, all) == spec_apply(table@, world@, rs@),
            failed ==> spec_apply(t0, w0, all) is None,
            forall|k: ChunkPos| #[trigger] table@.contains_key(k) ==> t0.contains_key(k),
        decreases rs.len(),
    {
        let ghost rsg = rs@;
        let ghost tp = table@;
        let (pos, region) = rs.remove(0);
        proof {
            assert(rs@ =~= rsg.drop_first());
            assert((pos, region) == rsg[0]);
        }
        match table.remove(pos) {
            Some(_) => {
                world.insert(pos, region);
            },
            None => {
                proof {
                    assert(table@ =~= tp);
                    assert(spec_apply(tp, world@, rsg) is None);
                    assert forall|k: ChunkPos|
                        #[trigger] table@.contains_key(k) implies t0.contains_key(k) by {
                        assert(tp.contains_key(k));
                    }
                }
                failed = true;
            },
        }
    }
    if failed {
        return Err(ProtocolViolation);
    }
    Ok(())
}

/// An in-flight batch entry either stays in flight (its request was
/// accepted) or reverts to its original queued priority (the send failed,
/// so it will be retried); nothing else in the table moves.
fn dispatch(
    table: &mut PendingTable,
    sender: &flume::Sender<ChunkPos>,
    batch: &Vec<(u64, ChunkPos)>,
) -> (sent: usize)
    requires
        old(table).wf(),
        forall|i: int|
            0 <= i < batch.len() ==> old(table)@.contains_key(#[trigger] batch[i].1) && old(
                table,
            )@[batch[i].1] == PendingState::InFlight,
        forall|i: int, j: int| 0 <= i < j < batch.len() ==> batch[i].1 != batch[j].1,
    ensures
        final(table).wf(),
        final(table)@.dom() == old(table)@.dom(),
        forall|k: ChunkPos|
            #[trigger] old(table)@.contains_key(k) && !batch_has(batch@, k) ==> final(table)@[k]
                == old(table)@[k],
        forall|i: int|
            0 <= i < batch.len() ==> final(table)@[#[trigger] batch[i].1]
                == PendingState::InFlight || final(table)@[batch[i].1] == PendingState::Queued(
                batch[i].0,
            ),
{
    let ghost t0 = table@;
    let mut sent: usize = 0;
    let mut i: usize = 0;
    while i < batch.len()
        invariant
            table.wf(),
            sent <= i <= batch.len(),
            table@.dom() == t0.dom(),
            forall|m: int|
                0 <= m < batch.len() ==> t0.contains_key(#[trigger] batch[m].1) && t0[batch[m].1]
                    == PendingState::InFlight,
            forall|m: int, n: int| 0 <= m < n < batch.len() ==> batch[m].1 != batch[n].1,
            forall|k: ChunkPos|
                #[trigger] t0.contains_key(k) && !batch_has(batch@, k) ==> table@[k] == t0[k],
            forall|m: int|
                0 <= m < i ==> final_state_ok(table@, batch@, m),
            forall|m: int|
                i <= m < batch.len() ==> table@[#[trigger] batch[m].1]
                    == PendingState::InFlight,
        decreases batch.len() - i,
    {
        let (pri, pos) = batch[i];
        let ok = try_send_request(sender, pos);
        if ok {
            sent = sent + 1;
        } else {
            let ghost tp = table@;
            table.set(pos, PendingState::Queued(pri));
            proof {
                assert(tp.contains_key(pos));
                assert(table@.dom() =~= tp.dom());
                assert forall|m: int| 0 <= m < i implies final_state_ok(
                    table@,
                    batch@,
                    m,
                ) by {
                    assert(final_state_ok(tp, batch@, m));
                    assert(batch@[m].1 != pos);
                    assert(table@[batch@[m].1] == tp[batch@[m].1]);
                }
                assert forall|m: int| i + 1 <= m < batch.len() implies table@[
                    #[trigger] batch@[m].1
                ] == PendingState::InFlight by {
                    assert(batch@[m].1 != pos);
                    assert(table@[batch@[m].1] == tp[batch@[m].1]);
                }
            }
        }
        i = i + 1;
    }
    proof {
        assert forall|m: int|
            0 <= m < batch.len() implies table@[#[trigger] batch@[m].1]
            == PendingState::InFlight || table@[batch@[m].1] == PendingState::Queued(
            batch@[m].0,
        ) by {
            assert(final_state_ok(table@, batch@, m));
        }
    }
    sent
}

/// The state the dispatch loop guarantees for the `m`-th batch element.
pub open spec fn final_state_ok(
    t: Map<ChunkPos, PendingState>,
    batch: Seq<(u64, ChunkPos)>,
    m: int,
) -> bool {
    t[batch[m].1] == PendingState::InFlight || t[batch[m].1] == PendingState::Queued(batch[m].0)
}

/// Declares flume's sending channel endpoint so it can stand in fields and
/// signatures; the library states nothing about values in transit.
#[verifier::external_type_specification]
#[verifier::external_body]
#[verifier::reject_recursive_types(T)]
pub struct ExSender<T>(flume::Sender<T>);

/// Declares flume's receiving channel endpoint.
#[verifier::external_type_specification]
#[verifier::external_body]
#[verifier::reject_recursive_types(T)]
pub struct ExReceiver<T>(flume::Receiver<T>);

/// Relies on flume::unbounded: returns the two connected endpoints of a new
/// unbounded request channel. What later moves through it depends on other
/// threads, so nothing more is stated.
#[verifier::external_body]
fn channel_requests() -> (flume::Sender<ChunkPos>, flume::Receiver<ChunkPos>) {
    flume::unbounded()
}

/// Relies on flume::unbounded: returns the two connected endpoints of a new
/// unbounded result channel.
#[verifier::external_body]
fn channel_results() -> (flume::Sender<(ChunkPos, Region)>, flume::Receiver<(ChunkPos, Region)>) {
    flume::unbounded()
}

/// Relies on flume::Sender::try_send: hands one request to the worker pool
/// without blocking, saying only whether the channel accepted it (it
/// refuses once every receiving endpoint is gone).
#[verifier::external_body]
fn try_send_request(sender: &flume::Sender<ChunkPos>, pos: ChunkPos) -> (ok: bool) {
    sender.try_send(pos).is_ok()
}

/// Relies on flume::Receiver::drain: takes every result already queued in
/// the channel, without blocking. Which results are present depends on the
/// workers, so nothing is stated about the contents.
#[verifier::external_body]
fn drain_results(receiver: &flume::Receiver<(ChunkPos, Region)>) -> (rs: Vec<(ChunkPos, Region)>) {
    receiver.drain().collect()
}

/// The scheduler: the pending-work table, the endpoints of the two channels
/// to its worker pool, a render-distance override (0 defers to each
/// observer's own distance), and the flag asking for a full requeue.
pub struct TerrainGenerator {
    pending: PendingTable,
    sender: flume::Sender<ChunkPos>,
    receiver: flume::Receiver<(ChunkPos, Region)>,
    render_dist: u8,
    needs_reload: bool,
}

/// What a worker pool needs: the profile to synthesize with and its ends of
/// the two channels. Workers exit when the request channel closes, which
/// happens when the generator that created this handle is dropped.
pub struct WorkerHandle {
    pub config: TerrainGenConfig,
    pub requests: flume::Receiver<ChunkPos>,
    pub results: flume::Sender<(ChunkPos, Region)>,
}

impl TerrainGenerator {
    /// The pending-work table as a map.
    pub closed spec fn pending_map(&self) -> Map<ChunkPos, PendingState> {
        self.pending@
    }

    pub closed spec fn wf(&self) -> bool {
        self.pending.wf()
    }

    pub closed spec fn spec_render_dist(&self) -> u8 {
        self.render_dist
    }

    pub closed spec fn spec_needs_reload(&self) -> bool {
        self.needs_reload
    }

    /// A fresh generator with an empty pending table, new channels, and the
    /// worker handle its pool must be started from. Set `render_dist` to 0
    /// to always use each observer's own render distance.
    pub fn new(config: TerrainGenConfig, render_dist: u8) -> (r: (Self, WorkerHandle))
        ensures
            r.0.wf(),
            r.0.pending_map() == Map::<ChunkPos, PendingState>::empty(),
            r.0.spec_render_dist() == render_dist,
            r.0.spec_needs_reload(),
            r.1.config == config,
    {
        let (pending_sender, pending_receiver) = channel_requests();
        let (finished_sender, finished_receiver) = channel_results();
        let gen = TerrainGenerator {
            pending: PendingTable::new(),
            sender: pending_sender,
            receiver: finished_receiver,
            render_dist,
            needs_reload: true,
        };
        let handle = WorkerHandle {
            config,
            requests: pending_receiver,
            results: finished_sender,
        };
        (gen, handle)
    }

    pub fn render_dist(&self) -> (d: u8)
        ensures
            d == self.spec_render_dist(),
    {
        self.render_dist
    }

    /// Whether a full requeue of every visible region is pending.
    pub fn needs_reload(&self) -> (r: bool)
        ensures
            r == self.spec_needs_reload(),
    {
        self.needs_reload
    }

    pub fn set_render_dist(&mut self, dist: u8)
        ensures
            final(self).spec_render_dist() == dist,
            final(self).spec_needs_reload(),
            final(self).pending_map() == old(self).pending_map(),
            final(self).wf() == old(self).wf(),
    {
        self.render_dist = dist;
        self.needs_reload = true;
    }

    /// Replace this generator wholesale: fresh channels, fresh workers to be
    /// started from the returned handle, an empty pending table. In-flight
    /// work of the old generation keeps its old channels, which no longer
    /// reach this generator, so stale results are dropped, never applied.
    pub fn reload(&mut self, config: TerrainGenConfig) -> (handle: WorkerHandle)
        ensures
            final(self).wf(),
            final(self).pending_map() == Map::<ChunkPos, PendingState>::empty(),
            final(self).spec_render_dist() == old(self).spec_render_dist(),
            final(self).spec_needs_reload(),
            handle.config == config,
    {
        let (fresh, handle) = Self::new(config, self.render_dist);
        *self = fresh;
        handle
    }

    /// Ask for `pos` to be generated with the given priority (lower is more
    /// urgent); `resident` says whether world storage already holds the
    /// region. A resident or in-flight coordinate is left untouched; a
    /// queued one keeps the more urgent of the two priorities.
    pub fn enqueue(&mut self, pos: ChunkPos, priority: u64, resident: bool)
        requires
            old(self).wf(),
        ensures
            final(self).wf(),
            final(self).pending_map() == spec_enqueue(
                old(self).pending_map(),
                pos,
                priority,
                resident,
            ),
            final(self).spec_render_dist() == old(self).spec_render_dist(),
            final(self).spec_needs_reload() == old(self).spec_needs_reload(),
    {
        if resident {
            return ;
        }
        match self.pending.get(pos) {
            Some(PendingState::Queued(p)) => {
                let np = if p <= priority {
                    p
                } else {
                    priority
                };
                self.pending.set(pos, PendingState::Queued(np));
            },
            Some(PendingState::InFlight) => {
            },
            None => {
                self.pending.set(pos, PendingState::Queued(priority));
            },
        }
    }

    /// Lower the reload flag, once every observer has been brought up to
    /// date in this cycle.
    pub fn finish_cycle(&mut self)
        ensures
            !final(self).spec_needs_reload(),
            final(self).pending_map() == old(self).pending_map(),
            final(self).spec_render_dist() == old(self).spec_render_dist(),
            final(self).wf() == old(self).wf(),
    {
        self.needs_reload = false;
    }

    /// One scheduling cycle's channel work: drain every completed result
    /// into world storage (failing on a result with no pending entry), then
    /// hand every queued coordinate to the workers in ascending priority
    /// order, reverting to its queued priority any request the channel did
    /// not accept.
    pub fn flush(&mut self, world: &mut WorldStore) -> (r: Result<(), ProtocolViolation>)
        requires
            old(self).wf(),
            old(world).wf(),
        ensures
            final(self).wf(),
            final(world).wf(),
            final(self).spec_render_dist() == old(self).spec_render_dist(),
            final(self).spec_needs_reload() == old(self).spec_needs_reload(),
            forall|k: ChunkPos|
                #[trigger] final(self).pending_map().contains_key(k) ==> old(
                    self,
                ).pending_map().contains_key(k),
            (old(self).pending_map() == Map::<ChunkPos, PendingState>::empty() && r is Ok)
                ==> final(self).pending_map() == old(self).pending_map() && final(world)@ == old(
                world,
            )@,
            (old(self).pending_map().dom().disjoint(old(world)@.dom()) && r is Ok)
                ==> final(self).pending_map().dom().disjoint(final(world)@.dom()),
    {
        let results = drain_results(&self.receiver);
        let ghost t0 = self.pending@;
        let ghost w0 = world@;
        let ghost rs0 = results@;
        match apply_results(&mut self.pending, world, results) {
            Ok(_) => {
            },
            Err(v) => {
                proof {
                    lemma_apply_shrinks(t0, w0, rs0);
                }
                return Err(v);
            },
        }
        let ghost t1 = self.pending@;
        proof {
            lemma_apply_shrinks(t0, w0, rs0);
            if t0.dom().disjoint(w0.dom()) {
                lemma_apply_preserves_disjoint(t0, w0, rs0);
            }
            if t0 == Map::<ChunkPos, PendingState>::empty() {
                if rs0.len() > 0 {
                    assert(!t0.contains_key(rs0[0].0));
                    assert(spec_apply(t0, w0, rs0) is None);
                    assert(false);
                }
                assert(spec_apply(t0, w0, rs0) == Some((t0, w0)));
                assert(t1 == t0 && world@ == w0);
            }
        }
        let batch0 = self.pending.take_queued();
        let ghost b0 = batch0@;
        let ghost t2 = self.pending@;
        let batch = sort_by_priority(batch0);
        proof {
            assert forall|i: int|
                0 <= i < batch.len() implies t2.contains_key(#[trigger] batch@[i].1)
                && t2[batch@[i].1] == PendingState::InFlight by {
                assert(batch@.contains(batch@[i]));
                assert(b0.contains(batch@[i]));
                let m = choose|m: int| 0 <= m < b0.len() && b0[m] == batch@[i];
                assert(t1.contains_key(b0[m].1));
                assert(t2.dom() == t1.dom());
            }
            assert(self.pending@ == t2);
        }
        let _sent = dispatch(&mut self.pending, &self.sender, &batch);
        proof {
            assert forall|k: ChunkPos| #[trigger] self.pending@.contains_key(k) implies t0.contains_key(
                k,
            ) by {
                assert(self.pending@.dom().contains(k));
                assert(t2.dom().contains(k));
                assert(t1.contains_key(k));
            }
            if t0.dom().disjoint(w0.dom()) {
                assert forall|k: ChunkPos|
                    self.pending@.dom().contains(k) implies !world@.dom().contains(k) by {
                    assert(t2.dom().contains(k));
                    assert(t1.dom().contains(k));
                }
            }
            if t0 == Map::<ChunkPos, PendingState>::empty() {
                if batch.len() > 0 {
                    assert(batch@.contains(batch@[0]));
                    assert(b0.contains(batch@[0]));
                    let m = choose|m: int| 0 <= m < b0.len() && b0[m] == batch@[0];
                    assert(t1.contains_key(b0[m].1));
                    assert(false);
                }
                assert forall|k: ChunkPos| !(#[trigger] self.pending@.contains_key(k)) by {
                    assert(!t2.dom().contains(k));
                }
                assert(self.pending@ =~= t0);
            }
        }
        Ok(())
    }
}

/// Reconciliation only ever removes pending entries: every coordinate still
/// pending afterwards was pending before. In particular, reconciling no
/// results at all is the identity, which with an empty dispatch makes a
/// flush of an idle scheduler a no-op.
pub proof fn lemma_apply_shrinks(
    t: Map<ChunkPos, PendingState>,
    w: Map<ChunkPos, WorldEntry>,
    rs: Seq<(ChunkPos, Region)>,
)
    ensures
        spec_apply(t, w, rs) matches Some(r) ==> forall|k: ChunkPos|
            #[trigger] r.0.contains_key(k) ==> t.contains_key(k),
        rs.len() == 0 ==> spec_apply(t, w, rs) == Some((t, w)),
    decreases rs.len(),
{
    if rs.len() > 0 && t.contains_key(rs[0].0) {
        lemma_apply_shrinks(
            t.remove(rs[0].0),
            w.insert(rs[0].0, WorldEntry { region: rs[0].1, viewers: 0u32 }),
            rs.drop_first(),
        );
    }
}

/// An enqueue driven by residency keeps the pending table and world
/// storage disjoint: a coordinate resident in the world is never entered
/// into the table.
pub proof fn lemma_enqueue_preserves_disjoint(
    m: Map<ChunkPos, PendingState>,
    w: Map<ChunkPos, WorldEntry>,
    pos: ChunkPos,
    priority: u64,
)
    requires
        m.dom().disjoint(w.dom()),
    ensures
        spec_enqueue(m, pos, priority, w.contains_key(pos)).dom().disjoint(w.dom()),
{
    let m2 = spec_enqueue(m, pos, priority, w.contains_key(pos));
    assert forall|k: ChunkPos| m2.dom().contains(k) implies !w.dom().contains(k) by {
        if k != pos {
            assert(m.dom().contains(k));
        }
    }
}

/// Reconciliation keeps the pending table and world storage disjoint: a
/// completed coordinate leaves the table in the same step that makes it
/// resident.
pub proof fn lemma_apply_preserves_disjoint(
    t: Map<ChunkPos, PendingState>,
    w: Map<ChunkPos, WorldEntry>,
    rs: Seq<(ChunkPos, Region)>,
)
    requires
        t.dom().disjoint(w.dom()),
    ensures
        spec_apply(t, w, rs) matches Some(r) ==> r.0.dom().disjoint(r.1.dom()),
    decreases rs.len(),
{
    if rs.len() > 0 && t.contains_key(rs[0].0) {
        let p = rs[0].0;
        let t2 = t.remove(p);
        let w2 = w.insert(p, WorldEntry { region: rs[0].1, viewers: 0u32 });
        assert forall|k: ChunkPos| t2.dom().contains(k) implies !w2.dom().contains(k) by {
            assert(t.dom().contains(k));
        }
        lemma_apply_preserves_disjoint(t2, w2, rs.drop_first());
    }
}

/// Flushing an idle scheduler is a no-op: with nothing pending and nothing
/// completed, reconciliation returns the table and the world unchanged, and
/// an empty table queues nothing for dispatch.
pub proof fn lemma_idle_flush_noop(w: Map<ChunkPos, WorldEntry>)
    ensures
        spec_apply(
            Map::<ChunkPos, PendingState>::empty(),
            w,
            Seq::<(ChunkPos, Region)>::empty(),
        ) == Some((Map::<ChunkPos, PendingState>::empty(), w)),
{
}

/// However often a coordinate is enqueued before its result resolves, the
/// in-flight entries are exactly what they were: enqueuing never creates,
/// drops or modifies an in-flight entry, so at most one dispatch can exist
/// per coordinate.
pub proof fn lemma_enqueue_preserves_in_flight(
    m: Map<ChunkPos, PendingState>,
    pos: ChunkPos,
    priority: u64,
    resident: bool,
    k: ChunkPos,
)
    ensures
        (spec_enqueue(m, pos, priority, resident).contains_key(k) && spec_enqueue(
            m,
            pos,
            priority,
            resident,
        )[k] == PendingState::InFlight) <==> (m.contains_key(k) && m[k]
            == PendingState::InFlight),
{
}

} // verus!

