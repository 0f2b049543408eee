//! Bookkeeping of the asynchronous I/O engine: the slot tables that tie each
//! operation handed to the kernel to the request that asked for it, the
//! admission rule that bounds how many operations are in flight, and the
//! counters that the engine reports.
//!
//! The engine's worker performs the kernel calls and delivers replies; every
//! decision it makes about slots goes through [`AioState`].
use vstd::prelude::*;

use slab::Slab;

verus! {

/// The largest queue depth a session may be configured with: the kernel's
/// default bound on asynchronous I/O requests (`aio-max-nr`).
pub const MAX_QUEUE_DEPTH: usize = 65536;

/// Polls between two statistics reports.
pub const REPORT_INTERVAL: u64 = 10000;

/// Declares slab::Slab, the slot table, as a type Verus sees only from outside.
#[verifier::external_type_specification]
#[verifier::external_body]
#[verifier::reject_recursive_types(T)]
pub struct ExSlab<T>(Slab<T>);

/// What a slot table holds: each occupied slot with the ticket stored in it.
pub uninterp spec fn slot_entries(s: Slab<u64>) -> Map<usize, u64>;

/// Relies on slab::Slab::with_capacity: a new slab holds nothing.
#[verifier::external_body]
fn slots_with_capacity(capacity: usize) -> (r: Slab<u64>)
    requires
        capacity <= MAX_QUEUE_DEPTH,
    ensures
        slot_entries(r).dom().len() == 0,
        slot_entries(r).dom().finite(),
{
    Slab::with_capacity(capacity)
}

/// Relies on slab::Slab::len: the number of occupied slots.
#[verifier::external_body]
fn slots_len(s: &Slab<u64>) -> (r: usize)
    ensures
        r == slot_entries(*s).len(),
{
    s.len()
}

/// Relies on slab::Slab::insert: the value goes into a slot that was vacant,
/// whose key is returned; the other slots keep their values.
#[verifier::external_body]
fn slots_insert(s: &mut Slab<u64>, ticket: u64) -> (key: usize)
    requires
        slot_entries(*old(s)).len() < MAX_QUEUE_DEPTH,
    ensures
        !slot_entries(*old(s)).dom().contains(key),
        slot_entries(*final(s)) == slot_entries(*old(s)).insert(key, ticket),
{
    s.insert(ticket)
}

/// Relies on slab::Slab::try_remove: an occupied slot is vacated and its value
/// returned; for any other key nothing changes.
#[verifier::external_body]
fn slots_try_remove(s: &mut Slab<u64>, key: usize) -> (r: Option<u64>)
    ensures
        slot_entries(*old(s)).dom().contains(key) ==> r == Some(slot_entries(*old(s))[key])
            && slot_entries(*final(s)) == slot_entries(*old(s)).remove(key),
        !slot_entries(*old(s)).dom().contains(key) ==> r is None && slot_entries(*final(s))
            == slot_entries(*old(s)),
{
    s.try_remove(key)
}

/// The two kinds of positional operation.
#[derive(Clone, Copy, Debug, PartialEq, Eq, Structural)]
pub enum OpKind {
    PRead,
    PWrite,
}

/// The slot tables as maps from slot to ticket, and the queue depth.
pub struct AioView {
    pub preads: Map<usize, u64>,
    pub pwrites: Map<usize, u64>,
    pub max_queue_depth: nat,
}

impl AioView {
    /// The table that holds operations of `kind`.
    pub open spec fn table(self, kind: OpKind) -> Map<usize, u64> {
        match kind {
            OpKind::PRead => self.preads,
            OpKind::PWrite => self.pwrites,
        }
    }

    /// Operations handed to the kernel and not yet completed.
    pub open spec fn in_flight(self) -> nat {
        self.preads.len() + self.pwrites.len()
    }

    /// Both tables are finite and together hold at most the queue depth.
    pub open spec fn is_bounded(self) -> bool {
        &&& self.preads.dom().finite()
        &&& self.pwrites.dom().finite()
        &&& self.in_flight() <= self.max_queue_depth
        &&& 0 < self.max_queue_depth <= MAX_QUEUE_DEPTH
    }

    /// The tables after `ticket` takes slot `slot` of the table of `kind`.
    pub open spec fn begun(self, kind: OpKind, slot: usize, ticket: u64) -> AioView {
        match kind {
            OpKind::PRead => AioView { preads: self.preads.insert(slot, ticket), ..self },
            OpKind::PWrite => AioView { pwrites: self.pwrites.insert(slot, ticket), ..self },
        }
    }

    /// The tables after slot `slot` of the table of `kind` is released.
    pub open spec fn finished(self, kind: OpKind, slot: usize) -> AioView {
        match kind {
            OpKind::PRead => AioView { preads: self.preads.remove(slot), ..self },
            OpKind::PWrite => AioView { pwrites: self.pwrites.remove(slot), ..self },
        }
    }

    /// The ticket whose reply is due when slot `slot` of `kind` completes:
    /// none for a slot that holds no operation.
    pub open spec fn reply_for(self, kind: OpKind, slot: usize) -> Option<u64> {
        if self.table(kind).dom().contains(slot) {
            Some(self.table(kind)[slot])
        } else {
            None
        }
    }
}

/// Counters of the engine's activity since it started.
#[derive(Clone, Copy, Debug, PartialEq, Eq, Structural)]
pub struct AioStats {
    pub curr_polls: u64,
    pub curr_preads: u64,
    pub curr_pwrites: u64,
    pub prev_polls: u64,
    pub prev_preads: u64,
    pub prev_pwrites: u64,
}

/// What happened since the previous report.
#[derive(Clone, Copy, Debug, PartialEq, Eq, Structural)]
pub struct StatsReport {
    pub polls: u64,
    pub preads: u64,
    pub pwrites: u64,
    pub preads_in_flight: usize,
    pub pwrites_in_flight: usize,
}

/// The slot tables of one engine, its queue depth and its counters.
pub struct AioState {
    handles_pread: Slab<u64>,
    handles_pwrite: Slab<u64>,
    max_queue_depth: usize,
    stats: AioStats,
}

impl View for AioState {
    type V = AioView;

    closed spec fn view(&self) -> AioView {
        AioView {
            preads: slot_entries(self.handles_pread),
            pwrites: slot_entries(self.handles_pwrite),
            max_queue_depth: self.max_queue_depth as nat,
        }
    }
}

impl AioState {
    /// The tables stay within the queue depth.
    pub open spec fn wf(&self) -> bool {
        self@.is_bounded()
    }

    /// The activity counters.
    pub closed spec fn counters(&self) -> AioStats {
        self.stats
    }

    /// The activity counters.
    pub fn stats(&self) -> (r: AioStats)
        ensures
            r == self.counters(),
    {
        self.stats
    }

    /// Empty slot tables for a session of the given queue depth.
    pub fn new(max_queue_depth: usize) -> (r: AioState)
        requires
            0 < max_queue_depth <= MAX_QUEUE_DEPTH,
        ensures
            r.wf(),
            r@.preads == Map::<usize, u64>::empty(),
            r@.pwrites == Map::<usize, u64>::empty(),
            r@.max_queue_depth == max_queue_depth,
            r.counters() == (AioStats {
                curr_polls: 0,
                curr_preads: 0,
                curr_pwrites: 0,
                prev_polls: 0,
                prev_preads: 0,
                prev_pwrites: 0,
            }),
    {
        let r = AioState {
            handles_pread: slots_with_capacity(max_queue_depth),
            handles_pwrite: slots_with_capacity(max_queue_depth),
            max_queue_depth,
            stats: AioStats {
                curr_polls: 0,
                curr_preads: 0,
                curr_pwrites: 0,
                prev_polls: 0,
                prev_preads: 0,
                prev_pwrites: 0,
            },
        };
        assert(r@.preads.dom() =~= Set::<usize>::empty());
        assert(r@.pwrites.dom() =~= Set::<usize>::empty());
        r
    }

    /// The configured queue depth.
    pub fn max_queue_depth(&self) -> (r: usize)
        ensures
            r == self@.max_queue_depth,
    {
        self.max_queue_depth
    }

    /// Reads handed to the kernel and not yet completed.
    pub fn preads_in_flight(&self) -> (r: usize)
        ensures
            r == self@.preads.len(),
    {
        slots_len(&self.handles_pread)
    }

    /// Writes handed to the kernel and not yet completed.
    pub fn pwrites_in_flight(&self) -> (r: usize)
        ensures
            r == self@.pwrites.len(),
    {
        slots_len(&self.handles_pwrite)
    }

    /// Operations handed to the kernel and not yet completed.
    pub fn in_flight(&self) -> (r: usize)
        requires
            self.wf(),
        ensures
            r == self@.in_flight(),
    {
        self.preads_in_flight() + self.pwrites_in_flight()
    }

    /// Whether one more operation may be handed to the kernel.
    pub fn has_room(&self) -> (r: bool)
        requires
            self.wf(),
        ensures
            r == (self@.in_flight() < self@.max_queue_depth),
    {
        self.in_flight() < self.max_queue_depth
    }

    /// Takes a slot for the operation `ticket` of `kind`, when the queue
    /// depth allows one more operation in flight. `None` leaves the tables
    /// as they were: the operation waits for a later wake-up.
    pub fn begin(&mut self, kind: OpKind, ticket: u64) -> (r: Option<usize>)
        requires
            old(self).wf(),
        ensures
            final(self).wf(),
            final(self).counters() == old(self).counters(),
            old(self)@.in_flight() < old(self)@.max_queue_depth ==> r is Some,
            old(self)@.in_flight() >= old(self)@.max_queue_depth ==> r is None,
            r matches Some(slot) ==> !old(self)@.table(kind).dom().contains(slot) && final(self)@
                == old(self)@.begun(kind, slot, ticket),
            r is None ==> final(self)@ == old(self)@,
    {
        if !self.has_room() {
            return None;
        }
        let slot = match kind {
            OpKind::PRead => slots_insert(&mut self.handles_pread, ticket),
            OpKind::PWrite => slots_insert(&mut self.handles_pwrite, ticket),
        };
        proof {
            let v = old(self)@;
            assert(self@ == v.begun(kind, slot, ticket));
            match kind {
                OpKind::PRead => {
                    assert(v.preads.insert(slot, ticket).len() == v.preads.len() + 1);
                },
                OpKind::PWrite => {
                    assert(v.pwrites.insert(slot, ticket).len() == v.pwrites.len() + 1);
                },
            }
        }
        Some(slot)
    }

    /// Releases slot `slot` of `kind`, when its operation completed or the
    /// kernel refused it, and returns the ticket whose reply is now due.
    /// `None` for a slot that holds no operation.
    pub fn finish(&mut self, kind: OpKind, slot: usize) -> (r: Option<u64>)
        requires
            old(self).wf(),
        ensures
            final(self).wf(),
            final(self).counters() == old(self).counters(),
            r == old(self)@.reply_for(kind, slot),
            final(self)@ == old(self)@.finished(kind, slot),
    {
        let r = match kind {
            OpKind::PRead => slots_try_remove(&mut self.handles_pread, slot),
            OpKind::PWrite => slots_try_remove(&mut self.handles_pwrite, slot),
        };
        proof {
            let v = old(self)@;
            match kind {
                OpKind::PRead => {
                    if !v.preads.dom().contains(slot) {
                        assert(v.preads.remove(slot) =~= v.preads);
                    }
                },
                OpKind::PWrite => {
                    if !v.pwrites.dom().contains(slot) {
                        assert(v.pwrites.remove(slot) =~= v.pwrites);
                    }
                },
            }
            assert(self@ == v.finished(kind, slot));
        }
        r
    }

    /// Counts a message taken from the queue.
    pub fn count_message(&mut self, kind: OpKind)
        ensures
            final(self)@ == old(self)@,
            final(self).counters() == (match kind {
                OpKind::PRead => AioStats {
                    curr_preads: old(self).counters().curr_preads.wrapping_add(1),
                    ..old(self).counters()
                },
                OpKind::PWrite => AioStats {
                    curr_pwrites: old(self).counters().curr_pwrites.wrapping_add(1),
                    ..old(self).counters()
                },
            }),
    {
        match kind {
            OpKind::PRead => {
                self.stats.curr_preads = self.stats.curr_preads.wrapping_add(1);
            },
            OpKind::PWrite => {
                self.stats.curr_pwrites = self.stats.curr_pwrites.wrapping_add(1);
            },
        }
    }

    /// Counts a wake-up of the engine; true when a statistics report is due.
    pub fn count_poll(&mut self) -> (report_due: bool)
        ensures
            final(self)@ == old(self)@,
            final(self).counters() == (AioStats {
                curr_polls: old(self).counters().curr_polls.wrapping_add(1),
                ..old(self).counters()
            }),
            report_due == (final(self).counters().curr_polls % REPORT_INTERVAL == 0),
    {
        self.stats.curr_polls = self.stats.curr_polls.wrapping_add(1);
        self.stats.curr_polls % REPORT_INTERVAL == 0
    }

    /// What happened since the previous report; starts a new period.
    pub fn take_report(&mut self) -> (r: StatsReport)
        ensures
            final(self)@ == old(self)@,
            r.polls == old(self).counters().curr_polls.wrapping_sub(old(self).counters().prev_polls),
            r.preads == old(self).counters().curr_preads.wrapping_sub(old(self).counters().prev_preads),
            r.pwrites == old(self).counters().curr_pwrites.wrapping_sub(old(self).counters().prev_pwrites),
            r.preads_in_flight == old(self)@.preads.len(),
            r.pwrites_in_flight == old(self)@.pwrites.len(),
            final(self).counters() == (AioStats {
                prev_polls: old(self).counters().curr_polls,
                prev_preads: old(self).counters().curr_preads,
                prev_pwrites: old(self).counters().curr_pwrites,
                ..old(self).counters()
            }),
    {
        let s = self.stats;
        let r = StatsReport {
            polls: s.curr_polls.wrapping_sub(s.prev_polls),
            preads: s.curr_preads.wrapping_sub(s.prev_preads),
            pwrites: s.curr_pwrites.wrapping_sub(s.prev_pwrites),
            preads_in_flight: self.preads_in_flight(),
            pwrites_in_flight: self.pwrites_in_flight(),
        };
        self.stats.prev_polls = s.curr_polls;
        self.stats.prev_preads = s.curr_preads;
        self.stats.prev_pwrites = s.curr_pwrites;
        r
    }
}

/// The tables after the slots of `done` are released, in order.
pub open spec fn finish_all(v: AioView, done: Seq<(OpKind, usize)>) -> AioView
    decreases done.len(),
{
    if done.len() == 0 {
        v
    } else {
        finish_all(v.finished(done[0].0, done[0].1), done.skip(1))
    }
}

/// An operation that takes a vacant slot is answered with its own ticket
/// when that slot completes, and the completion leaves the tables as they
/// were before it began: nothing is held after the reply.
pub proof fn lemma_begin_then_finish(v: AioView, kind: OpKind, slot: usize, ticket: u64)
    requires
        !v.table(kind).dom().contains(slot),
    ensures
        v.begun(kind, slot, ticket).reply_for(kind, slot) == Some(ticket),
        v.begun(kind, slot, ticket).finished(kind, slot) == v,
{
    match kind {
        OpKind::PRead => {
            assert(v.preads.insert(slot, ticket).remove(slot) =~= v.preads);
        },
        OpKind::PWrite => {
            assert(v.pwrites.insert(slot, ticket).remove(slot) =~= v.pwrites);
        },
    }
}

/// A slot yields at most one reply: once it is released, a second
/// completion of it yields none.
pub proof fn lemma_reply_once(v: AioView, kind: OpKind, slot: usize)
    ensures
        v.finished(kind, slot).reply_for(kind, slot) is None,
{
}

/// When every operation in flight has completed, both slot tables are
/// empty.
pub proof fn lemma_all_finished_empty(v: AioView, done: Seq<(OpKind, usize)>)
    requires
        v.is_bounded(),
        forall|k: usize| v.preads.dom().contains(k) ==> done.contains((OpKind::PRead, k)),
        forall|k: usize| v.pwrites.dom().contains(k) ==> done.contains((OpKind::PWrite, k)),
    ensures
        finish_all(v, done).in_flight() == 0,
    decreases done.len(),
{
    if done.len() == 0 {
        assert(v.preads.dom() =~= Set::<usize>::empty());
        assert(v.pwrites.dom() =~= Set::<usize>::empty());
    } else {
        let (kind, slot) = done[0];
        let w = v.finished(kind, slot);
        let rest = done.skip(1);
        assert(w.preads.len() <= v.preads.len());
        assert(w.pwrites.len() <= v.pwrites.len());
        assert forall|k: usize| w.preads.dom().contains(k) implies rest.contains((OpKind::PRead, k)) by {
            let i = choose|i: int| 0 <= i < done.len() && done[i] == (OpKind::PRead, k);
            assert(i != 0);
            assert(rest[i - 1] == (OpKind::PRead, k));
        }
        assert forall|k: usize| w.pwrites.dom().contains(k) implies rest.contains((OpKind::PWrite, k)) by {
            let i = choose|i: int| 0 <= i < done.len() && done[i] == (OpKind::PWrite, k);
            assert(i != 0);
            assert(rest[i - 1] == (OpKind::PWrite, k));
        }
        lemma_all_finished_empty(w, rest);
    }
}

} // verus!
