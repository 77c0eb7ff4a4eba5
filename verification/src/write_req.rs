//! The write path: pipelined group commits.
//!
//! A write is queued; the writer at the head of the queue leads a group of all that are queued,
//! appends the whole group to the log in one go, and then puts it into the memtable. While
//! one group is written to memory, the next one may be written to the log: only one leader is
//! in each stage at a time, and tickets make the groups reach memory in the order in which
//! they reached the log.
//!
//! Each step here is a decision on the shared state, which the caller holds a lock on; where a
//! step has to wait, it says so and is tried again later.

use crate::data_stores::key::{Key, KeyView, LsnType};
use crate::data_stores::memtable::{grown_by, insert_all, requested, MemView, Memtable, Mutable};
use crate::data_stores::table_format::Entry;
use crate::data_stores::value::Value;
use crate::data_stores::wal::{log_entries, Wal, WalReceipt, Writable};
use crate::err::DbError;
use std::collections::VecDeque;
use vstd::prelude::*;

verus! {

/// The passive data payload for a write request.
#[derive(Debug)]
pub struct WriteRequest {
    /// Tells requests apart.
    pub id: u64,
    pub key: Key,
    pub value: Value,
}

// --- Shared state ---

/// What writers share.
pub struct WriteSyncs {
    pub write_queue: VecDeque<WriteRequest>,
    pub wal_busy: bool,
    /// The ticket that may enter the memtable stage.
    pub ticket_to_mem: usize,
    /// The ticket that the next leader draws.
    pub next_ticket: usize,
    pub next_lsn: LsnType,
}

impl WriteSyncs {
    pub fn new(start_lsn: LsnType) -> (syncs: WriteSyncs)
        ensures
            syncs.write_queue@ == Seq::<WriteRequest>::empty(),
            !syncs.wal_busy,
            syncs.ticket_to_mem == 0,
            syncs.next_ticket == 0,
            syncs.next_lsn == start_lsn,
    {
        WriteSyncs {
            write_queue: VecDeque::new(),
            wal_busy: false,
            ticket_to_mem: 0,
            next_ticket: 0,
            next_lsn: start_lsn,
        }
    }

    /// Everything but the queue.
    pub open spec fn same_stages(&self, other: &WriteSyncs) -> bool {
        &&& self.wal_busy == other.wal_busy
        &&& self.ticket_to_mem == other.ticket_to_mem
        &&& self.next_ticket == other.next_ticket
        &&& self.next_lsn == other.next_lsn
    }

    /// Lets the next ticket into the memtable stage.
    pub fn release_ticket(&mut self)
        requires
            old(self).ticket_to_mem < usize::MAX,
        ensures
            *final(self) == (WriteSyncs {
                ticket_to_mem: (old(self).ticket_to_mem + 1) as usize,
                ..*old(self)
            }),
    {
        self.ticket_to_mem = self.ticket_to_mem + 1;
    }
}

// --- States of a writer ---

/// Waiting to be queued.
pub struct WaitingToBeQueued {
    pub req: WriteRequest,
}

/// Queued, and waiting to be part of a write group.
pub struct SeekingMembership {}

/// In a group that another writer leads.
pub struct FollowerWaitingCompletion {}

/// Leading a group, and waiting for the log.
pub struct LeaderWaitingToWriteWal {
    pub group: WriteGroup,
}

/// Alone in the log stage.
pub struct LeaderWritingWal {
    pub group: WriteGroup,
}

/// In the log stage, with numbers drawn and the bytes handed out to be written.
pub struct LeaderAppendingWal {
    pub group: WriteGroup,
    pub ticket: usize,
    pub start_lsn: u64,
}

/// Done with the log, and waiting for the ticket's turn at the memtable.
pub struct LeaderWaitingToWriteMemtable {
    pub group: WriteGroup,
    pub ticket: usize,
    pub receipt: WalReceipt,
}

/// Alone in the memtable stage.
pub struct LeaderWritingMemtable {
    pub group: WriteGroup,
    pub ticket: usize,
    pub receipt: WalReceipt,
}

/// About to tell the group how it went.
pub struct LeaderFinishingWrite {
    pub group: WriteGroup,
}

/// Written.
#[derive(Clone, Copy, Debug, PartialEq, Eq, Structural)]
pub struct Success {
    pub lsn: u64,
}

/// The active actor driving the write request state machine.
pub struct Writer<State> {
    pub id: u64,
    pub state: State,
}

/// What a leader tells a member of its group.
#[derive(Clone, Copy, Debug, PartialEq, Eq, Structural)]
pub enum CompletionVariant {
    Follower,
    Success(Success),
}

/// A step that may have to wait.
pub enum Turn<Now, Later> {
    Now(Now),
    Wait(Later),
}

pub enum SeekingMembershipResult {
    Leader(Writer<LeaderWaitingToWriteWal>),
    Follower(Writer<FollowerWaitingCompletion>),
    Success(Writer<Success>),
    Waiting(Writer<SeekingMembership>),
}

/// Requests that are written together.
pub struct WriteGroup {
    pub reqs: Vec<WriteRequest>,
    pub committed_lsn: Option<u64>,
}

impl WriteGroup {
    /// Whom the leader tells, once it leads, that they are in its group, and what it tells
    /// them: every member, itself included, that it follows.
    pub fn notice(&self) -> (r: (Vec<u64>, CompletionVariant))
        ensures
            r.0@ == ids_of(self.reqs@),
            r.0@.len() == self.reqs@.len(),
            forall|i: int| 0 <= i < self.reqs@.len() ==> #[trigger] r.0@[i] == self.reqs@[i].id,
            r.1 == CompletionVariant::Follower,
    {
        let mut ids: Vec<u64> = Vec::new();
        let mut i: usize = 0;
        assert(ids@ =~= ids_of(self.reqs@).take(0));
        while i < self.reqs.len()
            invariant
                i <= self.reqs@.len(),
                ids@ == ids_of(self.reqs@).take(i as int),
            decreases self.reqs@.len() - i,
        {
            ids.push(self.reqs[i].id);
            i = i + 1;
            assert(ids@ =~= ids_of(self.reqs@).take(i as int));
        }
        assert(ids@ =~= ids_of(self.reqs@));
        (ids, CompletionVariant::Follower)
    }

    /// What the members are told at the end: the LSN of the group once it is in the log, and
    /// a panic of the writer otherwise.
    pub fn completion(&self) -> (r: Result<CompletionVariant, DbError>)
        ensures
            match self.committed_lsn {
                Some(lsn) => r == Ok::<CompletionVariant, DbError>(
                    CompletionVariant::Success(Success { lsn }),
                ),
                None => r == Err::<CompletionVariant, DbError>(DbError::WriterPanic),
            },
    {
        match self.committed_lsn {
            Some(lsn) => Ok(CompletionVariant::Success(Success { lsn })),
            None => Err(DbError::WriterPanic),
        }
    }
}

/// The entries of some requests with LSNs from `start` on.
pub open spec fn stamped(reqs: Seq<WriteRequest>, start: u64) -> Seq<Entry> {
    Seq::new(
        reqs.len(),
        |i: int|
            (KeyView { bytes: reqs[i].key@.bytes, lsn: (start + i) as u64 }, reqs[i].value@),
    )
}

/// Stamping changes nothing but the LSNs: the entry of a request has the key and the value of
/// that request, and the LSNs count up from the first one.
pub proof fn lemma_stamped(reqs: Seq<WriteRequest>, start: u64, i: int)
    requires
        0 <= i < reqs.len(),
        start + reqs.len() <= u64::MAX,
    ensures
        stamped(reqs, start).len() == reqs.len(),
        stamped(reqs, start)[i].0.bytes == reqs[i].key.bytes@,
        stamped(reqs, start)[i].0.lsn == start + i,
        stamped(reqs, start)[i].1 == reqs[i].value@,
{
}

/// The entry of a request is its key, its LSN and its value; there is one for each request.
pub proof fn lemma_requested(reqs: Seq<WriteRequest>, i: int)
    requires
        0 <= i < reqs.len(),
    ensures
        requested(reqs).len() == reqs.len(),
        requested(reqs)[i].0.bytes == reqs[i].key.bytes@,
        requested(reqs)[i].0.lsn == reqs[i].key.lsn,
        requested(reqs)[i].1 == reqs[i].value@,
{
}

/// The numbers by which some requests are told apart.
pub open spec fn ids_of(reqs: Seq<WriteRequest>) -> Seq<u64> {
    Seq::new(reqs.len(), |i: int| reqs[i].id)
}

/// Takes all requests off the queue.
pub fn form_write_group(syncs: &mut WriteSyncs) -> (group: WriteGroup)
    ensures
        group.reqs@ == old(syncs).write_queue@,
        group.committed_lsn is None,
        final(syncs).write_queue@ == Seq::<WriteRequest>::empty(),
        final(syncs).same_stages(old(syncs)),
        final(syncs).wal_busy == old(syncs).wal_busy,
        final(syncs).ticket_to_mem == old(syncs).ticket_to_mem,
        final(syncs).next_ticket == old(syncs).next_ticket,
        final(syncs).next_lsn == old(syncs).next_lsn,
{
    let ghost all = syncs.write_queue@;
    let mut reqs: Vec<WriteRequest> = Vec::new();
    assert(all.skip(0) =~= all);
    loop
        invariant
            reqs@.len() <= all.len(),
            reqs@ == all.take(reqs@.len() as int),
            syncs.write_queue@ == all.skip(reqs@.len() as int),
            syncs.same_stages(old(syncs)),
        ensures
            syncs.write_queue@.len() == 0,
        decreases all.len() - reqs@.len(),
    {
        match syncs.write_queue.pop_front() {
            Some(req) => {
                let ghost n = reqs@.len() as int;
                reqs.push(req);
                assert(reqs@ =~= all.take(n + 1));
                assert(syncs.write_queue@ =~= all.skip(n + 1));
            },
            None => {
                break;
            },
        }
    }
    assert(syncs.write_queue@ =~= Seq::<WriteRequest>::empty());
    assert(reqs@ =~= all);
    WriteGroup { reqs, committed_lsn: None }
}

// --- Steps ---

impl Writer<WaitingToBeQueued> {
    pub fn new(id: u64, key: Key, value: Value) -> (writer: Writer<WaitingToBeQueued>)
        ensures
            writer.id == id,
            writer.state.req == (WriteRequest { id, key, value }),
    {
        Writer { id, state: WaitingToBeQueued { req: WriteRequest { id, key, value } } }
    }

    /// Joins the queue.
    pub fn step(self, syncs: &mut WriteSyncs) -> (writer: Writer<SeekingMembership>)
        ensures
            writer.id == self.id,
            final(syncs).write_queue@ == old(syncs).write_queue@.push(self.state.req),
            final(syncs).same_stages(old(syncs)),
            final(syncs).wal_busy == old(syncs).wal_busy,
            final(syncs).ticket_to_mem == old(syncs).ticket_to_mem,
            final(syncs).next_ticket == old(syncs).next_ticket,
            final(syncs).next_lsn == old(syncs).next_lsn,
    {
        syncs.write_queue.push_back(self.state.req);
        Writer { id: self.id, state: SeekingMembership {  } }
    }
}

impl Writer<SeekingMembership> {
    /// Takes what a leader has said, or leads a group where it is at the head of the queue.
    pub fn step(
        self,
        completion: Option<Result<CompletionVariant, DbError>>,
        syncs: &mut WriteSyncs,
    ) -> (r: Result<SeekingMembershipResult, DbError>)
        ensures
            final(syncs).same_stages(old(syncs)),
            final(syncs).wal_busy == old(syncs).wal_busy,
            final(syncs).ticket_to_mem == old(syncs).ticket_to_mem,
            final(syncs).next_ticket == old(syncs).next_ticket,
            final(syncs).next_lsn == old(syncs).next_lsn,
            match completion {
                Some(Ok(CompletionVariant::Follower)) => {
                    &&& r matches Ok(SeekingMembershipResult::Follower(w))
                    &&& w.id == self.id
                    &&& final(syncs).write_queue@ == old(syncs).write_queue@
                },
                Some(Ok(CompletionVariant::Success(s))) => {
                    &&& r matches Ok(SeekingMembershipResult::Success(w))
                    &&& w.id == self.id
                    &&& w.state == s
                    &&& final(syncs).write_queue@ == old(syncs).write_queue@
                },
                Some(Err(e)) => {
                    &&& r matches Err(f)
                    &&& f == e
                    &&& final(syncs).write_queue@ == old(syncs).write_queue@
                },
                None => {
                    let queue = old(syncs).write_queue@;
                    if queue.len() > 0 && queue[0].id == self.id {
                        &&& r matches Ok(SeekingMembershipResult::Leader(w))
                        &&& w.id == self.id
                        &&& w.state.group.reqs@ == queue
                        &&& w.state.group.committed_lsn is None
                        &&& final(syncs).write_queue@ == Seq::<WriteRequest>::empty()
                    } else {
                        &&& r matches Ok(SeekingMembershipResult::Waiting(w))
                        &&& w.id == self.id
                        &&& final(syncs).write_queue@ == queue
                    }
                },
            },
    {
        match completion {
            Some(Ok(CompletionVariant::Follower)) => Ok(
                SeekingMembershipResult::Follower(
                    Writer { id: self.id, state: FollowerWaitingCompletion {  } },
                ),
            ),
            Some(Ok(CompletionVariant::Success(state))) => Ok(
                SeekingMembershipResult::Success(Writer { id: self.id, state }),
            ),
            Some(Err(e)) => Err(e),
            None => {
                let is_front: bool = if syncs.write_queue.len() > 0 {
                    syncs.write_queue[0].id == self.id
                } else {
                    false
                };
                if is_front {
                    let group = form_write_group(syncs);
                    Ok(
                        SeekingMembershipResult::Leader(
                            Writer { id: self.id, state: LeaderWaitingToWriteWal { group } },
                        ),
                    )
                } else {
                    Ok(SeekingMembershipResult::Waiting(self))
                }
            },
        }
    }
}

impl Writer<FollowerWaitingCompletion> {
    /// Takes the outcome, if the leader has come to one.
    pub fn step(self, completion: Option<Result<CompletionVariant, DbError>>) -> (r: Result<
        Turn<Writer<Success>, Writer<FollowerWaitingCompletion>>,
        DbError,
    >)
        ensures
            match completion {
                Some(Ok(CompletionVariant::Success(s))) => {
                    &&& r matches Ok(Turn::Now(w))
                    &&& w.id == self.id
                    &&& w.state == s
                },
                Some(Err(e)) => r matches Err(f) && f == e,
                _ => r matches Ok(Turn::Wait(w)) && w.id == self.id,
            },
    {
        match completion {
            Some(Ok(CompletionVariant::Success(state))) => Ok(
                Turn::Now(Writer { id: self.id, state }),
            ),
            Some(Err(e)) => Err(e),
            _ => Ok(Turn::Wait(self)),
        }
    }
}

impl Writer<LeaderWaitingToWriteWal> {
    /// Enters the log stage, unless another leader is in it.
    pub fn step(self, syncs: &mut WriteSyncs) -> (r: Turn<
        Writer<LeaderWritingWal>,
        Writer<LeaderWaitingToWriteWal>,
    >)
        ensures
            match r {
                Turn::Now(w) => {
                    &&& !old(syncs).wal_busy
                    &&& *final(syncs) == WriteSyncs { wal_busy: true, ..*old(syncs) }
                    &&& w.id == self.id
                    &&& w.state.group == self.state.group
                },
                Turn::Wait(w) => {
                    &&& old(syncs).wal_busy
                    &&& *final(syncs) == *old(syncs)
                    &&& w == self
                },
            },
    {
        if syncs.wal_busy {
            Turn::Wait(self)
        } else {
            syncs.wal_busy = true;
            Turn::Now(
                Writer { id: self.id, state: LeaderWritingWal { group: self.state.group } },
            )
        }
    }
}

impl Writer<LeaderWritingWal> {
    /// Draws a ticket and the LSNs of the group, and lays the group out as log entries: also
    /// the bytes to append to the log.
    pub fn step(self, syncs: &mut WriteSyncs) -> (r: (Writer<LeaderAppendingWal>, Vec<u8>))
        requires
            old(syncs).next_ticket < usize::MAX,
            old(syncs).next_lsn + self.state.group.reqs@.len() <= u64::MAX,
        ensures
            *final(syncs) == (WriteSyncs {
                next_ticket: (old(syncs).next_ticket + 1) as usize,
                next_lsn: (old(syncs).next_lsn + self.state.group.reqs@.len()) as u64,
                ..*old(syncs)
            }),
            r.0.id == self.id,
            r.0.state.ticket == old(syncs).next_ticket,
            r.0.state.start_lsn == old(syncs).next_lsn,
            r.0.state.group.committed_lsn == self.state.group.committed_lsn,
            ids_of(r.0.state.group.reqs@) == ids_of(self.state.group.reqs@),
            requested(r.0.state.group.reqs@) == stamped(
                self.state.group.reqs@,
                old(syncs).next_lsn,
            ),
            r.1@ == log_entries(stamped(self.state.group.reqs@, old(syncs).next_lsn)),
            r.0.state.group.reqs@.len() == self.state.group.reqs@.len(),
            forall|i: int|
                0 <= i < self.state.group.reqs@.len() ==> {
                    let before = self.state.group.reqs@[i];
                    let after = #[trigger] r.0.state.group.reqs@[i];
                    &&& after.id == before.id
                    &&& after.key@.bytes == before.key@.bytes
                    &&& after.key@.lsn == old(syncs).next_lsn + i
                    &&& after.value@ == before.value@
                },
    {
        let ticket: usize = syncs.next_ticket;
        syncs.next_ticket = syncs.next_ticket + 1;
        let start_lsn: u64 = syncs.next_lsn;
        let mut group = self.state.group;
        let n: usize = group.reqs.len();
        syncs.next_lsn = start_lsn + n as u64;
        let ghost reqs = group.reqs@;
        let ghost es = stamped(reqs, start_lsn);
        let mut bytes: Vec<u8> = Vec::new();
        let mut i: usize = 0;
        assert(es.take(0) =~= Seq::<Entry>::empty());
        while i < n
            invariant
                i <= n,
                n == reqs.len(),
                group.reqs@.len() == n,
                start_lsn + n <= u64::MAX,
                es == stamped(reqs, start_lsn),
                group.committed_lsn == self.state.group.committed_lsn,
                forall|j: int|
                    0 <= j < i ==> (#[trigger] group.reqs@[j]).id == reqs[j].id && (
                    group.reqs@[j].key@,
                    group.reqs@[j].value@,
                ) == es[j] && group.reqs@[j].key@.bytes == reqs[j].key@.bytes
                    && group.reqs@[j].key@.lsn == start_lsn + j && group.reqs@[j].value@
                    == reqs[j].value@,
                forall|j: int| i <= j < n ==> #[trigger] group.reqs@[j] == reqs[j],
                bytes@ == log_entries(es.take(i as int)),
            decreases n - i,
        {
            let lsn: u64 = start_lsn + i as u64;
            let mut req = group.reqs.remove(i);
            req.key.update_lsn(lsn);
            proof {
                assert(es.take(i + 1).drop_last() =~= es.take(i as int));
                assert((req.key@, req.value@) == es[i as int]);
            }
            match Wal::<Writable>::encode_entry(&mut bytes, &req.key, &req.value) {
                Ok(()) => {},
                Err(_) => {},
            }
            group.reqs.insert(i, req);
            i = i + 1;
        }
        proof {
            assert(es.take(i as int) =~= es);
            assert(requested(group.reqs@) =~= es);
            assert(ids_of(group.reqs@) =~= ids_of(reqs));
        }
        (Writer { id: self.id, state: LeaderAppendingWal { group, ticket, start_lsn } }, bytes)
    }
}

/// A write that failed: why, and the group that it failed for.
pub struct FailedWrite {
    pub error: DbError,
    pub group: WriteGroup,
}

impl Writer<LeaderAppendingWal> {
    /// Leaves the log stage, given how the append went. Where it failed, the ticket is given
    /// back and the group stays uncommitted.
    pub fn step(self, written: Result<WalReceipt, DbError>, syncs: &mut WriteSyncs) -> (r: Result<
        Writer<LeaderWaitingToWriteMemtable>,
        FailedWrite,
    >)
        requires
            old(syncs).ticket_to_mem < usize::MAX,
        ensures
            match written {
                Ok(receipt) => {
                    &&& r matches Ok(w)
                    &&& w.id == self.id
                    &&& w.state.ticket == self.state.ticket
                    &&& w.state.group.reqs == self.state.group.reqs
                    &&& w.state.group.committed_lsn == Some(self.state.start_lsn)
                    &&& *final(syncs) == WriteSyncs { wal_busy: false, ..*old(syncs) }
                },
                Err(e) => {
                    &&& r matches Err(failed)
                    &&& failed.error == e
                    &&& failed.group == self.state.group
                    &&& *final(syncs) == WriteSyncs {
                        wal_busy: false,
                        ticket_to_mem: (old(syncs).ticket_to_mem + 1) as usize,
                        ..*old(syncs)
                    }
                },
            },
    {
        syncs.wal_busy = false;
        match written {
            Ok(receipt) => {
                let mut group = self.state.group;
                group.committed_lsn = Some(self.state.start_lsn);
                Ok(
                    Writer {
                        id: self.id,
                        state: LeaderWaitingToWriteMemtable {
                            group,
                            ticket: self.state.ticket,
                            receipt,
                        },
                    },
                )
            },
            Err(error) => {
                syncs.release_ticket();
                Err(FailedWrite { error, group: self.state.group })
            },
        }
    }
}

impl Writer<LeaderWaitingToWriteMemtable> {
    /// Enters the memtable stage when it is the ticket's turn.
    pub fn step(self, syncs: &WriteSyncs) -> (r: Turn<
        Writer<LeaderWritingMemtable>,
        Writer<LeaderWaitingToWriteMemtable>,
    >)
        ensures
            match r {
                Turn::Now(w) => {
                    &&& syncs.ticket_to_mem == self.state.ticket
                    &&& w.id == self.id
                    &&& w.state.ticket == self.state.ticket
                    &&& w.state.group == self.state.group
                },
                Turn::Wait(w) => syncs.ticket_to_mem != self.state.ticket && w == self,
            },
    {
        if syncs.ticket_to_mem == self.state.ticket {
            Turn::Now(
                Writer {
                    id: self.id,
                    state: LeaderWritingMemtable {
                        group: self.state.group,
                        ticket: self.state.ticket,
                        receipt: self.state.receipt,
                    },
                },
            )
        } else {
            Turn::Wait(self)
        }
    }
}

impl Writer<LeaderWritingMemtable> {
    /// Puts the group into the memtable.
    pub fn step(self, mem: &mut Memtable<Mutable>) -> (w: Writer<LeaderFinishingWrite>)
        ensures
            final(mem)@ == insert_all(old(mem)@, requested(self.state.group.reqs@)),
            final(mem).size() == grown_by(old(mem).size(), requested(self.state.group.reqs@)),
            w.id == self.id,
            w.state.group == self.state.group,
    {
        mem.put_batch(self.state.group.reqs.as_slice());
        Writer { id: self.id, state: LeaderFinishingWrite { group: self.state.group } }
    }
}

impl Writer<LeaderFinishingWrite> {
    /// Ends the write: also the group, whose members are to be told how it went.
    pub fn step(self) -> (r: (Writer<Success>, WriteGroup))
        ensures
            r.0.id == self.id,
            r.0.state.lsn == match self.state.group.committed_lsn {
                Some(lsn) => lsn,
                None => 0,
            },
            r.1 == self.state.group,
    {
        let lsn: u64 = match self.state.group.committed_lsn {
            Some(lsn) => lsn,
            None => 0,
        };
        (Writer { id: self.id, state: Success { lsn } }, self.state.group)
    }
}

// --- What the pipeline keeps ---

/// Whether the shared state is in step with the leaders: those in the log stage, and the
/// tickets that were drawn and not given back. The log stage is marked busy when a leader is in
/// it, there is at most one, and no two leaders hold the same ticket.
pub open spec fn in_step(s: WriteSyncs, in_wal: Set<u64>, tickets: Map<u64, usize>) -> bool {
    &&& s.wal_busy ==> exists|a: u64| in_wal.contains(a)
    &&& forall|a: u64| #[trigger] in_wal.contains(a) ==> s.wal_busy
    &&& forall|a: u64, b: u64| in_wal.contains(a) && in_wal.contains(b) ==> a == b
    &&& forall|a: u64| #[trigger] tickets.dom().contains(a) ==> tickets[a] < s.next_ticket
    &&& forall|a: u64, b: u64|
        #![trigger tickets.dom().contains(a), tickets.dom().contains(b)]
        tickets.dom().contains(a) && tickets.dom().contains(b) && a != b ==> tickets[a]
            != tickets[b]
}

/// A leader that enters the log stage, as it may where the stage is not busy, is alone there.
pub proof fn lemma_enter_wal(
    s: WriteSyncs,
    t: WriteSyncs,
    in_wal: Set<u64>,
    tickets: Map<u64, usize>,
    id: u64,
)
    requires
        in_step(s, in_wal, tickets),
        !s.wal_busy,
        t.wal_busy,
        t.next_ticket == s.next_ticket,
    ensures
        in_step(t, in_wal.insert(id), tickets),
        forall|a: u64| in_wal.insert(id).contains(a) ==> a == id,
{
    assert(in_wal.insert(id).contains(id));
}

/// A leader that draws a ticket holds one that no other leader holds.
pub proof fn lemma_draw_ticket(
    s: WriteSyncs,
    t: WriteSyncs,
    in_wal: Set<u64>,
    tickets: Map<u64, usize>,
    id: u64,
)
    requires
        in_step(s, in_wal, tickets),
        t.next_ticket == s.next_ticket + 1,
        t.wal_busy == s.wal_busy,
    ensures
        in_step(t, in_wal, tickets.insert(id, s.next_ticket)),
        forall|a: u64|
            a != id && #[trigger] tickets.dom().contains(a) ==> tickets[a] != s.next_ticket,
{
    let more = tickets.insert(id, s.next_ticket);
    assert forall|a: u64| #[trigger] more.dom().contains(a) implies more[a] < t.next_ticket by {
        if a != id {
            assert(tickets.dom().contains(a));
        }
    }
    assert forall|a: u64, b: u64|
        #![trigger more.dom().contains(a), more.dom().contains(b)]
        more.dom().contains(a) && more.dom().contains(b) && a != b implies more[a] != more[b] by {
        if a != id {
            assert(tickets.dom().contains(a));
        }
        if b != id {
            assert(tickets.dom().contains(b));
        }
    }
}

/// When the leader in the log stage leaves it, nobody is there.
pub proof fn lemma_leave_wal(
    s: WriteSyncs,
    t: WriteSyncs,
    in_wal: Set<u64>,
    tickets: Map<u64, usize>,
    id: u64,
)
    requires
        in_step(s, in_wal, tickets),
        in_wal.contains(id),
        t.next_ticket == s.next_ticket,
        !t.wal_busy,
    ensures
        in_step(t, in_wal.remove(id), tickets),
        forall|a: u64| !in_wal.remove(id).contains(a),
{
}

/// A leader that gives its ticket back leaves the other leaders' tickets alone.
pub proof fn lemma_release_ticket(
    s: WriteSyncs,
    t: WriteSyncs,
    in_wal: Set<u64>,
    tickets: Map<u64, usize>,
    id: u64,
)
    requires
        in_step(s, in_wal, tickets),
        t.next_ticket == s.next_ticket,
        t.wal_busy == s.wal_busy,
    ensures
        in_step(t, in_wal, tickets.remove(id)),
{
    let less = tickets.remove(id);
    assert forall|a: u64| #[trigger] less.dom().contains(a) implies less[a] < t.next_ticket by {
        assert(tickets.dom().contains(a));
    }
    assert forall|a: u64, b: u64|
        #![trigger less.dom().contains(a), less.dom().contains(b)]
        less.dom().contains(a) && less.dom().contains(b) && a != b implies less[a] != less[b] by {
        assert(tickets.dom().contains(a) && tickets.dom().contains(b));
    }
}

/// No two leaders are let into the memtable stage at a time.
pub proof fn lemma_one_writer_in_memtable(
    s: WriteSyncs,
    in_wal: Set<u64>,
    tickets: Map<u64, usize>,
    a: u64,
    b: u64,
)
    requires
        in_step(s, in_wal, tickets),
        tickets.dom().contains(a),
        tickets.dom().contains(b),
        tickets[a] == s.ticket_to_mem,
        tickets[b] == s.ticket_to_mem,
    ensures
        a == b,
{
}

/// Whether no ticket that is out has been passed over.
pub open spec fn in_turn(s: WriteSyncs, tickets: Map<u64, usize>) -> bool {
    &&& s.ticket_to_mem <= s.next_ticket
    &&& forall|a: u64| #[trigger] tickets.dom().contains(a) ==> tickets[a] >= s.ticket_to_mem
}

/// Groups reach memory in the order in which they reached the log: where tickets are given
/// back in turn, drawing one and giving one back passes no other over, and the leader that is
/// let into the memtable stage is the one that logged first of those that are not through.
pub proof fn lemma_memtable_order(
    s: WriteSyncs,
    t: WriteSyncs,
    in_wal: Set<u64>,
    tickets: Map<u64, usize>,
    id: u64,
)
    requires
        in_step(s, in_wal, tickets),
        in_turn(s, tickets),
    ensures
        t.ticket_to_mem == s.ticket_to_mem && t.next_ticket == s.next_ticket + 1 ==> in_turn(
            t,
            tickets.insert(id, s.next_ticket),
        ),
        tickets.dom().contains(id) && tickets[id] == s.ticket_to_mem ==> {
            &&& forall|a: u64|
                a != id && #[trigger] tickets.dom().contains(a) ==> tickets[id] < tickets[a]
            &&& t.ticket_to_mem == s.ticket_to_mem + 1 && t.next_ticket == s.next_ticket
                ==> in_turn(t, tickets.remove(id))
        },
{
    if t.ticket_to_mem == s.ticket_to_mem && t.next_ticket == s.next_ticket + 1 {
        let more = tickets.insert(id, s.next_ticket);
        assert forall|a: u64| #[trigger] more.dom().contains(a) implies more[a]
            >= t.ticket_to_mem by {
            if a != id {
                assert(tickets.dom().contains(a));
            }
        }
    }
    if tickets.dom().contains(id) && tickets[id] == s.ticket_to_mem {
        assert forall|a: u64| a != id && #[trigger] tickets.dom().contains(a) implies tickets[id]
            < tickets[a] by {}
        let less = tickets.remove(id);
        assert forall|a: u64| #[trigger] less.dom().contains(a) implies less[a]
            >= s.ticket_to_mem + 1 by {
            assert(tickets.dom().contains(a));
        }
    }
}

/// Groups that draw their LSNs one after the other share none, and leave none out between
/// them: each LSN of the first is below each of the second.
pub proof fn lemma_lsns_in_order(
    first: Seq<WriteRequest>,
    second: Seq<WriteRequest>,
    start: u64,
    i: int,
    j: int,
)
    requires
        start + first.len() + second.len() <= u64::MAX,
        0 <= i < first.len(),
        0 <= j < second.len(),
    ensures
        ({
            let a = stamped(first, start);
            let b = stamped(second, (start + first.len()) as u64);
            &&& a[i].0.lsn == start + i
            &&& b[j].0.lsn == start + first.len() + j
            &&& a[i].0.lsn < b[j].0.lsn
        }),
{
}

proof fn lemma_log_entries_append(a: Seq<Entry>, b: Seq<Entry>)
    ensures
        log_entries(a + b) == log_entries(a) + log_entries(b),
    decreases b.len(),
{
    if b.len() == 0 {
        assert(a + b =~= a);
        assert(log_entries(a) + log_entries(b) =~= log_entries(a));
    } else {
        assert((a + b).drop_last() =~= a + b.drop_last());
        lemma_log_entries_append(a, b.drop_last());
        assert(log_entries(a + b) =~= log_entries(a) + log_entries(b));
    }
}

proof fn lemma_insert_all_append(m: MemView, a: Seq<Entry>, b: Seq<Entry>)
    ensures
        insert_all(m, a + b) == insert_all(insert_all(m, a), b),
    decreases b.len(),
{
    if b.len() == 0 {
        assert(a + b =~= a);
    } else {
        assert((a + b).drop_last() =~= a + b.drop_last());
        lemma_insert_all_append(m, a, b.drop_last());
    }
}

/// The bytes that some groups append to a log, one group after the other.
pub open spec fn logged(groups: Seq<Seq<Entry>>) -> Seq<u8>
    decreases groups.len(),
{
    if groups.len() == 0 {
        Seq::empty()
    } else {
        logged(groups.drop_last()) + log_entries(groups.last())
    }
}

/// What some groups put into an empty memtable, one group after the other.
pub open spec fn remembered(groups: Seq<Seq<Entry>>) -> MemView
    decreases groups.len(),
{
    if groups.len() == 0 {
        Map::empty()
    } else {
        insert_all(remembered(groups.drop_last()), groups.last())
    }
}

/// All entries of some groups.
pub open spec fn grouped(groups: Seq<Seq<Entry>>) -> Seq<Entry>
    decreases groups.len(),
{
    if groups.len() == 0 {
        Seq::empty()
    } else {
        grouped(groups.drop_last()) + groups.last()
    }
}

/// Log and memory agree: what the log of some groups holds are the entries that the memtable
/// was given, in the same order.
pub proof fn lemma_log_and_memory_agree(groups: Seq<Seq<Entry>>)
    ensures
        logged(groups) == log_entries(grouped(groups)),
        remembered(groups) == insert_all(Map::empty(), grouped(groups)),
    decreases groups.len(),
{
    if groups.len() > 0 {
        lemma_log_and_memory_agree(groups.drop_last());
        lemma_log_entries_append(grouped(groups.drop_last()), groups.last());
        lemma_insert_all_append(Map::empty(), grouped(groups.drop_last()), groups.last());
    }
}

} // verus!
