//! The store as a state machine, and what holds of every run of it.
//!
//! Writers come to the store one at a time, but the journal is slow, so the
//! store gathers them into batches. The first writer to find no batch open
//! opens one and becomes its leader; those who come while it is open join it
//! as followers. The leader waits until the batch before its own is through,
//! closes its batch, has it written and forced to disk, and reports how that
//! went. While that write is under way the next batch is already forming.
//!
//! A batch has a number, its commit signal; signal 0 stands for "nothing to
//! wait for" and is resolved from the start. Batches are written one at a
//! time and in the order of their signals.

use crate::command::{
    apply_all, distinct_keys, leaves, lemma_apply_all_concat, lemma_last_write_wins, lookup,
    CommandView,
};
use crate::error::DbError;
use crate::journal::{
    batch_bytes, framed, lemma_batch_bytes_concat, lemma_replay_append, replay_spec,
};
use crate::record::{all_read_back, record_line, strings_read_back};
use vstd::prelude::*;

verus! {

/// Whether a batch is open for writers to join.
pub enum PipelineView {
    /// No batch is open. `prev` is the signal of the batch that was opened
    /// last, which may still be on its way to disk.
    Idle { prev: nat },
    /// A batch is open: its commands so far, in the order in which they
    /// came, and its signal.
    Forming { batch: Seq<CommandView>, signal: nat },
}

/// The state of a store.
pub struct DbView {
    /// The current value of every live key.
    pub index: Map<Seq<char>, Seq<char>>,
    /// The batch that is open, if one is.
    pub pipeline: PipelineView,
    /// The batch that its leader has closed and that is being written; its
    /// signal is `resolved + 1`.
    pub in_flight: Option<Seq<CommandView>>,
    /// The signals up to this one are resolved, the later ones are not.
    pub resolved: nat,
    /// The resolved signals that carry a failure, each with its cause.
    pub failures: Map<nat, DbError>,
    /// What the journal holds, as far as the store has been told.
    pub journal: Seq<u8>,
    /// Whether the journal is known to hold exactly `journal`: it ended
    /// where a record ends when the store was opened, and no write has
    /// failed since.
    pub intact: bool,
}

/// What a writer has become by handing in its command.
pub enum RoleView {
    /// It opened a batch. It is to wait for `gate`, then to close the batch,
    /// have it written, and resolve `signal`.
    Leader { gate: nat, signal: nat },
    /// It joined an open batch. It is to wait for `signal`.
    Follower { signal: nat },
}

impl RoleView {
    /// The signal that tells this writer how its command fared.
    pub open spec fn signal(self) -> nat {
        match self {
            RoleView::Leader { signal, .. } => signal,
            RoleView::Follower { signal } => signal,
        }
    }
}

/// How a write to the journal went.
pub type WriteResult = Result<(), DbError>;

impl DbView {
    /// A store that was just opened on a journal that holds `log` and
    /// replays as `history`.
    pub open spec fn opened(log: Seq<u8>, history: Seq<CommandView>) -> DbView {
        DbView {
            index: apply_all(Map::empty(), history),
            pipeline: PipelineView::Idle { prev: 0 },
            in_flight: None,
            resolved: 0,
            failures: Map::empty(),
            journal: log,
            intact: framed(log),
        }
    }

    /// The commands of the open batch (none if no batch is open).
    pub open spec fn forming(self) -> Seq<CommandView> {
        match self.pipeline {
            PipelineView::Idle { .. } => Seq::empty(),
            PipelineView::Forming { batch, .. } => batch,
        }
    }

    /// The commands of the batch that is being written (none if none is).
    pub open spec fn writing(self) -> Seq<CommandView> {
        match self.in_flight {
            Some(batch) => batch,
            None => Seq::empty(),
        }
    }

    /// The commands handed in and not yet resolved, oldest first.
    pub open spec fn pending(self) -> Seq<CommandView> {
        self.writing() + self.forming()
    }

    /// The signal of the batch that was opened last.
    pub open spec fn latest_signal(self) -> nat {
        match self.pipeline {
            PipelineView::Idle { prev } => prev,
            PipelineView::Forming { signal, .. } => signal,
        }
    }

    /// Nothing is pending: no batch is open and none is being written.
    pub open spec fn quiescent(self) -> bool {
        self.pipeline is Idle && self.in_flight is None
    }

    /// The signals are numbered without gaps: behind the resolved ones comes
    /// the batch being written, if any, then the open batch, if any. No batch
    /// is empty, and only resolved signals carry failures.
    pub open spec fn wf(self) -> bool {
        &&& self.latest_signal() == self.resolved + (if self.in_flight is Some {
            1nat
        } else {
            0nat
        }) + (if self.pipeline is Forming {
            1nat
        } else {
            0nat
        })
        &&& self.pipeline is Forming ==> self.forming().len() > 0
        &&& self.in_flight is Some ==> self.writing().len() > 0
        &&& forall|id: nat| self.failures.contains_key(id) ==> 1 <= id <= self.resolved
    }

    /// The index is what the journal says, and what is pending will be what
    /// the journal says. Every pending command is one whose record is read
    /// back as that command; and as long as the journal is intact, it ends
    /// where a record ends, it replays without error, and replaying it into an
    /// empty index gives the index the store has.
    pub open spec fn consistent(self) -> bool {
        &&& all_read_back(self.pending())
        &&& self.intact ==> {
            &&& framed(self.journal)
            &&& replay_spec(self.journal) is Ok
            &&& self.index == apply_all(Map::empty(), replay_spec(self.journal)->Ok_0)
        }
    }

    /// What `signal` tells: nothing while it is unresolved, then success or
    /// the failure it was resolved with.
    pub open spec fn outcome(self, signal: nat) -> Option<WriteResult> {
        if signal > self.resolved {
            None
        } else if self.failures.contains_key(signal) {
            Some(Err(self.failures[signal]))
        } else {
            Some(Ok(()))
        }
    }

    /// What the next writer will become.
    pub open spec fn next_role(self) -> RoleView {
        match self.pipeline {
            PipelineView::Idle { prev } => RoleView::Leader { gate: prev, signal: prev + 1 },
            PipelineView::Forming { signal, .. } => RoleView::Follower { signal },
        }
    }

    /// A writer hands in `c`: it joins the open batch, or opens one.
    pub open spec fn submit(self, c: CommandView) -> DbView {
        match self.pipeline {
            PipelineView::Idle { prev } => DbView {
                pipeline: PipelineView::Forming { batch: seq![c], signal: prev + 1 },
                ..self
            },
            PipelineView::Forming { batch, signal } => DbView {
                pipeline: PipelineView::Forming { batch: batch.push(c), signal },
                ..self
            },
        }
    }

    /// Whether the open batch can be closed: there is one, and the batch
    /// before it is through.
    pub open spec fn can_close(self) -> bool {
        self.pipeline is Forming && self.in_flight is None
    }

    /// The leader closes the open batch and takes it along to write it. No
    /// writer can join it any more; the next one opens a new batch.
    pub open spec fn close(self) -> DbView {
        if self.can_close() {
            DbView {
                pipeline: PipelineView::Idle { prev: self.latest_signal() },
                in_flight: Some(self.forming()),
                ..self
            }
        } else {
            self
        }
    }

    /// Whether the writer with `role` is the one to close the open batch now:
    /// it leads that batch, and the batch before it is through.
    pub open spec fn may_close(self, role: RoleView) -> bool {
        &&& role is Leader
        &&& self.can_close()
        &&& role.signal() == self.latest_signal()
    }

    /// Whether the writer with `role` is the one to report on the batch that
    /// is being written: it leads that batch.
    pub open spec fn may_complete(self, role: RoleView) -> bool {
        &&& role is Leader
        &&& self.in_flight is Some
        &&& role.signal() == self.resolved + 1
    }

    /// The leader reports how writing its batch went. On success the batch is
    /// in the journal and is applied to the index, in its order. On failure
    /// nothing of it is applied, the failure is kept for all who wait on the
    /// signal, and the journal is no longer known.
    pub open spec fn complete(self, result: WriteResult) -> DbView {
        match self.in_flight {
            None => self,
            Some(batch) => match result {
                Ok(()) => DbView {
                    index: apply_all(self.index, batch),
                    in_flight: None,
                    resolved: self.resolved + 1,
                    journal: self.journal + batch_bytes(batch),
                    ..self
                },
                Err(e) => DbView {
                    in_flight: None,
                    resolved: self.resolved + 1,
                    failures: self.failures.insert(self.resolved + 1, e),
                    intact: false,
                    ..self
                },
            },
        }
    }
}

/// Something that happens to a store.
pub enum Event {
    /// A writer hands in a command.
    Submit(CommandView),
    /// The leader of the open batch tries to close it.
    Close,
    /// The leader of the batch being written reports how the write went.
    Complete(WriteResult),
}

/// The state after one event. An event that cannot take place (closing with
/// no batch open or with a batch still being written, completing with none
/// being written) changes nothing.
pub open spec fn step(s: DbView, e: Event) -> DbView {
    match e {
        Event::Submit(c) => s.submit(c),
        Event::Close => s.close(),
        Event::Complete(result) => s.complete(result),
    }
}

/// The state after a run of events.
pub open spec fn run(s: DbView, events: Seq<Event>) -> DbView
    decreases events.len(),
{
    if events.len() == 0 {
        s
    } else {
        step(run(s, events.drop_last()), events.last())
    }
}

/// The commands handed in during a run, in the order in which they came.
pub open spec fn submitted(events: Seq<Event>) -> Seq<CommandView>
    decreases events.len(),
{
    if events.len() == 0 {
        Seq::empty()
    } else {
        match events.last() {
            Event::Submit(c) => submitted(events.drop_last()).push(c),
            _ => submitted(events.drop_last()),
        }
    }
}

/// Every write of the run went well.
pub open spec fn all_succeed(events: Seq<Event>) -> bool {
    forall|i: int|
        0 <= i < events.len() ==> ((#[trigger] events[i]) matches Event::Complete(r) ==> r is Ok)
}

/// No write of the run has ended yet.
pub open spec fn none_completes(events: Seq<Event>) -> bool {
    forall|i: int| 0 <= i < events.len() ==> !((#[trigger] events[i]) is Complete)
}

/// Every command handed in during the run is one whose record is read back
/// as that command.
pub open spec fn all_valid(events: Seq<Event>) -> bool {
    forall|i: int|
        0 <= i < events.len() ==> ((#[trigger] events[i]) matches Event::Submit(c)
            ==> strings_read_back(c))
}

/// No leader has closed its batch during the run.
pub open spec fn none_closes(events: Seq<Event>) -> bool {
    forall|i: int| 0 <= i < events.len() ==> !((#[trigger] events[i]) is Close)
}

/// No event breaks the numbering of the signals.
pub proof fn lemma_step_keeps_wf(s: DbView, e: Event)
    requires
        s.wf(),
    ensures
        step(s, e).wf(),
{
}

/// No run breaks the numbering of the signals.
pub proof fn lemma_run_keeps_wf(s: DbView, events: Seq<Event>)
    requires
        s.wf(),
    ensures
        run(s, events).wf(),
    decreases events.len(),
{
    if events.len() > 0 {
        lemma_run_keeps_wf(s, events.drop_last());
        lemma_step_keeps_wf(run(s, events.drop_last()), events.last());
    }
}

/// Nothing is lost, doubled or reordered. As long as every write goes well,
/// the commands that are in the index or on their way to it are, at every
/// moment, exactly those that were there at the start followed by those
/// handed in since, in the order in which they came; and the journal grows by
/// the records of exactly those commands, in that order.
pub proof fn law_commands_keep_their_order(s: DbView, events: Seq<Event>)
    requires
        s.wf(),
        all_succeed(events),
    ensures
        run(s, events).wf(),
        apply_all(run(s, events).index, run(s, events).pending()) == apply_all(
            s.index,
            s.pending() + submitted(events),
        ),
        run(s, events).journal + batch_bytes(run(s, events).pending()) == s.journal + batch_bytes(
            s.pending() + submitted(events),
        ),
        run(s, events).failures == s.failures,
        run(s, events).intact == s.intact,
    decreases events.len(),
{
    if events.len() == 0 {
        assert(s.pending() + submitted(events) =~= s.pending());
    } else {
        let before = events.drop_last();
        let mid = run(s, before);
        let end = run(s, events);
        assert forall|i: int| 0 <= i < before.len() implies ((#[trigger] before[i]) matches Event::Complete(
            r,
        ) ==> r is Ok) by {
            assert(before[i] == events[i]);
        }
        law_commands_keep_their_order(s, before);
        lemma_step_keeps_wf(mid, events.last());
        let all = s.pending() + submitted(before);
        match events.last() {
            Event::Submit(c) => {
                assert(end.pending() =~= mid.pending().push(c));
                assert(s.pending() + submitted(events) =~= all.push(c));
                assert(mid.pending().push(c).drop_last() =~= mid.pending());
                assert(all.push(c).drop_last() =~= all);
                assert(end.journal + batch_bytes(end.pending()) =~= (mid.journal + batch_bytes(
                    mid.pending(),
                )) + record_line(c));
                assert(s.journal + batch_bytes(all.push(c)) =~= (s.journal + batch_bytes(all))
                    + record_line(c));
            },
            Event::Close => {
                assert(end.pending() =~= mid.pending());
            },
            Event::Complete(result) => {
                assert(events[events.len() - 1] == events.last());
                if let Some(batch) = mid.in_flight {
                    assert(mid.pending() =~= batch + end.pending());
                    lemma_apply_all_concat(mid.index, batch, end.pending());
                    lemma_batch_bytes_concat(batch, end.pending());
                    assert(end.journal + batch_bytes(end.pending()) =~= mid.journal + (batch_bytes(
                        batch,
                    ) + batch_bytes(end.pending())));
                }
            },
        }
    }
}

/// Once all is quiet again, every write has landed. After a run in which
/// every write to the journal went well, and at whose start and end nothing
/// is pending: the index is the index of the start with all commands of the
/// run applied in the order in which they were handed in; the journal has
/// grown by exactly their records, in that order; and every signal given out
/// during the run tells of success.
pub proof fn law_settled_run_holds_every_write(s: DbView, events: Seq<Event>)
    requires
        s.wf(),
        s.quiescent(),
        all_succeed(events),
        run(s, events).quiescent(),
    ensures
        run(s, events).index == apply_all(s.index, submitted(events)),
        run(s, events).journal == s.journal + batch_bytes(submitted(events)),
        forall|signal: nat|
            s.latest_signal() < signal <= run(s, events).latest_signal() ==> run(
                s,
                events,
            ).outcome(signal) == Some(Ok::<(), DbError>(())),
{
    let end = run(s, events);
    law_commands_keep_their_order(s, events);
    assert(end.pending() =~= Seq::<CommandView>::empty());
    assert(s.pending() + submitted(events) =~= submitted(events));
    assert(end.journal + batch_bytes(end.pending()) =~= end.journal);
}

/// Reporting on a write keeps the index what the journal says.
pub proof fn lemma_consistent_after_write(s: DbView, result: WriteResult)
    requires
        s.wf(),
        s.consistent(),
    ensures
        s.complete(result).consistent(),
{
    if let Some(batch) = s.in_flight {
        let end = s.complete(result);
        assert(s.pending() =~= batch + end.pending());
        assert forall|i: int| 0 <= i < end.pending().len() implies strings_read_back(
            #[trigger] end.pending()[i],
        ) by {
            assert(s.pending()[batch.len() + i] == end.pending()[i]);
        }
        assert forall|i: int| 0 <= i < batch.len() implies strings_read_back(
            #[trigger] batch[i],
        ) by {
            assert(s.pending()[i] == batch[i]);
        }
        if s.intact && result is Ok {
            lemma_replay_append(s.journal, batch);
            lemma_apply_all_concat(Map::empty(), replay_spec(s.journal)->Ok_0, batch);
        }
    }
}

/// The index is always what the journal says. Whatever happens to a store
/// whose index is what its journal says, it stays so: as long as no write
/// has failed, replaying the journal gives the index.
pub proof fn law_consistency_is_kept(s: DbView, events: Seq<Event>)
    requires
        s.wf(),
        s.consistent(),
        all_valid(events),
    ensures
        run(s, events).wf(),
        run(s, events).consistent(),
    decreases events.len(),
{
    if events.len() > 0 {
        let before = events.drop_last();
        let mid = run(s, before);
        let end = run(s, events);
        assert forall|i: int| 0 <= i < before.len() implies ((#[trigger] before[i]) matches Event::Submit(
            c,
        ) ==> strings_read_back(c)) by {
            assert(before[i] == events[i]);
        }
        law_consistency_is_kept(s, before);
        lemma_step_keeps_wf(mid, events.last());
        assert(events[events.len() - 1] == events.last());
        match events.last() {
            Event::Submit(c) => {
                assert(end.pending() =~= mid.pending().push(c));
            },
            Event::Close => {
                assert(end.pending() =~= mid.pending());
            },
            Event::Complete(result) => {
                lemma_consistent_after_write(mid, result);
            },
        }
    }
}

/// What was acknowledged is there after reopening. Take a store whose index
/// is what its intact journal says, and a run in which every write to the
/// journal goes well and at whose start and end nothing is pending. A store
/// opened on the journal as it is at the end has the index of the start with
/// exactly the commands of the run applied, in the order in which they were
/// handed in.
pub proof fn law_reopening_restores_every_write(s: DbView, events: Seq<Event>)
    requires
        s.wf(),
        s.consistent(),
        s.intact,
        s.quiescent(),
        all_valid(events),
        all_succeed(events),
        run(s, events).quiescent(),
    ensures
        replay_spec(run(s, events).journal) is Ok,
        run(s, events).journal == s.journal + batch_bytes(submitted(events)),
        DbView::opened(
            run(s, events).journal,
            replay_spec(run(s, events).journal)->Ok_0,
        ).index == apply_all(s.index, submitted(events)),
        DbView::opened(
            run(s, events).journal,
            replay_spec(run(s, events).journal)->Ok_0,
        ).index == run(s, events).index,
{
    law_settled_run_holds_every_write(s, events);
    law_commands_keep_their_order(s, events);
    law_consistency_is_kept(s, events);
}

/// Writers of distinct keys all find their value. After a settled run (as
/// above) whose commands are about pairwise distinct keys, each key holds
/// what its command left it with: no key is missing, none has a value from
/// another command.
pub proof fn law_distinct_writes_all_land(s: DbView, events: Seq<Event>, i: int)
    requires
        s.wf(),
        s.quiescent(),
        all_succeed(events),
        run(s, events).quiescent(),
        distinct_keys(submitted(events)),
        0 <= i < submitted(events).len(),
    ensures
        lookup(run(s, events).index, submitted(events)[i].key()) == leaves(submitted(events)[i]),
{
    law_settled_run_holds_every_write(s, events);
    lemma_last_write_wins(s.index, submitted(events), i);
}

/// One write at a time. While a batch is being written no other batch can
/// be closed, so no second write to the journal can begin; the open batch
/// keeps taking writers meanwhile.
pub proof fn law_one_write_at_a_time(s: DbView, c: CommandView)
    requires
        s.wf(),
        s.in_flight is Some,
    ensures
        s.close() == s,
        s.submit(c).in_flight == s.in_flight,
        s.submit(c).forming() == s.forming().push(c),
{
    assert(seq![c] =~= Seq::<CommandView>::empty().push(c));
}

/// A failed batch leaves no trace in the index, and all its writers hear the
/// same. When the write of a batch fails, the index stays as it was, so no
/// command of the batch can be seen; and the batch's signal, which its leader
/// and every follower hold, tells that failure.
pub proof fn law_failed_batch_is_not_applied(s: DbView, e: DbError)
    requires
        s.wf(),
        s.in_flight is Some,
    ensures
        s.complete(Err(e)).index == s.index,
        s.complete(Err(e)).outcome(s.resolved + 1) == Some(Err::<(), DbError>(e)),
        s.outcome(s.resolved + 1) is None,
{
}

/// A signal is resolved once: what it tells never changes afterwards.
pub proof fn law_outcome_is_final(s: DbView, e: Event, signal: nat)
    requires
        s.wf(),
        s.outcome(signal) is Some,
    ensures
        step(s, e).outcome(signal) == s.outcome(signal),
{
}

/// No writer hears of success before its batch is on disk: a signal is
/// unresolved until the write of its batch has ended, and it tells success
/// only if that write went well.
pub proof fn law_no_answer_before_the_write(s: DbView, e: Event, signal: nat)
    requires
        s.wf(),
        s.outcome(signal) is None,
        step(s, e).outcome(signal) is Some,
    ensures
        signal == s.resolved + 1,
        s.in_flight is Some,
        e matches Event::Complete(result) && step(s, e).outcome(signal) == Some(result),
{
    match e {
        Event::Complete(result) => {
            match result {
                Ok(done) => {
                    assert(done == ());
                },
                Err(cause) => {},
            }
        },
        _ => {},
    }
}

/// Batching bounds the number of writes. Of a run that starts with nothing
/// pending and in which no write ends, however many commands are handed in:
/// all of them are pending, they lie in at most two batches (one being
/// written, one open) and in no more batches than there are commands, and no
/// signal of the run is resolved. Each batch costs one write and one sync, so
/// three or more such writers share at most two.
pub proof fn law_waiting_writers_share_batches(s: DbView, events: Seq<Event>)
    requires
        s.wf(),
        s.quiescent(),
        none_completes(events),
    ensures
        run(s, events).pending() == submitted(events),
        run(s, events).latest_signal() - s.latest_signal() <= 2,
        run(s, events).latest_signal() - s.latest_signal() <= submitted(events).len(),
        submitted(events).len() >= 3 ==> run(s, events).latest_signal() - s.latest_signal()
            < submitted(events).len(),
        run(s, events).resolved == s.resolved,
        forall|signal: nat| s.latest_signal() < signal ==> run(s, events).outcome(signal) is None,
    decreases events.len(),
{
    if events.len() == 0 {
        assert(s.pending() =~= submitted(events));
    } else {
        let before = events.drop_last();
        let mid = run(s, before);
        let end = run(s, events);
        assert forall|i: int| 0 <= i < before.len() implies !((#[trigger] before[i]) is Complete) by {
            assert(before[i] == events[i]);
        }
        law_waiting_writers_share_batches(s, before);
        lemma_run_keeps_wf(s, before);
        lemma_run_keeps_wf(s, events);
        assert(events[events.len() - 1] == events.last());
        match events.last() {
            Event::Submit(c) => {
                assert(end.pending() =~= mid.pending().push(c));
            },
            Event::Close => {
                assert(end.pending() =~= mid.pending());
            },
            Event::Complete(_) => {},
        }
    }
}

/// Writers that all come before the leader closes its batch share one batch,
/// and so one write and one sync.
pub proof fn law_early_writers_share_one_batch(s: DbView, events: Seq<Event>)
    requires
        s.wf(),
        s.quiescent(),
        none_completes(events),
        none_closes(events),
        submitted(events).len() > 0,
    ensures
        run(s, events).pipeline == (PipelineView::Forming {
            batch: submitted(events),
            signal: s.latest_signal() + 1,
        }),
        run(s, events).in_flight is None,
        run(s, events).latest_signal() - s.latest_signal() == 1,
        submitted(events).len() >= 2 ==> run(s, events).latest_signal() - s.latest_signal()
            < submitted(events).len(),
    decreases events.len(),
{
    let before = events.drop_last();
    let mid = run(s, before);
    assert forall|i: int| 0 <= i < before.len() implies !((#[trigger] before[i]) is Complete) by {
        assert(before[i] == events[i]);
    }
    assert forall|i: int| 0 <= i < before.len() implies !((#[trigger] before[i]) is Close) by {
        assert(before[i] == events[i]);
    }
    assert(events[events.len() - 1] == events.last());
    if submitted(before).len() > 0 {
        law_early_writers_share_one_batch(s, before);
    } else {
        lemma_no_submit_no_change(s, before);
    }
    match events.last() {
        Event::Submit(c) => {
            if submitted(before).len() == 0 {
                assert(submitted(events) =~= seq![c]);
            }
        },
        _ => {},
    }
}

/// A run in which nothing is handed in, closed or completed changes nothing.
proof fn lemma_no_submit_no_change(s: DbView, events: Seq<Event>)
    requires
        none_completes(events),
        none_closes(events),
        submitted(events).len() == 0,
    ensures
        run(s, events) == s,
    decreases events.len(),
{
    if events.len() > 0 {
        let before = events.drop_last();
        assert forall|i: int| 0 <= i < before.len() implies !((#[trigger] before[i]) is Complete) by {
            assert(before[i] == events[i]);
        }
        assert forall|i: int| 0 <= i < before.len() implies !((#[trigger] before[i]) is Close) by {
            assert(before[i] == events[i]);
        }
        assert(events[events.len() - 1] == events.last());
        lemma_no_submit_no_change(s, before);
    }
}

} // verus!
