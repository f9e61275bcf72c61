//! The store: an index, the journal's record of it, and the pipeline that
//! gathers writers into batches.
//!
//! The store never touches a file. Whoever drives it reads the journal and
//! hands its bytes to [`Db::new`]; takes from [`Db::close_batch`] the bytes to
//! append, appends them and forces them to disk; and tells [`Db::complete`]
//! how that went. Between those calls the store decides everything else: who
//! leads, who follows, what goes into which batch, what reaches the index,
//! and what each writer is told.

use crate::command::{apply_all, views, Command, CommandView};
use crate::error::DbError;
use crate::index::Index;
use crate::journal::{batch_bytes, lemma_batch_bytes_push, replay, replay_spec};
use crate::model::{lemma_consistent_after_write, DbView, PipelineView, RoleView};
use crate::record::{encode_record, NEWLINE};
use vstd::prelude::*;

verus! {

/// The token that tells the writers of one batch how the batch fared. It is
/// resolved once, by the batch's leader, and read by all who wait on it.
#[derive(Clone, Copy, Debug, PartialEq, Eq)]
pub struct CommitSignal {
    id: u64,
}

impl View for CommitSignal {
    type V = nat;

    closed spec fn view(&self) -> nat {
        self.id as nat
    }
}

impl CommitSignal {
    /// The number of the batch this signal belongs to.
    pub fn id(&self) -> (r: u64)
        ensures
            r == self@,
    {
        self.id
    }
}

/// What a writer has become by handing in its command: the leader of a batch
/// or a follower of one. Only the store hands out roles.
#[derive(Clone, Copy, Debug, PartialEq, Eq)]
pub struct Role {
    leader: bool,
    gate: CommitSignal,
    signal: CommitSignal,
}

impl View for Role {
    type V = RoleView;

    closed spec fn view(&self) -> RoleView {
        if self.leader {
            RoleView::Leader { gate: self.gate@, signal: self.signal@ }
        } else {
            RoleView::Follower { signal: self.signal@ }
        }
    }
}

impl Role {
    /// The signal that tells this writer how its command fared.
    pub fn signal(&self) -> (r: CommitSignal)
        ensures
            r@ == self@.signal(),
    {
        self.signal
    }

    /// Whether this writer leads its batch.
    pub fn is_leader(&self) -> (r: bool)
        ensures
            r == (self@ is Leader),
    {
        self.leader
    }

    /// The signal a leader waits for before it writes: that of the batch
    /// before its own. A follower has none.
    pub fn gate(&self) -> (r: Option<CommitSignal>)
        ensures
            match self@ {
                RoleView::Leader { gate, .. } => r matches Some(g) && g@ == gate,
                RoleView::Follower { .. } => r is None,
            },
    {
        if self.leader {
            Some(self.gate)
        } else {
            None
        }
    }
}

/// Whether a batch is open; see [`PipelineView`]. An open batch is kept
/// together with the bytes it will add to the journal.
enum PipelineState {
    Idle { prev: CommitSignal },
    Forming { batch: Vec<Command>, bytes: Vec<u8>, signal: CommitSignal },
}

/// A resolved signal that carries a failure.
struct Failure {
    signal: u64,
    cause: DbError,
}

/// The failures as a mapping from signal to cause; a later entry for a
/// signal would replace an earlier one.
spec fn failure_map(failures: Seq<Failure>) -> Map<nat, DbError>
    decreases failures.len(),
{
    if failures.len() == 0 {
        Map::empty()
    } else {
        failure_map(failures.drop_last()).insert(
            failures.last().signal as nat,
            failures.last().cause,
        )
    }
}

/// The failures are kept in the order of their signals, one for each.
spec fn ascending(failures: Seq<Failure>) -> bool {
    forall|i: int, j: int|
        0 <= i < j < failures.len() ==> (#[trigger] failures[i]).signal < (
        #[trigger] failures[j]).signal
}

/// The mapping has an entry for exactly the signals in the list.
proof fn lemma_failure_map_keys(failures: Seq<Failure>, id: nat)
    ensures
        failure_map(failures).contains_key(id) <==> exists|i: int|
            0 <= i < failures.len() && (#[trigger] failures[i]).signal == id,
    decreases failures.len(),
{
    if failures.len() > 0 {
        let init = failures.drop_last();
        lemma_failure_map_keys(init, id);
        if failure_map(failures).contains_key(id) {
            if failures.last().signal == id {
                assert(failures[failures.len() - 1].signal == id);
            } else {
                let i = choose|i: int| 0 <= i < init.len() && (#[trigger] init[i]).signal == id;
                assert(failures[i].signal == id);
            }
        }
        if exists|i: int| 0 <= i < failures.len() && (#[trigger] failures[i]).signal == id {
            let i = choose|i: int| 0 <= i < failures.len() && (#[trigger] failures[i]).signal == id;
            if i < init.len() {
                assert(init[i].signal == id);
            }
        }
    }
}

/// In a list that holds each signal once, every entry is the mapping's
/// entry for its signal.
proof fn lemma_failure_map_entry(failures: Seq<Failure>, i: int)
    requires
        ascending(failures),
        0 <= i < failures.len(),
    ensures
        failure_map(failures).contains_key(failures[i].signal as nat),
        failure_map(failures)[failures[i].signal as nat] == failures[i].cause,
    decreases failures.len(),
{
    if i < failures.len() - 1 {
        let init = failures.drop_last();
        assert(failures[i].signal < failures[failures.len() - 1].signal);
        assert forall|a: int, b: int| 0 <= a < b < init.len() implies (#[trigger] init[a]).signal < (
        #[trigger] init[b]).signal by {
            assert(failures[a].signal < failures[b].signal);
        }
        lemma_failure_map_entry(init, i);
    }
}

/// The failure that signal `id` carries, if it carries one.
fn find_failure(failures: &Vec<Failure>, id: u64) -> (r: Option<DbError>)
    requires
        ascending(failures@),
    ensures
        match r {
            Some(e) => failure_map(failures@).contains_key(id as nat) && failure_map(
                failures@,
            )[id as nat] == e,
            None => !failure_map(failures@).contains_key(id as nat),
        },
{
    let mut i: usize = 0;
    while i < failures.len()
        invariant
            i <= failures.len(),
            ascending(failures@),
            forall|j: int| 0 <= j < i ==> (#[trigger] failures@[j]).signal != id,
        decreases failures.len() - i,
    {
        if failures[i].signal == id {
            proof {
                lemma_failure_map_entry(failures@, i as int);
            }
            return Some(failures[i].cause.duplicate());
        }
        i += 1;
    }
    proof {
        lemma_failure_map_keys(failures@, id as nat);
    }
    None
}

/// A key-value store whose every acknowledged write is in its journal.
pub struct Db {
    index: Index,
    state: PipelineState,
    in_flight: Option<Vec<Command>>,
    resolved: u64,
    failures: Vec<Failure>,
    journal: Ghost<Seq<u8>>,
    intact: bool,
}

impl View for Db {
    type V = DbView;

    closed spec fn view(&self) -> DbView {
        DbView {
            index: self.index@,
            pipeline: match self.state {
                PipelineState::Idle { prev } => PipelineView::Idle { prev: prev@ },
                PipelineState::Forming { batch, signal, .. } => PipelineView::Forming {
                    batch: views(batch@),
                    signal: signal@,
                },
            },
            in_flight: match self.in_flight {
                Some(batch) => Some(views(batch@)),
                None => None,
            },
            resolved: self.resolved as nat,
            failures: failure_map(self.failures@),
            journal: self.journal@,
            intact: self.intact,
        }
    }
}

impl Db {
    /// What every store satisfies: the state is well formed, the index is
    /// what the journal says, each signal has at most one failure, and the
    /// bytes kept with the open batch are the batch's record lines.
    #[verifier::type_invariant]
    spec fn inv(self) -> bool {
        &&& self@.wf()
        &&& self@.consistent()
        &&& ascending(self.failures@)
        &&& forall|i: int|
            0 <= i < self.failures@.len() ==> (#[trigger] self.failures@[i]).signal <= self.resolved
        &&& self.state matches PipelineState::Forming { batch, bytes, .. } ==> bytes@ == batch_bytes(
            views(batch@),
        )
    }

    /// An idle store over an empty journal; stands in while a store is being
    /// rebuilt.
    fn placeholder() -> (r: Db)
        ensures
            r@ == DbView::opened(Seq::empty(), Seq::empty()),
    {
        Db {
            index: Index::new(),
            state: PipelineState::Idle { prev: CommitSignal { id: 0 } },
            in_flight: None,
            resolved: 0,
            failures: Vec::new(),
            journal: Ghost(Seq::empty()),
            intact: true,
        }
    }

    /// Rebuilds an index from a journal: every command of the journal's
    /// complete lines is applied, in order, to an empty index. Fails with
    /// `Corruption` exactly when a complete line is no record.
    pub fn replay_log(log: &[u8]) -> (r: Result<Index, DbError>)
        ensures
            match r {
                Ok(index) => replay_spec(log@) is Ok && index@ == apply_all(
                    Map::empty(),
                    replay_spec(log@)->Ok_0,
                ),
                Err(e) => e matches DbError::Corruption { record } && replay_spec(log@) == Err::<
                    Seq<CommandView>,
                    nat,
                >(record as nat),
            },
    {
        match replay(log) {
            Ok(cmds) => {
                let mut index = Index::new();
                index.apply_batch(&cmds);
                Ok(index)
            },
            Err(e) => Err(e),
        }
    }

    /// Opens a store on a journal that holds `log`. The index is rebuilt by
    /// replaying the journal; the pipeline is idle, with nothing to wait for.
    /// Fails with `Corruption` exactly when a complete line of the journal is
    /// no record; a torn tail is no error.
    pub fn new(log: &[u8]) -> (r: Result<Db, DbError>)
        ensures
            match r {
                Ok(db) => {
                    &&& replay_spec(log@) is Ok
                    &&& db@ == DbView::opened(log@, replay_spec(log@)->Ok_0)
                    &&& db@.wf()
                    &&& db@.consistent()
                },
                Err(e) => e matches DbError::Corruption { record } && replay_spec(log@) == Err::<
                    Seq<CommandView>,
                    nat,
                >(record as nat),
            },
    {
        match Db::replay_log(log) {
            Ok(index) => Ok(
                Db {
                    index,
                    state: PipelineState::Idle { prev: CommitSignal { id: 0 } },
                    in_flight: None,
                    resolved: 0,
                    failures: Vec::new(),
                    journal: Ghost(log@),
                    intact: log.len() == 0 || log[log.len() - 1] == NEWLINE,
                },
            ),
            Err(e) => Err(e),
        }
    }

    /// What holds of every store at every moment: its signals are numbered
    /// without gaps, and its index is what its journal says. Does nothing.
    pub fn audit(&self)
        ensures
            self@.wf(),
            self@.consistent(),
    {
        proof {
            use_type_invariant(self);
        }
    }

    /// Whether the journal is known to hold exactly what the store has been
    /// told of: it ended where a record ends when the store was opened, and
    /// no write has failed since. Only then is the journal sure to replay as
    /// the index.
    pub fn intact(&self) -> (r: bool)
        ensures
            r == self@.intact,
    {
        self.intact
    }

    /// The value of `key`, if it has one. Reads the index only: neither the
    /// journal nor the pipeline is involved, and nothing changes.
    pub fn get(&self, key: &str) -> (r: Option<String>)
        ensures
            r is Some <==> self@.index.contains_key(key@),
            r matches Some(v) ==> v@ == self@.index[key@],
    {
        self.index.get(key)
    }

    /// The signal of the batch that was opened last.
    pub fn latest_signal(&self) -> (r: CommitSignal)
        ensures
            r@ == self@.latest_signal(),
    {
        match &self.state {
            PipelineState::Idle { prev } => *prev,
            PipelineState::Forming { signal, .. } => *signal,
        }
    }

    /// What `signal` tells: `None` while its batch is not through, then
    /// `Ok` if the batch is in the journal and the index, or the failure that
    /// kept it out of both.
    pub fn outcome(&self, signal: &CommitSignal) -> (r: Option<Result<(), DbError>>)
        ensures
            r == self@.outcome(signal@),
    {
        proof {
            use_type_invariant(self);
        }
        if signal.id > self.resolved {
            None
        } else {
            match find_failure(&self.failures, signal.id) {
                Some(e) => Some(Err(e)),
                None => Some(Ok(())),
            }
        }
    }

    /// Hands in a command. If a batch is open the command joins it, behind
    /// those already there, and the caller follows that batch's leader.
    /// Otherwise the command opens a new batch, whose leader the caller
    /// becomes. The command's record is made at once and kept with the
    /// batch; nothing is written yet and the index does not change.
    ///
    /// Signals are numbered by a `u64`; a store that has used them all up
    /// takes no further batch.
    pub fn submit(&mut self, cmd: Command) -> (role: Role)
        requires
            old(self)@.latest_signal() < u64::MAX,
        ensures
            final(self)@ == old(self)@.submit(cmd@),
            role@ == old(self)@.next_role(),
            final(self)@.wf(),
            final(self)@.consistent(),
    {
        proof {
            use_type_invariant(&*self);
        }
        let line = encode_record(&cmd);
        let mut taken = Db::placeholder();
        std::mem::swap(self, &mut taken);
        let Db { index, state, in_flight, resolved, failures, journal, intact } = taken;
        let ghost before = old(self)@;
        match state {
            PipelineState::Idle { prev } => {
                let signal = CommitSignal { id: prev.id + 1 };
                let mut batch: Vec<Command> = Vec::new();
                batch.push(cmd);
                proof {
                    assert(views(batch@) =~= seq![cmd@]);
                    lemma_batch_bytes_push(Seq::empty(), cmd@);
                    assert(before.submit(cmd@).pending() =~= before.pending().push(cmd@));
                }
                *self =
                Db {
                    index,
                    state: PipelineState::Forming { batch, bytes: line, signal },
                    in_flight,
                    resolved,
                    failures,
                    journal,
                    intact,
                };
                Role { leader: true, gate: prev, signal }
            },
            PipelineState::Forming { batch, bytes, signal } => {
                let mut batch = batch;
                let mut bytes = bytes;
                let mut line = line;
                let ghost open = views(batch@);
                batch.push(cmd);
                bytes.append(&mut line);
                proof {
                    assert(views(batch@) =~= open.push(cmd@));
                    lemma_batch_bytes_push(open, cmd@);
                    assert(before.submit(cmd@).pending() =~= before.pending().push(cmd@));
                }
                *self =
                Db {
                    index,
                    state: PipelineState::Forming { batch, bytes, signal },
                    in_flight,
                    resolved,
                    failures,
                    journal,
                    intact,
                };
                Role { leader: false, gate: signal, signal }
            },
        }
    }

    /// Hands in the command that binds `key` to `value`.
    pub fn set(&mut self, key: &str, value: &str) -> (role: Role)
        requires
            old(self)@.latest_signal() < u64::MAX,
        ensures
            final(self)@ == old(self)@.submit(CommandView::Put(key@, value@)),
            role@ == old(self)@.next_role(),
            final(self)@.wf(),
            final(self)@.consistent(),
    {
        self.submit(Command::Put(key.to_owned(), value.to_owned()))
    }

    /// Hands in the command that removes `key`.
    pub fn delete(&mut self, key: &str) -> (role: Role)
        requires
            old(self)@.latest_signal() < u64::MAX,
        ensures
            final(self)@ == old(self)@.submit(CommandView::Delete(key@)),
            role@ == old(self)@.next_role(),
            final(self)@.wf(),
            final(self)@.consistent(),
    {
        self.submit(Command::Delete(key.to_owned()))
    }

    /// The leader's turn to write. If `role` leads the open batch and the
    /// batch before it is through, the batch is closed and the bytes to
    /// append to the journal are returned: one record line per command, in the
    /// order in which the commands came. Writers that come from now on open a
    /// new batch. In every other case nothing changes and `None` is returned:
    /// a leader that gets `None` waits for its gate and asks again.
    pub fn close_batch(&mut self, role: &Role) -> (r: Option<Vec<u8>>)
        ensures
            old(self)@.may_close(role@) ==> final(self)@ == old(self)@.close(),
            old(self)@.may_close(role@) ==> r is Some && r->Some_0@ == batch_bytes(
                old(self)@.forming(),
            ),
            !old(self)@.may_close(role@) ==> final(self)@ == old(self)@ && r is None,
            final(self)@.wf(),
            final(self)@.consistent(),
    {
        proof {
            use_type_invariant(&*self);
        }
        if !role.is_leader() || self.in_flight.is_some() {
            return None;
        }
        let mut taken = Db::placeholder();
        std::mem::swap(self, &mut taken);
        let Db { index, state, in_flight, resolved, failures, journal, intact } = taken;
        let ghost before = old(self)@;
        match state {
            PipelineState::Forming { batch, bytes, signal } => {
                if role.signal().id == signal.id {
                    proof {
                        assert(before.close().pending() =~= before.pending());
                    }
                    *self =
                    Db {
                        index,
                        state: PipelineState::Idle { prev: signal },
                        in_flight: Some(batch),
                        resolved,
                        failures,
                        journal,
                        intact,
                    };
                    Some(bytes)
                } else {
                    *self =
                    Db {
                        index,
                        state: PipelineState::Forming { batch, bytes, signal },
                        in_flight,
                        resolved,
                        failures,
                        journal,
                        intact,
                    };
                    None
                }
            },
            PipelineState::Idle { prev } => {
                *self =
                Db {
                    index,
                    state: PipelineState::Idle { prev },
                    in_flight,
                    resolved,
                    failures,
                    journal,
                    intact,
                };
                None
            },
        }
    }

    /// The leader's report. `result` says how appending the bytes of the
    /// batch being written, and forcing them to disk, went. If `role` leads
    /// that batch, its signal is resolved with `result`: on `Ok` every
    /// command of the batch is applied to the index, in order; on `Err`
    /// none is, and all who wait on the signal will be told the failure. In
    /// every other case nothing changes.
    pub fn complete(&mut self, role: &Role, result: Result<(), DbError>)
        ensures
            old(self)@.may_complete(role@) ==> final(self)@ == old(self)@.complete(result),
            !old(self)@.may_complete(role@) ==> final(self)@ == old(self)@,
            final(self)@.wf(),
            final(self)@.consistent(),
    {
        proof {
            use_type_invariant(&*self);
        }
        let id = role.signal().id;
        if !role.is_leader() || self.in_flight.is_none() || id == 0 || id - 1 != self.resolved {
            return ;
        }
        let mut taken = Db::placeholder();
        std::mem::swap(self, &mut taken);
        let Db { index, state, in_flight, resolved, failures, journal, intact } = taken;
        let batch = in_flight.unwrap();
        match result {
            Ok(done) => {
                let mut index = index;
                let ghost before = index@;
                index.apply_batch(&batch);
                proof {
                    assert(done == ());
                    lemma_consistent_after_write(old(self)@, result);
                }
                *self =
                Db {
                    index,
                    state,
                    in_flight: None,
                    resolved: resolved + 1,
                    failures,
                    journal: Ghost(journal@ + batch_bytes(views(batch@))),
                    intact,
                };
            },
            Err(cause) => {
                let mut failures = failures;
                let ghost before = failures@;
                failures.push(Failure { signal: resolved + 1, cause });
                proof {
                    assert(failures@.drop_last() =~= before);
                    lemma_consistent_after_write(old(self)@, result);
                }
                *self =
                Db {
                    index,
                    state,
                    in_flight: None,
                    resolved: resolved + 1,
                    failures,
                    journal,
                    intact: false,
                };
            },
        }
    }
}

} // verus!
