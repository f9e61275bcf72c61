//! The two mutations the store knows, and what each does to a mapping.

use vstd::prelude::*;

verus! {

/// A mutation of the store.
#[derive(Debug, Clone, PartialEq, Eq)]
pub enum Command {
    /// Bind the key (first field) to the value (second field).
    Put(String, String),
    /// Remove the key's binding, if it has one.
    Delete(String),
}

/// The mathematical content of a [`Command`].
pub enum CommandView {
    Put(Seq<char>, Seq<char>),
    Delete(Seq<char>),
}

impl View for Command {
    type V = CommandView;

    open spec fn view(&self) -> CommandView {
        match self {
            Command::Put(k, v) => CommandView::Put(k@, v@),
            Command::Delete(k) => CommandView::Delete(k@),
        }
    }
}

impl CommandView {
    /// The key this command is about.
    pub open spec fn key(self) -> Seq<char> {
        match self {
            CommandView::Put(k, _) => k,
            CommandView::Delete(k) => k,
        }
    }

    /// The mapping after this command: `Put` is an upsert, `Delete` removes
    /// the key if it is there and changes nothing if it is not.
    pub open spec fn apply(self, m: Map<Seq<char>, Seq<char>>) -> Map<Seq<char>, Seq<char>> {
        match self {
            CommandView::Put(k, v) => m.insert(k, v),
            CommandView::Delete(k) => m.remove(k),
        }
    }
}

/// The mapping after a whole sequence of commands, applied first to last.
pub open spec fn apply_all(m: Map<Seq<char>, Seq<char>>, cmds: Seq<CommandView>) -> Map<
    Seq<char>,
    Seq<char>,
>
    decreases cmds.len(),
{
    if cmds.len() == 0 {
        m
    } else {
        cmds.last().apply(apply_all(m, cmds.drop_last()))
    }
}

/// The views of a sequence of commands, in order.
pub open spec fn views(cmds: Seq<Command>) -> Seq<CommandView> {
    Seq::new(cmds.len(), |i: int| cmds[i]@)
}

impl Command {
    /// A copy of this command.
    pub fn duplicate(&self) -> (r: Command)
        ensures
            r@ == self@,
    {
        match self {
            Command::Put(k, v) => Command::Put(k.clone(), v.clone()),
            Command::Delete(k) => Command::Delete(k.clone()),
        }
    }
}

/// What `m` holds for `k`, if anything.
pub open spec fn lookup(m: Map<Seq<char>, Seq<char>>, k: Seq<char>) -> Option<Seq<char>> {
    if m.contains_key(k) {
        Some(m[k])
    } else {
        None
    }
}

/// Whether some command of `cmds` is about `k`.
pub open spec fn touches(cmds: Seq<CommandView>, k: Seq<char>) -> bool {
    exists|i: int| 0 <= i < cmds.len() && (#[trigger] cmds[i]).key() == k
}

/// Whether no two commands of `cmds` are about the same key.
pub open spec fn distinct_keys(cmds: Seq<CommandView>) -> bool {
    forall|i: int, j: int|
        0 <= i < j < cmds.len() ==> (#[trigger] cmds[i]).key() != (#[trigger] cmds[j]).key()
}

/// What a key is left with by the command `c` if `c` is about that key.
pub open spec fn leaves(c: CommandView) -> Option<Seq<char>> {
    match c {
        CommandView::Put(_, v) => Some(v),
        CommandView::Delete(_) => None,
    }
}

/// Applying one run of commands and then another is applying the two runs
/// joined.
pub proof fn lemma_apply_all_concat(
    m: Map<Seq<char>, Seq<char>>,
    a: Seq<CommandView>,
    b: Seq<CommandView>,
)
    ensures
        apply_all(m, a + b) == apply_all(apply_all(m, a), b),
    decreases b.len(),
{
    if b.len() == 0 {
        assert(a + b =~= a);
    } else {
        assert((a + b).drop_last() =~= a + b.drop_last());
        lemma_apply_all_concat(m, a, b.drop_last());
    }
}

/// A key that no command is about keeps what it had; a key that some command
/// is about ends with what the commands give it, whatever it had before.
pub proof fn lemma_apply_all_at(
    m1: Map<Seq<char>, Seq<char>>,
    m2: Map<Seq<char>, Seq<char>>,
    cmds: Seq<CommandView>,
    k: Seq<char>,
)
    ensures
        touches(cmds, k) ==> lookup(apply_all(m1, cmds), k) == lookup(apply_all(m2, cmds), k),
        !touches(cmds, k) ==> lookup(apply_all(m1, cmds), k) == lookup(m1, k),
    decreases cmds.len(),
{
    if cmds.len() > 0 {
        let init = cmds.drop_last();
        lemma_apply_all_at(m1, m2, init, k);
        if cmds.last().key() == k {
            assert(cmds[cmds.len() - 1].key() == k);
        } else {
            if touches(cmds, k) {
                let i = choose|i: int| 0 <= i < cmds.len() && (#[trigger] cmds[i]).key() == k;
                assert(init[i].key() == k);
            }
            if touches(init, k) {
                let i = choose|i: int| 0 <= i < init.len() && (#[trigger] init[i]).key() == k;
                assert(cmds[i].key() == k);
            }
        }
    }
}

/// The last command about a key decides what the key ends with.
pub proof fn lemma_last_write_wins(m: Map<Seq<char>, Seq<char>>, cmds: Seq<CommandView>, i: int)
    requires
        0 <= i < cmds.len(),
        forall|j: int| i < j < cmds.len() ==> (#[trigger] cmds[j]).key() != cmds[i].key(),
    ensures
        lookup(apply_all(m, cmds), cmds[i].key()) == leaves(cmds[i]),
    decreases cmds.len(),
{
    if i < cmds.len() - 1 {
        let init = cmds.drop_last();
        assert(cmds[cmds.len() - 1].key() != cmds[i].key());
        assert forall|j: int| i < j < init.len() implies (#[trigger] init[j]).key()
            != init[i].key() by {
            assert(cmds[j].key() != cmds[i].key());
        }
        lemma_last_write_wins(m, init, i);
    }
}

/// Applying a run of commands a second time, over its own result, changes
/// nothing.
pub proof fn lemma_apply_all_twice(m: Map<Seq<char>, Seq<char>>, cmds: Seq<CommandView>)
    ensures
        apply_all(apply_all(m, cmds), cmds) == apply_all(m, cmds),
{
    let once = apply_all(m, cmds);
    let twice = apply_all(once, cmds);
    assert forall|k: Seq<char>| lookup(twice, k) == lookup(once, k) by {
        lemma_apply_all_at(once, m, cmds, k);
    }
    assert forall|k: Seq<char>| twice.contains_key(k) == once.contains_key(k) by {
        assert(lookup(twice, k) == lookup(once, k));
    }
    assert forall|k: Seq<char>| twice.contains_key(k) implies twice[k] == once[k] by {
        assert(lookup(twice, k) == lookup(once, k));
    }
    assert(twice =~= once);
}

} // verus!
