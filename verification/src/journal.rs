//! The journal: an append-only file of records, one per line.
//!
//! Nothing here touches a file. What is read from the journal comes in as
//! bytes, what is to be appended goes out as bytes.
//!
//! A record counts once its line feed is there. Whatever follows the last
//! line feed is the rest of a write that a crash cut short; it is passed
//! over in silence. A complete line that is no record is corruption.

use crate::command::{apply_all, lemma_apply_all_twice, views, Command, CommandView};
use crate::error::DbError;
use crate::record::{
    all_read_back, decode_record, encode_record, lemma_record_parses_back,
    lemma_record_text_has_no_newline, parse_record, record_line, record_text, strings_read_back,
    NEWLINE,
};
use vstd::prelude::*;
use vstd::slice::slice_subrange;

verus! {

/// Whether `bytes` holds no line feed.
pub open spec fn no_newline(bytes: Seq<u8>) -> bool {
    forall|j: int| 0 <= j < bytes.len() ==> bytes[j] != NEWLINE
}

/// What follows the last line feed of `log` (all of `log` if it has none).
pub open spec fn torn_tail(log: Seq<u8>) -> Seq<u8>
    decreases log.len(),
{
    if log.len() == 0 || log.last() == NEWLINE {
        Seq::<u8>::empty()
    } else {
        torn_tail(log.drop_last()).push(log.last())
    }
}

/// The complete lines of `log`, in order, each without its line feed.
pub open spec fn complete_lines(log: Seq<u8>) -> Seq<Seq<u8>>
    decreases log.len(),
{
    if log.len() == 0 {
        Seq::<Seq<u8>>::empty()
    } else if log.last() == NEWLINE {
        complete_lines(log.drop_last()).push(torn_tail(log.drop_last()))
    } else {
        complete_lines(log.drop_last())
    }
}

/// Whether `log` ends where a record ends: it is empty, or its last byte is a
/// line feed.
pub open spec fn framed(log: Seq<u8>) -> bool {
    log.len() == 0 || log.last() == NEWLINE
}

/// Reading `lines` as records, first to last: the commands they stand for,
/// or the index of the first line that is no record.
pub open spec fn replay_lines(lines: Seq<Seq<u8>>) -> Result<Seq<CommandView>, nat>
    decreases lines.len(),
{
    if lines.len() == 0 {
        Ok(Seq::<CommandView>::empty())
    } else {
        match replay_lines(lines.drop_last()) {
            Err(i) => Err(i),
            Ok(cmds) => match parse_record(lines.last()) {
                Some(c) => Ok(cmds.push(c)),
                None => Err((lines.len() - 1) as nat),
            },
        }
    }
}

/// What a journal that holds `log` stands for: the commands of its complete
/// lines, in order, or the index of the first complete line that is no
/// record. The torn tail has no say.
pub open spec fn replay_spec(log: Seq<u8>) -> Result<Seq<CommandView>, nat> {
    replay_lines(complete_lines(log))
}

/// The bytes that a batch adds to the journal: the record lines of its
/// commands, in order.
pub open spec fn batch_bytes(cmds: Seq<CommandView>) -> Seq<u8>
    decreases cmds.len(),
{
    if cmds.len() == 0 {
        Seq::<u8>::empty()
    } else {
        batch_bytes(cmds.drop_last()) + record_line(cmds.last())
    }
}

/// Bytes without a line feed hold no complete line: they are all tail.
pub proof fn lemma_no_newline_is_tail(bytes: Seq<u8>)
    requires
        no_newline(bytes),
    ensures
        complete_lines(bytes) == Seq::<Seq<u8>>::empty(),
        torn_tail(bytes) == bytes,
    decreases bytes.len(),
{
    if bytes.len() > 0 {
        lemma_no_newline_is_tail(bytes.drop_last());
    }
    assert(torn_tail(bytes) =~= bytes);
}

/// Behind a log that ends where a record ends, lines are counted afresh.
pub proof fn lemma_lines_concat(a: Seq<u8>, b: Seq<u8>)
    requires
        framed(a),
    ensures
        complete_lines(a + b) == complete_lines(a) + complete_lines(b),
        torn_tail(a + b) == torn_tail(b),
    decreases b.len(),
{
    if b.len() == 0 {
        assert(a + b =~= a);
        assert(complete_lines(a) + complete_lines(b) =~= complete_lines(a));
    } else {
        assert((a + b).drop_last() =~= a + b.drop_last());
        lemma_lines_concat(a, b.drop_last());
        if b.last() == NEWLINE {
            assert(complete_lines(a + b) =~= complete_lines(a) + complete_lines(b));
        }
    }
}

/// Bytes without a line feed, added to any log, add no line.
pub proof fn lemma_tail_adds_no_line(log: Seq<u8>, tail: Seq<u8>)
    requires
        no_newline(tail),
    ensures
        complete_lines(log + tail) == complete_lines(log),
    decreases tail.len(),
{
    if tail.len() == 0 {
        assert(log + tail =~= log);
    } else {
        assert((log + tail).drop_last() =~= log + tail.drop_last());
        lemma_tail_adds_no_line(log, tail.drop_last());
    }
}

/// One record's text and its line feed make exactly one line.
pub proof fn lemma_one_line(text: Seq<u8>)
    requires
        no_newline(text),
    ensures
        complete_lines(text + seq![NEWLINE]) == seq![text],
        framed(text + seq![NEWLINE]),
{
    let line = text + seq![NEWLINE];
    assert(line.drop_last() =~= text);
    lemma_no_newline_is_tail(text);
    assert(complete_lines(line) =~= seq![text]);
}

/// Reading two runs of lines one after the other.
pub proof fn lemma_replay_concat(xs: Seq<Seq<u8>>, ys: Seq<Seq<u8>>)
    ensures
        replay_lines(xs + ys) == match replay_lines(xs) {
            Err(i) => Err::<Seq<CommandView>, nat>(i),
            Ok(a) => match replay_lines(ys) {
                Ok(b) => Ok(a + b),
                Err(j) => Err(xs.len() + j),
            },
        },
    decreases ys.len(),
{
    if ys.len() == 0 {
        assert(xs + ys =~= xs);
        if let Ok(a) = replay_lines(xs) {
            assert(a + Seq::<CommandView>::empty() =~= a);
        }
    } else {
        assert((xs + ys).drop_last() =~= xs + ys.drop_last());
        lemma_replay_concat(xs, ys.drop_last());
        if let Ok(a) = replay_lines(xs) {
            if let Ok(b) = replay_lines(ys.drop_last()) {
                if let Some(c) = parse_record(ys.last()) {
                    assert((a + b).push(c) =~= a + b.push(c));
                }
            }
        }
    }
}

/// What reading says, line by line: it succeeds exactly when every line is a
/// record, and then gives each line's command; it fails at the first line
/// that is none.
pub proof fn lemma_replay_lines_says(lines: Seq<Seq<u8>>)
    ensures
        match replay_lines(lines) {
            Ok(cmds) => {
                &&& cmds.len() == lines.len()
                &&& forall|i: int|
                    0 <= i < lines.len() ==> parse_record(#[trigger] lines[i]) == Some(cmds[i])
            },
            Err(n) => {
                &&& n < lines.len()
                &&& parse_record(lines[n as int]) is None
                &&& forall|i: int| 0 <= i < n ==> parse_record(#[trigger] lines[i]) is Some
            },
        },
    decreases lines.len(),
{
    if lines.len() > 0 {
        lemma_replay_lines_says(lines.drop_last());
        match replay_lines(lines.drop_last()) {
            Ok(cmds) => {
                assert forall|i: int| 0 <= i < lines.len() - 1 implies parse_record(
                    #[trigger] lines[i],
                ) == Some(cmds[i]) by {
                    assert(lines[i] == lines.drop_last()[i]);
                }
            },
            Err(n) => {
                assert(lines[n as int] == lines.drop_last()[n as int]);
                assert forall|i: int| 0 <= i < n implies parse_record(#[trigger] lines[i])
                    is Some by {
                    assert(lines[i] == lines.drop_last()[i]);
                }
            },
        }
    }
}

/// One more command adds its record line behind the others.
pub proof fn lemma_batch_bytes_push(cmds: Seq<CommandView>, c: CommandView)
    ensures
        batch_bytes(cmds.push(c)) == batch_bytes(cmds) + record_line(c),
        batch_bytes(seq![c]) == record_line(c),
{
    let none = Seq::<CommandView>::empty();
    assert(cmds.push(c).drop_last() =~= cmds);
    assert(none.push(c) =~= seq![c]);
    assert(none.push(c).drop_last() =~= none);
    assert(batch_bytes(none) + record_line(c) =~= record_line(c));
}

/// The bytes of two batches written one after the other are the bytes of
/// the two batches joined.
pub proof fn lemma_batch_bytes_concat(a: Seq<CommandView>, b: Seq<CommandView>)
    ensures
        batch_bytes(a + b) == batch_bytes(a) + batch_bytes(b),
    decreases b.len(),
{
    if b.len() == 0 {
        assert(a + b =~= a);
        assert(batch_bytes(a) + batch_bytes(b) =~= batch_bytes(a));
    } else {
        assert((a + b).drop_last() =~= a + b.drop_last());
        lemma_batch_bytes_concat(a, b.drop_last());
        assert(batch_bytes(a + b) =~= batch_bytes(a) + batch_bytes(b));
    }
}

/// Records appended to a log that ends where a record ends are read back
/// behind what the log held before, in the order in which they were written,
/// and the longer log again ends where a record ends.
pub proof fn lemma_replay_append(log: Seq<u8>, cmds: Seq<CommandView>)
    requires
        framed(log),
        all_read_back(cmds),
    ensures
        framed(log + batch_bytes(cmds)),
        replay_spec(log + batch_bytes(cmds)) == match replay_spec(log) {
            Ok(before) => Ok::<Seq<CommandView>, nat>(before + cmds),
            Err(i) => Err(i),
        },
    decreases cmds.len(),
{
    if cmds.len() == 0 {
        assert(log + batch_bytes(cmds) =~= log);
        if let Ok(before) = replay_spec(log) {
            assert(before + cmds =~= before);
        }
    } else {
        let init = cmds.drop_last();
        let text = record_text(cmds.last());
        let shorter = log + batch_bytes(init);
        lemma_replay_append(log, init);
        lemma_record_text_has_no_newline(cmds.last());
        lemma_record_parses_back(cmds.last());
        lemma_one_line(text);
        lemma_lines_concat(shorter, record_line(cmds.last()));
        assert(log + batch_bytes(cmds) =~= shorter + record_line(cmds.last()));
        assert(complete_lines(shorter) + seq![text] =~= complete_lines(shorter).push(text));
        assert(complete_lines(shorter).push(text).drop_last() =~= complete_lines(shorter));
        if let Ok(before) = replay_spec(log) {
            assert((before + init).push(cmds.last()) =~= before + cmds);
        }
    }
}

/// One more complete line behind a log that ends where a record ends: the
/// line is read after all that came before it.
pub proof fn lemma_replay_next_line(prefix: Seq<u8>, line: Seq<u8>)
    requires
        framed(prefix),
        no_newline(line),
    ensures
        framed(prefix + (line + seq![NEWLINE])),
        complete_lines(prefix + (line + seq![NEWLINE])) == complete_lines(prefix).push(line),
        replay_spec(prefix + (line + seq![NEWLINE])) == match replay_spec(prefix) {
            Err(i) => Err::<Seq<CommandView>, nat>(i),
            Ok(cmds) => match parse_record(line) {
                Some(c) => Ok(cmds.push(c)),
                None => Err(complete_lines(prefix).len()),
            },
        },
{
    let lines = complete_lines(prefix);
    lemma_one_line(line);
    lemma_lines_concat(prefix, line + seq![NEWLINE]);
    assert(lines + seq![line] =~= lines.push(line));
    assert(lines.push(line).drop_last() =~= lines);
}

/// Once reading has failed, nothing that follows mends it.
pub proof fn lemma_replay_stays_corrupt(log: Seq<u8>, rest: Seq<u8>)
    requires
        framed(log),
        replay_spec(log) is Err,
    ensures
        replay_spec(log + rest) == replay_spec(log),
{
    lemma_lines_concat(log, rest);
    lemma_replay_concat(complete_lines(log), complete_lines(rest));
}

/// Whether every line of `lines` is a record.
pub open spec fn all_records(lines: Seq<Seq<u8>>) -> bool {
    forall|i: int| 0 <= i < lines.len() ==> parse_record(#[trigger] lines[i]) is Some
}

/// The line between `start` and a line feed at `end`, read behind the lines
/// before `start`.
proof fn lemma_replay_line_at(log: Seq<u8>, start: int, end: int)
    requires
        0 <= start <= end < log.len(),
        framed(log.subrange(0, start)),
        forall|j: int| start <= j < end ==> log[j] != NEWLINE,
        log[end] == NEWLINE,
    ensures
        framed(log.subrange(0, end + 1)),
        complete_lines(log.subrange(0, end + 1)).len() == complete_lines(
            log.subrange(0, start),
        ).len() + 1,
        replay_spec(log.subrange(0, end + 1)) == match replay_spec(log.subrange(0, start)) {
            Err(i) => Err::<Seq<CommandView>, nat>(i),
            Ok(cmds) => match parse_record(log.subrange(start, end)) {
                Some(c) => Ok(cmds.push(c)),
                None => Err(complete_lines(log.subrange(0, start)).len()),
            },
        },
{
    let prefix = log.subrange(0, start);
    let line = log.subrange(start, end);
    assert(log.subrange(0, end + 1) =~= prefix + (line + seq![NEWLINE]));
    lemma_replay_next_line(prefix, line);
}

/// What lies behind the last line feed does not count.
proof fn lemma_replay_rest_is_tail(log: Seq<u8>, start: int)
    requires
        0 <= start <= log.len(),
        forall|j: int| start <= j < log.len() ==> log[j] != NEWLINE,
    ensures
        replay_spec(log) == replay_spec(log.subrange(0, start)),
{
    let prefix = log.subrange(0, start);
    let tail = log.subrange(start, log.len() as int);
    assert(log =~= prefix + tail);
    lemma_tail_adds_no_line(prefix, tail);
}

/// Once a line has failed, the journal as a whole fails at that line.
proof fn lemma_replay_fails_at(log: Seq<u8>, end: int)
    requires
        0 <= end < log.len(),
        framed(log.subrange(0, end + 1)),
        replay_spec(log.subrange(0, end + 1)) is Err,
    ensures
        replay_spec(log) == replay_spec(log.subrange(0, end + 1)),
{
    let next = log.subrange(0, end + 1);
    let rest = log.subrange(end + 1, log.len() as int);
    assert(log =~= next + rest);
    lemma_replay_stays_corrupt(next, rest);
}

/// Reading succeeds exactly when every line is a record.
proof fn lemma_replay_succeeds_iff_all_records(lines: Seq<Seq<u8>>)
    ensures
        replay_lines(lines) is Ok <==> all_records(lines),
{
    lemma_replay_lines_says(lines);
}

/// Reads a journal from its first byte: the commands of its complete lines,
/// in order. A torn tail is passed over. Reading succeeds exactly when every
/// complete line is a record; otherwise it ends with `Corruption`, which
/// names the first complete line that is none. No other error comes from
/// here.
pub fn replay(log: &[u8]) -> (r: Result<Vec<Command>, DbError>)
    ensures
        r is Ok <==> all_records(complete_lines(log@)),
        match r {
            Ok(cmds) => replay_spec(log@) == Ok::<Seq<CommandView>, nat>(views(cmds@)),
            Err(e) => e matches DbError::Corruption { record } && replay_spec(log@) == Err::<
                Seq<CommandView>,
                nat,
            >(record as nat),
        },
{
    let mut cmds: Vec<Command> = Vec::new();
    let mut start: usize = 0;
    let mut i: usize = 0;
    proof {
        lemma_replay_succeeds_iff_all_records(complete_lines(log@));
        assert(views(cmds@) =~= Seq::<CommandView>::empty());
        assert(log@.subrange(0, 0) =~= Seq::<u8>::empty());
    }
    while i < log.len()
        invariant
            start <= i <= log.len(),
            framed(log@.subrange(0, start as int)),
            replay_spec(log@.subrange(0, start as int)) == Ok::<Seq<CommandView>, nat>(
                views(cmds@),
            ),
            complete_lines(log@.subrange(0, start as int)).len() == cmds@.len(),
            forall|j: int| start <= j < i ==> log@[j] != NEWLINE,
            replay_spec(log@) is Ok <==> all_records(complete_lines(log@)),
        decreases log.len() - i,
    {
        if log[i] == NEWLINE {
            let line = slice_subrange(log, start, i);
            proof {
                lemma_replay_line_at(log@, start as int, i as int);
            }
            match decode_record(line) {
                Some(c) => {
                    proof {
                        assert(views(cmds@.push(c)) =~= views(cmds@).push(c@));
                    }
                    cmds.push(c);
                },
                None => {
                    proof {
                        lemma_replay_fails_at(log@, i as int);
                    }
                    return Err(DbError::Corruption { record: cmds.len() });
                },
            }
            start = i + 1;
        }
        i += 1;
    }
    proof {
        lemma_replay_rest_is_tail(log@, start as int);
    }
    Ok(cmds)
}

/// The bytes to append to the journal for a batch: one record line per
/// command, in the batch's order.
///
/// What is written here is read back: appended to any journal that ends
/// where a record ends, these bytes replay as what that journal held before,
/// followed by the batch (and a journal that was corrupt stays so).
pub fn encode_batch(batch: &Vec<Command>) -> (bytes: Vec<u8>)
    ensures
        bytes@ == batch_bytes(views(batch@)),
        all_read_back(views(batch@)),
        forall|log: Seq<u8>|
            framed(log) ==> framed(log + bytes@) && #[trigger] replay_spec(log + bytes@)
                == match replay_spec(log) {
                Ok(before) => Ok::<Seq<CommandView>, nat>(before + views(batch@)),
                Err(i) => Err(i),
            },
{
    let mut bytes: Vec<u8> = Vec::new();
    let mut i: usize = 0;
    let ghost all = views(batch@);
    while i < batch.len()
        invariant
            i <= batch.len(),
            all == views(batch@),
            bytes@ == batch_bytes(all.take(i as int)),
            forall|j: int| 0 <= j < i ==> strings_read_back(#[trigger] all[j]),
        decreases batch.len() - i,
    {
        let mut line = encode_record(&batch[i]);
        proof {
            assert(all.take(i + 1).drop_last() =~= all.take(i as int));
            assert(all.take(i + 1).last() == batch@[i as int]@);
        }
        bytes.append(&mut line);
        i += 1;
    }
    proof {
        assert(all.take(batch@.len() as int) =~= all);
        assert forall|log: Seq<u8>| framed(log) implies framed(log + bytes@) && #[trigger] replay_spec(
            log + bytes@,
        ) == match replay_spec(log) {
            Ok(before) => Ok::<Seq<CommandView>, nat>(before + all),
            Err(i) => Err(i),
        } by {
            lemma_replay_append(log, all);
        }
    }
    bytes
}

/// What a crash leaves behind the last complete record does not count: a
/// journal with such a tail replays exactly as the journal without it.
pub proof fn law_torn_tail_is_ignored(log: Seq<u8>, tail: Seq<u8>)
    requires
        no_newline(tail),
    ensures
        replay_spec(log + tail) == replay_spec(log),
{
    lemma_tail_adds_no_line(log, tail);
}

/// Replaying is repeatable. What a journal replays as depends on its bytes
/// alone, so two replays of one log into an empty index give one and the
/// same index; and replaying the log once more over the index it gave
/// changes nothing.
pub proof fn law_replay_is_repeatable(
    log: Seq<u8>,
    first: Map<Seq<char>, Seq<char>>,
    second: Map<Seq<char>, Seq<char>>,
)
    requires
        replay_spec(log) is Ok,
        first == apply_all(Map::empty(), replay_spec(log)->Ok_0),
        second == apply_all(Map::empty(), replay_spec(log)->Ok_0),
    ensures
        first == second,
        apply_all(first, replay_spec(log)->Ok_0) == first,
{
    lemma_apply_all_twice(Map::empty(), replay_spec(log)->Ok_0);
}

/// Looks a key up in the journal itself, without an index: the value that
/// the last command about `key` left it with, if the journal holds such a
/// command and it is a `Put`. Fails with `Corruption` exactly when a
/// complete line of the journal is no record.
pub fn get_from_log(log: &[u8], key: &str) -> (r: Result<Option<String>, DbError>)
    ensures
        match r {
            Ok(found) => {
                &&& replay_spec(log@) is Ok
                &&& found is Some <==> apply_all(
                    Map::empty(),
                    replay_spec(log@)->Ok_0,
                ).contains_key(key@)
                &&& found matches Some(v) ==> v@ == apply_all(
                    Map::empty(),
                    replay_spec(log@)->Ok_0,
                )[key@]
            },
            Err(e) => e matches DbError::Corruption { record } && replay_spec(log@) == Err::<
                Seq<CommandView>,
                nat,
            >(record as nat),
        },
{
    let cmds = match replay(log) {
        Ok(cmds) => cmds,
        Err(e) => { return Err(e); },
    };
    let wanted = key.to_owned();
    let mut found: Option<String> = None;
    let mut i: usize = 0;
    let ghost all = views(cmds@);
    let ghost empty = Map::<Seq<char>, Seq<char>>::empty();
    while i < cmds.len()
        invariant
            i <= cmds.len(),
            all == views(cmds@),
            wanted@ == key@,
            empty == Map::<Seq<char>, Seq<char>>::empty(),
            found is Some <==> apply_all(empty, all.take(i as int)).contains_key(key@),
            found matches Some(v) ==> v@ == apply_all(empty, all.take(i as int))[key@],
        decreases cmds.len() - i,
    {
        proof {
            assert(all.take(i + 1).drop_last() =~= all.take(i as int));
            assert(all.take(i + 1).last() == cmds@[i as int]@);
        }
        match &cmds[i] {
            Command::Put(k, v) => {
                if *k == wanted {
                    found = Some(v.clone());
                }
            },
            Command::Delete(k) => {
                if *k == wanted {
                    found = None;
                }
            },
        }
        i += 1;
    }
    proof {
        assert(all.take(cmds@.len() as int) =~= all);
    }
    Ok(found)
}

} // verus!
