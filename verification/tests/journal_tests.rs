use durable_kv::command::Command;
use durable_kv::error::DbError;
use durable_kv::journal::{encode_batch, get_from_log, replay};

fn put(k: &str, v: &str) -> Command {
    Command::Put(k.to_string(), v.to_string())
}

fn delete(k: &str) -> Command {
    Command::Delete(k.to_string())
}

const THREE: &[u8] = b"{\"Set\":[\"foo\",\"bar\"]}\n{\"Set\":[\"baz\",\"goo\"]}\n{\"Delete\":\"foo\"}\n";

#[test]
fn replay_of_nothing_is_nothing() {
    assert_eq!(replay(b""), Ok(vec![]));
}

#[test]
fn replay_reads_the_records_in_order() {
    assert_eq!(replay(THREE), Ok(vec![put("foo", "bar"), put("baz", "goo"), delete("foo")]));
}

#[test]
fn replay_passes_over_a_torn_tail() {
    let whole = b"{\"Set\":[\"k\",\"v\"]}\n";
    for n in 0..whole.len() {
        let mut log = THREE.to_vec();
        log.extend_from_slice(&whole[..n]);
        assert_eq!(replay(&log), replay(THREE));
    }
}

#[test]
fn replay_passes_over_a_tail_that_is_cut_inside_a_character() {
    let mut log = THREE.to_vec();
    log.extend_from_slice(b"{\"Delete\":\"\xe2\x82");
    assert_eq!(replay(&log), replay(THREE));
}

#[test]
fn replay_does_not_count_a_record_without_its_line_feed() {
    assert_eq!(replay(b"{\"Set\":[\"k\",\"v\"]}"), Ok(vec![]));
    assert_eq!(replay(b"{\"Se"), Ok(vec![]));
}

#[test]
fn replay_reports_the_first_line_that_is_no_record() {
    assert_eq!(
        replay(b"{\"Delete\":\"a\"}\ngarbage\n{\"Delete\":\"b\"}\n"),
        Err(DbError::Corruption { record: 1 })
    );
    assert_eq!(replay(b"garbage\nmore\n"), Err(DbError::Corruption { record: 0 }));
    assert_eq!(
        replay(b"{\"Delete\":\"a\"}\n{\"Delete\":\"b\"}\n{\"Delete\":\"c\n"),
        Err(DbError::Corruption { record: 2 })
    );
}

#[test]
fn replay_reports_corruption_before_a_torn_tail() {
    assert_eq!(replay(b"garbage\n{\"Dele"), Err(DbError::Corruption { record: 0 }));
}

#[test]
fn replay_takes_no_empty_line_and_no_carriage_return() {
    assert_eq!(replay(b"\n"), Err(DbError::Corruption { record: 0 }));
    assert_eq!(
        replay(b"{\"Delete\":\"a\"}\n\n{\"Delete\":\"b\"}\n"),
        Err(DbError::Corruption { record: 1 })
    );
    assert_eq!(replay(b"{\"Delete\":\"a\"}\r\n"), Err(DbError::Corruption { record: 0 }));
}

#[test]
fn batch_bytes_are_the_record_lines_in_order() {
    let batch = vec![put("foo", "bar"), put("baz", "goo"), delete("foo")];
    assert_eq!(encode_batch(&batch), THREE.to_vec());
    assert_eq!(encode_batch(&vec![]), Vec::<u8>::new());
}

#[test]
fn what_is_written_is_read_back() {
    let first = vec![put("a\nb", "1"), delete("\u{0}"), put("", "\"")];
    let second = vec![put("a\nb", "2"), put("\u{1f600}", "\\")];
    let mut log = encode_batch(&first);
    assert_eq!(replay(&log), Ok(first.clone()));
    log.extend_from_slice(&encode_batch(&second));
    let mut all = first;
    all.extend(second);
    assert_eq!(replay(&log), Ok(all));
}

#[test]
fn a_record_written_behind_a_torn_tail_spoils_the_line() {
    let mut log = b"{\"Delete\":\"a\"}\n{\"Set\":[\"x".to_vec();
    assert_eq!(replay(&log), Ok(vec![delete("a")]));
    log.extend_from_slice(&encode_batch(&vec![delete("b")]));
    assert_eq!(replay(&log), Err(DbError::Corruption { record: 1 }));
}

#[test]
fn lookup_in_the_journal_follows_the_last_command() {
    assert_eq!(get_from_log(THREE, "foo"), Ok(None));
    assert_eq!(get_from_log(THREE, "baz"), Ok(Some("goo".to_string())));
    assert_eq!(get_from_log(THREE, "nope"), Ok(None));
    assert_eq!(get_from_log(b"", "foo"), Ok(None));
    let mut log = THREE.to_vec();
    log.extend_from_slice(b"{\"Set\":[\"foo\",\"again\"]}\n{\"Set\":[\"baz\",\"new\"]}\n");
    assert_eq!(get_from_log(&log, "foo"), Ok(Some("again".to_string())));
    assert_eq!(get_from_log(&log, "baz"), Ok(Some("new".to_string())));
}

#[test]
fn lookup_in_the_journal_reports_corruption() {
    assert_eq!(
        get_from_log(b"{\"Set\":[\"foo\",\"bar\"]}\nnot a record\n", "foo"),
        Err(DbError::Corruption { record: 1 })
    );
}

#[test]
fn lookup_in_the_journal_passes_over_a_torn_tail() {
    assert_eq!(
        get_from_log(b"{\"Set\":[\"foo\",\"bar\"]}\n{\"Delete\":\"foo\"}", "foo"),
        Ok(Some("bar".to_string()))
    );
}
