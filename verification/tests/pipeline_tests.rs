use durable_kv::command::Command;
use durable_kv::db::{Db, Role};
use durable_kv::error::DbError;
use durable_kv::journal::replay;

fn put(k: &str, v: &str) -> Command {
    Command::Put(k.to_string(), v.to_string())
}

fn delete(k: &str) -> Command {
    Command::Delete(k.to_string())
}

fn disk_full() -> DbError {
    DbError::Io("disk full".to_string())
}

/// A journal file that counts its syncs and can be told to fail.
struct Disk {
    bytes: Vec<u8>,
    syncs: usize,
    failing: bool,
}

impl Disk {
    fn new() -> Disk {
        Disk { bytes: Vec::new(), syncs: 0, failing: false }
    }

    fn append_and_sync(&mut self, bytes: &[u8]) -> Result<(), DbError> {
        self.syncs += 1;
        if self.failing {
            return Err(disk_full());
        }
        self.bytes.extend_from_slice(bytes);
        Ok(())
    }
}

/// Closes the leader's batch and has it written and reported.
fn flush(db: &mut Db, disk: &mut Disk, leader: &Role) {
    let bytes = db.close_batch(leader).expect("the leader's turn");
    let result = disk.append_and_sync(&bytes);
    db.complete(leader, result);
}

#[test]
fn the_first_writer_leads_and_the_next_follow() {
    let mut db = Db::new(b"").unwrap();
    assert_eq!(db.latest_signal().id(), 0);
    let a = db.set("a", "1");
    let b = db.delete("b");
    let c = db.submit(put("c", "3"));
    assert!(a.is_leader());
    assert!(!b.is_leader());
    assert!(!c.is_leader());
    assert_eq!(a.gate().map(|gate| gate.id()), Some(0));
    assert_eq!(a.signal().id(), 1);
    assert_eq!(b.gate(), None);
    assert_eq!(b.signal(), a.signal());
    assert_eq!(c, b);
    assert_eq!(db.latest_signal(), a.signal());
}

#[test]
fn a_writer_that_comes_after_the_batch_is_closed_leads_the_next() {
    let mut db = Db::new(b"").unwrap();
    let a = db.set("a", "1");
    assert!(db.close_batch(&a).is_some());
    let b = db.set("b", "2");
    assert!(b.is_leader());
    assert_eq!(b.gate(), Some(a.signal()));
    assert_eq!(b.signal().id(), 2);
    let c = db.set("c", "3");
    assert!(!c.is_leader());
    assert_eq!(c.signal(), b.signal());
}

#[test]
fn a_batch_is_written_in_the_order_in_which_its_commands_came() {
    let mut db = Db::new(b"").unwrap();
    let a = db.set("k", "1");
    db.delete("k");
    db.set("k", "2");
    db.set("other", "x");
    let bytes = db.close_batch(&a).unwrap();
    assert_eq!(
        bytes,
        b"{\"Set\":[\"k\",\"1\"]}\n{\"Delete\":\"k\"}\n{\"Set\":[\"k\",\"2\"]}\n{\"Set\":[\"other\",\"x\"]}\n"
            .to_vec()
    );
    db.complete(&a, Ok(()));
    assert_eq!(db.get("k"), Some("2".to_string()));
    assert_eq!(db.get("other"), Some("x".to_string()));
}

#[test]
fn nothing_is_seen_before_the_write_is_reported() {
    let mut db = Db::new(b"").unwrap();
    let a = db.set("a", "1");
    assert_eq!(db.get("a"), None);
    assert_eq!(db.outcome(&a.signal()), None);
    db.close_batch(&a).unwrap();
    assert_eq!(db.get("a"), None);
    assert_eq!(db.outcome(&a.signal()), None);
    db.complete(&a, Ok(()));
    assert_eq!(db.get("a"), Some("1".to_string()));
    assert_eq!(db.outcome(&a.signal()), Some(Ok(())));
}

#[test]
fn only_the_leader_of_the_open_batch_closes_it() {
    let mut db = Db::new(b"").unwrap();
    let a = db.set("a", "1");
    let b = db.set("b", "2");
    assert_eq!(db.close_batch(&b), None);
    let mut other = Db::new(b"").unwrap();
    let stranger = other.set("x", "y");
    other.close_batch(&stranger).unwrap();
    other.complete(&stranger, Ok(()));
    let stranger = other.set("x", "z");
    assert_eq!(db.close_batch(&stranger), None);
    let bytes = db.close_batch(&a);
    assert_eq!(bytes, Some(b"{\"Set\":[\"a\",\"1\"]}\n{\"Set\":[\"b\",\"2\"]}\n".to_vec()));
    assert_eq!(db.close_batch(&a), None);
}

#[test]
fn a_leader_waits_for_the_batch_before_its_own() {
    let mut db = Db::new(b"").unwrap();
    let a = db.set("a", "1");
    db.close_batch(&a).unwrap();
    let b = db.set("b", "2");
    assert_eq!(db.close_batch(&b), None);
    db.set("c", "3");
    assert_eq!(db.close_batch(&b), None);
    db.complete(&a, Ok(()));
    assert_eq!(
        db.close_batch(&b),
        Some(b"{\"Set\":[\"b\",\"2\"]}\n{\"Set\":[\"c\",\"3\"]}\n".to_vec())
    );
}

#[test]
fn only_the_leader_of_the_batch_being_written_reports_on_it() {
    let mut db = Db::new(b"").unwrap();
    let a = db.set("a", "1");
    let follower = db.set("b", "2");
    db.complete(&a, Ok(()));
    assert_eq!(db.outcome(&a.signal()), None);
    db.close_batch(&a).unwrap();
    let next = db.set("c", "3");
    db.complete(&follower, Ok(()));
    db.complete(&next, Ok(()));
    assert_eq!(db.outcome(&a.signal()), None);
    assert_eq!(db.get("a"), None);
    db.complete(&a, Ok(()));
    assert_eq!(db.outcome(&a.signal()), Some(Ok(())));
    db.complete(&a, Err(disk_full()));
    assert_eq!(db.outcome(&a.signal()), Some(Ok(())));
    assert_eq!(db.outcome(&next.signal()), None);
}

#[test]
fn a_failed_batch_is_not_applied_and_all_its_writers_hear_the_same() {
    let mut db = Db::new(b"{\"Set\":[\"old\",\"1\"]}\n").unwrap();
    let mut disk = Disk::new();
    disk.failing = true;
    let a = db.set("a", "1");
    let b = db.set("b", "2");
    let c = db.delete("old");
    flush(&mut db, &mut disk, &a);
    assert_eq!(db.get("a"), None);
    assert_eq!(db.get("b"), None);
    assert_eq!(db.get("old"), Some("1".to_string()));
    assert_eq!(db.outcome(&a.signal()), Some(Err(disk_full())));
    assert_eq!(db.outcome(&b.signal()), Some(Err(disk_full())));
    assert_eq!(db.outcome(&c.signal()), Some(Err(disk_full())));
}

#[test]
fn a_failure_holds_nobody_up() {
    let mut db = Db::new(b"").unwrap();
    let mut disk = Disk::new();
    let a = db.set("a", "1");
    db.close_batch(&a).unwrap();
    let b = db.set("b", "2");
    db.complete(&a, Err(disk_full()));
    flush(&mut db, &mut disk, &b);
    assert_eq!(db.outcome(&a.signal()), Some(Err(disk_full())));
    assert_eq!(db.outcome(&b.signal()), Some(Ok(())));
    assert_eq!(db.get("a"), None);
    assert_eq!(db.get("b"), Some("2".to_string()));
}

#[test]
fn each_failure_is_kept_with_its_own_signal() {
    let mut db = Db::new(b"").unwrap();
    let mut disk = Disk::new();
    let a = db.set("a", "1");
    db.close_batch(&a).unwrap();
    db.complete(&a, Err(DbError::Io("first".to_string())));
    let b = db.set("b", "2");
    flush(&mut db, &mut disk, &b);
    let c = db.set("c", "3");
    db.close_batch(&c).unwrap();
    db.complete(&c, Err(DbError::Io("second".to_string())));
    assert_eq!(db.outcome(&a.signal()), Some(Err(DbError::Io("first".to_string()))));
    assert_eq!(db.outcome(&b.signal()), Some(Ok(())));
    assert_eq!(db.outcome(&c.signal()), Some(Err(DbError::Io("second".to_string()))));
    assert_eq!(db.get("b"), Some("2".to_string()));
    assert_eq!(db.get("c"), None);
}

#[test]
fn writers_of_distinct_keys_all_land_whatever_the_batches() {
    // The leader of the first batch closes it when `closes_at` writers have
    // come; the others come while that batch is being written.
    for closes_at in 1..=8 {
        let mut db = Db::new(b"").unwrap();
        let mut disk = Disk::new();
        let mut roles = Vec::new();
        let mut first_bytes = None;
        for i in 0..8 {
            roles.push(db.set(&format!("key{}", i), &format!("val{}", i)));
            if i + 1 == closes_at {
                first_bytes = db.close_batch(&roles[0]);
                assert!(first_bytes.is_some());
            }
        }
        let result = disk.append_and_sync(&first_bytes.unwrap());
        db.complete(&roles[0], result);
        if closes_at < 8 {
            assert!(roles[closes_at].is_leader());
            flush(&mut db, &mut disk, &roles[closes_at]);
        }
        let mut expected = Vec::new();
        for (i, role) in roles.iter().enumerate() {
            assert_eq!(role.is_leader(), i == 0 || i == closes_at);
            assert_eq!(db.outcome(&role.signal()), Some(Ok(())));
            assert_eq!(db.get(&format!("key{}", i)), Some(format!("val{}", i)));
            expected.push(put(&format!("key{}", i), &format!("val{}", i)));
        }
        assert_eq!(replay(&disk.bytes), Ok(expected));
        assert_eq!(disk.syncs, if closes_at < 8 { 2 } else { 1 });
        let reopened = Db::new(&disk.bytes).unwrap();
        for i in 0..8 {
            assert_eq!(reopened.get(&format!("key{}", i)), Some(format!("val{}", i)));
        }
    }
}

#[test]
fn writers_that_come_before_the_leader_closes_share_one_sync() {
    let mut db = Db::new(b"").unwrap();
    let mut disk = Disk::new();
    let mut roles = Vec::new();
    for i in 0..5 {
        roles.push(db.set(&format!("key{}", i), "v"));
    }
    flush(&mut db, &mut disk, &roles[0]);
    assert_eq!(disk.syncs, 1);
    for role in &roles {
        assert_eq!(db.outcome(&role.signal()), Some(Ok(())));
    }
}

#[test]
fn writers_that_come_while_a_write_is_under_way_share_the_next_sync() {
    let mut db = Db::new(b"").unwrap();
    let mut disk = Disk::new();
    let first = db.set("key0", "v");
    let bytes = db.close_batch(&first).unwrap();
    let mut roles = vec![first];
    for i in 1..5 {
        roles.push(db.set(&format!("key{}", i), "v"));
    }
    for role in &roles {
        assert_eq!(db.outcome(&role.signal()), None);
    }
    let second = roles[1];
    assert!(second.is_leader());
    assert_eq!(db.close_batch(&second), None);
    let result = disk.append_and_sync(&bytes);
    db.complete(&first, result);
    assert_eq!(db.outcome(&first.signal()), Some(Ok(())));
    assert_eq!(db.outcome(&second.signal()), None);
    flush(&mut db, &mut disk, &second);
    assert_eq!(disk.syncs, 2);
    for role in &roles {
        assert_eq!(db.outcome(&role.signal()), Some(Ok(())));
    }
    assert_eq!(db.latest_signal().id(), 2);
}

#[test]
fn what_was_acknowledged_is_there_after_reopening() {
    let mut db = Db::new(b"{\"Set\":[\"old\",\"1\"]}\n{\"Set\":[\"gone\",\"x\"]}\n").unwrap();
    let mut disk = Disk::new();
    disk.bytes = b"{\"Set\":[\"old\",\"1\"]}\n{\"Set\":[\"gone\",\"x\"]}\n".to_vec();
    let commands = vec![
        put("a", "1"),
        put("b", "2"),
        delete("gone"),
        put("a", "3"),
        delete("never"),
        put("c\n", "\"4\""),
        delete("b"),
    ];
    let mut leader = None;
    for (i, cmd) in commands.iter().enumerate() {
        let role = db.submit(cmd.duplicate());
        if role.is_leader() {
            leader = Some(role);
        }
        if i % 3 == 2 || i + 1 == commands.len() {
            flush(&mut db, &mut disk, &leader.take().expect("every batch has a leader"));
        }
    }
    let mut expected = vec![put("old", "1"), put("gone", "x")];
    expected.extend(commands);
    assert_eq!(replay(&disk.bytes), Ok(expected));
    let reopened = Db::new(&disk.bytes).unwrap();
    for key in ["old", "gone", "a", "b", "c\n", "never"] {
        assert_eq!(reopened.get(key), db.get(key));
    }
    assert_eq!(reopened.get("old"), Some("1".to_string()));
    assert_eq!(reopened.get("gone"), None);
    assert_eq!(reopened.get("a"), Some("3".to_string()));
    assert_eq!(reopened.get("b"), None);
    assert_eq!(reopened.get("c\n"), Some("\"4\"".to_string()));
}

#[test]
fn opening_replays_the_journal() {
    let db = Db::new(b"{\"Set\":[\"foo\",\"bar\"]}\n{\"Set\":[\"baz\",\"goo\"]}\n{\"Delete\":\"foo\"}\n")
        .unwrap();
    assert_eq!(db.get("foo"), None);
    assert_eq!(db.get("baz"), Some("goo".to_string()));
    assert_eq!(db.latest_signal().id(), 0);
    assert_eq!(db.outcome(&db.latest_signal()), Some(Ok(())));
}

#[test]
fn opening_passes_over_a_torn_tail() {
    let db = Db::new(b"{\"Set\":[\"foo\",\"bar\"]}\n{\"Set\":[\"baz\",\"go").unwrap();
    assert_eq!(db.get("foo"), Some("bar".to_string()));
    assert_eq!(db.get("baz"), None);
}

#[test]
fn opening_fails_on_a_corrupt_journal() {
    assert_eq!(
        Db::new(b"{\"Set\":[\"foo\",\"bar\"]}\nnot a record\n").err(),
        Some(DbError::Corruption { record: 1 })
    );
    assert_eq!(
        Db::replay_log(b"{\"Set\":[\"foo\",\"bar\"]}\nnot a record\n").err(),
        Some(DbError::Corruption { record: 1 })
    );
}

#[test]
fn replaying_a_log_twice_gives_the_same_index() {
    let log = b"{\"Set\":[\"a\",\"1\"]}\n{\"Set\":[\"b\",\"2\"]}\n{\"Delete\":\"a\"}\n{\"Set\":[\"c\",\"3\"]}\n";
    let first = Db::replay_log(log).unwrap();
    let second = Db::replay_log(log).unwrap();
    for key in ["a", "b", "c", "d"] {
        assert_eq!(first.get(key), second.get(key));
    }
    assert_eq!(first.get("a"), None);
    assert_eq!(first.get("b"), Some("2".to_string()));
    assert_eq!(first.get("c"), Some("3".to_string()));
}

#[test]
fn the_journal_is_intact_until_a_tail_is_torn_or_a_write_fails() {
    let mut db = Db::new(b"{\"Set\":[\"foo\",\"bar\"]}\n").unwrap();
    let mut disk = Disk::new();
    assert!(db.intact());
    let a = db.set("a", "1");
    assert!(db.intact());
    flush(&mut db, &mut disk, &a);
    assert!(db.intact());
    db.audit();
    disk.failing = true;
    let b = db.set("b", "2");
    flush(&mut db, &mut disk, &b);
    assert!(!db.intact());
    disk.failing = false;
    let c = db.set("c", "3");
    flush(&mut db, &mut disk, &c);
    assert!(!db.intact());

    assert!(Db::new(b"").unwrap().intact());
    assert!(!Db::new(b"{\"Set\":[\"foo\",\"bar\"]}\n{\"Set\":[\"ba").unwrap().intact());
    assert!(!Db::new(b"{\"Set\":[\"foo\",\"bar\"]}").unwrap().intact());
}
