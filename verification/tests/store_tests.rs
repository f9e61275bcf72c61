use anyhow::Result;
use durable_kv::command::Command;
use durable_kv::db::Db;
use durable_kv::error::DbError;
use durable_kv::index::Index;
use durable_kv::journal::get_from_log;
use std::io::{Read, Write};
use std::path::Path;
use std::time::{Duration, Instant};
use tempfile::{tempdir, Builder, NamedTempFile};

fn failed(e: DbError) -> anyhow::Error {
    anyhow::Error::msg(format!("{:?}", e))
}

fn journal_file(dir: &Path, name: &str) -> Result<NamedTempFile> {
    Ok(Builder::new().prefix(name).rand_bytes(0).append(true).tempfile_in(dir)?)
}

fn contents(file: &NamedTempFile) -> Result<Vec<u8>> {
    let mut log = Vec::new();
    file.reopen()?.read_to_end(&mut log)?;
    Ok(log)
}

/// A store on a journal file, driven the way a single writer drives it: every
/// command is a batch of its own, written and synced before it is applied.
struct FileDb<'a> {
    db: Db,
    file: &'a NamedTempFile,
}

impl<'a> FileDb<'a> {
    fn new(file: &'a NamedTempFile) -> Result<FileDb<'a>> {
        file.as_file().sync_all()?;
        let db = Db::new(&contents(file)?).map_err(failed)?;
        Ok(FileDb { db, file })
    }

    fn commit(&mut self, role: durable_kv::db::Role) -> Result<()> {
        let bytes = self.db.close_batch(&role).expect("a single writer leads its own batch");
        let mut log = self.file.as_file();
        let written = log.write_all(&bytes).and_then(|_| log.sync_all());
        self.db.complete(&role, written.map_err(|e| DbError::Io(e.to_string())));
        self.db.outcome(&role.signal()).expect("the batch is through").map_err(failed)
    }

    fn set(&mut self, k: &str, v: &str) -> Result<()> {
        let role = self.db.set(k, v);
        self.commit(role)
    }

    fn delete(&mut self, k: &str) -> Result<()> {
        let role = self.db.delete(k);
        self.commit(role)
    }

    fn get(&self, k: &str) -> Option<String> {
        self.db.get(k)
    }

    /// Looks the key up in the journal file itself.
    fn get_from_file(&self, k: &str) -> Result<Option<String>> {
        get_from_log(&contents(self.file)?, k).map_err(failed)
    }
}

#[test]
fn add_memtable_test_basic() -> Result<()> {
    let dir = tempdir()?;
    let file = journal_file(dir.path(), "logfile")?;

    let mut db = FileDb::new(&file)?;
    db.set("foo", "bar")?;
    db.set("baz", "goo")?;
    assert_eq!(db.get("foo"), Some("bar".into()));
    db.delete("foo")?;
    assert_eq!(db.get("foo"), None);

    Ok(())
}

#[test]
fn add_memtable_test_recover() -> Result<()> {
    let dir = tempdir()?;
    let file = journal_file(dir.path(), "logfile")?;

    let mut db = FileDb::new(&file)?;
    db.set("foo", "bar")?;
    db.set("baz", "goo")?;
    assert_eq!(db.get("foo"), Some("bar".into()));
    db.delete("foo")?;
    assert_eq!(db.get("foo"), None);

    let db = FileDb::new(&file)?;
    assert_eq!(db.get("baz"), Some("goo".into()));

    Ok(())
}

#[test]
fn bad_1_test_basic() -> Result<()> {
    let mut db = Index::new();
    db.apply(&Command::Put("foo".into(), "bar".into()));
    db.apply(&Command::Put("baz".into(), "goo".into()));
    assert_eq!(db.get("foo"), Some("bar".into()));
    db.apply(&Command::Delete("foo".into()));
    assert_eq!(db.get("foo"), None);

    Ok(())
}

#[test]
fn concurrent_test_basic() -> Result<()> {
    let dir = tempdir()?;
    let file = journal_file(dir.path(), "logfile")?;

    let mut db = FileDb::new(&file)?;
    db.set("foo", "bar")?;
    db.set("baz", "goo")?;
    assert_eq!(db.get("foo"), Some("bar".into()));
    db.delete("foo")?;
    assert_eq!(db.get("foo"), None);

    Ok(())
}

#[test]
fn concurrent_test_recover() -> Result<()> {
    let dir = tempdir()?;
    let file = journal_file(dir.path(), "logfile")?;

    let mut db = FileDb::new(&file)?;
    db.set("foo", "bar")?;
    db.set("baz", "goo")?;
    assert_eq!(db.get("foo"), Some("bar".into()));
    db.delete("foo")?;
    assert_eq!(db.get("foo"), None);

    let db = FileDb::new(&file)?;
    assert_eq!(db.get("baz"), Some("goo".into()));

    Ok(())
}

#[test]
fn concurrent_1_test_basic() -> Result<()> {
    let dir = tempdir()?;
    let file = journal_file(dir.path(), "logfile")?;

    let mut db = FileDb::new(&file)?;
    db.set("foo", "bar")?;
    db.set("baz", "goo")?;
    assert_eq!(db.get("foo"), Some("bar".into()));
    db.delete("foo")?;
    assert_eq!(db.get("foo"), None);

    Ok(())
}

#[test]
fn concurrent_1_test_recover() -> Result<()> {
    let dir = tempdir()?;
    let file = journal_file(dir.path(), "logfile")?;

    let mut db = FileDb::new(&file)?;
    db.set("foo", "bar")?;
    db.set("baz", "goo")?;
    assert_eq!(db.get("foo"), Some("bar".into()));
    db.delete("foo")?;
    assert_eq!(db.get("foo"), None);

    let db = FileDb::new(&file)?;
    assert_eq!(db.get("baz"), Some("goo".into()));

    Ok(())
}

#[test]
fn concurrent_2_test_basic() -> Result<()> {
    let dir = tempdir()?;
    let file = journal_file(dir.path(), "logfile")?;

    let mut db = FileDb::new(&file)?;
    db.set("foo", "bar")?;
    db.set("baz", "goo")?;
    assert_eq!(db.get("foo"), Some("bar".into()));
    db.delete("foo")?;
    assert_eq!(db.get("foo"), None);

    Ok(())
}

#[test]
fn concurrent_2_test_recover() -> Result<()> {
    let dir = tempdir()?;
    let file = journal_file(dir.path(), "logfile")?;

    let mut db = FileDb::new(&file)?;
    db.set("foo", "bar")?;
    db.set("baz", "goo")?;
    assert_eq!(db.get("foo"), Some("bar".into()));
    db.delete("foo")?;
    assert_eq!(db.get("foo"), None);

    let db = FileDb::new(&file)?;
    assert_eq!(db.get("baz"), Some("goo".into()));

    Ok(())
}

#[test]
fn with_panic_test_basic() -> Result<()> {
    let dir = tempdir()?;
    let file = journal_file(dir.path(), "logfile")?;

    let mut db = FileDb::new(&file)?;
    db.set("foo", "bar")?;
    db.set("baz", "goo")?;
    assert_eq!(db.get_from_file("foo")?, Some("bar".into()));
    db.delete("foo")?;
    assert_eq!(db.get_from_file("foo")?, None);

    Ok(())
}

#[test]
fn test_basic_recover() -> Result<()> {
    let dir = tempdir()?;
    let file = journal_file(dir.path(), "logfile")?;

    let mut db = FileDb::new(&file)?;

    let t = Instant::now();
    let mut writes = 0;
    while Instant::now().duration_since(t) < Duration::from_millis(10000) {
        writes += 1;
        db.set("foo", "bar").unwrap();
    }
    println!("performed {} writes in 10 seconds", writes);

    db.set("foo", "bar")?;
    db.set("baz", "goo")?;
    assert_eq!(db.get_from_file("foo")?, Some("bar".into()));
    db.delete("foo")?;
    assert_eq!(db.get_from_file("foo")?, None);

    let db = FileDb::new(&file)?;
    assert_eq!(db.get_from_file("baz")?, Some("goo".into()));

    Ok(())
}

#[test]
fn scenario_set_get_delete_reopen() -> Result<()> {
    let dir = tempdir()?;
    let file = journal_file(dir.path(), "logfile")?;

    let mut db = FileDb::new(&file)?;
    db.set("foo", "bar")?;
    db.set("baz", "goo")?;
    assert_eq!(db.get("foo"), Some("bar".to_string()));
    db.delete("foo")?;
    assert_eq!(db.get("foo"), None);

    let db = FileDb::new(&file)?;
    assert_eq!(db.get("baz"), Some("goo".to_string()));
    assert_eq!(db.get("foo"), None);
    assert_eq!(
        contents(&file)?,
        b"{\"Set\":[\"foo\",\"bar\"]}\n{\"Set\":[\"baz\",\"goo\"]}\n{\"Delete\":\"foo\"}\n".to_vec()
    );

    Ok(())
}
