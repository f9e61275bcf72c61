//! The on-disk form of one command: a single line of JSON.
//!
//! `Put(k, v)` is written as `{"Set":["k","v"]}` and `Delete(k)` as
//! `{"Delete":"k"}`, each followed by a line feed. The keys and values are
//! JSON string literals; everything around them is fixed text. A line is a
//! record only if it has exactly this shape: no white space, nothing before
//! or after.

use crate::command::{Command, CommandView};
use crate::json::{
    escape_byte, escape_bytes, json_string_text, json_string_value, read_json_string,
    write_json_string, BACKSLASH, QUOTE,
};
use vstd::prelude::*;
use vstd::slice::slice_subrange;
use vstd::utf8::encode_utf8;

verus! {

/// `,`
pub const COMMA: u8 = 0x2C;

/// The line feed that ends every record.
pub const NEWLINE: u8 = 0x0A;

/// `{"Set":[`
pub open spec fn put_open() -> Seq<u8> {
    seq![0x7Bu8, 0x22u8, 0x53u8, 0x65u8, 0x74u8, 0x22u8, 0x3Au8, 0x5Bu8]
}

/// `]}`
pub open spec fn put_close() -> Seq<u8> {
    seq![0x5Du8, 0x7Du8]
}

/// `{"Delete":`
pub open spec fn delete_open() -> Seq<u8> {
    seq![0x7Bu8, 0x22u8, 0x44u8, 0x65u8, 0x6Cu8, 0x65u8, 0x74u8, 0x65u8, 0x22u8, 0x3Au8]
}

/// `}`
pub open spec fn delete_close() -> Seq<u8> {
    seq![0x7Du8]
}

/// The text of the record for `c`, without the line feed.
pub open spec fn record_text(c: CommandView) -> Seq<u8> {
    match c {
        CommandView::Put(k, v) => put_open() + json_string_text(k) + seq![COMMA] + json_string_text(
            v,
        ) + put_close(),
        CommandView::Delete(k) => delete_open() + json_string_text(k) + delete_close(),
    }
}

/// The bytes appended to the journal for `c`: its text and a line feed.
pub open spec fn record_line(c: CommandView) -> Seq<u8> {
    record_text(c) + seq![NEWLINE]
}

/// Where the string literal whose body starts at `at` ends: one past its
/// closing quote. A backslash takes the byte after it along, whatever that
/// byte is; the first quote not taken along closes the literal. `None` if the
/// line ends first.
pub open spec fn string_end(line: Seq<u8>, at: int) -> Option<int>
    decreases line.len() - at,
{
    if at < 0 || at >= line.len() {
        None
    } else if line[at] == QUOTE {
        Some(at + 1)
    } else if line[at] == BACKSLASH {
        if at + 1 < line.len() {
            string_end(line, at + 2)
        } else {
            None
        }
    } else {
        string_end(line, at + 1)
    }
}

/// Where the string literal that opens at `at` ends, if one opens there.
pub open spec fn literal_end(line: Seq<u8>, at: int) -> Option<int> {
    if 0 <= at < line.len() && line[at] == QUOTE {
        string_end(line, at + 1)
    } else {
        None
    }
}

/// Whether `pat` stands in `line` at offset `at`.
pub open spec fn stands_at(line: Seq<u8>, at: int, pat: Seq<u8>) -> bool {
    0 <= at && at + pat.len() <= line.len() && line.subrange(at, at + pat.len()) == pat
}

/// A half-open range of offsets into a line.
#[derive(Clone, Copy, Debug, PartialEq, Eq)]
pub struct Span {
    pub start: usize,
    pub end: usize,
}

/// What kind of record a line is, and where its string literals lie (quotes
/// included).
#[derive(Clone, Copy, Debug, PartialEq, Eq)]
pub enum RecordShape {
    Put { key: Span, value: Span },
    Delete { key: Span },
}

/// A [`RecordShape`] over mathematical offsets: each pair is a start and an
/// end.
pub enum ShapeView {
    Put { key: (int, int), value: (int, int) },
    Delete { key: (int, int) },
}

impl View for Span {
    type V = (int, int);

    open spec fn view(&self) -> (int, int) {
        (self.start as int, self.end as int)
    }
}

impl View for RecordShape {
    type V = ShapeView;

    open spec fn view(&self) -> ShapeView {
        match self {
            RecordShape::Put { key, value } => ShapeView::Put { key: key@, value: value@ },
            RecordShape::Delete { key } => ShapeView::Delete { key: key@ },
        }
    }
}

/// The shape of `line` as a record, or `None` if it has none.
pub open spec fn record_shape(line: Seq<u8>) -> Option<ShapeView> {
    if stands_at(line, 0, put_open()) {
        let ks = put_open().len() as int;
        match literal_end(line, ks) {
            Some(ke) => if ke < line.len() && line[ke] == COMMA {
                match literal_end(line, ke + 1) {
                    Some(ve) => if stands_at(line, ve, put_close()) && ve + put_close().len()
                        == line.len() {
                        Some(ShapeView::Put { key: (ks, ke), value: (ke + 1, ve) })
                    } else {
                        None
                    },
                    None => None,
                }
            } else {
                None
            },
            None => None,
        }
    } else if stands_at(line, 0, delete_open()) {
        let ks = delete_open().len() as int;
        match literal_end(line, ks) {
            Some(ke) => if stands_at(line, ke, delete_close()) && ke + delete_close().len()
                == line.len() {
                Some(ShapeView::Delete { key: (ks, ke) })
            } else {
                None
            },
            None => None,
        }
    } else {
        None
    }
}

/// The part of `line` between the two offsets of `span`.
pub open spec fn slice_of(line: Seq<u8>, span: (int, int)) -> Seq<u8> {
    line.subrange(span.0, span.1)
}

/// The command that `line` (a record's text, without the line feed) stands
/// for: the line must have a record's shape and each of its string literals
/// must be one that `serde_json` reads. `None` otherwise.
pub open spec fn parse_record(line: Seq<u8>) -> Option<CommandView> {
    match record_shape(line) {
        Some(ShapeView::Put { key, value }) => match (
            json_string_value(slice_of(line, key)),
            json_string_value(slice_of(line, value)),
        ) {
            (Some(k), Some(v)) => Some(CommandView::Put(k, v)),
            _ => None,
        },
        Some(ShapeView::Delete { key }) => match json_string_value(slice_of(line, key)) {
            Some(k) => Some(CommandView::Delete(k)),
            None => None,
        },
        None => None,
    }
}

/// Whether every offset of `shape` lies within a line of `len` bytes, each
/// start before its end.
pub open spec fn shape_within(shape: ShapeView, len: int) -> bool {
    match shape {
        ShapeView::Put { key, value } => 0 <= key.0 < key.1 <= value.0 < value.1 <= len,
        ShapeView::Delete { key } => 0 <= key.0 < key.1 <= len,
    }
}

/// Whether `pat` stands in `line` at offset `at`.
pub fn matches_at(line: &[u8], at: usize, pat: &[u8]) -> (r: bool)
    ensures
        r == stands_at(line@, at as int, pat@),
{
    if pat.len() > line.len() || at > line.len() - pat.len() {
        return false;
    }
    let mut i: usize = 0;
    while i < pat.len()
        invariant
            i <= pat.len(),
            at + pat.len() <= line.len(),
            forall|j: int| 0 <= j < i ==> line@[at + j] == pat@[j],
        decreases pat.len() - i,
    {
        if line[at + i] != pat[i] {
            assert(line@.subrange(at as int, at + pat@.len())[i as int] != pat@[i as int]);
            return false;
        }
        i += 1;
    }
    assert(line@.subrange(at as int, at + pat@.len()) =~= pat@);
    true
}

/// Finds the end of the string literal whose body starts at `at`.
pub fn find_string_end(line: &[u8], at: usize) -> (r: Option<usize>)
    ensures
        match r {
            Some(e) => string_end(line@, at as int) == Some(e as int) && at < e <= line@.len(),
            None => string_end(line@, at as int) is None,
        },
{
    let mut i: usize = at;
    while i < line.len()
        invariant
            at <= i,
            string_end(line@, at as int) == string_end(line@, i as int),
        decreases line.len() - i,
    {
        let b = line[i];
        if b == QUOTE {
            return Some(i + 1);
        } else if b == BACKSLASH {
            if line.len() - i < 2 {
                return None;
            }
            i += 2;
        } else {
            i += 1;
        }
    }
    None
}

/// Finds the end of the string literal that opens at `at`.
pub fn find_literal_end(line: &[u8], at: usize) -> (r: Option<usize>)
    ensures
        match r {
            Some(e) => literal_end(line@, at as int) == Some(e as int) && at < e <= line@.len(),
            None => literal_end(line@, at as int) is None,
        },
{
    if at < line.len() && line[at] == QUOTE {
        find_string_end(line, at + 1)
    } else {
        None
    }
}

/// `{"Set":[`
fn put_open_bytes() -> (v: Vec<u8>)
    ensures
        v@ == put_open(),
{
    let v = vec![0x7Bu8, 0x22u8, 0x53u8, 0x65u8, 0x74u8, 0x22u8, 0x3Au8, 0x5Bu8];
    assert(v@ =~= put_open());
    v
}

/// `]}`
fn put_close_bytes() -> (v: Vec<u8>)
    ensures
        v@ == put_close(),
{
    let v = vec![0x5Du8, 0x7Du8];
    assert(v@ =~= put_close());
    v
}

/// `{"Delete":`
fn delete_open_bytes() -> (v: Vec<u8>)
    ensures
        v@ == delete_open(),
{
    let v = vec![0x7Bu8, 0x22u8, 0x44u8, 0x65u8, 0x6Cu8, 0x65u8, 0x74u8, 0x65u8, 0x22u8, 0x3Au8];
    assert(v@ =~= delete_open());
    v
}

/// `}`
fn delete_close_bytes() -> (v: Vec<u8>)
    ensures
        v@ == delete_close(),
{
    let v = vec![0x7Du8];
    assert(v@ =~= delete_close());
    v
}

/// Tells what kind of record `line` is and where its string literals lie,
/// without reading the literals.
pub fn scan_record(line: &[u8]) -> (r: Option<RecordShape>)
    ensures
        match r {
            Some(shape) => record_shape(line@) == Some(shape@) && shape_within(
                shape@,
                line@.len() as int,
            ),
            None => record_shape(line@) is None,
        },
{
    let put_open = put_open_bytes();
    let delete_open = delete_open_bytes();
    if matches_at(line, 0, put_open.as_slice()) {
        let ks: usize = put_open.len();
        let ke = match find_literal_end(line, ks) {
            Some(ke) => ke,
            None => { return None; },
        };
        if !(ke < line.len() && line[ke] == COMMA) {
            return None;
        }
        let ve = match find_literal_end(line, ke + 1) {
            Some(ve) => ve,
            None => { return None; },
        };
        let close = put_close_bytes();
        if matches_at(line, ve, close.as_slice()) && line.len() - ve == close.len() {
            Some(
                RecordShape::Put {
                    key: Span { start: ks, end: ke },
                    value: Span { start: ke + 1, end: ve },
                },
            )
        } else {
            None
        }
    } else if matches_at(line, 0, delete_open.as_slice()) {
        let ks: usize = delete_open.len();
        let ke = match find_literal_end(line, ks) {
            Some(ke) => ke,
            None => { return None; },
        };
        let close = delete_close_bytes();
        if matches_at(line, ke, close.as_slice()) && line.len() - ke == close.len() {
            Some(RecordShape::Delete { key: Span { start: ks, end: ke } })
        } else {
            None
        }
    } else {
        None
    }
}

/// Scanning over the escaped form of one byte ends up just behind it: no
/// escape holds a quote that could close the literal early.
proof fn lemma_scan_escaped_byte(line: Seq<u8>, at: int, b: u8)
    requires
        stands_at(line, at, escape_byte(b)),
        at + escape_byte(b).len() < line.len(),
    ensures
        string_end(line, at) == string_end(line, at + escape_byte(b).len()),
{
    let e = escape_byte(b);
    assert forall|j: int| 0 <= j < e.len() implies line[at + j] == e[j] by {
        assert(line.subrange(at, at + e.len())[j] == e[j]);
    }
    if e.len() == 1 {
        assert(line[at] == e[0]);
    } else if e.len() == 2 {
        assert(line[at] == e[0]);
    } else {
        assert(line[at] == e[0]);
        assert(line[at + 2] == e[2]);
        assert(line[at + 3] == e[3]);
        assert(line[at + 4] == e[4]);
        assert(line[at + 5] == e[5]);
        reveal_with_fuel(string_end, 6);
    }
}

/// Scanning over the escaped form of a run of bytes ends up just behind it.
proof fn lemma_scan_escaped(line: Seq<u8>, at: int, bytes: Seq<u8>)
    requires
        stands_at(line, at, escape_bytes(bytes)),
        at + escape_bytes(bytes).len() < line.len(),
    ensures
        string_end(line, at) == string_end(line, at + escape_bytes(bytes).len()),
    decreases bytes.len(),
{
    if bytes.len() > 0 {
        let head = escape_bytes(bytes.drop_last());
        let tail = escape_byte(bytes.last());
        let whole = line.subrange(at, at + escape_bytes(bytes).len());
        assert(whole == head + tail);
        assert(line.subrange(at, at + head.len()) =~= whole.subrange(0, head.len() as int));
        assert(whole.subrange(0, head.len() as int) =~= head);
        assert(line.subrange(at + head.len(), at + head.len() + tail.len()) =~= whole.subrange(
            head.len() as int,
            whole.len() as int,
        ));
        assert(whole.subrange(head.len() as int, whole.len() as int) =~= tail);
        lemma_scan_escaped(line, at, bytes.drop_last());
        lemma_scan_escaped_byte(line, at + head.len(), bytes.last());
    }
}

/// A string literal written by `serde_json` is found again whole: the scan
/// that starts at its opening quote stops just behind its closing quote.
pub proof fn lemma_literal_end(line: Seq<u8>, at: int, s: Seq<char>)
    requires
        stands_at(line, at, json_string_text(s)),
    ensures
        literal_end(line, at) == Some(at + json_string_text(s).len()),
{
    let text = json_string_text(s);
    let body = escape_bytes(encode_utf8(s));
    assert(text.len() == body.len() + 2);
    assert forall|j: int| 0 <= j < text.len() implies line[at + j] == text[j] by {
        assert(line.subrange(at, at + text.len())[j] == text[j]);
    }
    assert(line[at] == text[0]);
    assert(line[at + 1 + body.len()] == text[1 + body.len() as int]);
    assert forall|j: int| 0 <= j < body.len() implies line[at + 1 + j] == body[j] by {
        assert(text[1 + j] == body[j]);
    }
    assert(line.subrange(at + 1, at + 1 + body.len()) =~= body);
    lemma_scan_escaped(line, at + 1, encode_utf8(s));
}

/// No escaped byte is a line feed.
proof fn lemma_escaped_has_no_newline(bytes: Seq<u8>)
    ensures
        forall|j: int| 0 <= j < escape_bytes(bytes).len() ==> escape_bytes(bytes)[j] != NEWLINE,
    decreases bytes.len(),
{
    if bytes.len() > 0 {
        lemma_escaped_has_no_newline(bytes.drop_last());
        let head = escape_bytes(bytes.drop_last());
        let tail = escape_byte(bytes.last());
        assert forall|j: int| 0 <= j < tail.len() implies tail[j] != NEWLINE by {}
        assert forall|j: int| 0 <= j < escape_bytes(bytes).len() implies escape_bytes(bytes)[j]
            != NEWLINE by {
            if j >= head.len() {
                assert(escape_bytes(bytes)[j] == tail[j - head.len()]);
            }
        }
    }
}

/// A record's text holds no line feed, so the one that follows it is the
/// first.
pub proof fn lemma_record_text_has_no_newline(c: CommandView)
    ensures
        forall|j: int| 0 <= j < record_text(c).len() ==> record_text(c)[j] != NEWLINE,
{
    match c {
        CommandView::Put(k, v) => {
            lemma_escaped_has_no_newline(encode_utf8(k));
            lemma_escaped_has_no_newline(encode_utf8(v));
        },
        CommandView::Delete(k) => {
            lemma_escaped_has_no_newline(encode_utf8(k));
        },
    }
}

/// Whether `serde_json` reads the literal it writes for `s` back as `s`.
pub open spec fn reads_back(s: Seq<char>) -> bool {
    json_string_value(json_string_text(s)) == Some(s)
}

/// Whether each string of `c` is read back as it was written.
pub open spec fn strings_read_back(c: CommandView) -> bool {
    match c {
        CommandView::Put(k, v) => reads_back(k) && reads_back(v),
        CommandView::Delete(k) => reads_back(k),
    }
}

/// Whether each string of each command of `cmds` is read back as it was
/// written. Every command that has been encoded is such a one.
pub open spec fn all_read_back(cmds: Seq<CommandView>) -> bool {
    forall|i: int| 0 <= i < cmds.len() ==> strings_read_back(#[trigger] cmds[i])
}

/// A record whose strings are read back as written is parsed back as the
/// command it was written for.
pub proof fn lemma_record_parses_back(c: CommandView)
    requires
        strings_read_back(c),
    ensures
        parse_record(record_text(c)) == Some(c),
{
    let line = record_text(c);
    match c {
        CommandView::Put(k, v) => {
            let kt = json_string_text(k);
            let vt = json_string_text(v);
            let ks = put_open().len() as int;
            let ke = ks + kt.len();
            let ve = ke + 1 + vt.len();
            assert(line.subrange(0, ks) =~= put_open());
            assert(line.subrange(ks, ke) =~= kt);
            assert(line.subrange(ke + 1, ve) =~= vt);
            assert(line.subrange(ve, ve + put_close().len()) =~= put_close());
            lemma_literal_end(line, ks, k);
            lemma_literal_end(line, ke + 1, v);
            assert(line[ke] == COMMA);
        },
        CommandView::Delete(k) => {
            let kt = json_string_text(k);
            let ks = delete_open().len() as int;
            let ke = ks + kt.len();
            assert(line.subrange(0, ks) =~= delete_open());
            assert(line.subrange(ks, ke) =~= kt);
            assert(line.subrange(ke, ke + delete_close().len()) =~= delete_close());
            lemma_literal_end(line, ks, k);
            assert(!stands_at(line, 0, put_open())) by {
                assert(line[2] == 0x44u8);
                assert(put_open()[2] == 0x53u8);
                if stands_at(line, 0, put_open()) {
                    assert(line.subrange(0, put_open().len() as int)[2] == put_open()[2]);
                }
            }
        },
    }
}

/// The JSON string literal for `s`, as `serde_json` writes it.
pub fn json_literal(s: &str) -> (text: Vec<u8>)
    ensures
        text@ == json_string_text(s@),
        reads_back(s@),
{
    match write_json_string(s) {
        Ok(text) => text,
        Err(_) => Vec::new(),
    }
}

/// The bytes to append to the journal for `cmd`: the record's text and a line
/// feed. What is written here is parsed back as `cmd`.
pub fn encode_record(cmd: &Command) -> (line: Vec<u8>)
    ensures
        line@ == record_line(cmd@),
        strings_read_back(cmd@),
        parse_record(record_text(cmd@)) == Some(cmd@),
{
    let mut line: Vec<u8>;
    match cmd {
        Command::Put(k, v) => {
            line = put_open_bytes();
            let mut key = json_literal(k.as_str());
            line.append(&mut key);
            line.push(COMMA);
            let mut value = json_literal(v.as_str());
            line.append(&mut value);
            let mut close = put_close_bytes();
            line.append(&mut close);
        },
        Command::Delete(k) => {
            line = delete_open_bytes();
            let mut key = json_literal(k.as_str());
            line.append(&mut key);
            let mut close = delete_close_bytes();
            line.append(&mut close);
        },
    }
    assert(line@ =~= record_text(cmd@));
    line.push(NEWLINE);
    proof {
        lemma_record_parses_back(cmd@);
    }
    line
}

/// Reads one record: `line` is the record's text, without the line feed.
/// Returns the command it stands for, or `None` if the line is no record.
pub fn decode_record(line: &[u8]) -> (r: Option<Command>)
    ensures
        match r {
            Some(c) => parse_record(line@) == Some(c@),
            None => parse_record(line@) is None,
        },
{
    match scan_record(line) {
        Some(RecordShape::Put { key, value }) => {
            let k = read_json_string(slice_subrange(line, key.start, key.end));
            let v = read_json_string(slice_subrange(line, value.start, value.end));
            match (k, v) {
                (Ok(k), Ok(v)) => Some(Command::Put(k, v)),
                _ => None,
            }
        },
        Some(RecordShape::Delete { key }) => {
            match read_json_string(slice_subrange(line, key.start, key.end)) {
                Ok(k) => Some(Command::Delete(k)),
                Err(_) => None,
            }
        },
        None => None,
    }
}

} // verus!
