use vstd::prelude::*;
use vstd::utf8::{decode_utf8, encode_utf8, valid_utf8};

use crate::error::RustVaultError;
use crate::json::{
    escape_bytes, lemma_escape_no_line_break, lemma_jstr_round_trip, parse_jstr, push_escaped,
    spec_parse_jstr,
};
use crate::protocol::{body_of, nl_pos, not_nl_pred, Command, CommandModel};
use crate::store::{apply_mutation, kv_map, MemoryStore, Store};
use crate::text::{
    dec_digits, dec_val, digit_pred, is_digit, lemma_dec_digits_wf, lemma_dec_val_of_digits,
    lemma_run_len_bounds, lemma_run_len_exact, parse_u64, push_decimal, run_len,
    string_from_utf8,
};

verus! {

// ---------------------------------------------------------------------------
// Log entries
//
// The write-ahead log holds one entry per line:
//
//     {"timestamp":<millis>,"command":{"<name>":{"key":"…"[,"value":"…"]}}}
//
// where <name> is `Set`, `Get` or `Delete`, and the key and value are
// JSON-escaped strings. A line feed ends each entry.
// ---------------------------------------------------------------------------

/// A logged operation: a millisecond timestamp and the command.
#[derive(Debug, Clone, PartialEq, Eq)]
pub struct WalEntry {
    pub timestamp: u64,
    pub command: Command,
}

/// A log entry, seen through the command's model.
pub struct WalEntryModel {
    pub timestamp: u64,
    pub command: CommandModel,
}

impl View for WalEntry {
    type V = WalEntryModel;

    open spec fn view(&self) -> WalEntryModel {
        WalEntryModel { timestamp: self.timestamp, command: self.command@ }
    }
}

/// Relies on `std::time::SystemTime::now`: the clock's reading, converted to
/// milliseconds since the Unix epoch. Nothing is assumed of the value; a
/// clock before the epoch reads as zero.
#[verifier::external_body]
fn now_millis() -> u64 {
    match std::time::SystemTime::now().duration_since(std::time::UNIX_EPOCH) {
        Ok(d) => d.as_millis() as u64,
        Err(_) => 0,
    }
}

impl WalEntry {
    /// Stamps a command with the clock's current reading. The timestamp is
    /// whatever the clock says; replay never depends on it.
    pub fn new(command: Command) -> (e: WalEntry)
        ensures
            e.command == command,
    {
        WalEntry { timestamp: now_millis(), command }
    }
}

// ---------------------------------------------------------------------------
// The fixed pieces of an entry's JSON
// ---------------------------------------------------------------------------

/// The bytes of `{"timestamp":`.
pub open spec fn ts_prefix() -> Seq<u8> {
    seq![0x7bu8, 0x22, 0x74, 0x69, 0x6d, 0x65, 0x73, 0x74, 0x61, 0x6d, 0x70, 0x22, 0x3a]
}

/// The bytes of `,"command":{"`.
pub open spec fn cmd_infix() -> Seq<u8> {
    seq![0x2cu8, 0x22, 0x63, 0x6f, 0x6d, 0x6d, 0x61, 0x6e, 0x64, 0x22, 0x3a, 0x7b, 0x22]
}

/// The bytes of `":{"key":"`.
pub open spec fn key_open() -> Seq<u8> {
    seq![0x22u8, 0x3a, 0x7b, 0x22, 0x6b, 0x65, 0x79, 0x22, 0x3a, 0x22]
}

/// The bytes of `","value":"`.
pub open spec fn value_open() -> Seq<u8> {
    seq![0x2cu8, 0x22, 0x76, 0x61, 0x6c, 0x75, 0x65, 0x22, 0x3a, 0x22]
}

/// The bytes of `}}}`.
pub open spec fn close_braces() -> Seq<u8> {
    seq![0x7du8, 0x7d, 0x7d]
}

/// The bytes of `Set`.
pub open spec fn set_name() -> Seq<u8> {
    seq![0x53u8, 0x65, 0x74]
}

/// The bytes of `Get`.
pub open spec fn get_name() -> Seq<u8> {
    seq![0x47u8, 0x65, 0x74]
}

/// The bytes of `Delete`.
pub open spec fn delete_name() -> Seq<u8> {
    seq![0x44u8, 0x65, 0x6c, 0x65, 0x74, 0x65]
}

fn ts_prefix_vec() -> (v: Vec<u8>)
    ensures
        v@ == ts_prefix(),
{
    let mut v: Vec<u8> = Vec::new();
    v.push(0x7b);
    v.push(0x22);
    v.push(0x74);
    v.push(0x69);
    v.push(0x6d);
    v.push(0x65);
    v.push(0x73);
    v.push(0x74);
    v.push(0x61);
    v.push(0x6d);
    v.push(0x70);
    v.push(0x22);
    v.push(0x3a);
    proof {
        assert(v@ =~= ts_prefix());
    }
    v
}

fn cmd_infix_vec() -> (v: Vec<u8>)
    ensures
        v@ == cmd_infix(),
{
    let mut v: Vec<u8> = Vec::new();
    v.push(0x2c);
    v.push(0x22);
    v.push(0x63);
    v.push(0x6f);
    v.push(0x6d);
    v.push(0x6d);
    v.push(0x61);
    v.push(0x6e);
    v.push(0x64);
    v.push(0x22);
    v.push(0x3a);
    v.push(0x7b);
    v.push(0x22);
    proof {
        assert(v@ =~= cmd_infix());
    }
    v
}

fn key_open_vec() -> (v: Vec<u8>)
    ensures
        v@ == key_open(),
{
    let mut v: Vec<u8> = Vec::new();
    v.push(0x22);
    v.push(0x3a);
    v.push(0x7b);
    v.push(0x22);
    v.push(0x6b);
    v.push(0x65);
    v.push(0x79);
    v.push(0x22);
    v.push(0x3a);
    v.push(0x22);
    proof {
        assert(v@ =~= key_open());
    }
    v
}

fn value_open_vec() -> (v: Vec<u8>)
    ensures
        v@ == value_open(),
{
    let mut v: Vec<u8> = Vec::new();
    v.push(0x2c);
    v.push(0x22);
    v.push(0x76);
    v.push(0x61);
    v.push(0x6c);
    v.push(0x75);
    v.push(0x65);
    v.push(0x22);
    v.push(0x3a);
    v.push(0x22);
    proof {
        assert(v@ =~= value_open());
    }
    v
}

fn set_name_vec() -> (v: Vec<u8>)
    ensures
        v@ == set_name(),
{
    let mut v: Vec<u8> = Vec::new();
    v.push(0x53);
    v.push(0x65);
    v.push(0x74);
    proof {
        assert(v@ =~= set_name());
    }
    v
}

fn get_name_vec() -> (v: Vec<u8>)
    ensures
        v@ == get_name(),
{
    let mut v: Vec<u8> = Vec::new();
    v.push(0x47);
    v.push(0x65);
    v.push(0x74);
    proof {
        assert(v@ =~= get_name());
    }
    v
}

fn delete_name_vec() -> (v: Vec<u8>)
    ensures
        v@ == delete_name(),
{
    let mut v: Vec<u8> = Vec::new();
    v.push(0x44);
    v.push(0x65);
    v.push(0x6c);
    v.push(0x65);
    v.push(0x74);
    v.push(0x65);
    proof {
        assert(v@ =~= delete_name());
    }
    v
}

/// Checks that `line[pos..]` starts with `pat`.
fn expect_bytes(line: &[u8], pos: usize, pat: &[u8]) -> (r: bool)
    requires
        pos <= line@.len(),
    ensures
        r == (pos + pat@.len() <= line@.len() && line@.subrange(
            pos as int,
            pos as int + pat@.len() as int,
        ) == pat@),
{
    if line.len() - pos < pat.len() {
        proof {
            if pos + pat@.len() <= line@.len() {
                assert(false);
            }
        }
        return false;
    }
    let n = line.len();
    let mut k: usize = 0;
    while k < pat.len()
        invariant
            0 <= k <= pat@.len(),
            n == line@.len(),
            pos + pat@.len() <= line@.len(),
            forall|j: int| 0 <= j < k ==> line@[pos + j] == pat@[j],
        decreases pat@.len() - k,
    {
        if line[pos + k] != pat[k] {
            proof {
                if line@.subrange(pos as int, pos as int + pat@.len() as int) == pat@ {
                    assert(line@.subrange(pos as int, pos as int + pat@.len() as int)[k as int]
                        == line@[pos + k]);
                    assert(false);
                }
            }
            return false;
        }
        k = k + 1;
    }
    proof {
        assert(line@.subrange(pos as int, pos as int + pat@.len() as int) =~= pat@);
    }
    true
}

// ---------------------------------------------------------------------------
// Encoding
// ---------------------------------------------------------------------------

/// The command's part of an entry's JSON: the verb's name and its object.
pub open spec fn spec_entry_tail(c: CommandModel) -> Seq<u8> {
    match c {
        CommandModel::Put { key, value } => set_name() + key_open() + escape_bytes(
            encode_utf8(key),
        ) + seq![0x22u8] + value_open() + escape_bytes(encode_utf8(value)) + seq![0x22u8]
            + close_braces(),
        CommandModel::Get { key } => get_name() + key_open() + escape_bytes(encode_utf8(key))
            + seq![0x22u8] + close_braces(),
        CommandModel::Delete { key } => delete_name() + key_open() + escape_bytes(
            encode_utf8(key),
        ) + seq![0x22u8] + close_braces(),
    }
}

/// The JSON object of an entry, without the line feed.
pub open spec fn spec_entry_body(e: WalEntryModel) -> Seq<u8> {
    ts_prefix() + dec_digits(e.timestamp as nat) + cmd_infix() + spec_entry_tail(e.command)
}

/// An entry's line: its JSON object, then a line feed.
pub open spec fn spec_encode_entry(e: WalEntryModel) -> Seq<u8> {
    spec_entry_body(e).push(0x0a)
}

/// Encodes an entry as one log line, ending in a line feed.
pub fn encode_entry(e: &WalEntry) -> (out: Vec<u8>)
    ensures
        out@ == spec_encode_entry(e@),
{
    let mut out: Vec<u8> = Vec::new();
    let pre = ts_prefix_vec();
    out.extend_from_slice(pre.as_slice());
    push_decimal(&mut out, e.timestamp);
    let mid = cmd_infix_vec();
    out.extend_from_slice(mid.as_slice());
    match &e.command {
        Command::Put { key, value } => {
            let name = set_name_vec();
            out.extend_from_slice(name.as_slice());
            let ko = key_open_vec();
            out.extend_from_slice(ko.as_slice());
            push_escaped(&mut out, key.as_str());
            out.push(0x22);
            let vo = value_open_vec();
            out.extend_from_slice(vo.as_slice());
            push_escaped(&mut out, value.as_str());
        }
        Command::Get { key } => {
            let name = get_name_vec();
            out.extend_from_slice(name.as_slice());
            let ko = key_open_vec();
            out.extend_from_slice(ko.as_slice());
            push_escaped(&mut out, key.as_str());
        }
        Command::Delete { key } => {
            let name = delete_name_vec();
            out.extend_from_slice(name.as_slice());
            let ko = key_open_vec();
            out.extend_from_slice(ko.as_slice());
            push_escaped(&mut out, key.as_str());
        }
    }
    out.push(0x22);
    out.push(0x7d);
    out.push(0x7d);
    out.push(0x7d);
    out.push(0x0a);
    proof {
        assert(out@ =~= spec_encode_entry(e@));
    }
    out
}

// ---------------------------------------------------------------------------
// Decoding
// ---------------------------------------------------------------------------

/// Reads `{"key":"…"}}}` (with its leading `":`) at `q`: the key's decoded
/// bytes, for a command without a value. The braces must end the line.
pub open spec fn spec_parse_key_only_entry(b: Seq<u8>, q: int) -> Option<Seq<u8>> {
    if 0 <= q && q + 10 <= b.len() && b.subrange(q, q + 10) == key_open() {
        match spec_parse_jstr(b.skip(q + 10)) {
            Some(t) => {
                let p = q + 10 + t.1;
                if b.len() == p + 3 && b.subrange(p, p + 3) == close_braces() {
                    Some(t.0)
                } else {
                    None
                }
            }
            None => None,
        }
    } else {
        None
    }
}

/// Reads `{"key":"…","value":"…"}}}` (with its leading `":`) at `q`: the
/// key's and value's decoded bytes. The braces must end the line.
pub open spec fn spec_parse_put_entry(b: Seq<u8>, q: int) -> Option<(Seq<u8>, Seq<u8>)> {
    if 0 <= q && q + 10 <= b.len() && b.subrange(q, q + 10) == key_open() {
        match spec_parse_jstr(b.skip(q + 10)) {
            Some(t) => {
                let p = q + 10 + t.1;
                if 0 <= p && p + 10 <= b.len() && b.subrange(p, p + 10) == value_open() {
                    match spec_parse_jstr(b.skip(p + 10)) {
                        Some(t2) => {
                            let p2 = p + 10 + t2.1;
                            if b.len() == p2 + 3 && b.subrange(p2, p2 + 3) == close_braces() {
                                Some((t.0, t2.0))
                            } else {
                                None
                            }
                        }
                        None => None,
                    }
                } else {
                    None
                }
            }
            None => None,
        }
    } else {
        None
    }
}

/// Reads one entry from the bytes of a log line (terminator already
/// stripped). The timestamp must be a decimal that fits in a `u64`, the
/// command one of the three named forms, and the key and value valid UTF-8.
pub open spec fn spec_parse_entry(b: Seq<u8>) -> Option<WalEntryModel> {
    if b.len() >= 13 && b.subrange(0, 13) == ts_prefix() {
        let dl = run_len(b, 13, digit_pred());
        let tval = dec_val(b.subrange(13, 13 + dl));
        if dl >= 1 && tval <= u64::MAX {
            let p = 13 + dl;
            if p + 13 <= b.len() && b.subrange(p, p + 13) == cmd_infix() {
                let q = p + 13;
                if q + 3 <= b.len() && b.subrange(q, q + 3) == set_name() {
                    match spec_parse_put_entry(b, q + 3) {
                        Some(kv) => if valid_utf8(kv.0) && valid_utf8(kv.1) {
                            Some(
                                WalEntryModel {
                                    timestamp: tval as u64,
                                    command: CommandModel::Put {
                                        key: decode_utf8(kv.0),
                                        value: decode_utf8(kv.1),
                                    },
                                },
                            )
                        } else {
                            None
                        },
                        None => None,
                    }
                } else if q + 3 <= b.len() && b.subrange(q, q + 3) == get_name() {
                    match spec_parse_key_only_entry(b, q + 3) {
                        Some(kb) => if valid_utf8(kb) {
                            Some(
                                WalEntryModel {
                                    timestamp: tval as u64,
                                    command: CommandModel::Get { key: decode_utf8(kb) },
                                },
                            )
                        } else {
                            None
                        },
                        None => None,
                    }
                } else if q + 6 <= b.len() && b.subrange(q, q + 6) == delete_name() {
                    match spec_parse_key_only_entry(b, q + 6) {
                        Some(kb) => if valid_utf8(kb) {
                            Some(
                                WalEntryModel {
                                    timestamp: tval as u64,
                                    command: CommandModel::Delete { key: decode_utf8(kb) },
                                },
                            )
                        } else {
                            None
                        },
                        None => None,
                    }
                } else {
                    None
                }
            } else {
                None
            }
        } else {
            None
        }
    } else {
        None
    }
}

/// The diagnostic carried by every rejected log line.
pub open spec fn wal_error_chars() -> Seq<char> {
    "Failed to parse WAL entry"@
}

fn wal_error() -> (e: RustVaultError)
    ensures
        e matches RustVaultError::Wal(m) && m@ == wal_error_chars(),
{
    RustVaultError::Wal("Failed to parse WAL entry".to_owned())
}

/// Scans past digits, from `start` to at most `end`.
fn scan_digits(line: &[u8], start: usize, end: usize) -> (r: usize)
    requires
        start <= end <= line@.len(),
    ensures
        start <= r <= end,
        r - start == run_len(line@.take(end as int), start as int, digit_pred()),
{
    let ghost body = line@.take(end as int);
    let mut j = start;
    while j < end && 0x30 <= line[j] && line[j] <= 0x39
        invariant
            start <= j <= end <= line@.len(),
            forall|k: int| start <= k < j ==> is_digit(#[trigger] line@[k]),
        decreases end - j,
    {
        j = j + 1;
    }
    proof {
        lemma_run_len_exact(body, start as int, j as int, digit_pred());
    }
    j
}

/// Reads the key (and for `Set` the value) of an entry, which must end the
/// line, and builds the command.
fn parse_entry_fields(line: &[u8], q: usize, has_value: bool) -> (r: Option<(String, Option<
    String,
>)>)
    requires
        q <= line@.len(),
    ensures
        has_value ==> (match spec_parse_put_entry(line@, q as int) {
            Some(kv) => if valid_utf8(kv.0) && valid_utf8(kv.1) {
                &&& r matches Some(p)
                &&& p.0@ == decode_utf8(kv.0)
                &&& p.1 matches Some(v)
                &&& v@ == decode_utf8(kv.1)
            } else {
                r is None
            },
            None => r is None,
        }),
        !has_value ==> (match spec_parse_key_only_entry(line@, q as int) {
            Some(kb) => if valid_utf8(kb) {
                r matches Some(p) && p.0@ == decode_utf8(kb) && p.1 is None
            } else {
                r is None
            },
            None => r is None,
        }),
{
    let n = line.len();
    let ko = key_open_vec();
    if !expect_bytes(line, q, ko.as_slice()) {
        return None;
    }
    let (kb, p) = match parse_jstr(line, q + 10) {
        Some(t) => t,
        None => {
            return None;
        }
    };
    if has_value {
        let vo = value_open_vec();
        if !expect_bytes(line, p, vo.as_slice()) {
            return None;
        }
        let (vb, p2) = match parse_jstr(line, p + 10) {
            Some(t) => t,
            None => {
                return None;
            }
        };
        let cb = close_braces_vec();
        if !expect_bytes(line, p2, cb.as_slice()) {
            return None;
        }
        if p2 + 3 != line.len() {
            return None;
        }
        let key = match string_from_utf8(kb) {
            Some(s) => s,
            None => {
                return None;
            }
        };
        let value = match string_from_utf8(vb) {
            Some(s) => s,
            None => {
                return None;
            }
        };
        Some((key, Some(value)))
    } else {
        let cb = close_braces_vec();
        if !expect_bytes(line, p, cb.as_slice()) {
            return None;
        }
        if p + 3 != line.len() {
            return None;
        }
        let key = match string_from_utf8(kb) {
            Some(s) => s,
            None => {
                return None;
            }
        };
        Some((key, None))
    }
}

fn close_braces_vec() -> (v: Vec<u8>)
    ensures
        v@ == close_braces(),
{
    let mut v: Vec<u8> = Vec::new();
    v.push(0x7d);
    v.push(0x7d);
    v.push(0x7d);
    proof {
        assert(v@ =~= close_braces());
    }
    v
}

/// Decodes one log line (terminator already stripped) into an entry, or
/// rejects it as malformed.
#[verifier::rlimit(60)]
pub fn parse_entry(line: &[u8]) -> (r: Result<WalEntry, RustVaultError>)
    ensures
        match spec_parse_entry(line@) {
            Some(m) => r matches Ok(e) && e@ == m,
            None => r matches Err(e) && e matches RustVaultError::Wal(msg) && msg@
                == wal_error_chars(),
        },
{
    let tsp = ts_prefix_vec();
    if !expect_bytes(line, 0, tsp.as_slice()) {
        return Err(wal_error());
    }
    let dend = scan_digits(line, 13, line.len());
    proof {
        assert(line@.take(line@.len() as int) =~= line@);
    }
    if dend == 13 {
        return Err(wal_error());
    }
    proof {
        lemma_run_len_bounds(line@, 13, digit_pred());
    }
    let t = match parse_u64(line, 13, dend) {
        Some(t) => t,
        None => {
            return Err(wal_error());
        }
    };
    let cmi = cmd_infix_vec();
    if !expect_bytes(line, dend, cmi.as_slice()) {
        return Err(wal_error());
    }
    let q = dend + 13;
    let sn = set_name_vec();
    let gn = get_name_vec();
    let dn = delete_name_vec();
    if expect_bytes(line, q, sn.as_slice()) {
        match parse_entry_fields(line, q + 3, true) {
            Some((key, Some(value))) => Ok(
                WalEntry { timestamp: t, command: Command::Put { key, value } },
            ),
            _ => Err(wal_error()),
        }
    } else if expect_bytes(line, q, gn.as_slice()) {
        match parse_entry_fields(line, q + 3, false) {
            Some((key, None)) => Ok(WalEntry { timestamp: t, command: Command::Get { key } }),
            _ => Err(wal_error()),
        }
    } else if expect_bytes(line, q, dn.as_slice()) {
        match parse_entry_fields(line, q + 6, false) {
            Some((key, None)) => Ok(WalEntry { timestamp: t, command: Command::Delete { key } }),
            _ => Err(wal_error()),
        }
    } else {
        Err(wal_error())
    }
}

// ---------------------------------------------------------------------------
// Encode and decode agree
// ---------------------------------------------------------------------------

/// An entry's JSON never holds a line feed, opens with a brace and closes
/// with one: a written line is framed exactly as replay will split it.
pub proof fn lemma_entry_body_line_safe(e: WalEntryModel)
    ensures
        spec_entry_body(e).len() > 0,
        forall|k: int|
            0 <= k < spec_entry_body(e).len() ==> #[trigger] spec_entry_body(e)[k] != 0x0a,
        spec_entry_body(e).last() == 0x7d,
        spec_entry_body(e)[0] == 0x7b,
{
    let b = spec_entry_body(e);
    let digits = dec_digits(e.timestamp as nat);
    lemma_dec_digits_wf(e.timestamp as nat);
    match e.command {
        CommandModel::Put { key, value } => {
            lemma_escape_no_line_break(encode_utf8(key));
            lemma_escape_no_line_break(encode_utf8(value));
        }
        CommandModel::Get { key } => {
            lemma_escape_no_line_break(encode_utf8(key));
        }
        CommandModel::Delete { key } => {
            lemma_escape_no_line_break(encode_utf8(key));
        }
    }
    assert forall|k: int| 0 <= k < b.len() implies #[trigger] b[k] != 0x0a by {}
}

/// The shared head of an encoded entry reads back as written: the timestamp
/// prefix, the digits of the timestamp, and the command infix.
proof fn lemma_round_trip_head(e: WalEntryModel)
    ensures
        ({
            let b = spec_entry_body(e);
            let dl = dec_digits(e.timestamp as nat).len() as int;
            &&& b.len() >= 13 && b.subrange(0, 13) == ts_prefix()
            &&& run_len(b, 13, digit_pred()) == dl
            &&& dl >= 1
            &&& dec_val(b.subrange(13, 13 + dl)) == e.timestamp
            &&& 13 + dl + 13 <= b.len() && b.subrange(13 + dl, 13 + dl + 13) == cmd_infix()
        }),
{
    let b = spec_entry_body(e);
    let t = e.timestamp;
    let digits = dec_digits(t as nat);
    let dl = digits.len() as int;
    lemma_dec_digits_wf(t as nat);
    lemma_dec_val_of_digits(t as nat);
    assert(b.subrange(0, 13) =~= ts_prefix());
    assert(b.subrange(13, 13 + dl) =~= digits);
    assert(b[13 + dl] == 0x2c);
    lemma_run_len_exact(b, 13, 13 + dl, digit_pred());
    let p = 13 + dl;
    assert(b.subrange(p, p + 13) =~= cmd_infix());
}

/// Decoding an encoded `Set` entry yields the entry back.
#[verifier::rlimit(60)]
proof fn lemma_entry_round_trip_put(e: WalEntryModel)
    requires
        e.command is Put,
    ensures
        spec_parse_entry(spec_entry_body(e)) == Some(e),
{
    let b = spec_entry_body(e);
    let t = e.timestamp;
    let dl = dec_digits(t as nat).len() as int;
    lemma_round_trip_head(e);
    let p = 13 + dl;
    let q = p + 13;
    match e.command {
        CommandModel::Put { key, value } => {
            let sk = encode_utf8(key);
            let sv = encode_utf8(value);
            let ek = escape_bytes(sk);
            let ev = escape_bytes(sv);
            assert(b.subrange(q, q + 3) =~= set_name());
            assert(b.subrange(q + 3, q + 13) =~= key_open());
            let rest1 = value_open() + ev + seq![0x22u8] + close_braces();
            assert(b.skip(q + 13) =~= ek + seq![0x22u8] + rest1);
            lemma_jstr_round_trip(sk, rest1);
            let p1 = q + 13 + ek.len() + 1;
            assert(b.subrange(p1, p1 + 10) =~= value_open());
            let rest2 = close_braces();
            assert(b.skip(p1 + 10) =~= ev + seq![0x22u8] + rest2);
            lemma_jstr_round_trip(sv, rest2);
            let p2 = p1 + 10 + ev.len() + 1;
            assert(b.len() == p2 + 3);
            assert(b.subrange(p2, p2 + 3) =~= close_braces());
            vstd::utf8::encode_utf8_valid_utf8(key);
            vstd::utf8::encode_utf8_valid_utf8(value);
            vstd::utf8::encode_utf8_decode_utf8(key);
            vstd::utf8::encode_utf8_decode_utf8(value);
            assert(spec_parse_put_entry(b, q + 3) == Some((sk, sv)));
        }
        _ => {}
    }
}

/// Decoding an encoded `Get` entry yields the entry back.
#[verifier::rlimit(60)]
proof fn lemma_entry_round_trip_get(e: WalEntryModel)
    requires
        e.command is Get,
    ensures
        spec_parse_entry(spec_entry_body(e)) == Some(e),
{
    let b = spec_entry_body(e);
    let t = e.timestamp;
    let dl = dec_digits(t as nat).len() as int;
    lemma_round_trip_head(e);
    let p = 13 + dl;
    let q = p + 13;
    match e.command {
        CommandModel::Get { key } => {
            let sk = encode_utf8(key);
            let ek = escape_bytes(sk);
            assert(b.subrange(q, q + 3) =~= get_name());
            assert(b.subrange(q, q + 3)[0] != set_name()[0]);
            assert(b.subrange(q, q + 3) != set_name());
            assert(b.subrange(q + 3, q + 13) =~= key_open());
            let rest1 = close_braces();
            assert(b.skip(q + 13) =~= ek + seq![0x22u8] + rest1);
            lemma_jstr_round_trip(sk, rest1);
            let p1 = q + 13 + ek.len() + 1;
            assert(b.len() == p1 + 3);
            assert(b.subrange(p1, p1 + 3) =~= close_braces());
            vstd::utf8::encode_utf8_valid_utf8(key);
            vstd::utf8::encode_utf8_decode_utf8(key);
            assert(spec_parse_key_only_entry(b, q + 3) == Some(sk));
        }
        _ => {}
    }
}

/// Decoding an encoded `Delete` entry yields the entry back.
#[verifier::rlimit(60)]
proof fn lemma_entry_round_trip_delete(e: WalEntryModel)
    requires
        e.command is Delete,
    ensures
        spec_parse_entry(spec_entry_body(e)) == Some(e),
{
    let b = spec_entry_body(e);
    let t = e.timestamp;
    let dl = dec_digits(t as nat).len() as int;
    lemma_round_trip_head(e);
    let p = 13 + dl;
    let q = p + 13;
    match e.command {
        CommandModel::Delete { key } => {
            let sk = encode_utf8(key);
            let ek = escape_bytes(sk);
            assert(b.subrange(q, q + 6) =~= delete_name());
            if q + 3 <= b.len() && b.subrange(q, q + 3) == set_name() {
                assert(b.subrange(q, q + 3)[0] == b[q]);
                assert(false);
            }
            if q + 3 <= b.len() && b.subrange(q, q + 3) == get_name() {
                assert(b.subrange(q, q + 3)[0] == b[q]);
                assert(false);
            }
            assert(b.subrange(q + 6, q + 16) =~= key_open());
            let rest1 = close_braces();
            assert(b.skip(q + 16) =~= ek + seq![0x22u8] + rest1);
            lemma_jstr_round_trip(sk, rest1);
            let p1 = q + 16 + ek.len() + 1;
            assert(b.len() == p1 + 3);
            assert(b.subrange(p1, p1 + 3) =~= close_braces());
            vstd::utf8::encode_utf8_valid_utf8(key);
            vstd::utf8::encode_utf8_decode_utf8(key);
            assert(spec_parse_key_only_entry(b, q + 6) == Some(sk));
        }
        _ => {}
    }
}

/// Decoding an encoded entry yields the entry back.
pub proof fn lemma_entry_round_trip(e: WalEntryModel)
    ensures
        spec_parse_entry(spec_entry_body(e)) == Some(e),
{
    match e.command {
        CommandModel::Put { .. } => lemma_entry_round_trip_put(e),
        CommandModel::Get { .. } => lemma_entry_round_trip_get(e),
        CommandModel::Delete { .. } => lemma_entry_round_trip_delete(e),
    }
}

// ---------------------------------------------------------------------------
// Replay
// ---------------------------------------------------------------------------

/// True of the ASCII whitespace bytes.
pub open spec fn is_ws(b: u8) -> bool {
    b == 0x20 || b == 0x09 || b == 0x0a || b == 0x0b || b == 0x0c || b == 0x0d
}

/// A line of nothing but whitespace; replay skips such lines.
pub open spec fn is_blank(line: Seq<u8>) -> bool {
    forall|k: int| 0 <= k < line.len() ==> is_ws(#[trigger] line[k])
}

/// What replaying `data` from keyspace `m` computes: each complete line is
/// decoded and its command applied in order (`Get` changes nothing); blank
/// lines are skipped; bytes after the last line feed are ignored, so a
/// partly written final entry is harmless; a malformed line is fatal.
pub open spec fn spec_replay(m: Map<Seq<char>, Seq<char>>, data: Seq<u8>) -> Option<
    Map<Seq<char>, Seq<char>>,
>
    decreases data.len()
{
    let n = nl_pos(data);
    if n < 0 || n >= data.len() {
        Some(m)
    } else {
        let line = body_of(data);
        let rest = data.skip(n + 1);
        if is_blank(line) {
            spec_replay(m, rest)
        } else {
            match spec_parse_entry(line) {
                Some(e) => spec_replay(apply_mutation(m, e.command), rest),
                None => None,
            }
        }
    }
}

fn is_blank_slice(line: &[u8]) -> (r: bool)
    ensures
        r == is_blank(line@),
{
    let mut i: usize = 0;
    while i < line.len()
        invariant
            0 <= i <= line@.len(),
            forall|k: int| 0 <= k < i ==> is_ws(#[trigger] line@[k]),
        decreases line@.len() - i,
    {
        let c = line[i];
        if !(c == 0x20 || c == 0x09 || c == 0x0a || c == 0x0b || c == 0x0c || c == 0x0d) {
            return false;
        }
        i = i + 1;
    }
    true
}

/// Replays a log's bytes into the store. Returns an error, leaving the
/// store at the entries already applied, exactly when a complete line is
/// malformed; a partly written final line is ignored.
pub fn replay(data: &[u8], store: &mut MemoryStore) -> (r: Result<(), RustVaultError>)
    requires
        old(store).inv(),
    ensures
        final(store).inv(),
        match spec_replay(old(store).keyspace(), data@) {
            Some(m) => r is Ok && final(store).keyspace() == m,
            None => r matches Err(e) && e matches RustVaultError::Wal(msg) && msg@
                == wal_error_chars(),
        },
{
    let n = data.len();
    let mut pos: usize = 0;
    proof {
        assert(data@.skip(0) =~= data@);
    }
    loop
        invariant
            0 <= pos <= n == data@.len(),
            store.inv(),
            spec_replay(old(store).keyspace(), data@) == spec_replay(
                store.keyspace(),
                data@.skip(pos as int),
            ),
        decreases n - pos,
    {
        let ghost seg = data@.skip(pos as int);
        let mut j = pos;
        while j < n && data[j] != 0x0a
            invariant
                pos <= j <= n == data@.len(),
                forall|k: int| pos <= k < j ==> data@[k] != 0x0a,
            decreases n - j,
        {
            j = j + 1;
        }
        proof {
            assert(seg.take(seg.len() as int) =~= seg);
            assert(forall|k: int|
                0 <= k < j - pos ==> #[trigger] seg[k] == data@[pos + k] && seg[k] != 0x0a);
            lemma_run_len_exact(seg, 0, (j - pos) as int, not_nl_pred());
            assert(nl_pos(seg) == j - pos);
        }
        if j == n {
            return Ok(());
        }
        let body_end = if j > pos && data[j - 1] == 0x0d {
            j - 1
        } else {
            j
        };
        proof {
            assert(body_of(seg) =~= data@.subrange(pos as int, body_end as int));
        }
        let line = vstd::slice::slice_subrange(data, pos, body_end);
        proof {
            assert(data@.skip((j + 1) as int) =~= seg.skip((j - pos + 1) as int));
        }
        if !is_blank_slice(line) {
            match parse_entry(line) {
                Ok(entry) => {
                    match store.apply_command(entry.command) {
                        Ok(_) => (),
                        Err(e) => {
                            return Err(e);
                        }
                    }
                }
                Err(e) => {
                    return Err(e);
                }
            }
        }
        pos = j + 1;
    }
}

// ---------------------------------------------------------------------------
// Laws of the log
// ---------------------------------------------------------------------------

/// Partial-tail tolerance: bytes appended after the last line feed — such as
/// a partly written entry — never change what replay computes.
pub proof fn lemma_partial_tail(m: Map<Seq<char>, Seq<char>>, data: Seq<u8>, tail: Seq<u8>)
    requires
        forall|k: int| 0 <= k < tail.len() ==> #[trigger] tail[k] != 0x0a,
    ensures
        spec_replay(m, data + tail) == spec_replay(m, data),
    decreases data.len(),
{
    let whole = data + tail;
    let n = nl_pos(data);
    lemma_run_len_bounds(data, 0, not_nl_pred());
    if n >= data.len() {
        assert(forall|k: int| 0 <= k < data.len() ==> #[trigger] data[k] != 0x0a);
        assert(forall|k: int|
            0 <= k < whole.len() ==> #[trigger] whole[k] != 0x0a);
        lemma_run_len_exact(whole, 0, whole.len() as int, not_nl_pred());
    } else {
        assert(data[n] == 0x0a);
        assert(forall|k: int| 0 <= k < n ==> #[trigger] whole[k] == data[k]);
        lemma_run_len_exact(whole, 0, n, not_nl_pred());
        assert(nl_pos(whole) == n);
        assert(body_of(whole) =~= body_of(data));
        assert(whole.skip(n + 1) =~= data.skip(n + 1) + tail);
        if is_blank(body_of(data)) {
            lemma_partial_tail(m, data.skip(n + 1), tail);
        } else {
            match spec_parse_entry(body_of(data)) {
                Some(e) => {
                    lemma_partial_tail(apply_mutation(m, e.command), data.skip(n + 1), tail);
                }
                None => {}
            }
        }
    }
}

/// The log lines of a sequence of entries, in order.
pub open spec fn spec_wal_bytes(entries: Seq<WalEntryModel>) -> Seq<u8>
    decreases entries.len()
{
    if entries.len() == 0 {
        Seq::empty()
    } else {
        spec_encode_entry(entries[0]) + spec_wal_bytes(entries.drop_first())
    }
}

/// Appending one entry appends its line.
pub proof fn lemma_wal_bytes_snoc(entries: Seq<WalEntryModel>, e: WalEntryModel)
    ensures
        spec_wal_bytes(entries.push(e)) == spec_wal_bytes(entries) + spec_encode_entry(e),
    decreases entries.len(),
{
    if entries.len() == 0 {
        assert(entries.push(e).drop_first() =~= Seq::<WalEntryModel>::empty());
        assert(entries.push(e)[0] == e);
        assert(spec_wal_bytes(entries.push(e)) == spec_encode_entry(e) + spec_wal_bytes(
            Seq::<WalEntryModel>::empty(),
        ));
        assert(spec_wal_bytes(Seq::<WalEntryModel>::empty()) == Seq::<u8>::empty());
        assert(spec_wal_bytes(entries) == Seq::<u8>::empty());
        assert(spec_encode_entry(e) + Seq::<u8>::empty() =~= Seq::<u8>::empty()
            + spec_encode_entry(e));
    } else {
        assert(entries.push(e)[0] == entries[0]);
        assert(entries.push(e).drop_first() =~= entries.drop_first().push(e));
        lemma_wal_bytes_snoc(entries.drop_first(), e);
        assert(spec_wal_bytes(entries.push(e)) =~= spec_wal_bytes(entries)
            + spec_encode_entry(e));
    }
}

/// The keyspace after applying the entries' commands in order.
pub open spec fn spec_apply_entries(
    m: Map<Seq<char>, Seq<char>>,
    entries: Seq<WalEntryModel>,
) -> Map<Seq<char>, Seq<char>>
    decreases entries.len()
{
    if entries.len() == 0 {
        m
    } else {
        apply_mutation(spec_apply_entries(m, entries.drop_last()), entries.last().command)
    }
}

/// Applying the entries is applying the first, then the rest.
pub proof fn lemma_apply_entries_unfold_first(
    m: Map<Seq<char>, Seq<char>>,
    entries: Seq<WalEntryModel>,
)
    requires
        entries.len() > 0,
    ensures
        spec_apply_entries(m, entries) == spec_apply_entries(
            apply_mutation(m, entries[0].command),
            entries.drop_first(),
        ),
    decreases entries.len(),
{
    if entries.len() == 1 {
        assert(entries.drop_first() =~= Seq::<WalEntryModel>::empty());
        assert(entries.drop_last() =~= Seq::<WalEntryModel>::empty());
        assert(entries.last() == entries[0]);
        assert(spec_apply_entries(m, Seq::<WalEntryModel>::empty()) == m);
        assert(spec_apply_entries(m, entries.drop_last()) == m);
        assert(spec_apply_entries(m, entries) == apply_mutation(m, entries[0].command));
        assert(spec_apply_entries(apply_mutation(m, entries[0].command), entries.drop_first())
            == apply_mutation(m, entries[0].command));
    } else {
        let pre = entries.drop_last();
        let m1 = apply_mutation(m, entries[0].command);
        lemma_apply_entries_unfold_first(m, pre);
        assert(pre[0] == entries[0]);
        assert(pre.drop_first() =~= entries.drop_first().drop_last());
        assert(entries.drop_first().last() == entries.last());
        assert(entries.drop_first().len() > 0);
        assert(spec_apply_entries(m1, entries.drop_first()) == apply_mutation(
            spec_apply_entries(m1, entries.drop_first().drop_last()),
            entries.drop_first().last().command,
        ));
        assert(spec_apply_entries(m, entries) == apply_mutation(
            spec_apply_entries(m, pre),
            entries.last().command,
        ));
        assert(spec_apply_entries(m, pre) == spec_apply_entries(m1, pre.drop_first()));
    }
}

/// Replay equivalence: replaying the encoded lines of a sequence of entries
/// from any keyspace applies exactly their commands, in order.
pub proof fn lemma_replay_of_entries(
    m: Map<Seq<char>, Seq<char>>,
    entries: Seq<WalEntryModel>,
)
    ensures
        spec_replay(m, spec_wal_bytes(entries)) == Some(spec_apply_entries(m, entries)),
    decreases entries.len(),
{
    let data = spec_wal_bytes(entries);
    if entries.len() == 0 {
        assert(data.len() == 0);
        lemma_run_len_bounds(data, 0, not_nl_pred());
    } else {
        let e0 = entries[0];
        let body = spec_entry_body(e0);
        let rest_bytes = spec_wal_bytes(entries.drop_first());
        assert(data =~= body + seq![0x0au8] + rest_bytes);
        lemma_entry_body_line_safe(e0);
        assert(forall|k: int| 0 <= k < body.len() ==> #[trigger] data[k] != 0x0a);
        assert(data[body.len() as int] == 0x0a);
        lemma_run_len_exact(data, 0, body.len() as int, not_nl_pred());
        assert(nl_pos(data) == body.len());
        assert(data[body.len() - 1] == body.last());
        assert(body_of(data) =~= body);
        assert(!is_blank(body)) by {
            assert(!is_ws(body[0]));
        }
        lemma_entry_round_trip(e0);
        assert(data.skip(body.len() as int + 1) =~= rest_bytes);
        lemma_replay_of_entries(apply_mutation(m, e0.command), entries.drop_first());
        lemma_apply_entries_unfold_first(m, entries);
    }
}

// ---------------------------------------------------------------------------
// Compaction
// ---------------------------------------------------------------------------

/// A sequence of `Set` entries, applied from an empty keyspace, builds
/// exactly the map of its pairs.
pub proof fn lemma_apply_put_entries(entries: Seq<WalEntryModel>, pairs: Seq<(String, String)>)
    requires
        entries.len() == pairs.len(),
        forall|k: int|
            0 <= k < entries.len() ==> ((#[trigger] entries[k].command) matches
                CommandModel::Put { key, value } && key == pairs[k].0@ && value == pairs[k].1@),
    ensures
        spec_apply_entries(Map::<Seq<char>, Seq<char>>::empty(), entries) == kv_map(pairs),
    decreases entries.len(),
{
    if entries.len() > 0 {
        lemma_apply_put_entries(entries.drop_last(), pairs.drop_last());
        assert(entries.last() == entries[entries.len() - 1]);
        assert(pairs.drop_last().len() == entries.drop_last().len());
    }
}

/// Rewrites a snapshot as one `Set` line per mapping, in snapshot order.
/// Replaying these lines from an empty keyspace yields exactly the
/// snapshot's map: compaction preserves the keyspace.
pub fn compaction_bytes(pairs: &Vec<(String, String)>) -> (out: Vec<u8>)
    ensures
        spec_replay(Map::<Seq<char>, Seq<char>>::empty(), out@) == Some(kv_map(pairs@)),
{
    let ghost mut entries: Seq<WalEntryModel> = Seq::empty();
    let mut out: Vec<u8> = Vec::new();
    let mut i: usize = 0;
    while i < pairs.len()
        invariant
            0 <= i <= pairs@.len(),
            entries.len() == i,
            out@ == spec_wal_bytes(entries),
            forall|k: int|
                0 <= k < i ==> ((#[trigger] entries[k].command) matches CommandModel::Put {
                    key,
                    value,
                } && key == pairs@[k].0@ && value == pairs@[k].1@),
        decreases pairs@.len() - i,
    {
        let pair = &pairs[i];
        let entry = WalEntry::new(
            Command::Put { key: pair.0.clone(), value: pair.1.clone() },
        );
        let mut line = encode_entry(&entry);
        proof {
            lemma_wal_bytes_snoc(entries, entry@);
        }
        out.append(&mut line);
        proof {
            entries = entries.push(entry@);
        }
        i = i + 1;
    }
    proof {
        lemma_replay_of_entries(Map::<Seq<char>, Seq<char>>::empty(), entries);
        lemma_apply_put_entries(entries, pairs@);
    }
    out
}

} // verus!
