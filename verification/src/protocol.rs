use vstd::prelude::*;
use vstd::slice::{slice_subrange, slice_to_vec};
use vstd::utf8::{decode_utf8, encode_utf8, valid_utf8};

use crate::error::RustVaultError;
use crate::text::{
    lemma_ascii_prefix_boundary, lemma_run_len_exact, run_len, string_from_utf8,
};

verus! {

/// Commands understood by the store.
#[derive(Debug, Clone, PartialEq, Eq)]
pub enum Command {
    Put { key: String, value: String },
    Get { key: String },
    Delete { key: String },
}

/// Responses sent back to a client.
#[derive(Debug, Clone, PartialEq, Eq)]
pub enum Response {
    Okay,
    Value(String),
    NotFound,
    Error(String),
}

/// A command, seen as the character sequences it carries.
pub enum CommandModel {
    Put { key: Seq<char>, value: Seq<char> },
    Get { key: Seq<char> },
    Delete { key: Seq<char> },
}

/// A response, seen as the character sequences it carries.
pub enum ResponseModel {
    Okay,
    Value(Seq<char>),
    NotFound,
    Error(Seq<char>),
}

impl View for Command {
    type V = CommandModel;

    open spec fn view(&self) -> CommandModel {
        match self {
            Command::Put { key, value } => CommandModel::Put { key: key@, value: value@ },
            Command::Get { key } => CommandModel::Get { key: key@ },
            Command::Delete { key } => CommandModel::Delete { key: key@ },
        }
    }
}

impl View for Response {
    type V = ResponseModel;

    open spec fn view(&self) -> ResponseModel {
        match self {
            Response::Okay => ResponseModel::Okay,
            Response::Value(v) => ResponseModel::Value(v@),
            Response::NotFound => ResponseModel::NotFound,
            Response::Error(e) => ResponseModel::Error(e@),
        }
    }
}

// ---------------------------------------------------------------------------
// The request grammar
//
// A request is one line, terminated by `\r\n` or `\n`:
//
//     SET <key> <value>
//     GET <key>
//     DELETE <key>
//
// Tokens are separated by one or more spaces. A key is a non-empty run of
// bytes holding no space, carriage return or line feed; the value of a SET
// is the rest of the body, verbatim. Field bytes are read as UTF-8; a field
// that is not valid UTF-8 is read as the empty string.
// ---------------------------------------------------------------------------

/// True of the space byte.
pub open spec fn is_space(b: u8) -> bool {
    b == 0x20
}

/// True of bytes that may appear in a key.
pub open spec fn is_key_byte(b: u8) -> bool {
    b != 0x20 && b != 0x0d && b != 0x0a
}

pub open spec fn space_pred() -> spec_fn(u8) -> bool {
    |b: u8| is_space(b)
}

pub open spec fn key_pred() -> spec_fn(u8) -> bool {
    |b: u8| is_key_byte(b)
}

pub open spec fn not_nl_pred() -> spec_fn(u8) -> bool {
    |b: u8| b != 0x0a
}

/// The characters a field's bytes spell: their UTF-8 reading, or the empty
/// string where they are not valid UTF-8.
pub open spec fn field_chars(b: Seq<u8>) -> Seq<char> {
    if valid_utf8(b) {
        decode_utf8(b)
    } else {
        Seq::empty()
    }
}

/// Position of the first line feed, or the length of `s` if there is none.
pub open spec fn nl_pos(s: Seq<u8>) -> int {
    run_len(s, 0, not_nl_pred())
}

/// True when `s` holds a line terminator.
pub open spec fn has_terminator(s: Seq<u8>) -> bool {
    nl_pos(s) < s.len()
}

/// The request body: everything before the line terminator.
pub open spec fn body_of(s: Seq<u8>) -> Seq<u8> {
    let n = nl_pos(s);
    if n > 0 && s[n - 1] == 0x0d {
        s.take(n - 1)
    } else {
        s.take(n)
    }
}

/// The bytes of `SET`.
pub open spec fn set_verb() -> Seq<u8> {
    seq![0x53u8, 0x45, 0x54]
}

/// The bytes of `GET`.
pub open spec fn get_verb() -> Seq<u8> {
    seq![0x47u8, 0x45, 0x54]
}

/// The bytes of `DELETE`.
pub open spec fn delete_verb() -> Seq<u8> {
    seq![0x44u8, 0x45, 0x4c, 0x45, 0x54, 0x45]
}

/// `SET`, one or more spaces, a non-empty key, one or more spaces, then the
/// value: the rest of the body, verbatim.
pub open spec fn spec_parse_put(body: Seq<u8>) -> Option<CommandModel> {
    let sp1 = run_len(body, 3, space_pred());
    let ks = 3 + sp1;
    let kl = run_len(body, ks, key_pred());
    let sp2 = run_len(body, ks + kl, space_pred());
    if sp1 >= 1 && kl >= 1 && sp2 >= 1 {
        Some(
            CommandModel::Put {
                key: field_chars(body.subrange(ks, ks + kl)),
                value: field_chars(body.subrange(ks + kl + sp2, body.len() as int)),
            },
        )
    } else {
        None
    }
}

/// `GET`, one or more spaces, then a non-empty key that ends the body.
pub open spec fn spec_parse_get(body: Seq<u8>) -> Option<CommandModel> {
    let sp1 = run_len(body, 3, space_pred());
    let ks = 3 + sp1;
    let kl = run_len(body, ks, key_pred());
    if sp1 >= 1 && kl >= 1 && ks + kl == body.len() {
        Some(CommandModel::Get { key: field_chars(body.subrange(ks, ks + kl)) })
    } else {
        None
    }
}

/// `DELETE`, one or more spaces, then a non-empty key that ends the body.
pub open spec fn spec_parse_delete(body: Seq<u8>) -> Option<CommandModel> {
    let sp1 = run_len(body, 6, space_pred());
    let ks = 6 + sp1;
    let kl = run_len(body, ks, key_pred());
    if sp1 >= 1 && kl >= 1 && ks + kl == body.len() {
        Some(CommandModel::Delete { key: field_chars(body.subrange(ks, ks + kl)) })
    } else {
        None
    }
}

/// One request body, dispatched on its verb.
pub open spec fn spec_parse_body(body: Seq<u8>) -> Option<CommandModel> {
    if body.len() >= 3 && body.subrange(0, 3) == set_verb() {
        spec_parse_put(body)
    } else if body.len() >= 3 && body.subrange(0, 3) == get_verb() {
        spec_parse_get(body)
    } else if body.len() >= 6 && body.subrange(0, 6) == delete_verb() {
        spec_parse_delete(body)
    } else {
        None
    }
}

/// What `parse_command` accepts: a terminated line holding one request.
pub open spec fn spec_parse_command(input: Seq<u8>) -> Option<CommandModel> {
    if has_terminator(input) {
        spec_parse_body(body_of(input))
    } else {
        None
    }
}

/// The diagnostic carried by every rejected request line.
pub open spec fn parse_error_chars() -> Seq<char> {
    "Failed to parse command"@
}

fn parse_error() -> (e: RustVaultError)
    ensures
        e matches RustVaultError::Protocol(m) && m@ == parse_error_chars(),
{
    RustVaultError::Protocol("Failed to parse command".to_owned())
}

/// Scans past spaces, from `start` to at most `end`.
fn scan_spaces(input: &[u8], start: usize, end: usize) -> (r: usize)
    requires
        start <= end <= input@.len(),
    ensures
        start <= r <= end,
        r - start == run_len(input@.take(end as int), start as int, space_pred()),
{
    let ghost body = input@.take(end as int);
    let mut j = start;
    while j < end && input[j] == 0x20
        invariant
            start <= j <= end <= input@.len(),
            forall|k: int| start <= k < j ==> is_space(#[trigger] input@[k]),
        decreases end - j,
    {
        j = j + 1;
    }
    proof {
        lemma_run_len_exact(body, start as int, j as int, space_pred());
    }
    j
}

/// Scans past key bytes, from `start` to at most `end`.
fn scan_key(input: &[u8], start: usize, end: usize) -> (r: usize)
    requires
        start <= end <= input@.len(),
    ensures
        start <= r <= end,
        r - start == run_len(input@.take(end as int), start as int, key_pred()),
{
    let ghost body = input@.take(end as int);
    let mut j = start;
    while j < end && input[j] != 0x20 && input[j] != 0x0d && input[j] != 0x0a
        invariant
            start <= j <= end <= input@.len(),
            forall|k: int| start <= k < j ==> is_key_byte(#[trigger] input@[k]),
        decreases end - j,
    {
        j = j + 1;
    }
    proof {
        lemma_run_len_exact(body, start as int, j as int, key_pred());
    }
    j
}

/// Copies `input[start..end]` into a `String`, reading the bytes as UTF-8;
/// bytes that are not valid UTF-8 are read as the empty string.
fn field_string(input: &[u8], start: usize, end: usize) -> (s: String)
    requires
        start <= end <= input@.len(),
    ensures
        s@ == field_chars(input@.subrange(start as int, end as int)),
{
    let v = slice_to_vec(slice_subrange(input, start, end));
    match string_from_utf8(v) {
        Some(s) => s,
        None => String::new(),
    }
}

/// Parses the rest of a `SET` body: separator, key, separator, value.
fn parse_put(input: &[u8], body_end: usize) -> (r: Result<Command, RustVaultError>)
    requires
        body_end <= input@.len(),
        input@.take(body_end as int).len() >= 3,
    ensures
        match spec_parse_put(input@.take(body_end as int)) {
            Some(m) => r matches Ok(c) && c@ == m,
            None => r matches Err(e) && e matches RustVaultError::Protocol(msg)
                && msg@ == parse_error_chars(),
        },
{
    let ghost body = input@.take(body_end as int);
    let key_start = scan_spaces(input, 3, body_end);
    if key_start == 3 {
        return Err(parse_error());
    }
    let key_end = scan_key(input, key_start, body_end);
    if key_end == key_start {
        return Err(parse_error());
    }
    let val_start = scan_spaces(input, key_end, body_end);
    if val_start == key_end {
        return Err(parse_error());
    }
    proof {
        assert(body.subrange(key_start as int, key_end as int) =~= input@.subrange(
            key_start as int,
            key_end as int,
        ));
        assert(body.subrange(val_start as int, body_end as int) =~= input@.subrange(
            val_start as int,
            body_end as int,
        ));
    }
    let key = field_string(input, key_start, key_end);
    let value = field_string(input, val_start, body_end);
    Ok(Command::Put { key, value })
}

/// Parses the rest of a `GET` or `DELETE` body: separator, then a key that
/// ends the body. `verb_len` is the length of the verb already read.
fn parse_key_only(input: &[u8], body_end: usize, verb_len: usize) -> (r: Result<
    String,
    RustVaultError,
>)
    requires
        body_end <= input@.len(),
        verb_len == 3 || verb_len == 6,
        input@.take(body_end as int).len() >= verb_len,
    ensures
        ({
            let body = input@.take(body_end as int);
            let sp1 = run_len(body, verb_len as int, space_pred());
            let ks = verb_len + sp1;
            let kl = run_len(body, ks as int, key_pred());
            if sp1 >= 1 && kl >= 1 && ks + kl == body.len() {
                r matches Ok(key) && key@ == field_chars(body.subrange(ks as int, ks + kl))
            } else {
                r matches Err(e) && e matches RustVaultError::Protocol(msg)
                    && msg@ == parse_error_chars()
            }
        }),
{
    let ghost body = input@.take(body_end as int);
    let key_start = scan_spaces(input, verb_len, body_end);
    if key_start == verb_len {
        return Err(parse_error());
    }
    let key_end = scan_key(input, key_start, body_end);
    if key_end == key_start || key_end != body_end {
        return Err(parse_error());
    }
    proof {
        assert(body.subrange(key_start as int, key_end as int) =~= input@.subrange(
            key_start as int,
            key_end as int,
        ));
    }
    Ok(field_string(input, key_start, key_end))
}

/// Parses one request line. Returns the command it spells, or a protocol
/// error when the line has no terminator, an unknown verb, a missing
/// separator or argument, or an empty key.
pub fn parse_command(input: &[u8]) -> (r: Result<Command, RustVaultError>)
    ensures
        match spec_parse_command(input@) {
            Some(m) => r matches Ok(c) && c@ == m,
            None => r matches Err(e) && e matches RustVaultError::Protocol(msg)
                && msg@ == parse_error_chars(),
        },
{
    let n = input.len();
    let mut nl: usize = 0;
    while nl < n && input[nl] != 0x0a
        invariant
            0 <= nl <= n == input@.len(),
            forall|k: int| 0 <= k < nl ==> input@[k] != 0x0a,
        decreases n - nl,
    {
        nl = nl + 1;
    }
    proof {
        assert(input@.take(n as int) =~= input@);
        lemma_run_len_exact(input@, 0, nl as int, not_nl_pred());
        assert(nl_pos(input@) == nl);
    }
    if nl == n {
        return Err(parse_error());
    }
    let body_end: usize = if nl > 0 && input[nl - 1] == 0x0d {
        nl - 1
    } else {
        nl
    };
    let ghost body = input@.take(body_end as int);
    proof {
        assert(body == body_of(input@));
    }
    if body_end >= 3 && input[0] == 0x53 && input[1] == 0x45 && input[2] == 0x54 {
        proof {
            assert(body.subrange(0, 3) =~= set_verb());
        }
        parse_put(input, body_end)
    } else if body_end >= 3 && input[0] == 0x47 && input[1] == 0x45 && input[2] == 0x54 {
        proof {
            assert(body.subrange(0, 3) =~= get_verb());
        }
        match parse_key_only(input, body_end, 3) {
            Ok(key) => Ok(Command::Get { key }),
            Err(e) => Err(e),
        }
    } else if body_end >= 6 && input[0] == 0x44 && input[1] == 0x45 && input[2] == 0x4c
        && input[3] == 0x45 && input[4] == 0x54 && input[5] == 0x45 {
        proof {
            assert(body.subrange(0, 6) =~= delete_verb());
            if body.len() >= 3 && body.subrange(0, 3) == set_verb() {
                assert(body.subrange(0, 3)[0] == input@[0]);
                assert(false);
            }
            if body.len() >= 3 && body.subrange(0, 3) == get_verb() {
                assert(body.subrange(0, 3)[0] == input@[0]);
                assert(false);
            }
        }
        match parse_key_only(input, body_end, 6) {
            Ok(key) => Ok(Command::Delete { key }),
            Err(e) => Err(e),
        }
    } else {
        proof {
            if body.len() >= 3 && body.subrange(0, 3) == set_verb() {
                assert(body.subrange(0, 3)[0] == input@[0]);
                assert(body.subrange(0, 3)[1] == input@[1]);
                assert(body.subrange(0, 3)[2] == input@[2]);
                assert(false);
            }
            if body.len() >= 3 && body.subrange(0, 3) == get_verb() {
                assert(body.subrange(0, 3)[0] == input@[0]);
                assert(body.subrange(0, 3)[1] == input@[1]);
                assert(body.subrange(0, 3)[2] == input@[2]);
                assert(false);
            }
            if body.len() >= 6 && body.subrange(0, 6) == delete_verb() {
                assert(body.subrange(0, 6)[0] == input@[0]);
                assert(body.subrange(0, 6)[1] == input@[1]);
                assert(body.subrange(0, 6)[2] == input@[2]);
                assert(body.subrange(0, 6)[3] == input@[3]);
                assert(body.subrange(0, 6)[4] == input@[4]);
                assert(body.subrange(0, 6)[5] == input@[5]);
                assert(false);
            }
        }
        Err(parse_error())
    }
}

// ---------------------------------------------------------------------------
// The response grammar
//
//     OK
//     VALUE <bytes-until-end-of-line>
//     NOT_FOUND
//     ERROR <message>
//
// each followed by `\r\n` on the wire.
// ---------------------------------------------------------------------------

/// The bytes of `\r\n`.
pub open spec fn crlf() -> Seq<u8> {
    seq![0x0du8, 0x0a]
}

/// The bytes of `OK`.
pub open spec fn ok_line() -> Seq<u8> {
    seq![0x4fu8, 0x4b]
}

/// The bytes of `NOT_FOUND`.
pub open spec fn not_found_line() -> Seq<u8> {
    seq![0x4eu8, 0x4f, 0x54, 0x5f, 0x46, 0x4f, 0x55, 0x4e, 0x44]
}

/// The bytes of `VALUE `.
pub open spec fn value_prefix() -> Seq<u8> {
    seq![0x56u8, 0x41, 0x4c, 0x55, 0x45, 0x20]
}

/// The bytes of `ERROR `.
pub open spec fn error_prefix() -> Seq<u8> {
    seq![0x45u8, 0x52, 0x52, 0x4f, 0x52, 0x20]
}

/// The wire encoding of a response: one line, terminated by `\r\n`.
pub open spec fn spec_response_bytes(r: ResponseModel) -> Seq<u8> {
    match r {
        ResponseModel::Okay => ok_line() + crlf(),
        ResponseModel::Value(v) => value_prefix() + encode_utf8(v) + crlf(),
        ResponseModel::NotFound => not_found_line() + crlf(),
        ResponseModel::Error(e) => error_prefix() + encode_utf8(e) + crlf(),
    }
}

impl Response {
    /// Serializes the response for the wire. The output is one line ending
    /// in `\r\n`; its payload bytes are the UTF-8 of the payload string.
    pub fn to_bytes(&self) -> (out: Vec<u8>)
        ensures
            out@ == spec_response_bytes(self@),
    {
        let mut out: Vec<u8> = Vec::new();
        match self {
            Response::Okay => {
                out.push(0x4f);
                out.push(0x4b);
            }
            Response::Value(v) => {
                out.push(0x56);
                out.push(0x41);
                out.push(0x4c);
                out.push(0x55);
                out.push(0x45);
                out.push(0x20);
                out.extend_from_slice(v.as_str().as_bytes());
            }
            Response::NotFound => {
                out.push(0x4e);
                out.push(0x4f);
                out.push(0x54);
                out.push(0x5f);
                out.push(0x46);
                out.push(0x4f);
                out.push(0x55);
                out.push(0x4e);
                out.push(0x44);
            }
            Response::Error(e) => {
                out.push(0x45);
                out.push(0x52);
                out.push(0x52);
                out.push(0x4f);
                out.push(0x52);
                out.push(0x20);
                out.extend_from_slice(e.as_str().as_bytes());
            }
        }
        out.push(0x0d);
        out.push(0x0a);
        proof {
            assert(out@ =~= spec_response_bytes(self@));
        }
        out
    }
}

/// The wire encoding of a command: one line, terminated by `\r\n`.
pub open spec fn spec_command_bytes(c: CommandModel) -> Seq<u8> {
    match c {
        CommandModel::Put { key, value } => set_verb() + seq![0x20u8] + encode_utf8(key) + seq![
            0x20u8,
        ] + encode_utf8(value) + crlf(),
        CommandModel::Get { key } => get_verb() + seq![0x20u8] + encode_utf8(key) + crlf(),
        CommandModel::Delete { key } => delete_verb() + seq![0x20u8] + encode_utf8(key) + crlf(),
    }
}

impl Command {
    /// True of the commands that change the keyspace; only these are written
    /// to the write-ahead log.
    pub fn is_mutation(&self) -> (r: bool)
        ensures
            r == (self@ is Put || self@ is Delete),
    {
        match self {
            Command::Get { .. } => false,
            _ => true,
        }
    }

    /// Serializes the command for the wire, as a client sends it.
    pub fn to_bytes(&self) -> (out: Vec<u8>)
        ensures
            out@ == spec_command_bytes(self@),
    {
        let mut out: Vec<u8> = Vec::new();
        match self {
            Command::Put { key, value } => {
                out.push(0x53);
                out.push(0x45);
                out.push(0x54);
                out.push(0x20);
                out.extend_from_slice(key.as_str().as_bytes());
                out.push(0x20);
                out.extend_from_slice(value.as_str().as_bytes());
            }
            Command::Get { key } => {
                out.push(0x47);
                out.push(0x45);
                out.push(0x54);
                out.push(0x20);
                out.extend_from_slice(key.as_str().as_bytes());
            }
            Command::Delete { key } => {
                out.push(0x44);
                out.push(0x45);
                out.push(0x4c);
                out.push(0x45);
                out.push(0x54);
                out.push(0x45);
                out.push(0x20);
                out.extend_from_slice(key.as_str().as_bytes());
            }
        }
        out.push(0x0d);
        out.push(0x0a);
        proof {
            assert(out@ =~= spec_command_bytes(self@));
        }
        out
    }
}

/// What `parse_response` accepts, over the bytes of a response line with its
/// terminator already stripped.
pub open spec fn spec_parse_response(b: Seq<u8>) -> Option<ResponseModel> {
    if b == ok_line() {
        Some(ResponseModel::Okay)
    } else if b == not_found_line() {
        Some(ResponseModel::NotFound)
    } else if b.len() >= 6 && b.subrange(0, 6) == value_prefix() {
        Some(ResponseModel::Value(field_chars(b.subrange(6, b.len() as int))))
    } else if b.len() >= 6 && b.subrange(0, 6) == error_prefix() {
        Some(ResponseModel::Error(field_chars(b.subrange(6, b.len() as int))))
    } else {
        None
    }
}

/// Takes the rest of `s` after its first `n` characters, which must all be
/// ASCII.
fn str_suffix(s: &str, n: usize) -> (r: String)
    requires
        n <= encode_utf8(s@).len(),
        forall|i: int| 0 <= i < n ==> encode_utf8(s@)[i] < 0x80,
    ensures
        r@ == field_chars(encode_utf8(s@).subrange(n as int, encode_utf8(s@).len() as int)),
{
    proof {
        vstd::utf8::encode_utf8_valid_utf8(s@);
        lemma_ascii_prefix_boundary(encode_utf8(s@), n as int);
    }
    let tail = s.split_at(n).1;
    proof {
        let b = encode_utf8(s@);
        let sub = b.subrange(n as int, b.len() as int);
        vstd::utf8::valid_utf8_split(b, n as int);
        vstd::utf8::encode_utf8_decode_utf8(tail@);
        assert(tail@ == decode_utf8(sub));
    }
    tail.to_owned()
}

/// Parses one response line, terminator already stripped, as a client reads
/// it. A line that matches no response form is rejected with a protocol
/// error naming the line.
pub fn parse_response(response: &str) -> (r: Result<Response, RustVaultError>)
    ensures
        match spec_parse_response(encode_utf8(response@)) {
            Some(m) => r matches Ok(resp) && resp@ == m,
            None => r matches Err(e) && e matches RustVaultError::Protocol(msg)
                && msg@ == "Unknown response format: "@ + response@,
        },
{
    let b = response.as_bytes();
    let ghost eb = encode_utf8(response@);
    if b.len() == 2 && b[0] == 0x4f && b[1] == 0x4b {
        proof {
            assert(eb =~= ok_line());
        }
        Ok(Response::Okay)
    } else if b.len() == 9 && b[0] == 0x4e && b[1] == 0x4f && b[2] == 0x54 && b[3] == 0x5f
        && b[4] == 0x46 && b[5] == 0x4f && b[6] == 0x55 && b[7] == 0x4e && b[8] == 0x44 {
        proof {
            assert(eb =~= not_found_line());
            assert(eb != ok_line());
        }
        Ok(Response::NotFound)
    } else if b.len() >= 6 && b[0] == 0x56 && b[1] == 0x41 && b[2] == 0x4c && b[3] == 0x55
        && b[4] == 0x45 && b[5] == 0x20 {
        proof {
            assert(eb.subrange(0, 6) =~= value_prefix());
            assert(eb != ok_line());
            assert(eb != not_found_line());
        }
        let v = str_suffix(response, 6);
        Ok(Response::Value(v))
    } else if b.len() >= 6 && b[0] == 0x45 && b[1] == 0x52 && b[2] == 0x52 && b[3] == 0x4f
        && b[4] == 0x52 && b[5] == 0x20 {
        proof {
            assert(eb.subrange(0, 6) =~= error_prefix());
            assert(eb != ok_line());
            assert(eb != not_found_line());
            assert(eb.subrange(0, 6)[0] != value_prefix()[0]);
            assert(eb.subrange(0, 6) != value_prefix());
        }
        let v = str_suffix(response, 6);
        Ok(Response::Error(v))
    } else {
        proof {
            if eb == ok_line() {
                assert(eb[0] == 0x4f && eb[1] == 0x4b && eb.len() == 2);
                assert(false);
            }
            if eb == not_found_line() {
                assert(eb[0] == 0x4e && eb[1] == 0x4f && eb[2] == 0x54 && eb[3] == 0x5f && eb[4]
                    == 0x46 && eb[5] == 0x4f && eb[6] == 0x55 && eb[7] == 0x4e && eb[8] == 0x44
                    && eb.len() == 9);
                assert(false);
            }
            if eb.len() >= 6 && eb.subrange(0, 6) == value_prefix() {
                assert(eb[0] == 0x56 && eb[1] == 0x41 && eb[2] == 0x4c && eb[3] == 0x55 && eb[4]
                    == 0x45 && eb[5] == 0x20) by {
                    assert(forall|k: int| 0 <= k < 6 ==> eb.subrange(0, 6)[k] == eb[k]);
                }
                assert(false);
            }
            if eb.len() >= 6 && eb.subrange(0, 6) == error_prefix() {
                assert(eb[0] == 0x45 && eb[1] == 0x52 && eb[2] == 0x52 && eb[3] == 0x4f && eb[4]
                    == 0x52 && eb[5] == 0x20) by {
                    assert(forall|k: int| 0 <= k < 6 ==> eb.subrange(0, 6)[k] == eb[k]);
                }
                assert(false);
            }
        }
        let mut msg = "Unknown response format: ".to_owned();
        msg.append(response);
        Err(RustVaultError::Protocol(msg))
    }
}

/// True of keys the wire can carry: non-empty, with no space, carriage
/// return or line feed.
pub open spec fn wire_key_ok(key: Seq<char>) -> bool {
    key.len() > 0 && forall|i: int|
        0 <= i < key.len() ==> #[trigger] key[i] != ' ' && key[i] != '\r' && key[i] != '\n'
}

/// True of values the wire carries back intact: no line feed (which would
/// end the frame early) and no leading space (which the separator before the
/// value would swallow).
pub open spec fn wire_value_ok(v: Seq<char>) -> bool {
    (forall|i: int| 0 <= i < v.len() ==> #[trigger] v[i] != '\n') && (v.len() > 0 ==> v[0] != ' ')
}

/// The key's characters never encode to a space, carriage return or line
/// feed byte.
proof fn lemma_key_bytes_ok(key: Seq<char>)
    requires
        wire_key_ok(key),
    ensures
        encode_utf8(key).len() >= 1,
        forall|k: int|
            0 <= k < encode_utf8(key).len() ==> is_key_byte(#[trigger] encode_utf8(key)[k]),
{
    assert forall|i: int|
        0 <= i < key.len() implies #[trigger] (key[i] as u32) != 0x20 && (key[i] as u32) != 0x0d
        && (key[i] as u32) != 0x0a by {
        crate::text::lemma_char_ne_byte(key[i], ' ', 0x20);
        crate::text::lemma_char_ne_byte(key[i], '\r', 0x0d);
        crate::text::lemma_char_ne_byte(key[i], '\n', 0x0a);
    }
    crate::text::lemma_encode_avoids_byte(key, 0x20);
    crate::text::lemma_encode_avoids_byte(key, 0x0d);
    crate::text::lemma_encode_avoids_byte(key, 0x0a);
    assert(encode_utf8(key) == vstd::utf8::encode_scalar(key[0] as u32) + encode_utf8(
        key.drop_first(),
    ));
}

/// The value's characters never encode to a line feed byte, and a value
/// that does not start with a space does not encode to one that does.
proof fn lemma_value_bytes_ok(v: Seq<char>)
    requires
        wire_value_ok(v),
    ensures
        forall|k: int| 0 <= k < encode_utf8(v).len() ==> #[trigger] encode_utf8(v)[k] != 0x0a,
        encode_utf8(v).len() > 0 ==> encode_utf8(v)[0] != 0x20,
        encode_utf8(v).len() == 0 ==> v.len() == 0,
{
    assert forall|i: int| 0 <= i < v.len() implies #[trigger] (v[i] as u32) != 0x0a by {
        crate::text::lemma_char_ne_byte(v[i], '\n', 0x0a);
    }
    crate::text::lemma_encode_avoids_byte(v, 0x0a);
    if v.len() > 0 {
        assert(encode_utf8(v) == vstd::utf8::encode_scalar(v[0] as u32) + encode_utf8(
            v.drop_first(),
        ));
        crate::text::lemma_char_ne_byte(v[0], ' ', 0x20);
        crate::text::lemma_scalar_byte_avoids(v[0], 0x20);
        assert(encode_utf8(v)[0] == vstd::utf8::encode_scalar(v[0] as u32)[0]);
    }
}

/// Request round-trip for `SET`.
#[verifier::rlimit(60)]
proof fn lemma_command_round_trip_put(c: CommandModel)
    requires
        c matches CommandModel::Put { key, value } && wire_key_ok(key) && wire_value_ok(value),
    ensures
        spec_parse_command(spec_command_bytes(c)) == Some(c),
{
    match c {
        CommandModel::Put { key, value } => {
            let ek = encode_utf8(key);
            let ev = encode_utf8(value);
            let bytes = spec_command_bytes(c);
            let body = set_verb() + seq![0x20u8] + ek + seq![0x20u8] + ev;
            lemma_key_bytes_ok(key);
            lemma_value_bytes_ok(value);
            assert(bytes =~= body + seq![0x0du8, 0x0a]);
            assert forall|k: int| 0 <= k < body.len() + 1 implies #[trigger] bytes[k]
                != 0x0a by {
                if 4 <= k < 4 + ek.len() {
                    assert(bytes[k] == ek[k - 4]);
                } else if 5 + ek.len() <= k < body.len() {
                    assert(bytes[k] == ev[k - 5 - ek.len()]);
                }
            }
            assert(bytes[body.len() as int + 1] == 0x0a);
            lemma_run_len_exact(bytes, 0, body.len() as int + 1, not_nl_pred());
            assert(nl_pos(bytes) == body.len() + 1);
            assert(bytes[body.len() as int] == 0x0d);
            assert(body_of(bytes) =~= body);
            assert(body.subrange(0, 3) =~= set_verb());
            assert(body[3] == 0x20 && body[4] == ek[0] && ek[0] != 0x20);
            lemma_run_len_exact(body, 3, 4, space_pred());
            assert forall|k: int| 4 <= k < 4 + ek.len() implies is_key_byte(
                #[trigger] body[k],
            ) by {
                assert(body[k] == ek[k - 4]);
            }
            assert(body[4 + ek.len() as int] == 0x20);
            lemma_run_len_exact(body, 4, 4 + ek.len() as int, key_pred());
            if ev.len() == 0 {
                assert(5 + ek.len() == body.len());
                lemma_run_len_exact(
                    body,
                    4 + ek.len() as int,
                    5 + ek.len() as int,
                    space_pred(),
                );
            } else {
                assert(body[5 + ek.len() as int] == ev[0]);
                assert(ev[0] != 0x20);
                lemma_run_len_exact(
                    body,
                    4 + ek.len() as int,
                    5 + ek.len() as int,
                    space_pred(),
                );
            }
            assert(body.subrange(4, 4 + ek.len() as int) =~= ek);
            assert(body.subrange(5 + ek.len() as int, body.len() as int) =~= ev);
            vstd::utf8::encode_utf8_valid_utf8(key);
            vstd::utf8::encode_utf8_valid_utf8(value);
            vstd::utf8::encode_utf8_decode_utf8(key);
            vstd::utf8::encode_utf8_decode_utf8(value);
            assert(spec_parse_put(body) == Some(c));
        }
        _ => {}
    }
}

/// Request round-trip for `GET` and `DELETE`: the verb's bytes, one space,
/// then the key ending the body.
#[verifier::rlimit(60)]
proof fn lemma_command_round_trip_keyed(c: CommandModel)
    requires
        ({
            ||| c matches CommandModel::Get { key } && wire_key_ok(key)
            ||| c matches CommandModel::Delete { key } && wire_key_ok(key)
        }),
    ensures
        spec_parse_command(spec_command_bytes(c)) == Some(c),
{
    let bytes = spec_command_bytes(c);
    match c {
        CommandModel::Get { key } => {
            let ek = encode_utf8(key);
            let body = get_verb() + seq![0x20u8] + ek;
            lemma_key_bytes_ok(key);
            assert(bytes =~= body + seq![0x0du8, 0x0a]);
            assert forall|k: int| 0 <= k < body.len() + 1 implies #[trigger] bytes[k]
                != 0x0a by {
                if 4 <= k < body.len() {
                    assert(bytes[k] == ek[k - 4]);
                }
            }
            assert(bytes[body.len() as int + 1] == 0x0a);
            lemma_run_len_exact(bytes, 0, body.len() as int + 1, not_nl_pred());
            assert(bytes[body.len() as int] == 0x0d);
            assert(body_of(bytes) =~= body);
            assert(body.subrange(0, 3) =~= get_verb());
            assert(body.subrange(0, 3)[0] != set_verb()[0]);
            assert(body.subrange(0, 3) != set_verb());
            assert(body[3] == 0x20 && body[4] == ek[0] && ek[0] != 0x20);
            lemma_run_len_exact(body, 3, 4, space_pred());
            assert forall|k: int| 4 <= k < 4 + ek.len() implies is_key_byte(
                #[trigger] body[k],
            ) by {
                assert(body[k] == ek[k - 4]);
            }
            assert(4 + ek.len() == body.len());
            lemma_run_len_exact(body, 4, 4 + ek.len() as int, key_pred());
            assert(body.subrange(4, 4 + ek.len() as int) =~= ek);
            vstd::utf8::encode_utf8_valid_utf8(key);
            vstd::utf8::encode_utf8_decode_utf8(key);
            assert(spec_parse_get(body) == Some(c));
        }
        CommandModel::Delete { key } => {
            let ek = encode_utf8(key);
            let body = delete_verb() + seq![0x20u8] + ek;
            lemma_key_bytes_ok(key);
            assert(bytes =~= body + seq![0x0du8, 0x0a]);
            assert forall|k: int| 0 <= k < body.len() + 1 implies #[trigger] bytes[k]
                != 0x0a by {
                if 7 <= k < body.len() {
                    assert(bytes[k] == ek[k - 7]);
                }
            }
            assert(bytes[body.len() as int + 1] == 0x0a);
            lemma_run_len_exact(bytes, 0, body.len() as int + 1, not_nl_pred());
            assert(bytes[body.len() as int] == 0x0d);
            assert(body_of(bytes) =~= body);
            assert(body.subrange(0, 6) =~= delete_verb());
            if body.len() >= 3 && body.subrange(0, 3) == set_verb() {
                assert(body.subrange(0, 3)[0] == body[0]);
                assert(false);
            }
            if body.len() >= 3 && body.subrange(0, 3) == get_verb() {
                assert(body.subrange(0, 3)[0] == body[0]);
                assert(false);
            }
            assert(body[6] == 0x20 && body[7] == ek[0] && ek[0] != 0x20);
            lemma_run_len_exact(body, 6, 7, space_pred());
            assert forall|k: int| 7 <= k < 7 + ek.len() implies is_key_byte(
                #[trigger] body[k],
            ) by {
                assert(body[k] == ek[k - 7]);
            }
            assert(7 + ek.len() == body.len());
            lemma_run_len_exact(body, 7, 7 + ek.len() as int, key_pred());
            assert(body.subrange(7, 7 + ek.len() as int) =~= ek);
            vstd::utf8::encode_utf8_valid_utf8(key);
            vstd::utf8::encode_utf8_decode_utf8(key);
            assert(spec_parse_delete(body) == Some(c));
        }
        _ => {}
    }
}

/// Request round-trip: a serialized command parses back to itself, for every
/// key and value the wire can carry.
pub proof fn lemma_command_round_trip(c: CommandModel)
    requires
        match c {
            CommandModel::Put { key, value } => wire_key_ok(key) && wire_value_ok(value),
            CommandModel::Get { key } => wire_key_ok(key),
            CommandModel::Delete { key } => wire_key_ok(key),
        },
    ensures
        spec_parse_command(spec_command_bytes(c)) == Some(c),
{
    match c {
        CommandModel::Put { .. } => lemma_command_round_trip_put(c),
        _ => lemma_command_round_trip_keyed(c),
    }
}

/// Round-trip encoding: parsing a serialized response, with its line
/// terminator stripped, yields the response again, for every response whose
/// payload holds no newline.
pub proof fn lemma_response_round_trip(r: ResponseModel)
    requires
        r matches ResponseModel::Value(v) ==> !v.contains('\n'),
        r matches ResponseModel::Error(e) ==> !e.contains('\n'),
    ensures
        ({
            let wire = spec_response_bytes(r);
            spec_parse_response(wire.take(wire.len() - 2)) == Some(r)
        }),
{
    let wire = spec_response_bytes(r);
    let line = wire.take(wire.len() - 2);
    match r {
        ResponseModel::Okay => {
            assert(line =~= ok_line());
        }
        ResponseModel::NotFound => {
            assert(line =~= not_found_line());
            assert(line != ok_line());
        }
        ResponseModel::Value(v) => {
            assert(line =~= value_prefix() + encode_utf8(v));
            assert(line[0] == 0x56);
            assert(line != ok_line());
            assert(line != not_found_line());
            assert(line.subrange(0, 6) =~= value_prefix());
            assert(line.subrange(6, line.len() as int) =~= encode_utf8(v));
            vstd::utf8::encode_utf8_valid_utf8(v);
            vstd::utf8::encode_utf8_decode_utf8(v);
            assert(field_chars(line.subrange(6, line.len() as int)) == v);
        }
        ResponseModel::Error(e) => {
            assert(line =~= error_prefix() + encode_utf8(e));
            assert(line[0] == 0x45);
            assert(line != ok_line());
            assert(line != not_found_line());
            assert(line.subrange(0, 6) =~= error_prefix());
            assert(line.subrange(0, 6)[0] != value_prefix()[0]);
            assert(line.subrange(0, 6) != value_prefix());
            assert(line.subrange(6, line.len() as int) =~= encode_utf8(e));
            vstd::utf8::encode_utf8_valid_utf8(e);
            vstd::utf8::encode_utf8_decode_utf8(e);
            assert(field_chars(line.subrange(6, line.len() as int)) == e);
        }
    }
}

} // verus!
