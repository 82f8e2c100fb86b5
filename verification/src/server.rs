use vstd::prelude::*;
use vstd::slice::slice_to_vec;

use crate::protocol::{
    body_of, has_terminator, spec_parse_body, Command, CommandModel, Response, ResponseModel,
};
use crate::store::{apply_mutation, MemoryStore, Store};
use crate::text::lemma_run_len_exact;

verus! {

/// Server configuration: where to listen, where the write-ahead log lives,
/// and an advisory cap on simultaneous connections (not enforced here).
#[derive(Debug, Clone)]
pub struct ServerConfig {
    pub bind_addr: String,
    pub wal_path: String,
    pub max_connections: usize,
}

impl Default for ServerConfig {
    /// Listens on `127.0.0.1:8080` and logs to `vault.log`.
    fn default() -> (c: ServerConfig)
        ensures
            c.bind_addr@ == "127.0.0.1:8080"@,
            c.wal_path@ == "vault.log"@,
            c.max_connections == 1000,
    {
        ServerConfig {
            bind_addr: "127.0.0.1:8080".to_owned(),
            wal_path: "vault.log".to_owned(),
            max_connections: 1000,
        }
    }
}

/// The response a command earns against keyspace `m`: `Put` is acknowledged
/// with `Okay`; `Get` answers the mapped value or `NotFound`; `Delete`
/// answers `Okay` when the key was present and `NotFound` when it was not.
pub open spec fn spec_execute_response(
    m: Map<Seq<char>, Seq<char>>,
    c: CommandModel,
) -> ResponseModel {
    match c {
        CommandModel::Put { .. } => ResponseModel::Okay,
        CommandModel::Get { key } => if m.contains_key(key) {
            ResponseModel::Value(m[key])
        } else {
            ResponseModel::NotFound
        },
        CommandModel::Delete { key } => if m.contains_key(key) {
            ResponseModel::Okay
        } else {
            ResponseModel::NotFound
        },
    }
}

/// Executes a parsed command against the store and builds the response.
pub fn execute_command(command: Command, store: &mut MemoryStore) -> (r: Response)
    requires
        old(store).inv(),
    ensures
        final(store).inv(),
        final(store).keyspace() == apply_mutation(old(store).keyspace(), command@),
        r@ == spec_execute_response(old(store).keyspace(), command@),
{
    match command {
        Command::Put { key, value } => {
            match store.set(key, value) {
                Ok(_) => Response::Okay,
                Err(_) => Response::Error("SET failed".to_owned()),
            }
        }
        Command::Get { key } => {
            match store.get(key.as_str()) {
                Ok(Some(value)) => Response::Value(value),
                Ok(None) => Response::NotFound,
                Err(_) => Response::Error("GET failed".to_owned()),
            }
        }
        Command::Delete { key } => {
            match store.delete(key.as_str()) {
                Ok(true) => Response::Okay,
                Ok(false) => Response::NotFound,
                Err(_) => Response::Error("DELETE failed".to_owned()),
            }
        }
    }
}

/// The request bytes a line is handled as: its UTF-8, with a terminator
/// supplied when the line holds none.
pub open spec fn spec_request_bytes(line: Seq<char>) -> Seq<u8> {
    let b = vstd::utf8::encode_utf8(line);
    if has_terminator(b) {
        b
    } else {
        b + seq![0x0du8, 0x0a]
    }
}

/// What one request line does to the keyspace and what it answers: an empty
/// body is rejected as an empty command, a body that fits no request form is
/// rejected as a parse error, and a well-formed command is executed.
pub open spec fn spec_process(line: Seq<char>, m: Map<Seq<char>, Seq<char>>) -> (
    ResponseModel,
    Map<Seq<char>, Seq<char>>,
) {
    let b = spec_request_bytes(line);
    if body_of(b).len() == 0 {
        (ResponseModel::Error("Empty command"@), m)
    } else {
        match spec_parse_body(body_of(b)) {
            Some(c) => (spec_execute_response(m, c), apply_mutation(m, c)),
            None => (ResponseModel::Error("Parse error: Failed to parse command"@), m),
        }
    }
}

/// Splits one request line into the command it carries, or the error
/// response the server answers without executing anything: an empty body is
/// rejected as an empty command, and a body that fits no request form as a
/// parse error. A missing line terminator is supplied.
pub fn parse_request_line(line: &str) -> (r: Result<Command, Response>)
    ensures
        ({
            let b = spec_request_bytes(line@);
            if body_of(b).len() == 0 {
                r matches Err(resp) && resp@ == ResponseModel::Error("Empty command"@)
            } else {
                match spec_parse_body(body_of(b)) {
                    Some(c) => r matches Ok(cmd) && cmd@ == c,
                    None => r matches Err(resp) && resp@ == ResponseModel::Error(
                        "Parse error: Failed to parse command"@,
                    ),
                }
            }
        }),
{
    let b = line.as_bytes();
    let mut buf = slice_to_vec(b);
    let mut nl: usize = 0;
    while nl < buf.len() && buf[nl] != 0x0a
        invariant
            0 <= nl <= buf@.len(),
            buf@ == vstd::utf8::encode_utf8(line@),
            forall|k: int| 0 <= k < nl ==> buf@[k] != 0x0a,
        decreases buf@.len() - nl,
    {
        nl = nl + 1;
    }
    if nl == buf.len() {
        buf.push(0x0d);
        buf.push(0x0a);
        proof {
            assert(buf@ == spec_request_bytes(line@)) by {
                assert(buf@.take(nl as int) =~= vstd::utf8::encode_utf8(line@));
                lemma_run_len_exact(
                    vstd::utf8::encode_utf8(line@),
                    0,
                    nl as int,
                    crate::protocol::not_nl_pred(),
                );
            }
        }
        nl = nl + 1;
    } else {
        proof {
            assert(buf@ == spec_request_bytes(line@)) by {
                lemma_run_len_exact(buf@, 0, nl as int, crate::protocol::not_nl_pred());
            }
        }
    }
    let ghost req = spec_request_bytes(line@);
    proof {
        assert(buf@.take(buf@.len() as int) =~= buf@);
        lemma_run_len_exact(buf@, 0, nl as int, crate::protocol::not_nl_pred());
        assert(crate::protocol::nl_pos(buf@) == nl);
    }
    let body_end: usize = if nl > 0 && buf[nl - 1] == 0x0d {
        nl - 1
    } else {
        nl
    };
    proof {
        assert(body_of(req) == req.take(body_end as int));
    }
    if body_end == 0 {
        return Err(Response::Error("Empty command".to_owned()));
    }
    match crate::protocol::parse_command(buf.as_slice()) {
        Ok(command) => Ok(command),
        Err(_) => Err(Response::Error("Parse error: Failed to parse command".to_owned())),
    }
}

/// Handles one request line against the store: parse, execute, answer.
/// Malformed lines are answered with an `ERROR` response and leave the
/// keyspace unchanged.
pub fn process_command(line: &str, store: &mut MemoryStore) -> (r: Response)
    requires
        old(store).inv(),
    ensures
        final(store).inv(),
        r@ == spec_process(line@, old(store).keyspace()).0,
        final(store).keyspace() == spec_process(line@, old(store).keyspace()).1,
{
    match parse_request_line(line) {
        Ok(command) => execute_command(command, store),
        Err(resp) => resp,
    }
}

// ---------------------------------------------------------------------------
// Laws of the keyspace
// ---------------------------------------------------------------------------

/// Read-after-write: after `set(k, v)`, a `get(k)` answers `Value(v)`,
/// whatever the keyspace held before.
pub proof fn lemma_read_after_write(m: Map<Seq<char>, Seq<char>>, k: Seq<char>, v: Seq<char>)
    ensures
        spec_execute_response(
            apply_mutation(m, CommandModel::Put { key: k, value: v }),
            CommandModel::Get { key: k },
        ) == ResponseModel::Value(v),
{
}

/// Delete removes: after `set(k, v)` then `delete(k)`, a `get(k)` answers
/// `NotFound`, and a second `delete(k)` finds the key absent (so it answers
/// `NotFound` and the store's `delete` reports `false`).
pub proof fn lemma_delete_removes(m: Map<Seq<char>, Seq<char>>, k: Seq<char>, v: Seq<char>)
    ensures
        ({
            let m1 = apply_mutation(m, CommandModel::Put { key: k, value: v });
            let m2 = apply_mutation(m1, CommandModel::Delete { key: k });
            &&& spec_execute_response(m2, CommandModel::Get { key: k }) == ResponseModel::NotFound
            &&& spec_execute_response(m2, CommandModel::Delete { key: k })
                == ResponseModel::NotFound
            &&& !m2.contains_key(k)
        }),
{
}

/// Overwrite: after `set(k, v1)` then `set(k, v2)`, a `get(k)` answers
/// `Value(v2)`.
pub proof fn lemma_overwrite(
    m: Map<Seq<char>, Seq<char>>,
    k: Seq<char>,
    v1: Seq<char>,
    v2: Seq<char>,
)
    ensures
        spec_execute_response(
            apply_mutation(
                apply_mutation(m, CommandModel::Put { key: k, value: v1 }),
                CommandModel::Put { key: k, value: v2 },
            ),
            CommandModel::Get { key: k },
        ) == ResponseModel::Value(v2),
{
}

} // verus!
