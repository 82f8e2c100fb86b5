use rustvault::protocol::{Command, Response};
use rustvault::server::{execute_command, parse_request_line, process_command};
use rustvault::store::{MemoryStore, Store};

#[test]
fn test_memory_store_basic_operations() {
    let mut store = MemoryStore::new();

    store
        .set("key1".to_string(), "value1".to_string())
        .unwrap();
    let result = store.get("key1").unwrap();
    assert_eq!(result, Some("value1".to_string()));

    assert!(store.contains("key1").unwrap());
    assert!(!store.contains("nonexistent").unwrap());

    assert!(store.delete("key1").unwrap());
    assert!(!store.delete("key1").unwrap());

    let result = store.get("key1").unwrap();
    assert_eq!(result, None);
}

#[test]
fn test_read_after_write() {
    let mut store = MemoryStore::new();
    store.set("k".to_string(), "v".to_string()).unwrap();
    assert_eq!(store.get("k").unwrap(), Some("v".to_string()));
}

#[test]
fn test_delete_removes() {
    let mut store = MemoryStore::new();
    store.set("k".to_string(), "v".to_string()).unwrap();
    assert!(store.delete("k").unwrap());
    assert_eq!(store.get("k").unwrap(), None);
    assert!(!store.delete("k").unwrap());
}

#[test]
fn test_overwrite() {
    let mut store = MemoryStore::new();
    store.set("k".to_string(), "v1".to_string()).unwrap();
    store.set("k".to_string(), "v2".to_string()).unwrap();
    assert_eq!(store.get("k").unwrap(), Some("v2".to_string()));
    assert_eq!(store.len().unwrap(), 1);
}

#[test]
fn test_get_all_and_clear() {
    let mut store = MemoryStore::new();
    store.set("a".to_string(), "1".to_string()).unwrap();
    store.set("b".to_string(), "2".to_string()).unwrap();
    let mut snapshot = store.get_all().unwrap();
    snapshot.sort();
    assert_eq!(
        snapshot,
        vec![
            ("a".to_string(), "1".to_string()),
            ("b".to_string(), "2".to_string())
        ]
    );
    store.clear().unwrap();
    assert_eq!(store.len().unwrap(), 0);
    assert_eq!(store.get("a").unwrap(), None);
}

#[test]
fn test_command_processing() {
    let mut store = MemoryStore::new();

    let response = process_command("SET key1 value1", &mut store);
    assert_eq!(response, Response::Okay);

    let response = process_command("GET key1", &mut store);
    assert_eq!(response, Response::Value("value1".to_string()));

    let response = process_command("DELETE key1", &mut store);
    assert_eq!(response, Response::Okay);

    let response = process_command("GET key1", &mut store);
    assert_eq!(response, Response::NotFound);
}

#[test]
fn test_empty_command_is_rejected() {
    let mut store = MemoryStore::new();
    assert_eq!(
        process_command("", &mut store),
        Response::Error("Empty command".to_string())
    );
    assert_eq!(
        process_command("\r\n", &mut store),
        Response::Error("Empty command".to_string())
    );
    assert!(matches!(parse_request_line("\n"), Err(Response::Error(_))));
}

#[test]
fn test_delete_missing_key_answers_not_found() {
    let mut store = MemoryStore::new();
    let response = execute_command(
        Command::Delete {
            key: "ghost".to_string(),
        },
        &mut store,
    );
    assert_eq!(response, Response::NotFound);
}

#[test]
fn test_session_basic() {
    let mut store = MemoryStore::new();
    assert_eq!(process_command("SET k v\r\n", &mut store).to_bytes(), b"OK\r\n");
    assert_eq!(
        process_command("GET k\r\n", &mut store).to_bytes(),
        b"VALUE v\r\n"
    );
    assert_eq!(
        process_command("DELETE k\r\n", &mut store).to_bytes(),
        b"OK\r\n"
    );
    assert_eq!(
        process_command("GET k\r\n", &mut store).to_bytes(),
        b"NOT_FOUND\r\n"
    );
}

#[test]
fn test_session_value_with_spaces() {
    let mut store = MemoryStore::new();
    assert_eq!(
        process_command("SET greeting hello world\r\n", &mut store).to_bytes(),
        b"OK\r\n"
    );
    assert_eq!(
        process_command("GET greeting\r\n", &mut store).to_bytes(),
        b"VALUE hello world\r\n"
    );
}

#[test]
fn test_session_unknown_verb() {
    let mut store = MemoryStore::new();
    let bytes = process_command("PING\r\n", &mut store).to_bytes();
    assert!(bytes.starts_with(b"ERROR "));
}

#[test]
fn test_session_interleaved_clients() {
    let mut store = MemoryStore::new();
    for client in 0..10 {
        for op in 0..100 {
            let key = format!("client_{}_key_{}", client, op);
            let value = format!("client_{}_value_{}", client, op);
            let set_line = format!("SET {} {}", key, value);
            assert_eq!(process_command(&set_line, &mut store), Response::Okay);
            let get_line = format!("GET {}", key);
            assert_eq!(
                process_command(&get_line, &mut store),
                Response::Value(value)
            );
        }
    }
    assert_eq!(store.len().unwrap(), 1000);
}

#[test]
fn test_session_large_value() {
    let mut store = MemoryStore::new();
    let payload = "x".repeat(1024 * 1024);
    let set_line = format!("SET big {}", payload);
    assert_eq!(process_command(&set_line, &mut store), Response::Okay);
    assert_eq!(
        process_command("GET big", &mut store),
        Response::Value(payload)
    );
}
