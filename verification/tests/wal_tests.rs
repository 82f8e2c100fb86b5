use rustvault::error::RustVaultError;
use rustvault::protocol::Command;
use rustvault::store::{MemoryStore, Store};
use rustvault::wal::{compaction_bytes, encode_entry, parse_entry, replay, WalEntry};

fn put(key: &str, value: &str) -> Command {
    Command::Put {
        key: key.to_string(),
        value: value.to_string(),
    }
}

#[test]
fn test_wal_write_and_replay() {
    let cmd1 = put("key1", "value1");
    let cmd2 = Command::Get {
        key: "key1".to_string(),
    };
    let e1 = WalEntry::new(cmd1.clone());
    let e2 = WalEntry::new(cmd2.clone());

    let mut log = encode_entry(&e1);
    log.extend_from_slice(&encode_entry(&e2));

    let lines: Vec<&[u8]> = log.split(|b| *b == b'\n').filter(|l| !l.is_empty()).collect();
    assert_eq!(lines.len(), 2);
    assert_eq!(parse_entry(lines[0]).unwrap().command, cmd1);
    assert_eq!(parse_entry(lines[1]).unwrap().command, cmd2);

    let mut store = MemoryStore::new();
    replay(&log, &mut store).unwrap();
    assert_eq!(store.get("key1").unwrap(), Some("value1".to_string()));
    assert_eq!(store.len().unwrap(), 1);
}

#[test]
fn test_entry_encoding_is_canonical_json() {
    let entry = WalEntry {
        timestamp: 42,
        command: put("k", "v"),
    };
    assert_eq!(
        encode_entry(&entry),
        b"{\"timestamp\":42,\"command\":{\"Set\":{\"key\":\"k\",\"value\":\"v\"}}}\n"
    );
    let get_entry = WalEntry {
        timestamp: 7,
        command: Command::Get {
            key: "a".to_string(),
        },
    };
    assert_eq!(
        encode_entry(&get_entry),
        b"{\"timestamp\":7,\"command\":{\"Get\":{\"key\":\"a\"}}}\n"
    );
    let del_entry = WalEntry {
        timestamp: 1234567890123,
        command: Command::Delete {
            key: "a".to_string(),
        },
    };
    assert_eq!(
        encode_entry(&del_entry),
        b"{\"timestamp\":1234567890123,\"command\":{\"Delete\":{\"key\":\"a\"}}}\n"
    );
}

#[test]
fn test_entry_round_trip_with_special_characters() {
    let entries = vec![
        WalEntry {
            timestamp: 0,
            command: put("key_\u{e7}\u{3042}", "value with \u{1f680} emoji"),
        },
        WalEntry {
            timestamp: u64::MAX,
            command: put("quotes\"and\\slashes", "tab\there"),
        },
        WalEntry {
            timestamp: 3,
            command: put("k", "control\u{1}bytes\u{1f}kept"),
        },
        WalEntry {
            timestamp: 4,
            command: put("k", ""),
        },
    ];
    for entry in entries {
        let line = encode_entry(&entry);
        let body = &line[..line.len() - 1];
        assert_eq!(parse_entry(body).unwrap(), entry);
    }
}

#[test]
fn test_escapes_are_decoded() {
    let body = b"{\"timestamp\":1,\"command\":{\"Set\":{\"key\":\"a\\tb\",\"value\":\"c\\u0001d\\\\e\\\"f\\/g\"}}}";
    let entry = parse_entry(body).unwrap();
    assert_eq!(entry.command, put("a\tb", "c\u{1}d\\e\"f/g"));
}

#[test]
fn test_replay_restores_keyspace() {
    let mut log: Vec<u8> = Vec::new();
    log.extend_from_slice(&encode_entry(&WalEntry::new(put("a", "1"))));
    log.extend_from_slice(&encode_entry(&WalEntry::new(put("b", "2"))));
    log.extend_from_slice(&encode_entry(&WalEntry::new(Command::Delete {
        key: "a".to_string(),
    })));

    let mut store = MemoryStore::new();
    replay(&log, &mut store).unwrap();
    assert_eq!(store.get("a").unwrap(), None);
    assert_eq!(store.get("b").unwrap(), Some("2".to_string()));
    assert_eq!(store.len().unwrap(), 1);
}

#[test]
fn test_replay_skips_blank_lines_and_ignores_get_entries() {
    let mut log: Vec<u8> = Vec::new();
    log.extend_from_slice(b"\n   \n");
    log.extend_from_slice(&encode_entry(&WalEntry::new(put("a", "1"))));
    log.extend_from_slice(b"\t\n");
    log.extend_from_slice(&encode_entry(&WalEntry::new(Command::Get {
        key: "legacy".to_string(),
    })));

    let mut store = MemoryStore::new();
    replay(&log, &mut store).unwrap();
    assert_eq!(store.len().unwrap(), 1);
    assert_eq!(store.get("a").unwrap(), Some("1".to_string()));
}

#[test]
fn test_replay_tolerates_partial_tail() {
    let mut log: Vec<u8> = Vec::new();
    log.extend_from_slice(&encode_entry(&WalEntry::new(put("a", "1"))));
    log.extend_from_slice(&encode_entry(&WalEntry::new(put("b", "2"))));

    let torn = encode_entry(&WalEntry::new(put("c", "3")));
    for cut in [1, torn.len() / 2, torn.len() - 1] {
        let mut damaged = log.clone();
        damaged.extend_from_slice(&torn[..cut]);
        let mut store = MemoryStore::new();
        replay(&damaged, &mut store).unwrap();
        assert_eq!(store.get("a").unwrap(), Some("1".to_string()));
        assert_eq!(store.get("b").unwrap(), Some("2".to_string()));
        assert_eq!(store.len().unwrap(), 2);
    }
}

#[test]
fn test_replay_rejects_malformed_lines() {
    let mut store = MemoryStore::new();
    let err = replay(b"not json at all\n", &mut store).unwrap_err();
    assert!(matches!(err, RustVaultError::Wal(_)));

    let mut log: Vec<u8> = Vec::new();
    log.extend_from_slice(&encode_entry(&WalEntry::new(put("a", "1"))));
    log.extend_from_slice(b"{\"timestamp\":oops}\n");
    let mut store2 = MemoryStore::new();
    assert!(replay(&log, &mut store2).is_err());
}

#[test]
fn test_entry_with_oversized_timestamp_is_rejected() {
    let body = b"{\"timestamp\":99999999999999999999,\"command\":{\"Get\":{\"key\":\"a\"}}}";
    assert!(matches!(
        parse_entry(body),
        Err(RustVaultError::Wal(_))
    ));
}

#[test]
fn test_entry_with_trailing_bytes_is_rejected() {
    let body = b"{\"timestamp\":1,\"command\":{\"Get\":{\"key\":\"a\"}}} ";
    assert!(parse_entry(body).is_err());
    let body2 = b"{\"timestamp\":1,\"command\":{\"Gift\":{\"key\":\"a\"}}}";
    assert!(parse_entry(body2).is_err());
}

#[test]
fn test_compaction_preserves_keyspace() {
    let mut store = MemoryStore::new();
    store.set("a".to_string(), "1".to_string()).unwrap();
    store.set("b".to_string(), "2".to_string()).unwrap();
    store.set("a".to_string(), "3".to_string()).unwrap();
    store.delete("b").unwrap();
    store.set("c".to_string(), "4".to_string()).unwrap();

    let snapshot = store.get_all().unwrap();
    let compacted = compaction_bytes(&snapshot);

    let mut restored = MemoryStore::new();
    replay(&compacted, &mut restored).unwrap();
    assert_eq!(restored.len().unwrap(), 2);
    assert_eq!(restored.get("a").unwrap(), Some("3".to_string()));
    assert_eq!(restored.get("b").unwrap(), None);
    assert_eq!(restored.get("c").unwrap(), Some("4".to_string()));
}

#[test]
fn test_persistence_across_restart() {
    // What server A writes while handling SET a 1, SET b 2, DELETE a.
    let mut log: Vec<u8> = Vec::new();
    for cmd in [
        put("a", "1"),
        put("b", "2"),
        Command::Delete {
            key: "a".to_string(),
        },
    ] {
        if cmd.is_mutation() {
            log.extend_from_slice(&encode_entry(&WalEntry::new(cmd)));
        }
    }
    // Server B starts on the same log.
    let mut store = MemoryStore::new();
    replay(&log, &mut store).unwrap();
    assert_eq!(store.get("a").unwrap(), None);
    assert_eq!(store.get("b").unwrap(), Some("2".to_string()));
}
