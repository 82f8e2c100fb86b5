use rustvault::client::{delete_outcome, get_outcome, set_outcome};
use rustvault::error::RustVaultError;
use rustvault::protocol::{parse_command, parse_response, Command, Response};

#[test]
fn test_parse_set_command() {
    let input = b"SET mykey myvalue\r\n";
    let result = parse_command(input).unwrap();
    assert_eq!(
        result,
        Command::Put {
            key: "mykey".to_string(),
            value: "myvalue".to_string()
        }
    );
}

#[test]
fn test_parse_get_command() {
    let input = b"GET mykey\r\n";
    let result = parse_command(input).unwrap();
    assert_eq!(
        result,
        Command::Get {
            key: "mykey".to_string()
        }
    );
}

#[test]
fn test_parse_delete_command() {
    let input = b"DELETE mykey\r\n";
    let result = parse_command(input).unwrap();
    assert_eq!(
        result,
        Command::Delete {
            key: "mykey".to_string()
        }
    );
}

#[test]
fn test_response_serialization() {
    assert_eq!(Response::Okay.to_bytes(), b"OK\r\n");
    assert_eq!(
        Response::Value("test".to_string()).to_bytes(),
        b"VALUE test\r\n"
    );
    assert_eq!(Response::NotFound.to_bytes(), b"NOT_FOUND\r\n");
    assert_eq!(
        Response::Error("test error".to_string()).to_bytes(),
        b"ERROR test error\r\n"
    );
}

#[test]
fn test_parse_response() {
    assert_eq!(parse_response("OK").unwrap(), Response::Okay);
    assert_eq!(parse_response("NOT_FOUND").unwrap(), Response::NotFound);
    assert_eq!(
        parse_response("VALUE test").unwrap(),
        Response::Value("test".to_string())
    );
    assert_eq!(
        parse_response("ERROR test error").unwrap(),
        Response::Error("test error".to_string())
    );
}

#[test]
fn test_parse_response_unknown_format() {
    let err = parse_response("BOGUS").unwrap_err();
    match err {
        RustVaultError::Protocol(msg) => {
            assert_eq!(msg, "Unknown response format: BOGUS");
        }
        other => panic!("unexpected error: {:?}", other),
    }
}

#[test]
fn test_value_with_spaces_is_kept_verbatim() {
    let result = parse_command(b"SET k a  b c\r\n").unwrap();
    assert_eq!(
        result,
        Command::Put {
            key: "k".to_string(),
            value: "a  b c".to_string()
        }
    );
}

#[test]
fn test_extra_separator_spaces_are_consumed() {
    let result = parse_command(b"SET   k   v\r\n").unwrap();
    assert_eq!(
        result,
        Command::Put {
            key: "k".to_string(),
            value: "v".to_string()
        }
    );
}

#[test]
fn test_empty_value_is_accepted() {
    let result = parse_command(b"SET k \r\n").unwrap();
    assert_eq!(
        result,
        Command::Put {
            key: "k".to_string(),
            value: "".to_string()
        }
    );
}

#[test]
fn test_newline_only_terminator_is_accepted() {
    let result = parse_command(b"GET mykey\n").unwrap();
    assert_eq!(
        result,
        Command::Get {
            key: "mykey".to_string()
        }
    );
}

#[test]
fn test_parse_rejects_malformed_requests() {
    assert!(matches!(
        parse_command(b"SET keyonly\r\n"),
        Err(RustVaultError::Protocol(_))
    ));
    assert!(matches!(
        parse_command(b"PING\r\n"),
        Err(RustVaultError::Protocol(_))
    ));
    assert!(matches!(
        parse_command(b"GET a b\r\n"),
        Err(RustVaultError::Protocol(_))
    ));
    assert!(matches!(
        parse_command(b"GET \r\n"),
        Err(RustVaultError::Protocol(_))
    ));
    assert!(matches!(
        parse_command(b"GET unterminated"),
        Err(RustVaultError::Protocol(_))
    ));
    assert!(matches!(
        parse_command(b"set lower v\r\n"),
        Err(RustVaultError::Protocol(_))
    ));
    assert!(matches!(
        parse_command(b"\r\n"),
        Err(RustVaultError::Protocol(_))
    ));
}

#[test]
fn test_parse_reads_keys_as_utf8() {
    let line = "SET k\u{e9}y v\u{e4}lue\r\n";
    let result = parse_command(line.as_bytes()).unwrap();
    assert_eq!(
        result,
        Command::Put {
            key: "k\u{e9}y".to_string(),
            value: "v\u{e4}lue".to_string()
        }
    );
}

#[test]
fn test_command_serialization() {
    let put = Command::Put {
        key: "k".to_string(),
        value: "hello world".to_string(),
    };
    assert_eq!(put.to_bytes(), b"SET k hello world\r\n");
    let get = Command::Get {
        key: "k".to_string(),
    };
    assert_eq!(get.to_bytes(), b"GET k\r\n");
    let del = Command::Delete {
        key: "k".to_string(),
    };
    assert_eq!(del.to_bytes(), b"DELETE k\r\n");
    assert!(put.is_mutation());
    assert!(del.is_mutation());
    assert!(!get.is_mutation());
}

#[test]
fn test_command_round_trip() {
    let commands = vec![
        Command::Put {
            key: "k\u{e9}y".to_string(),
            value: "v with spaces".to_string(),
        },
        Command::Put {
            key: "k".to_string(),
            value: "".to_string(),
        },
        Command::Get {
            key: "some_key".to_string(),
        },
        Command::Delete {
            key: "some_key".to_string(),
        },
    ];
    for c in commands {
        assert_eq!(parse_command(&c.to_bytes()).unwrap(), c);
    }
}

#[test]
fn test_client_outcomes() {
    assert!(set_outcome(Response::Okay).is_ok());
    assert!(matches!(
        set_outcome(Response::Error("full".to_string())),
        Err(RustVaultError::Server(_))
    ));
    assert!(matches!(
        set_outcome(Response::NotFound),
        Err(RustVaultError::Protocol(_))
    ));
    assert_eq!(
        get_outcome(Response::Value("v".to_string())).unwrap(),
        Some("v".to_string())
    );
    assert_eq!(get_outcome(Response::NotFound).unwrap(), None);
    assert!(matches!(
        get_outcome(Response::Okay),
        Err(RustVaultError::Protocol(_))
    ));
    assert_eq!(delete_outcome(Response::Okay).unwrap(), true);
    assert_eq!(delete_outcome(Response::NotFound).unwrap(), false);
    assert!(matches!(
        delete_outcome(Response::Value("v".to_string())),
        Err(RustVaultError::Protocol(_))
    ));
}

#[test]
fn test_response_round_trip() {
    let responses = vec![
        Response::Okay,
        Response::NotFound,
        Response::Value("hello world".to_string()),
        Response::Value("".to_string()),
        Response::Value("trailing  ".to_string()),
        Response::Error("boom".to_string()),
    ];
    for r in responses {
        let bytes = r.to_bytes();
        let line = &bytes[..bytes.len() - 2];
        let text = std::str::from_utf8(line).unwrap();
        assert_eq!(parse_response(text).unwrap(), r);
    }
}
