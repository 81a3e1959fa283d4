use resp_kv::CommandExecutor;
use resp_kv::Value;

fn run(ex: &mut CommandExecutor, name: &[u8], args: &[&[u8]]) -> Value {
    let owned: Vec<Vec<u8>> = args.iter().map(|a| a.to_vec()).collect();
    ex.execute(&name.to_vec(), &owned)
}

#[test]
fn set_then_get_returns_the_value() {
    let mut ex = CommandExecutor::new();
    let ok = run(&mut ex, b"SET", &[b"k", b"v"]);
    assert_eq!(ok, Value::SimpleString(b"OK".to_vec()));
    let got = run(&mut ex, b"GET", &[b"k"]);
    assert_eq!(got, Value::BulkString(b"v".to_vec()));
}

#[test]
fn get_absent_key_is_null() {
    let mut ex = CommandExecutor::new();
    assert_eq!(run(&mut ex, b"GET", &[b"nope"]), Value::Null);
}

#[test]
fn set_overwrites() {
    let mut ex = CommandExecutor::new();
    run(&mut ex, b"SET", &[b"k", b"one"]);
    run(&mut ex, b"SET", &[b"k", b"two"]);
    assert_eq!(run(&mut ex, b"GET", &[b"k"]), Value::BulkString(b"two".to_vec()));
}

#[test]
fn set_ignores_extra_arguments() {
    let mut ex = CommandExecutor::new();
    let ok = run(&mut ex, b"SET", &[b"k", b"v", b"EX", b"10"]);
    assert_eq!(ok, Value::SimpleString(b"OK".to_vec()));
    assert_eq!(run(&mut ex, b"GET", &[b"k"]), Value::BulkString(b"v".to_vec()));
}

#[test]
fn del_duplicate_key_counts_once() {
    let mut ex = CommandExecutor::new();
    run(&mut ex, b"SET", &[b"a", b"1"]);
    let n = run(&mut ex, b"DEL", &[b"a", b"a"]);
    assert_eq!(n, Value::Integer(1));
    assert_eq!(run(&mut ex, b"GET", &[b"a"]), Value::Null);
}

#[test]
fn del_absent_key_counts_zero() {
    let mut ex = CommandExecutor::new();
    assert_eq!(run(&mut ex, b"DEL", &[b"x"]), Value::Integer(0));
}

#[test]
fn del_counts_each_present_key() {
    let mut ex = CommandExecutor::new();
    run(&mut ex, b"SET", &[b"a", b"1"]);
    run(&mut ex, b"SET", &[b"b", b"2"]);
    assert_eq!(run(&mut ex, b"DEL", &[b"a", b"missing", b"b"]), Value::Integer(2));
}

#[test]
fn echo_without_arguments_is_an_error_value() {
    let mut ex = CommandExecutor::new();
    let r = run(&mut ex, b"ECHO", &[]);
    assert!(matches!(r, Value::Error(_)), "got {:?}", r);
}

#[test]
fn echo_hands_its_argument_back() {
    let mut ex = CommandExecutor::new();
    assert_eq!(
        run(&mut ex, b"ECHO", &[b"hello"]),
        Value::BulkString(b"hello".to_vec())
    );
}

#[test]
fn ping_pongs_and_echoes() {
    let mut ex = CommandExecutor::new();
    assert_eq!(run(&mut ex, b"PING", &[]), Value::SimpleString(b"PONG".to_vec()));
    assert_eq!(run(&mut ex, b"PING", &[b"hi", b"extra"]), Value::BulkString(b"hi".to_vec()));
}

#[test]
fn get_needs_exactly_one_key() {
    let mut ex = CommandExecutor::new();
    assert!(matches!(run(&mut ex, b"GET", &[]), Value::Error(_)));
    assert!(matches!(run(&mut ex, b"GET", &[b"a", b"b"]), Value::Error(_)));
}

#[test]
fn set_needs_key_and_value() {
    let mut ex = CommandExecutor::new();
    assert_eq!(
        run(&mut ex, b"SET", &[b"k"]),
        Value::Error(b"ERR SET requires a key and a value".to_vec())
    );
}

#[test]
fn del_needs_a_key() {
    let mut ex = CommandExecutor::new();
    assert_eq!(
        run(&mut ex, b"DEL", &[]),
        Value::Error(b"ERR DEL requires at least one key".to_vec())
    );
}

#[test]
fn unknown_command_names_the_culprit() {
    let mut ex = CommandExecutor::new();
    assert_eq!(
        run(&mut ex, b"FLY", &[]),
        Value::Error(b"ERR Unknown command: FLY".to_vec())
    );
}

#[test]
fn help_lists_the_commands() {
    let mut ex = CommandExecutor::new();
    let r = run(&mut ex, b"HELP", &[b"ignored"]);
    match r {
        Value::BulkString(text) => {
            let text = String::from_utf8(text).unwrap();
            assert!(text.starts_with("Available commands:"));
            for word in ["PING", "ECHO", "GET", "SET", "DEL", "HELP"] {
                assert!(text.contains(word), "missing {}", word);
            }
        }
        other => panic!("expected a bulk string, got {:?}", other),
    }
}

#[test]
fn respond_runs_a_decoded_request() {
    let mut ex = CommandExecutor::new();
    let set = Value::Array(vec![
        Value::BulkString(b"set".to_vec()),
        Value::BulkString(b"k".to_vec()),
        Value::BulkString(b"v".to_vec()),
    ]);
    assert_eq!(ex.respond(&set), Value::SimpleString(b"OK".to_vec()));
    let get = Value::Array(vec![
        Value::BulkString(b"GET".to_vec()),
        Value::BulkString(b"k".to_vec()),
    ]);
    assert_eq!(ex.respond(&get), Value::BulkString(b"v".to_vec()));
}

#[test]
fn respond_rejects_non_commands_without_closing() {
    let mut ex = CommandExecutor::new();
    assert_eq!(
        ex.respond(&Value::Integer(5)),
        Value::Error(b"ERR invalid command format".to_vec())
    );
    // The executor still answers afterwards: the connection survives.
    assert_eq!(
        ex.respond(&Value::Array(vec![Value::SimpleString(b"PING".to_vec())])),
        Value::SimpleString(b"PONG".to_vec())
    );
}

#[test]
fn last_write_wins_in_either_order() {
    // Two writers race on one key: whichever the lock serializes last is
    // what a reader sees, never a mixture.
    let mut first = CommandExecutor::new();
    run(&mut first, b"SET", &[b"k", b"1"]);
    run(&mut first, b"SET", &[b"k", b"2"]);
    assert_eq!(run(&mut first, b"GET", &[b"k"]), Value::BulkString(b"2".to_vec()));

    let mut second = CommandExecutor::new();
    run(&mut second, b"SET", &[b"k", b"2"]);
    run(&mut second, b"SET", &[b"k", b"1"]);
    assert_eq!(run(&mut second, b"GET", &[b"k"]), Value::BulkString(b"1".to_vec()));
}

#[test]
fn framing_error_on_one_connection_spares_another() {
    // One connection's buffer starts with an unknown tag and dies with a
    // framing error; a second connection still completes a PING exchange
    // against the same executor.
    let mut shared = CommandExecutor::new();
    let mut poisoned = b"@boom".to_vec();
    assert!(matches!(
        resp_kv::RespParser::take_message(&mut poisoned),
        resp_kv::ParseOutcome::Malformed(resp_kv::ParseError::UnknownType)
    ));
    let mut healthy = b"*1\r\n$4\r\nPING\r\n".to_vec();
    match resp_kv::RespParser::take_message(&mut healthy) {
        resp_kv::ParseOutcome::Parsed(v, _) => {
            assert_eq!(shared.respond(&v), Value::SimpleString(b"PONG".to_vec()));
        }
        other => panic!("unexpected outcome {:?}", other),
    }
}
