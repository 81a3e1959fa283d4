use resp_kv::ParseError;
use resp_kv::ParseOutcome;
use resp_kv::RespParser;
use resp_kv::Value;

fn parsed(bytes: &[u8]) -> (Value, usize) {
    match RespParser::parse_message(bytes) {
        ParseOutcome::Parsed(v, n) => (v, n),
        other => panic!("expected a parsed value, got {:?}", other),
    }
}

fn round_trips(v: Value) {
    let wire = v.serialize();
    let (back, consumed) = parsed(&wire);
    assert_eq!(back, v);
    assert_eq!(consumed, wire.len());
}

#[test]
fn round_trip_null() {
    round_trips(Value::Null);
}

#[test]
fn round_trip_simple_string() {
    round_trips(Value::SimpleString(b"OK".to_vec()));
    round_trips(Value::SimpleString(Vec::new()));
}

#[test]
fn round_trip_error() {
    round_trips(Value::Error(b"ERR wrong".to_vec()));
}

#[test]
fn round_trip_integers() {
    round_trips(Value::Integer(0));
    round_trips(Value::Integer(42));
    round_trips(Value::Integer(-7));
    round_trips(Value::Integer(i64::MAX));
    round_trips(Value::Integer(i64::MIN));
}

#[test]
fn round_trip_booleans() {
    round_trips(Value::Boolean(true));
    round_trips(Value::Boolean(false));
}

#[test]
fn round_trip_bulk_string() {
    round_trips(Value::BulkString(b"hello".to_vec()));
    round_trips(Value::BulkString(Vec::new()));
    // A bulk string may carry CRLF: its length prefix frames it.
    round_trips(Value::BulkString(b"a\r\nb".to_vec()));
}

#[test]
fn round_trip_arrays() {
    round_trips(Value::Array(Vec::new()));
    round_trips(Value::Array(vec![
        Value::BulkString(b"SET".to_vec()),
        Value::BulkString(b"k".to_vec()),
        Value::Integer(3),
    ]));
    round_trips(Value::Array(vec![
        Value::Array(vec![Value::Null, Value::Boolean(true)]),
        Value::SimpleString(b"x".to_vec()),
    ]));
}

#[test]
fn serialize_exact_bytes() {
    assert_eq!(Value::Null.serialize(), b"$-1\r\n".to_vec());
    assert_eq!(Value::SimpleString(b"PONG".to_vec()).serialize(), b"+PONG\r\n".to_vec());
    assert_eq!(Value::Error(b"ERR x".to_vec()).serialize(), b"-ERR x\r\n".to_vec());
    assert_eq!(Value::Integer(-42).serialize(), b":-42\r\n".to_vec());
    assert_eq!(Value::Integer(1234567890).serialize(), b":1234567890\r\n".to_vec());
    assert_eq!(Value::Boolean(true).serialize(), b"#t\r\n".to_vec());
    assert_eq!(Value::Boolean(false).serialize(), b"#f\r\n".to_vec());
    assert_eq!(Value::BulkString(b"foo".to_vec()).serialize(), b"$3\r\nfoo\r\n".to_vec());
    assert_eq!(
        Value::Array(vec![Value::BulkString(b"ab".to_vec()), Value::Integer(5)]).serialize(),
        b"*2\r\n$2\r\nab\r\n:5\r\n".to_vec()
    );
}

#[test]
fn incremental_feed_at_every_boundary() {
    let whole = Value::Array(vec![
        Value::BulkString(b"GET".to_vec()),
        Value::BulkString(b"key".to_vec()),
    ])
    .serialize();
    let (expect, n) = parsed(&whole);
    assert_eq!(n, whole.len());
    for cut in 0..whole.len() {
        let first = &whole[..cut];
        assert_eq!(
            RespParser::parse_message(first),
            ParseOutcome::NeedMoreData,
            "prefix of {} bytes",
            cut
        );
        let mut buffer = first.to_vec();
        buffer.extend_from_slice(&whole[cut..]);
        let (v, m) = parsed(&buffer);
        assert_eq!(v, expect);
        assert_eq!(m, whole.len());
    }
}

#[test]
fn need_more_data_cases() {
    for bytes in [
        &b""[..],
        b"+pending",
        b":12\r",
        b"$5\r\nab",
        b"$5\r\nabcde",
        b"#t",
        b"*2\r\n$3\r\nfoo\r\n",
        b"*1\r\n",
    ] {
        assert_eq!(RespParser::parse_message(bytes), ParseOutcome::NeedMoreData);
    }
}

#[test]
fn malformed_cases() {
    assert_eq!(
        RespParser::parse_message(b"@hello\r\n"),
        ParseOutcome::Malformed(ParseError::UnknownType)
    );
    assert_eq!(
        RespParser::parse_message(b":abc\r\n"),
        ParseOutcome::Malformed(ParseError::InvalidInteger)
    );
    assert_eq!(
        RespParser::parse_message(b":\r\n"),
        ParseOutcome::Malformed(ParseError::InvalidInteger)
    );
    assert_eq!(
        RespParser::parse_message(b":9223372036854775808\r\n"),
        ParseOutcome::Malformed(ParseError::InvalidInteger)
    );
    assert_eq!(
        RespParser::parse_message(b"$x\r\n"),
        ParseOutcome::Malformed(ParseError::InvalidLength)
    );
    assert_eq!(
        RespParser::parse_message(b"$-2\r\n"),
        ParseOutcome::Malformed(ParseError::InvalidLength)
    );
    assert_eq!(
        RespParser::parse_message(b"*x\r\n"),
        ParseOutcome::Malformed(ParseError::InvalidLength)
    );
    assert_eq!(
        RespParser::parse_message(b"#q\r\n"),
        ParseOutcome::Malformed(ParseError::InvalidBoolean)
    );
    assert_eq!(
        RespParser::parse_message(b"#txx\r\n"),
        ParseOutcome::Malformed(ParseError::InvalidBoolean)
    );
    // A malformed element poisons the whole array.
    assert_eq!(
        RespParser::parse_message(b"*2\r\n:bad\r\n:1\r\n"),
        ParseOutcome::Malformed(ParseError::InvalidInteger)
    );
}

#[test]
fn null_forms() {
    assert_eq!(parsed(b"$-1\r\n"), (Value::Null, 5));
    assert_eq!(parsed(b"*-1\r\n"), (Value::Null, 5));
}

#[test]
fn integer_lines_accept_signs_and_zeros() {
    assert_eq!(parsed(b":+5\r\n"), (Value::Integer(5), 5));
    assert_eq!(parsed(b":007\r\n"), (Value::Integer(7), 6));
    assert_eq!(
        parsed(b":-9223372036854775808\r\n"),
        (Value::Integer(i64::MIN), 23)
    );
}

#[test]
fn parse_stops_at_frame_end() {
    let (v, n) = parsed(b"+first\r\n+second\r\n");
    assert_eq!(v, Value::SimpleString(b"first".to_vec()));
    assert_eq!(n, 8);
}

#[test]
fn take_message_consumes_exactly_one_frame() {
    let mut buffer = b":1\r\n+ok\r\n".to_vec();
    match RespParser::take_message(&mut buffer) {
        ParseOutcome::Parsed(v, n) => {
            assert_eq!(v, Value::Integer(1));
            assert_eq!(n, 4);
        }
        other => panic!("unexpected outcome {:?}", other),
    }
    assert_eq!(buffer, b"+ok\r\n".to_vec());
    match RespParser::take_message(&mut buffer) {
        ParseOutcome::Parsed(v, n) => {
            assert_eq!(v, Value::SimpleString(b"ok".to_vec()));
            assert_eq!(n, 5);
        }
        other => panic!("unexpected outcome {:?}", other),
    }
    assert!(buffer.is_empty());
}

#[test]
fn take_message_leaves_partial_buffers_alone() {
    let mut buffer = b"$10\r\nabc".to_vec();
    assert_eq!(RespParser::take_message(&mut buffer), ParseOutcome::NeedMoreData);
    assert_eq!(buffer, b"$10\r\nabc".to_vec());
    let mut bad = b"@oops".to_vec();
    assert_eq!(
        RespParser::take_message(&mut bad),
        ParseOutcome::Malformed(ParseError::UnknownType)
    );
    assert_eq!(bad, b"@oops".to_vec());
}

#[test]
fn to_command_shapes() {
    let v = Value::Array(vec![
        Value::BulkString(b"set".to_vec()),
        Value::BulkString(b"key".to_vec()),
        Value::Integer(9),
        Value::SimpleString(b"val".to_vec()),
    ]);
    let (name, args) = v.to_command().expect("a command");
    assert_eq!(name, b"SET".to_vec());
    assert_eq!(args, vec![b"key".to_vec(), b"val".to_vec()]);

    assert_eq!(Value::Array(Vec::new()).to_command(), None);
    assert_eq!(Value::Integer(1).to_command(), None);
    assert_eq!(
        Value::Array(vec![Value::Integer(1), Value::BulkString(b"x".to_vec())]).to_command(),
        None
    );

    let simple = Value::Array(vec![Value::SimpleString(b"Ping".to_vec())]);
    let (name, args) = simple.to_command().expect("a command");
    assert_eq!(name, b"PING".to_vec());
    assert!(args.is_empty());
}
