use resp_kv::CommandType;
use resp_kv::CommandsList;
use resp_kv::EchoCommand;
use resp_kv::SetCommand;
use resp_kv::Settings;
use resp_kv::Value;
use resp_kv::extract_command_name;
use resp_kv::get_command_instance;
use resp_kv::parse_command_parts;
use resp_kv::tokenize_command;

#[test]
fn parse_command_parts_splits_at_first_space() {
    let (cmd, rest) = parse_command_parts(b"set key value").unwrap();
    assert_eq!(cmd, b"SET".to_vec());
    assert_eq!(rest, b"key value".to_vec());

    let (cmd, rest) = parse_command_parts(b"ping").unwrap();
    assert_eq!(cmd, b"PING".to_vec());
    assert!(rest.is_empty());

    let (cmd, rest) = parse_command_parts(b"").unwrap();
    assert!(cmd.is_empty());
    assert!(rest.is_empty());
}

#[test]
fn tokenize_command_splits_on_whitespace_runs() {
    let toks = tokenize_command(b"  set\t key \r\n value  ");
    assert_eq!(
        toks,
        vec![b"set".to_vec(), b"key".to_vec(), b"value".to_vec()]
    );
    assert!(tokenize_command(b"").is_empty());
    assert!(tokenize_command(b"   \t ").is_empty());
    assert_eq!(tokenize_command(b"one"), vec![b"one".to_vec()]);
}

#[test]
fn extract_command_name_takes_the_first_token() {
    let parts = vec![b"GET".to_vec(), b"k".to_vec()];
    assert_eq!(extract_command_name(&parts), Some(b"GET".to_vec()));
    assert_eq!(extract_command_name(&[]), None);
}

#[test]
fn command_type_upper_cases_its_input() {
    assert_eq!(CommandType::from_command_type(b"ping"), Some(CommandType::Ping));
    assert_eq!(CommandType::from_command_type(b"Echo"), Some(CommandType::Echo));
    assert_eq!(CommandType::from_command_type(b"HELP"), Some(CommandType::Help));
    assert_eq!(CommandType::from_command_type(b"sEt"), Some(CommandType::SetCmd));
    assert_eq!(CommandType::from_command_type(b"nope"), None);
}

#[test]
fn commands_list_builds_and_runs() {
    let ping = CommandsList::from_command_type(b"PING", b"").unwrap();
    assert_eq!(
        ping.execute_with_args(&Vec::new()),
        Ok(Value::SimpleString(b"PONG".to_vec()))
    );

    assert!(CommandsList::from_command_type(b"ECHO", b"").is_none());
    let echo = CommandsList::from_command_type(b"ECHO", b"hi").unwrap();
    assert_eq!(
        echo.execute_with_args(&Vec::new()),
        Ok(Value::BulkString(b"hi".to_vec()))
    );
    assert_eq!(
        echo.execute_with_args(&vec![b"over".to_vec()]),
        Ok(Value::BulkString(b"over".to_vec()))
    );

    assert!(CommandsList::from_command_type(b"SET", b"").is_none());
    let set = CommandsList::from_command_type(b"SET", b"k v").unwrap();
    assert!(set.execute_with_args(&vec![b"k".to_vec()]).is_err());
    assert_eq!(
        set.execute_with_args(&vec![b"k".to_vec(), b"v".to_vec()]),
        Ok(Value::SimpleString(b"OK".to_vec()))
    );

    assert!(CommandsList::from_command_type(b"QUIT", b"").is_none());
}

#[test]
fn get_command_instance_parses_a_request_line() {
    assert!(matches!(
        get_command_instance(b"ping"),
        Some(CommandsList::Ping(_))
    ));
    assert!(matches!(
        get_command_instance(b"echo hello there"),
        Some(CommandsList::Echo(_))
    ));
    assert!(get_command_instance(b"echo").is_none());
    assert!(get_command_instance(b"unknown x").is_none());
}

#[test]
fn echo_command_falls_back_to_its_message() {
    let echo = EchoCommand::new(Vec::new());
    assert!(echo.execute(&Vec::new()).is_err());
    let echo = EchoCommand::new(b"stored".to_vec());
    assert_eq!(
        echo.execute(&Vec::new()),
        Ok(Value::BulkString(b"stored".to_vec()))
    );
}

#[test]
fn set_command_checks_arity() {
    let set = SetCommand::new(b"k v".to_vec());
    assert!(set.execute(&Vec::new()).is_err());
    assert_eq!(
        set.execute(&vec![b"k".to_vec(), b"v".to_vec()]),
        Ok(Value::SimpleString(b"OK".to_vec()))
    );
}

#[test]
fn settings_defaults_match_the_documented_values() {
    let s = Settings::new();
    assert_eq!(s.server.name, "Default Server");
    assert_eq!(s.server.version, "1.0");
    assert_eq!(s.server.network.host, "127.0.0.1");
    assert_eq!(s.server.network.port, 8080);
    assert!(!s.server.network.ssl);
    assert_eq!(s.server.network.max_connections, 100);
    assert_eq!(s.server.db.path, "db.sqlite");
    assert!(s.server.db.enable_logging);
}
