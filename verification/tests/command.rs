use oxidant::Command;

#[test]
fn test_parse_command() {
    let test = vec!["test".to_string()];
    assert_eq!(Command::Test, Command::parse(&test).expect("Not test"));
}

#[test]
fn test_parse_command_with_args() {
    let echo = vec![
        "echo".to_string(),
        "1".to_string(),
        "2".to_string(),
        "3".to_string(),
    ];
    assert_eq!(
        Command::Echo("1 2 3".to_string()),
        Command::parse(&echo).expect("Not echo")
    );
}

#[test]
fn test_parse_empty_command() {
    let nothing: Vec<String> = Vec::new();
    assert!(Command::parse(&nothing).is_err());
}

#[test]
fn test_parse_health() {
    let args = vec!["health".to_string()];
    assert_eq!(Command::HealthCheck, Command::parse(&args).unwrap());
}

#[test]
fn test_parse_add() {
    let args = vec!["add".to_string(), "2".to_string(), "3".to_string()];
    assert!(matches!(Command::parse(&args), Ok(Command::Add(2, 3))));
}

#[test]
fn test_parse_add_negative() {
    let args = vec!["add".to_string(), "-7".to_string(), "40".to_string()];
    assert!(matches!(Command::parse(&args), Ok(Command::Add(-7, 40))));
}

#[test]
fn test_parse_add_missing_argument() {
    let args = vec!["add".to_string()];
    assert_eq!(
        Command::parse(&args),
        Err("a was not present".to_string())
    );
    let args = vec!["add".to_string(), "1".to_string()];
    assert_eq!(
        Command::parse(&args),
        Err("b was not present".to_string())
    );
}

#[test]
fn test_parse_add_bad_number() {
    let args = vec!["add".to_string(), "one".to_string(), "2".to_string()];
    assert!(Command::parse(&args).is_err());
}

#[test]
fn test_parse_unknown_command() {
    let args = vec!["launch".to_string()];
    assert_eq!(
        Command::parse(&args),
        Err("no such command launch".to_string())
    );
}

#[test]
fn test_command_name() {
    assert_eq!(Command::Test.name(), "test".to_string());
    assert_eq!(Command::HealthCheck.name(), "health_check".to_string());
    assert_eq!(Command::Echo("x".to_string()).name(), "echo".to_string());
    assert_eq!(Command::Add(1, 2).name(), "add".to_string());
}

#[test]
fn test_serialize_test() {
    assert_eq!(
        Command::Test.serialize(),
        "{\"command\": \"test\"}\n".to_string()
    );
}

#[test]
fn test_serialize_echo() {
    assert_eq!(
        Command::Echo("hi there".to_string()).serialize(),
        "{\"command\": \"echo\", \"echoed\": \"hi there\"}\n".to_string()
    );
}

#[test]
fn test_serialize_add() {
    assert_eq!(
        Command::Add(2, 3).serialize(),
        "{\"command\": \"add\", \"a\": 2, \"b\": 3}\n".to_string()
    );
    assert_eq!(
        Command::Add(-41, 0).serialize(),
        "{\"command\": \"add\", \"a\": -41, \"b\": 0}\n".to_string()
    );
}

#[test]
fn test_deserialize_test_command() {
    assert_eq!(
        Command::deserialize("{\"command\": \"test\"}"),
        Ok(Command::Test)
    );
}

#[test]
fn test_deserialize_echo() {
    assert_eq!(
        Command::deserialize("{\"command\": \"echo\", \"echoed\": \"hey\"}"),
        Ok(Command::Echo("hey".to_string()))
    );
    assert_eq!(
        Command::deserialize("{\"command\": \"echo\"}"),
        Err("bad echo - no key `echoed`".to_string())
    );
}

#[test]
fn test_deserialize_add() {
    let r = Command::deserialize("{\"command\": \"add\", \"a\": 1, \"b\": 2}");
    assert!(matches!(r, Ok(Command::Add(1, 2))));
    assert_eq!(
        Command::deserialize("{\"command\": \"add\", \"b\": 2}"),
        Err("missing argument `a`".to_string())
    );
    assert_eq!(
        Command::deserialize("{\"command\": \"add\", \"a\": 2}"),
        Err("missing argument `b`".to_string())
    );
    assert_eq!(
        Command::deserialize("{\"command\": \"add\"}"),
        Err("missing arguments `a` and `b`".to_string())
    );
}

#[test]
fn test_deserialize_bad_input() {
    assert!(Command::deserialize("this is not json").is_err());
    assert_eq!(
        Command::deserialize("{\"other\": 1}"),
        Err("no command".to_string())
    );
    assert_eq!(
        Command::deserialize("{\"command\": \"launch\"}"),
        Err("bad command".to_string())
    );
}

#[test]
fn test_command_from_fields() {
    assert_eq!(
        Command::command_from_fields(Some("health".to_string()), None, None, None),
        Ok(Command::HealthCheck)
    );
    assert_eq!(
        Command::command_from_fields(None, None, Some(1), Some(2)),
        Err("no command".to_string())
    );
}
