use t_trace::protocol::{ParseError, Request};

#[test]
fn test_command_begin_request_parsing() {
    let input = "COMMAND_BEGIN 1234 ls -l /home/user";
    let expected = Request::CommandBegin {
        pid: 1234,
        command: "ls -l /home/user".to_string(),
    };
    assert_eq!(Request::from_str(input).unwrap(), expected);
}

#[test]
fn test_command_end_request_parsing() {
    let input = "COMMAND_END 5678 0";
    let expected = Request::CommandEnd {
        pid: 5678,
        exit_code: 0,
    };
    assert_eq!(Request::from_str(input).unwrap(), expected);
}

#[test]
fn test_command_end_request_parsing_with_negative_exit_code() {
    let input = "COMMAND_END 5678 -1";
    let expected = Request::CommandEnd {
        pid: 5678,
        exit_code: -1,
    };
    assert_eq!(Request::from_str(input).unwrap(), expected);
}

#[test]
fn test_request_formatting() {
    let begin_req = Request::CommandBegin {
        pid: 1234,
        command: "git commit -m \"a message\"".to_string(),
    };
    let end_req = Request::CommandEnd {
        pid: 5678,
        exit_code: 0,
    };

    let expected_begin = "COMMAND_BEGIN 1234 git commit -m \"a message\"";
    let expected_end = "COMMAND_END 5678 0";

    assert_eq!(begin_req.to_line(), expected_begin);
    assert_eq!(end_req.to_line(), expected_end);
}

#[test]
fn test_parsing_fails_on_unknown_verb() {
    let input = "FOO 1234 bar";
    assert!(Request::from_str(input).is_err());
}

#[test]
fn test_parsing_fails_on_empty_input() {
    let input = "";
    assert!(Request::from_str(input).is_err());
}

#[test]
fn test_parsing_fails_on_missing_pid() {
    let input = "COMMAND_BEGIN";
    assert!(Request::from_str(input).is_err());
}

#[test]
fn test_parsing_fails_on_invalid_pid() {
    let input = "COMMAND_BEGIN not_a_pid ls";
    assert!(Request::from_str(input).is_err());
}

#[test]
fn test_parsing_fails_on_missing_command_string_for_start() {
    let input = "COMMAND_BEGIN 1234";
    assert!(Request::from_str(input).is_err());
}

#[test]
fn test_parsing_fails_on_missing_exit_code_for_end() {
    let input = "COMMAND_END 1234";
    assert!(Request::from_str(input).is_err());
}

#[test]
fn test_parsing_fails_on_invalid_exit_code() {
    let input = "COMMAND_END 1234 not_an_int";
    assert!(Request::from_str(input).is_err());
}

#[test]
fn parse_error_is_malformed_request() {
    assert_eq!(
        Request::from_str("GARBAGE").unwrap_err(),
        ParseError::MalformedRequest
    );
}

#[test]
fn fixed_verbs_parse_and_line_endings_are_trimmed() {
    assert_eq!(Request::from_str("STOP\n").unwrap(), Request::Stop);
    assert_eq!(
        Request::from_str("HEALTH_CHECK\r\n").unwrap(),
        Request::HealthCheck
    );
    assert_eq!(Request::from_str(" GET_STATS ").unwrap(), Request::GetStats);
}

#[test]
fn serialized_requests_parse_back() {
    let reqs = vec![
        Request::Stop,
        Request::HealthCheck,
        Request::GetStats,
        Request::CommandBegin {
            pid: 42,
            command: "cargo build --release".to_string(),
        },
        Request::CommandEnd {
            pid: 42,
            exit_code: -7,
        },
        Request::CommandEnd {
            pid: u32::MAX,
            exit_code: i32::MIN,
        },
    ];
    for r in reqs {
        let line = r.to_line();
        assert_eq!(Request::from_str(&line).unwrap(), r);
    }
}

#[test]
fn pid_overflow_is_rejected() {
    assert!(Request::from_str("COMMAND_BEGIN 4294967296 ls").is_err());
    assert!(Request::from_str("COMMAND_END 1 2147483648").is_err());
    assert_eq!(
        Request::from_str("COMMAND_END 1 -2147483648").unwrap(),
        Request::CommandEnd {
            pid: 1,
            exit_code: i32::MIN
        }
    );
}
