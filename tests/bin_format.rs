use ypbank_parser::bin_format::{normalize_description, parse_operation, unescape_string, write_operation};
use ypbank_parser::{Operation, OperationStatus, OperationType};

#[test]
fn test_unescape_string() {
    assert_eq!(unescape_string(r#"Record number 1"#), "Record number 1");
    assert_eq!(
        unescape_string(r#"\"Record number 1\""#),
        r#""Record number 1""#
    );
    assert_eq!(unescape_string(r#"Line1\nLine2"#), "Line1\nLine2");
    assert_eq!(unescape_string(r#"Tab\there"#), "Tab\there");
    assert_eq!(unescape_string(r#"Backslash\\"#), r#"Backslash\"#);
}

#[test]
fn test_normalize_description() {
    assert_eq!(normalize_description(r#""Нормализуй 1""#), "Нормализуй 1");
    assert_eq!(
        normalize_description(r#""\"Нормализуй 1\"""#),
        r#""Нормализуй 1""#
    );
    assert_eq!(normalize_description("Нормализуй 1"), "Нормализуй 1");
    assert_eq!(normalize_description(r#"  "trimmed"  "#), "trimmed");
}

#[test]
fn test_round_trip_simple() {
    let op = Operation {
        tx_id: 12345,
        tx_type: OperationType::Deposit,
        from_user_id: 0,
        to_user_id: 67890,
        amount: 1000,
        timestamp: 1633036860000,
        status: OperationStatus::Success,
        description: "Simple".to_string(),
    };

    let mut buf = Vec::new();
    write_operation(&mut buf, &op).unwrap();

    let mut pos = 0;
    let parsed = parse_operation(&buf, &mut pos).unwrap();

    assert_eq!(op, parsed);
    assert_eq!(parsed.description, "Simple");
}

#[test]
fn test_parse_escaped_description() {
    let op_with_escaped = Operation {
        tx_id: 1000000000000000,
        tx_type: OperationType::Deposit,
        from_user_id: 0,
        to_user_id: 9223372036854775807,
        amount: 100,
        timestamp: 1633036860000,
        status: OperationStatus::Failure,
        description: r#"\"Лишн ковычк 1\""#.to_string(),
    };

    let mut buf = Vec::new();
    write_operation(&mut buf, &op_with_escaped).unwrap();

    let mut pos = 0;
    let parsed = parse_operation(&buf, &mut pos).unwrap();

    assert_eq!(parsed.description, r#""Лишн ковычк 1""#);
}

#[test]
fn test_round_trip_with_quotes() {
    let op = Operation {
        tx_id: 12345,
        tx_type: OperationType::Deposit,
        from_user_id: 0,
        to_user_id: 67890,
        amount: 1000,
        timestamp: 1633036860000,
        status: OperationStatus::Success,
        description: r#"Ковычк должны остаться "quotes""#.to_string(),
    };

    let mut buf = Vec::new();
    write_operation(&mut buf, &op).unwrap();

    let mut pos = 0;
    let parsed = parse_operation(&buf, &mut pos).unwrap();

    assert_eq!(op, parsed);
    assert_eq!(parsed.description, r#"Ковычк должны остаться "quotes""#);
}

#[test]
fn test_round_trip_unicode() {
    let op = Operation {
        tx_id: 12345,
        tx_type: OperationType::Deposit,
        from_user_id: 0,
        to_user_id: 67890,
        amount: 1000,
        timestamp: 1633036860000,
        status: OperationStatus::Success,
        description: "Ну по-русски 🎉".to_string(),
    };

    let mut buf = Vec::new();
    write_operation(&mut buf, &op).unwrap();

    let mut pos = 0;
    let parsed = parse_operation(&buf, &mut pos).unwrap();

    assert_eq!(op, parsed);
    assert_eq!(parsed.description, "Ну по-русски 🎉");
}

#[test]
fn test_empty_description() {
    let op = Operation {
        tx_id: 12345,
        tx_type: OperationType::Deposit,
        from_user_id: 0,
        to_user_id: 67890,
        amount: 1000,
        timestamp: 1633036860000,
        status: OperationStatus::Success,
        description: String::new(),
    };

    let mut buf = Vec::new();
    write_operation(&mut buf, &op).unwrap();

    let mut pos = 0;
    let parsed = parse_operation(&buf, &mut pos).unwrap();

    assert_eq!(op, parsed);
    assert_eq!(parsed.description, "");
}
