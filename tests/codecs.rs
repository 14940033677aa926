use ypbank_parser::{bin_format, csv_format, text_format};
use ypbank_parser::{Operation, OperationSet, OperationStatus, OperationType};

fn create_test_operation() -> Operation {
    Operation {
        tx_id: 1234567890123456,
        tx_type: OperationType::Deposit,
        from_user_id: 0,
        to_user_id: 9876543210987654,
        amount: 10000,
        timestamp: 1633036800000,
        status: OperationStatus::Success,
        description: "Test deposit".to_string(),
    }
}

fn set_of(ops: Vec<Operation>) -> OperationSet {
    let mut set = OperationSet::new();
    for op in ops {
        set.insert(op);
    }
    set
}

#[test]
fn test_binary_round_trip() {
    let op = create_test_operation();
    let mut buf = Vec::new();

    bin_format::write_operation(&mut buf, &op).unwrap();

    let mut pos = 0;
    let parsed = bin_format::parse_operation(&buf, &mut pos).unwrap();

    assert_eq!(op, parsed);
}

#[test]
fn test_csv_round_trip() {
    let operations = set_of(vec![create_test_operation()]);
    let mut buf = String::new();

    csv_format::write_all(&mut buf, &operations).unwrap();

    let parsed = csv_format::parse_all(&buf).unwrap();

    assert_eq!(operations, parsed);
}

#[test]
fn test_text_round_trip() {
    let operations = set_of(vec![create_test_operation()]);
    let mut buf = String::new();

    text_format::write_all(&mut buf, &operations).unwrap();

    let parsed = text_format::parse_all(&buf).unwrap();

    assert_eq!(operations, parsed);
}
