use ypbank_parser::bin_format;
use ypbank_parser::collection::{compare, Comparison};
use ypbank_parser::csv_format;
use ypbank_parser::text_format;
use ypbank_parser::{Operation, OperationSet, OperationStatus, OperationType, ParseError};

fn op(tx_id: u64, tx_type: OperationType, from: u64, to: u64, description: &str) -> Operation {
    Operation {
        tx_id,
        tx_type,
        from_user_id: from,
        to_user_id: to,
        amount: 2500,
        timestamp: 1700000000000,
        status: OperationStatus::Pending,
        description: description.to_string(),
    }
}

fn set_of(ops: Vec<Operation>) -> OperationSet {
    let mut set = OperationSet::new();
    for o in ops {
        set.insert(o);
    }
    set
}

fn same_fields(a: &Operation, b: &Operation) -> bool {
    a.tx_id == b.tx_id
        && a.tx_type == b.tx_type
        && a.from_user_id == b.from_user_id
        && a.to_user_id == b.to_user_id
        && a.amount == b.amount
        && a.timestamp == b.timestamp
        && a.status == b.status
        && a.description == b.description
}

fn is_field_error(e: &ParseError, name: &str) -> bool {
    matches!(e, ParseError::InvalidField { field, .. } if field == name)
}

#[test]
fn validate_accepts_the_allowed_identifier_combinations() {
    assert!(op(1, OperationType::Deposit, 0, 5, "").validate().is_ok());
    assert!(op(2, OperationType::Withdrawal, 5, 0, "").validate().is_ok());
    assert!(op(3, OperationType::Transfer, 4, 5, "").validate().is_ok());
}

#[test]
fn validate_rejects_the_forbidden_identifier_combinations() {
    let e = op(1, OperationType::Deposit, 7, 5, "").validate().unwrap_err();
    assert!(is_field_error(&e, "FROM_USER_ID"));
    let e = op(2, OperationType::Withdrawal, 5, 9, "").validate().unwrap_err();
    assert!(is_field_error(&e, "TO_USER_ID"));
    let e = op(3, OperationType::Transfer, 0, 5, "").validate().unwrap_err();
    assert!(is_field_error(&e, "FROM_USER_ID/TO_USER_ID"));
    let e = op(4, OperationType::Transfer, 4, 0, "").validate().unwrap_err();
    assert!(is_field_error(&e, "FROM_USER_ID/TO_USER_ID"));
}

#[test]
fn labels_and_ordinals_round_trip() {
    for t in [OperationType::Deposit, OperationType::Transfer, OperationType::Withdrawal] {
        assert_eq!(OperationType::from_str(t.as_str()).unwrap(), t);
        assert_eq!(OperationType::from_u8(t.to_u8()).unwrap(), t);
    }
    for s in [OperationStatus::Success, OperationStatus::Failure, OperationStatus::Pending] {
        assert_eq!(OperationStatus::from_str(s.as_str()).unwrap(), s);
        assert_eq!(OperationStatus::from_u8(s.to_u8()).unwrap(), s);
    }
    assert_eq!(OperationType::Transfer.to_u8(), 1);
    assert_eq!(OperationStatus::Pending.to_u8(), 2);
    assert_eq!(OperationType::Withdrawal.as_str(), "WITHDRAWAL");
    assert_eq!(OperationStatus::Failure.as_str(), "FAILURE");
}

#[test]
fn unknown_labels_and_ordinals_are_rejected() {
    assert!(is_field_error(&OperationType::from_str("deposit").unwrap_err(), "TX_TYPE"));
    assert!(is_field_error(&OperationType::from_u8(3).unwrap_err(), "TX_TYPE"));
    assert!(is_field_error(&OperationStatus::from_str("DONE").unwrap_err(), "STATUS"));
    assert!(is_field_error(&OperationStatus::from_u8(255).unwrap_err(), "STATUS"));
    match OperationType::from_str("BOGUS").unwrap_err() {
        ParseError::InvalidField { reason, .. } => assert!(reason.contains("BOGUS")),
        other => panic!("unexpected error {:?}", other),
    }
}

#[test]
fn operations_are_equal_by_tx_id_only() {
    let a = op(9, OperationType::Deposit, 0, 1, "one");
    let b = op(9, OperationType::Withdrawal, 1, 0, "two");
    assert_eq!(a, b);
    assert_ne!(a, op(10, OperationType::Deposit, 0, 1, "one"));
}

#[test]
fn unescape_keeps_unknown_escapes() {
    assert_eq!(bin_format::unescape_string(r#"a\qb"#), r#"a\qb"#);
    assert_eq!(bin_format::unescape_string(r#"end\"#), r#"end\"#);
    assert_eq!(bin_format::unescape_string(r#"cr\rlf"#), "cr\rlf");
}

#[test]
fn normalize_trims_unicode_whitespace_and_one_quote_pair() {
    assert_eq!(bin_format::normalize_description("\u{a0}\t plain \u{3000}"), "plain");
    assert_eq!(bin_format::normalize_description(r#"""x"""#), r#""x""#);
    assert_eq!(bin_format::normalize_description("\""), "\"");
    assert_eq!(bin_format::normalize_description(r#""\"text\"""#), r#""text""#);
}

#[test]
fn binary_layout_is_exact() {
    let o = Operation {
        tx_id: 0x0102030405060708,
        tx_type: OperationType::Transfer,
        from_user_id: 1,
        to_user_id: 2,
        amount: -1,
        timestamp: 3,
        status: OperationStatus::Failure,
        description: "é".to_string(),
    };
    let mut buf = vec![0xAA];
    bin_format::write_operation(&mut buf, &o).unwrap();
    let mut expected = vec![0xAA, 0x59, 0x50, 0x42, 0x4E, 0, 0, 0, 48];
    expected.extend_from_slice(&[1, 2, 3, 4, 5, 6, 7, 8, 1]);
    expected.extend_from_slice(&[0, 0, 0, 0, 0, 0, 0, 1]);
    expected.extend_from_slice(&[0, 0, 0, 0, 0, 0, 0, 2]);
    expected.extend_from_slice(&[0xFF; 8]);
    expected.extend_from_slice(&[0, 0, 0, 0, 0, 0, 0, 3, 1]);
    expected.extend_from_slice(&[0, 0, 0, 2, 0xC3, 0xA9]);
    assert_eq!(buf, expected);
    let mut pos = 1;
    let back = bin_format::parse_operation(&buf, &mut pos).unwrap();
    assert!(same_fields(&o, &back));
    assert_eq!(pos, buf.len());
}

#[test]
fn binary_write_rejects_invalid_record_and_writes_nothing() {
    let mut buf = Vec::new();
    let e = bin_format::write_operation(&mut buf, &op(1, OperationType::Deposit, 3, 4, "x"))
        .unwrap_err();
    assert!(is_field_error(&e, "FROM_USER_ID"));
    assert!(buf.is_empty());
}

#[test]
fn binary_wrong_magic_is_reported() {
    let mut buf = Vec::new();
    bin_format::write_operation(&mut buf, &op(1, OperationType::Deposit, 0, 4, "x")).unwrap();
    buf[0] = b'X';
    assert_eq!(bin_format::parse_all(&buf).unwrap_err(), ParseError::InvalidMagic);
}

#[test]
fn binary_invalid_utf8_description_is_a_field_error() {
    let mut buf = Vec::new();
    bin_format::write_operation(&mut buf, &op(1, OperationType::Deposit, 0, 4, "ab")).unwrap();
    let n = buf.len();
    buf[n - 1] = 0xFF;
    let mut pos = 0;
    let e = bin_format::parse_operation(&buf, &mut pos).unwrap_err();
    assert!(is_field_error(&e, "DESCRIPTION"));
    assert_eq!(pos, 0);
}

#[test]
fn binary_unknown_ordinal_is_a_field_error() {
    let mut buf = Vec::new();
    bin_format::write_operation(&mut buf, &op(1, OperationType::Deposit, 0, 4, "ab")).unwrap();
    buf[16] = 7;
    let mut pos = 0;
    assert!(is_field_error(&bin_format::parse_operation(&buf, &mut pos).unwrap_err(), "TX_TYPE"));
}

#[test]
fn binary_parse_all_stops_cleanly_between_records() {
    let set = set_of(vec![
        op(1, OperationType::Deposit, 0, 4, "first"),
        op(2, OperationType::Withdrawal, 4, 0, "second"),
    ]);
    let mut buf = Vec::new();
    bin_format::write_all(&mut buf, &set).unwrap();
    let parsed = bin_format::parse_all(&buf).unwrap();
    assert_eq!(parsed.len(), 2);
    assert_eq!(parsed, set);
    assert_eq!(bin_format::parse_all(&[]).unwrap().len(), 0);
}

#[test]
fn binary_parse_all_reports_truncation_inside_a_record() {
    let mut buf = Vec::new();
    bin_format::write_operation(&mut buf, &op(1, OperationType::Deposit, 0, 4, "first")).unwrap();
    let whole = buf.len();
    bin_format::write_operation(&mut buf, &op(2, OperationType::Deposit, 0, 4, "second")).unwrap();
    for cut in [whole + 2, whole + 20, buf.len() - 1] {
        assert_eq!(bin_format::parse_all(&buf[..cut]).unwrap_err(), ParseError::UnexpectedEof);
    }
}

#[test]
fn csv_writes_the_exact_table() {
    let set = set_of(vec![Operation {
        tx_id: 7,
        tx_type: OperationType::Transfer,
        from_user_id: 1,
        to_user_id: 2,
        amount: -9223372036854775808,
        timestamp: 18446744073709551615,
        status: OperationStatus::Success,
        description: "pay, please".to_string(),
    }]);
    let mut out = String::new();
    csv_format::write_all(&mut out, &set).unwrap();
    assert_eq!(
        out,
        "TX_ID,TX_TYPE,FROM_USER_ID,TO_USER_ID,AMOUNT,TIMESTAMP,STATUS,DESCRIPTION\n\
         7,TRANSFER,1,2,-9223372036854775808,18446744073709551615,SUCCESS,\"pay, please\"\n"
    );
    let back = csv_format::parse_all(&out).unwrap();
    assert!(same_fields(back.get(0), set.get(0)));
}

#[test]
fn csv_duplicate_tx_id_keeps_one_record() {
    let input = "TX_ID,TX_TYPE,FROM_USER_ID,TO_USER_ID,AMOUNT,TIMESTAMP,STATUS,DESCRIPTION\n\
                 5,DEPOSIT,0,3,100,1,SUCCESS,\"a\"\n\
                 \n\
                 5,WITHDRAWAL,3,0,200,2,FAILURE,\"b\"\r\n";
    let parsed = csv_format::parse_all(input).unwrap();
    assert_eq!(parsed.len(), 1);
    assert_eq!(parsed.get(0).amount, 200);
    assert_eq!(parsed.get(0).description, "b");
}

#[test]
fn csv_malformed_header_is_a_format_error() {
    let e = csv_format::parse_all("ID,TYPE\n1,DEPOSIT\n").unwrap_err();
    assert!(matches!(e, ParseError::InvalidFormat(_)));
    assert!(matches!(csv_format::parse_all("").unwrap_err(), ParseError::InvalidFormat(_)));
}

#[test]
fn csv_bad_lines_name_the_problem() {
    let header = "TX_ID,TX_TYPE,FROM_USER_ID,TO_USER_ID,AMOUNT,TIMESTAMP,STATUS,DESCRIPTION\n";
    let e = csv_format::parse_all(&format!("{}1,DEPOSIT\n", header)).unwrap_err();
    assert_eq!(e, ParseError::InvalidFormat("Expected 8 fields, got 2".to_string()));
    for (line, field) in [
        ("x,DEPOSIT,0,3,100,1,SUCCESS,\"d\"", "TX_ID"),
        ("1,DEPOSIT,0,3,abc,1,SUCCESS,\"d\"", "AMOUNT"),
        ("1,DEPOSIT,0,3,+100,1,DONE,\"d\"", "STATUS"),
        ("1,DEPOSIT,0,3,99999999999999999999,1,SUCCESS,\"d\"", "AMOUNT"),
        ("1,deposit,0,3,1,1,SUCCESS,\"d\"", "TX_TYPE"),
        ("1,DEPOSIT,2,3,100,1,SUCCESS,\"d\"", "FROM_USER_ID"),
    ] {
        let e = csv_format::parse_all(&format!("{}{}\n", header, line)).unwrap_err();
        assert!(is_field_error(&e, field), "{} gave {:?}", line, e);
    }
}

#[test]
fn csv_accepts_plus_sign_and_unquoted_description() {
    let header = "TX_ID,TX_TYPE,FROM_USER_ID,TO_USER_ID,AMOUNT,TIMESTAMP,STATUS,DESCRIPTION\n";
    let parsed = csv_format::parse_all(&format!("{}+1,DEPOSIT,0,3,-5,1,PENDING,plain", header))
        .unwrap();
    let o = parsed.get(0);
    assert_eq!(o.tx_id, 1);
    assert_eq!(o.amount, -5);
    assert_eq!(o.description, "plain");
}

#[test]
fn text_writes_the_exact_blocks() {
    let set = set_of(vec![
        op(1, OperationType::Deposit, 0, 4, "first"),
        op(2, OperationType::Withdrawal, 4, 0, "second"),
    ]);
    let mut out = String::new();
    text_format::write_all(&mut out, &set).unwrap();
    assert_eq!(
        out,
        "TX_ID: 1\nTX_TYPE: DEPOSIT\nFROM_USER_ID: 0\nTO_USER_ID: 4\nAMOUNT: 2500\n\
         TIMESTAMP: 1700000000000\nSTATUS: PENDING\nDESCRIPTION: \"first\"\n\n\
         TX_ID: 2\nTX_TYPE: WITHDRAWAL\nFROM_USER_ID: 4\nTO_USER_ID: 0\nAMOUNT: 2500\n\
         TIMESTAMP: 1700000000000\nSTATUS: PENDING\nDESCRIPTION: \"second\"\n"
    );
    assert_eq!(text_format::parse_all(&out).unwrap(), set);
}

#[test]
fn text_duplicate_tx_id_keeps_one_record() {
    let input = "# two records, one id\n\
                 TX_ID: 5\nTX_TYPE: DEPOSIT\nFROM_USER_ID: 0\nTO_USER_ID: 3\nAMOUNT: 1\n\
                 TIMESTAMP: 1\nSTATUS: SUCCESS\nDESCRIPTION: \"a\"\n\n\n\
                 TX_ID: 5\nTX_TYPE: TRANSFER\nFROM_USER_ID: 2\nTO_USER_ID: 3\nAMOUNT: 2\n\
                 TIMESTAMP: 2\nSTATUS: FAILURE\nDESCRIPTION: \"b\"";
    let parsed = text_format::parse_all(input).unwrap();
    assert_eq!(parsed.len(), 1);
    assert_eq!(parsed.get(0).tx_type, OperationType::Transfer);
}

#[test]
fn text_missing_status_is_a_format_error() {
    let input = "TX_ID: 5\nTX_TYPE: DEPOSIT\nFROM_USER_ID: 0\nTO_USER_ID: 3\nAMOUNT: 1\n\
                 TIMESTAMP: 1\nDESCRIPTION: \"a\"\n";
    match text_format::parse_all(input).unwrap_err() {
        ParseError::InvalidFormat(m) => assert!(m.contains("STATUS")),
        other => panic!("unexpected error {:?}", other),
    }
}

#[test]
fn text_later_key_wins_and_comments_are_skipped() {
    let input = "  TX_ID : 5 \nAMOUNT: 1\n# AMOUNT: 3\nAMOUNT: -2\nnot a pair\nTX_TYPE: DEPOSIT\n\
                 FROM_USER_ID: 0\nTO_USER_ID: 3\nTIMESTAMP: 1\nSTATUS: SUCCESS\nDESCRIPTION: x: y\n";
    let parsed = text_format::parse_all(input).unwrap();
    assert_eq!(parsed.get(0).amount, -2);
    assert_eq!(parsed.get(0).description, "x: y");
}

#[test]
fn unicode_and_empty_descriptions_survive_every_codec() {
    for d in ["Ну по-русски 🎉", ""] {
        let set = set_of(vec![op(11, OperationType::Transfer, 1, 2, d)]);

        let mut bin = Vec::new();
        bin_format::write_all(&mut bin, &set).unwrap();
        assert!(same_fields(bin_format::parse_all(&bin).unwrap().get(0), set.get(0)));

        let mut csv = String::new();
        csv_format::write_all(&mut csv, &set).unwrap();
        assert!(same_fields(csv_format::parse_all(&csv).unwrap().get(0), set.get(0)));

        let mut text = String::new();
        text_format::write_all(&mut text, &set).unwrap();
        assert!(same_fields(text_format::parse_all(&text).unwrap().get(0), set.get(0)));
    }
}

#[test]
fn set_insert_replaces_in_place() {
    let mut set = OperationSet::new();
    set.insert(op(1, OperationType::Deposit, 0, 4, "a"));
    set.insert(op(2, OperationType::Deposit, 0, 4, "b"));
    set.insert(op(1, OperationType::Deposit, 0, 4, "c"));
    assert_eq!(set.len(), 2);
    assert_eq!(set.get(0).description, "c");
    assert!(set.contains_id(2));
    assert!(!set.contains_id(3));
}

#[test]
fn compare_reports_count_difference_and_identity() {
    let a = set_of(vec![op(1, OperationType::Deposit, 0, 4, "a")]);
    let b = set_of(vec![
        op(1, OperationType::Deposit, 0, 4, "a"),
        op(2, OperationType::Deposit, 0, 4, "b"),
    ]);
    let c = set_of(vec![op(3, OperationType::Deposit, 0, 4, "a")]);
    assert_eq!(compare(&a, &b), Comparison::CountMismatch(1, 2));
    assert_eq!(compare(&a, &c), Comparison::Differs(1));
    assert_eq!(compare(&a, &a.clone()), Comparison::Identical);
}

#[test]
fn error_messages_name_the_problem() {
    assert_eq!(ParseError::InvalidMagic.message(), "Invalid magic header");
    let e = ParseError::InvalidField { field: "TX_ID".to_string(), reason: "bad".to_string() };
    assert_eq!(e.message(), "Invalid field 'TX_ID': bad");
    assert_eq!(ParseError::Io("gone".to_string()).message(), "IO error: gone");
}

#[test]
fn text_strips_one_pair_of_quotes_from_a_description() {
    let set = set_of(vec![op(4, OperationType::Deposit, 0, 1, "\"quoted\" inside")]);
    let mut out = String::new();
    text_format::write_all(&mut out, &set).unwrap();
    assert!(out.contains("DESCRIPTION: \"\"quoted\" inside\"\n"));
    assert_eq!(text_format::parse_all(&out).unwrap().get(0).description, "\"quoted\" inside");
    let input = "TX_ID: 1\nTX_TYPE: DEPOSIT\nFROM_USER_ID: 0\nTO_USER_ID: 5\nAMOUNT: 10\n\
                 TIMESTAMP: 1\nSTATUS: SUCCESS\nDESCRIPTION: \"\"x\"\"\n";
    assert_eq!(text_format::parse_all(input).unwrap().get(0).description, "\"x\"");
}

#[test]
fn csv_strips_one_pair_of_quotes_from_a_description() {
    let header = "TX_ID,TX_TYPE,FROM_USER_ID,TO_USER_ID,AMOUNT,TIMESTAMP,STATUS,DESCRIPTION\n";
    let parsed = csv_format::parse_all(&format!("{}1,DEPOSIT,0,3,5,1,PENDING,\"\"x\"\"\n", header))
        .unwrap();
    assert_eq!(parsed.get(0).description, "\"x\"");
}

#[test]
fn text_missing_key_is_named() {
    let input = "TX_ID: 1\nTX_TYPE: DEPOSIT\nFROM_USER_ID: 0\nTO_USER_ID: 5\nAMOUNT: 10\n\
                 TIMESTAMP: 1\nDESCRIPTION: \"x\"\n";
    assert_eq!(
        text_format::parse_all(input).unwrap_err(),
        ParseError::InvalidFormat("Missing STATUS".to_string())
    );
}

#[test]
fn conversion_errors_embed_the_rejected_value() {
    let e = OperationType::from_u8(7).unwrap_err();
    assert_eq!(
        e,
        ParseError::InvalidField {
            field: "TX_TYPE".to_string(),
            reason: "Unknown transaction type value: 7".to_string()
        }
    );
    let e = OperationStatus::from_str("DONE").unwrap_err();
    assert_eq!(
        e,
        ParseError::InvalidField {
            field: "STATUS".to_string(),
            reason: "Unknown status: DONE".to_string()
        }
    );
    let e = op(1, OperationType::Transfer, 0, 2, "").validate().unwrap_err();
    assert_eq!(
        e,
        ParseError::InvalidField {
            field: "FROM_USER_ID/TO_USER_ID".to_string(),
            reason: "Cannot be 0 for TRANSFER".to_string()
        }
    );
}

#[test]
fn csv_round_trips_descriptions_whose_commas_stay_quoted() {
    for d in ["a\"b", "x, \"y\" z", "one, two", "\"edge\""] {
        let set = set_of(vec![op(8, OperationType::Withdrawal, 3, 0, d)]);
        let mut out = String::new();
        csv_format::write_all(&mut out, &set).unwrap();
        assert!(same_fields(csv_format::parse_all(&out).unwrap().get(0), set.get(0)), "{}", d);
    }
    let set = set_of(vec![op(8, OperationType::Withdrawal, 3, 0, "say \"hi, there\" twice")]);
    let mut out = String::new();
    csv_format::write_all(&mut out, &set).unwrap();
    assert!(matches!(csv_format::parse_all(&out).unwrap_err(), ParseError::InvalidFormat(_)));
}

#[test]
fn csv_round_trips_several_records_in_order() {
    let set = set_of(vec![
        op(1, OperationType::Deposit, 0, 4, "first"),
        op(2, OperationType::Transfer, 4, 5, "second, with comma"),
        op(3, OperationType::Withdrawal, 5, 0, ""),
    ]);
    let mut out = String::new();
    csv_format::write_all(&mut out, &set).unwrap();
    let back = csv_format::parse_all(&out).unwrap();
    assert_eq!(back.len(), 3);
    for i in 0..3 {
        assert!(same_fields(back.get(i), set.get(i)));
    }
}

#[test]
fn binary_stream_cut_between_records_reads_the_records_before() {
    let mut buf = Vec::new();
    bin_format::write_operation(&mut buf, &op(1, OperationType::Deposit, 0, 4, "first")).unwrap();
    let whole = buf.len();
    bin_format::write_operation(&mut buf, &op(2, OperationType::Deposit, 0, 4, "second")).unwrap();
    let parsed = bin_format::parse_all(&buf[..whole]).unwrap();
    assert_eq!(parsed.len(), 1);
    assert_eq!(parsed.get(0).tx_id, 1);
}

#[test]
fn csv_field_errors_carry_the_integer_diagnostic() {
    let header = "TX_ID,TX_TYPE,FROM_USER_ID,TO_USER_ID,AMOUNT,TIMESTAMP,STATUS,DESCRIPTION\n";
    for (line, field, reason) in [
        ("1,DEPOSIT,0,5,abc,10,SUCCESS,\"x\"", "AMOUNT", "invalid digit found in string"),
        ("1,DEPOSIT,0,5,-99999999999999999999,10,SUCCESS,\"x\"", "AMOUNT", "number too small to fit in target type"),
        ("99999999999999999999,DEPOSIT,0,5,1,10,SUCCESS,\"x\"", "TX_ID", "number too large to fit in target type"),
        ("1,DEPOSIT,,5,1,10,SUCCESS,\"x\"", "FROM_USER_ID", "cannot parse integer from empty string"),
        ("1,DEPOSIT,0,-5,1,10,SUCCESS,\"x\"", "TO_USER_ID", "invalid digit found in string"),
        ("1,DEPOSIT,0,5,1,+,SUCCESS,\"x\"", "TIMESTAMP", "invalid digit found in string"),
    ] {
        let e = csv_format::parse_all(&format!("{}{}\n", header, line)).unwrap_err();
        assert_eq!(
            e,
            ParseError::InvalidField { field: field.to_string(), reason: reason.to_string() },
            "{}",
            line
        );
    }
}
