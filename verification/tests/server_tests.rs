use database::protocol::error::ProtocolError;
use database::protocol::frame::{Frame, FrameType};
use database::server::handler::{handle_command, Response};
use database::chars::decimal_of;
use database::server::number::{parse_float, parse_i32, parse_i64, parse_usize};
use database::server::parser::{
    evaluate_expression, handle_expression, parse_operator, parse_raw_command, parse_value,
    Command,
};
use database::server::text::{join, split_words, trim};
use database::server::tokens::{parse_expression, strip_brackets};
use database::storage::error::DatabaseError;
use database::{Database, Value};

fn chars(s: &str) -> Vec<char> {
    s.chars().collect()
}

fn float(x: f64) -> Value {
    Value::Float(x.to_bits())
}

#[test]
fn text_trim_words_and_join() {
    assert_eq!(trim(&chars("  a b \t\n")), chars("a b"));
    assert_eq!(trim(&chars(" \u{3000} ")), chars(""));
    assert_eq!(trim(&chars("x")), chars("x"));
    let words = split_words(&chars("  SET  1\ttwo  words \u{a0}"));
    assert_eq!(words, vec![chars("SET"), chars("1"), chars("two"), chars("words")]);
    assert_eq!(join(&words, 2), chars("two words"));
    assert_eq!(join(&words, 3), chars("words"));
    assert_eq!(join(&words, 4), chars(""));
    assert_eq!(split_words(&chars("   ")), Vec::<Vec<char>>::new());
    // White space is what std takes for it.
    for u in 0..0x11000u32 {
        if let Some(c) = char::from_u32(u) {
            assert_eq!(database::server::text::space(c), c.is_whitespace());
        }
    }
}

#[test]
fn integers_parse_as_std_parses_them() {
    let texts = [
        "0", "-0", "+0", "7", "-7", "+7", "007", "2147483647", "2147483648", "-2147483648",
        "-2147483649", "9223372036854775807", "9223372036854775808", "-9223372036854775808",
        "-9223372036854775809", "18446744073709551615", "18446744073709551616",
        "99999999999999999999999999999999999999999", "", "+", "-", "1 ", " 1", "1a", "a1",
        "--1", "+-1", "1.0", "١",
    ];
    for t in texts {
        assert_eq!(parse_i32(&chars(t)), t.parse::<i32>().ok(), "i32 of {:?}", t);
        assert_eq!(parse_i64(&chars(t)), t.parse::<i64>().ok(), "i64 of {:?}", t);
        assert_eq!(parse_usize(&chars(t)), t.parse::<usize>().ok(), "usize of {:?}", t);
    }
}

#[test]
fn floats_parse_as_std_parses_them() {
    let texts = [
        "3.14", "-3.14", "+3.14", "1e10", "1E10", "1e+10", "1e-10", "5.", ".5", "-.5", "5.e3",
        "0.1", "1.7976931348623157e308", "1e309", "4.9e-324", "1e-400", "123456789012345678901234567890",
        "inf", "-inf", "+inf", "INF", "Infinity", "-infinity", "nan", "NaN", "-nan", "+nan",
        "", ".", "e5", "1e", "1e+", "1.2.3", "1x", "infinit", "na", "0x10", "1_000", " 1.0",
        "1.0 ", "+", "-", "..5", "5e5.5",
    ];
    for t in texts {
        let expected = t.parse::<f64>().ok().map(|x| x.to_bits());
        assert_eq!(parse_float(&chars(t)), expected, "float of {:?}", t);
    }
}

#[test]
fn values_parse_in_order() {
    assert_eq!(parse_value("null").unwrap(), Value::Null);
    assert_eq!(parse_value("true").unwrap(), Value::Boolean(true));
    assert_eq!(parse_value("false").unwrap(), Value::Boolean(false));
    assert_eq!(parse_value("42").unwrap(), Value::Integer(42));
    assert_eq!(parse_value("-42").unwrap(), Value::Integer(-42));
    assert_eq!(parse_value("3.14").unwrap(), float(3.14));
    assert_eq!(parse_value("9223372036854775808").unwrap(), float(9223372036854775808.0));
    assert_eq!(parse_value("hello").unwrap(), Value::String("hello".to_string()));
    assert_eq!(parse_value("True").unwrap(), Value::String("True".to_string()));
    assert_eq!(parse_value("").unwrap(), Value::String(String::new()));
    assert_eq!(parse_value("two words").unwrap(), Value::String("two words".to_string()));
}

#[test]
fn operators_are_found() {
    assert_eq!(parse_operator("1 + 2").unwrap(), 2);
    assert_eq!(parse_operator("=").unwrap(), 0);
    assert_eq!(parse_operator("é*2").unwrap(), 1);
    assert!(matches!(parse_operator("1 2"), Err(DatabaseError::ParseError(_))));
    assert_eq!(
        handle_expression(&Value::Integer(6), &Value::Integer(7), '*').unwrap(),
        Value::Integer(42)
    );
    assert!(handle_expression(&Value::Integer(6), &Value::Integer(7), '%').is_err());
}

fn sample_db() -> Database {
    let mut db = Database::new(None).unwrap();
    db.insert(1, &Value::Integer(40)).unwrap();
    db.insert(2, &Value::String("héllo".to_string())).unwrap();
    db.insert(3, &float(1.5)).unwrap();
    db
}

#[test]
fn expressions_evaluate() {
    let mut db = sample_db();
    assert_eq!(evaluate_expression("1 + 2", &mut db).unwrap(), Value::Integer(3));
    assert_eq!(evaluate_expression("GET 1 + 2", &mut db).unwrap(), Value::Integer(42));
    assert_eq!(evaluate_expression("GET 1", &mut db).unwrap(), Value::Integer(40));
    assert_eq!(evaluate_expression("STRLEN 2", &mut db).unwrap(), Value::Integer(6));
    assert_eq!(evaluate_expression("GET 3 * 2", &mut db).unwrap(), float(3.0));
    assert_eq!(evaluate_expression("7 / 2", &mut db).unwrap(), Value::Integer(3));
    assert_eq!(evaluate_expression("2.5", &mut db).unwrap(), float(2.5));
    assert_eq!(
        evaluate_expression("abc", &mut db).unwrap(),
        Value::String("abc".to_string())
    );
    // A minus is looked for first, so a sum of a difference is split at it.
    assert_eq!(evaluate_expression("10 - 2 + 3", &mut db).unwrap(), Value::Integer(5));
    // An operator that occurs twice is passed over.
    assert_eq!(
        evaluate_expression("1 + 2 + 3", &mut db).unwrap(),
        Value::String("1 + 2 + 3".to_string())
    );
    assert!(evaluate_expression("5 % 2", &mut db).is_err());
    assert!(evaluate_expression("1 / 0", &mut db).is_err());
    assert!(evaluate_expression("GET 9", &mut db).is_err());
    assert!(evaluate_expression("GET", &mut db).is_err());
    assert!(evaluate_expression("GET x", &mut db).is_err());
    assert!(evaluate_expression("STRLEN 1", &mut db).is_err());
    assert!(evaluate_expression("-5", &mut db).is_err());
}

#[test]
fn commands_parse() {
    let mut db = sample_db();
    let mut parse = |line: &str| parse_raw_command(line, &mut db);
    assert!(matches!(parse("GET 1").unwrap(), Command::Get { key: 1 }));
    assert!(matches!(parse("  get   -7 ").unwrap(), Command::Get { key: -7 }));
    assert!(matches!(parse("DEL 5").unwrap(), Command::Delete { key: 5 }));
    assert!(matches!(parse("ALL").unwrap(), Command::All));
    assert!(matches!(parse("all the rest").unwrap(), Command::All));
    assert!(matches!(parse("STRLEN 2").unwrap(), Command::Strlen { key: 2 }));
    assert!(matches!(parse("PING").unwrap(), Command::Ping));
    assert!(matches!(parse("exit").unwrap(), Command::Exit));
    assert!(matches!(
        parse("SUBSTR 2 1 3").unwrap(),
        Command::Substr { key: 2, start: 1, length: 3 }
    ));
    match parse("SET 9 two   words").unwrap() {
        Command::SetValue { key, value } => {
            assert_eq!(key, 9);
            assert_eq!(value, Value::String("two words".to_string()));
        }
        other => panic!("{:?}", other),
    }
    match parse("SET 9 3.14").unwrap() {
        Command::SetValue { key, value } => assert_eq!((key, value), (9, float(3.14))),
        other => panic!("{:?}", other),
    }
    match parse("SET 9 EXPR(GET 1 + 2)").unwrap() {
        Command::SetValue { key, value } => assert_eq!((key, value), (9, Value::Integer(42))),
        other => panic!("{:?}", other),
    }
    match parse("UPDATE 1 true").unwrap() {
        Command::Update { key, value } => assert_eq!((key, value), (1, Value::Boolean(true))),
        other => panic!("{:?}", other),
    }
    match parse("STRCAT 2 EXPR(1)").unwrap() {
        Command::Strcat { key, value } => {
            assert_eq!((key, value), (2, Value::String("EXPR(1)".to_string())))
        }
        other => panic!("{:?}", other),
    }
    match parse(" EXPR( 1 + 2 ) ").unwrap() {
        Command::Expression(text) => assert_eq!(text, "1 + 2"),
        other => panic!("{:?}", other),
    }
    for bad in [
        "", "   ", "GET", "GET 1 2", "GET x", "GET 2147483648", "SET 1", "SET x 1", "DEL",
        "STRLEN", "STRCAT 1", "SUBSTR 1 2", "SUBSTR 1 -2 3", "SUBSTR 1 2 x", "NOPE 1",
        "EXPR", "EXPR 1", "SET 1 EXPR(GET 99)",
    ] {
        assert!(matches!(parse(bad), Err(_)), "{:?}", bad);
    }
}

#[test]
fn commands_are_carried_out() {
    let mut db = Database::new(None).unwrap();
    let mut run = |line: &str| {
        let command = parse_raw_command(line, &mut db).unwrap();
        handle_command(command, &mut db)
    };
    assert!(matches!(run("SET 1 42"), Ok(Some(Response::Success))));
    assert!(matches!(run("GET 1"), Ok(Some(Response::Value(Some(Value::Integer(42)))))));
    assert!(matches!(run("SET 2 3.14"), Ok(Some(Response::Success))));
    match run("GET 2") {
        Ok(Some(Response::Value(Some(v)))) => assert_eq!(v, float(3.14)),
        other => panic!("{:?}", other),
    }
    assert!(matches!(run("SET 3 hello"), Ok(Some(Response::Success))));
    match run("GET 3") {
        Ok(Some(Response::Value(Some(v)))) => assert_eq!(v, Value::String("hello".to_string())),
        other => panic!("{:?}", other),
    }
    assert!(matches!(run("SET 4 true"), Ok(Some(Response::Success))));
    assert!(matches!(run("GET 4"), Ok(Some(Response::Value(Some(Value::Boolean(true)))))));
    assert!(matches!(run("SET 5 null"), Ok(Some(Response::Success))));
    assert!(matches!(run("GET 5"), Ok(Some(Response::Value(Some(Value::Null))))));
    assert!(matches!(run("DEL 1"), Ok(Some(Response::Success))));
    assert!(matches!(run("GET 1"), Ok(Some(Response::Value(None)))));
    assert!(matches!(run("STRLEN 3"), Ok(Some(Response::Size(5)))));
    assert!(matches!(run("STRLEN 9"), Err(DatabaseError::KeyNotFound(9))));
    assert!(matches!(run("STRCAT 3 , world"), Ok(Some(Response::Success))));
    assert!(matches!(run("SUBSTR 3 7 5"), Ok(Some(Response::Success))));
    match run("GET 3") {
        Ok(Some(Response::Value(Some(v)))) => assert_eq!(v, Value::String("world".to_string())),
        other => panic!("{:?}", other),
    }
    assert!(matches!(run("UPDATE 4 7"), Ok(Some(Response::Success))));
    assert!(matches!(
        run("EXPR(GET 4 * 6)"),
        Ok(Some(Response::Value(Some(Value::Integer(42)))))
    ));
    match run("EXPR(GET 99)") {
        Ok(Some(Response::Error(text))) => assert_eq!(text, "Key not found"),
        other => panic!("{:?}", other),
    }
    match run("ALL") {
        Ok(Some(Response::Range(pairs))) => {
            let keys: Vec<i32> = pairs.iter().map(|p| p.0).collect();
            assert_eq!(keys, vec![2, 3, 4, 5]);
        }
        other => panic!("{:?}", other),
    }
    assert!(matches!(run("PING"), Ok(Some(Response::Pong))));
    assert!(matches!(run("EXIT"), Ok(None)));
}

#[test]
fn errors_in_words() {
    assert_eq!(DatabaseError::PageNotFound(7).to_string(), "Page 7 not found");
    assert_eq!(DatabaseError::BufferPoolFull.to_string(), "Buffer pool is full");
    assert_eq!(DatabaseError::InvalidPage.to_string(), "Invalid page");
    assert_eq!(DatabaseError::IoError("gone".to_string()).to_string(), "IO error: gone");
    assert_eq!(DatabaseError::ParseError("bad".to_string()).to_string(), "Parse error: bad");
    assert_eq!(
        DatabaseError::InvalidOperation("no".to_string()).to_string(),
        "Invalid operation: no"
    );
    assert_eq!(DatabaseError::PageFull.to_string(), "Page is full");
    assert_eq!(DatabaseError::InvalidSlot.to_string(), "Invalid slot");
    assert_eq!(DatabaseError::InvalidRecord.to_string(), "Invalid record");
    assert_eq!(DatabaseError::DeletedRecord.to_string(), "Record was deleted");
    assert_eq!(DatabaseError::InvalidData("x".to_string()).to_string(), "Invalid data: x");
    assert_eq!(DatabaseError::KeyNotFound(1).to_string(), "Key not found");
    assert_eq!(DatabaseError::TransactionNotActive.to_string(), "Transaction not active");
    assert_eq!(
        DatabaseError::TransactionAlreadyCommitted.to_string(),
        "Transaction already committed"
    );
}

#[test]
fn frames_round_trip() {
    let frame = Frame::new(FrameType::RawCommand, b"GET 1".to_vec());
    assert_eq!(frame.length, 5);
    let bytes = frame.serialize();
    assert_eq!(bytes, vec![2, 5, 0, 0, 0, b'G', b'E', b'T', b' ', b'1']);
    let mut longer = bytes.clone();
    longer.extend_from_slice(&[9, 9]);
    let back = Frame::deserialize(&longer).unwrap();
    assert_eq!(back.frame_type, FrameType::RawCommand);
    assert_eq!(back.length, 5);
    assert_eq!(back.payload, b"GET 1".to_vec());
    assert_eq!(Frame::new(FrameType::Command, vec![]).serialize(), vec![1, 0, 0, 0, 0]);
    assert_eq!(Frame::new(FrameType::Response, vec![7]).serialize(), vec![3, 1, 0, 0, 0, 7]);
}

#[test]
fn frames_are_refused() {
    let refused = |bytes: &[u8]| {
        matches!(Frame::deserialize(bytes), Err(ProtocolError::InvalidFrame(_)))
    };
    assert!(refused(&[]));
    assert!(refused(&[2, 0, 0, 0]));
    assert!(refused(&[0, 0, 0, 0, 0]));
    assert!(refused(&[4, 0, 0, 0, 0]));
    assert!(refused(&[2, 3, 0, 0, 0, 1, 2]));
    // A payload of one mebibyte is taken, one byte more is not.
    let mut large = vec![2, 0, 0, 0x10, 0];
    large.extend_from_slice(&vec![0u8; 1024 * 1024]);
    assert_eq!(Frame::deserialize(&large).unwrap().payload.len(), 1024 * 1024);
    let mut too_large = vec![2, 1, 0, 0x10, 0];
    too_large.extend_from_slice(&vec![0u8; 1024 * 1024 + 1]);
    assert!(refused(&too_large));
}

#[test]
fn words_evaluate() {
    let mut db = sample_db();
    let stored_one = db.get(1).unwrap().unwrap();
    let stored_two = db.get(2).unwrap().unwrap();
    assert!(parse_expression(&[], &mut db).is_err());
    assert_eq!(parse_expression(&["GET", "1"], &mut db).unwrap(), stored_one);
    assert_eq!(parse_expression(&["GET", "404"], &mut db).unwrap(), Value::Null);
    assert!(parse_expression(&["GET"], &mut db).is_err());
    assert!(parse_expression(&["GET", "one"], &mut db).is_err());
    assert_eq!(parse_expression(&["5"], &mut db).unwrap(), Value::Integer(5));
    assert_eq!(parse_expression(&["2.5"], &mut db).unwrap(), float(2.5));
    assert_eq!(parse_expression(&["true"], &mut db).unwrap(), Value::Boolean(true));
    assert_eq!(parse_expression(&["word"], &mut db).unwrap(), Value::String("word".into()));
    // The operator is sought among the characters behind the first word,
    // and its place there is taken as the place of a word.
    assert_eq!(
        parse_expression(&["a", "b", "+", "c"], &mut db).unwrap(),
        Value::String("a bc".into())
    );
    assert_eq!(
        parse_expression(&["(", "x", "y", "=", "x", ")"], &mut db).unwrap(),
        Value::Boolean(false)
    );
    assert_eq!(
        parse_expression(&["(", "x", "y", "=", "x y", ")"], &mut db).unwrap(),
        Value::Boolean(true)
    );
    assert!(parse_expression(&["1", "+", "2"], &mut db).is_err());
    assert!(parse_expression(&["1", "2"], &mut db).is_err());
    assert!(parse_expression(&["(", "1", "+"], &mut db).is_err());
    assert!(parse_expression(&["one", "two", "three"], &mut db).is_err());
    assert!(parse_expression(&["12345", "67", "+", "1"], &mut db).is_err());
    let both = parse_expression(&["(", "GET", "1", "+", "GET", "3", ")"], &mut db);
    assert_eq!(both.unwrap(), float(41.5));
    assert!(parse_expression(&["(", "GET", "1", "+", "GET", "2", ")"], &mut db).is_err());
    assert_eq!(parse_expression(&["GET", "2"], &mut db).unwrap(), stored_two);
    assert_eq!(parse_expression(&["STRLEN", "2"], &mut db).unwrap(), Value::Integer(6));
    assert!(parse_expression(&["STRLEN", "1"], &mut db).is_err());
    assert!(parse_expression(&["STRLEN", "404"], &mut db).is_err());
    assert!(parse_expression(&["STRLEN", "2", "3"], &mut db).is_err());
    assert_eq!(
        parse_expression(&["(", "GET", "1", "=", "GET", "404", ")"], &mut db).unwrap(),
        Value::Boolean(false)
    );
}

#[test]
fn brackets_are_stripped() {
    assert_eq!(strip_brackets(&chars("((a)b))")), chars("a)b"));
    assert_eq!(strip_brackets(&chars("()")), chars(""));
    assert_eq!(strip_brackets(&chars("abc")), chars("abc"));
    assert_eq!(strip_brackets(&chars(" (a) ")), chars(" (a) "));
}

/// What a client is shown for a command: the answer as it is written out
/// for inspection, without the wrapping of a value that was found.
fn send_raw_command(db: &mut Database, command: &str) -> String {
    let parsed = parse_raw_command(command, db).unwrap();
    let response = handle_command(parsed, db).unwrap().unwrap();
    match response {
        Response::Success => "Ok\n".to_string(),
        Response::Value(Some(Value::Integer(i))) => format!("Integer({:?})\n", i),
        Response::Value(Some(Value::Float(bits))) => {
            format!("Float({:?})\n", f64::from_bits(bits))
        }
        Response::Value(Some(Value::String(s))) => format!("String({:?})\n", s),
        Response::Value(Some(Value::Boolean(b))) => format!("Boolean({:?})\n", b),
        Response::Value(Some(Value::Null)) => "Null\n".to_string(),
        Response::Value(None) => "Value(None)\n".to_string(),
        Response::Range(pairs) => format!("Range({})\n", pairs.len()),
        Response::Error(text) => format!("Error({:?})\n", text),
        Response::Pong => "Pong\n".to_string(),
        Response::Size(n) => format!("Size({})\n", n),
    }
}

fn basic_operations() {
    let mut db = Database::new(None).unwrap();
    let db = &mut db;

    assert_eq!(send_raw_command(db, "SET 1 42"), "Ok\n");
    assert_eq!(send_raw_command(db, "GET 1"), "Integer(42)\n");

    assert_eq!(send_raw_command(db, "SET 2 3.14"), "Ok\n");
    assert_eq!(send_raw_command(db, "GET 2"), "Float(3.14)\n");

    assert_eq!(send_raw_command(db, "SET 3 hello"), "Ok\n");
    assert_eq!(send_raw_command(db, "GET 3"), "String(\"hello\")\n");

    assert_eq!(send_raw_command(db, "SET 4 true"), "Ok\n");
    assert_eq!(send_raw_command(db, "GET 4"), "Boolean(true)\n");

    assert_eq!(send_raw_command(db, "SET 5 null"), "Ok\n");
    assert_eq!(send_raw_command(db, "GET 5"), "Null\n", "Testing null value");

    assert_eq!(send_raw_command(db, "DEL 1"), "Ok\n");
    assert_eq!(send_raw_command(db, "GET 1"), "Value(None)\n", "Testing deletion");
}

#[test]
fn server_tests_test_basic_operations() {
    basic_operations();
}

#[test]
fn tests_test_basic_operations() {
    basic_operations();
}

#[test]
fn test_client_connection() {
    let mut db = Database::new(None).unwrap();
    let command = parse_raw_command("PING", &mut db).unwrap();
    let response = handle_command(command, &mut db).unwrap().unwrap();
    assert!(matches!(response, Response::Pong));
}

#[test]
fn payload_lengths_are_announced() {
    let frame = Frame::new(FrameType::RawCommand, b"GET 1".to_vec());
    let bytes = frame.serialize();
    assert_eq!(Frame::payload_length(&bytes[..5]).unwrap(), 5);
    assert_eq!(Frame::payload_length(&[3, 0, 0, 16, 0]).unwrap(), 1 << 20);
    assert_eq!(Frame::payload_length(&[9, 1, 2, 0, 0, 77]).unwrap(), 513);
    assert!(matches!(
        Frame::payload_length(&[3, 1, 0, 16, 0]),
        Err(ProtocolError::InvalidFrame(_))
    ));
    assert!(matches!(
        Frame::payload_length(&[3, 0, 0, 0]),
        Err(ProtocolError::InvalidFrame(_))
    ));
}

#[test]
fn numbers_are_written_in_decimal() {
    for n in [0u32, 7, 10, 99, 100, 4096, 1_000_000, u32::MAX] {
        assert_eq!(decimal_of(n), chars(&n.to_string()));
    }
    assert_eq!(DatabaseError::PageNotFound(0).to_string(), "Page 0 not found");
    assert_eq!(
        DatabaseError::PageNotFound(u32::MAX).to_string(),
        "Page 4294967295 not found"
    );
}
