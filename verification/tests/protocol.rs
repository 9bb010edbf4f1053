use daba::protocol::{parse_resp, write_resp, ProtocolError, RespValue};

#[test]
fn test_parse_get_command() {
    let input = b"*2\r\n$3\r\nGET\r\n$15\r\nkey000000000001\r\n";
    let (val, used) = parse_resp(&input[..], 0).unwrap();
    assert_eq!(
        val,
        RespValue::Array(vec![
            RespValue::BulkString(b"GET".to_vec()),
            RespValue::BulkString(b"key000000000001".to_vec())
        ])
    );
    assert_eq!(used, input.len());
}

#[test]
fn test_write_bulk_string() {
    let mut out = Vec::new();
    let val = RespValue::BulkString(b"hello".to_vec());
    write_resp(&mut out, &val);
    assert_eq!(out, b"$5\r\nhello\r\n");
}

#[test]
fn test_write_simple_string_error_and_integer() {
    let mut out = Vec::new();
    write_resp(&mut out, &RespValue::SimpleString("OK".to_string()));
    assert_eq!(out, b"+OK\r\n");
    out.clear();
    write_resp(&mut out, &RespValue::Error("ERR not found".to_string()));
    assert_eq!(out, b"-ERR not found\r\n");
    out.clear();
    write_resp(&mut out, &RespValue::Integer(-42));
    assert_eq!(out, b":-42\r\n");
    out.clear();
    write_resp(&mut out, &RespValue::Integer(0));
    assert_eq!(out, b":0\r\n");
}

#[test]
fn test_write_nested_array() {
    let mut out = Vec::new();
    let val = RespValue::Array(vec![
        RespValue::Integer(1),
        RespValue::Array(vec![RespValue::BulkString(b"x".to_vec())]),
    ]);
    write_resp(&mut out, &val);
    assert_eq!(out, b"*2\r\n:1\r\n*1\r\n$1\r\nx\r\n");
}

#[test]
fn test_parse_simple_string_and_integer() {
    let (v, used) = parse_resp(b"+OK\r\n", 0).unwrap();
    assert_eq!(v, RespValue::SimpleString("OK".to_string()));
    assert_eq!(used, 5);
    let (v, _) = parse_resp(b"-ERR bad\r\n", 0).unwrap();
    assert_eq!(v, RespValue::Error("ERR bad".to_string()));
    let (v, _) = parse_resp(b":1234\r\n", 0).unwrap();
    assert_eq!(v, RespValue::Integer(1234));
    let (v, _) = parse_resp(b":-7\r\n", 0).unwrap();
    assert_eq!(v, RespValue::Integer(-7));
}

#[test]
fn test_parse_defaults_for_malformed_numbers() {
    // a malformed integer line falls back to zero
    let (v, _) = parse_resp(b":abc\r\n", 0).unwrap();
    assert_eq!(v, RespValue::Integer(0));
    // a malformed or negative bulk length yields an empty bulk string
    let (v, used) = parse_resp(b"$-1\r\n", 0).unwrap();
    assert_eq!(v, RespValue::BulkString(Vec::new()));
    assert_eq!(used, 5);
    // an out-of-range integer line also falls back to zero
    let (v, _) = parse_resp(b":99999999999999999999\r\n", 0).unwrap();
    assert_eq!(v, RespValue::Integer(0));
}

#[test]
fn test_parse_errors() {
    match parse_resp(b"", 0) {
        Err(e) => assert_eq!(e, ProtocolError::UnexpectedEof),
        Ok(_) => panic!("expected an error"),
    }
    match parse_resp(b"?what\r\n", 0) {
        Err(e) => assert_eq!(e, ProtocolError::UnknownType),
        Ok(_) => panic!("expected an error"),
    }
    match parse_resp(b"$5\r\nab", 0) {
        Err(e) => assert_eq!(e, ProtocolError::UnexpectedEof),
        Ok(_) => panic!("expected an error"),
    }
    match parse_resp(&[b'+', 0xFF, b'\r', b'\n'][..], 0) {
        Err(e) => assert_eq!(e, ProtocolError::InvalidText),
        Ok(_) => panic!("expected an error"),
    }
}

#[test]
fn test_protocol_round_trip_through_database() {
    // a lookup request framed on the wire, resolved against a built database
    let keys = vec![b"key0000000000001".to_vec()];
    let values = vec![b"hello".to_vec()];
    let (data, index) = daba::database::Database::write_database(&keys, &values, 1);
    let db = daba::database::Database::open(data, index).unwrap();

    let request = b"*2\r\n$3\r\nGET\r\n$16\r\nkey0000000000001\r\n";
    let (parsed, _) = parse_resp(&request[..], 0).unwrap();
    let key = match parsed {
        RespValue::Array(items) => match &items[1] {
            RespValue::BulkString(k) => k.clone(),
            _ => panic!("unexpected request shape"),
        },
        _ => panic!("unexpected request shape"),
    };
    let value = db.get(key.as_slice()).unwrap();
    let mut reply = Vec::new();
    write_resp(&mut reply, &RespValue::BulkString(value.to_vec()));
    assert_eq!(reply, b"$5\r\nhello\r\n");
}
