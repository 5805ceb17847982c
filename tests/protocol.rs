use detach::command::Command;
use detach::frame::find_frame_end;
use detach::response::Response;
use detach::store::Store;
use detach::value::WrappedValue;

fn set(key: &str, value: &str) -> Command {
    Command::Put { key: key.to_string(), value: WrappedValue::from_string(value.to_string()) }
}

fn value_bytes(r: &Response) -> Vec<u8> {
    match r {
        Response::Value(v) => v.to_bytes(),
        other => panic!("expected a value, got {:?}", other),
    }
}

#[test]
fn value_encodes_with_length() {
    let v = WrappedValue::from_string("hello".to_string());
    assert_eq!(v.encode(), b"VAL 5 hello".to_vec());
    assert_eq!(v.len(), 5);
}

#[test]
fn empty_value_encodes_as_zero() {
    assert_eq!(WrappedValue::empty().encode(), b"VAL 0".to_vec());
    assert_eq!(WrappedValue::from_string(String::new()).encode(), b"VAL 0".to_vec());
}

#[test]
fn value_round_trip_with_newlines() {
    let payload = b"line one\nline two\n".to_vec();
    let v = WrappedValue::from_bytes(payload.clone());
    let field = v.encode();
    assert_eq!(field, b"VAL 18 line one\nline two\n".to_vec());
    let back = WrappedValue::decode(&field).unwrap();
    assert_eq!(back.to_bytes(), payload);
}

#[test]
fn value_decode_uses_declared_length() {
    let v = WrappedValue::decode(b"VAL 3 abcdef").unwrap();
    assert_eq!(v.to_bytes(), b"abc".to_vec());
    assert_eq!(v.into_inner(), "abc".to_string());
}

#[test]
fn value_decode_zero_is_empty() {
    assert_eq!(WrappedValue::decode(b"VAL 0").unwrap().len(), 0);
    assert_eq!(WrappedValue::decode(b"VAL 05 hello").unwrap().len(), 0);
}

#[test]
fn value_decode_rejects_malformed() {
    assert!(WrappedValue::decode(b"VAL").is_err());
    assert!(WrappedValue::decode(b"VAX 3 abc").is_err());
    assert!(WrappedValue::decode(b"VAL 3abc").is_err());
    assert!(WrappedValue::decode(b"VAL 9 abc").is_err());
    assert!(WrappedValue::decode(b"VAL x3 abc").is_err());
    assert!(WrappedValue::decode(b"VAL 99999999999999999999999 abc").is_err());
}

#[test]
fn into_inner_keeps_text() {
    let v = WrappedValue::from_string("h\u{e9}llo".to_string());
    assert_eq!(v.len(), 6);
    assert_eq!(v.into_inner(), "h\u{e9}llo".to_string());
    assert_eq!(WrappedValue::empty().into_inner(), String::new());
}

#[test]
fn command_encodings() {
    assert_eq!(Command::Get { key: "k".to_string() }.encode(), b"GET k".to_vec());
    assert_eq!(set("k", "hello").encode(), b"SET k VAL 5 hello".to_vec());
    assert_eq!(set("k", "").encode(), b"SET k VAL 0".to_vec());
    assert_eq!(Command::Delete { key: "k".to_string() }.encode(), b"DEL k".to_vec());
    assert_eq!(Command::Dump.encode(), b"DMP".to_vec());
    assert_eq!(Command::Quit.encode(), b"EXT".to_vec());
}

#[test]
fn command_round_trips() {
    match Command::decode(&set("key", "a\nb c").encode()).unwrap() {
        Command::Put { key, value } => {
            assert_eq!(key, "key");
            assert_eq!(value.to_bytes(), b"a\nb c".to_vec());
        }
        other => panic!("unexpected {:?}", other),
    }
    match Command::decode(b"GET some key").unwrap() {
        Command::Get { key } => assert_eq!(key, "some key"),
        other => panic!("unexpected {:?}", other),
    }
    match Command::decode(b"DEL k").unwrap() {
        Command::Delete { key } => assert_eq!(key, "k"),
        other => panic!("unexpected {:?}", other),
    }
    assert!(matches!(Command::decode(b"DMP").unwrap(), Command::Dump));
    assert!(matches!(Command::decode(b"EXT").unwrap(), Command::Quit));
}

#[test]
fn command_decode_rejects_malformed() {
    assert!(Command::decode(b"").is_err());
    assert!(Command::decode(b"GE").is_err());
    assert!(Command::decode(b"GET").is_err());
    assert!(Command::decode(b"FOO bar").is_err());
    assert!(Command::decode(b"SET keyonly").is_err());
    assert!(Command::decode(b"SET k VAL 9 ab").is_err());
    assert!(Command::decode(b"GET \xff").is_err());
}

#[test]
fn response_encodings() {
    assert_eq!(Response::Success.encode(), b"OK".to_vec());
    assert_eq!(Response::Error("boom".to_string()).encode(), b"ERR boom".to_vec());
    let v = Response::Value(WrappedValue::from_string("hello".to_string()));
    assert_eq!(v.encode(), b"VAL 5 hello".to_vec());
    assert_eq!(Response::Value(WrappedValue::empty()).encode(), b"VAL 0".to_vec());
}

#[test]
fn response_round_trips() {
    assert!(matches!(Response::decode(b"OK").unwrap(), Response::Success));
    match Response::decode(b"ERR boom").unwrap() {
        Response::Error(m) => assert_eq!(m, "boom"),
        other => panic!("unexpected {:?}", other),
    }
    let r = Response::decode(b"VAL 5 hello").unwrap();
    assert_eq!(value_bytes(&r), b"hello".to_vec());
    let r = Response::decode(b"VAL 0").unwrap();
    assert_eq!(value_bytes(&r), Vec::<u8>::new());
}

#[test]
fn response_decode_rejects_malformed() {
    assert!(Response::decode(b"O").is_err());
    assert!(Response::decode(b"ER").is_err());
    assert!(Response::decode(b"NOPE").is_err());
    assert!(Response::decode(b"VAL 7 abc").is_err());
}

#[test]
fn store_set_get_delete() {
    let mut s = Store::new();
    assert!(matches!(s.apply(set("a", "1")), Response::Success));
    let r = s.apply(Command::Get { key: "a".to_string() });
    assert_eq!(value_bytes(&r), b"1".to_vec());
    assert!(matches!(s.apply(Command::Delete { key: "a".to_string() }), Response::Success));
    let r = s.apply(Command::Get { key: "a".to_string() });
    assert_eq!(value_bytes(&r), Vec::<u8>::new());
    assert!(matches!(s.apply(Command::Delete { key: "never".to_string() }), Response::Success));
}

#[test]
fn store_repeated_commands() {
    let mut s = Store::new();
    for _ in 0..3 {
        assert!(matches!(s.apply(set("a", "1")), Response::Success));
    }
    let r = s.apply(Command::Get { key: "a".to_string() });
    assert_eq!(value_bytes(&r), b"1".to_vec());
    assert!(matches!(s.apply(set("a", "2")), Response::Success));
    let r = s.apply(Command::Get { key: "a".to_string() });
    assert_eq!(value_bytes(&r), b"2".to_vec());
    for _ in 0..3 {
        assert!(matches!(s.apply(Command::Delete { key: "a".to_string() }), Response::Success));
    }
    let r = s.apply(Command::Get { key: "a".to_string() });
    assert_eq!(value_bytes(&r), Vec::<u8>::new());
}

#[test]
fn store_quit_answers_ok_then_terminates() {
    let mut s = Store::new();
    assert!(!s.should_terminate());
    assert!(matches!(s.apply(Command::Quit), Response::Success));
    assert!(s.should_terminate());
    s.apply(Command::Dump);
    assert!(s.should_terminate());
}

#[test]
fn store_counts_requests() {
    let mut s = Store::new();
    assert_eq!(s.count(), 0);
    s.apply(Command::Dump);
    s.apply(set("a", "1"));
    assert_eq!(s.count(), 2);
    s.handle_frame(b"BAD");
    assert_eq!(s.count(), 2);
}

#[test]
fn store_dump_lists_entries() {
    let mut s = Store::new();
    assert_eq!(value_bytes(&s.apply(Command::Dump)), b"{}".to_vec());
    s.apply(set("a", "1"));
    assert_eq!(value_bytes(&s.apply(Command::Dump)), b"{a: 1}".to_vec());
    s.apply(set("b", "2"));
    assert_eq!(value_bytes(&s.apply(Command::Dump)), b"{a: 1, b: 2}".to_vec());
}

#[test]
fn end_to_end_session() {
    let mut s = Store::new();
    assert_eq!(s.handle_frame(b"SET k VAL 5 hello"), b"OK\n".to_vec());
    assert_eq!(s.handle_frame(b"GET k"), b"VAL 5 hello\n".to_vec());
    assert_eq!(s.handle_frame(b"DEL k"), b"OK\n".to_vec());
    assert_eq!(s.handle_frame(b"GET k"), b"VAL 0\n".to_vec());
    assert_eq!(s.handle_frame(b"EXT"), b"OK\n".to_vec());
    assert!(s.should_terminate());
}

#[test]
fn malformed_frame_gets_error_reply() {
    let mut s = Store::new();
    assert_eq!(s.handle_frame(b"HELLO"), b"ERR parse error\n".to_vec());
    assert_eq!(s.handle_frame(b"GE"), b"ERR parse error\n".to_vec());
    assert!(!s.should_terminate());
}

#[test]
fn frame_end_plain_lines() {
    assert_eq!(find_frame_end(b"GET k\nrest"), Some(5));
    assert_eq!(find_frame_end(b"OK\n"), Some(2));
    assert_eq!(find_frame_end(b"GET k"), None);
    assert_eq!(find_frame_end(b"SET k VAL 0\n"), Some(11));
}

#[test]
fn frame_end_takes_declared_payload() {
    assert_eq!(find_frame_end(b"SET k VAL 3 a\nb\nGET"), Some(15));
    assert_eq!(find_frame_end(b"VAL 3 a\nb\n"), Some(9));
    assert_eq!(find_frame_end(b"VAL 3 a\n"), None);
    assert_eq!(find_frame_end(b"VAL 3 a\nb"), None);
}

#[test]
fn frame_then_decode_keeps_newlines() {
    let mut wire = set("k", "x\ny").encode();
    wire.push(b'\n');
    let end = find_frame_end(&wire).unwrap();
    assert_eq!(end, wire.len() - 1);
    match Command::decode(&wire[..end]).unwrap() {
        Command::Put { value, .. } => assert_eq!(value.to_bytes(), b"x\ny".to_vec()),
        other => panic!("unexpected {:?}", other),
    }
}
