use minikv::resp::arr;
use minikv::resp::bulk_str;
use minikv::resp::error;
use minikv::resp::integer;
use minikv::resp::parser;
use minikv::resp::simple_str;
use minikv::resp::Array;
use minikv::resp::BulkString;
use minikv::resp::DecodeError;
use minikv::resp::Error;
use minikv::resp::Value;

fn bulk(s: &str) -> Value {
    Value::BulkString(BulkString::String(s.to_string()))
}

#[test]
fn simple_str_works() {
    let (remaining, value) = simple_str(b"+OK\r\n").unwrap();
    assert_eq!(value, Value::String("OK".into()));
    assert!(remaining.is_empty());
}

#[test]
fn error_works() {
    let errors = [
        "-Error message\r\n",
        "-ERR unknown command 'asdf'\r\n",
        "-WRONGTYPE Operation against a key holding the wrong kind of value\r\n",
        "-World\r\n",
    ];

    for err in errors {
        let (remaining, value) = error(err.as_bytes()).unwrap();
        assert!(matches!(value, Value::Error(Error { .. })));
        assert!(remaining.is_empty());
    }
}

#[test]
fn int_works() {
    let ints = [":10\r\n", ":-1000\r\n", ":+2000\r\n"];

    for it in ints {
        let (remaining, value) = integer(it.as_bytes()).unwrap();
        assert!(matches!(value, Value::Int(..)));
        assert!(remaining.is_empty());
    }
}

#[test]
fn bulk_str_works() {
    let strs = ["$5\r\nhello\r\n", "$0\r\n\r\n", "$-1\r\n"];

    for s in strs {
        let (remaining, value) = bulk_str(s.as_bytes()).unwrap();
        assert!(matches!(value, Value::BulkString(..)));
        assert!(remaining.is_empty());
    }
}

#[test]
fn arr_works() {
    let arrays = [
        ("*0\r\n", Array::Empty),
        ("*2\r\n$5\r\nhello\r\n$5\r\nworld\r\n", Array::Items(vec![bulk("hello"), bulk("world")])),
        ("*3\r\n:1\r\n:2\r\n:3\r\n", Array::Items(vec![Value::Int(1), Value::Int(2), Value::Int(3)])),
        (
            "*5\r\n:1\r\n:2\r\n:3\r\n:4\r\n$5\r\nhello\r\n",
            Array::Items(vec![Value::Int(1), Value::Int(2), Value::Int(3), Value::Int(4), bulk("hello")]),
        ),
        (
            "*2\r\n*3\r\n:1\r\n:2\r\n:3\r\n*2\r\n+Hello\r\n-World\r\n",
            Array::Items(vec![
                Array::Items(vec![Value::Int(1), Value::Int(2), Value::Int(3)]).into(),
                Array::Items(vec![
                    Value::String("Hello".to_string()),
                    Value::Error(Error { title: "World".to_string(), message: "".to_string() }),
                ])
                .into(),
            ]),
        ),
        ("*-1\r\n", Array::Null),
        (
            "*3\r\n$5\r\nhello\r\n$-1\r\n$5\r\nworld\r\n",
            Array::Items(vec![bulk("hello"), BulkString::Null.into(), bulk("world")]),
        ),
    ];

    for (input, expected) in arrays {
        let (remaining, value) = arr(input.as_bytes()).unwrap();
        assert_eq!(value, expected.into());
        assert!(remaining.is_empty());
    }
}

#[test]
fn error_splits_at_first_space() {
    let (_, value) = error(b"-ERR unknown command 'asdf'\r\n").unwrap();
    assert_eq!(
        value,
        Value::Error(Error { title: "ERR".to_string(), message: "unknown command 'asdf'".to_string() })
    );
}

#[test]
fn encodes_each_kind() {
    assert_eq!(Value::String("OK".to_string()).encode(), b"+OK\r\n".to_vec());
    assert_eq!(bulk("hey").encode(), b"$3\r\nhey\r\n".to_vec());
    assert_eq!(Value::BulkString(BulkString::Empty).encode(), b"$0\r\n\r\n".to_vec());
    assert_eq!(Value::BulkString(BulkString::Null).encode(), b"$-1\r\n".to_vec());
    assert_eq!(
        Value::Error(Error { title: "ERR".to_string(), message: "bad thing".to_string() }).encode(),
        b"-ERR bad thing\r\n".to_vec()
    );
    assert_eq!(Value::Error(Error { title: "World".to_string(), message: String::new() }).encode(), b"-World\r\n".to_vec());
    assert_eq!(Value::Int(-1000).encode(), b":-1000\r\n".to_vec());
    assert_eq!(Value::Int(i64::MIN).encode(), b":-9223372036854775808\r\n".to_vec());
    assert_eq!(Value::Array(Array::Empty).encode(), b"*0\r\n".to_vec());
    assert_eq!(Value::Array(Array::Null).encode(), b"*-1\r\n".to_vec());
    assert_eq!(
        Value::Array(Array::Items(vec![Value::Int(1), bulk("hello")])).encode(),
        b"*2\r\n:1\r\n$5\r\nhello\r\n".to_vec()
    );
}

#[test]
fn bulk_length_counts_bytes() {
    assert_eq!(bulk("héllo").encode(), "$6\r\nhéllo\r\n".as_bytes().to_vec());
    let (_, v) = parser("$6\r\nhéllo\r\n".as_bytes()).unwrap();
    assert_eq!(v, bulk("héllo"));
}

#[test]
fn canonical_bytes_round_trip() {
    let frames: [&[u8]; 9] = [
        b"+OK\r\n",
        b"-ERR wrong type\r\n",
        b":42\r\n",
        b"$5\r\nhello\r\n",
        b"$0\r\n\r\n",
        b"$-1\r\n",
        b"*0\r\n",
        b"*-1\r\n",
        b"*2\r\n*1\r\n:1\r\n*2\r\n$-1\r\n+x\r\n",
    ];
    for f in frames {
        let (rest, v) = parser(f).unwrap();
        assert!(rest.is_empty());
        assert_eq!(v.encode(), f.to_vec());
        let (_, again) = parser(&v.encode()).unwrap();
        assert_eq!(again, v);
    }
}

#[test]
fn array_leaves_following_bytes() {
    let (rest, v) = parser(b"*2\r\n:1\r\n:2\r\n:3\r\n+tail\r\n").unwrap();
    assert_eq!(v, Value::Array(Array::Items(vec![Value::Int(1), Value::Int(2)])));
    assert_eq!(rest, b":3\r\n+tail\r\n");
}

#[test]
fn malformed_frames_fail() {
    let bad: [&[u8]; 10] = [
        b"",
        b"+OK",
        b":12x\r\n",
        b":\r\n",
        b"$5\r\nhel\r\n",
        b"$x\r\n",
        b"*2\r\n:1\r\n",
        b"?what\r\n",
        b":99999999999999999999\r\n",
        b"$-2\r\n",
    ];
    for b in bad {
        assert_eq!(parser(b), Err(DecodeError));
    }
}

#[test]
fn kind_parsers_reject_other_kinds() {
    assert_eq!(simple_str(b":1\r\n"), Err(DecodeError));
    assert_eq!(integer(b"+1\r\n"), Err(DecodeError));
    assert_eq!(arr(b"$1\r\na\r\n"), Err(DecodeError));
}

#[test]
fn nesting_is_capped() {
    let mut deep: Vec<u8> = Vec::new();
    for _ in 0..64 {
        deep.extend_from_slice(b"*1\r\n");
    }
    deep.extend_from_slice(b":1\r\n");
    assert!(parser(&deep).is_ok());
    let mut deeper: Vec<u8> = b"*1\r\n".to_vec();
    deeper.extend_from_slice(&deep);
    assert_eq!(parser(&deeper), Err(DecodeError));
}

#[test]
fn duplicate_keeps_value() {
    let v = Value::Array(Array::Items(vec![bulk("a"), Value::Int(3), Value::Array(Array::Null)]));
    assert_eq!(v.duplicate(), v);
    assert_eq!(BulkString::String("x".to_string()).inner(), "x");
    assert_eq!(BulkString::Null.inner(), "");
}
