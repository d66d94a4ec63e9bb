use minikv::message::RespMessage;
use minikv::resp::Array;
use minikv::resp::BulkString;
use minikv::resp::Value;

fn bulk(s: &str) -> Value {
    Value::BulkString(BulkString::String(s.to_string()))
}

fn command(words: &[&str]) -> Value {
    Value::Array(Array::Items(words.iter().map(|w| bulk(w)).collect()))
}

#[test]
fn ping_in_any_case() {
    for w in ["ping", "PING", "PiNg"] {
        assert_eq!(RespMessage::try_from(command(&[w])).unwrap(), RespMessage::Ping);
    }
}

#[test]
fn set_with_px() {
    assert_eq!(
        RespMessage::try_from(command(&["SET", "foo", "bar", "PX", "100"])).unwrap(),
        RespMessage::SetKey { key: "foo".to_string(), val: bulk("bar"), expiry: Some(100) }
    );
    assert_eq!(
        RespMessage::try_from(command(&["set", "foo", "bar", "px", "7", "extra"])).unwrap(),
        RespMessage::SetKey { key: "foo".to_string(), val: bulk("bar"), expiry: Some(7) }
    );
    assert_eq!(
        RespMessage::try_from(command(&["set", "foo", "bar"])).unwrap(),
        RespMessage::SetKey { key: "foo".to_string(), val: bulk("bar"), expiry: None }
    );
}

#[test]
fn other_commands() {
    assert_eq!(RespMessage::try_from(command(&["ECHO", "hey"])).unwrap(), RespMessage::Echo(BulkString::String("hey".to_string())));
    assert_eq!(RespMessage::try_from(command(&["get", "k"])).unwrap(), RespMessage::Get("k".to_string()));
    assert_eq!(
        RespMessage::try_from(command(&["CONFIG", "get", "dir"])).unwrap(),
        RespMessage::ConfigGet("dir".to_string())
    );
    assert_eq!(RespMessage::try_from(command(&["KEYS", "*"])).unwrap(), RespMessage::Keys("*".to_string()));
}

#[test]
fn unclassified_keeps_value() {
    let bad = [
        command(&["PINGS"]),
        command(&["GET"]),
        command(&["SET", "a", "b", "PX", "soon"]),
        Value::Int(3),
        Value::Array(Array::Empty),
    ];
    for v in bad {
        let (_, back) = RespMessage::try_from(v.duplicate()).unwrap_err();
        assert_eq!(back, v);
    }
}
