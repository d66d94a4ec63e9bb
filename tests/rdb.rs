use minikv::rdb::auxilliary;
use minikv::rdb::db;
use minikv::rdb::db_number;
use minikv::rdb::header;
use minikv::rdb::kv_pair;
use minikv::rdb::len;
use minikv::rdb::parse_rdb;
use minikv::rdb::resize_db;
use minikv::rdb::string;
use minikv::rdb::DBString;
use minikv::rdb::KVPair;
use minikv::rdb::LenEncoded;
use minikv::rdb::RdbError;
use minikv::rdb::ResizeDBAttr;
use minikv::rdb::Value;

#[test]
fn parse_header() {
    let input: &[u8] = &[
        0x52, 0x45, 0x44, 0x49, 0x53, // magic
        0x30, 0x30, 0x30, 0x33, // version
    ];

    assert_eq!(header(input).unwrap().1, 3);
}

#[test]
fn parse_len() {
    let tests: &[(&[u8], LenEncoded)] = &[
        (&[0xC2, 0x25, 0xD3, 0xED, 0x52], LenEncoded::Special(2)),
        (&[0xC0, 0x7D], LenEncoded::Special(0)),
        (&[0xC1, 0xDB, 0x8C], LenEncoded::Special(1)),
        (&[0x3F], LenEncoded::Num(63)),
        (&[0x00], LenEncoded::Num(0)),
        (&[0x74, 0x69], LenEncoded::Num(13417)),
        (&[0x7F, 0xFF], LenEncoded::Num(16383)),
        (&[0xAB, 0xFF, 0xFF, 0xFF, 0xFF], LenEncoded::Num(4294967295)),
    ];

    for (input, expected) in tests {
        let (_, res) = len(input).unwrap();
        assert_eq!(res, *expected);
    }
}

#[test]
fn parse_string() {
    let tests: &[(&[u8], DBString)] = &[
        (&[0xC2, 0x25, 0xD3, 0xED, 0x52], DBString::Int(634645842)),
        (&[0xC0, 0x7D], DBString::Int(125)),
        (&[0xC0, 0x85], DBString::Int(-123)),
        (&[0xC1, 0xDB, 0x8C], DBString::Int(-9332)),
        (&[0xC2, 0xAB, 0xAB, 0x00, 0x00], DBString::Int(-1414856704)),
        (&[0xC2, 0xDB, 0x2C, 0x12, 0xF5], DBString::Int(-617868555)),
        (
            &[
                0x17, 0x50, 0x6f, 0x73, 0x69, 0x74, 0x69, 0x76, 0x65, 0x20, 0x33, 0x32, 0x20, 0x62, 0x69, 0x74,
                0x20, 0x69, 0x6e, 0x74, 0x65, 0x67, 0x65, 0x72,
            ],
            DBString::Str(String::from("Positive 32 bit integer")),
        ),
        (
            &[
                0x16, 0x50, 0x6f, 0x73, 0x69, 0x74, 0x69, 0x76, 0x65, 0x20, 0x38, 0x20, 0x62, 0x69, 0x74, 0x20,
                0x69, 0x6e, 0x74, 0x65, 0x67, 0x65, 0x72,
            ],
            DBString::Str(String::from("Positive 8 bit integer")),
        ),
    ];

    for (input, expected) in tests {
        let (next, res) = string(input).unwrap();
        assert_eq!(res, *expected);
        assert_eq!(next.len(), 0);
    }
}

#[test]
fn parse_kv_pair() {
    let tests: &[(&[u8], KVPair)] = &[
        (
            &[
                0x00, 0xc2, 0x25, 0xd3, 0xed, 0x0a, 0x17, 0x50, 0x6f, 0x73, 0x69, 0x74, 0x69, 0x76, 0x65, 0x20,
                0x33, 0x32, 0x20, 0x62, 0x69, 0x74, 0x20, 0x69, 0x6e, 0x74, 0x65, 0x67, 0x65, 0x72,
            ],
            KVPair {
                value: Value::String(DBString::Str(String::from("Positive 32 bit integer"))),
                expiration: None,
                key: DBString::Int(634645770),
            },
        ),
        (
            &[
                0x00, 0xc0, 0x7d, 0x16, 0x50, 0x6f, 0x73, 0x69, 0x74, 0x69, 0x76, 0x65, 0x20, 0x38, 0x20, 0x62,
                0x69, 0x74, 0x20, 0x69, 0x6e, 0x74, 0x65, 0x67, 0x65, 0x72,
            ],
            KVPair {
                value: Value::String(DBString::Str(String::from("Positive 8 bit integer"))),
                expiration: None,
                key: DBString::Int(125),
            },
        ),
    ];

    for (input, expected) in tests {
        let (next, res) = kv_pair(input).unwrap();
        assert_eq!(res, *expected);
        assert_eq!(next.len(), 0);
    }
}

const DB_SECTION: [u8; 173] = [
    0xfe, 0x00, 0x00, 0xc2, 0x25, 0xd3, 0xed, 0x0a, 0x17, 0x50, 0x6f, 0x73, 0x69, 0x74, 0x69, 0x76, 0x65, 0x20,
    0x33, 0x32, 0x20, 0x62, 0x69, 0x74, 0x20, 0x69, 0x6e, 0x74, 0x65, 0x67, 0x65, 0x72, 0x00, 0xc0, 0x7d, 0x16,
    0x50, 0x6f, 0x73, 0x69, 0x74, 0x69, 0x76, 0x65, 0x20, 0x38, 0x20, 0x62, 0x69, 0x74, 0x20, 0x69, 0x6e, 0x74,
    0x65, 0x67, 0x65, 0x72, 0x00, 0xc1, 0xdb, 0x8c, 0x17, 0x4e, 0x65, 0x67, 0x61, 0x74, 0x69, 0x76, 0x65, 0x20,
    0x31, 0x36, 0x20, 0x62, 0x69, 0x74, 0x20, 0x69, 0x6e, 0x74, 0x65, 0x67, 0x65, 0x72, 0x00, 0xc0, 0x85, 0x16,
    0x4e, 0x65, 0x67, 0x61, 0x74, 0x69, 0x76, 0x65, 0x20, 0x38, 0x20, 0x62, 0x69, 0x74, 0x20, 0x69, 0x6e, 0x74,
    0x65, 0x67, 0x65, 0x72, 0x00, 0xc2, 0xab, 0xab, 0x00, 0x00, 0x17, 0x50, 0x6f, 0x73, 0x69, 0x74, 0x69, 0x76,
    0x65, 0x20, 0x31, 0x36, 0x20, 0x62, 0x69, 0x74, 0x20, 0x69, 0x6e, 0x74, 0x65, 0x67, 0x65, 0x72, 0x00, 0xc2,
    0xdb, 0x2c, 0x12, 0xf5, 0x17, 0x4e, 0x65, 0x67, 0x61, 0x74, 0x69, 0x76, 0x65, 0x20, 0x33, 0x32, 0x20, 0x62,
    0x69, 0x74, 0x20, 0x69, 0x6e, 0x74, 0x65, 0x67, 0x65, 0x72, 0xff,
];

#[test]
fn parse_db() {
    let (input, db) = db(&DB_SECTION).unwrap();

    assert_eq!(input, &[0xff]);
    assert_eq!(db.number, 0);
    assert_eq!(db.resize_db, None);
    assert_eq!(db.key_value_pairs.len(), 6);
}

#[test]
fn parse_aux() {
    let input = &[
        250, 10, 114, 101, 100, 105, 115, 45, 98, 105, 116, 115, 192, 64, 250, 9, 114, 101, 100, 105, 115, 45, 118, 101,
        114, 5, 55, 46, 50, 46, 48,
    ];

    let (input, aux) = auxilliary(input).unwrap();

    assert!(input.is_empty());
    assert_eq!(aux.len(), 2);
}

#[test]
fn db_number_parser() {
    let input: &[u8] = &[0xFE, 0x00];

    assert_eq!(db_number(input).unwrap().1, 0);
}

const SNAPSHOT: [u8; 72] = [
    82, 69, 68, 73, 83, 48, 48, 48, 51, 250, 10, 114, 101, 100, 105, 115, 45, 98, 105, 116, 115, 192, 64, 250, 9,
    114, 101, 100, 105, 115, 45, 118, 101, 114, 5, 55, 46, 50, 46, 48, 254, 0, 251, 1, 0, 0, 4, 112, 101, 97, 114,
    10, 115, 116, 114, 97, 119, 98, 101, 114, 114, 121, 255, 255, 125, 246, 75, 211, 97, 140, 85, 10,
];

#[test]
fn rdb2() {
    let (_input, rdb) = parse_rdb(&SNAPSHOT).unwrap();
    assert_eq!(rdb.version, 3);
}

#[test]
fn snapshot_contents() {
    let (rest, rdb) = parse_rdb(&SNAPSHOT).unwrap();
    assert_eq!(rest, &SNAPSHOT[63..]);
    assert_eq!(rdb.auxilliary_field.len(), 2);
    assert_eq!(rdb.auxilliary_field[0].key, DBString::Str("redis-bits".to_string()));
    assert_eq!(rdb.auxilliary_field[0].value, DBString::Int(64));
    assert_eq!(rdb.databases.len(), 1);
    assert_eq!(
        rdb.databases[0].resize_db,
        Some(ResizeDBAttr { hash_table_size: 1, expire_hash_table_size: 0 })
    );
    let keys: Vec<String> = rdb.keys().iter().map(|k| k.to_string()).collect();
    assert_eq!(keys, vec!["pear".to_string()]);
    let found = rdb.get("pear");
    assert_eq!(found.len(), 1);
    assert_eq!(*found[0], Value::String(DBString::Str("strawberry".to_string())));
    assert!(rdb.get("apple").is_empty());
    assert!(found[0].eq_text("strawberry"));
}

#[test]
fn length_encoding_values() {
    assert_eq!(len(&[0x00]).unwrap().1, LenEncoded::Num(0));
    assert_eq!(len(&[0x3F]).unwrap().1, LenEncoded::Num(63));
    assert_eq!(len(&[0x74, 0x69]).unwrap().1, LenEncoded::Num(13417));
    assert_eq!(len(&[0xAB, 0xFF, 0xFF, 0xFF, 0xFF]).unwrap().1, LenEncoded::Num(4294967295));
    assert_eq!(string(&[0xC0, 0x7D]).unwrap().1, DBString::Int(125));
    assert_eq!(string(&[0xC1, 0xDB, 0x8C]).unwrap().1, DBString::Int(-9332));
    assert_eq!(string(&[0xC2, 0x25, 0xD3, 0xED, 0x52]).unwrap().1, DBString::Int(634645842));
    let (rest, _) = len(&[0x74, 0x69, 0x01]).unwrap();
    assert_eq!(rest, &[0x01]);
}

#[test]
fn integer_keys_render_as_decimal() {
    assert_eq!(DBString::Int(-9332).to_string(), "-9332");
    assert_eq!(DBString::Int(125).to_string(), "125");
    assert_eq!(DBString::Str("abc".to_string()).to_string(), "abc");
    assert_eq!(DBString::Int(7).text_bytes(), b"7".to_vec());
}

#[test]
fn expiration_markers() {
    let seconds: &[u8] = &[0xFD, 0x00, 0x00, 0x01, 0x00, 0x00, 0x01, 0x61, 0x01, 0x62];
    let (_, kv) = kv_pair(seconds).unwrap();
    assert_eq!(kv.expiration, Some(256));
    assert_eq!(kv.key, DBString::Str("a".to_string()));
    let millis: &[u8] = &[0xFC, 0, 0, 0, 0, 0, 0, 0x03, 0xE8, 0x00, 0x01, 0x61, 0x01, 0x62];
    let (_, kv) = kv_pair(millis).unwrap();
    assert_eq!(kv.expiration, Some(1000));
}

#[test]
fn resize_hint() {
    let (rest, r) = resize_db(&[0xFB, 0x02, 0x01, 0x00]).unwrap();
    assert_eq!(r, Some(ResizeDBAttr { hash_table_size: 2, expire_hash_table_size: 1 }));
    assert_eq!(rest, &[0x00]);
    assert_eq!(resize_db(&[0x00]).unwrap().1, None);
    assert_eq!(resize_db(&[0xFB, 0xC0, 0x01]), Err(RdbError::BadLengthEncoding));
}

#[test]
fn snapshot_errors() {
    assert_eq!(header(b"RED").err(), Some(RdbError::BadMagic));
    assert_eq!(header(b"REDIX0003").err(), Some(RdbError::BadMagic));
    assert_eq!(header(b"REDIS00a3").err(), Some(RdbError::BadVersion));
    assert_eq!(header(b"REDIS00").err(), Some(RdbError::BadVersion));
    assert_eq!(db_number(&[0xFE, 0xC0]).err(), Some(RdbError::BadLengthEncoding));
    assert_eq!(string(&[0xC4, 0x00]).err(), Some(RdbError::UnsupportedSpecialEncoding));
    assert_eq!(string(&[0xC3, 0x00]).err(), Some(RdbError::UnsupportedCompression));
    assert_eq!(kv_pair(&[0x01, 0x01, 0x61, 0x01, 0x62]).err(), Some(RdbError::UnsupportedValueType));
    assert_eq!(string(&[0x02, 0xFF, 0xFE]).err(), Some(RdbError::InvalidUtf8));
    assert_eq!(string(&[0x05, 0x61]).err(), Some(RdbError::Truncated));
    assert_eq!(parse_rdb(&SNAPSHOT[..50]).err(), Some(RdbError::Truncated));
}
