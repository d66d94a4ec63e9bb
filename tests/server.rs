use minikv::config::Config;
use minikv::rdb::parse_rdb;
use minikv::server::handle_request;
use minikv::store::Store;

fn reply(store: &mut Store, config: &Config, input: &[u8], mono_ns: u64) -> Vec<u8> {
    handle_request(store, config, input, 0, mono_ns).unwrap()
}

#[test]
fn ping_pong() {
    let mut store = Store::new();
    let config = Config::default();
    assert_eq!(reply(&mut store, &config, b"*1\r\n$4\r\nPING\r\n", 0), b"+PONG\r\n".to_vec());
}

#[test]
fn echo_hey() {
    let mut store = Store::new();
    let config = Config::default();
    assert_eq!(reply(&mut store, &config, b"*2\r\n$4\r\nECHO\r\n$3\r\nhey\r\n", 0), b"$3\r\nhey\r\n".to_vec());
}

#[test]
fn set_then_get() {
    let mut store = Store::new();
    let config = Config::default();
    assert_eq!(reply(&mut store, &config, b"*3\r\n$3\r\nSET\r\n$3\r\nfoo\r\n$3\r\nbar\r\n", 0), b"+OK\r\n".to_vec());
    assert_eq!(reply(&mut store, &config, b"*2\r\n$3\r\nGET\r\n$3\r\nfoo\r\n", 10), b"$3\r\nbar\r\n".to_vec());
}

#[test]
fn set_px_then_get_after_wait() {
    let mut store = Store::new();
    let config = Config::default();
    let set = b"*5\r\n$3\r\nSET\r\n$3\r\nfoo\r\n$3\r\nbar\r\n$2\r\nPX\r\n$1\r\n1\r\n";
    assert_eq!(reply(&mut store, &config, set, 0), b"+OK\r\n".to_vec());
    assert_eq!(reply(&mut store, &config, b"*2\r\n$3\r\nGET\r\n$3\r\nfoo\r\n", 5_000_000), b"$-1\r\n".to_vec());
}

#[test]
fn connections_seeded_independently() {
    let snapshot: &[u8] = &[
        82, 69, 68, 73, 83, 48, 48, 48, 51, 254, 0, 0, 0xC0, 0x7D, 0x16, 0x50, 0x6f, 0x73, 0x69, 0x74, 0x69, 0x76, 0x65,
        0x20, 0x38, 0x20, 0x62, 0x69, 0x74, 0x20, 0x69, 0x6e, 0x74, 0x65, 0x67, 0x65, 0x72, 255,
    ];
    let (_, rdb) = parse_rdb(snapshot).unwrap();
    let config = Config::default();
    let get = b"*2\r\n$3\r\nGET\r\n$3\r\n125\r\n";
    let mut first = Store::from_rdb(&rdb);
    assert_eq!(reply(&mut first, &config, get, 0), b"+Positive 8 bit integer\r\n".to_vec());
    reply(&mut first, &config, b"*3\r\n$3\r\nSET\r\n$3\r\n125\r\n$1\r\nx\r\n", 0);
    assert_eq!(reply(&mut first, &config, get, 0), b"$1\r\nx\r\n".to_vec());
    let mut second = Store::from_rdb(&rdb);
    assert_eq!(reply(&mut second, &config, get, 0), b"+Positive 8 bit integer\r\n".to_vec());
}

#[test]
fn config_get_replies() {
    let mut store = Store::new();
    let config = Config::from_args(vec![
        "--dir".to_string(),
        "/tmp/data".to_string(),
        "--dbfilename".to_string(),
        "dump.rdb".to_string(),
    ]);
    assert_eq!(config.filename(), Some("dump.rdb".to_string()));
    assert!(config.dir_to_path().is_some());
    assert_eq!(
        reply(&mut store, &config, b"*3\r\n$6\r\nCONFIG\r\n$3\r\nGET\r\n$3\r\ndir\r\n", 0),
        b"*2\r\n$3\r\ndir\r\n$9\r\n/tmp/data\r\n".to_vec()
    );
    assert_eq!(
        reply(&mut store, &config, b"*3\r\n$6\r\nCONFIG\r\n$3\r\nGET\r\n$10\r\ndbfilename\r\n", 0),
        b"*2\r\n$10\r\ndbfilename\r\n$8\r\ndump.rdb\r\n".to_vec()
    );
    let empty = Config::default();
    assert_eq!(reply(&mut store, &empty, b"*3\r\n$6\r\nCONFIG\r\n$3\r\nGET\r\n$3\r\ndir\r\n", 0), b"*0\r\n".to_vec());
}

#[test]
fn config_from_args_stops_when_both_set() {
    let config = Config::from_args(vec![
        "--dbfilename".to_string(),
        "a.rdb".to_string(),
        "--dir".to_string(),
        "d".to_string(),
        "--dir".to_string(),
        "e".to_string(),
    ]);
    assert_eq!(config.dir, Some("d".to_string()));
    assert_eq!(config.filename, Some("a.rdb".to_string()));
    assert_eq!(Config::from_args(vec![]).dir, None);
}

#[test]
fn keys_lists_every_key() {
    let mut store = Store::new();
    let config = Config::default();
    reply(&mut store, &config, b"*3\r\n$3\r\nSET\r\n$1\r\na\r\n$1\r\n1\r\n", 0);
    assert_eq!(reply(&mut store, &config, b"*2\r\n$4\r\nKEYS\r\n$1\r\n*\r\n", 0), b"*1\r\n$1\r\na\r\n".to_vec());
}

#[test]
fn bad_frames_and_unknown_commands() {
    let mut store = Store::new();
    let config = Config::default();
    assert_eq!(handle_request(&mut store, &config, b"*1\r\n$4\r\nPI", 0, 0), None);
    assert_eq!(
        reply(&mut store, &config, b"*1\r\n$5\r\nHELLO\r\n", 0),
        b"-ERR unknown command\r\n".to_vec()
    );
}
