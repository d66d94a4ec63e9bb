//! Answering one request of a connection.
use vstd::prelude::*;
use crate::config::lookup_reply;
use crate::config::name_dbfilename;
use crate::config::name_dir;
use crate::config::opt_text;
use crate::config::Config;
use crate::message::classify;
use crate::message::CommandModel;
use crate::message::RespMessage;
use crate::resp::ascii_string;
use crate::resp::bytes_equal;
use crate::resp::decode;
use crate::resp::encoding;
use crate::resp::parser;
use crate::resp::text;
use crate::resp::Array;
use crate::resp::BulkString;
use crate::resp::Error;
use crate::resp::Model;
use crate::resp::Value;
use crate::store::get_spec;
use crate::store::set_spec;
use crate::store::Durable;
use crate::store::Store;

verus! {

pub open spec fn word_pong() -> Seq<u8> {
    seq![80u8, 79u8, 78u8, 71u8]
}

pub open spec fn word_ok() -> Seq<u8> {
    seq![79u8, 75u8]
}

pub open spec fn word_err() -> Seq<u8> {
    seq![69u8, 82u8, 82u8]
}

pub open spec fn words_unknown_command() -> Seq<u8> {
    seq![117u8, 110u8, 107u8, 110u8, 111u8, 119u8, 110u8, 32u8, 99u8, 111u8, 109u8, 109u8, 97u8, 110u8, 100u8]
}

/// The reply to a request that is no known command.
pub open spec fn unknown_reply() -> Model {
    Model::Error { title: word_err(), message: words_unknown_command() }
}

/// The reply to `CONFIG GET key`.
pub open spec fn config_reply(cfg: (Option<Seq<u8>>, Option<Seq<u8>>), key: Seq<u8>) -> Model {
    if key == name_dir() {
        lookup_reply(name_dir(), cfg.0)
    } else if key == name_dbfilename() {
        lookup_reply(name_dbfilename(), cfg.1)
    } else {
        Model::ArrayEmpty
    }
}

/// The reply to a command other than `KEYS`, and what is stored after it.
pub open spec fn command_spec(
    m: Map<Seq<u8>, Durable>,
    cfg: (Option<Seq<u8>>, Option<Seq<u8>>),
    cmd: CommandModel,
    wall_ms: u64,
    mono_ns: u64,
) -> (Seq<u8>, Map<Seq<u8>, Durable>) {
    match cmd {
        CommandModel::Ping => (encoding(Model::Simple(word_pong())), m),
        CommandModel::Echo(b) => (encoding(b), m),
        CommandModel::SetKey { key, val, expiry } => (
            encoding(Model::Simple(word_ok())),
            set_spec(m, key, val, expiry, mono_ns),
        ),
        CommandModel::Get(k) => (encoding(get_spec(m, k, wall_ms, mono_ns).0), get_spec(m, k, wall_ms, mono_ns).1),
        CommandModel::ConfigGet(k) => (encoding(config_reply(cfg, k)), m),
        CommandModel::Keys(_) => (encoding(Model::ArrayEmpty), m),
    }
}

/// `b` is an array of bulk strings that holds each stored key once.
pub open spec fn keys_reply(b: Seq<u8>, m: Map<Seq<u8>, Durable>) -> bool {
    exists|ks: Seq<Seq<u8>>|
        #![trigger keys_items(ks)]
        ks.no_duplicates() && (forall|k: Seq<u8>| m.contains_key(k) <==> ks.contains(k)) && b == encoding(
            Model::Items(keys_items(ks)),
        )
}

pub open spec fn keys_items(ks: Seq<Seq<u8>>) -> Seq<Model> {
    Seq::new(ks.len(), |i: int| Model::BulkText(ks[i]))
}

/// What answering `input` does: no reply to a frame that does not decode; an
/// error reply to a value that is no command; else the command's reply.
pub open spec fn request_outcome(
    before: Map<Seq<u8>, Durable>,
    cfg: (Option<Seq<u8>>, Option<Seq<u8>>),
    input: Seq<u8>,
    wall_ms: u64,
    mono_ns: u64,
    reply: Option<Seq<u8>>,
    after: Map<Seq<u8>, Durable>,
) -> bool {
    match decode(input) {
        None => reply is None && after == before,
        Some((m, _)) => match classify(m) {
            None => reply == Some(encoding(unknown_reply())) && after == before,
            Some(CommandModel::Keys(_)) => after == before && (reply matches Some(b) && keys_reply(b, before)),
            Some(cmd) => reply == Some(command_spec(before, cfg, cmd, wall_ms, mono_ns).0) && after
                == command_spec(before, cfg, cmd, wall_ms, mono_ns).1,
        },
    }
}

pub open spec fn config_texts(c: &Config) -> (Option<Seq<u8>>, Option<Seq<u8>>) {
    (opt_text(c.dir), opt_text(c.filename))
}

pub open spec fn reply_view(r: Option<Vec<u8>>) -> Option<Seq<u8>> {
    match r {
        Some(b) => Some(b@),
        None => None,
    }
}

fn simple(b: &[u8]) -> (r: Value)
    requires
        forall|i: int| 0 <= i < b@.len() ==> #[trigger] b@[i] < 128,
    ensures
        r.model() == Model::Simple(b@),
{
    Value::String(ascii_string(b))
}

fn keys_value(store: &Store) -> (r: Vec<u8>)
    requires
        store.wf(),
    ensures
        keys_reply(r@, store@),
{
    let ks = store.keys();
    let mut items: Vec<Value> = Vec::new();
    let mut i: usize = 0;
    while i < ks.len()
        invariant
            i <= ks@.len(),
            items@.len() == i,
            forall|j: int| 0 <= j < i ==> (#[trigger] items@[j]).model() == Model::BulkText(text(ks@[j])),
        decreases ks@.len() - i,
    {
        items.push(Value::BulkString(BulkString::String(ks[i].clone())));
        i = i + 1;
    }
    let v = Value::Array(Array::Items(items));
    let r = v.encode();
    proof {
        let kt = Seq::new(ks@.len(), |j: int| text(ks@[j]));
        assert(v.model()->Items_0 =~= keys_items(kt));
        assert(kt.no_duplicates());
        assert forall|k: Seq<u8>| store@.contains_key(k) <==> kt.contains(k) by {
            if store@.contains_key(k) {
                let j = choose|j: int| 0 <= j < ks@.len() && text(#[trigger] ks@[j]) == k;
                assert(kt[j] == k);
            }
            if kt.contains(k) {
                let j = choose|j: int| 0 <= j < kt.len() && kt[j] == k;
                assert(store@.contains_key(text(ks@[j])));
            }
        }
    }
    r
}

/// Answers one request at the given clock readings: wall-clock milliseconds
/// since the Unix epoch and monotonic nanoseconds.
pub fn handle_request(store: &mut Store, config: &Config, input: &[u8], wall_ms: u64, mono_ns: u64) -> (r: Option<Vec<u8>>)
    requires
        old(store).wf(),
    ensures
        final(store).wf(),
        request_outcome(old(store)@, config_texts(config), input@, wall_ms, mono_ns, reply_view(r), final(store)@),
{
    let value = match parser(input) {
        Ok((_, v)) => v,
        Err(_) => return None,
    };
    let ghost m = value.model();
    let command = match RespMessage::try_from(value) {
        Ok(c) => c,
        Err(_) => {
            let title = ascii_string(vec![69u8, 82u8, 82u8].as_slice());
            let message = ascii_string(
                vec![117u8, 110u8, 107u8, 110u8, 111u8, 119u8, 110u8, 32u8, 99u8, 111u8, 109u8, 109u8, 97u8, 110u8, 100u8].as_slice(),
            );
            let e = Value::Error(Error { title, message });
            assert(e.model() == unknown_reply());
            return Some(e.encode());
        },
    };
    match command {
        RespMessage::Ping => {
            let v = simple(vec![80u8, 79u8, 78u8, 71u8].as_slice());
            assert(v.model() == Model::Simple(word_pong()));
            Some(v.encode())
        },
        RespMessage::Echo(b) => Some(Value::BulkString(b).encode()),
        RespMessage::SetKey { key, val, expiry } => {
            store.set(key, val, expiry, mono_ns);
            let v = simple(vec![79u8, 75u8].as_slice());
            assert(v.model() == Model::Simple(word_ok()));
            Some(v.encode())
        },
        RespMessage::Get(key) => {
            let v = store.get(key.as_str(), wall_ms, mono_ns);
            Some(v.encode())
        },
        RespMessage::ConfigGet(key) => {
            let k = key.as_str().as_bytes();
            let name_d: Vec<u8> = vec![100u8, 105u8, 114u8];
            let name_f: Vec<u8> = vec![100u8, 98u8, 102u8, 105u8, 108u8, 101u8, 110u8, 97u8, 109u8, 101u8];
            assert(name_d@ =~= name_dir());
            assert(name_f@ =~= name_dbfilename());
            if bytes_equal(k, name_d.as_slice()) {
                Some(config.dir_to_value().encode())
            } else if bytes_equal(k, name_f.as_slice()) {
                Some(config.filename_to_value().encode())
            } else {
                Some(Value::Array(Array::Empty).encode())
            }
        },
        RespMessage::Keys(_) => Some(keys_value(store)),
    }
}

/// Relies on `SystemTime::now` and `duration_since(UNIX_EPOCH)`: the wall
/// clock in milliseconds since the Unix epoch, 0 for a clock set before it.
#[verifier::external_body]
pub fn now() -> (r: u64) {
    match std::time::SystemTime::now().duration_since(std::time::UNIX_EPOCH) {
        Ok(d) => d.as_millis() as u64,
        Err(_) => 0,
    }
}

/// Answers one request, reading the wall clock now.
pub fn handle_request_now(store: &mut Store, config: &Config, input: &[u8], mono_ns: u64) -> (r: Option<Vec<u8>>)
    requires
        old(store).wf(),
    ensures
        final(store).wf(),
        exists|wall_ms: u64|
            request_outcome(old(store)@, config_texts(config), input@, wall_ms, mono_ns, reply_view(r), final(store)@),
{
    let wall_ms = now();
    handle_request(store, config, input, wall_ms, mono_ns)
}

} // verus!
