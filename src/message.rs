//! Commands: what a decoded request asks for.
use vstd::prelude::*;
use crate::decimal::parse_i64;
use crate::decimal::parse_i64_bytes;
use crate::resp::bulk_text;
use crate::resp::text;
use crate::resp::BulkString;
use crate::resp::Model;
use crate::resp::Value;

verus! {

#[derive(Debug, PartialEq)]
pub enum RespMessage {
    Ping,
    Echo(BulkString),
    SetKey { key: String, val: Value, expiry: Option<u64> },
    Get(String),
    ConfigGet(String),
    Keys(String),
}

/// What a command is, with texts as bytes.
pub enum CommandModel {
    Ping,
    Echo(Model),
    SetKey { key: Seq<u8>, val: Model, expiry: Option<u64> },
    Get(Seq<u8>),
    ConfigGet(Seq<u8>),
    Keys(Seq<u8>),
}

impl RespMessage {
    pub open spec fn model(&self) -> CommandModel {
        match self {
            RespMessage::Ping => CommandModel::Ping,
            RespMessage::Echo(b) => CommandModel::Echo(Value::BulkString(*b).model()),
            RespMessage::SetKey { key, val, expiry } => CommandModel::SetKey {
                key: text(*key),
                val: val.model(),
                expiry: *expiry,
            },
            RespMessage::Get(k) => CommandModel::Get(text(*k)),
            RespMessage::ConfigGet(k) => CommandModel::ConfigGet(text(*k)),
            RespMessage::Keys(k) => CommandModel::Keys(text(*k)),
        }
    }
}

/// A byte with ASCII upper case letters made lower case.
pub open spec fn lower(c: u8) -> u8 {
    if 65 <= c <= 90 {
        (c + 32) as u8
    } else {
        c
    }
}

/// `t` spells the lower case keyword `kw`, in any case.
pub open spec fn spells(t: Seq<u8>, kw: Seq<u8>) -> bool {
    t.len() == kw.len() && forall|i: int| 0 <= i < t.len() ==> lower(#[trigger] t[i]) == kw[i]
}

/// `m` is a bulk string that spells `kw`.
pub open spec fn is_keyword(m: Model, kw: Seq<u8>) -> bool {
    bulk_text(m) matches Some(t) && spells(t, kw)
}

pub open spec fn kw_ping() -> Seq<u8> {
    seq![112u8, 105u8, 110u8, 103u8]
}

pub open spec fn kw_echo() -> Seq<u8> {
    seq![101u8, 99u8, 104u8, 111u8]
}

pub open spec fn kw_set() -> Seq<u8> {
    seq![115u8, 101u8, 116u8]
}

pub open spec fn kw_get() -> Seq<u8> {
    seq![103u8, 101u8, 116u8]
}

pub open spec fn kw_config() -> Seq<u8> {
    seq![99u8, 111u8, 110u8, 102u8, 105u8, 103u8]
}

pub open spec fn kw_keys() -> Seq<u8> {
    seq![107u8, 101u8, 121u8, 115u8]
}

pub open spec fn kw_px() -> Seq<u8> {
    seq![112u8, 120u8]
}

/// An expiry in milliseconds: decimal digits, at most `i64::MAX`.
pub open spec fn millis_spec(t: Seq<u8>) -> Option<u64> {
    if t.len() > 0 && t[0] == 45u8 {
        None
    } else {
        match parse_i64(t) {
            Some(n) => Some(n as u64),
            None => None,
        }
    }
}

/// The command a request stands for; `None` for anything unclassified.
pub open spec fn classify(m: Model) -> Option<CommandModel> {
    match m {
        Model::Items(s) => {
            if s.len() == 2 && is_keyword(s[0], kw_get()) && bulk_text(s[1]) is Some {
                Some(CommandModel::Get(bulk_text(s[1])->Some_0))
            } else if s.len() == 2 && is_keyword(s[0], kw_keys()) && bulk_text(s[1]) is Some {
                Some(CommandModel::Keys(bulk_text(s[1])->Some_0))
            } else if s.len() == 3 && is_keyword(s[0], kw_config()) && is_keyword(s[1], kw_get())
                && bulk_text(s[2]) is Some {
                Some(CommandModel::ConfigGet(bulk_text(s[2])->Some_0))
            } else if s.len() >= 3 && is_keyword(s[0], kw_set()) && bulk_text(s[1]) is Some {
                if s.len() >= 5 && is_keyword(s[3], kw_px()) && bulk_text(s[4]) is Some {
                    match millis_spec(bulk_text(s[4])->Some_0) {
                        Some(n) => Some(
                            CommandModel::SetKey { key: bulk_text(s[1])->Some_0, val: s[2], expiry: Some(n) },
                        ),
                        None => None,
                    }
                } else {
                    Some(CommandModel::SetKey { key: bulk_text(s[1])->Some_0, val: s[2], expiry: None })
                }
            } else if s.len() == 2 && is_keyword(s[0], kw_echo()) && bulk_text(s[1]) is Some {
                Some(CommandModel::Echo(s[1]))
            } else if s.len() == 1 && is_keyword(s[0], kw_ping()) {
                Some(CommandModel::Ping)
            } else {
                None
            }
        },
        _ => None,
    }
}

fn lower_byte(c: u8) -> (r: u8)
    ensures
        r == lower(c),
{
    if 65u8 <= c && c <= 90u8 {
        c + 32
    } else {
        c
    }
}

fn spells_exec(t: &[u8], kw: &[u8]) -> (r: bool)
    ensures
        r == spells(t@, kw@),
{
    if t.len() != kw.len() {
        return false;
    }
    let mut i: usize = 0;
    while i < t.len()
        invariant
            t@.len() == kw@.len(),
            i <= t@.len(),
            forall|k: int| 0 <= k < i ==> lower(#[trigger] t@[k]) == kw@[k],
        decreases t@.len() - i,
    {
        if lower_byte(t[i]) != kw[i] {
            return false;
        }
        i = i + 1;
    }
    true
}

/// The text of a bulk string value.
fn bulk_of(v: &Value) -> (r: Option<&BulkString>)
    ensures
        r is Some == (bulk_text(v.model()) is Some),
        r matches Some(b) ==> *v == Value::BulkString(*b),
{
    match v {
        Value::BulkString(b) => Some(b),
        _ => None,
    }
}

fn keyword(v: &Value, kw: &[u8]) -> (r: bool)
    ensures
        r == is_keyword(v.model(), kw@),
{
    match v {
        Value::BulkString(b) => {
            let t = b.inner();
            spells_exec(t.as_str().as_bytes(), kw)
        },
        _ => false,
    }
}

fn millis_of(b: &BulkString) -> (r: Option<u64>)
    ensures
        r == millis_spec(bulk_text(Value::BulkString(*b).model())->Some_0),
{
    let t = b.inner();
    let bytes = t.as_str().as_bytes();
    if bytes.len() > 0 && bytes[0] == 45u8 {
        return None;
    }
    match parse_i64_bytes(bytes) {
        Some(n) => Some(n as u64),
        None => None,
    }
}

impl RespMessage {
    /// Classifies a request; what cannot be classified comes back with its value.
    pub fn try_from(value: Value) -> (r: Result<RespMessage, (String, Value)>)
        ensures
            match r {
                Ok(c) => classify(value.model()) == Some(c.model()),
                Err((_, v)) => classify(value.model()) is None && v.model() == value.model(),
            },
    {
        let w_get: Vec<u8> = vec![103u8, 101u8, 116u8];
        let w_keys: Vec<u8> = vec![107u8, 101u8, 121u8, 115u8];
        let w_config: Vec<u8> = vec![99u8, 111u8, 110u8, 102u8, 105u8, 103u8];
        let w_set: Vec<u8> = vec![115u8, 101u8, 116u8];
        let w_px: Vec<u8> = vec![112u8, 120u8];
        let w_echo: Vec<u8> = vec![101u8, 99u8, 104u8, 111u8];
        let w_ping: Vec<u8> = vec![112u8, 105u8, 110u8, 103u8];
        assert(w_get@ =~= kw_get());
        assert(w_keys@ =~= kw_keys());
        assert(w_config@ =~= kw_config());
        assert(w_set@ =~= kw_set());
        assert(w_px@ =~= kw_px());
        assert(w_echo@ =~= kw_echo());
        assert(w_ping@ =~= kw_ping());
        let unsupported = String::new();
        let found: Option<RespMessage> = match &value {
            Value::Array(crate::resp::Array::Items(s)) => {
                let ghost ms = value.model()->Items_0;
                assert(ms.len() == s@.len());
                let n = s.len();
                if n == 2 && keyword(&s[0], w_get.as_slice()) && bulk_of(&s[1]).is_some() {
                    Some(RespMessage::Get(s[1].bulk_inner()))
                } else if n == 2 && keyword(&s[0], w_keys.as_slice()) && bulk_of(&s[1]).is_some() {
                    Some(RespMessage::Keys(s[1].bulk_inner()))
                } else if n == 3 && keyword(&s[0], w_config.as_slice()) && keyword(&s[1], w_get.as_slice())
                    && bulk_of(&s[2]).is_some() {
                    Some(RespMessage::ConfigGet(s[2].bulk_inner()))
                } else if n >= 3 && keyword(&s[0], w_set.as_slice()) && bulk_of(&s[1]).is_some() {
                    let key = s[1].bulk_inner();
                    let val = s[2].duplicate();
                    if n >= 5 && keyword(&s[3], w_px.as_slice()) && bulk_of(&s[4]).is_some() {
                        let b = bulk_of(&s[4]).unwrap();
                        match millis_of(b) {
                            Some(ms) => Some(RespMessage::SetKey { key, val, expiry: Some(ms) }),
                            None => None,
                        }
                    } else {
                        Some(RespMessage::SetKey { key, val, expiry: None })
                    }
                } else if n == 2 && keyword(&s[0], w_echo.as_slice()) && bulk_of(&s[1]).is_some() {
                    let b = bulk_of(&s[1]).unwrap();
                    Some(RespMessage::Echo(b.duplicate()))
                } else if n == 1 && keyword(&s[0], w_ping.as_slice()) {
                    Some(RespMessage::Ping)
                } else {
                    None
                }
            },
            _ => None,
        };
        match found {
            Some(c) => Ok(c),
            None => Err((unsupported, value)),
        }
    }
}

impl Value {
    /// The text of a bulk string value; empty for any other kind.
    pub fn bulk_inner(&self) -> (r: String)
        ensures
            text(r) == crate::resp::bulk_inner(self.model()),
    {
        match self {
            Value::BulkString(b) => b.inner(),
            _ => {
                let s = String::new();
                assert(text(s) =~= Seq::<u8>::empty()) by {
                    assert(s@ =~= Seq::<char>::empty());
                }
                s
            },
        }
    }
}

/// `PING` is recognised in any mix of upper and lower case.
pub proof fn lemma_ping_any_case(t: Seq<u8>)
    requires
        spells(t, kw_ping()),
    ensures
        classify(Model::Items(seq![Model::BulkText(t)])) == Some(CommandModel::Ping),
{
}

/// Every keyword is recognised in any mix of upper and lower case: a word
/// spells a keyword exactly when its lower-cased form is the keyword.
pub proof fn lemma_keyword_case(t: Seq<u8>, kw: Seq<u8>)
    requires
        forall|i: int| 0 <= i < kw.len() ==> !(65 <= #[trigger] kw[i] <= 90),
    ensures
        spells(t, kw) <==> t.map_values(|c: u8| lower(c)) == kw,
{
    let l = t.map_values(|c: u8| lower(c));
    if spells(t, kw) {
        assert(l =~= kw);
    }
    if l == kw {
        assert forall|i: int| 0 <= i < t.len() implies lower(#[trigger] t[i]) == kw[i] by {
            assert(l[i] == lower(t[i]));
        }
    }
}

} // verus!
