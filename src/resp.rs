//! RESP wire values: their byte model, the encoder and the decoder.
use vstd::prelude::*;
use vstd::slice::slice_subrange;
use vstd::utf8::encode_utf8;
use vstd::utf8::valid_utf8;
use vstd::utf8::pop_first_scalar;
use crate::decimal::decimal;
use crate::decimal::parse_i64;
use crate::decimal::push_decimal;
use crate::decimal::push_nat_digits;
use crate::decimal::parse_i64_bytes;
use crate::decimal::lemma_parse_decimal;

verus! {

/// An error reply: a title word and the rest of the line.
#[derive(Debug, Clone, PartialEq)]
pub struct Error {
    pub title: String,
    pub message: String,
}

#[derive(Debug, Clone, PartialEq)]
pub enum BulkString {
    String(String),
    Empty,
    Null,
}

#[derive(Debug, PartialEq)]
pub enum Array {
    Items(Vec<Value>),
    Empty,
    Null,
}

#[derive(Debug, PartialEq)]
pub enum Value {
    String(String),
    BulkString(BulkString),
    Error(Error),
    Int(i64),
    Array(Array),
}

/// What a wire value is, with each text as the UTF-8 bytes it is sent as.
pub enum Model {
    Simple(Seq<u8>),
    BulkText(Seq<u8>),
    BulkEmpty,
    BulkNull,
    Error { title: Seq<u8>, message: Seq<u8> },
    Int(int),
    Items(Seq<Model>),
    ArrayEmpty,
    ArrayNull,
}

/// The bytes of a string.
pub open spec fn text(s: String) -> Seq<u8> {
    encode_utf8(s@)
}

impl Value {
    pub open spec fn model(&self) -> Model
        decreases self,
        via Self::model_decreases
    {
        match self {
            Value::String(s) => Model::Simple(text(*s)),
            Value::BulkString(BulkString::String(s)) => Model::BulkText(text(*s)),
            Value::BulkString(BulkString::Empty) => Model::BulkEmpty,
            Value::BulkString(BulkString::Null) => Model::BulkNull,
            Value::Error(e) => Model::Error { title: text(e.title), message: text(e.message) },
            Value::Int(n) => Model::Int(*n as int),
            Value::Array(Array::Items(v)) => Model::Items(
                Seq::new(
                    v@.len(),
                    |i: int|
                        if 0 <= i < v@.len() {
                            v@[i].model()
                        } else {
                            Model::ArrayNull
                        },
                ),
            ),
            Value::Array(Array::Empty) => Model::ArrayEmpty,
            Value::Array(Array::Null) => Model::ArrayNull,
        }
    }

    #[via_fn]
    proof fn model_decreases(&self) {
        if let Value::Array(Array::Items(v)) = self {
            assert forall|i: int| 0 <= i < v@.len() implies decreases_to!(self => v@[i]) by {
                assert(decreases_to!(v => v@));
                assert(decreases_to!(v@ => v@[i]));
            }
        }
    }
}

pub open spec fn crlf() -> Seq<u8> {
    seq![13u8, 10u8]
}

/// The wire bytes of a value.
pub open spec fn encoding(m: Model) -> Seq<u8>
    decreases m,
{
    match m {
        Model::Simple(t) => seq![43u8] + t + crlf(),
        Model::BulkText(t) => seq![36u8] + decimal(t.len() as int) + crlf() + t + crlf(),
        Model::BulkEmpty => seq![36u8, 48u8] + crlf() + crlf(),
        Model::BulkNull => seq![36u8, 45u8, 49u8] + crlf(),
        Model::Error { title, message } => seq![45u8] + title + (if message.len() == 0 {
            Seq::<u8>::empty()
        } else {
            seq![32u8] + message
        }) + crlf(),
        Model::Int(n) => seq![58u8] + decimal(n) + crlf(),
        Model::Items(s) => seq![42u8] + decimal(s.len() as int) + crlf() + encodings(s),
        Model::ArrayEmpty => seq![42u8, 48u8] + crlf(),
        Model::ArrayNull => seq![42u8, 45u8, 49u8] + crlf(),
    }
}

/// The wire bytes of a run of values, one after the other.
pub open spec fn encodings(s: Seq<Model>) -> Seq<u8>
    decreases s,
{
    if s.len() == 0 {
        Seq::empty()
    } else {
        encodings(s.drop_last()) + encoding(s.last())
    }
}

/// Appends `b` to `out`.
pub fn append_bytes(out: &mut Vec<u8>, b: &[u8])
    ensures
        final(out)@ == old(out)@ + b@,
{
    let ghost start = out@;
    let mut i: usize = 0;
    while i < b.len()
        invariant
            i <= b@.len(),
            out@ == start + b@.subrange(0, i as int),
        decreases b@.len() - i,
    {
        out.push(b[i]);
        i = i + 1;
        assert(out@ =~= start + b@.subrange(0, i as int));
    }
    assert(b@.subrange(0, b@.len() as int) =~= b@);
}

fn append_text(out: &mut Vec<u8>, s: &String)
    ensures
        final(out)@ == old(out)@ + text(*s),
{
    append_bytes(out, s.as_str().as_bytes());
}

fn append_crlf(out: &mut Vec<u8>)
    ensures
        final(out)@ == old(out)@ + crlf(),
{
    out.push(13u8);
    out.push(10u8);
    assert(final(out)@ =~= old(out)@ + crlf());
}

impl Value {
    /// Appends the wire bytes of this value.
    pub fn encode_into(&self, out: &mut Vec<u8>)
        ensures
            final(out)@ == old(out)@ + encoding(self.model()),
        decreases self,
    {
        let ghost start = out@;
        match self {
            Value::String(s) => {
                out.push(43u8);
                append_text(out, s);
                append_crlf(out);
            },
            Value::BulkString(BulkString::String(s)) => {
                out.push(36u8);
                let n = s.as_str().as_bytes().len();
                push_nat_digits(n as u64, out);
                append_crlf(out);
                append_text(out, s);
                append_crlf(out);
            },
            Value::BulkString(BulkString::Empty) => {
                out.push(36u8);
                out.push(48u8);
                append_crlf(out);
                append_crlf(out);
            },
            Value::BulkString(BulkString::Null) => {
                out.push(36u8);
                out.push(45u8);
                out.push(49u8);
                append_crlf(out);
            },
            Value::Error(e) => {
                out.push(45u8);
                append_text(out, &e.title);
                let m = e.message.as_str().as_bytes();
                if m.len() != 0 {
                    out.push(32u8);
                    append_bytes(out, m);
                }
                append_crlf(out);
            },
            Value::Int(n) => {
                out.push(58u8);
                push_decimal(*n, out);
                append_crlf(out);
            },
            Value::Array(Array::Items(v)) => {
                out.push(42u8);
                push_nat_digits(v.len() as u64, out);
                append_crlf(out);
                let ghost ms = self.model()->Items_0;
                let ghost head = out@;
                assert forall|k: int| 0 <= k < v@.len() implies decreases_to!(*self => v@[k]) by {
                    assert(decreases_to!(*v => v@));
                    assert(decreases_to!(v@ => v@[k]));
                }
                let mut i: usize = 0;
                while i < v.len()
                    invariant
                        i <= v@.len(),
                        ms == self.model()->Items_0,
                        *self == Value::Array(Array::Items(*v)),
                        forall|k: int| 0 <= k < v@.len() ==> decreases_to!(*self => v@[k]),
                        out@ == head + encodings(ms.take(i as int)),
                    decreases v@.len() - i,
                {
                    v[i].encode_into(out);
                    proof {
                        assert(ms.take(i + 1).drop_last() =~= ms.take(i as int));
                        assert(out@ =~= head + encodings(ms.take(i + 1)));
                    }
                    i = i + 1;
                }
                assert(ms.take(v@.len() as int) =~= ms);
            },
            Value::Array(Array::Empty) => {
                out.push(42u8);
                out.push(48u8);
                append_crlf(out);
            },
            Value::Array(Array::Null) => {
                out.push(42u8);
                out.push(45u8);
                out.push(49u8);
                append_crlf(out);
            },
        }
        assert(out@ =~= start + encoding(self.model()));
    }

    /// The wire bytes of this value.
    pub fn encode(&self) -> (r: Vec<u8>)
        ensures
            r@ == encoding(self.model()),
    {
        let mut out: Vec<u8> = Vec::new();
        self.encode_into(&mut out);
        assert(out@ =~= encoding(self.model()));
        out
    }
}

/// How deeply arrays may nest in one decoded value.
pub const MAX_DEPTH: usize = 64;

/// Why a frame could not be decoded: a missing terminator, a field that is no
/// number, a truncated body, an unknown kind byte, text that is not UTF-8, or
/// arrays nested deeper than `MAX_DEPTH`.
#[derive(Debug, Clone, Copy, PartialEq, Eq)]
pub struct DecodeError;

/// The position of the first CR LF at or after `i`.
pub open spec fn crlf_from(b: Seq<u8>, i: int) -> Option<int>
    decreases b.len() - i,
{
    if i < 0 || i + 1 >= b.len() {
        None
    } else if b[i] == 13u8 && b[i + 1] == 10u8 {
        Some(i)
    } else {
        crlf_from(b, i + 1)
    }
}

/// The position of the first byte `c` at or after `i`.
pub open spec fn byte_from(b: Seq<u8>, c: u8, i: int) -> Option<int>
    decreases b.len() - i,
{
    if i < 0 || i >= b.len() {
        None
    } else if b[i] == c {
        Some(i)
    } else {
        byte_from(b, c, i + 1)
    }
}

/// The text of an error line, split at its first space.
pub open spec fn error_spec(t: Seq<u8>) -> Option<Model> {
    let (title, message) = match byte_from(t, 32u8, 0) {
        Some(i) => (t.subrange(0, i), t.subrange(i + 1, t.len() as int)),
        None => (t, Seq::<u8>::empty()),
    };
    if valid_utf8(title) && valid_utf8(message) {
        Some(Model::Error { title, message })
    } else {
        None
    }
}

/// A bulk string whose declared length is `n` and whose body starts at `q`.
pub open spec fn bulk_spec(b: Seq<u8>, q: int, n: int) -> Option<(Model, int)> {
    if n == -1 {
        Some((Model::BulkNull, q))
    } else if n == 0 {
        if q + 1 < b.len() && b[q] == 13u8 && b[q + 1] == 10u8 {
            Some((Model::BulkEmpty, q + 2))
        } else {
            Some((Model::BulkEmpty, q))
        }
    } else if n > 0 && q + n + 2 <= b.len() && b[q + n] == 13u8 && b[q + n + 1] == 10u8
        && valid_utf8(b.subrange(q, q + n)) {
        Some((Model::BulkText(b.subrange(q, q + n)), q + n + 2))
    } else {
        None
    }
}

/// The value whose frame starts at `p`, with the position just after it;
/// arrays may nest `depth` levels.
pub open spec fn decode_spec(b: Seq<u8>, p: int, depth: nat) -> Option<(Model, int)>
    decreases depth, 0nat,
{
    if p < 0 || p >= b.len() {
        None
    } else {
        match crlf_from(b, p + 1) {
            None => None,
            Some(e) => {
                let kind = b[p];
                let t = b.subrange(p + 1, e);
                let q = e + 2;
                if kind == 43u8 {
                    if valid_utf8(t) {
                        Some((Model::Simple(t), q))
                    } else {
                        None
                    }
                } else if kind == 45u8 {
                    match error_spec(t) {
                        Some(m) => Some((m, q)),
                        None => None,
                    }
                } else if kind == 58u8 {
                    match parse_i64(t) {
                        Some(n) => Some((Model::Int(n), q)),
                        None => None,
                    }
                } else if kind == 36u8 {
                    match parse_i64(t) {
                        Some(n) => bulk_spec(b, q, n),
                        None => None,
                    }
                } else if kind == 42u8 {
                    match parse_i64(t) {
                        Some(n) => if n == -1 {
                            Some((Model::ArrayNull, q))
                        } else if n == 0 {
                            Some((Model::ArrayEmpty, q))
                        } else if n > 0 && depth > 0 {
                            match items_spec(b, q, n as nat, (depth - 1) as nat) {
                                Some((s, r)) => Some((Model::Items(s), r)),
                                None => None,
                            }
                        } else {
                            None
                        },
                        None => None,
                    }
                } else {
                    None
                }
            },
        }
    }
}

/// `n` values one after the other from `p`, with the position after the last.
pub open spec fn items_spec(b: Seq<u8>, p: int, n: nat, depth: nat) -> Option<(Seq<Model>, int)>
    decreases depth, n + 1,
{
    if n == 0 {
        Some((Seq::empty(), p))
    } else {
        match decode_spec(b, p, depth) {
            Some((m, q)) => match items_spec(b, q, (n - 1) as nat, depth) {
                Some((s, r)) => Some((seq![m] + s, r)),
                None => None,
            },
            None => None,
        }
    }
}

/// Relies on `std::str::from_utf8`: it accepts exactly the valid UTF-8 byte
/// sequences, and the text it gives is those bytes.
#[verifier::external_body]
pub(crate) fn utf8_text(b: &[u8]) -> (r: Option<String>)
    ensures
        r is Some <==> valid_utf8(b@),
        r matches Some(s) ==> text(s) == b@,
{
    std::str::from_utf8(b).ok().map(String::from)
}

proof fn lemma_crlf_from_bounds(b: Seq<u8>, i: int)
    ensures
        crlf_from(b, i) matches Some(e) ==> i <= e && e + 1 < b.len() && b[e] == 13u8 && b[e + 1] == 10u8,
    decreases b.len() - i,
{
    if !(i < 0 || i + 1 >= b.len()) && !(b[i] == 13u8 && b[i + 1] == 10u8) {
        lemma_crlf_from_bounds(b, i + 1);
    }
}

proof fn lemma_byte_from_bounds(b: Seq<u8>, c: u8, i: int)
    ensures
        byte_from(b, c, i) matches Some(e) ==> i <= e < b.len() && b[e] == c,
    decreases b.len() - i,
{
    if !(i < 0 || i >= b.len()) && b[i] != c {
        lemma_byte_from_bounds(b, c, i + 1);
    }
}

fn find_crlf(b: &[u8], i: usize) -> (r: Option<usize>)
    ensures
        r matches Some(e) ==> i <= e && e + 1 < b@.len(),
        match r {
            Some(e) => crlf_from(b@, i as int) == Some(e as int),
            None => crlf_from(b@, i as int) is None,
        },
{
    proof {
        lemma_crlf_from_bounds(b@, i as int);
    }
    let mut j: usize = i;
    while j < b.len() && j + 1 < b.len()
        invariant
            i <= j,
            crlf_from(b@, i as int) == crlf_from(b@, j as int),
        decreases b@.len() - j,
    {
        if b[j] == 13u8 && b[j + 1] == 10u8 {
            return Some(j);
        }
        j = j + 1;
    }
    None
}

fn find_byte(b: &[u8], c: u8) -> (r: Option<usize>)
    ensures
        r matches Some(e) ==> e < b.len(),
        match r {
            Some(e) => byte_from(b@, c, 0) == Some(e as int),
            None => byte_from(b@, c, 0) is None,
        },
{
    proof {
        lemma_byte_from_bounds(b@, c, 0);
    }
    let mut j: usize = 0;
    while j < b.len()
        invariant
            byte_from(b@, c, 0) == byte_from(b@, c, j as int),
        decreases b@.len() - j,
    {
        if b[j] == c {
            return Some(j);
        }
        j = j + 1;
    }
    None
}

fn decode_error_line(t: &[u8]) -> (r: Option<Value>)
    ensures
        match r {
            Some(v) => error_spec(t@) == Some(v.model()),
            None => error_spec(t@) is None,
        },
{
    let (title, message) = match find_byte(t, 32u8) {
        Some(i) => (slice_subrange(t, 0, i), slice_subrange(t, i + 1, t.len())),
        None => (t, slice_subrange(t, 0, 0)),
    };
    assert(match byte_from(t@, 32u8, 0) {
        Some(i) => title@ == t@.subrange(0, i) && message@ == t@.subrange(i + 1, t@.len() as int),
        None => title@ == t@ && message@ == Seq::<u8>::empty(),
    });
    match (utf8_text(title), utf8_text(message)) {
        (Some(title), Some(message)) => Some(Value::Error(Error { title, message })),
        _ => None,
    }
}

/// Decodes the frame that starts at `p`, arrays nesting at most `depth` levels.
fn decode_at(b: &[u8], p: usize, depth: usize) -> (r: Option<(Value, usize)>)
    ensures
        match r {
            Some((v, q)) => decode_spec(b@, p as int, depth as nat) == Some((v.model(), q as int))
                && q <= b@.len(),
            None => decode_spec(b@, p as int, depth as nat) is None,
        },
    decreases depth, 0nat,
{
    if p >= b.len() {
        return None;
    }
    let e = match find_crlf(b, p + 1) {
        Some(e) => e,
        None => return None,
    };
    let kind = b[p];
    let t = slice_subrange(b, p + 1, e);
    let q = e + 2;
    if kind == 43u8 {
        match utf8_text(t) {
            Some(s) => Some((Value::String(s), q)),
            None => None,
        }
    } else if kind == 45u8 {
        match decode_error_line(t) {
            Some(v) => Some((v, q)),
            None => None,
        }
    } else if kind == 58u8 {
        match parse_i64_bytes(t) {
            Some(n) => Some((Value::Int(n), q)),
            None => None,
        }
    } else if kind == 36u8 {
        let n = match parse_i64_bytes(t) {
            Some(n) => n,
            None => return None,
        };
        if n == -1 {
            Some((Value::BulkString(BulkString::Null), q))
        } else if n == 0 {
            if q < b.len() && b.len() - q >= 2 && b[q] == 13u8 && b[q + 1] == 10u8 {
                Some((Value::BulkString(BulkString::Empty), q + 2))
            } else {
                Some((Value::BulkString(BulkString::Empty), q))
            }
        } else if n > 0 && (n as u64) <= (b.len() - q) as u64 && b.len() - q - (n as usize) >= 2 {
            let end = q + n as usize;
            if b[end] == 13u8 && b[end + 1] == 10u8 {
                match utf8_text(slice_subrange(b, q, end)) {
                    Some(s) => Some((Value::BulkString(BulkString::String(s)), end + 2)),
                    None => None,
                }
            } else {
                None
            }
        } else {
            None
        }
    } else if kind == 42u8 {
        let n = match parse_i64_bytes(t) {
            Some(n) => n,
            None => return None,
        };
        if n == -1 {
            Some((Value::Array(Array::Null), q))
        } else if n == 0 {
            Some((Value::Array(Array::Empty), q))
        } else if n > 0 && depth > 0 {
            match decode_items(b, q, n as u64, depth - 1) {
                Some((v, r)) => {
                    let ghost ms = Seq::new(v@.len(), |i: int| v@[i].model());
                    let a = Value::Array(Array::Items(v));
                    assert(a.model()->Items_0 =~= ms);
                    Some((a, r))
                },
                None => None,
            }
        } else {
            None
        }
    } else {
        None
    }
}

/// Decodes `n` frames one after the other from `p`.
fn decode_items(b: &[u8], p: usize, n: u64, depth: usize) -> (r: Option<(Vec<Value>, usize)>)
    requires
        p <= b@.len(),
    ensures
        match r {
            Some((v, q)) => items_spec(b@, p as int, n as nat, depth as nat) == Some((
                Seq::new(v@.len(), |i: int| v@[i].model()),
                q as int,
            )) && q <= b@.len(),
            None => items_spec(b@, p as int, n as nat, depth as nat) is None,
        },
    decreases depth, 1nat,
{
    let mut out: Vec<Value> = Vec::new();
    let mut pos: usize = p;
    let mut k: u64 = 0;
    while k < n
        invariant
            k <= n,
            pos <= b@.len(),
            out@.len() == k,
            items_spec(b@, p as int, n as nat, depth as nat) == match items_spec(
                b@,
                pos as int,
                (n - k) as nat,
                depth as nat,
            ) {
                Some((s, r)) => Some((Seq::new(out@.len(), |i: int| out@[i].model()) + s, r)),
                None => None,
            },
        decreases n - k,
    {
        match decode_at(b, pos, depth) {
            Some((v, q)) => {
                let ghost before = Seq::new(out@.len(), |i: int| out@[i].model());
                out.push(v);
                proof {
                    let after = Seq::new(out@.len(), |i: int| out@[i].model());
                    assert(after =~= before.push(v.model()));
                    match items_spec(b@, q as int, (n - k - 1) as nat, depth as nat) {
                        Some((s, r)) => {
                            assert(before + (seq![v.model()] + s) =~= after + s);
                        },
                        None => {},
                    }
                }
                pos = q;
                k = k + 1;
            },
            None => {
                return None;
            },
        }
    }
    proof {
        let ms = Seq::new(out@.len(), |i: int| out@[i].model());
        assert(ms + Seq::<Model>::empty() =~= ms);
    }
    Some((out, pos))
}

/// The value that a buffer starts with, and the bytes after its frame.
pub open spec fn decode(b: Seq<u8>) -> Option<(Model, Seq<u8>)> {
    match decode_spec(b, 0, MAX_DEPTH as nat) {
        Some((m, q)) => Some((m, b.subrange(q, b.len() as int))),
        None => None,
    }
}

/// `decode`, for a buffer whose first byte is `kind`.
pub open spec fn decode_kind(b: Seq<u8>, kind: u8) -> Option<(Model, Seq<u8>)> {
    if b.len() > 0 && b[0] == kind {
        decode(b)
    } else {
        None
    }
}

/// A decoding result agrees with `expected`.
pub open spec fn decoded_as(r: Result<(&[u8], Value), DecodeError>, expected: Option<(Model, Seq<u8>)>) -> bool {
    match r {
        Ok((rest, v)) => expected == Some((v.model(), rest@)),
        Err(_) => expected is None,
    }
}

/// Decodes the value that `input` starts with; the rest of `input` is handed back.
pub fn parser(input: &[u8]) -> (r: Result<(&[u8], Value), DecodeError>)
    ensures
        decoded_as(r, decode(input@)),
{
    match decode_at(input, 0, MAX_DEPTH) {
        Some((v, q)) => Ok((slice_subrange(input, q, input.len()), v)),
        None => Err(DecodeError),
    }
}

fn parse_kind(input: &[u8], kind: u8) -> (r: Result<(&[u8], Value), DecodeError>)
    ensures
        decoded_as(r, decode_kind(input@, kind)),
{
    if input.len() > 0 && input[0] == kind {
        parser(input)
    } else {
        Err(DecodeError)
    }
}

/// Decodes a simple string frame, `+<text>\r\n`.
pub fn simple_str(input: &[u8]) -> (r: Result<(&[u8], Value), DecodeError>)
    ensures
        decoded_as(r, decode_kind(input@, 43u8)),
{
    parse_kind(input, 43u8)
}

/// Decodes an error frame, `-<title> <message>\r\n`.
pub fn error(input: &[u8]) -> (r: Result<(&[u8], Value), DecodeError>)
    ensures
        decoded_as(r, decode_kind(input@, 45u8)),
{
    parse_kind(input, 45u8)
}

/// Decodes an integer frame, `:<number>\r\n`.
pub fn integer(input: &[u8]) -> (r: Result<(&[u8], Value), DecodeError>)
    ensures
        decoded_as(r, decode_kind(input@, 58u8)),
{
    parse_kind(input, 58u8)
}

/// Decodes a bulk string frame, `$<len>\r\n<bytes>\r\n`.
pub fn bulk_str(input: &[u8]) -> (r: Result<(&[u8], Value), DecodeError>)
    ensures
        decoded_as(r, decode_kind(input@, 36u8)),
{
    parse_kind(input, 36u8)
}

/// Decodes an array frame, `*<count>\r\n` and that many frames.
pub fn arr(input: &[u8]) -> (r: Result<(&[u8], Value), DecodeError>)
    ensures
        decoded_as(r, decode_kind(input@, 42u8)),
{
    parse_kind(input, 42u8)
}

impl BulkString {
    /// The text of a bulk string; empty for the empty and the null string.
    pub fn inner(&self) -> (r: String)
        ensures
            text(r) == bulk_inner(Value::BulkString(*self).model()),
    {
        match self {
            BulkString::String(s) => s.clone(),
            _ => {
                let s = String::new();
                assert(text(s) =~= Seq::<u8>::empty()) by {
                    assert(s@ =~= Seq::<char>::empty());
                }
                s
            },
        }
    }

    pub fn duplicate(&self) -> (r: BulkString)
        ensures
            Value::BulkString(r).model() == Value::BulkString(*self).model(),
    {
        match self {
            BulkString::String(s) => BulkString::String(s.clone()),
            BulkString::Empty => BulkString::Empty,
            BulkString::Null => BulkString::Null,
        }
    }
}

/// The text of a bulk string model; `None` for any other kind.
pub open spec fn bulk_text(m: Model) -> Option<Seq<u8>> {
    match m {
        Model::BulkText(t) => Some(t),
        Model::BulkEmpty => Some(Seq::empty()),
        Model::BulkNull => Some(Seq::empty()),
        _ => None,
    }
}

pub open spec fn bulk_inner(m: Model) -> Seq<u8> {
    match bulk_text(m) {
        Some(t) => t,
        None => Seq::empty(),
    }
}

impl Value {
    /// A copy of this value.
    pub fn duplicate(&self) -> (r: Value)
        ensures
            r.model() == self.model(),
        decreases self,
    {
        match self {
            Value::String(s) => Value::String(s.clone()),
            Value::BulkString(b) => Value::BulkString(b.duplicate()),
            Value::Error(e) => Value::Error(Error { title: e.title.clone(), message: e.message.clone() }),
            Value::Int(n) => Value::Int(*n),
            Value::Array(Array::Items(v)) => {
                assert forall|k: int| 0 <= k < v@.len() implies decreases_to!(*self => v@[k]) by {
                    assert(decreases_to!(*v => v@));
                    assert(decreases_to!(v@ => v@[k]));
                }
                let mut out: Vec<Value> = Vec::new();
                let mut i: usize = 0;
                while i < v.len()
                    invariant
                        i <= v@.len(),
                        out@.len() == i,
                        *self == Value::Array(Array::Items(*v)),
                        forall|k: int| 0 <= k < v@.len() ==> decreases_to!(*self => v@[k]),
                        forall|k: int| 0 <= k < i ==> (#[trigger] out@[k]).model() == v@[k].model(),
                    decreases v@.len() - i,
                {
                    let c = v[i].duplicate();
                    out.push(c);
                    i = i + 1;
                }
                let r = Value::Array(Array::Items(out));
                assert(r.model()->Items_0 =~= self.model()->Items_0);
                r
            },
            Value::Array(Array::Empty) => Value::Array(Array::Empty),
            Value::Array(Array::Null) => Value::Array(Array::Null),
        }
    }
}

impl From<BulkString> for Value {
    fn from(value: BulkString) -> (r: Value) {
        Value::BulkString(value)
    }
}

impl vstd::std_specs::convert::FromSpecImpl<BulkString> for Value {
    open spec fn obeys_from_spec() -> bool {
        true
    }

    open spec fn from_spec(v: BulkString) -> Value {
        Value::BulkString(v)
    }
}

impl From<Array> for Value {
    fn from(value: Array) -> (r: Value) {
        Value::Array(value)
    }
}

impl vstd::std_specs::convert::FromSpecImpl<Array> for Value {
    open spec fn obeys_from_spec() -> bool {
        true
    }

    open spec fn from_spec(v: Array) -> Value {
        Value::Array(v)
    }
}

/// Bytes below 128 are valid UTF-8.
pub proof fn lemma_ascii_valid_utf8(b: Seq<u8>)
    requires
        forall|i: int| 0 <= i < b.len() ==> #[trigger] b[i] < 128,
    ensures
        valid_utf8(b),
    decreases b.len(),
{
    if b.len() > 0 {
        let rest = b.subrange(1, b.len() as int);
        assert forall|i: int| 0 <= i < rest.len() implies #[trigger] rest[i] < 128 by {
            assert(rest[i] == b[i + 1]);
        }
        lemma_ascii_valid_utf8(rest);
        assert(pop_first_scalar(b) =~= rest);
    }
}

pub fn bytes_equal(a: &[u8], b: &[u8]) -> (r: bool)
    ensures
        r == (a@ == b@),
{
    if a.len() != b.len() {
        return false;
    }
    let mut i: usize = 0;
    while i < a.len()
        invariant
            a@.len() == b@.len(),
            i <= a@.len(),
            forall|k: int| 0 <= k < i ==> a@[k] == b@[k],
        decreases a@.len() - i,
    {
        if a[i] != b[i] {
            return false;
        }
        i = i + 1;
    }
    assert(a@ =~= b@);
    true
}

/// A string of ASCII bytes.
pub fn ascii_string(b: &[u8]) -> (r: String)
    requires
        forall|i: int| 0 <= i < b@.len() ==> #[trigger] b@[i] < 128,
    ensures
        text(r) == b@,
{
    proof {
        lemma_ascii_valid_utf8(b@);
    }
    match utf8_text(b) {
        Some(s) => s,
        None => String::new(),
    }
}

/// No byte of `t` is `c`.
pub open spec fn no_byte(t: Seq<u8>, c: u8) -> bool {
    forall|i: int| 0 <= i < t.len() ==> #[trigger] t[i] != c
}

/// A value that its encoding brings back: texts are UTF-8, line texts hold no
/// CR, an error title holds no space, a bulk text or an array is not empty
/// (those have encodings of their own), numbers fit in `i64`, and arrays nest
/// at most `depth` levels.
pub open spec fn well_formed(m: Model, depth: nat) -> bool
    decreases depth,
{
    match m {
        Model::Simple(t) => valid_utf8(t) && no_byte(t, 13u8),
        Model::BulkText(t) => valid_utf8(t) && 0 < t.len() <= i64::MAX,
        Model::Error { title, message } => valid_utf8(title) && valid_utf8(message) && no_byte(title, 13u8)
            && no_byte(title, 32u8) && no_byte(message, 13u8),
        Model::Int(n) => i64::MIN <= n <= i64::MAX,
        Model::Items(s) => depth > 0 && 0 < s.len() <= i64::MAX && forall|i: int|
            0 <= i < s.len() ==> well_formed(#[trigger] s[i], (depth - 1) as nat),
        _ => true,
    }
}

proof fn lemma_at(pre: Seq<u8>, e: Seq<u8>, rest: Seq<u8>, k: int)
    requires
        0 <= k < e.len(),
    ensures
        (pre + e + rest)[pre.len() + k] == e[k],
{
}

proof fn lemma_crlf_at(b: Seq<u8>, i: int, j: int)
    requires
        0 <= i <= j,
        j + 1 < b.len(),
        b[j] == 13u8,
        b[j + 1] == 10u8,
        forall|k: int| i <= k < j ==> #[trigger] b[k] != 13u8,
    ensures
        crlf_from(b, i) == Some(j),
    decreases j - i,
{
    if i < j {
        lemma_crlf_at(b, i + 1, j);
    }
}

proof fn lemma_byte_at(b: Seq<u8>, c: u8, i: int, j: int)
    requires
        0 <= i <= j < b.len(),
        b[j] == c,
        forall|k: int| i <= k < j ==> #[trigger] b[k] != c,
    ensures
        byte_from(b, c, i) == Some(j),
    decreases j - i,
{
    if i < j {
        lemma_byte_at(b, c, i + 1, j);
    }
}

proof fn lemma_byte_none(b: Seq<u8>, c: u8, i: int)
    requires
        0 <= i,
        forall|k: int| i <= k < b.len() ==> #[trigger] b[k] != c,
    ensures
        byte_from(b, c, i) is None,
    decreases b.len() - i,
{
    if i < b.len() {
        lemma_byte_none(b, c, i + 1);
    }
}

/// The line `head` + `t` + CR LF at `p` of `b` is found and read back.
proof fn lemma_line(pre: Seq<u8>, kind: u8, t: Seq<u8>, tail: Seq<u8>)
    requires
        no_byte(t, 13u8),
    ensures
        ({
            let b = pre + (seq![kind] + t + crlf() + tail);
            let p = pre.len() as int;
            &&& b[p] == kind
            &&& crlf_from(b, p + 1) == Some(p + 1 + t.len())
            &&& b.subrange(p + 1, p + 1 + t.len()) == t
        }),
{
    let e = seq![kind] + t + crlf() + tail;
    let b = pre + e;
    let p = pre.len() as int;
    assert(b == pre + e + Seq::<u8>::empty());
    lemma_at(pre, e, Seq::<u8>::empty(), 0);
    assert(e[0] == kind);
    let j = p + 1 + t.len();
    lemma_at(pre, e, Seq::<u8>::empty(), 1 + t.len() as int);
    lemma_at(pre, e, Seq::<u8>::empty(), 2 + t.len() as int);
    assert(e[1 + t.len() as int] == 13u8);
    assert(e[2 + t.len() as int] == 10u8);
    assert forall|k: int| p + 1 <= k < j implies #[trigger] b[k] != 13u8 by {
        lemma_at(pre, e, Seq::<u8>::empty(), k - p);
        assert(e[k - p] == t[k - p - 1]);
    }
    lemma_crlf_at(b, p + 1, j);
    assert(b.subrange(p + 1, j) =~= t);
}

/// Read from the front, a run's encodings start with its first value.
proof fn lemma_encodings_front(s: Seq<Model>)
    requires
        s.len() > 0,
    ensures
        encodings(s) == encoding(s[0]) + encodings(s.drop_first()),
    decreases s.len(),
{
    if s.len() == 1 {
        assert(s.drop_last() =~= Seq::<Model>::empty());
        assert(s.drop_first() =~= Seq::<Model>::empty());
        assert(encodings(s) =~= encoding(s[0]) + encodings(s.drop_first()));
    } else {
        lemma_encodings_front(s.drop_last());
        assert(s.drop_last().drop_first() =~= s.drop_first().drop_last());
        assert(s.drop_first().last() == s.last());
        assert(encodings(s) =~= encoding(s[0]) + encodings(s.drop_first()));
    }
}

/// A frame whose header line is `kind` + `d` + CR LF, read at `p`.
proof fn lemma_header(pre: Seq<u8>, kind: u8, d: Seq<u8>, tail: Seq<u8>, n: int)
    requires
        no_byte(d, 13u8),
        parse_i64(d) == Some(n),
    ensures
        ({
            let b = pre + (seq![kind] + d + crlf() + tail);
            let p = pre.len() as int;
            &&& b[p] == kind
            &&& crlf_from(b, p + 1) == Some(p + 1 + d.len())
            &&& parse_i64(b.subrange(p + 1, p + 1 + d.len())) == Some(n)
        }),
{
    lemma_line(pre, kind, d, tail);
}

proof fn lemma_decimal_field(n: int)
    requires
        i64::MIN <= n <= i64::MAX,
    ensures
        no_byte(decimal(n), 13u8),
        parse_i64(decimal(n)) == Some(n),
{
    lemma_parse_decimal(n);
}

proof fn lemma_enc_simple(pre: Seq<u8>, t: Seq<u8>, rest: Seq<u8>, depth: nat)
    requires
        well_formed(Model::Simple(t), depth),
    ensures
        decode_spec(pre + encoding(Model::Simple(t)) + rest, pre.len() as int, depth) == Some((
            Model::Simple(t),
            pre.len() + encoding(Model::Simple(t)).len() as int,
        )),
{
    let b = pre + encoding(Model::Simple(t)) + rest;
    assert(b =~= pre + (seq![43u8] + t + crlf() + rest));
    lemma_line(pre, 43u8, t, rest);
}

proof fn lemma_enc_int(pre: Seq<u8>, n: int, rest: Seq<u8>, depth: nat)
    requires
        well_formed(Model::Int(n), depth),
    ensures
        decode_spec(pre + encoding(Model::Int(n)) + rest, pre.len() as int, depth) == Some((
            Model::Int(n),
            pre.len() + encoding(Model::Int(n)).len() as int,
        )),
{
    let d = decimal(n);
    lemma_decimal_field(n);
    let b = pre + encoding(Model::Int(n)) + rest;
    assert(b =~= pre + (seq![58u8] + d + crlf() + rest));
    lemma_header(pre, 58u8, d, rest, n);
}

proof fn lemma_enc_bulk(pre: Seq<u8>, t: Seq<u8>, rest: Seq<u8>, depth: nat)
    requires
        well_formed(Model::BulkText(t), depth),
    ensures
        decode_spec(pre + encoding(Model::BulkText(t)) + rest, pre.len() as int, depth) == Some((
            Model::BulkText(t),
            pre.len() + encoding(Model::BulkText(t)).len() as int,
        )),
{
    let n = t.len() as int;
    let d = decimal(n);
    lemma_decimal_field(n);
    let p = pre.len() as int;
    let b = pre + encoding(Model::BulkText(t)) + rest;
    let tail = t + crlf() + rest;
    assert(b =~= pre + (seq![36u8] + d + crlf() + tail));
    lemma_header(pre, 36u8, d, tail, n);
    let q = p + 1 + d.len() + 2;
    let pre2 = pre + seq![36u8] + d + crlf();
    assert(pre2.len() == q);
    assert(b =~= (pre2 + t) + (crlf() + rest) + Seq::<u8>::empty());
    assert(b.subrange(q, q + n) =~= t);
    lemma_at(pre2 + t, crlf() + rest, Seq::<u8>::empty(), 0);
    lemma_at(pre2 + t, crlf() + rest, Seq::<u8>::empty(), 1);
}

proof fn lemma_enc_fixed(pre: Seq<u8>, m: Model, rest: Seq<u8>, depth: nat)
    requires
        m is BulkEmpty || m is BulkNull || m is ArrayEmpty || m is ArrayNull,
    ensures
        decode_spec(pre + encoding(m) + rest, pre.len() as int, depth) == Some((m, pre.len() + encoding(m).len() as int)),
{
    let b = pre + encoding(m) + rest;
    let kind: u8 = if m is BulkEmpty || m is BulkNull { 36u8 } else { 42u8 };
    let n: int = if m is BulkEmpty || m is ArrayEmpty { 0 } else { -1 };
    let d = decimal(n);
    lemma_decimal_field(n);
    assert(decimal(0) =~= seq![48u8]);
    assert(decimal(-1) =~= seq![45u8, 49u8]);
    if m is BulkEmpty {
        let tail = crlf() + rest;
        assert(b =~= pre + (seq![kind] + d + crlf() + tail));
        lemma_header(pre, kind, d, tail, n);
        let pre2 = pre + seq![36u8] + d + crlf();
        assert(b =~= pre2 + crlf() + rest);
        lemma_at(pre2, crlf(), rest, 0);
        lemma_at(pre2, crlf(), rest, 1);
    } else {
        assert(b =~= pre + (seq![kind] + d + crlf() + rest));
        lemma_header(pre, kind, d, rest, n);
    }
}

proof fn lemma_enc_error(pre: Seq<u8>, title: Seq<u8>, message: Seq<u8>, rest: Seq<u8>, depth: nat)
    requires
        well_formed(Model::Error { title, message }, depth),
    ensures
        decode_spec(pre + encoding(Model::Error { title, message }) + rest, pre.len() as int, depth) == Some((
            Model::Error { title, message },
            pre.len() + encoding(Model::Error { title, message }).len() as int,
        )),
{
    let m = Model::Error { title, message };
    let b = pre + encoding(m) + rest;
    let sep = if message.len() == 0 {
        Seq::<u8>::empty()
    } else {
        seq![32u8] + message
    };
    let t = title + sep;
    assert(no_byte(t, 13u8)) by {
        assert forall|i: int| 0 <= i < t.len() implies #[trigger] t[i] != 13u8 by {
            if i < title.len() {
                assert(t[i] == title[i]);
            } else if i > title.len() {
                assert(t[i] == message[i - title.len() - 1]);
            }
        }
    }
    assert(b =~= pre + (seq![45u8] + t + crlf() + rest));
    lemma_line(pre, 45u8, t, rest);
    if message.len() == 0 {
        assert(t =~= title);
        assert(message =~= Seq::<u8>::empty());
        lemma_byte_none(t, 32u8, 0);
        assert(error_spec(t) == Some(m));
    } else {
        assert forall|k: int| 0 <= k < title.len() implies #[trigger] t[k] != 32u8 by {
            assert(t[k] == title[k]);
        }
        assert(t[title.len() as int] == 32u8);
        lemma_byte_at(t, 32u8, 0, title.len() as int);
        assert(t.subrange(0, title.len() as int) =~= title);
        assert(t.subrange(title.len() as int + 1, t.len() as int) =~= message);
        assert(error_spec(t) == Some(m));
    }
}

proof fn lemma_decode_encoding(pre: Seq<u8>, m: Model, rest: Seq<u8>, depth: nat)
    requires
        well_formed(m, depth),
    ensures
        decode_spec(pre + encoding(m) + rest, pre.len() as int, depth) == Some((m, pre.len() + encoding(m).len() as int)),
    decreases depth, 0nat,
{
    match m {
        Model::Simple(t) => lemma_enc_simple(pre, t, rest, depth),
        Model::Int(n) => lemma_enc_int(pre, n, rest, depth),
        Model::BulkText(t) => lemma_enc_bulk(pre, t, rest, depth),
        Model::Error { title, message } => lemma_enc_error(pre, title, message, rest, depth),
        Model::Items(s) => {
            let n = s.len() as int;
            let d = decimal(n);
            lemma_decimal_field(n);
            let b = pre + encoding(m) + rest;
            let tail = encodings(s) + rest;
            assert(b =~= pre + (seq![42u8] + d + crlf() + tail));
            lemma_header(pre, 42u8, d, tail, n);
            let pre2 = pre + seq![42u8] + d + crlf();
            assert(b =~= pre2 + encodings(s) + rest);
            lemma_items(pre2, s, rest, (depth - 1) as nat);
        },
        _ => lemma_enc_fixed(pre, m, rest, depth),
    }
}

proof fn lemma_items(pre: Seq<u8>, s: Seq<Model>, rest: Seq<u8>, depth: nat)
    requires
        forall|i: int| 0 <= i < s.len() ==> well_formed(#[trigger] s[i], depth),
    ensures
        items_spec(pre + encodings(s) + rest, pre.len() as int, s.len(), depth) == Some((s, pre.len() + encodings(s).len() as int)),
    decreases depth, s.len() + 1,
{
    if s.len() == 0 {
        assert(s =~= Seq::<Model>::empty());
    } else {
        lemma_encodings_front(s);
        let tl = s.drop_first();
        let e0 = encoding(s[0]);
        let b = pre + encodings(s) + rest;
        assert(b =~= pre + e0 + (encodings(tl) + rest));
        lemma_decode_encoding(pre, s[0], encodings(tl) + rest, depth);
        assert(b =~= (pre + e0) + encodings(tl) + rest);
        assert forall|i: int| 0 <= i < tl.len() implies well_formed(#[trigger] tl[i], depth) by {
            assert(tl[i] == s[i + 1]);
        }
        lemma_items(pre + e0, tl, rest, depth);
        assert(seq![s[0]] + tl =~= s);
    }
}

/// Decoding the encoding of a well-formed value gives the value back and
/// hands back untouched whatever bytes follow its frame.
pub proof fn lemma_round_trip(m: Model, rest: Seq<u8>)
    requires
        well_formed(m, MAX_DEPTH as nat),
    ensures
        decode(encoding(m) + rest) == Some((m, rest)),
{
    lemma_decode_encoding(Seq::empty(), m, rest, MAX_DEPTH as nat);
    assert(Seq::<u8>::empty() + encoding(m) + rest =~= encoding(m) + rest);
    let b = encoding(m) + rest;
    assert(b.subrange(encoding(m).len() as int, b.len() as int) =~= rest);
}

/// The canonical bytes of a well-formed value decode to a value whose
/// encoding is those bytes again, with nothing left over.
pub proof fn lemma_canonical_bytes(b: Seq<u8>, m: Model)
    requires
        well_formed(m, MAX_DEPTH as nat),
        b == encoding(m),
    ensures
        decode(b) matches Some((d, rest)) && encoding(d) == b && rest.len() == 0,
{
    lemma_round_trip(m, Seq::empty());
    assert(b + Seq::<u8>::empty() =~= b);
}

proof fn lemma_items_count(b: Seq<u8>, p: int, n: nat, depth: nat)
    ensures
        items_spec(b, p, n, depth) matches Some((s, _)) ==> s.len() == n,
    decreases n,
{
    if n > 0 {
        if let Some((_, q)) = decode_spec(b, p, depth) {
            lemma_items_count(b, q, (n - 1) as nat, depth);
        }
    }
}

proof fn lemma_decode_bound(b: Seq<u8>, p: int, depth: nat)
    ensures
        decode_spec(b, p, depth) matches Some((_, q)) ==> p <= q <= b.len(),
    decreases depth, 0nat,
{
    if 0 <= p < b.len() {
        lemma_crlf_from_bounds(b, p + 1);
        if let Some(e) = crlf_from(b, p + 1) {
            if b[p] == 42u8 && depth > 0 {
                if let Some(n) = parse_i64(b.subrange(p + 1, e)) {
                    if n > 0 {
                        lemma_items_bound(b, e + 2, n as nat, (depth - 1) as nat);
                    }
                }
            }
        }
    }
}

proof fn lemma_items_bound(b: Seq<u8>, p: int, n: nat, depth: nat)
    requires
        0 <= p <= b.len(),
    ensures
        items_spec(b, p, n, depth) matches Some((_, q)) ==> p <= q <= b.len(),
    decreases depth, n + 1,
{
    if n > 0 {
        lemma_decode_bound(b, p, depth);
        if let Some((_, q)) = decode_spec(b, p, depth) {
            lemma_items_bound(b, q, (n - 1) as nat, depth);
        }
    }
}

/// An array decodes to exactly as many values as its header declares, and
/// the bytes after its frame are handed back untouched.
pub proof fn lemma_array_count(b: Seq<u8>)
    ensures
        decode(b) matches Some((Model::Items(s), rest)) ==> {
            &&& b[0] == 42u8
            &&& crlf_from(b, 1) matches Some(e) && parse_i64(b.subrange(1, e)) == Some(s.len() as int)
            &&& rest == b.subrange(b.len() - rest.len(), b.len() as int)
        },
{
    if let Some((Model::Items(s), rest)) = decode(b) {
        let depth = MAX_DEPTH as nat;
        lemma_decode_bound(b, 0, depth);
        let q = decode_spec(b, 0, depth)->Some_0.1;
        assert(rest == b.subrange(q, b.len() as int));
        lemma_crlf_from_bounds(b, 1);
        let e = crlf_from(b, 1)->Some_0;
        let t = b.subrange(1, e);
        assert(b[0] == 42u8);
        let n = parse_i64(t)->Some_0;
        assert(n > 0);
        assert(items_spec(b, e + 2, n as nat, (depth - 1) as nat) == Some((s, q)));
        lemma_items_count(b, e + 2, n as nat, (depth - 1) as nat);
    }
}

} // verus!
