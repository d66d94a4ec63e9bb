//! The RDB snapshot format: a header, auxiliary fields and databases of
//! key-value records, decoded forward only.
use vstd::prelude::*;
use vstd::slice::slice_subrange;
use vstd::utf8::valid_utf8;
use crate::decimal::decimal;
use crate::decimal::push_decimal;
use crate::decimal::lemma_decimal_ascii;
use crate::resp::text;
use crate::resp::utf8_text;
use crate::resp::bytes_equal;
use crate::resp::lemma_ascii_valid_utf8;

verus! {

/// Why a snapshot could not be decoded.
#[derive(Debug, Clone, Copy, PartialEq, Eq)]
pub enum RdbError {
    BadMagic,
    BadVersion,
    BadLengthEncoding,
    UnsupportedSpecialEncoding,
    UnsupportedCompression,
    UnsupportedValueType,
    InvalidUtf8,
    /// The input ended inside a record.
    Truncated,
}

/// A length field: a plain number, or the selector of a special encoding.
#[derive(Debug, Clone, Copy, PartialEq, Eq)]
pub enum LenEncoded {
    Num(u32),
    Special(u8),
}

/// A string of the snapshot: an integer shown as decimal text, UTF-8 text,
/// or a compressed payload that is never decoded.
#[derive(Debug, PartialEq)]
pub enum DBString {
    Int(i32),
    Str(String),
    Lzf { clen: u32, ulen: u32, data: Vec<u8> },
}

/// What a snapshot string is.
pub enum StrModel {
    Int(int),
    Text(Seq<u8>),
    Compressed,
}

impl DBString {
    pub open spec fn model(&self) -> StrModel {
        match self {
            DBString::Int(n) => StrModel::Int(*n as int),
            DBString::Str(s) => StrModel::Text(text(*s)),
            DBString::Lzf { .. } => StrModel::Compressed,
        }
    }
}

/// The text that a snapshot string stands for.
pub open spec fn str_text(m: StrModel) -> Seq<u8> {
    match m {
        StrModel::Int(n) => decimal(n),
        StrModel::Text(t) => t,
        StrModel::Compressed => Seq::empty(),
    }
}

/// A value of a key-value record; only strings are supported.
#[derive(Debug, PartialEq)]
pub enum Value {
    String(DBString),
}

impl Value {
    pub open spec fn model(&self) -> StrModel {
        match self {
            Value::String(s) => s.model(),
        }
    }
}

#[derive(Debug, PartialEq)]
pub struct KVPair {
    pub key: DBString,
    pub value: Value,
    pub expiration: Option<u64>,
}

pub struct KVModel {
    pub key: StrModel,
    pub value: StrModel,
    pub expiration: Option<u64>,
}

impl KVPair {
    pub open spec fn model(&self) -> KVModel {
        KVModel { key: self.key.model(), value: self.value.model(), expiration: self.expiration }
    }
}

#[derive(Debug, Clone, Copy, PartialEq, Eq)]
pub struct ResizeDBAttr {
    pub hash_table_size: u32,
    pub expire_hash_table_size: u32,
}

#[derive(Debug, PartialEq)]
pub struct DB {
    pub number: u32,
    pub resize_db: Option<ResizeDBAttr>,
    pub key_value_pairs: Vec<KVPair>,
}

pub struct DBModel {
    pub number: u32,
    pub resize_db: Option<ResizeDBAttr>,
    pub entries: Seq<KVModel>,
}

pub open spec fn kv_models(v: Seq<KVPair>) -> Seq<KVModel> {
    Seq::new(v.len(), |i: int| v[i].model())
}

impl DB {
    pub open spec fn model(&self) -> DBModel {
        DBModel { number: self.number, resize_db: self.resize_db, entries: kv_models(self.key_value_pairs@) }
    }
}

#[derive(Debug, PartialEq)]
pub struct Auxilliary {
    pub key: DBString,
    pub value: DBString,
}

pub open spec fn aux_models(v: Seq<Auxilliary>) -> Seq<(StrModel, StrModel)> {
    Seq::new(v.len(), |i: int| (v[i].key.model(), v[i].value.model()))
}

#[derive(Debug, PartialEq)]
pub struct RDB {
    pub version: u32,
    pub auxilliary_field: Vec<Auxilliary>,
    pub databases: Vec<DB>,
}

pub struct RDBModel {
    pub version: u32,
    pub aux: Seq<(StrModel, StrModel)>,
    pub databases: Seq<DBModel>,
}

pub open spec fn db_models(v: Seq<DB>) -> Seq<DBModel> {
    Seq::new(v.len(), |i: int| v[i].model())
}

impl RDB {
    pub open spec fn model(&self) -> RDBModel {
        RDBModel {
            version: self.version,
            aux: aux_models(self.auxilliary_field@),
            databases: db_models(self.databases@),
        }
    }
}

// ---- the format, as spec functions over the whole input and a position ----

pub open spec fn be_u16(b: Seq<u8>, i: int) -> int {
    b[i] * 256 + b[i + 1]
}

pub open spec fn be_u32(b: Seq<u8>, i: int) -> int {
    b[i] * 16777216 + b[i + 1] * 65536 + b[i + 2] * 256 + b[i + 3]
}

pub open spec fn be_u64(b: Seq<u8>, i: int) -> int {
    be_u32(b, i) * 4294967296 + be_u32(b, i + 4)
}

/// The two's complement reading of an unsigned number below `modulus`.
pub open spec fn signed(u: int, modulus: int) -> int {
    if u >= modulus / 2 {
        u - modulus
    } else {
        u
    }
}

/// A length field at `p`, branching on the top two bits of its first byte.
pub open spec fn len_spec(b: Seq<u8>, p: int) -> Result<(LenEncoded, int), RdbError> {
    if p < 0 || p >= b.len() {
        Err(RdbError::Truncated)
    } else {
        let c = b[p];
        let low = c % 64;
        if c / 64 == 0 {
            Ok((LenEncoded::Num(low as u32), p + 1))
        } else if c / 64 == 1 {
            if p + 2 <= b.len() {
                Ok((LenEncoded::Num((low * 256 + b[p + 1]) as u32), p + 2))
            } else {
                Err(RdbError::Truncated)
            }
        } else if c / 64 == 2 {
            if p + 5 <= b.len() {
                Ok((LenEncoded::Num(be_u32(b, p + 1) as u32), p + 5))
            } else {
                Err(RdbError::Truncated)
            }
        } else {
            Ok((LenEncoded::Special(low as u8), p + 1))
        }
    }
}

/// A length field that must be a plain number.
pub open spec fn num_spec(b: Seq<u8>, p: int) -> Result<(u32, int), RdbError> {
    match len_spec(b, p) {
        Ok((LenEncoded::Num(n), q)) => Ok((n, q)),
        Ok((LenEncoded::Special(_), _)) => Err(RdbError::BadLengthEncoding),
        Err(e) => Err(e),
    }
}

/// A string at `p`: raw UTF-8 bytes, or an integer in a special encoding.
pub open spec fn string_spec(b: Seq<u8>, p: int) -> Result<(StrModel, int), RdbError> {
    match len_spec(b, p) {
        Err(e) => Err(e),
        Ok((LenEncoded::Num(n), q)) => if q + n > b.len() {
            Err(RdbError::Truncated)
        } else if !valid_utf8(b.subrange(q, q + n)) {
            Err(RdbError::InvalidUtf8)
        } else {
            Ok((StrModel::Text(b.subrange(q, q + n)), q + n))
        },
        Ok((LenEncoded::Special(f), q)) => if f == 0 {
            if q + 1 <= b.len() {
                Ok((StrModel::Int(signed(b[q] as int, 256)), q + 1))
            } else {
                Err(RdbError::Truncated)
            }
        } else if f == 1 {
            if q + 2 <= b.len() {
                Ok((StrModel::Int(signed(be_u16(b, q), 65536)), q + 2))
            } else {
                Err(RdbError::Truncated)
            }
        } else if f == 2 {
            if q + 4 <= b.len() {
                Ok((StrModel::Int(signed(be_u32(b, q), 4294967296)), q + 4))
            } else {
                Err(RdbError::Truncated)
            }
        } else if f == 3 {
            Err(RdbError::UnsupportedCompression)
        } else {
            Err(RdbError::UnsupportedSpecialEncoding)
        },
    }
}

/// The optional expiration marker of a record at `p`.
pub open spec fn expiry_spec(b: Seq<u8>, p: int) -> Result<(Option<u64>, int), RdbError> {
    if 0 <= p < b.len() && b[p] == 0xFDu8 {
        if p + 5 <= b.len() {
            Ok((Some(be_u32(b, p + 1) as u64), p + 5))
        } else {
            Err(RdbError::Truncated)
        }
    } else if 0 <= p < b.len() && b[p] == 0xFCu8 {
        if p + 9 <= b.len() {
            Ok((Some(be_u64(b, p + 1) as u64), p + 9))
        } else {
            Err(RdbError::Truncated)
        }
    } else {
        Ok((None, p))
    }
}

/// A key-value record at `p`: expiration, value type, key, value.
pub open spec fn kv_spec(b: Seq<u8>, p: int) -> Result<(KVModel, int), RdbError> {
    match expiry_spec(b, p) {
        Err(e) => Err(e),
        Ok((expiration, q)) => if q < 0 || q >= b.len() {
            Err(RdbError::Truncated)
        } else {
            match string_spec(b, q + 1) {
                Err(e) => Err(e),
                Ok((key, r)) => if b[q] != 0u8 {
                    Err(RdbError::UnsupportedValueType)
                } else {
                    match string_spec(b, r) {
                        Err(e) => Err(e),
                        Ok((value, s)) => Ok((KVModel { key, value, expiration }, s)),
                    }
                },
            }
        },
    }
}

/// Records from `p` up to the next `0xFE` or `0xFF`, which is not consumed.
pub open spec fn kvs_spec(b: Seq<u8>, p: int) -> Result<(Seq<KVModel>, int), RdbError>
    decreases b.len() - p,
{
    if p < 0 || p >= b.len() {
        Err(RdbError::Truncated)
    } else if b[p] == 0xFEu8 || b[p] == 0xFFu8 {
        Ok((Seq::empty(), p))
    } else {
        match kv_spec(b, p) {
            Err(e) => Err(e),
            Ok((kv, q)) => if q <= p {
                Err(RdbError::Truncated)
            } else {
                match kvs_spec(b, q) {
                    Err(e) => Err(e),
                    Ok((rest, r)) => Ok((seq![kv] + rest, r)),
                }
            },
        }
    }
}

/// The optional resize hint at `p`.
pub open spec fn resize_spec(b: Seq<u8>, p: int) -> Result<(Option<ResizeDBAttr>, int), RdbError> {
    if 0 <= p < b.len() && b[p] == 0xFBu8 {
        match num_spec(b, p + 1) {
            Err(e) => Err(e),
            Ok((h, q)) => match num_spec(b, q) {
                Err(e) => Err(e),
                Ok((x, r)) => Ok((Some(ResizeDBAttr { hash_table_size: h, expire_hash_table_size: x }), r)),
            },
        }
    } else {
        Ok((None, p))
    }
}

/// The database number after a `0xFE` tag at `p`.
pub open spec fn db_number_spec(b: Seq<u8>, p: int) -> Result<(u32, int), RdbError> {
    if p < 0 || p >= b.len() {
        Err(RdbError::Truncated)
    } else if b[p] != 0xFEu8 {
        Err(RdbError::BadLengthEncoding)
    } else {
        num_spec(b, p + 1)
    }
}

/// A database section at `p`.
pub open spec fn db_spec(b: Seq<u8>, p: int) -> Result<(DBModel, int), RdbError> {
    match db_number_spec(b, p) {
        Err(e) => Err(e),
        Ok((number, q)) => match resize_spec(b, q) {
            Err(e) => Err(e),
            Ok((resize_db, r)) => match kvs_spec(b, r) {
                Err(e) => Err(e),
                Ok((entries, s)) => Ok((DBModel { number, resize_db, entries }, s)),
            },
        },
    }
}

/// Database sections from `p` up to and including the `0xFF` terminator.
pub open spec fn dbs_spec(b: Seq<u8>, p: int) -> Result<(Seq<DBModel>, int), RdbError>
    decreases b.len() - p,
{
    if p < 0 || p >= b.len() {
        Err(RdbError::Truncated)
    } else if b[p] == 0xFFu8 {
        Ok((Seq::empty(), p + 1))
    } else {
        match db_spec(b, p) {
            Err(e) => Err(e),
            Ok((db, q)) => if q <= p || q > b.len() {
                Err(RdbError::Truncated)
            } else {
                match dbs_spec(b, q) {
                    Err(e) => Err(e),
                    Ok((rest, r)) => Ok((seq![db] + rest, r)),
                }
            },
        }
    }
}

/// Auxiliary fields from `p`: each a `0xFA` tag, a key and a value.
pub open spec fn aux_spec(b: Seq<u8>, p: int) -> Result<(Seq<(StrModel, StrModel)>, int), RdbError>
    decreases b.len() - p,
{
    if 0 <= p < b.len() && b[p] == 0xFAu8 {
        match string_spec(b, p + 1) {
            Err(e) => Err(e),
            Ok((k, q)) => match string_spec(b, q) {
                Err(e) => Err(e),
                Ok((v, r)) => if r <= p {
                    Err(RdbError::Truncated)
                } else {
                    match aux_spec(b, r) {
                        Err(e) => Err(e),
                        Ok((rest, s)) => Ok((seq![(k, v)] + rest, s)),
                    }
                },
            },
        }
    } else {
        Ok((Seq::empty(), p))
    }
}

pub open spec fn magic() -> Seq<u8> {
    seq![82u8, 69u8, 68u8, 73u8, 83u8]
}

pub open spec fn is_digit4(b: Seq<u8>, i: int) -> bool {
    forall|k: int| i <= k < i + 4 ==> 48 <= #[trigger] b[k] <= 57
}

/// The magic bytes and a version of four ASCII digits.
pub open spec fn header_spec(b: Seq<u8>) -> Result<(u32, int), RdbError> {
    if b.len() < 5 || b.subrange(0, 5) != magic() {
        Err(RdbError::BadMagic)
    } else if b.len() < 9 || !is_digit4(b, 5) {
        Err(RdbError::BadVersion)
    } else {
        Ok((((b[5] - 48) * 1000 + (b[6] - 48) * 100 + (b[7] - 48) * 10 + (b[8] - 48)) as u32, 9))
    }
}

/// A whole snapshot: header, auxiliary fields, databases, terminator.
pub open spec fn rdb_spec(b: Seq<u8>) -> Result<(RDBModel, int), RdbError> {
    match header_spec(b) {
        Err(e) => Err(e),
        Ok((version, p)) => match aux_spec(b, p) {
            Err(e) => Err(e),
            Ok((aux, q)) => match dbs_spec(b, q) {
                Err(e) => Err(e),
                Ok((databases, r)) => Ok((RDBModel { version, aux, databases }, r)),
            },
        },
    }
}

// ---- the decoder ----

fn be_u16_at(b: &[u8], i: usize) -> (r: u32)
    requires
        i + 2 <= b@.len(),
    ensures
        r as int == be_u16(b@, i as int),
{
    (b[i] as u32) * 256 + (b[i + 1] as u32)
}

fn be_u32_at(b: &[u8], i: usize) -> (r: u32)
    requires
        i + 4 <= b@.len(),
    ensures
        r as int == be_u32(b@, i as int),
{
    (b[i] as u32) * 16777216 + (b[i + 1] as u32) * 65536 + (b[i + 2] as u32) * 256 + (b[i + 3] as u32)
}

fn len_at(b: &[u8], p: usize) -> (r: Result<(LenEncoded, usize), RdbError>)
    ensures
        match r {
            Ok((l, q)) => len_spec(b@, p as int) == Ok::<_, RdbError>((l, q as int)) && q <= b@.len(),
            Err(e) => len_spec(b@, p as int) == Err::<(LenEncoded, int), RdbError>(e),
        },
{
    if p >= b.len() {
        return Err(RdbError::Truncated);
    }
    let c = b[p];
    let low = c % 64;
    let top = c / 64;
    if top == 0 {
        Ok((LenEncoded::Num(low as u32), p + 1))
    } else if top == 1 {
        if b.len() - p >= 2 {
            Ok((LenEncoded::Num((low as u32) * 256 + (b[p + 1] as u32)), p + 2))
        } else {
            Err(RdbError::Truncated)
        }
    } else if top == 2 {
        if b.len() - p >= 5 {
            Ok((LenEncoded::Num(be_u32_at(b, p + 1)), p + 5))
        } else {
            Err(RdbError::Truncated)
        }
    } else {
        Ok((LenEncoded::Special(low), p + 1))
    }
}

fn num_at(b: &[u8], p: usize) -> (r: Result<(u32, usize), RdbError>)
    ensures
        match r {
            Ok((n, q)) => num_spec(b@, p as int) == Ok::<_, RdbError>((n, q as int)) && q <= b@.len(),
            Err(e) => num_spec(b@, p as int) == Err::<(u32, int), RdbError>(e),
        },
{
    match len_at(b, p) {
        Ok((LenEncoded::Num(n), q)) => Ok((n, q)),
        Ok((LenEncoded::Special(_), _)) => Err(RdbError::BadLengthEncoding),
        Err(e) => Err(e),
    }
}

fn string_at(b: &[u8], p: usize) -> (r: Result<(DBString, usize), RdbError>)
    ensures
        match r {
            Ok((s, q)) => string_spec(b@, p as int) == Ok::<_, RdbError>((s.model(), q as int)) && q <= b@.len(),
            Err(e) => string_spec(b@, p as int) == Err::<(StrModel, int), RdbError>(e),
        },
{
    match len_at(b, p) {
        Err(e) => Err(e),
        Ok((LenEncoded::Num(n), q)) => {
            if (n as usize) > b.len() - q {
                return Err(RdbError::Truncated);
            }
            let end = q + n as usize;
            match utf8_text(slice_subrange(b, q, end)) {
                Some(t) => Ok((DBString::Str(t), end)),
                None => Err(RdbError::InvalidUtf8),
            }
        },
        Ok((LenEncoded::Special(f), q)) => {
            if f == 0 {
                if b.len() - q >= 1 {
                    let u = b[q];
                    let v: i32 = if u >= 128 { u as i32 - 256 } else { u as i32 };
                    Ok((DBString::Int(v), q + 1))
                } else {
                    Err(RdbError::Truncated)
                }
            } else if f == 1 {
                if b.len() - q >= 2 {
                    let u = be_u16_at(b, q);
                    let v: i32 = if u >= 32768 { u as i32 - 65536 } else { u as i32 };
                    Ok((DBString::Int(v), q + 2))
                } else {
                    Err(RdbError::Truncated)
                }
            } else if f == 2 {
                if b.len() - q >= 4 {
                    let u = be_u32_at(b, q);
                    let v: i32 = if u >= 2147483648 {
                        (u as i64 - 4294967296i64) as i32
                    } else {
                        u as i32
                    };
                    Ok((DBString::Int(v), q + 4))
                } else {
                    Err(RdbError::Truncated)
                }
            } else if f == 3 {
                Err(RdbError::UnsupportedCompression)
            } else {
                Err(RdbError::UnsupportedSpecialEncoding)
            }
        },
    }
}

fn expiry_at(b: &[u8], p: usize) -> (r: Result<(Option<u64>, usize), RdbError>)
    ensures
        match r {
            Ok((x, q)) => expiry_spec(b@, p as int) == Ok::<_, RdbError>((x, q as int)) && p <= q <= b@.len() || (
            q == p && p > b@.len() && expiry_spec(b@, p as int) == Ok::<_, RdbError>((x, q as int))),
            Err(e) => expiry_spec(b@, p as int) == Err::<(Option<u64>, int), RdbError>(e),
        },
{
    if p < b.len() && b[p] == 0xFDu8 {
        if b.len() - p >= 5 {
            Ok((Some(be_u32_at(b, p + 1) as u64), p + 5))
        } else {
            Err(RdbError::Truncated)
        }
    } else if p < b.len() && b[p] == 0xFCu8 {
        if b.len() - p >= 9 {
            let hi = be_u32_at(b, p + 1) as u64;
            let lo = be_u32_at(b, p + 5) as u64;
            Ok((Some(hi * 4294967296 + lo), p + 9))
        } else {
            Err(RdbError::Truncated)
        }
    } else {
        Ok((None, p))
    }
}

fn kv_at(b: &[u8], p: usize) -> (r: Result<(KVPair, usize), RdbError>)
    ensures
        match r {
            Ok((kv, q)) => kv_spec(b@, p as int) == Ok::<_, RdbError>((kv.model(), q as int)) && q <= b@.len(),
            Err(e) => kv_spec(b@, p as int) == Err::<(KVModel, int), RdbError>(e),
        },
{
    let (expiration, q) = match expiry_at(b, p) {
        Ok(x) => x,
        Err(e) => return Err(e),
    };
    if q >= b.len() {
        return Err(RdbError::Truncated);
    }
    let value_type = b[q];
    let (key, r) = match string_at(b, q + 1) {
        Ok(x) => x,
        Err(e) => return Err(e),
    };
    if value_type != 0u8 {
        return Err(RdbError::UnsupportedValueType);
    }
    let (value, s) = match string_at(b, r) {
        Ok(x) => x,
        Err(e) => return Err(e),
    };
    Ok((KVPair { key, value: Value::String(value), expiration }, s))
}

fn kvs_at(b: &[u8], p: usize) -> (r: Result<(Vec<KVPair>, usize), RdbError>)
    requires
        p <= b@.len(),
    ensures
        match r {
            Ok((v, q)) => kvs_spec(b@, p as int) == Ok::<_, RdbError>((kv_models(v@), q as int)) && q <= b@.len(),
            Err(e) => kvs_spec(b@, p as int) == Err::<(Seq<KVModel>, int), RdbError>(e),
        },
{
    let mut out: Vec<KVPair> = Vec::new();
    let mut pos: usize = p;
    loop
        invariant
            pos <= b@.len(),
            kvs_spec(b@, p as int) == match kvs_spec(b@, pos as int) {
                Ok((s, r)) => Ok::<_, RdbError>((kv_models(out@) + s, r)),
                Err(e) => Err::<(Seq<KVModel>, int), RdbError>(e),
            },
        decreases b@.len() - pos,
    {
        if pos >= b.len() {
            return Err(RdbError::Truncated);
        }
        if b[pos] == 0xFEu8 || b[pos] == 0xFFu8 {
            assert(kv_models(out@) + Seq::<KVModel>::empty() =~= kv_models(out@));
            return Ok((out, pos));
        }
        match kv_at(b, pos) {
            Err(e) => {
                return Err(e);
            },
            Ok((kv, q)) => {
                if q <= pos {
                    return Err(RdbError::Truncated);
                }
                let ghost before = kv_models(out@);
                out.push(kv);
                proof {
                    assert(kv_models(out@) =~= before.push(kv.model()));
                    match kvs_spec(b@, q as int) {
                        Ok((s, r)) => {
                            assert(before + (seq![kv.model()] + s) =~= kv_models(out@) + s);
                        },
                        Err(_) => {},
                    }
                }
                pos = q;
            },
        }
    }
}

fn resize_at(b: &[u8], p: usize) -> (r: Result<(Option<ResizeDBAttr>, usize), RdbError>)
    requires
        p <= b@.len(),
    ensures
        match r {
            Ok((x, q)) => resize_spec(b@, p as int) == Ok::<_, RdbError>((x, q as int)) && q <= b@.len(),
            Err(e) => resize_spec(b@, p as int) == Err::<(Option<ResizeDBAttr>, int), RdbError>(e),
        },
{
    if p < b.len() && b[p] == 0xFBu8 {
        let (h, q) = match num_at(b, p + 1) {
            Ok(x) => x,
            Err(e) => return Err(e),
        };
        let (x, r) = match num_at(b, q) {
            Ok(x) => x,
            Err(e) => return Err(e),
        };
        Ok((Some(ResizeDBAttr { hash_table_size: h, expire_hash_table_size: x }), r))
    } else {
        Ok((None, p))
    }
}

fn db_number_at(b: &[u8], p: usize) -> (r: Result<(u32, usize), RdbError>)
    ensures
        match r {
            Ok((n, q)) => db_number_spec(b@, p as int) == Ok::<_, RdbError>((n, q as int)) && q <= b@.len(),
            Err(e) => db_number_spec(b@, p as int) == Err::<(u32, int), RdbError>(e),
        },
{
    if p >= b.len() {
        Err(RdbError::Truncated)
    } else if b[p] != 0xFEu8 {
        Err(RdbError::BadLengthEncoding)
    } else {
        num_at(b, p + 1)
    }
}

fn db_at(b: &[u8], p: usize) -> (r: Result<(DB, usize), RdbError>)
    ensures
        match r {
            Ok((d, q)) => db_spec(b@, p as int) == Ok::<_, RdbError>((d.model(), q as int)) && q <= b@.len(),
            Err(e) => db_spec(b@, p as int) == Err::<(DBModel, int), RdbError>(e),
        },
{
    let (number, q) = match db_number_at(b, p) {
        Ok(x) => x,
        Err(e) => return Err(e),
    };
    let (resize_db, r) = match resize_at(b, q) {
        Ok(x) => x,
        Err(e) => return Err(e),
    };
    let (key_value_pairs, s) = match kvs_at(b, r) {
        Ok(x) => x,
        Err(e) => return Err(e),
    };
    Ok((DB { number, resize_db, key_value_pairs }, s))
}

fn dbs_at(b: &[u8], p: usize) -> (r: Result<(Vec<DB>, usize), RdbError>)
    requires
        p <= b@.len(),
    ensures
        match r {
            Ok((v, q)) => dbs_spec(b@, p as int) == Ok::<_, RdbError>((db_models(v@), q as int)) && q <= b@.len(),
            Err(e) => dbs_spec(b@, p as int) == Err::<(Seq<DBModel>, int), RdbError>(e),
        },
{
    let mut out: Vec<DB> = Vec::new();
    let mut pos: usize = p;
    loop
        invariant
            pos <= b@.len(),
            dbs_spec(b@, p as int) == match dbs_spec(b@, pos as int) {
                Ok((s, r)) => Ok::<_, RdbError>((db_models(out@) + s, r)),
                Err(e) => Err::<(Seq<DBModel>, int), RdbError>(e),
            },
        decreases b@.len() - pos,
    {
        if pos >= b.len() {
            return Err(RdbError::Truncated);
        }
        if b[pos] == 0xFFu8 {
            assert(db_models(out@) + Seq::<DBModel>::empty() =~= db_models(out@));
            return Ok((out, pos + 1));
        }
        match db_at(b, pos) {
            Err(e) => {
                return Err(e);
            },
            Ok((d, q)) => {
                if q <= pos {
                    return Err(RdbError::Truncated);
                }
                let ghost before = db_models(out@);
                out.push(d);
                proof {
                    assert(db_models(out@) =~= before.push(d.model()));
                    match dbs_spec(b@, q as int) {
                        Ok((s, r)) => {
                            assert(before + (seq![d.model()] + s) =~= db_models(out@) + s);
                        },
                        Err(_) => {},
                    }
                }
                pos = q;
            },
        }
    }
}

fn aux_at(b: &[u8], p: usize) -> (r: Result<(Vec<Auxilliary>, usize), RdbError>)
    requires
        p <= b@.len(),
    ensures
        match r {
            Ok((v, q)) => aux_spec(b@, p as int) == Ok::<_, RdbError>((aux_models(v@), q as int)) && q <= b@.len(),
            Err(e) => aux_spec(b@, p as int) == Err::<(Seq<(StrModel, StrModel)>, int), RdbError>(e),
        },
{
    let mut out: Vec<Auxilliary> = Vec::new();
    let mut pos: usize = p;
    loop
        invariant
            pos <= b@.len(),
            aux_spec(b@, p as int) == match aux_spec(b@, pos as int) {
                Ok((s, r)) => Ok::<_, RdbError>((aux_models(out@) + s, r)),
                Err(e) => Err::<(Seq<(StrModel, StrModel)>, int), RdbError>(e),
            },
        decreases b@.len() - pos,
    {
        if !(pos < b.len() && b[pos] == 0xFAu8) {
            assert(aux_models(out@) + Seq::<(StrModel, StrModel)>::empty() =~= aux_models(out@));
            return Ok((out, pos));
        }
        let (key, q) = match string_at(b, pos + 1) {
            Ok(x) => x,
            Err(e) => return Err(e),
        };
        let (value, r) = match string_at(b, q) {
            Ok(x) => x,
            Err(e) => return Err(e),
        };
        if r <= pos {
            return Err(RdbError::Truncated);
        }
        let ghost before = aux_models(out@);
        let ghost m = (key.model(), value.model());
        out.push(Auxilliary { key, value });
        proof {
            assert(aux_models(out@) =~= before.push(m));
            match aux_spec(b@, r as int) {
                Ok((s, t)) => {
                    assert(before + (seq![m] + s) =~= aux_models(out@) + s);
                },
                Err(_) => {},
            }
        }
        pos = r;
    }
}

fn header_at(b: &[u8]) -> (r: Result<(u32, usize), RdbError>)
    ensures
        match r {
            Ok((v, q)) => header_spec(b@) == Ok::<_, RdbError>((v, q as int)) && q <= b@.len(),
            Err(e) => header_spec(b@) == Err::<(u32, int), RdbError>(e),
        },
{
    if b.len() < 5 || b[0] != 82u8 || b[1] != 69u8 || b[2] != 68u8 || b[3] != 73u8 || b[4] != 83u8 {
        proof {
            if b@.len() >= 5 {
                if b@.subrange(0, 5) == magic() {
                    assert(b@.subrange(0, 5)[0] == b@[0]);
                    assert(b@.subrange(0, 5)[1] == b@[1]);
                    assert(b@.subrange(0, 5)[2] == b@[2]);
                    assert(b@.subrange(0, 5)[3] == b@[3]);
                    assert(b@.subrange(0, 5)[4] == b@[4]);
                }
            }
        }
        return Err(RdbError::BadMagic);
    }
    assert(b@.subrange(0, 5) =~= magic());
    if b.len() < 9 {
        return Err(RdbError::BadVersion);
    }
    let mut i: usize = 5;
    while i < 9
        invariant
            5 <= i <= 9,
            b@.len() >= 9,
            b@.subrange(0, 5) == magic(),
            forall|k: int| 5 <= k < i ==> 48 <= #[trigger] b@[k] <= 57,
        decreases 9 - i,
    {
        if b[i] < 48u8 || b[i] > 57u8 {
            return Err(RdbError::BadVersion);
        }
        i = i + 1;
    }
    let v: u32 = ((b[5] - 48u8) as u32) * 1000 + ((b[6] - 48u8) as u32) * 100 + ((b[7] - 48u8) as u32) * 10
        + ((b[8] - 48u8) as u32);
    Ok((v, 9))
}

impl DBString {
    /// The text this string stands for, as bytes.
    pub fn text_bytes(&self) -> (r: Vec<u8>)
        ensures
            r@ == str_text(self.model()),
    {
        match self {
            DBString::Int(n) => {
                let mut out: Vec<u8> = Vec::new();
                push_decimal(*n as i64, &mut out);
                assert(out@ =~= decimal(*n as int));
                out
            },
            DBString::Str(s) => {
                let mut out: Vec<u8> = Vec::new();
                crate::resp::append_bytes(&mut out, s.as_str().as_bytes());
                assert(out@ =~= text(*s));
                out
            },
            DBString::Lzf { .. } => Vec::new(),
        }
    }

    /// The text this string stands for: an integer in decimal.
    pub fn to_string(&self) -> (r: String)
        ensures
            text(r) == str_text(self.model()),
    {
        match self {
            DBString::Int(n) => {
                let b = self.text_bytes();
                proof {
                    lemma_decimal_ascii(*n as int);
                    lemma_ascii_valid_utf8(b@);
                }
                match utf8_text(b.as_slice()) {
                    Some(s) => s,
                    None => String::new(),
                }
            },
            DBString::Str(s) => s.clone(),
            DBString::Lzf { .. } => {
                let s = String::new();
                assert(text(s) =~= Seq::<u8>::empty()) by {
                    assert(s@ =~= Seq::<char>::empty());
                }
                s
            },
        }
    }
}

impl Value {
    /// Whether this value's text is `other`.
    pub fn eq_text(&self, other: &str) -> (r: bool)
        ensures
            r == (str_text(self.model()) == text_of_str(other)),
    {
        match self {
            Value::String(s) => {
                let b = s.text_bytes();
                bytes_equal(b.as_slice(), other.as_bytes())
            },
        }
    }

    /// This value as a wire value: a simple string of its text.
    pub fn to_resp(&self) -> (r: crate::resp::Value)
        ensures
            r.model() == crate::resp::Model::Simple(str_text(self.model())),
    {
        match self {
            Value::String(s) => crate::resp::Value::String(s.to_string()),
        }
    }
}

/// The bytes of a string slice.
pub open spec fn text_of_str(s: &str) -> Seq<u8> {
    vstd::utf8::encode_utf8(s@)
}

/// The index of the first record whose key text is `k`.
pub open spec fn first_key(entries: Seq<KVModel>, k: Seq<u8>) -> Option<int>
    decreases entries.len(),
{
    if entries.len() == 0 {
        None
    } else if str_text(entries[0].key) == k {
        Some(0)
    } else {
        match first_key(entries.drop_first(), k) {
            Some(i) => Some(i + 1),
            None => None,
        }
    }
}

/// The values under key text `k`, one database after the other.
pub open spec fn lookup(dbs: Seq<DBModel>, k: Seq<u8>) -> Seq<StrModel>
    decreases dbs.len(),
{
    if dbs.len() == 0 {
        Seq::empty()
    } else {
        let found = match first_key(dbs.last().entries, k) {
            Some(i) => seq![dbs.last().entries[i].value],
            None => Seq::empty(),
        };
        lookup(dbs.drop_last(), k) + found
    }
}

/// The keys of all records, one database after the other.
pub open spec fn all_keys(dbs: Seq<DBModel>) -> Seq<StrModel>
    decreases dbs.len(),
{
    if dbs.len() == 0 {
        Seq::empty()
    } else {
        all_keys(dbs.drop_last()) + dbs.last().entries.map_values(|e: KVModel| e.key)
    }
}

proof fn lemma_first_key_step(entries: Seq<KVModel>, k: Seq<u8>, i: int)
    requires
        0 <= i < entries.len(),
        forall|j: int| 0 <= j < i ==> str_text(#[trigger] entries[j].key) != k,
    ensures
        str_text(entries[i].key) == k ==> first_key(entries, k) == Some(i),
    decreases i,
{
    if i > 0 {
        let t = entries.drop_first();
        assert forall|j: int| 0 <= j < i - 1 implies str_text(#[trigger] t[j].key) != k by {
            assert(t[j] == entries[j + 1]);
        }
        lemma_first_key_step(t, k, i - 1);
        assert(t[i - 1] == entries[i]);
    }
}

impl DB {
    /// The value of the first record whose key text is `key`.
    pub fn get(&self, key: &str) -> (r: Option<&Value>)
        ensures
            match first_key(self.model().entries, text_of_str(key)) {
                Some(i) => r matches Some(v) && v.model() == self.model().entries[i].value,
                None => r is None,
            },
    {
        let k = key.as_bytes();
        let ghost es = self.model().entries;
        let mut i: usize = 0;
        while i < self.key_value_pairs.len()
            invariant
                es == self.model().entries,
                k@ == text_of_str(key),
                i <= es.len(),
                forall|j: int| 0 <= j < i ==> str_text(#[trigger] es[j].key) != k@,
            decreases es.len() - i,
        {
            let kb = self.key_value_pairs[i].key.text_bytes();
            proof {
                lemma_first_key_step(es, k@, i as int);
            }
            if bytes_equal(kb.as_slice(), k) {
                return Some(&self.key_value_pairs[i].value);
            }
            i = i + 1;
        }
        proof {
            lemma_first_key_none(es, k@);
        }
        None
    }

    /// The keys of this database's records, in order.
    pub fn keys(&self) -> (r: Vec<&DBString>)
        ensures
            r@.len() == self.key_value_pairs@.len(),
            forall|i: int| 0 <= i < r@.len() ==> r@[i].model() == #[trigger] self.model().entries[i].key,
    {
        let mut out: Vec<&DBString> = Vec::new();
        let mut i: usize = 0;
        while i < self.key_value_pairs.len()
            invariant
                i <= self.key_value_pairs@.len(),
                out@.len() == i,
                forall|j: int| 0 <= j < i ==> out@[j].model() == #[trigger] self.model().entries[j].key,
            decreases self.key_value_pairs@.len() - i,
        {
            out.push(&self.key_value_pairs[i].key);
            i = i + 1;
        }
        out
    }
}

proof fn lemma_first_key_none(entries: Seq<KVModel>, k: Seq<u8>)
    requires
        forall|j: int| 0 <= j < entries.len() ==> str_text(#[trigger] entries[j].key) != k,
    ensures
        first_key(entries, k) is None,
    decreases entries.len(),
{
    if entries.len() > 0 {
        let t = entries.drop_first();
        assert forall|j: int| 0 <= j < t.len() implies str_text(#[trigger] t[j].key) != k by {
            assert(t[j] == entries[j + 1]);
        }
        lemma_first_key_none(t, k);
    }
}

impl RDB {
    /// The values under key text `key`, one database after the other.
    pub fn get(&self, key: &str) -> (r: Vec<&Value>)
        ensures
            r@.len() == lookup(self.model().databases, text_of_str(key)).len(),
            forall|i: int| 0 <= i < r@.len() ==> r@[i].model() == #[trigger] lookup(self.model().databases, text_of_str(key))[i],
    {
        let ghost k = text_of_str(key);
        let ghost ds = self.model().databases;
        let mut out: Vec<&Value> = Vec::new();
        let mut i: usize = 0;
        while i < self.databases.len()
            invariant
                i <= ds.len(),
                ds == self.model().databases,
                k == text_of_str(key),
                out@.len() == lookup(ds.take(i as int), k).len(),
                forall|j: int| 0 <= j < out@.len() ==> out@[j].model() == #[trigger] lookup(ds.take(i as int), k)[j],
            decreases ds.len() - i,
        {
            let found = self.databases[i].get(key);
            proof {
                assert(ds.take(i + 1).drop_last() =~= ds.take(i as int));
                assert(ds.take(i + 1).last() == ds[i as int]);
            }
            match found {
                Some(v) => {
                    out.push(v);
                },
                None => {},
            }
            i = i + 1;
        }
        assert(ds.take(ds.len() as int) =~= ds);
        out
    }

    /// The keys of all records, one database after the other.
    pub fn keys(&self) -> (r: Vec<&DBString>)
        ensures
            r@.len() == all_keys(self.model().databases).len(),
            forall|i: int| 0 <= i < r@.len() ==> r@[i].model() == #[trigger] all_keys(self.model().databases)[i],
    {
        let ghost ds = self.model().databases;
        let mut out: Vec<&DBString> = Vec::new();
        let mut i: usize = 0;
        while i < self.databases.len()
            invariant
                i <= ds.len(),
                ds == self.model().databases,
                out@.len() == all_keys(ds.take(i as int)).len(),
                forall|j: int| 0 <= j < out@.len() ==> out@[j].model() == #[trigger] all_keys(ds.take(i as int))[j],
            decreases ds.len() - i,
        {
            let ks = self.databases[i].keys();
            let ghost prev = out@;
            let mut j: usize = 0;
            while j < ks.len()
                invariant
                    j <= ks@.len(),
                    out@.len() == prev.len() + j,
                    forall|m: int| 0 <= m < prev.len() ==> out@[m] == prev[m],
                    forall|m: int| 0 <= m < j ==> out@[prev.len() + m] == ks@[m],
                decreases ks@.len() - j,
            {
                out.push(ks[j]);
                j = j + 1;
            }
            proof {
                assert(ds.take(i + 1).drop_last() =~= ds.take(i as int));
                assert(ds.take(i + 1).last() == ds[i as int]);
                let added = ds[i as int].entries.map_values(|e: KVModel| e.key);
                assert(all_keys(ds.take(i + 1)) == all_keys(ds.take(i as int)) + added);
                assert forall|m: int| 0 <= m < out@.len() implies out@[m].model() == #[trigger] all_keys(ds.take(i + 1))[m] by {
                    if m >= prev.len() {
                        assert(out@[m] == ks@[m - prev.len()]);
                    }
                }
            }
            i = i + 1;
        }
        assert(ds.take(ds.len() as int) =~= ds);
        out
    }
}

/// How many bytes of `input` a decoder consumed, given what it left.
pub open spec fn consumed(input: Seq<u8>, rest: Seq<u8>) -> int {
    input.len() - rest.len()
}

/// What is left of `input` after its first `q` bytes.
pub open spec fn rest_after(input: Seq<u8>, q: int) -> Seq<u8> {
    input.subrange(q, input.len() as int)
}

/// Decodes a whole snapshot.
pub fn parse_rdb(input: &[u8]) -> (r: Result<(&[u8], RDB), RdbError>)
    ensures
        match r {
            Ok((rest, v)) => rdb_spec(input@) == Ok::<_, RdbError>((v.model(), consumed(input@, rest@))) && rest@ == rest_after(input@, consumed(input@, rest@)),
            Err(e) => rdb_spec(input@) == Err::<(RDBModel, int), RdbError>(e),
        },
{
    let (version, p) = match header_at(input) {
        Ok(x) => x,
        Err(e) => return Err(e),
    };
    let (auxilliary_field, q) = match aux_at(input, p) {
        Ok(x) => x,
        Err(e) => return Err(e),
    };
    let (databases, r) = match dbs_at(input, q) {
        Ok(x) => x,
        Err(e) => return Err(e),
    };
    Ok((slice_subrange(input, r, input.len()), RDB { version, auxilliary_field, databases }))
}

/// Decodes the magic bytes and the version.
pub fn header(input: &[u8]) -> (r: Result<(&[u8], u32), RdbError>)
    ensures
        match r {
            Ok((rest, v)) => header_spec(input@) == Ok::<_, RdbError>((v, consumed(input@, rest@))) && rest@ == rest_after(input@, consumed(input@, rest@)),
            Err(e) => header_spec(input@) == Err::<(u32, int), RdbError>(e),
        },
{
    match header_at(input) {
        Ok((v, q)) => Ok((slice_subrange(input, q, input.len()), v)),
        Err(e) => Err(e),
    }
}

/// Decodes a length field.
pub fn len(input: &[u8]) -> (r: Result<(&[u8], LenEncoded), RdbError>)
    ensures
        match r {
            Ok((rest, v)) => len_spec(input@, 0) == Ok::<_, RdbError>((v, consumed(input@, rest@))) && rest@ == rest_after(input@, consumed(input@, rest@)),
            Err(e) => len_spec(input@, 0) == Err::<(LenEncoded, int), RdbError>(e),
        },
{
    match len_at(input, 0) {
        Ok((v, q)) => Ok((slice_subrange(input, q, input.len()), v)),
        Err(e) => Err(e),
    }
}

/// Decodes a length field that must be a plain number.
pub fn use_len(input: &[u8]) -> (r: Result<(&[u8], u32), RdbError>)
    ensures
        match r {
            Ok((rest, v)) => num_spec(input@, 0) == Ok::<_, RdbError>((v, consumed(input@, rest@))) && rest@ == rest_after(input@, consumed(input@, rest@)),
            Err(e) => num_spec(input@, 0) == Err::<(u32, int), RdbError>(e),
        },
{
    match num_at(input, 0) {
        Ok((v, q)) => Ok((slice_subrange(input, q, input.len()), v)),
        Err(e) => Err(e),
    }
}

/// Decodes a string.
pub fn string(input: &[u8]) -> (r: Result<(&[u8], DBString), RdbError>)
    ensures
        match r {
            Ok((rest, v)) => string_spec(input@, 0) == Ok::<_, RdbError>((v.model(), consumed(input@, rest@))) && rest@ == rest_after(input@, consumed(input@, rest@)),
            Err(e) => string_spec(input@, 0) == Err::<(StrModel, int), RdbError>(e),
        },
{
    match string_at(input, 0) {
        Ok((v, q)) => Ok((slice_subrange(input, q, input.len()), v)),
        Err(e) => Err(e),
    }
}

/// Decodes a key-value record.
pub fn kv_pair(input: &[u8]) -> (r: Result<(&[u8], KVPair), RdbError>)
    ensures
        match r {
            Ok((rest, v)) => kv_spec(input@, 0) == Ok::<_, RdbError>((v.model(), consumed(input@, rest@))) && rest@ == rest_after(input@, consumed(input@, rest@)),
            Err(e) => kv_spec(input@, 0) == Err::<(KVModel, int), RdbError>(e),
        },
{
    match kv_at(input, 0) {
        Ok((v, q)) => Ok((slice_subrange(input, q, input.len()), v)),
        Err(e) => Err(e),
    }
}

/// Decodes the `0xFE` tag and number that open a database section.
pub fn db_number(input: &[u8]) -> (r: Result<(&[u8], u32), RdbError>)
    ensures
        match r {
            Ok((rest, v)) => db_number_spec(input@, 0) == Ok::<_, RdbError>((v, consumed(input@, rest@))) && rest@ == rest_after(input@, consumed(input@, rest@)),
            Err(e) => db_number_spec(input@, 0) == Err::<(u32, int), RdbError>(e),
        },
{
    match db_number_at(input, 0) {
        Ok((v, q)) => Ok((slice_subrange(input, q, input.len()), v)),
        Err(e) => Err(e),
    }
}

/// Decodes an optional resize hint.
pub fn resize_db(input: &[u8]) -> (r: Result<(&[u8], Option<ResizeDBAttr>), RdbError>)
    ensures
        match r {
            Ok((rest, v)) => resize_spec(input@, 0) == Ok::<_, RdbError>((v, consumed(input@, rest@))) && rest@ == rest_after(input@, consumed(input@, rest@)),
            Err(e) => resize_spec(input@, 0) == Err::<(Option<ResizeDBAttr>, int), RdbError>(e),
        },
{
    match resize_at(input, 0) {
        Ok((v, q)) => Ok((slice_subrange(input, q, input.len()), v)),
        Err(e) => Err(e),
    }
}

/// Decodes the auxiliary fields.
pub fn auxilliary(input: &[u8]) -> (r: Result<(&[u8], Vec<Auxilliary>), RdbError>)
    ensures
        match r {
            Ok((rest, v)) => aux_spec(input@, 0) == Ok::<_, RdbError>((aux_models(v@), consumed(input@, rest@))) && rest@ == rest_after(input@, consumed(input@, rest@)),
            Err(e) => aux_spec(input@, 0) == Err::<(Seq<(StrModel, StrModel)>, int), RdbError>(e),
        },
{
    match aux_at(input, 0) {
        Ok((v, q)) => Ok((slice_subrange(input, q, input.len()), v)),
        Err(e) => Err(e),
    }
}

/// Decodes a database section; the `0xFE` or `0xFF` after it is left.
pub fn db(input: &[u8]) -> (r: Result<(&[u8], DB), RdbError>)
    ensures
        match r {
            Ok((rest, v)) => db_spec(input@, 0) == Ok::<_, RdbError>((v.model(), consumed(input@, rest@))) && rest@ == rest_after(input@, consumed(input@, rest@)),
            Err(e) => db_spec(input@, 0) == Err::<(DBModel, int), RdbError>(e),
        },
{
    match db_at(input, 0) {
        Ok((v, q)) => Ok((slice_subrange(input, q, input.len()), v)),
        Err(e) => Err(e),
    }
}

} // verus!
