//! The key-value store of one connection, with passive expiry.
use vstd::prelude::*;
use crate::rdb::str_text;
use crate::rdb::text_of_str;
use crate::rdb::DBModel;
use crate::rdb::KVModel;
use crate::rdb::RDB;
use crate::resp::bytes_equal;
use crate::resp::encoding;
use crate::resp::text;
use crate::resp::Model;
use crate::resp::Value;

verus! {

/// When a stored value expires: never, at a wall-clock time in milliseconds
/// since the Unix epoch, or a duration in milliseconds after an insertion
/// instant read from a monotonic clock in nanoseconds.
#[derive(Debug, Clone, Copy, PartialEq, Eq, Structural)]
pub enum Expiration {
    Empty,
    Date(u64),
    Period { duration: u64, insert_at: u64 },
}

/// Whether `e` has passed, at wall-clock time `wall_ms` and monotonic time `mono_ns`.
pub open spec fn expired(e: Expiration, wall_ms: u64, mono_ns: u64) -> bool {
    match e {
        Expiration::Empty => false,
        Expiration::Date(t) => wall_ms >= t,
        Expiration::Period { duration, insert_at } => mono_ns as int - insert_at as int > duration as int
            * 1000000,
    }
}

impl Expiration {
    /// Whether this expiration has passed at the given clock readings.
    pub fn elapsed(&self, wall_ms: u64, mono_ns: u64) -> (r: bool)
        ensures
            r == expired(*self, wall_ms, mono_ns),
    {
        match self {
            Expiration::Empty => false,
            Expiration::Date(t) => wall_ms >= *t,
            Expiration::Period { duration, insert_at } => {
                if mono_ns <= *insert_at {
                    false
                } else {
                    ((mono_ns - *insert_at) as u128) > (*duration as u128) * 1000000u128
                }
            },
        }
    }
}

/// The expiration that `SET` gives: a duration from `mono_ns`, or none.
pub open spec fn set_expiration(expiry: Option<u64>, mono_ns: u64) -> Expiration {
    match expiry {
        Some(d) => Expiration::Period { duration: d, insert_at: mono_ns },
        None => Expiration::Empty,
    }
}

#[derive(Debug, PartialEq)]
pub struct DurableValue {
    pub val: Value,
    pub expiration: Expiration,
}

/// What a stored value is.
pub struct Durable {
    pub val: Model,
    pub expiration: Expiration,
}

impl DurableValue {
    pub open spec fn model(&self) -> Durable {
        Durable { val: self.val.model(), expiration: self.expiration }
    }

    /// The wire bytes of the stored value.
    pub fn reply(&self) -> (r: Vec<u8>)
        ensures
            r@ == encoding(self.val.model()),
    {
        self.val.encode()
    }

    pub fn duplicate(&self) -> (r: DurableValue)
        ensures
            r.model() == self.model(),
    {
        DurableValue { val: self.val.duplicate(), expiration: self.expiration }
    }
}

pub struct Entry {
    pub key: String,
    pub value: DurableValue,
}

pub open spec fn key_of(e: Entry) -> Seq<u8> {
    text(e.key)
}

pub open spec fn unique(s: Seq<Entry>) -> bool {
    forall|i: int, j: int|
        0 <= i < s.len() && 0 <= j < s.len() && i != j ==> key_of(#[trigger] s[i]) != key_of(#[trigger] s[j])
}

pub open spec fn has_key(s: Seq<Entry>, k: Seq<u8>) -> bool {
    exists|i: int| 0 <= i < s.len() && key_of(#[trigger] s[i]) == k
}

pub open spec fn map_of(s: Seq<Entry>) -> Map<Seq<u8>, Durable> {
    Map::new(
        |k: Seq<u8>| has_key(s, k),
        |k: Seq<u8>| s[choose|i: int| 0 <= i < s.len() && key_of(#[trigger] s[i]) == k].value.model(),
    )
}

proof fn lemma_index(s: Seq<Entry>, i: int)
    requires
        unique(s),
        0 <= i < s.len(),
    ensures
        map_of(s).contains_key(key_of(s[i])),
        map_of(s)[key_of(s[i])] == s[i].value.model(),
{
    let k = key_of(s[i]);
    assert(has_key(s, k));
    let j = choose|j: int| 0 <= j < s.len() && key_of(#[trigger] s[j]) == k;
    assert(j == i);
}

proof fn lemma_push(s: Seq<Entry>, e: Entry)
    requires
        unique(s),
        !has_key(s, key_of(e)),
    ensures
        unique(s.push(e)),
        map_of(s.push(e)) =~= map_of(s).insert(key_of(e), e.value.model()),
{
    let t = s.push(e);
    assert forall|i: int, j: int|
        0 <= i < t.len() && 0 <= j < t.len() && i != j implies key_of(#[trigger] t[i]) != key_of(#[trigger] t[j]) by {
        if i < s.len() && j < s.len() {
            assert(t[i] == s[i] && t[j] == s[j]);
        } else if i < s.len() {
            assert(t[i] == s[i]);
        } else {
            assert(t[j] == s[j]);
        }
    }
    let m = map_of(s).insert(key_of(e), e.value.model());
    assert forall|k: Seq<u8>| #[trigger] map_of(t).contains_key(k) == m.contains_key(k) by {
        if has_key(t, k) {
            let i = choose|i: int| 0 <= i < t.len() && key_of(#[trigger] t[i]) == k;
            if i < s.len() {
                assert(t[i] == s[i]);
                assert(has_key(s, k));
            }
        }
        if has_key(s, k) {
            let i = choose|i: int| 0 <= i < s.len() && key_of(#[trigger] s[i]) == k;
            assert(t[i] == s[i]);
            assert(has_key(t, k));
        }
        if k == key_of(e) {
            assert(t[s.len() as int] == e);
            assert(has_key(t, k));
        }
    }
    assert forall|k: Seq<u8>| #[trigger] map_of(t).contains_key(k) implies map_of(t)[k] == m[k] by {
        if k == key_of(e) {
            lemma_index(t, s.len() as int);
            assert(t[s.len() as int] == e);
        } else {
            let i = choose|i: int| 0 <= i < s.len() && key_of(#[trigger] s[i]) == k;
            lemma_index(s, i);
            lemma_index(t, i);
            assert(t[i] == s[i]);
        }
    }
}

proof fn lemma_remove(s: Seq<Entry>, i: int)
    requires
        unique(s),
        0 <= i < s.len(),
    ensures
        unique(s.remove(i)),
        !has_key(s.remove(i), key_of(s[i])),
        map_of(s.remove(i)) =~= map_of(s).remove(key_of(s[i])),
{
    let t = s.remove(i);
    let ki = key_of(s[i]);
    assert forall|a: int, b: int|
        0 <= a < t.len() && 0 <= b < t.len() && a != b implies key_of(#[trigger] t[a]) != key_of(#[trigger] t[b]) by {
        let a2 = if a < i { a } else { a + 1 };
        let b2 = if b < i { b } else { b + 1 };
        assert(t[a] == s[a2] && t[b] == s[b2]);
    }
    assert forall|a: int| 0 <= a < t.len() implies key_of(#[trigger] t[a]) != ki by {
        let a2 = if a < i { a } else { a + 1 };
        assert(t[a] == s[a2]);
    }
    let m = map_of(s).remove(ki);
    assert forall|k: Seq<u8>| #[trigger] map_of(t).contains_key(k) == m.contains_key(k) by {
        if has_key(t, k) {
            let a = choose|a: int| 0 <= a < t.len() && key_of(#[trigger] t[a]) == k;
            let a2 = if a < i { a } else { a + 1 };
            assert(t[a] == s[a2]);
            assert(has_key(s, k));
        }
        if has_key(s, k) && k != ki {
            let a = choose|a: int| 0 <= a < s.len() && key_of(#[trigger] s[a]) == k;
            let a2 = if a < i { a } else { a - 1 };
            assert(t[a2] == s[a]);
            assert(has_key(t, k));
        }
    }
    assert forall|k: Seq<u8>| #[trigger] map_of(t).contains_key(k) implies map_of(t)[k] == m[k] by {
        let a = choose|a: int| 0 <= a < t.len() && key_of(#[trigger] t[a]) == k;
        let a2 = if a < i { a } else { a + 1 };
        assert(t[a] == s[a2]);
        lemma_index(t, a);
        lemma_index(s, a2);
    }
}

/// The keys and values of one connection.
pub struct Store {
    entries: Vec<Entry>,
}

impl View for Store {
    type V = Map<Seq<u8>, Durable>;

    closed spec fn view(&self) -> Map<Seq<u8>, Durable> {
        map_of(self.entries@)
    }
}

/// What `GET` replies and what is left stored: the null bulk string for a
/// missing key; the null bulk string, with the entry removed, for an expired
/// one; else the stored value.
pub open spec fn get_spec(m: Map<Seq<u8>, Durable>, k: Seq<u8>, wall_ms: u64, mono_ns: u64) -> (
    Model,
    Map<Seq<u8>, Durable>,
) {
    if !m.contains_key(k) {
        (Model::BulkNull, m)
    } else if expired(m[k].expiration, wall_ms, mono_ns) {
        (Model::BulkNull, m.remove(k))
    } else {
        (m[k].val, m)
    }
}

/// What `SET` leaves stored.
pub open spec fn set_spec(m: Map<Seq<u8>, Durable>, k: Seq<u8>, v: Model, expiry: Option<u64>, mono_ns: u64) -> Map<
    Seq<u8>,
    Durable,
> {
    m.insert(k, Durable { val: v, expiration: set_expiration(expiry, mono_ns) })
}

/// The records of all databases, one after the other.
pub open spec fn rdb_entries(dbs: Seq<DBModel>) -> Seq<KVModel>
    decreases dbs.len(),
{
    if dbs.len() == 0 {
        Seq::empty()
    } else {
        rdb_entries(dbs.drop_last()) + dbs.last().entries
    }
}

/// What a snapshot record becomes in the store: its value text as a simple
/// string, expiring at the record's time if it has one.
pub open spec fn seeded(kv: KVModel) -> Durable {
    Durable {
        val: Model::Simple(str_text(kv.value)),
        expiration: match kv.expiration {
            Some(t) => Expiration::Date(t),
            None => Expiration::Empty,
        },
    }
}

/// The store seeded from records; a later record of a key replaces an earlier one.
pub open spec fn seed_map(es: Seq<KVModel>) -> Map<Seq<u8>, Durable>
    decreases es.len(),
{
    if es.len() == 0 {
        Map::empty()
    } else {
        seed_map(es.drop_last()).insert(str_text(es.last().key), seeded(es.last()))
    }
}

impl Store {
    /// The store keeps one entry per key.
    pub closed spec fn wf(&self) -> bool {
        unique(self.entries@)
    }

    pub fn new() -> (r: Store)
        ensures
            r.wf(),
            r@ == Map::<Seq<u8>, Durable>::empty(),
    {
        let r = Store { entries: Vec::new() };
        assert(r@ =~= Map::<Seq<u8>, Durable>::empty());
        r
    }

    fn position(&self, k: &[u8]) -> (r: Option<usize>)
        ensures
            match r {
                Some(i) => i < self.entries@.len() && key_of(self.entries@[i as int]) == k@,
                None => !has_key(self.entries@, k@),
            },
    {
        let mut i: usize = 0;
        while i < self.entries.len()
            invariant
                i <= self.entries@.len(),
                forall|j: int| 0 <= j < i ==> key_of(#[trigger] self.entries@[j]) != k@,
            decreases self.entries@.len() - i,
        {
            if bytes_equal(self.entries[i].key.as_str().as_bytes(), k) {
                return Some(i);
            }
            i = i + 1;
        }
        None
    }

    /// Stores `value` under `key`, replacing what was there.
    pub fn insert(&mut self, key: String, value: DurableValue)
        requires
            old(self).wf(),
        ensures
            final(self).wf(),
            final(self)@ == old(self)@.insert(text(key), value.model()),
    {
        let ghost k = text(key);
        let ghost dm = value.model();
        match self.position(key.as_str().as_bytes()) {
            Some(i) => {
                proof {
                    lemma_remove(self.entries@, i as int);
                }
                let _ = self.entries.remove(i);
                let e = Entry { key, value };
                proof {
                    lemma_push(self.entries@, e);
                }
                self.entries.push(e);
                assert(self@ =~= old(self)@.insert(k, dm));
            },
            None => {
                let e = Entry { key, value };
                proof {
                    lemma_push(self.entries@, e);
                }
                self.entries.push(e);
            },
        }
    }

    /// `SET key val [PX expiry]` at monotonic time `mono_ns`.
    pub fn set(&mut self, key: String, val: Value, expiry: Option<u64>, mono_ns: u64)
        requires
            old(self).wf(),
        ensures
            final(self).wf(),
            final(self)@ == set_spec(old(self)@, text(key), val.model(), expiry, mono_ns),
    {
        let expiration = match expiry {
            Some(d) => Expiration::Period { duration: d, insert_at: mono_ns },
            None => Expiration::Empty,
        };
        self.insert(key, DurableValue { val, expiration });
    }

    /// `GET key` at the given clock readings; an expired entry is removed.
    pub fn get(&mut self, key: &str, wall_ms: u64, mono_ns: u64) -> (r: Value)
        requires
            old(self).wf(),
        ensures
            final(self).wf(),
            (r.model(), final(self)@) == get_spec(old(self)@, text_of_str(key), wall_ms, mono_ns),
    {
        let ghost k = text_of_str(key);
        match self.position(key.as_bytes()) {
            None => {
                crate::resp::Value::BulkString(crate::resp::BulkString::Null)
            },
            Some(i) => {
                proof {
                    lemma_index(self.entries@, i as int);
                }
                if self.entries[i].value.expiration.elapsed(wall_ms, mono_ns) {
                    proof {
                        lemma_remove(self.entries@, i as int);
                    }
                    let _ = self.entries.remove(i);
                    crate::resp::Value::BulkString(crate::resp::BulkString::Null)
                } else {
                    self.entries[i].value.val.duplicate()
                }
            },
        }
    }

    /// Every stored key, expired or not, each once.
    pub fn keys(&self) -> (r: Vec<String>)
        requires
            self.wf(),
        ensures
            forall|i: int| 0 <= i < r@.len() ==> self@.contains_key(text(#[trigger] r@[i])),
            forall|k: Seq<u8>| #[trigger] self@.contains_key(k) ==> exists|i: int| 0 <= i < r@.len() && text(#[trigger] r@[i]) == k,
            forall|i: int, j: int| 0 <= i < r@.len() && 0 <= j < r@.len() && i != j ==> text(#[trigger] r@[i]) != text(#[trigger] r@[j]),
    {
        let mut out: Vec<String> = Vec::new();
        let mut i: usize = 0;
        while i < self.entries.len()
            invariant
                i <= self.entries@.len(),
                unique(self.entries@),
                out@.len() == i,
                forall|j: int| 0 <= j < i ==> text(#[trigger] out@[j]) == key_of(self.entries@[j]),
            decreases self.entries@.len() - i,
        {
            out.push(self.entries[i].key.clone());
            i = i + 1;
        }
        proof {
            assert forall|a: int| 0 <= a < out@.len() implies self@.contains_key(text(#[trigger] out@[a])) by {
                lemma_index(self.entries@, a);
            }
            assert forall|k: Seq<u8>| #[trigger] self@.contains_key(k) implies exists|a: int| 0 <= a < out@.len() && text(#[trigger] out@[a]) == k by {
                let a = choose|a: int| 0 <= a < self.entries@.len() && key_of(#[trigger] self.entries@[a]) == k;
                assert(text(out@[a]) == k);
            }
            assert forall|a: int, b: int| 0 <= a < out@.len() && 0 <= b < out@.len() && a != b implies text(#[trigger] out@[a]) != text(#[trigger] out@[b]) by {
                assert(key_of(self.entries@[a]) != key_of(self.entries@[b]));
            }
        }
        out
    }

    /// A copy of this store.
    pub fn duplicate(&self) -> (r: Store)
        requires
            self.wf(),
        ensures
            r.wf(),
            r@ == self@,
    {
        let mut out: Vec<Entry> = Vec::new();
        let mut i: usize = 0;
        while i < self.entries.len()
            invariant
                i <= self.entries@.len(),
                out@.len() == i,
                forall|j: int| 0 <= j < i ==> key_of(#[trigger] out@[j]) == key_of(self.entries@[j]) && out@[j].value.model() == self.entries@[j].value.model(),
            decreases self.entries@.len() - i,
        {
            out.push(Entry { key: self.entries[i].key.clone(), value: self.entries[i].value.duplicate() });
            i = i + 1;
        }
        let r = Store { entries: out };
        proof {
            let s = self.entries@;
            let t = r.entries@;
            assert(unique(t)) by {
                assert forall|a: int, b: int| 0 <= a < t.len() && 0 <= b < t.len() && a != b implies key_of(#[trigger] t[a]) != key_of(#[trigger] t[b]) by {
                    assert(key_of(s[a]) != key_of(s[b]));
                }
            }
            assert forall|k: Seq<u8>| #[trigger] map_of(t).contains_key(k) == map_of(s).contains_key(k) by {
                if has_key(t, k) {
                    let a = choose|a: int| 0 <= a < t.len() && key_of(#[trigger] t[a]) == k;
                    assert(key_of(s[a]) == k);
                }
                if has_key(s, k) {
                    let a = choose|a: int| 0 <= a < s.len() && key_of(#[trigger] s[a]) == k;
                    assert(key_of(t[a]) == k);
                }
            }
            assert forall|k: Seq<u8>| #[trigger] map_of(t).contains_key(k) implies map_of(t)[k] == map_of(s)[k] by {
                let a = choose|a: int| 0 <= a < t.len() && key_of(#[trigger] t[a]) == k;
                lemma_index(t, a);
                lemma_index(s, a);
            }
            assert(map_of(t) =~= map_of(s));
        }
        r
    }

    /// A store seeded from every record of a snapshot.
    pub fn from_rdb(rdb: &RDB) -> (r: Store)
        ensures
            r.wf(),
            r@ == seed_map(rdb_entries(rdb.model().databases)),
    {
        let ghost ds = rdb.model().databases;
        let mut store = Store::new();
        let mut i: usize = 0;
        while i < rdb.databases.len()
            invariant
                i <= ds.len(),
                ds == rdb.model().databases,
                store.wf(),
                store@ == seed_map(rdb_entries(ds.take(i as int))),
            decreases ds.len() - i,
        {
            let db = &rdb.databases[i];
            let ghost before = rdb_entries(ds.take(i as int));
            let ghost es = ds[i as int].entries;
            assert(es == crate::rdb::kv_models(db.key_value_pairs@));
            let mut j: usize = 0;
            while j < db.key_value_pairs.len()
                invariant
                    j <= es.len(),
                    es == crate::rdb::kv_models(db.key_value_pairs@),
                    store.wf(),
                    store@ == seed_map(before + es.take(j as int)),
                decreases es.len() - j,
            {
                let kv = &db.key_value_pairs[j];
                let key = kv.key.to_string();
                let val = kv.value.to_resp();
                let expiration = match kv.expiration {
                    Some(t) => Expiration::Date(t),
                    None => Expiration::Empty,
                };
                let dv = DurableValue { val, expiration };
                proof {
                    let next = before + es.take(j + 1);
                    assert(next.drop_last() =~= before + es.take(j as int));
                    assert(next.last() == es[j as int]);
                    assert(dv.model() == seeded(es[j as int]));
                }
                store.insert(key, dv);
                j = j + 1;
            }
            proof {
                assert(ds.take(i + 1).drop_last() =~= ds.take(i as int));
                assert(ds.take(i + 1).last() == ds[i as int]);
                assert(es.take(es.len() as int) =~= es);
            }
            i = i + 1;
        }
        assert(ds.take(ds.len() as int) =~= ds);
        store
    }
}

/// A key set with an expiry of zero milliseconds is expired at the next
/// access that comes later on the monotonic clock: `GET` replies with the
/// null bulk string and the key is removed.
pub proof fn lemma_zero_duration_expires(
    m: Map<Seq<u8>, Durable>,
    k: Seq<u8>,
    v: Model,
    set_at: u64,
    wall_ms: u64,
    get_at: u64,
)
    requires
        get_at > set_at,
    ensures
        get_spec(set_spec(m, k, v, Some(0), set_at), k, wall_ms, get_at) == (Model::BulkNull, m.remove(k)),
{
    let m2 = set_spec(m, k, v, Some(0), set_at);
    assert(m2.remove(k) =~= m.remove(k));
}

/// A key set without an expiry never expires: `GET` replies with its value
/// and leaves the store as it is, whatever the clocks read.
pub proof fn lemma_no_expiry_persists(
    m: Map<Seq<u8>, Durable>,
    k: Seq<u8>,
    v: Model,
    set_at: u64,
    wall_ms: u64,
    get_at: u64,
)
    ensures
        get_spec(set_spec(m, k, v, None, set_at), k, wall_ms, get_at) == (v, set_spec(m, k, v, None, set_at)),
        !expired(Expiration::Empty, wall_ms, get_at),
{
}

} // verus!
