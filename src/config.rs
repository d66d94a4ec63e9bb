//! Server configuration: the snapshot directory and file name.
use itertools::Itertools;
use vstd::prelude::*;
use crate::resp::text;
use crate::resp::ascii_string;
use crate::resp::bytes_equal;
use crate::resp::Array;
use crate::resp::BulkString;
use crate::resp::Model;
use crate::resp::Value;

verus! {

#[derive(Debug, Default)]
pub struct Config {
    pub dir: Option<String>,
    pub filename: Option<String>,
}

#[verifier::external_type_specification]
#[verifier::external_body]
pub struct ExPathBuf(std::path::PathBuf);

/// Relies on `PathBuf::from`: a path made from the text.
#[verifier::external_body]
fn path_of(s: &String) -> std::path::PathBuf {
    std::path::PathBuf::from(s)
}

/// Relies on itertools' `tuple_windows`: each pair of neighbouring arguments,
/// in order, the elements cloned.
#[verifier::external_body]
fn neighbour_pairs(args: Vec<String>) -> (r: Vec<(String, String)>)
    ensures
        r@.len() == if args@.len() == 0 { 0 } else { args@.len() - 1 },
        forall|i: int| 0 <= i < r@.len() ==> (#[trigger] r@[i]).0@ == args@[i]@ && r@[i].1@ == args@[i + 1]@,
{
    args.into_iter().tuple_windows().collect()
}

pub open spec fn flag_dir() -> Seq<u8> {
    seq![45u8, 45u8, 100u8, 105u8, 114u8]
}

pub open spec fn flag_dbfilename() -> Seq<u8> {
    seq![45u8, 45u8, 100u8, 98u8, 102u8, 105u8, 108u8, 101u8, 110u8, 97u8, 109u8, 101u8]
}

/// The settings read from flag/value pairs: `--dir` and `--dbfilename` set
/// their field, later pairs overriding earlier ones, and reading stops once
/// both are set.
pub open spec fn settings(pairs: Seq<(Seq<u8>, Seq<u8>)>) -> (Option<Seq<u8>>, Option<Seq<u8>>)
    decreases pairs.len(),
{
    if pairs.len() == 0 {
        (None, None)
    } else {
        let prev = settings(pairs.drop_last());
        if prev.0 is Some && prev.1 is Some {
            prev
        } else if pairs.last().0 == flag_dir() {
            (Some(pairs.last().1), prev.1)
        } else if pairs.last().0 == flag_dbfilename() {
            (prev.0, Some(pairs.last().1))
        } else {
            prev
        }
    }
}

pub open spec fn opt_text(o: Option<String>) -> Option<Seq<u8>> {
    match o {
        Some(s) => Some(text(s)),
        None => None,
    }
}

pub open spec fn pair_texts(p: Seq<(String, String)>) -> Seq<(Seq<u8>, Seq<u8>)> {
    Seq::new(p.len(), |i: int| (text(p[i].0), text(p[i].1)))
}

/// The reply to a configuration lookup: the name and the value, or an empty
/// array when the value is not set.
pub open spec fn lookup_reply(name: Seq<u8>, v: Option<Seq<u8>>) -> Model {
    match v {
        Some(t) => Model::Items(seq![bulk_model(name), bulk_model(t)]),
        None => Model::ArrayEmpty,
    }
}

/// The model of a bulk string holding `t`.
pub open spec fn bulk_model(t: Seq<u8>) -> Model {
    Model::BulkText(t)
}

pub open spec fn name_dir() -> Seq<u8> {
    seq![100u8, 105u8, 114u8]
}

pub open spec fn name_dbfilename() -> Seq<u8> {
    seq![100u8, 98u8, 102u8, 105u8, 108u8, 101u8, 110u8, 97u8, 109u8, 101u8]
}

/// The flag/value pairs of neighbouring arguments.
pub open spec fn arg_pairs(args: Seq<String>) -> Seq<(Seq<u8>, Seq<u8>)> {
    Seq::new(
        if args.len() == 0 { 0 } else { (args.len() - 1) as nat },
        |i: int| (text(args[i]), text(args[i + 1])),
    )
}

fn copy_text(s: &String) -> (r: String)
    ensures
        text(r) == text(*s),
{
    s.clone()
}

fn lookup_value(name: &[u8], v: &Option<String>) -> (r: Value)
    requires
        forall|i: int| 0 <= i < name@.len() ==> #[trigger] name@[i] < 128,
    ensures
        r.model() == lookup_reply(name@, opt_text(*v)),
{
    match v {
        Some(t) => {
            let a = Value::BulkString(BulkString::String(ascii_string(name)));
            let b = Value::BulkString(BulkString::String(copy_text(t)));
            let ghost ma = a.model();
            let ghost mb = b.model();
            let mut items: Vec<Value> = Vec::new();
            items.push(a);
            items.push(b);
            assert(items@.len() == 2 && items@[0].model() == ma && items@[1].model() == mb);
            let r = Value::Array(Array::Items(items));
            assert(r.model()->Items_0 =~= seq![bulk_model(name@), bulk_model(text(*t))]);
            r
        },
        None => Value::Array(Array::Empty),
    }
}

impl Config {
    /// Reads `--dir` and `--dbfilename` from flag/value pairs.
    pub fn from_pairs(pairs: Vec<(String, String)>) -> (r: Config)
        ensures
            (opt_text(r.dir), opt_text(r.filename)) == settings(pair_texts(pairs@)),
    {
        let dir_flag: Vec<u8> = vec![45u8, 45u8, 100u8, 105u8, 114u8];
        let flag_file: Vec<u8> = vec![45u8, 45u8, 100u8, 98u8, 102u8, 105u8, 108u8, 101u8, 110u8, 97u8, 109u8, 101u8];
        assert(dir_flag@ =~= flag_dir());
        assert(flag_file@ =~= flag_dbfilename());
        let ghost ps = pair_texts(pairs@);
        let mut config = Config { dir: None, filename: None };
        let mut i: usize = 0;
        while i < pairs.len()
            invariant
                i <= pairs@.len(),
                ps == pair_texts(pairs@),
                dir_flag@ == flag_dir(),
                flag_file@ == flag_dbfilename(),
                (opt_text(config.dir), opt_text(config.filename)) == settings(ps.take(i as int)),
            decreases pairs@.len() - i,
        {
            proof {
                assert(ps.take(i + 1).drop_last() =~= ps.take(i as int));
                assert(ps.take(i + 1).last() == ps[i as int]);
            }
            if config.dir.is_some() && config.filename.is_some() {
            } else if bytes_equal(pairs[i].0.as_str().as_bytes(), dir_flag.as_slice()) {
                config.dir = Some(copy_text(&pairs[i].1));
            } else if bytes_equal(pairs[i].0.as_str().as_bytes(), flag_file.as_slice()) {
                config.filename = Some(copy_text(&pairs[i].1));
            }
            i = i + 1;
        }
        assert(ps.take(pairs@.len() as int) =~= ps);
        config
    }

    /// Reads the configuration from the program's arguments, program name excluded.
    pub fn from_args(args: Vec<String>) -> (r: Config)
        ensures
            (opt_text(r.dir), opt_text(r.filename)) == settings(arg_pairs(args@)),
    {
        let ghost a = args@;
        let pairs = neighbour_pairs(args);
        assert(pair_texts(pairs@) =~= arg_pairs(a));
        Config::from_pairs(pairs)
    }

    /// The snapshot directory as a path.
    pub fn dir_to_path(&self) -> (r: Option<std::path::PathBuf>)
        ensures
            r is Some == self.dir is Some,
    {
        match &self.dir {
            Some(d) => Some(path_of(d)),
            None => None,
        }
    }

    /// The reply to `CONFIG GET dir`.
    pub fn dir_to_value(&self) -> (r: Value)
        ensures
            r.model() == lookup_reply(name_dir(), opt_text(self.dir)),
    {
        let name: Vec<u8> = vec![100u8, 105u8, 114u8];
        assert(name@ =~= name_dir());
        lookup_value(name.as_slice(), &self.dir)
    }

    /// The reply to `CONFIG GET dbfilename`.
    pub fn filename_to_value(&self) -> (r: Value)
        ensures
            r.model() == lookup_reply(name_dbfilename(), opt_text(self.filename)),
    {
        let name: Vec<u8> = vec![100u8, 98u8, 102u8, 105u8, 108u8, 101u8, 110u8, 97u8, 109u8, 101u8];
        assert(name@ =~= name_dbfilename());
        lookup_value(name.as_slice(), &self.filename)
    }

    /// The snapshot file name.
    pub fn filename(&self) -> (r: Option<String>)
        ensures
            opt_text(r) == opt_text(self.filename),
    {
        match &self.filename {
            Some(f) => Some(copy_text(f)),
            None => None,
        }
    }
}

} // verus!
