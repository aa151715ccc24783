use vstd::prelude::*;
use vstd::string::*;

use crate::field_name::{path_view, FieldName, Segment};

verus! {

/// A generic value tree that mirrors the shape of some structured data.
#[derive(PartialEq, Debug)]
pub enum Value {
    /// Absence of a value.
    Unit,
    Bool(bool),
    Int8(i8),
    Int16(i16),
    Int32(i32),
    Int64(i64),
    Uint8(u8),
    Uint16(u16),
    Uint32(u32),
    Uint64(u64),
    /// A 32-bit float, held as its bit pattern.
    Float32(u32),
    /// A 64-bit float, held as its bit pattern.
    Float64(u64),
    Char(char),
    Str(String),
    Bytes(Vec<u8>),
    /// A homogeneous sequence.
    Array(Vec<Value>),
    /// A fixed-arity sequence where positions matter.
    Tuple(Vec<Value>),
    /// Keyed entries in insertion order.
    Object(Vec<(String, Value)>),
}

/// Why a path does not lead to a value.
#[derive(PartialEq, Eq, Debug, Clone, Copy, Structural)]
pub enum NavError {
    /// A literal segment met a value that is no map, or a map without that key.
    FieldNotFound,
    /// A positional segment met a value that is no sequence, or one too short.
    IndexOutOfRange,
}

/// The first entry whose key is `k`.
pub open spec fn find_key(entries: Seq<(String, Value)>, k: Seq<char>) -> Option<int>
    decreases entries.len(),
{
    if entries.len() == 0 {
        None
    } else if entries[0].0@ == k {
        Some(0)
    } else {
        match find_key(entries.drop_first(), k) {
            Some(i) => Some(i + 1),
            None => None,
        }
    }
}

/// The child of `v` that one segment addresses.
pub open spec fn step(v: Value, g: Segment) -> Result<Value, NavError> {
    match g {
        Segment::Literal(k) => match v {
            Value::Object(es) => match find_key(es@, k) {
                Some(i) => Ok(es@[i].1),
                None => Err(NavError::FieldNotFound),
            },
            _ => Err(NavError::FieldNotFound),
        },
        Segment::Tuple(i) | Segment::Array(i) => match v {
            Value::Array(xs) | Value::Tuple(xs) => if i < xs@.len() {
                Ok(xs@[i as int])
            } else {
                Err(NavError::IndexOutOfRange)
            },
            _ => Err(NavError::IndexOutOfRange),
        },
    }
}

/// The sub-value that a path addresses, walking its segments left to right.
pub open spec fn resolve(v: Value, p: Seq<Segment>) -> Result<Value, NavError>
    decreases p.len(),
{
    if p.len() == 0 {
        Ok(v)
    } else {
        match step(v, p[0]) {
            Ok(w) => resolve(w, p.drop_first()),
            Err(e) => Err(e),
        }
    }
}

pub open spec fn nav_message(e: NavError) -> Seq<char> {
    match e {
        NavError::FieldNotFound => "field not found"@,
        NavError::IndexOutOfRange => "index out of range"@,
    }
}

impl NavError {
    /// The text reported for a path that does not lead to a value.
    pub fn message(&self) -> (r: String)
        ensures
            r@ == nav_message(*self),
    {
        match self {
            NavError::FieldNotFound => String::from_str("field not found"),
            NavError::IndexOutOfRange => String::from_str("index out of range"),
        }
    }
}

proof fn lemma_find_key(entries: Seq<(String, Value)>, k: Seq<char>, i: int)
    requires
        0 <= i <= entries.len(),
        forall|j: int| 0 <= j < i ==> entries[j].0@ != k,
        i < entries.len() ==> entries[i].0@ == k,
    ensures
        find_key(entries, k) == (if i < entries.len() {
            Some(i)
        } else {
            None::<int>
        }),
    decreases i,
{
    if i > 0 {
        lemma_find_key(entries.drop_first(), k, i - 1);
    } else if entries.len() > 0 {
    }
}

/// The child of `v` that `f` addresses.
fn step_exec<'a>(v: &'a Value, f: &FieldName) -> (r: Result<&'a Value, NavError>)
    ensures
        match r {
            Ok(w) => step(*v, f@) == Ok::<Value, NavError>(*w),
            Err(e) => step(*v, f@) == Err::<Value, NavError>(e),
        },
{
    match f {
        FieldName::Literal(k) => match v {
            Value::Object(es) => {
                let mut i: usize = 0;
                while i < es.len()
                    invariant
                        i <= es@.len(),
                        *v == Value::Object(*es),
                        f@ == Segment::Literal(k@),
                        forall|j: int| 0 <= j < i ==> es@[j].0@ != k@,
                    decreases es@.len() - i,
                {
                    if es[i].0 == *k {
                        proof {
                            lemma_find_key(es@, k@, i as int);
                        }
                        return Ok(&es[i].1);
                    }
                    i = i + 1;
                }
                proof {
                    lemma_find_key(es@, k@, i as int);
                }
                Err(NavError::FieldNotFound)
            },
            _ => Err(NavError::FieldNotFound),
        },
        FieldName::Tuple(i) | FieldName::Array(i) => match v {
            Value::Array(xs) | Value::Tuple(xs) => {
                if *i < xs.len() {
                    Ok(&xs[*i])
                } else {
                    Err(NavError::IndexOutOfRange)
                }
            },
            _ => Err(NavError::IndexOutOfRange),
        },
    }
}

/// Locates the sub-value of `root` that `path` addresses.
pub fn locate<'a>(root: &'a Value, path: &Vec<FieldName>) -> (r: Result<&'a Value, NavError>)
    ensures
        match r {
            Ok(w) => resolve(*root, path_view(path@)) == Ok::<Value, NavError>(*w),
            Err(e) => resolve(*root, path_view(path@)) == Err::<Value, NavError>(e),
        },
{
    let ghost p = path_view(path@);
    let mut cur: &Value = root;
    let mut i: usize = 0;
    assert(p.subrange(0, p.len() as int) =~= p);
    while i < path.len()
        invariant
            i <= path@.len(),
            p == path_view(path@),
            resolve(*root, p) == resolve(*cur, p.subrange(i as int, p.len() as int)),
        decreases path@.len() - i,
    {
        let ghost rest = p.subrange(i as int, p.len() as int);
        assert(rest[0] == path@[i as int]@);
        assert(rest.drop_first() =~= p.subrange(i + 1, p.len() as int));
        match step_exec(cur, &path[i]) {
            Ok(w) => {
                cur = w;
            },
            Err(e) => {
                return Err(e);
            },
        }
        i = i + 1;
    }
    Ok(cur)
}

} // verus!
