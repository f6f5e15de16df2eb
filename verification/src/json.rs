//! JSON values.

use crate::text::{owned, same};
use serde_json::Value;
use vstd::prelude::*;

verus! {

/// A JSON value. Numbers that are no integers are kept as the bits of a double-precision
/// number.
#[derive(Debug)]
pub enum Json {
    Null,
    Bool(bool),
    /// An integer from -2^63 up to 2^63 - 1.
    Int(i64),
    /// An integer from 2^63 on.
    UInt(u64),
    Float(u64),
    Str(String),
    Array(Vec<Json>),
    /// Keys and values; of two entries with one key the later one counts.
    Object(Vec<(String, Json)>),
}

/// What a JSON value holds.
pub enum JsonV {
    Null,
    Bool(bool),
    Num(int),
    Float(u64),
    Str(Seq<char>),
    Arr(Seq<JsonV>),
    Obj(Map<Seq<char>, JsonV>),
}

/// The values of a list.
pub open spec fn array_view(s: Seq<Json>) -> Seq<JsonV>
    decreases s,
{
    if s.len() == 0 { Seq::empty() } else { array_view(s.drop_last()).push(s.last().view()) }
}

/// The entries of an object.
pub open spec fn object_view(s: Seq<(String, Json)>) -> Map<Seq<char>, JsonV>
    decreases s,
{
    if s.len() == 0 {
        Map::empty()
    } else {
        object_view(s.drop_last()).insert(s.last().0@, s.last().1.view())
    }
}

impl Json {
    /// What the value holds.
    pub open spec fn view(self) -> JsonV
        decreases self,
    {
        match self {
            Json::Null => JsonV::Null,
            Json::Bool(b) => JsonV::Bool(b),
            Json::Int(i) => JsonV::Num(i as int),
            Json::UInt(u) => JsonV::Num(u as int),
            Json::Float(f) => JsonV::Float(f),
            Json::Str(s) => JsonV::Str(s@),
            Json::Array(a) => JsonV::Arr(array_view(a@)),
            Json::Object(o) => JsonV::Obj(object_view(o@)),
        }
    }
}

/// The value that a JSON text spells, where it is one.
pub uninterp spec fn parsed_json(text: Seq<u8>) -> Option<JsonV>;

/// `Value` of serde_json: any JSON value.
#[verifier::external_type_specification]
#[verifier::external_body]
pub struct ExValue(serde_json::Value);

/// Rebuilds a `serde_json::Value` as a value of this module, variant by variant. Its result is
/// not described: the parser below gives it a name.
#[verifier::external_body]
fn from_value(v: Value) -> (r: Json) {
    match v {
        Value::Null => Json::Null,
        Value::Bool(b) => Json::Bool(b),
        Value::Number(n) => match (n.as_i64(), n.as_u64()) {
            (Some(i), _) => Json::Int(i),
            (None, Some(u)) => Json::UInt(u),
            (None, None) => Json::Float(n.as_f64().unwrap_or_default().to_bits()),
        },
        Value::String(s) => Json::Str(s),
        Value::Array(a) => Json::Array(a.into_iter().map(from_value).collect()),
        Value::Object(o) => Json::Object(o.into_iter().map(|(k, v)| (k, from_value(v))).collect()),
    }
}

/// `serde_json::from_slice` into a `serde_json::Value`: the value that the bytes spell, or
/// nothing where they are no JSON text. It depends on the bytes alone.
#[verifier::external_body]
pub(crate) fn parse_json(text: &[u8]) -> (r: Option<Json>)
    ensures
        match parsed_json(text@) {
            Some(v) => r is Some && r->0@ == v,
            None => r is None,
        },
{
    serde_json::from_slice::<serde_json::Value>(text).ok().map(from_value)
}

/// Elements keep their place.
pub proof fn lemma_array_view(s: Seq<Json>)
    ensures
        array_view(s).len() == s.len(),
        forall|i: int| 0 <= i < s.len() ==> #[trigger] array_view(s)[i] == s[i]@,
    decreases s.len(),
{
    if s.len() > 0 {
        lemma_array_view(s.drop_last());
        assert forall|i: int| 0 <= i < s.len() implies #[trigger] array_view(s)[i] == s[i]@ by {
            if i < s.len() - 1 {
                assert(array_view(s.drop_last())[i] == s.drop_last()[i]@);
            }
        }
    }
}

/// The place of the last entry with a key.
pub open spec fn last_entry(s: Seq<(String, Json)>, key: Seq<char>) -> Option<int>
    decreases s.len(),
{
    if s.len() == 0 {
        None
    } else if s.last().0@ == key {
        Some(s.len() - 1)
    } else {
        last_entry(s.drop_last(), key)
    }
}

/// An object's member is the last entry with its key.
pub proof fn lemma_object_view(s: Seq<(String, Json)>, key: Seq<char>)
    ensures
        match last_entry(s, key) {
            Some(i) => 0 <= i < s.len() && s[i].0@ == key && object_view(s).contains_key(key) && object_view(s)[key]
                == s[i].1@,
            None => !object_view(s).contains_key(key),
        },
    decreases s.len(),
{
    if s.len() > 0 {
        lemma_object_view(s.drop_last(), key);
    }
}

/// The value of a member, where there is one.
pub open spec fn member(v: JsonV, key: Seq<char>) -> Option<JsonV> {
    match v {
        JsonV::Obj(m) => if m.contains_key(key) { Some(m[key]) } else { None },
        _ => None,
    }
}

impl Json {
    /// The member of an object.
    pub fn get(&self, key: &str) -> (r: Option<&Json>)
        ensures
            match member(self@, key@) {
                Some(v) => r is Some && r->0@ == v,
                None => r is None,
            },
    {
        match self {
            Json::Object(o) => {
                let mut i: usize = o.len();
                proof {
                    lemma_object_view(o@, key@);
                    assert(o@.take(i as int) =~= o@);
                }
                while i > 0
                    invariant
                        i <= o@.len(),
                        last_entry(o@, key@) == last_entry(o@.take(i as int), key@),
                        match last_entry(o@, key@) {
                            Some(k) => 0 <= k < o@.len() && object_view(o@).contains_key(key@) && object_view(o@)[key@]
                                == o@[k].1@,
                            None => !object_view(o@).contains_key(key@),
                        },
                        self@ == JsonV::Obj(object_view(o@)),
                    decreases i,
                {
                    i -= 1;
                    assert(o@.take(i + 1).drop_last() =~= o@.take(i as int));
                    if same(o[i].0.as_str(), key) {
                        assert(last_entry(o@, key@) == Some(i as int));
                        return Some(&o[i].1);
                    }
                }
                None
            },
            _ => None,
        }
    }

    /// The integer, where the value is one that fits.
    pub fn as_i64(&self) -> (r: Option<i64>)
        ensures
            r == match self@ {
                JsonV::Num(n) => if i64::MIN <= n <= i64::MAX { Some(n as i64) } else { None },
                _ => None::<i64>,
            },
    {
        match self {
            Json::Int(i) => Some(*i),
            Json::UInt(u) => if *u <= i64::MAX as u64 { Some(*u as i64) } else { None },
            _ => None,
        }
    }

    /// The unsigned integer, where the value is one that fits.
    pub fn as_u64(&self) -> (r: Option<u64>)
        ensures
            r == match self@ {
                JsonV::Num(n) => if 0 <= n <= u64::MAX { Some(n as u64) } else { None },
                _ => None::<u64>,
            },
    {
        match self {
            Json::Int(i) => if *i >= 0 { Some(*i as u64) } else { None },
            Json::UInt(u) => Some(*u),
            _ => None,
        }
    }

    pub fn as_bool(&self) -> (r: Option<bool>)
        ensures
            r == match self@ {
                JsonV::Bool(b) => Some(b),
                _ => None::<bool>,
            },
    {
        match self {
            Json::Bool(b) => Some(*b),
            _ => None,
        }
    }

    pub fn as_str(&self) -> (r: Option<&str>)
        ensures
            match self@ {
                JsonV::Str(s) => r is Some && r->0@ == s,
                _ => r is None,
            },
    {
        match self {
            Json::Str(s) => Some(s.as_str()),
            _ => None,
        }
    }

    pub fn as_array(&self) -> (r: Option<&Vec<Json>>)
        ensures
            match self@ {
                JsonV::Arr(a) => r is Some && array_view(r->0@) == a,
                _ => r is None,
            },
    {
        match self {
            Json::Array(a) => Some(a),
            _ => None,
        }
    }

    /// Whether the value is an object.
    pub fn is_object(&self) -> (r: bool)
        ensures
            r == (self@ is Obj),
    {
        match self {
            Json::Object(_) => true,
            _ => false,
        }
    }

    /// A copy.
    pub fn copy(&self) -> (r: Json)
        ensures
            r@ == self@,
        decreases self,
    {
        match self {
            Json::Null => Json::Null,
            Json::Bool(b) => Json::Bool(*b),
            Json::Int(i) => Json::Int(*i),
            Json::UInt(u) => Json::UInt(*u),
            Json::Float(f) => Json::Float(*f),
            Json::Str(s) => Json::Str(s.clone()),
            Json::Array(a) => {
                let mut out: Vec<Json> = Vec::new();
                let mut i: usize = 0;
                while i < a.len()
                    invariant
                        i <= a@.len(),
                        array_view(out@) == array_view(a@.take(i as int)),
                        *self == Json::Array(*a),
                    decreases a@.len() - i,
                {
                    assert(decreases_to!(*self => self->Array_0));
                    assert(decreases_to!(*a => a@));
                    assert(decreases_to!(a@ => a@[i as int]));
                    let x: Json = a[i].copy();
                    proof {
                        assert(a@.take(i + 1).drop_last() =~= a@.take(i as int));
                        assert(out@.push(x).drop_last() =~= out@);
                    }
                    out.push(x);
                    i += 1;
                }
                assert(a@.take(i as int) =~= a@);
                Json::Array(out)
            },
            Json::Object(o) => {
                let mut out: Vec<(String, Json)> = Vec::new();
                let mut i: usize = 0;
                while i < o.len()
                    invariant
                        i <= o@.len(),
                        object_view(out@) == object_view(o@.take(i as int)),
                        *self == Json::Object(*o),
                    decreases o@.len() - i,
                {
                    assert(decreases_to!(*self => self->Object_0));
                    assert(decreases_to!(*o => o@));
                    assert(decreases_to!(o@ => o@[i as int]));
                    assert(decreases_to!(o@[i as int] => o@[i as int].1));
                    let x: Json = o[i].1.copy();
                    let e: (String, Json) = (o[i].0.clone(), x);
                    proof {
                        assert(o@.take(i + 1).drop_last() =~= o@.take(i as int));
                        assert(out@.push(e).drop_last() =~= out@);
                    }
                    out.push(e);
                    i += 1;
                }
                assert(o@.take(i as int) =~= o@);
                Json::Object(out)
            },
        }
    }

    /// A text value.
    pub fn text(s: &str) -> (r: Json)
        ensures
            r@ == JsonV::Str(s@),
    {
        Json::Str(owned(s))
    }

    /// An object without members.
    pub fn object() -> (r: Json)
        ensures
            r@ == JsonV::Obj(Map::empty()),
    {
        Json::Object(Vec::new())
    }

    /// The object with a member set; any other value as it is.
    pub fn with(self, key: &str, v: Json) -> (r: Json)
        ensures
            r@ == match self@ {
                JsonV::Obj(m) => JsonV::Obj(m.insert(key@, v@)),
                other => other,
            },
    {
        match self {
            Json::Object(o) => {
                let mut rest: Vec<(String, Json)> = without_key(o, key);
                let ghost before = rest@;
                let e: (String, Json) = (owned(key), v);
                rest.push(e);
                assert(rest@.drop_last() =~= before);
                assert(object_view(o@).remove(key@).insert(key@, v@) =~= object_view(o@).insert(key@, v@));
                Json::Object(rest)
            },
            other => other,
        }
    }

    /// The object without a member; any other value as it is.
    pub fn without(self, key: &str) -> (r: Json)
        ensures
            r@ == match self@ {
                JsonV::Obj(m) => JsonV::Obj(m.remove(key@)),
                other => other,
            },
    {
        match self {
            Json::Object(o) => Json::Object(without_key(o, key)),
            other => other,
        }
    }
}

fn without_key(o: Vec<(String, Json)>, key: &str) -> (r: Vec<(String, Json)>)
    ensures
        object_view(r@) == object_view(o@).remove(key@),
{
    let mut out: Vec<(String, Json)> = Vec::new();
    let mut i: usize = 0;
    assert(object_view(o@.take(0)).remove(key@) =~= Map::<Seq<char>, JsonV>::empty());
    while i < o.len()
        invariant
            i <= o@.len(),
            object_view(out@) == object_view(o@.take(i as int)).remove(key@),
        decreases o@.len() - i,
    {
        let ghost before = out@;
        let ghost whole = object_view(o@.take(i as int));
        assert(o@.take(i + 1).drop_last() =~= o@.take(i as int));
        if !same(o[i].0.as_str(), key) {
            let e: (String, Json) = (o[i].0.clone(), o[i].1.copy());
            out.push(e);
            assert(out@.drop_last() =~= before);
            assert(whole.remove(key@).insert(e.0@, e.1@) =~= whole.insert(e.0@, e.1@).remove(key@));
        } else {
            assert(whole.remove(key@) =~= whole.insert(o@[i as int].0@, o@[i as int].1@).remove(key@));
        }
        i += 1;
    }
    assert(o@.take(i as int) =~= o@);
    out
}

/// Whether there is no metadata: none given, or an object without members.
pub fn is_metadata_empty(meta: &Option<Json>) -> (r: bool)
    ensures
        r == match *meta {
            None => true,
            Some(v) => v@ == JsonV::Obj(Map::empty()),
        },
{
    match meta {
        None => true,
        Some(Json::Object(o)) => {
            if o.len() > 0 {
                proof {
                    assert(object_view(o@).contains_key(o@.last().0@));
                }
            }
            o.len() == 0
        },
        Some(_) => false,
    }
}

}
