//! The document model: a closed tree of JSON values.
use vstd::prelude::*;

verus! {

/// A JSON number, kept as the three forms a JSON reader distinguishes.
#[derive(Debug, PartialEq)]
pub enum JsonNumber {
    /// A non-negative integer.
    PosInt(u64),
    /// A negative integer.
    NegInt(i64),
    /// A floating-point number, held as its shortest decimal text.
    Float(String),
}

/// A JSON value. An object keeps its members in order; a key is looked up
/// at its first occurrence.
#[derive(Debug, PartialEq)]
pub enum JsonValue {
    Null,
    Bool(bool),
    Number(JsonNumber),
    String(String),
    /// Elements in order.
    Array(Vec<JsonValue>),
    /// Members in order, each a key and its value.
    Object(Vec<(String, JsonValue)>),
}

/// Position of the first member of `members` whose key is `key`.
pub open spec fn first_key_at(members: Seq<(String, JsonValue)>, key: Seq<char>) -> Option<int>
    decreases members.len(),
{
    if members.len() == 0 {
        None
    } else if members[0].0@ == key {
        Some(0)
    } else {
        match first_key_at(members.drop_first(), key) {
            Some(i) => Some(i + 1),
            None => None,
        }
    }
}

/// The value stored under `key` in `v`: absent unless `v` is an object
/// that has a member with that key.
pub open spec fn member(v: JsonValue, key: Seq<char>) -> Option<JsonValue> {
    match v {
        JsonValue::Object(members) => match first_key_at(members@, key) {
            Some(i) => Some(members@[i].1),
            None => None,
        },
        _ => None,
    }
}

/// `first_key_at` finds the first member with the key, and only when there is one.
pub proof fn lemma_first_key_at(members: Seq<(String, JsonValue)>, key: Seq<char>)
    ensures
        match first_key_at(members, key) {
            Some(i) => 0 <= i < members.len() && members[i].0@ == key && forall|j: int|
                0 <= j < i ==> (#[trigger] members[j]).0@ != key,
            None => forall|j: int| 0 <= j < members.len() ==> (#[trigger] members[j]).0@ != key,
        },
    decreases members.len(),
{
    if members.len() > 0 && members[0].0@ != key {
        let rest = members.drop_first();
        lemma_first_key_at(rest, key);
        assert forall|j: int| 1 <= j < members.len() implies #[trigger] members[j] == rest[j - 1] by {}
        match first_key_at(rest, key) {
            Some(i) => {
                assert forall|j: int| 0 <= j < i + 1 implies (#[trigger] members[j]).0@ != key by {
                    if j > 0 { assert(members[j] == rest[j - 1]); }
                }
            },
            None => {
                assert forall|j: int| 0 <= j < members.len() implies (#[trigger] members[j]).0@ != key by {
                    if j > 0 { assert(members[j] == rest[j - 1]); }
                }
            },
        }
    }
}

impl JsonValue {
    /// Looks `key` up in this value; `None` unless this is an object with
    /// such a member.
    pub fn get(&self, key: &str) -> (r: Option<&JsonValue>)
        ensures
            match r {
                Some(x) => member(*self, key@) == Some(*x),
                None => member(*self, key@) is None,
            },
    {
        match self {
            JsonValue::Object(members) => {
                let mut i: usize = 0;
                while i < members.len()
                    invariant
                        *self == JsonValue::Object(*members),
                        0 <= i <= members@.len(),
                        forall|j: int| 0 <= j < i ==> #[trigger] members@[j].0@ != key@,
                    decreases members@.len() - i,
                {
                    let entry = &members[i];
                    let name: &str = entry.0.as_str();
                    if str_eq(name, key) {
                        proof {
                            lemma_first_key_at(members@, key@);
                            assert(members@[i as int].0@ == key@);
                            if let Some(k) = first_key_at(members@, key@) {
                                if k < i {
                                    assert(members@[k].0@ != key@);
                                }
                                if k > i {
                                    assert(members@[i as int].0@ != key@);
                                }
                            }
                        }
                        return Some(&entry.1);
                    }
                    i = i + 1;
                }
                proof {
                    lemma_first_key_at(members@, key@);
                    if let Some(k) = first_key_at(members@, key@) {
                        assert(members@[k].0@ != key@);
                    }
                }
                None
            },
            _ => None,
        }
    }
}

/// The name of a value's kind, as error messages print it.
pub open spec fn kind_name(v: JsonValue) -> Seq<char> {
    match v {
        JsonValue::Array(_) => "array"@,
        JsonValue::Bool(_) => "boolean"@,
        JsonValue::Number(JsonNumber::Float(_)) => "f64"@,
        JsonValue::Null => "null"@,
        JsonValue::Number(_) => "number"@,
        JsonValue::Object(_) => "object"@,
        JsonValue::String(_) => "string"@,
    }
}

/// Names the kind of a value. Every value has a kind, so the result is
/// always present.
pub fn json_value_type(obj: &JsonValue) -> (r: Option<&'static str>)
    ensures
        r matches Some(name) && name@ == kind_name(*obj),
{
    match obj {
        JsonValue::Array(_) => Some("array"),
        JsonValue::Bool(_) => Some("boolean"),
        JsonValue::Number(JsonNumber::Float(_)) => Some("f64"),
        JsonValue::Null => Some("null"),
        JsonValue::Number(_) => Some("number"),
        JsonValue::Object(_) => Some("object"),
        JsonValue::String(_) => Some("string"),
    }
}

/// Whether two strings hold the same characters.
fn str_eq(a: &str, b: &str) -> (r: bool)
    ensures
        r == (a@ == b@),
{
    let n = a.unicode_len();
    let m = b.unicode_len();
    if n != m {
        return false;
    }
    let mut i: usize = 0;
    while i < n
        invariant
            n == a@.len(),
            m == b@.len(),
            n == m,
            0 <= i <= n,
            a@.subrange(0, i as int) == b@.subrange(0, i as int),
        decreases n - i,
    {
        if a.get_char(i) != b.get_char(i) {
            return false;
        }
        proof {
            assert(a@.subrange(0, i + 1) == a@.subrange(0, i as int).push(a@[i as int]));
            assert(b@.subrange(0, i + 1) == b@.subrange(0, i as int).push(b@[i as int]));
        }
        i = i + 1;
    }
    proof {
        assert(a@ == a@.subrange(0, n as int));
        assert(b@ == b@.subrange(0, n as int));
    }
    true
}

} // verus!
