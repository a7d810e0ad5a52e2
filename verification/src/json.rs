//! A plain model of the JSON values the metadata ingest reads: the
//! surrounding program parses the package manager's output and hands the
//! engine one of these, so every decision taken on it is verified.

use vstd::prelude::*;
use crate::strutil::str_eq;

verus! {

/// A JSON value, with objects as ordered key/value lists and numbers kept
/// in their textual form; the ingest never reads a number.
pub enum JsonValue {
    Null,
    Bool(bool),
    Number(String),
    Str(String),
    Array(Vec<JsonValue>),
    Object(Vec<(String, JsonValue)>),
}

/// Index of the first entry with the given key, or -1 when absent.
pub open spec fn key_index<T>(entries: Seq<(String, T)>, key: Seq<char>) -> int
    decreases entries.len(),
{
    if entries.len() == 0 {
        -1
    } else if entries[0].0@ == key {
        0
    } else {
        let r = key_index(entries.drop_first(), key);
        if r < 0 {
            -1
        } else {
            r + 1
        }
    }
}

pub proof fn lemma_key_index<T>(entries: Seq<(String, T)>, key: Seq<char>)
    ensures
        -1 <= key_index(entries, key) < entries.len(),
        key_index(entries, key) == -1 <==> (forall|i: int|
            0 <= i < entries.len() ==> (#[trigger] entries[i]).0@ != key),
        key_index(entries, key) >= 0 ==> entries[key_index(entries, key)].0@ == key && (forall|
            i: int,
        |
            0 <= i < key_index(entries, key) ==> (#[trigger] entries[i]).0@ != key),
    decreases entries.len(),
{
    if entries.len() > 0 && entries[0].0@ != key {
        lemma_key_index(entries.drop_first(), key);
        let r = key_index(entries.drop_first(), key);
        if r == -1 {
            assert forall|i: int| 0 <= i < entries.len() implies (#[trigger] entries[i]).0@
                != key by {
                if i > 0 {
                    assert(entries.drop_first()[i - 1].0@ != key);
                }
            }
        } else {
            assert(entries[r + 1] == entries.drop_first()[r]);
            assert forall|i: int| 0 <= i < r + 1 implies (#[trigger] entries[i]).0@ != key by {
                if i > 0 {
                    assert(entries.drop_first()[i - 1].0@ != key);
                }
            }
        }
    }
}

/// The value stored under the first entry with the given key.
pub open spec fn spec_assoc_get<T>(entries: Seq<(String, T)>, key: Seq<char>) -> Option<T> {
    let i = key_index(entries, key);
    if i < 0 {
        None
    } else {
        Some(entries[i].1)
    }
}

/// First-match lookup in a key/value list; the exact counterpart of
/// `spec_assoc_get`.
pub fn assoc_get<'a, T>(entries: &'a Vec<(String, T)>, key: &str) -> (r: Option<&'a T>)
    ensures
        match r {
            Some(v) => spec_assoc_get(entries@, key@) == Some(*v),
            None => spec_assoc_get(entries@, key@) is None,
        },
{
    proof {
        lemma_key_index(entries@, key@);
    }
    let mut i: usize = 0;
    while i < entries.len()
        invariant
            i <= entries@.len(),
            forall|m: int| 0 <= m < i ==> (#[trigger] entries@[m]).0@ != key@,
        decreases entries@.len() - i,
    {
        if str_eq(entries[i].0.as_str(), key) {
            proof {
                lemma_key_index(entries@, key@);
                let f = key_index(entries@, key@);
                if f == -1 {
                    assert(entries@[i as int].0@ != key@);
                }
                if f < i as int {
                    assert(entries@[f].0@ == key@);
                }
                if f > i as int {
                    assert(entries@[i as int].0@ != key@);
                }
            }
            return Some(&entries[i].1);
        }
        i = i + 1;
    }
    None
}

/// What a metadata lookup finds under a key: for each accessor below, the
/// looked-up value either has the wanted shape or the lookup fails.
impl JsonValue {
    /// The member of an object under a key, looked up first-match.
    pub open spec fn spec_get(&self, key: Seq<char>) -> Option<JsonValue> {
        match self {
            JsonValue::Object(entries) => spec_assoc_get(entries@, key),
            _ => None,
        }
    }

    /// Exact counterpart of `spec_get`.
    pub fn get<'a>(&'a self, key: &str) -> (r: Option<&'a JsonValue>)
        ensures
            match r {
                Some(v) => self.spec_get(key@) == Some(*v),
                None => self.spec_get(key@) is None,
            },
    {
        match self {
            JsonValue::Object(entries) => assoc_get(entries, key),
            _ => None,
        }
    }

    /// The text of a string value.
    pub fn as_str<'a>(&'a self) -> (r: Option<&'a str>)
        ensures
            r is Some <==> self is Str,
            r is Some ==> r->Some_0@ == self->Str_0@,
    {
        match self {
            JsonValue::Str(s) => Some(s.as_str()),
            _ => None,
        }
    }

    /// The elements of an array value.
    pub fn as_array<'a>(&'a self) -> (r: Option<&'a Vec<JsonValue>>)
        ensures
            r is Some <==> self is Array,
            r is Some ==> r->Some_0@ == self->Array_0@,
    {
        match self {
            JsonValue::Array(v) => Some(v),
            _ => None,
        }
    }

    /// The entries of an object value.
    pub fn as_object<'a>(&'a self) -> (r: Option<&'a Vec<(String, JsonValue)>>)
        ensures
            r is Some <==> self is Object,
            r is Some ==> r->Some_0@ == self->Object_0@,
    {
        match self {
            JsonValue::Object(v) => Some(v),
            _ => None,
        }
    }
}

} // verus!
