//! JSON documents as plain values.

use crate::text::same_text;
use vstd::prelude::*;

verus! {

/// A JSON value.
#[derive(Debug)]
pub enum Json {
    Null,
    Bool(bool),
    /// A number, with its value where it is an integer that fits.
    Number(Option<u64>),
    Text(String),
    List(Vec<Json>),
    Object(Vec<(String, Json)>),
}

/// The value of the first entry with the given key.
pub open spec fn entry(entries: Seq<(String, Json)>, key: Seq<char>) -> Option<Json>
    decreases entries.len(),
{
    if entries.len() == 0 {
        None
    } else if entries[0].0@ == key {
        Some(entries[0].1)
    } else {
        entry(entries.skip(1), key)
    }
}

impl Json {
    /// The value under `key`, where this is an object that has one.
    pub open spec fn field(self, key: Seq<char>) -> Option<Json> {
        match self {
            Json::Object(entries) => entry(entries@, key),
            _ => None,
        }
    }

    /// The items, where this is a list.
    pub open spec fn items(self) -> Option<Seq<Json>> {
        match self {
            Json::List(items) => Some(items@),
            _ => None,
        }
    }

    /// The value, where this is an integer that fits.
    pub open spec fn integer(self) -> Option<u64> {
        match self {
            Json::Number(value) => value,
            _ => None,
        }
    }

    /// The value under `key`, where this is an object that has one.
    pub fn get(&self, key: &str) -> (value: Option<&Json>)
        ensures
            match value {
                Some(value) => self.field(key@) == Some(*value),
                None => self.field(key@) is None,
            },
    {
        match self {
            Json::Object(entries) => {
                let mut i: usize = 0;
                assert(entries@.skip(0) =~= entries@);
                while i < entries.len()
                    invariant
                        i <= entries@.len(),
                        entry(entries@, key@) == entry(entries@.skip(i as int), key@),
                        self.field(key@) == entry(entries@, key@),
                    decreases entries@.len() - i,
                {
                    if same_text(entries[i].0.as_str(), key) {
                        return Some(&entries[i].1);
                    }
                    assert(entries@.skip(i as int).skip(1) =~= entries@.skip(i + 1));
                    i += 1;
                }
                None
            },
            _ => None,
        }
    }

    /// The items, where this is a list.
    pub fn as_list(&self) -> (items: Option<&Vec<Json>>)
        ensures
            match items {
                Some(items) => self.items() == Some(items@),
                None => self.items() is None,
            },
    {
        match self {
            Json::List(items) => Some(items),
            _ => None,
        }
    }

    /// The value, where this is an integer that fits.
    pub fn as_u64(&self) -> (value: Option<u64>)
        ensures
            value == self.integer(),
    {
        match self {
            Json::Number(value) => *value,
            _ => None,
        }
    }
}

/// Of several entries of an object with one key the first counts, and a key
/// without an entry has no value. Nothing but an object has fields.
pub proof fn law_first_entry_of_a_key_counts(entries: Seq<(String, Json)>, key: Seq<char>)
    ensures
        match entry(entries, key) {
            Some(value) => exists|n: int|
                {
                    &&& 0 <= n < entries.len()
                    &&& (#[trigger] entries[n]).0@ == key
                    &&& entries[n].1 == value
                    &&& forall|earlier: int|
                        0 <= earlier < n ==> (#[trigger] entries[earlier]).0@ != key
                },
            None => forall|n: int| 0 <= n < entries.len() ==> (#[trigger] entries[n]).0@ != key,
        },
    decreases entries.len(),
{
    if entries.len() > 0 {
        let rest = entries.skip(1);
        law_first_entry_of_a_key_counts(rest, key);
        if entries[0].0@ == key {
            assert(entries[0].0@ == key);
        } else if let Some(value) = entry(rest, key) {
            let n = choose|n: int|
                {
                    &&& 0 <= n < rest.len()
                    &&& (#[trigger] rest[n]).0@ == key
                    &&& rest[n].1 == value
                    &&& forall|earlier: int|
                        0 <= earlier < n ==> (#[trigger] rest[earlier]).0@ != key
                };
            assert(entries[n + 1] == rest[n]);
            assert forall|earlier: int| 0 <= earlier < n + 1 implies (
            #[trigger] entries[earlier]).0@ != key by {
                if earlier > 0 {
                    assert(rest[earlier - 1].0@ != key);
                }
            }
        } else {
            assert forall|n: int| 0 <= n < entries.len() implies (#[trigger] entries[n]).0@
                != key by {
                if n > 0 {
                    assert(rest[n - 1].0@ != key);
                }
            }
        }
    }
}

/// Fields, items and integers are those of objects, lists and numbers alone.
pub proof fn law_values_are_of_their_kind(value: Json, key: Seq<char>)
    ensures
        match value {
            Json::Object(entries) => value.field(key) == entry(entries@, key) && value.items()
                is None && value.integer() is None,
            Json::List(items) => value.field(key) is None && value.items() == Some(items@)
                && value.integer() is None,
            Json::Number(n) => value.field(key) is None && value.items() is None && value.integer()
                == n,
            _ => value.field(key) is None && value.items() is None && value.integer() is None,
        },
{
}

} // verus!
