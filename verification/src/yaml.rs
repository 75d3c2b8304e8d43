//! A YAML document tree, as plain values.

use vstd::prelude::*;
use crate::strings::str_eq;

verus! {

/// A YAML value. Mapping keys are strings; floating-point numbers and
/// other scalars are `Other`.
#[derive(Debug)]
pub enum YamlValue {
    Null,
    Bool(bool),
    Int(i64),
    Str(String),
    Sequence(Vec<YamlValue>),
    Mapping(Vec<(String, YamlValue)>),
    Other,
}

/// The value of the first entry with key `key`.
pub open spec fn entry_value(entries: Seq<(String, YamlValue)>, key: Seq<char>) -> Option<YamlValue>
    decreases entries.len(),
{
    if entries.len() == 0 {
        None
    } else if entries[0].0@ == key {
        Some(entries[0].1)
    } else {
        entry_value(entries.drop_first(), key)
    }
}

/// Looking `key` up: the value under it when this is a mapping that has it.
pub open spec fn spec_get(v: YamlValue, key: Seq<char>) -> Option<YamlValue> {
    match v {
        YamlValue::Mapping(entries) => entry_value(entries@, key),
        _ => None,
    }
}

/// `spec_get` along an optional value.
pub open spec fn get_opt(v: Option<YamlValue>, key: Seq<char>) -> Option<YamlValue> {
    match v {
        Some(x) => spec_get(x, key),
        None => None,
    }
}

pub open spec fn str_of(v: Option<YamlValue>) -> Option<Seq<char>> {
    match v {
        Some(YamlValue::Str(s)) => Some(s@),
        _ => None,
    }
}

pub open spec fn int_of(v: Option<YamlValue>) -> Option<i64> {
    match v {
        Some(YamlValue::Int(i)) => Some(i),
        _ => None,
    }
}

pub open spec fn bool_of(v: Option<YamlValue>) -> Option<bool> {
    match v {
        Some(YamlValue::Bool(b)) => Some(b),
        _ => None,
    }
}

pub open spec fn seq_of(v: Option<YamlValue>) -> Option<Seq<YamlValue>> {
    match v {
        Some(YamlValue::Sequence(items)) => Some(items@),
        _ => None,
    }
}

impl YamlValue {
    /// The value under `key`, when this is a mapping that has it.
    pub fn get(&self, key: &str) -> (r: Option<&YamlValue>)
        ensures
            match r {
                Some(x) => spec_get(*self, key@) == Some(*x),
                None => spec_get(*self, key@) is None,
            },
    {
        match self {
            YamlValue::Mapping(entries) => {
                let mut i: usize = 0;
                assert(entries@.skip(0) =~= entries@);
                while i < entries.len()
                    invariant
                        i <= entries@.len(),
                        spec_get(*self, key@) == entry_value(entries@, key@),
                        entry_value(entries@, key@) == entry_value(entries@.skip(i as int), key@),
                    decreases entries@.len() - i,
                {
                    assert(entries@.skip(i as int).drop_first() =~= entries@.skip(i as int + 1));
                    assert(entries@.skip(i as int)[0] == entries@[i as int]);
                    if str_eq(entries[i].0.as_str(), key) {
                        return Some(&entries[i].1);
                    }
                    i = i + 1;
                }
                None
            },
            _ => None,
        }
    }

    pub fn as_str(&self) -> (r: Option<&str>)
        ensures
            match r {
                Some(s) => str_of(Some(*self)) == Some(s@),
                None => str_of(Some(*self)) is None,
            },
    {
        match self {
            YamlValue::Str(s) => Some(s.as_str()),
            _ => None,
        }
    }

    pub fn as_i64(&self) -> (r: Option<i64>)
        ensures
            r == int_of(Some(*self)),
    {
        match self {
            YamlValue::Int(i) => Some(*i),
            _ => None,
        }
    }

    pub fn as_bool(&self) -> (r: Option<bool>)
        ensures
            r == bool_of(Some(*self)),
    {
        match self {
            YamlValue::Bool(b) => Some(*b),
            _ => None,
        }
    }

    pub fn as_sequence(&self) -> (r: Option<&Vec<YamlValue>>)
        ensures
            match r {
                Some(v) => seq_of(Some(*self)) == Some(v@),
                None => seq_of(Some(*self)) is None,
            },
    {
        match self {
            YamlValue::Sequence(items) => Some(items),
            _ => None,
        }
    }

    pub fn is_null(&self) -> (r: bool)
        ensures
            r == (*self is Null),
    {
        match self {
            YamlValue::Null => true,
            _ => false,
        }
    }
}

/// Looks `key` up in an optional value.
pub fn get_in<'a>(v: Option<&'a YamlValue>, key: &str) -> (r: Option<&'a YamlValue>)
    ensures
        match r {
            Some(x) => get_opt(match v {
                Some(y) => Some(*y),
                None => None,
            }, key@) == Some(*x),
            None => get_opt(match v {
                Some(y) => Some(*y),
                None => None,
            }, key@) is None,
        },
{
    match v {
        Some(x) => x.get(key),
        None => None,
    }
}

} // verus!
