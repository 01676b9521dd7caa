//! Primary keys, and maps from them.

use std::collections::BTreeMap;
use vstd::prelude::*;

use crate::error::{corrupt, DevonResult, ErrorKind};
use crate::names::NameMap;
use crate::order::{standing, Standing};
use crate::text::{quoted, signed_text};
use crate::types::{Value, ValueView};

verus! {

broadcast use vstd::std_specs::btree::group_btree_axioms;

/// A primary key: node tables have integer or text keys only.
#[derive(Debug, Clone, PartialEq, Eq, PartialOrd, Ord, Hash)]
pub enum PkKey {
    Int64(i64),
    String(String),
}

/// What a primary key says.
pub enum KeyView {
    Int(i64),
    Text(Seq<char>),
}

impl View for PkKey {
    type V = KeyView;

    open spec fn view(&self) -> KeyView {
        match self {
            PkKey::Int64(number) => KeyView::Int(*number),
            PkKey::String(text) => KeyView::Text(text@),
        }
    }
}

/// The key that a value is, if it is one.
pub open spec fn key_of(value: ValueView) -> Option<KeyView> {
    match value {
        ValueView::Int64(number) => Some(KeyView::Int(number)),
        ValueView::String(text) => Some(KeyView::Text(text)),
        _ => None,
    }
}

/// The key of a row, if the column is there and holds one.
pub open spec fn row_key(row: Seq<ValueView>, column: int) -> Option<KeyView> {
    if 0 <= column < row.len() {
        key_of(row[column])
    } else {
        None
    }
}

/// What a value is called in messages.
pub open spec fn kind_name(value: ValueView) -> Seq<char> {
    match value {
        ValueView::Null => "Null"@,
        ValueView::Bool(_) => "Bool"@,
        ValueView::Int64(_) => "Int64"@,
        ValueView::Float64(_) => "Float64"@,
        ValueView::String(_) => "String"@,
        ValueView::Vector(_) => "Vector"@,
        ValueView::GeoPoint(_, _) => "GeoPoint"@,
        ValueView::Timestamp(_) => "Timestamp"@,
        ValueView::Bytes(_) => "Bytes"@,
        ValueView::Decimal(_) => "Decimal"@,
        ValueView::Json(_) => "Json"@,
    }
}

pub(crate) fn value_kind(value: &Value) -> (name: &'static str)
    ensures
        name@ == kind_name(value@),
{
    match value {
        Value::Null => "Null",
        Value::Bool(_) => "Bool",
        Value::Int64(_) => "Int64",
        Value::Float64(_) => "Float64",
        Value::String(_) => "String",
        Value::Vector(_) => "Vector",
        Value::GeoPoint(_, _) => "GeoPoint",
        Value::Timestamp(_) => "Timestamp",
        Value::Bytes(_) => "Bytes",
        Value::Decimal(_) => "Decimal",
        Value::Json(_) => "Json",
    }
}

impl PkKey {
    /// The key that a value is.
    pub fn try_from(value: &Value) -> (result: DevonResult<PkKey>)
        ensures
            match result {
                Ok(key) => key_of(value@) == Some(key@),
                Err(error) => key_of(value@) is None && error.kind_of() == ErrorKind::Corrupt
                    && error.text_of() == "overlay primary key must be Int64 or String, found "@
                    + kind_name(value@),
            },
    {
        match PkKey::of_value(value) {
            Some(key) => Ok(key),
            None => {
                let mut text: String =
                    "overlay primary key must be Int64 or String, found ".to_owned();
                text.append(value_kind(value));
                Err(corrupt(text.as_str()))
            },
        }
    }

    /// The key that a value is, if it is one.
    pub fn of_value(value: &Value) -> (key: Option<PkKey>)
        ensures
            match key {
                Some(key) => key_of(value@) == Some(key@),
                None => key_of(value@) is None,
            },
    {
        match value {
            Value::Int64(number) => Some(PkKey::Int64(*number)),
            Value::String(text) => Some(PkKey::String(text.clone())),
            _ => None,
        }
    }

    /// The key of a row, if the column is there and holds one.
    pub fn of_row(row: &Vec<Value>, column: usize) -> (key: Option<PkKey>)
        ensures
            match key {
                Some(key) => row_key(crate::types::views(row@), column as int) == Some(key@),
                None => row_key(crate::types::views(row@), column as int) is None,
            },
    {
        if column < row.len() {
            PkKey::of_value(&row[column])
        } else {
            None
        }
    }

    /// A copy.
    pub fn duplicate(&self) -> (copy: PkKey)
        ensures
            copy@ == self@,
    {
        match self {
            PkKey::Int64(number) => PkKey::Int64(*number),
            PkKey::String(text) => PkKey::String(text.clone()),
        }
    }

    /// Whether two keys are equal.
    pub fn same(&self, other: &PkKey) -> (same: bool)
        ensures
            same == (self@ == other@),
    {
        match (self, other) {
            (PkKey::Int64(a), PkKey::Int64(b)) => *a == *b,
            (PkKey::String(a), PkKey::String(b)) => *a == *b,
            _ => false,
        }
    }
}

impl PkKey {
    /// How messages spell this key.
    pub(crate) fn spelled(&self) -> String {
        match self {
            PkKey::Int64(number) => signed_text(*number),
            PkKey::String(text) => quoted(text.as_str()),
        }
    }

    /// Whether this key stands before another: numbers stand before texts.
    pub(crate) fn stands_before(&self, other: &PkKey) -> bool {
        match (self, other) {
            (PkKey::Int64(a), PkKey::Int64(b)) => *a < *b,
            (PkKey::Int64(_), PkKey::String(_)) => true,
            (PkKey::String(_), PkKey::Int64(_)) => false,
            (PkKey::String(a), PkKey::String(b)) => match standing(
                a.as_str().as_bytes(),
                b.as_str().as_bytes(),
            ) {
                Standing::Before => true,
                _ => false,
            },
        }
    }
}

/// A map from primary keys to numbers.
#[derive(Debug)]
pub struct KeyMap {
    numbers: BTreeMap<i64, usize>,
    texts: NameMap<usize>,
}

impl View for KeyMap {
    type V = Map<KeyView, usize>;

    closed spec fn view(&self) -> Map<KeyView, usize> {
        Map::new(
            |key: KeyView|
                match key {
                    KeyView::Int(number) => self.numbers@.contains_key(number),
                    KeyView::Text(text) => self.texts@.contains_key(text),
                },
            |key: KeyView|
                match key {
                    KeyView::Int(number) => self.numbers@[number],
                    KeyView::Text(text) => self.texts@[text],
                },
        )
    }
}

impl KeyMap {
    /// The texts are in order.
    pub closed spec fn wf(self) -> bool {
        self.texts.wf()
    }

    /// A map without keys.
    pub fn new() -> (map: KeyMap)
        ensures
            map.wf(),
            map@ == Map::<KeyView, usize>::empty(),
    {
        let map = KeyMap { numbers: BTreeMap::new(), texts: NameMap::new() };
        assert(map@ =~= Map::<KeyView, usize>::empty());
        map
    }

    /// Whether there is no key.
    pub fn is_empty(&self) -> (empty: bool)
        requires
            self.wf(),
        ensures
            empty == (self@ == Map::<KeyView, usize>::empty()),
    {
        let empty: bool = self.numbers.is_empty() && self.texts.len() == 0;
        proof {
            if empty {
                assert(self.texts.entries() =~= Seq::empty());
                assert(self@ =~= Map::<KeyView, usize>::empty());
            } else if !self.numbers@.is_empty() {
                let number = choose|number: i64| self.numbers@.contains_key(number);
                assert(exists|number: i64| self.numbers@.contains_key(number)) by {
                    if forall|number: i64| !self.numbers@.contains_key(number) {
                        assert(self.numbers@ =~= Map::empty());
                    }
                }
                assert(self@.contains_key(KeyView::Int(number)));
            } else {
                self.texts.lemma_place(0);
                assert(self@.contains_key(KeyView::Text(self.texts.entries()[0].0)));
            }
        }
        empty
    }

    /// A key of the map, the first in order where there is one.
    pub(crate) fn first(&self) -> Option<PkKey>
        requires
            self.wf(),
    {
        let mut first: Option<i64> = None;
        for number in self.numbers.keys() {
            if first.is_none() {
                first = Some(*number);
            }
        }
        match first {
            Some(number) => Some(PkKey::Int64(number)),
            None => if self.texts.len() > 0 {
                Some(PkKey::String(self.texts.name_at(0).to_owned()))
            } else {
                None
            },
        }
    }

    /// The number of a key.
    pub fn get(&self, key: &PkKey) -> (found: Option<usize>)
        requires
            self.wf(),
        ensures
            match found {
                Some(number) => self@.contains_key(key@) && self@[key@] == number,
                None => !self@.contains_key(key@),
            },
    {
        match key {
            PkKey::Int64(number) => match self.numbers.get(number) {
                Some(place) => Some(*place),
                None => None,
            },
            PkKey::String(text) => match self.texts.get(text.as_str()) {
                Some(place) => Some(*place),
                None => None,
            },
        }
    }

    /// Gives a key a number; the one it had.
    pub fn insert(&mut self, key: PkKey, place: usize) -> (previous: Option<usize>)
        requires
            old(self).wf(),
        ensures
            final(self).wf(),
            final(self)@ == old(self)@.insert(key@, place),
            match previous {
                Some(number) => old(self)@.contains_key(key@) && old(self)@[key@] == number,
                None => !old(self)@.contains_key(key@),
            },
    {
        let ghost before = *self;
        let ghost shown = key@;
        let previous: Option<usize> = self.get(&key);
        match key {
            PkKey::Int64(number) => {
                self.numbers.insert(number, place);
            },
            PkKey::String(text) => {
                self.texts.insert(text, place);
            },
        }
        assert(self@ =~= before@.insert(shown, place));
        previous
    }

    /// Takes a key out; the number it had.
    pub fn remove(&mut self, key: &PkKey) -> (previous: Option<usize>)
        requires
            old(self).wf(),
        ensures
            final(self).wf(),
            final(self)@ == old(self)@.remove(key@),
            match previous {
                Some(number) => old(self)@.contains_key(key@) && old(self)@[key@] == number,
                None => !old(self)@.contains_key(key@),
            },
    {
        let ghost before = *self;
        let previous: Option<usize> = self.get(key);
        match key {
            PkKey::Int64(number) => {
                self.numbers.remove(number);
            },
            PkKey::String(text) => {
                self.texts.remove(text.as_str());
            },
        }
        assert(self@ =~= before@.remove(key@));
        previous
    }
}

} // verus!
