//! Maps from names, kept in the bytewise order of the names.

use vstd::prelude::*;

use crate::encodings::dictionary;
use crate::encodings::dictionary::search;
use crate::order;

verus! {

/// A map from names.
#[derive(Debug)]
pub struct NameMap<T> {
    names: Vec<String>,
    items: Vec<T>,
}

/// Where a name stands.
pub open spec fn name_place<T>(entries: Seq<(Seq<char>, T)>, name: Seq<char>) -> int {
    choose|i: int| 0 <= i < entries.len() && (#[trigger] entries[i]).0 == name
}

/// Whether a name is there.
pub open spec fn has_name<T>(entries: Seq<(Seq<char>, T)>, name: Seq<char>) -> bool {
    exists|i: int| 0 <= i < entries.len() && (#[trigger] entries[i]).0 == name
}

/// The map of entries.
pub open spec fn entry_map<T>(entries: Seq<(Seq<char>, T)>) -> Map<Seq<char>, T> {
    Map::new(
        |name: Seq<char>| has_name(entries, name),
        |name: Seq<char>| entries[name_place(entries, name)].1,
    )
}

/// The bytes of the names of entries.
pub open spec fn name_bytes<T>(entries: Seq<(Seq<char>, T)>) -> Seq<Seq<u8>> {
    entries.map_values(|entry: (Seq<char>, T)| vstd::utf8::encode_utf8(entry.0))
}

impl<T> View for NameMap<T> {
    type V = Map<Seq<char>, T>;

    open spec fn view(&self) -> Map<Seq<char>, T> {
        entry_map(self.entries())
    }
}

impl<T> NameMap<T> {
    /// The names and their items in order.
    pub closed spec fn entries(self) -> Seq<(Seq<char>, T)> {
        Seq::new(self.names@.len(), |i: int| (self.names@[i]@, self.items@[i]))
    }

    /// The names ascend.
    pub closed spec fn wf(self) -> bool {
        &&& order::ascending(dictionary::entry_bytes(self.names@))
        &&& self.names@.len() == self.items@.len()
    }

    /// A map without names.
    pub fn new() -> (map: NameMap<T>)
        ensures
            map.wf(),
            map.entries() == Seq::<(Seq<char>, T)>::empty(),
            map@ == Map::<Seq<char>, T>::empty(),
    {
        let map = NameMap { names: Vec::new(), items: Vec::new() };
        assert(map.entries() =~= Seq::<(Seq<char>, T)>::empty());
        assert(map@ =~= Map::<Seq<char>, T>::empty());
        map
    }

    /// How many names there are.
    pub fn len(&self) -> (len: usize)
        requires
            self.wf(),
        ensures
            len == self.entries().len(),
    {
        self.names.len()
    }

    /// The name at a place of the order.
    pub fn name_at(&self, at: usize) -> (name: &str)
        requires
            self.wf(),
            at < self.entries().len(),
        ensures
            name@ == self.entries()[at as int].0,
    {
        self.names[at].as_str()
    }

    /// The item at a place of the order.
    pub fn item_at(&self, at: usize) -> (item: &T)
        requires
            self.wf(),
            at < self.entries().len(),
        ensures
            *item == self.entries()[at as int].1,
    {
        &self.items[at]
    }

    /// A name stands at one place.
    pub proof fn lemma_place(self, at: int)
        requires
            self.wf(),
            0 <= at < self.entries().len(),
        ensures
            self@.contains_key(self.entries()[at].0),
            self@[self.entries()[at].0] == self.entries()[at].1,
            name_place(self.entries(), self.entries()[at].0) == at,
    {
        let name = self.entries()[at].0;
        assert(has_name(self.entries(), name));
        let place = name_place(self.entries(), name);
        lemma_names_differ(self.names@, place, at);
    }

    /// The names ascend by their bytes.
    pub proof fn lemma_ordered(self)
        requires
            self.wf(),
        ensures
            order::ascending(name_bytes(self.entries())),
    {
        assert(name_bytes(self.entries()) =~= dictionary::entry_bytes(self.names@));
    }

    fn find(&self, name: &str) -> (found: (bool, usize))
        requires
            self.wf(),
        ensures
            found.0 == has_name(self.entries(), name@),
            found.0 ==> found.1 < self.names@.len() && self.names@[found.1 as int]@ == name@
                && name_place(self.entries(), name@) == found.1,
            found.1 <= self.names@.len(),
            !found.0 ==> (forall|i: int|
                0 <= i < found.1 ==> order::lex_less(
                    #[trigger] dictionary::entry_bytes(self.names@)[i],
                    vstd::utf8::encode_utf8(name@),
                )),
            !found.0 ==> (forall|i: int|
                found.1 <= i < self.names@.len() ==> order::lex_less(
                    vstd::utf8::encode_utf8(name@),
                    #[trigger] dictionary::entry_bytes(self.names@)[i],
                )),
    {
        let (there, at): (bool, usize) = search(&self.names, name);
        proof {
            let bytes = dictionary::entry_bytes(self.names@);
            let wanted = vstd::utf8::encode_utf8(name@);
            let entries = self.entries();
            if there {
                vstd::utf8::encode_utf8_decode_utf8(name@);
                vstd::utf8::encode_utf8_decode_utf8(self.names@[at as int]@);
                assert(entries[at as int].0 == name@);
                let place = name_place(entries, name@);
                lemma_names_differ(self.names@, place, at as int);
            } else {
                assert forall|i: int| 0 <= i < entries.len() implies (#[trigger] entries[i]).0
                    != name@ by {
                    order::lemma_lex_irreflexive(wanted);
                    assert(bytes[i] == vstd::utf8::encode_utf8(self.names@[i]@));
                }
            }
        }
        (there, at)
    }

    /// The item of a name.
    pub fn get(&self, name: &str) -> (item: Option<&T>)
        requires
            self.wf(),
        ensures
            match item {
                Some(item) => self@.contains_key(name@) && self@[name@] == *item,
                None => !self@.contains_key(name@),
            },
    {
        let (there, at): (bool, usize) = self.find(name);
        if there {
            Some(&self.items[at])
        } else {
            None
        }
    }

    /// Gives a name an item.
    pub fn insert(&mut self, name: String, item: T)
        requires
            old(self).wf(),
        ensures
            final(self).wf(),
            final(self)@ == old(self)@.insert(name@, item),
    {
        let ghost before = *self;
        let ghost spelled = name@;
        let ghost given = item;
        let (there, at): (bool, usize) = self.find(name.as_str());
        if there {
            self.items.set(at, item);
            proof {
                let entries = self.entries();
                assert(entries =~= before.entries().update(at as int, (spelled, given)));
                assert forall|other: Seq<char>| has_name(entries, other) == has_name(
                    before.entries(),
                    other,
                ) by {
                    if has_name(entries, other) {
                        let i = name_place(entries, other);
                        assert(before.entries()[i].0 == other);
                    }
                    if has_name(before.entries(), other) {
                        let i = name_place(before.entries(), other);
                        assert(entries[i].0 == other);
                    }
                }
                assert forall|other: Seq<char>| #[trigger] self@.contains_key(other) implies self@[other]
                    == before@.insert(spelled, given)[other] by {
                    let i = name_place(entries, other);
                    let k = name_place(before.entries(), other);
                    assert(has_name(before.entries(), other));
                    lemma_names_differ(before.names@, i, k);
                }
                assert(self@ =~= before@.insert(spelled, given));
            }
        } else {
            self.names.insert(at, name);
            self.items.insert(at, item);
            proof {
                lemma_inserted(before, *self, spelled, given, at as int);
            }
        }
    }

    /// Takes a name out; the item it had.
    pub fn remove(&mut self, name: &str) -> (item: Option<T>)
        requires
            old(self).wf(),
        ensures
            final(self).wf(),
            final(self)@ == old(self)@.remove(name@),
            match item {
                Some(item) => old(self)@.contains_key(name@) && old(self)@[name@] == item,
                None => !old(self)@.contains_key(name@),
            },
    {
        let ghost before = *self;
        let (there, at): (bool, usize) = self.find(name);
        if there {
            let _name: String = self.names.remove(at);
            let item: T = self.items.remove(at);
            proof {
                lemma_removed(before, *self, name@, at as int);
            }
            Some(item)
        } else {
            assert(self@ =~= before@.remove(name@));
            None
        }
    }
}

/// Ascending names differ.
proof fn lemma_names_differ(names: Seq<String>, i: int, j: int)
    requires
        order::ascending(dictionary::entry_bytes(names)),
        0 <= i < names.len(),
        0 <= j < names.len(),
        names[i]@ == names[j]@,
    ensures
        i == j,
{
    let entries = dictionary::entry_bytes(names);
    assert(entries[i] == entries[j]);
    order::lemma_lex_irreflexive(entries[i]);
    if i < j {
        assert(order::lex_less(entries[i], entries[j]));
    } else if j < i {
        assert(order::lex_less(entries[j], entries[i]));
    }
}

proof fn lemma_inserted<T>(
    before: NameMap<T>,
    after: NameMap<T>,
    name: Seq<char>,
    item: T,
    at: int,
)
    requires
        before.wf(),
        0 <= at <= before.names@.len(),
        !has_name(before.entries(), name),
        forall|i: int|
            0 <= i < at ==> order::lex_less(
                #[trigger] dictionary::entry_bytes(before.names@)[i],
                vstd::utf8::encode_utf8(name),
            ),
        forall|i: int|
            at <= i < before.names@.len() ==> order::lex_less(
                vstd::utf8::encode_utf8(name),
                #[trigger] dictionary::entry_bytes(before.names@)[i],
            ),
        after.names@.len() == before.names@.len() + 1,
        after.names@[at]@ == name,
        forall|i: int| 0 <= i < at ==> after.names@[i] == before.names@[i],
        forall|i: int| at <= i < before.names@.len() ==> after.names@[i + 1] == before.names@[i],
        after.items@ == before.items@.insert(at, item),
    ensures
        after.wf(),
        after@ == before@.insert(name, item),
{
    let old_bytes = dictionary::entry_bytes(before.names@);
    let new_bytes = dictionary::entry_bytes(after.names@);
    let wanted = vstd::utf8::encode_utf8(name);
    let old_entries = before.entries();
    let new_entries = after.entries();
    assert forall|i: int| 0 <= i < new_bytes.len() implies #[trigger] new_bytes[i] == if i < at {
        old_bytes[i]
    } else if i == at {
        wanted
    } else {
        old_bytes[i - 1]
    } by {
        if i > at {
            assert(after.names@[(i - 1) + 1] == before.names@[i - 1]);
        }
    }
    assert forall|i: int, j: int| 0 <= i < j < new_bytes.len() implies order::lex_less(
        #[trigger] new_bytes[i],
        #[trigger] new_bytes[j],
    ) by {
        let a = if i < at { i } else { i - 1 };
        let b = if j < at { j } else { j - 1 };
        if i != at && j != at {
            assert(order::lex_less(old_bytes[a], old_bytes[b]));
        }
    }
    assert(after.wf());
    assert forall|i: int| 0 <= i < new_entries.len() implies #[trigger] new_entries[i] == if i < at {
        old_entries[i]
    } else if i == at {
        (name, item)
    } else {
        old_entries[i - 1]
    } by {
        if i > at {
            assert(after.names@[(i - 1) + 1] == before.names@[i - 1]);
        }
    }
    assert forall|other: Seq<char>| #[trigger] has_name(new_entries, other) <==> has_name(
        old_entries,
        other,
    ) || other == name by {
        if has_name(old_entries, other) {
            let i = name_place(old_entries, other);
            let moved = if i < at { i } else { i + 1 };
            assert(new_entries[moved].0 == other);
        }
        if other == name {
            assert(new_entries[at].0 == other);
        }
        if has_name(new_entries, other) && other != name {
            let i = name_place(new_entries, other);
            let back = if i < at { i } else { i - 1 };
            assert(old_entries[back].0 == other);
        }
    }
    let wanted_map = before@.insert(name, item);
    assert forall|other: Seq<char>| #[trigger] after@.contains_key(other) implies after@[other]
        == wanted_map[other] by {
        let i = name_place(new_entries, other);
        assert(has_name(new_entries, other));
        if other == name {
            lemma_names_differ(after.names@, i, at);
        } else {
            let k = name_place(old_entries, other);
            assert(has_name(old_entries, other));
            let moved = if k < at { k } else { k + 1 };
            assert(new_entries[moved].0 == other);
            lemma_names_differ(after.names@, i, moved);
        }
    }
    assert(after@ =~= wanted_map);
}

proof fn lemma_removed<T>(before: NameMap<T>, after: NameMap<T>, name: Seq<char>, at: int)
    requires
        before.wf(),
        0 <= at < before.names@.len(),
        before.names@[at]@ == name,
        after.names@ == before.names@.remove(at),
        after.items@ == before.items@.remove(at),
    ensures
        after.wf(),
        after@ == before@.remove(name),
{
    let old_bytes = dictionary::entry_bytes(before.names@);
    let new_bytes = dictionary::entry_bytes(after.names@);
    let old_entries = before.entries();
    let new_entries = after.entries();
    assert forall|i: int| 0 <= i < new_bytes.len() implies #[trigger] new_bytes[i] == if i < at {
        old_bytes[i]
    } else {
        old_bytes[i + 1]
    } by {}
    assert forall|i: int, j: int| 0 <= i < j < new_bytes.len() implies order::lex_less(
        #[trigger] new_bytes[i],
        #[trigger] new_bytes[j],
    ) by {
        let a = if i < at { i } else { i + 1 };
        let b = if j < at { j } else { j + 1 };
        assert(order::lex_less(old_bytes[a], old_bytes[b]));
    }
    assert(after.wf());
    assert forall|i: int| 0 <= i < new_entries.len() implies #[trigger] new_entries[i] == if i < at {
        old_entries[i]
    } else {
        old_entries[i + 1]
    } by {}
    assert forall|other: Seq<char>| #[trigger] has_name(new_entries, other) <==> has_name(
        old_entries,
        other,
    ) && other != name by {
        if has_name(old_entries, other) && other != name {
            let i = name_place(old_entries, other);
            let moved = if i < at { i } else { i - 1 };
            assert(new_entries[moved].0 == other);
        }
        if has_name(new_entries, other) {
            let i = name_place(new_entries, other);
            let back = if i < at { i } else { i + 1 };
            assert(old_entries[back].0 == other);
            if other == name {
                lemma_names_differ(before.names@, back, at);
            }
        }
    }
    let wanted = before@.remove(name);
    assert forall|other: Seq<char>| #[trigger] after@.contains_key(other) implies after@[other]
        == wanted[other] by {
        assert(has_name(new_entries, other));
        let i = name_place(new_entries, other);
        let k = name_place(old_entries, other);
        let back = if i < at { i } else { i + 1 };
        assert(old_entries[back].0 == other);
        lemma_names_differ(before.names@, back, k);
    }
    assert(after@ =~= wanted);
}

} // verus!
