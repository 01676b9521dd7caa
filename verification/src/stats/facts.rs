//! What a catalog says of where its tables' pages are.

use vstd::prelude::*;

use crate::error::ErrorKind;
use crate::names::NameMap;
use crate::stats::accounting::FIRST_DATA_PAGE;
use crate::stats::tree;
use crate::stats::tree::{is_within, read_value, Json, JsonView, Member, MemberView};
use crate::stats::{corrupt, StatsError};
use crate::text;
use crate::text::fold;

verus! {

/// How many levels of values a part that nobody looks at may hold.
pub const SKIPPED_LEVELS: usize = 256;

/// How many levels of values a catalog may hold: those of the part that is
/// looked at, and those of a part that is not.
pub const CATALOG_LEVELS: usize = 272;

/// A table of the catalog: its name, how many columns it has, and how many
/// of these are stored twice.
#[derive(Debug)]
pub struct TableDefinition {
    pub name: String,
    pub column_count: usize,
    pub rescore_count: usize,
}

/// What a table of the catalog is.
#[verifier::ext_equal]
pub struct DefinitionView {
    pub name: Seq<char>,
    pub columns: nat,
    pub rescores: nat,
}

impl View for TableDefinition {
    type V = DefinitionView;

    open spec fn view(&self) -> DefinitionView {
        DefinitionView {
            name: self.name@,
            columns: self.column_count as nat,
            rescores: self.rescore_count as nat,
        }
    }
}

/// The page ids of a table's groups.
#[derive(Debug)]
pub struct StorageRoots {
    pub groups: Vec<u64>,
    pub forward: Vec<u64>,
    pub backward: Vec<u64>,
}

/// What the page ids of a table's groups are.
#[verifier::ext_equal]
pub struct RootsView {
    pub groups: Seq<u64>,
    pub forward: Seq<u64>,
    pub backward: Seq<u64>,
}

impl View for StorageRoots {
    type V = RootsView;

    open spec fn view(&self) -> RootsView {
        RootsView { groups: self.groups@, forward: self.forward@, backward: self.backward@ }
    }
}

/// An index of the catalog: its table and its root page.
#[derive(Debug)]
pub struct IndexRoot {
    pub table: String,
    pub root: u64,
}

/// What indexes are.
pub open spec fn indexes_of(indexes: Seq<IndexRoot>) -> Seq<(Seq<char>, u64)> {
    indexes.map_values(|index: IndexRoot| (index.table@, index.root))
}

/// What a catalog says, by folded table names.
#[derive(Debug)]
pub struct CatalogFacts {
    pub nodes: NameMap<TableDefinition>,
    pub relationships: NameMap<TableDefinition>,
    pub storage: NameMap<StorageRoots>,
    pub indexes: Vec<IndexRoot>,
}

/// What a catalog says.
#[verifier::ext_equal]
pub struct FactsView {
    pub nodes: Map<Seq<char>, DefinitionView>,
    pub relationships: Map<Seq<char>, DefinitionView>,
    pub storage: Map<Seq<char>, RootsView>,
    pub indexes: Seq<(Seq<char>, u64)>,
}

/// What tables under names are.
pub open spec fn definitions(map: Map<Seq<char>, TableDefinition>) -> Map<
    Seq<char>,
    DefinitionView,
> {
    map.map_values(|definition: TableDefinition| definition@)
}

/// What page ids under names are.
pub open spec fn roots_by_name(map: Map<Seq<char>, StorageRoots>) -> Map<Seq<char>, RootsView> {
    map.map_values(|roots: StorageRoots| roots@)
}

impl View for CatalogFacts {
    type V = FactsView;

    open spec fn view(&self) -> FactsView {
        FactsView {
            nodes: definitions(self.nodes@),
            relationships: definitions(self.relationships@),
            storage: roots_by_name(self.storage@),
            indexes: indexes_of(self.indexes@),
        }
    }
}

impl FactsView {
    /// A catalog that says nothing.
    pub open spec fn none() -> FactsView {
        FactsView {
            nodes: Map::empty(),
            relationships: Map::empty(),
            storage: Map::empty(),
            indexes: Seq::empty(),
        }
    }
}

impl CatalogFacts {
    /// The names of all maps are in order.
    pub open spec fn wf(self) -> bool {
        &&& self.nodes.wf()
        &&& self.relationships.wf()
        &&& self.storage.wf()
    }

    /// A catalog that says nothing.
    pub fn new() -> (facts: CatalogFacts)
        ensures
            facts.wf(),
            facts@ == FactsView::none(),
    {
        let facts = CatalogFacts {
            nodes: NameMap::new(),
            relationships: NameMap::new(),
            storage: NameMap::new(),
            indexes: Vec::new(),
        };
        assert(facts@ =~= FactsView::none());
        facts
    }
}

fn spells(text: &String, word: &str) -> (yes: bool)
    ensures
        yes == (text@ == word@),
{
    let wanted: String = word.to_owned();
    *text == wanted
}

/// Whether a value may be passed over.
pub open spec fn passable(value: JsonView) -> bool {
    tree::within(value, SKIPPED_LEVELS as nat)
}

/// The number that digits are.
pub open spec fn digits_number(digits: Seq<u8>) -> nat
    decreases digits.len(),
{
    if digits.len() == 0 {
        0
    } else {
        10 * digits_number(digits.drop_last()) + (digits.last() - 0x30) as nat
    }
}

/// Whether all bytes are digits.
pub open spec fn are_digits(digits: Seq<u8>) -> bool {
    forall|i: int| 0 <= i < digits.len() ==> 0x30 <= #[trigger] digits[i] <= 0x39
}

/// The page id that a value is.
pub open spec fn id_of(value: JsonView) -> Option<u64> {
    match value {
        JsonView::Number(digits) => if digits.len() > 0 && are_digits(digits) && digits_number(
            digits,
        ) <= u64::MAX {
            Some(digits_number(digits) as u64)
        } else {
            None
        },
        _ => None,
    }
}

/// Digits behind others make a number no smaller.
proof fn lemma_digits_grow(digits: Seq<u8>, n: int)
    requires
        are_digits(digits),
        0 <= n <= digits.len(),
    ensures
        digits_number(digits.subrange(0, n)) <= digits_number(digits),
    decreases digits.len() - n,
{
    if n < digits.len() {
        lemma_digits_grow(digits, n + 1);
        let next = digits.subrange(0, n + 1);
        assert(next.drop_last() =~= digits.subrange(0, n));
        assert(next.last() == digits[n]);
    } else {
        assert(digits.subrange(0, n) =~= digits);
    }
}

fn read_id(value: &Json) -> (id: Option<u64>)
    ensures
        id == id_of(value.shown()),
{
    match value {
        Json::Number(digits) => {
            if digits.len() == 0 {
                return None;
            }
            let mut i: usize = 0;
            while i < digits.len()
                invariant
                    i <= digits@.len(),
                    value.shown() == JsonView::Number(digits@),
                    forall|k: int| 0 <= k < i ==> 0x30 <= #[trigger] digits@[k] <= 0x39,
                decreases digits@.len() - i,
            {
                if digits[i] < 0x30 || digits[i] > 0x39 {
                    assert(!are_digits(digits@));
                    return None;
                }
                i += 1;
            }
            assert(are_digits(digits@));
            let mut number: u64 = 0;
            let mut k: usize = 0;
            assert(digits@.subrange(0, 0) =~= Seq::empty());
            while k < digits.len()
                invariant
                    k <= digits@.len(),
                    value.shown() == JsonView::Number(digits@),
                    are_digits(digits@),
                    number == digits_number(digits@.subrange(0, k as int)),
                decreases digits@.len() - k,
            {
                proof {
                    let next = digits@.subrange(0, k + 1);
                    assert(next.drop_last() =~= digits@.subrange(0, k as int));
                    assert(next.last() == digits@[k as int]);
                    lemma_digits_grow(digits@, k + 1);
                }
                number = match number.checked_mul(10) {
                    Some(tens) => match tens.checked_add((digits[k] - 0x30) as u64) {
                        Some(number) => number,
                        None => {
                            return None;
                        },
                    },
                    None => {
                        return None;
                    },
                };
                k += 1;
            }
            assert(digits@.subrange(0, digits@.len() as int) =~= digits@);
            Some(number)
        },
        _ => None,
    }
}

/// The page ids of a list from one on, behind those found.
pub open spec fn ids_from(items: Seq<JsonView>, done: Seq<u64>, from: nat) -> Option<Seq<u64>>
    decreases items.len() - from,
{
    if from >= items.len() {
        Some(done)
    } else {
        match id_of(items[from as int]) {
            Some(id) => ids_from(items, done.push(id), from + 1),
            None => None,
        }
    }
}

/// The page ids that a value lists.
pub open spec fn ids_of(value: JsonView) -> Option<Seq<u64>> {
    match value {
        JsonView::List(items) => ids_from(items, Seq::empty(), 0),
        _ => None,
    }
}

fn read_ids(value: &Json) -> (ids: Option<Vec<u64>>)
    ensures
        match (ids, ids_of(value.shown())) {
            (Some(ids), Some(want)) => ids@ == want,
            (None, None) => true,
            _ => false,
        },
{
    match value {
        Json::List(items) => {
            let ghost shown = tree::list_shown(items@);
            let mut ids: Vec<u64> = Vec::new();
            let mut i: usize = 0;
            proof {
                tree::lemma_list_shown(items@, 0);
                assert(ids@ =~= Seq::empty());
            }
            while i < items.len()
                invariant
                    i <= items@.len() == shown.len(),
                    shown == tree::list_shown(items@),
                    value.shown() == JsonView::List(shown),
                    ids_of(value.shown()) == ids_from(shown, ids@, i as nat),
                decreases items@.len() - i,
            {
                proof {
                    tree::lemma_list_shown(items@, i as int);
                }
                match read_id(&items[i]) {
                    Some(id) => {
                        ids.push(id);
                    },
                    None => {
                        return None;
                    },
                }
                i += 1;
            }
            Some(ids)
        },
        _ => None,
    }
}

/// The page ids with what one member says.
pub open spec fn roots_with(done: RootsView, member: MemberView) -> Option<RootsView> {
    if member.key == "groups"@ {
        match ids_of(member.value) {
            Some(groups) => Some(RootsView { groups, ..done }),
            None => None,
        }
    } else if member.key == "fwd"@ {
        match ids_of(member.value) {
            Some(forward) => Some(RootsView { forward, ..done }),
            None => None,
        }
    } else if member.key == "bwd"@ {
        match ids_of(member.value) {
            Some(backward) => Some(RootsView { backward, ..done }),
            None => None,
        }
    } else if passable(member.value) {
        Some(done)
    } else {
        None
    }
}

/// The page ids with what the members from one on say.
pub open spec fn roots_from(members: Seq<MemberView>, done: RootsView, from: nat) -> Option<
    RootsView,
>
    decreases members.len() - from,
{
    if from >= members.len() {
        Some(done)
    } else {
        match roots_with(done, members[from as int]) {
            Some(next) => roots_from(members, next, from + 1),
            None => None,
        }
    }
}

/// The page ids of a table's groups.
pub open spec fn roots_of(value: JsonView) -> Option<RootsView> {
    match value {
        JsonView::Record(members) => roots_from(
            members,
            RootsView { groups: Seq::empty(), forward: Seq::empty(), backward: Seq::empty() },
            0,
        ),
        _ => None,
    }
}

fn read_roots(value: &Json) -> (roots: Option<StorageRoots>)
    ensures
        match (roots, roots_of(value.shown())) {
            (Some(roots), Some(want)) => roots@ == want,
            (None, None) => true,
            _ => false,
        },
{
    match value {
        Json::Record(members) => {
            let ghost shown = tree::record_shown(members@);
            let mut roots = StorageRoots {
                groups: Vec::new(),
                forward: Vec::new(),
                backward: Vec::new(),
            };
            let mut i: usize = 0;
            proof {
                tree::lemma_record_shown(members@, 0);
                assert(roots@ =~= RootsView {
                    groups: Seq::empty(),
                    forward: Seq::empty(),
                    backward: Seq::empty(),
                });
            }
            while i < members.len()
                invariant
                    i <= members@.len() == shown.len(),
                    shown == tree::record_shown(members@),
                    value.shown() == JsonView::Record(shown),
                    roots_of(value.shown()) == roots_from(shown, roots@, i as nat),
                decreases members@.len() - i,
            {
                proof {
                    tree::lemma_record_shown(members@, i as int);
                }
                let member: &Member = &members[i];
                let groups: bool = spells(&member.key, "groups");
                let forward: bool = spells(&member.key, "fwd");
                let backward: bool = spells(&member.key, "bwd");
                if groups || forward || backward {
                    let ids: Vec<u64> = match read_ids(&member.value) {
                        Some(ids) => ids,
                        None => {
                            return None;
                        },
                    };
                    if groups {
                        roots.groups = ids;
                    } else if forward {
                        roots.forward = ids;
                    } else {
                        roots.backward = ids;
                    }
                } else if !is_within(&member.value, SKIPPED_LEVELS) {
                    return None;
                }
                i += 1;
            }
            Some(roots)
        },
        _ => None,
    }
}

/// The kind and the rescoring that an encoding says, with one member more.
pub open spec fn encoding_with(done: (Seq<char>, Seq<char>), member: MemberView) -> Option<
    (Seq<char>, Seq<char>),
> {
    if member.key == "kind"@ {
        match member.value {
            JsonView::Text(kind) => Some((kind, done.1)),
            _ => None,
        }
    } else if member.key == "rescore"@ {
        match member.value {
            JsonView::Text(rescore) => Some((done.0, rescore)),
            _ => None,
        }
    } else if passable(member.value) {
        Some(done)
    } else {
        None
    }
}

/// The kind and the rescoring with the members from one on.
pub open spec fn encoding_from(
    members: Seq<MemberView>,
    done: (Seq<char>, Seq<char>),
    from: nat,
) -> Option<(Seq<char>, Seq<char>)>
    decreases members.len() - from,
{
    if from >= members.len() {
        Some(done)
    } else {
        match encoding_with(done, members[from as int]) {
            Some(next) => encoding_from(members, next, from + 1),
            None => None,
        }
    }
}

/// Whether vectors of an encoding are stored a second time.
pub open spec fn encoding_rescores(value: JsonView) -> Option<bool> {
    match value {
        JsonView::Record(members) => match encoding_from(
            members,
            (Seq::empty(), Seq::empty()),
            0,
        ) {
            Some((kind, rescore)) => Some(
                kind == "b1"@ && rescore.len() > 0 && rescore != "none"@,
            ),
            None => None,
        },
        _ => None,
    }
}

fn read_encoding(value: &Json) -> (rescores: Option<bool>)
    ensures
        rescores == encoding_rescores(value.shown()),
{
    match value {
        Json::Record(members) => {
            let ghost shown = tree::record_shown(members@);
            let mut kind: String = String::new();
            let mut rescore: String = String::new();
            let mut i: usize = 0;
            proof {
                tree::lemma_record_shown(members@, 0);
                assert(kind@ =~= Seq::empty());
                assert(rescore@ =~= Seq::empty());
            }
            while i < members.len()
                invariant
                    i <= members@.len() == shown.len(),
                    shown == tree::record_shown(members@),
                    value.shown() == JsonView::Record(shown),
                    encoding_from(shown, (Seq::empty(), Seq::empty()), 0) == encoding_from(
                        shown,
                        (kind@, rescore@),
                        i as nat,
                    ),
                decreases members@.len() - i,
            {
                proof {
                    tree::lemma_record_shown(members@, i as int);
                }
                let member: &Member = &members[i];
                if spells(&member.key, "kind") {
                    match &member.value {
                        Json::Text(found) => {
                            kind = found.clone();
                        },
                        _ => {
                            return None;
                        },
                    }
                } else if spells(&member.key, "rescore") {
                    match &member.value {
                        Json::Text(found) => {
                            rescore = found.clone();
                        },
                        _ => {
                            return None;
                        },
                    }
                } else if !is_within(&member.value, SKIPPED_LEVELS) {
                    return None;
                }
                i += 1;
            }
            let some: bool = !spells(&rescore, "");
            proof {
                reveal_strlit("");
                assert(some == (rescore@.len() > 0)) by {
                    if rescore@.len() == 0 {
                        assert(rescore@ =~= ""@);
                    }
                }
            }
            Some(spells(&kind, "b1") && some && !spells(&rescore, "none"))
        },
        _ => None,
    }
}

/// Whether an encoded vector type rescores, with the members from one on.
pub open spec fn vector_from(members: Seq<MemberView>, done: bool, from: nat) -> Option<bool>
    decreases members.len() - from,
{
    if from >= members.len() {
        Some(done)
    } else {
        let member = members[from as int];
        if member.key == "encoding"@ {
            match encoding_rescores(member.value) {
                Some(flag) => vector_from(members, flag, from + 1),
                None => None,
            }
        } else if passable(member.value) {
            vector_from(members, done, from + 1)
        } else {
            None
        }
    }
}

/// Whether vectors of an encoded vector type are stored a second time.
pub open spec fn vector_rescores(value: JsonView) -> Option<bool> {
    match value {
        JsonView::Record(members) => vector_from(members, false, 0),
        _ => None,
    }
}

fn read_vector(value: &Json) -> (rescores: Option<bool>)
    ensures
        rescores == vector_rescores(value.shown()),
{
    match value {
        Json::Record(members) => {
            let ghost shown = tree::record_shown(members@);
            let mut done: bool = false;
            let mut i: usize = 0;
            proof {
                tree::lemma_record_shown(members@, 0);
            }
            while i < members.len()
                invariant
                    i <= members@.len() == shown.len(),
                    shown == tree::record_shown(members@),
                    value.shown() == JsonView::Record(shown),
                    vector_from(shown, false, 0) == vector_from(shown, done, i as nat),
                decreases members@.len() - i,
            {
                proof {
                    tree::lemma_record_shown(members@, i as int);
                }
                let member: &Member = &members[i];
                if spells(&member.key, "encoding") {
                    match read_encoding(&member.value) {
                        Some(flag) => {
                            done = flag;
                        },
                        None => {
                            return None;
                        },
                    }
                } else if !is_within(&member.value, SKIPPED_LEVELS) {
                    return None;
                }
                i += 1;
            }
            Some(done)
        },
        _ => None,
    }
}

/// Whether a type rescores, with the members from one on.
pub open spec fn type_from(members: Seq<MemberView>, done: bool, from: nat) -> Option<bool>
    decreases members.len() - from,
{
    if from >= members.len() {
        Some(done)
    } else {
        let member = members[from as int];
        if member.key == "VectorEncoded"@ {
            match vector_rescores(member.value) {
                Some(flag) => type_from(members, flag, from + 1),
                None => None,
            }
        } else if passable(member.value) {
            type_from(members, done, from + 1)
        } else {
            None
        }
    }
}

/// Whether values of a type are stored a second time. A type that is a name
/// stands right behind its colon.
pub open spec fn type_rescores(spaced: bool, value: JsonView) -> Option<bool> {
    match value {
        JsonView::Text(_) => if spaced {
            None
        } else {
            Some(false)
        },
        JsonView::Record(members) => type_from(members, false, 0),
        _ => None,
    }
}

fn read_type(spaced: bool, value: &Json) -> (rescores: Option<bool>)
    ensures
        rescores == type_rescores(spaced, value.shown()),
{
    match value {
        Json::Text(_) => {
            if spaced {
                None
            } else {
                Some(false)
            }
        },
        Json::Record(members) => {
            let ghost shown = tree::record_shown(members@);
            let mut done: bool = false;
            let mut i: usize = 0;
            proof {
                tree::lemma_record_shown(members@, 0);
            }
            while i < members.len()
                invariant
                    i <= members@.len() == shown.len(),
                    shown == tree::record_shown(members@),
                    value.shown() == JsonView::Record(shown),
                    type_from(shown, false, 0) == type_from(shown, done, i as nat),
                decreases members@.len() - i,
            {
                proof {
                    tree::lemma_record_shown(members@, i as int);
                }
                let member: &Member = &members[i];
                if spells(&member.key, "VectorEncoded") {
                    match read_vector(&member.value) {
                        Some(flag) => {
                            done = flag;
                        },
                        None => {
                            return None;
                        },
                    }
                } else if !is_within(&member.value, SKIPPED_LEVELS) {
                    return None;
                }
                i += 1;
            }
            Some(done)
        },
        _ => None,
    }
}

/// Whether a column rescores, with the members from one on.
pub open spec fn column_from(members: Seq<MemberView>, done: bool, from: nat) -> Option<bool>
    decreases members.len() - from,
{
    if from >= members.len() {
        Some(done)
    } else {
        let member = members[from as int];
        if member.key == "ty"@ {
            match type_rescores(member.spaced, member.value) {
                Some(flag) => column_from(members, flag, from + 1),
                None => None,
            }
        } else if passable(member.value) {
            column_from(members, done, from + 1)
        } else {
            None
        }
    }
}

/// Whether values of a column are stored a second time.
pub open spec fn column_rescores(value: JsonView) -> Option<bool> {
    match value {
        JsonView::Record(members) => column_from(members, false, 0),
        _ => None,
    }
}

fn read_column(value: &Json) -> (rescores: Option<bool>)
    ensures
        rescores == column_rescores(value.shown()),
{
    match value {
        Json::Record(members) => {
            let ghost shown = tree::record_shown(members@);
            let mut done: bool = false;
            let mut i: usize = 0;
            proof {
                tree::lemma_record_shown(members@, 0);
            }
            while i < members.len()
                invariant
                    i <= members@.len() == shown.len(),
                    shown == tree::record_shown(members@),
                    value.shown() == JsonView::Record(shown),
                    column_from(shown, false, 0) == column_from(shown, done, i as nat),
                decreases members@.len() - i,
            {
                proof {
                    tree::lemma_record_shown(members@, i as int);
                }
                let member: &Member = &members[i];
                if spells(&member.key, "ty") {
                    match read_type(member.spaced, &member.value) {
                        Some(flag) => {
                            done = flag;
                        },
                        None => {
                            return None;
                        },
                    }
                } else if !is_within(&member.value, SKIPPED_LEVELS) {
                    return None;
                }
                i += 1;
            }
            Some(done)
        },
        _ => None,
    }
}

/// How many columns there are and how many of them rescore, with the columns
/// from one on.
pub open spec fn columns_from(items: Seq<JsonView>, done: (nat, nat), from: nat) -> Option<
    (nat, nat),
>
    decreases items.len() - from,
{
    if from >= items.len() {
        Some(done)
    } else {
        match column_rescores(items[from as int]) {
            Some(flag) => columns_from(
                items,
                (
                    done.0 + 1,
                    done.1 + if flag {
                        1nat
                    } else {
                        0nat
                    },
                ),
                from + 1,
            ),
            None => None,
        }
    }
}

/// How many columns a value lists, and how many of them rescore.
pub open spec fn columns_of(value: JsonView) -> Option<(nat, nat)> {
    match value {
        JsonView::List(items) => columns_from(items, (0, 0), 0),
        _ => None,
    }
}

fn read_columns(value: &Json) -> (counts: Option<(usize, usize)>)
    ensures
        match (counts, columns_of(value.shown())) {
            (Some(counts), Some(want)) => counts.0 == want.0 && counts.1 == want.1,
            (None, None) => true,
            _ => false,
        },
{
    match value {
        Json::List(items) => {
            let ghost shown = tree::list_shown(items@);
            let mut columns: usize = 0;
            let mut rescores: usize = 0;
            let total: usize = items.len();
            let mut i: usize = 0;
            proof {
                tree::lemma_list_shown(items@, 0);
            }
            while i < total
                invariant
                    i <= total == items@.len(),
                    total == shown.len(),
                    shown == tree::list_shown(items@),
                    columns == i,
                    rescores <= i,
                    columns_from(shown, (0, 0), 0) == columns_from(
                        shown,
                        (columns as nat, rescores as nat),
                        i as nat,
                    ),
                    value.shown() == JsonView::List(shown),
                decreases total - i,
            {
                proof {
                    tree::lemma_list_shown(items@, i as int);
                }
                match read_column(&items[i]) {
                    Some(flag) => {
                        columns += 1;
                        if flag {
                            rescores += 1;
                        }
                    },
                    None => {
                        return None;
                    },
                }
                i += 1;
            }
            Some((columns, rescores))
        },
        _ => None,
    }
}

/// A table with what one member says.
pub open spec fn definition_with(done: DefinitionView, member: MemberView, node: bool) -> Option<
    DefinitionView,
> {
    if member.key == "name"@ {
        match member.value {
            JsonView::Text(name) => Some(DefinitionView { name, ..done }),
            _ => None,
        }
    } else if member.key == "columns"@ {
        match columns_of(member.value) {
            Some((columns, rescores)) => Some(
                DefinitionView {
                    columns,
                    rescores: if node {
                        rescores
                    } else {
                        0
                    },
                    ..done
                },
            ),
            None => None,
        }
    } else if passable(member.value) {
        Some(done)
    } else {
        None
    }
}

/// A table with what the members from one on say.
pub open spec fn definition_from(
    members: Seq<MemberView>,
    done: DefinitionView,
    node: bool,
    from: nat,
) -> Option<DefinitionView>
    decreases members.len() - from,
{
    if from >= members.len() {
        Some(done)
    } else {
        match definition_with(done, members[from as int], node) {
            Some(next) => definition_from(members, next, node, from + 1),
            None => None,
        }
    }
}

/// The table that a value is. It has a name.
pub open spec fn definition_of(value: JsonView, node: bool) -> Option<DefinitionView> {
    match value {
        JsonView::Record(members) => match definition_from(
            members,
            DefinitionView { name: Seq::empty(), columns: 0, rescores: 0 },
            node,
            0,
        ) {
            Some(definition) => if definition.name.len() > 0 {
                Some(definition)
            } else {
                None
            },
            None => None,
        },
        _ => None,
    }
}

fn read_definition(value: &Json, node: bool) -> (definition: Option<TableDefinition>)
    ensures
        match (definition, definition_of(value.shown(), node)) {
            (Some(definition), Some(want)) => definition@ == want,
            (None, None) => true,
            _ => false,
        },
{
    match value {
        Json::Record(members) => {
            let ghost shown = tree::record_shown(members@);
            let mut done = TableDefinition {
                name: String::new(),
                column_count: 0,
                rescore_count: 0,
            };
            let ghost blank = DefinitionView { name: Seq::empty(), columns: 0, rescores: 0 };
            let mut i: usize = 0;
            proof {
                tree::lemma_record_shown(members@, 0);
                assert(done@ =~= blank);
            }
            while i < members.len()
                invariant
                    i <= members@.len() == shown.len(),
                    shown == tree::record_shown(members@),
                    value.shown() == JsonView::Record(shown),
                    blank == (DefinitionView { name: Seq::empty(), columns: 0, rescores: 0 }),
                    definition_from(shown, blank, node, 0) == definition_from(
                        shown,
                        done@,
                        node,
                        i as nat,
                    ),
                decreases members@.len() - i,
            {
                proof {
                    tree::lemma_record_shown(members@, i as int);
                }
                let member: &Member = &members[i];
                if spells(&member.key, "name") {
                    match &member.value {
                        Json::Text(name) => {
                            done.name = name.clone();
                        },
                        _ => {
                            return None;
                        },
                    }
                } else if spells(&member.key, "columns") {
                    match read_columns(&member.value) {
                        Some((columns, rescores)) => {
                            done.column_count = columns;
                            done.rescore_count = if node {
                                rescores
                            } else {
                                0
                            };
                        },
                        None => {
                            return None;
                        },
                    }
                } else if !is_within(&member.value, SKIPPED_LEVELS) {
                    return None;
                }
                i += 1;
            }
            let nameless: bool = spells(&done.name, "");
            proof {
                reveal_strlit("");
                assert(nameless == (done.name@.len() == 0)) by {
                    if done.name@.len() == 0 {
                        assert(done.name@ =~= ""@);
                    }
                }
            }
            if nameless {
                None
            } else {
                Some(done)
            }
        },
        _ => None,
    }
}

/// The tables of a list from one on, with those found. No two names fold
/// alike.
pub open spec fn definitions_from(
    items: Seq<JsonView>,
    done: Map<Seq<char>, DefinitionView>,
    node: bool,
    from: nat,
) -> Option<Map<Seq<char>, DefinitionView>>
    decreases items.len() - from,
{
    if from >= items.len() {
        Some(done)
    } else {
        match definition_of(items[from as int], node) {
            Some(definition) => if done.contains_key(text::folded(definition.name)) {
                None
            } else {
                definitions_from(
                    items,
                    done.insert(text::folded(definition.name), definition),
                    node,
                    from + 1,
                )
            },
            None => None,
        }
    }
}

/// The tables that a value lists, with those found.
pub open spec fn definitions_of(
    value: JsonView,
    done: Map<Seq<char>, DefinitionView>,
    node: bool,
) -> Option<Map<Seq<char>, DefinitionView>> {
    match value {
        JsonView::List(items) => definitions_from(items, done, node, 0),
        _ => None,
    }
}

fn read_definitions(value: &Json, output: &mut NameMap<TableDefinition>, node: bool) -> (fits: bool)
    requires
        old(output).wf(),
    ensures
        final(output).wf(),
        match definitions_of(value.shown(), definitions(old(output)@), node) {
            Some(want) => fits && definitions(final(output)@) == want,
            None => !fits,
        },
{
    match value {
        Json::List(items) => {
            let ghost shown = tree::list_shown(items@);
            let ghost want = definitions_of(value.shown(), definitions(output@), node);
            let mut i: usize = 0;
            proof {
                tree::lemma_list_shown(items@, 0);
            }
            while i < items.len()
                invariant
                    i <= items@.len() == shown.len(),
                    shown == tree::list_shown(items@),
                    output.wf(),
                    want == definitions_of(value.shown(), definitions(old(output)@), node),
                    want == definitions_from(shown, definitions(output@), node, i as nat),
                decreases items@.len() - i,
            {
                proof {
                    tree::lemma_list_shown(items@, i as int);
                }
                let definition: TableDefinition = match read_definition(&items[i], node) {
                    Some(definition) => definition,
                    None => {
                        return false;
                    },
                };
                let folded: String = fold(definition.name.as_str());
                if output.get(folded.as_str()).is_some() {
                    return false;
                }
                let ghost before = definitions(output@);
                let ghost name = folded@;
                let ghost added = definition@;
                output.insert(folded, definition);
                assert(definitions(output@) =~= before.insert(name, added));
                i += 1;
            }
            true
        },
        _ => false,
    }
}

/// The page ids of the tables of a record from one on, with those found. No
/// two names fold alike.
pub open spec fn storage_from(
    members: Seq<MemberView>,
    done: Map<Seq<char>, RootsView>,
    from: nat,
) -> Option<Map<Seq<char>, RootsView>>
    decreases members.len() - from,
{
    if from >= members.len() {
        Some(done)
    } else {
        let member = members[from as int];
        match roots_of(member.value) {
            Some(roots) => if done.contains_key(text::folded(member.key)) {
                None
            } else {
                storage_from(members, done.insert(text::folded(member.key), roots), from + 1)
            },
            None => None,
        }
    }
}

/// The page ids of the tables that a value has, with those found.
pub open spec fn storage_of(value: JsonView, done: Map<Seq<char>, RootsView>) -> Option<
    Map<Seq<char>, RootsView>,
> {
    match value {
        JsonView::Record(members) => storage_from(members, done, 0),
        _ => None,
    }
}

fn read_storage(value: &Json, output: &mut NameMap<StorageRoots>) -> (fits: bool)
    requires
        old(output).wf(),
    ensures
        final(output).wf(),
        match storage_of(value.shown(), roots_by_name(old(output)@)) {
            Some(want) => fits && roots_by_name(final(output)@) == want,
            None => !fits,
        },
{
    match value {
        Json::Record(members) => {
            let ghost shown = tree::record_shown(members@);
            let ghost want = storage_of(value.shown(), roots_by_name(output@));
            let mut i: usize = 0;
            proof {
                tree::lemma_record_shown(members@, 0);
            }
            while i < members.len()
                invariant
                    i <= members@.len() == shown.len(),
                    shown == tree::record_shown(members@),
                    output.wf(),
                    want == storage_of(value.shown(), roots_by_name(old(output)@)),
                    want == storage_from(shown, roots_by_name(output@), i as nat),
                decreases members@.len() - i,
            {
                proof {
                    tree::lemma_record_shown(members@, i as int);
                }
                let roots: StorageRoots = match read_roots(&members[i].value) {
                    Some(roots) => roots,
                    None => {
                        return false;
                    },
                };
                let folded: String = fold(members[i].key.as_str());
                if output.get(folded.as_str()).is_some() {
                    return false;
                }
                let ghost before = roots_by_name(output@);
                let ghost name = folded@;
                let ghost added = roots@;
                output.insert(folded, roots);
                assert(roots_by_name(output@) =~= before.insert(name, added));
                i += 1;
            }
            true
        },
        _ => false,
    }
}

/// An index with what one member says.
pub open spec fn index_with(done: (Seq<char>, u64), member: MemberView) -> Option<
    (Seq<char>, u64),
> {
    if member.key == "table"@ {
        match member.value {
            JsonView::Text(table) => Some((table, done.1)),
            _ => None,
        }
    } else if member.key == "root"@ {
        match id_of(member.value) {
            Some(root) => Some((done.0, root)),
            None => None,
        }
    } else if passable(member.value) {
        Some(done)
    } else {
        None
    }
}

/// An index with what the members from one on say.
pub open spec fn index_from(
    members: Seq<MemberView>,
    done: (Seq<char>, u64),
    from: nat,
) -> Option<(Seq<char>, u64)>
    decreases members.len() - from,
{
    if from >= members.len() {
        Some(done)
    } else {
        match index_with(done, members[from as int]) {
            Some(next) => index_from(members, next, from + 1),
            None => None,
        }
    }
}

/// The index that a value is. It has a table and a root.
pub open spec fn index_of(value: JsonView) -> Option<(Seq<char>, u64)> {
    match value {
        JsonView::Record(members) => match index_from(members, (Seq::empty(), 0), 0) {
            Some((table, root)) => if table.len() > 0 && root >= FIRST_DATA_PAGE {
                Some((table, root))
            } else {
                None
            },
            None => None,
        },
        _ => None,
    }
}

fn read_index(value: &Json) -> (index: Option<IndexRoot>)
    ensures
        match (index, index_of(value.shown())) {
            (Some(index), Some(want)) => (index.table@, index.root) == want,
            (None, None) => true,
            _ => false,
        },
{
    match value {
        Json::Record(members) => {
            let ghost shown = tree::record_shown(members@);
            let mut table: String = String::new();
            let mut root: u64 = 0;
            let mut i: usize = 0;
            proof {
                tree::lemma_record_shown(members@, 0);
                assert(table@ =~= Seq::empty());
            }
            while i < members.len()
                invariant
                    i <= members@.len() == shown.len(),
                    shown == tree::record_shown(members@),
                    value.shown() == JsonView::Record(shown),
                    index_from(shown, (Seq::empty(), 0), 0) == index_from(
                        shown,
                        (table@, root),
                        i as nat,
                    ),
                decreases members@.len() - i,
            {
                proof {
                    tree::lemma_record_shown(members@, i as int);
                }
                let member: &Member = &members[i];
                if spells(&member.key, "table") {
                    match &member.value {
                        Json::Text(found) => {
                            table = found.clone();
                        },
                        _ => {
                            return None;
                        },
                    }
                } else if spells(&member.key, "root") {
                    match read_id(&member.value) {
                        Some(found) => {
                            root = found;
                        },
                        None => {
                            return None;
                        },
                    }
                } else if !is_within(&member.value, SKIPPED_LEVELS) {
                    return None;
                }
                i += 1;
            }
            let nameless: bool = spells(&table, "");
            proof {
                reveal_strlit("");
                assert(nameless == (table@.len() == 0)) by {
                    if table@.len() == 0 {
                        assert(table@ =~= ""@);
                    }
                }
            }
            if nameless || root < FIRST_DATA_PAGE {
                None
            } else {
                Some(IndexRoot { table, root })
            }
        },
        _ => None,
    }
}

/// The indexes of a list from one on, behind those found.
pub open spec fn indexes_from(
    items: Seq<JsonView>,
    done: Seq<(Seq<char>, u64)>,
    from: nat,
) -> Option<Seq<(Seq<char>, u64)>>
    decreases items.len() - from,
{
    if from >= items.len() {
        Some(done)
    } else {
        match index_of(items[from as int]) {
            Some(index) => indexes_from(items, done.push(index), from + 1),
            None => None,
        }
    }
}

/// The indexes that a value lists, behind those found.
pub open spec fn indexes_in(value: JsonView, done: Seq<(Seq<char>, u64)>) -> Option<
    Seq<(Seq<char>, u64)>,
> {
    match value {
        JsonView::List(items) => indexes_from(items, done, 0),
        _ => None,
    }
}

fn read_indexes(value: &Json, output: &mut Vec<IndexRoot>) -> (fits: bool)
    ensures
        match indexes_in(value.shown(), indexes_of(old(output)@)) {
            Some(want) => fits && indexes_of(final(output)@) == want,
            None => !fits,
        },
{
    match value {
        Json::List(items) => {
            let ghost shown = tree::list_shown(items@);
            let ghost want = indexes_in(value.shown(), indexes_of(output@));
            let mut i: usize = 0;
            proof {
                tree::lemma_list_shown(items@, 0);
            }
            while i < items.len()
                invariant
                    i <= items@.len() == shown.len(),
                    shown == tree::list_shown(items@),
                    want == indexes_in(value.shown(), indexes_of(old(output)@)),
                    want == indexes_from(shown, indexes_of(output@), i as nat),
                decreases items@.len() - i,
            {
                proof {
                    tree::lemma_list_shown(items@, i as int);
                }
                match read_index(&items[i]) {
                    Some(index) => {
                        let ghost before = indexes_of(output@);
                        let ghost added = (index.table@, index.root);
                        output.push(index);
                        assert(indexes_of(output@) =~= before.push(added));
                    },
                    None => {
                        return false;
                    },
                }
                i += 1;
            }
            true
        },
        _ => false,
    }
}

/// A catalog with what one member says.
pub open spec fn facts_with(done: FactsView, member: MemberView) -> Option<FactsView> {
    if member.key == "node_tables"@ {
        match definitions_of(member.value, done.nodes, true) {
            Some(nodes) => Some(FactsView { nodes, ..done }),
            None => None,
        }
    } else if member.key == "rel_tables"@ {
        match definitions_of(member.value, done.relationships, false) {
            Some(relationships) => Some(FactsView { relationships, ..done }),
            None => None,
        }
    } else if member.key == "storage"@ {
        match storage_of(member.value, done.storage) {
            Some(storage) => Some(FactsView { storage, ..done }),
            None => None,
        }
    } else if member.key == "indexes"@ {
        match indexes_in(member.value, done.indexes) {
            Some(indexes) => Some(FactsView { indexes, ..done }),
            None => None,
        }
    } else if passable(member.value) {
        Some(done)
    } else {
        None
    }
}

/// A catalog with what the members from one on say.
pub open spec fn facts_from(members: Seq<MemberView>, done: FactsView, from: nat) -> Option<
    FactsView,
>
    decreases members.len() - from,
{
    if from >= members.len() {
        Some(done)
    } else {
        match facts_with(done, members[from as int]) {
            Some(next) => facts_from(members, next, from + 1),
            None => None,
        }
    }
}

/// What the bytes of a catalog say; nothing where they are none.
pub open spec fn facts_of(payload: Seq<u8>) -> Option<FactsView> {
    match tree::value_at(payload, 0, CATALOG_LEVELS as nat) {
        Some((JsonView::Record(members), end)) => if tree::past_blanks(payload, end)
            == payload.len() {
            facts_from(members, FactsView::none(), 0)
        } else {
            None
        },
        _ => None,
    }
}

fn take_member(facts: &mut CatalogFacts, member: &Member) -> (fits: bool)
    requires
        old(facts).wf(),
    ensures
        final(facts).wf(),
        match facts_with(old(facts)@, member.shown()) {
            Some(after) => fits && final(facts)@ == after,
            None => !fits,
        },
{
    let ghost before = facts@;
    let fits: bool = if spells(&member.key, "node_tables") {
        read_definitions(&member.value, &mut facts.nodes, true)
    } else if spells(&member.key, "rel_tables") {
        read_definitions(&member.value, &mut facts.relationships, false)
    } else if spells(&member.key, "storage") {
        read_storage(&member.value, &mut facts.storage)
    } else if spells(&member.key, "indexes") {
        read_indexes(&member.value, &mut facts.indexes)
    } else {
        is_within(&member.value, SKIPPED_LEVELS)
    };
    proof {
        match facts_with(before, member.shown()) {
            Some(after) => {
                assert(facts@ =~= after);
            },
            None => {},
        }
    }
    fits
}

/// Reads the bytes of a catalog.
pub fn parse_catalog(payload: &[u8]) -> (result: Result<CatalogFacts, StatsError>)
    ensures
        match (result, facts_of(payload@)) {
            (Ok(facts), Some(want)) => facts.wf() && facts@ == want,
            (Err(error), None) => error.kind_of() == ErrorKind::Corrupt,
            _ => false,
        },
{
    let (value, end): (Json, usize) = match read_value(payload, 0, CATALOG_LEVELS) {
        Ok(found) => found,
        Err(fault) => {
            return Err(corrupt(fault.as_str()));
        },
    };
    let members: Vec<Member> = match value {
        Json::Record(members) => members,
        _ => {
            return Err(corrupt("catalog JSON is not an object"));
        },
    };
    let last: usize = tree::skip_blanks(payload, end);
    if last != payload.len() {
        return Err(corrupt("catalog JSON has trailing bytes"));
    }
    let ghost shown = tree::record_shown(members@);
    let ghost want = facts_from(shown, FactsView::none(), 0);
    let mut facts = CatalogFacts::new();
    let mut i: usize = 0;
    proof {
        tree::lemma_record_shown(members@, 0);
    }
    while i < members.len()
        invariant
            i <= members@.len() == shown.len(),
            shown == tree::record_shown(members@),
            facts.wf(),
            facts_of(payload@) == want,
            want == facts_from(shown, facts@, i as nat),
        decreases members@.len() - i,
    {
        proof {
            tree::lemma_record_shown(members@, i as int);
        }
        if !take_member(&mut facts, &members[i]) {
            return Err(corrupt("catalog JSON does not describe a catalog"));
        }
        i += 1;
    }
    Ok(facts)
}

} // verus!
