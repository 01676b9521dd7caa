//! Indexes from primary keys to the stored rows that have them.

use vstd::prelude::*;

use crate::budget::MemoryBudget;
use crate::error::{corrupt, DevonResult, ErrorKind};
use crate::groups;
use crate::groups::{GroupStore, GroupView};
use crate::keys;
use crate::keys::{KeyMap, KeyView, PkKey};
use crate::node_table::effects;
use crate::types;
use crate::types::{text_len, LogicalType, Value, ValueView};

verus! {

/// Estimated bytes of an index without keys.
pub const PK_INDEX_BASE_BYTES: usize = 128;

/// Estimated bytes of an integer key's entry.
pub const PK_INDEX_INT_ENTRY_BYTES: usize = 48;

/// Estimated bytes of a text key's entry, without the text.
pub const PK_INDEX_STRING_ENTRY_BYTES: usize = 64;

/// Estimated bytes of a group's location.
pub const PK_INDEX_GROUP_BYTES: usize = 32;

/// What asking an index gives.
#[derive(Debug, Clone, PartialEq)]
pub enum PkIndexResult<T> {
    /// There is an index; the key may or may not be in it.
    Indexed(Option<T>),
    /// There was no room for an index: the caller has to scan.
    Unavailable,
}

/// Where a group's rows stand.
#[derive(Debug, Clone, Copy, PartialEq, Eq, Structural)]
pub struct GroupLocation {
    pub page_id: u64,
    pub start_offset: u64,
    pub row_count: u64,
}

impl GroupLocation {
    /// Whether a row stands in the group.
    pub open spec fn holds(self, offset: u64) -> bool {
        self.start_offset <= offset < self.start_offset + self.row_count
    }

    /// The place of a row in the group.
    pub(crate) fn row_index(self, offset: u64) -> (result: DevonResult<usize>)
        ensures
            match result {
                Ok(row) => self.holds(offset) && row == offset - self.start_offset,
                Err(error) => (!self.holds(offset) || offset - self.start_offset > usize::MAX)
                    && error.kind_of() == ErrorKind::Corrupt,
            },
    {
        if offset < self.start_offset {
            return Err(corrupt("indexed node offset precedes its containing group"));
        }
        let row: u64 = offset - self.start_offset;
        if row >= self.row_count {
            return Err(corrupt("indexed node offset exceeds its containing group"));
        }
        if row > usize::MAX as u64 {
            return Err(corrupt("node-group row index exceeds usize::MAX"));
        }
        Ok(row as usize)
    }
}

/// What an index says: the row of each key, where the groups stand, and what
/// the budget is charged for it.
#[verifier::ext_equal]
pub struct IndexView {
    pub offsets: Map<KeyView, u64>,
    pub groups: Seq<GroupLocation>,
    pub charged: nat,
}

impl IndexView {
    /// An index without keys.
    pub open spec fn none() -> IndexView {
        IndexView { offsets: Map::empty(), groups: Seq::empty(), charged: 0 }
    }

    /// What charging `bytes` more comes to: the first charge is also for the
    /// index itself.
    pub open spec fn grown(self, bytes: nat) -> nat {
        self.charged + bytes + if self.charged == 0 {
            PK_INDEX_BASE_BYTES as nat
        } else {
            0
        }
    }
}

/// The bytes of a key's entry.
pub open spec fn entry_bytes(key: KeyView) -> nat {
    match key {
        KeyView::Int(_) => PK_INDEX_INT_ENTRY_BYTES as nat,
        KeyView::Text(text) => PK_INDEX_STRING_ENTRY_BYTES as nat + vstd::utf8::encode_utf8(
            text,
        ).len(),
    }
}

/// The index with one key more, where `room` bytes are enough. The first row
/// of a key counts, and a row without a key does not; a value that cannot be
/// a key refuses.
pub open spec fn with_key(index: IndexView, value: ValueView, offset: u64, room: int) -> Option<
    IndexView,
> {
    match keys::key_of(value) {
        None => if value is Null {
            Some(index)
        } else {
            None
        },
        Some(key) => if index.offsets.contains_key(key) {
            Some(index)
        } else if index.grown(entry_bytes(key)) <= room {
            Some(
                IndexView {
                    offsets: index.offsets.insert(key, offset),
                    charged: index.grown(entry_bytes(key)),
                    ..index
                },
            )
        } else {
            None
        },
    }
}

/// The index with the keys of the first `n` of a group's rows.
pub open spec fn with_keys(
    index: IndexView,
    rows: Seq<Seq<ValueView>>,
    column: int,
    start: int,
    room: int,
    n: nat,
) -> Option<IndexView>
    decreases n,
{
    if n == 0 {
        Some(index)
    } else {
        match with_keys(index, rows, column, start, room, (n - 1) as nat) {
            None => None,
            Some(before) => with_key(
                before,
                rows[n - 1][column],
                (start + n - 1) as u64,
                room,
            ),
        }
    }
}

/// The index with a group's location, where `room` bytes are enough.
pub open spec fn with_location(index: IndexView, location: GroupLocation, room: int) -> Option<
    IndexView,
> {
    if index.grown(PK_INDEX_GROUP_BYTES as nat) <= room {
        Some(
            IndexView {
                groups: index.groups.push(location),
                charged: index.grown(PK_INDEX_GROUP_BYTES as nat),
                ..index
            },
        )
    } else {
        None
    }
}

/// How far building an index has come.
pub enum Built {
    /// The index so far, and how many rows it has seen.
    Going(IndexView, nat),
    /// There is no room, or a value cannot be a key.
    Refused,
    /// A group cannot be read.
    Failed(ErrorKind),
}

/// The index of the first `n` groups, where `room` bytes are enough.
pub open spec fn built(
    store: Map<u64, GroupView>,
    ids: Seq<u64>,
    types: Seq<LogicalType>,
    column: int,
    room: int,
    n: nat,
) -> Built
    decreases n,
{
    if n == 0 {
        Built::Going(IndexView::none(), 0)
    } else {
        match built(store, ids, types, column, room, (n - 1) as nat) {
            Built::Going(index, start) => match groups::node_at(store, ids[n - 1], types) {
                None => Built::Failed(ErrorKind::Corrupt),
                Some(rows) => if start + rows.len() > u64::MAX {
                    Built::Failed(ErrorKind::Corrupt)
                } else {
                    match with_location(
                        index,
                        GroupLocation {
                            page_id: ids[n - 1],
                            start_offset: start as u64,
                            row_count: rows.len() as u64,
                        },
                        room,
                    ) {
                        None => Built::Refused,
                        Some(placed) => match with_keys(
                            placed,
                            rows,
                            column,
                            start as int,
                            room,
                            rows.len(),
                        ) {
                            None => Built::Refused,
                            Some(after) => Built::Going(after, start + rows.len()),
                        },
                    }
                },
            },
            stopped => stopped,
        }
    }
}

/// Keys that fit give the same index in any room, or do not fit.
proof fn lemma_keys_in_any_room(
    index: IndexView,
    rows: Seq<Seq<ValueView>>,
    column: int,
    start: int,
    a: int,
    b: int,
    n: nat,
)
    requires
        with_keys(index, rows, column, start, a, n) is Some,
    ensures
        with_keys(index, rows, column, start, b, n) is Some ==> with_keys(
            index,
            rows,
            column,
            start,
            b,
            n,
        ) == with_keys(index, rows, column, start, a, n),
    decreases n,
{
    if n > 0 {
        lemma_keys_in_any_room(index, rows, column, start, a, b, (n - 1) as nat);
    }
}

/// Building gives the same index in any room, or is refused for want of it.
pub proof fn lemma_built_in_any_room(
    store: Map<u64, GroupView>,
    ids: Seq<u64>,
    types: Seq<LogicalType>,
    column: int,
    a: int,
    b: int,
    n: nat,
)
    requires
        built(store, ids, types, column, a, n) is Going,
    ensures
        built(store, ids, types, column, b, n) == built(store, ids, types, column, a, n) || built(
            store,
            ids,
            types,
            column,
            b,
            n,
        ) is Refused,
    decreases n,
{
    if n > 0 {
        lemma_built_in_any_room(store, ids, types, column, a, b, (n - 1) as nat);
        match built(store, ids, types, column, b, (n - 1) as nat) {
            Built::Going(index, start) => {
                let rows = groups::node_at(store, ids[n - 1], types)->Some_0;
                let location = GroupLocation {
                    page_id: ids[n - 1],
                    start_offset: start as u64,
                    row_count: rows.len() as u64,
                };
                let placed = with_location(index, location, a)->Some_0;
                lemma_keys_in_any_room(placed, rows, column, start as int, a, b, rows.len());
            },
            _ => {},
        }
    }
}

/// Once building has stopped, more groups do not change that.
proof fn lemma_stopped(
    store: Map<u64, GroupView>,
    ids: Seq<u64>,
    types: Seq<LogicalType>,
    column: int,
    room: int,
    at: nat,
    n: nat,
)
    requires
        at <= n,
        !(built(store, ids, types, column, room, at) is Going),
    ensures
        built(store, ids, types, column, room, n) == built(store, ids, types, column, room, at),
    decreases n,
{
    if at < n {
        lemma_stopped(store, ids, types, column, room, at, (n - 1) as nat);
    }
}

/// Once a key was refused, more keys do not change that.
proof fn lemma_keys_refused(
    index: IndexView,
    rows: Seq<Seq<ValueView>>,
    column: int,
    start: int,
    room: int,
    at: nat,
    n: nat,
)
    requires
        at <= n,
        with_keys(index, rows, column, start, room, at) is None,
    ensures
        with_keys(index, rows, column, start, room, n) is None,
    decreases n,
{
    if at < n {
        lemma_keys_refused(index, rows, column, start, room, at, (n - 1) as nat);
    }
}

/// The rows of the first `n` groups together.
pub open spec fn joined(
    store: Map<u64, GroupView>,
    ids: Seq<u64>,
    types: Seq<LogicalType>,
    n: nat,
) -> Seq<Seq<ValueView>>
    decreases n,
{
    if n == 0 {
        Seq::empty()
    } else {
        joined(store, ids, types, (n - 1) as nat) + match groups::node_at(
            store,
            ids[n - 1],
            types,
        ) {
            Some(rows) => rows,
            None => Seq::empty(),
        }
    }
}

/// Whether each key has its first row, and only keys of rows are there.
pub open spec fn finds_first(
    offsets: Map<KeyView, u64>,
    rows: Seq<Seq<ValueView>>,
    column: int,
) -> bool {
    forall|key: KeyView|
        (#[trigger] offsets.contains_key(key) <==> effects::key_from(rows, column, 0, key)) && (
        offsets.contains_key(key) ==> first_row(rows, column, key, offsets[key] as int))
}

/// Whether a row is the first with a key.
pub open spec fn first_row(
    rows: Seq<Seq<ValueView>>,
    column: int,
    key: KeyView,
    at: int,
) -> bool {
    &&& 0 <= at < rows.len()
    &&& keys::row_key(rows[at], column) == Some(key)
    &&& forall|j: int| 0 <= j < at ==> keys::row_key(#[trigger] rows[j], column) != Some(key)
}

/// One row more keeps what an index finds.
proof fn lemma_key_found(
    index: IndexView,
    rows: Seq<Seq<ValueView>>,
    row: Seq<ValueView>,
    column: int,
    room: int,
)
    requires
        finds_first(index.offsets, rows, column),
        0 <= column < row.len(),
        rows.len() <= u64::MAX,
        with_key(index, row[column], rows.len() as u64, room) is Some,
    ensures
        finds_first(
            with_key(index, row[column], rows.len() as u64, room)->Some_0.offsets,
            rows.push(row),
            column,
        ),
{
    let after = with_key(index, row[column], rows.len() as u64, room)->Some_0;
    let all = rows.push(row);
    assert forall|key: KeyView|
        (#[trigger] after.offsets.contains_key(key) <==> effects::key_from(all, column, 0, key))
            && (after.offsets.contains_key(key) ==> first_row(
            all,
            column,
            key,
            after.offsets[key] as int,
        )) by {
        if effects::key_from(rows, column, 0, key) {
            let i = choose|i: int|
                0 <= i < rows.len() && keys::row_key(#[trigger] rows[i], column) == Some(key);
            assert(all[i] == rows[i]);
            assert(index.offsets.contains_key(key));
        }
        if effects::key_from(all, column, 0, key) {
            let i = choose|i: int|
                0 <= i < all.len() && keys::row_key(#[trigger] all[i], column) == Some(key);
            if i < rows.len() {
                assert(all[i] == rows[i]);
                assert(effects::key_from(rows, column, 0, key));
            }
        }
        if keys::row_key(row, column) == Some(key) {
            assert(all[rows.len() as int] == row);
        }
        if index.offsets.contains_key(key) {
            let at = index.offsets[key] as int;
            assert(first_row(rows, column, key, at));
            assert(all[at] == rows[at]);
            assert forall|j: int| 0 <= j < at implies keys::row_key(#[trigger] all[j], column)
                != Some(key) by {
                assert(all[j] == rows[j]);
            }
        } else if after.offsets.contains_key(key) {
            assert forall|j: int| 0 <= j < rows.len() implies keys::row_key(
                #[trigger] all[j],
                column,
            ) != Some(key) by {
                assert(all[j] == rows[j]);
            }
        }
    }
}

/// A group's keys keep what an index finds.
proof fn lemma_keys_found(
    index: IndexView,
    before: Seq<Seq<ValueView>>,
    rows: Seq<Seq<ValueView>>,
    column: int,
    room: int,
    n: nat,
)
    requires
        finds_first(index.offsets, before, column),
        n <= rows.len(),
        before.len() + rows.len() <= u64::MAX,
        forall|i: int| 0 <= i < rows.len() ==> 0 <= column < (#[trigger] rows[i]).len(),
        with_keys(index, rows, column, before.len() as int, room, n) is Some,
    ensures
        finds_first(
            with_keys(index, rows, column, before.len() as int, room, n)->Some_0.offsets,
            before + rows.subrange(0, n as int),
            column,
        ),
    decreases n,
{
    if n == 0 {
        assert(before + rows.subrange(0, 0) =~= before);
    } else {
        lemma_keys_found(index, before, rows, column, room, (n - 1) as nat);
        let part = with_keys(
            index,
            rows,
            column,
            before.len() as int,
            room,
            (n - 1) as nat,
        )->Some_0;
        let seen = before + rows.subrange(0, n - 1);
        lemma_key_found(part, seen, rows[n - 1], column, room);
        assert(before + rows.subrange(0, n as int) =~= seen.push(rows[n - 1]));
    }
}

/// The index finds the first row of each key that a row has, and no other
/// key.
pub proof fn law_index_finds_first_row(
    store: Map<u64, GroupView>,
    ids: Seq<u64>,
    types: Seq<LogicalType>,
    column: int,
    room: int,
    n: nat,
)
    requires
        n <= ids.len(),
        0 <= column < types.len(),
        built(store, ids, types, column, room, n) is Going,
    ensures
        ({
            let index = built(store, ids, types, column, room, n)->Going_0;
            let seen = built(store, ids, types, column, room, n)->Going_1;
            &&& seen == joined(store, ids, types, n).len()
            &&& finds_first(index.offsets, joined(store, ids, types, n), column)
        }),
    decreases n,
{
    if n > 0 {
        law_index_finds_first_row(store, ids, types, column, room, (n - 1) as nat);
        let index = built(store, ids, types, column, room, (n - 1) as nat)->Going_0;
        let before = joined(store, ids, types, (n - 1) as nat);
        let rows = groups::node_at(store, ids[n - 1], types)->Some_0;
        let placed = with_location(
            index,
            GroupLocation {
                page_id: ids[n - 1],
                start_offset: before.len() as u64,
                row_count: rows.len() as u64,
            },
            room,
        )->Some_0;
        assert forall|i: int| 0 <= i < rows.len() implies 0 <= column < (#[trigger] rows[i]).len() by {
            assert(groups::values_fit(types, rows[i]));
        }
        lemma_keys_found(placed, before, rows, column, room, rows.len());
        assert(rows.subrange(0, rows.len() as int) =~= rows);
    } else {
        assert forall|key: KeyView| !effects::key_from(
            Seq::<Seq<ValueView>>::empty(),
            column,
            0,
            key,
        ) by {}
    }
}

/// An index from the primary keys of a table to its stored rows.
#[derive(Debug)]
pub struct PkResolutionIndex {
    places: KeyMap,
    offsets: Vec<u64>,
    groups: Vec<GroupLocation>,
    charged_bytes: usize,
}

impl View for PkResolutionIndex {
    type V = IndexView;

    closed spec fn view(&self) -> IndexView {
        IndexView {
            offsets: Map::new(
                |key: KeyView| self.places@.contains_key(key),
                |key: KeyView| self.offsets@[self.places@[key] as int],
            ),
            groups: self.groups@,
            charged: self.charged_bytes as nat,
        }
    }
}

/// The last group that starts at or before a row, of the first `n`.
pub open spec fn last_start(list: Seq<GroupLocation>, offset: u64, n: nat) -> Option<GroupLocation>
    decreases n,
{
    if n == 0 {
        None
    } else if list[n - 1].start_offset <= offset {
        Some(list[n - 1])
    } else {
        last_start(list, offset, (n - 1) as nat)
    }
}

/// The group that is found starts at or before the row, and none behind it does.
pub proof fn law_last_start_is_the_last(list: Seq<GroupLocation>, offset: u64, n: nat)
    requires
        n <= list.len(),
    ensures
        match last_start(list, offset, n) {
            Some(found) => exists|at: int|
                {
                    &&& 0 <= at < n
                    &&& #[trigger] list[at] == found
                    &&& found.start_offset <= offset
                    &&& forall|i: int| at < i < n ==> (#[trigger] list[i]).start_offset > offset
                },
            None => forall|i: int| 0 <= i < n ==> (#[trigger] list[i]).start_offset > offset,
        },
    decreases n,
{
    if n > 0 {
        law_last_start_is_the_last(list, offset, (n - 1) as nat);
        if list[n - 1].start_offset <= offset {
            assert(list[n - 1] == last_start(list, offset, n)->Some_0);
        } else if let Some(found) = last_start(list, offset, (n - 1) as nat) {
            let at = choose|at: int|
                {
                    &&& 0 <= at < n - 1
                    &&& #[trigger] list[at] == found
                    &&& found.start_offset <= offset
                    &&& forall|i: int| at < i < n - 1 ==> (#[trigger] list[i]).start_offset > offset
                };
            assert(list[at] == found);
        }
    }
}

impl PkResolutionIndex {
    /// Every key has its row.
    pub closed spec fn wf(self) -> bool {
        &&& self.places.wf()
        &&& forall|key: KeyView| #[trigger]
            self.places@.contains_key(key) ==> self.places@[key] < self.offsets@.len()
    }

    fn new() -> (index: PkResolutionIndex)
        ensures
            index.wf(),
            index@ == IndexView::none(),
    {
        let index = PkResolutionIndex {
            places: KeyMap::new(),
            offsets: Vec::new(),
            groups: Vec::new(),
            charged_bytes: 0,
        };
        assert(index@ =~= IndexView::none());
        index
    }

    /// The bytes that the budget is charged for this.
    pub fn charged_bytes(&self) -> (bytes: usize)
        ensures
            bytes == self@.charged,
    {
        self.charged_bytes
    }

    /// The row of a key.
    pub fn offset(&self, key: &Value) -> (found: Option<u64>)
        requires
            self.wf(),
        ensures
            match keys::key_of(key@) {
                None => found is None,
                Some(key) => match found {
                    Some(offset) => self@.offsets.contains_key(key) && self@.offsets[key]
                        == offset,
                    None => !self@.offsets.contains_key(key),
                },
            },
    {
        match PkKey::of_value(key) {
            None => None,
            Some(key) => match self.places.get(&key) {
                Some(place) => Some(self.offsets[place]),
                None => None,
            },
        }
    }

    /// The row of a key and the group that it stands in.
    pub fn locate(&self, key: &Value) -> (result: DevonResult<Option<(u64, GroupLocation)>>)
        requires
            self.wf(),
        ensures
            match (keys::key_of(key@), result) {
                (Some(key), Ok(Some((offset, location)))) => {
                    &&& self@.offsets.contains_key(key)
                    &&& offset == self@.offsets[key]
                    &&& last_start(self@.groups, offset, self@.groups.len()) == Some(location)
                    &&& location.holds(offset)
                    &&& offset - location.start_offset <= usize::MAX
                },
                (Some(key), Ok(None)) => !self@.offsets.contains_key(key),
                (Some(key), Err(error)) => {
                    &&& self@.offsets.contains_key(key)
                    &&& error.kind_of() == ErrorKind::Corrupt
                    &&& match last_start(self@.groups, self@.offsets[key], self@.groups.len()) {
                        None => true,
                        Some(location) => !location.holds(self@.offsets[key])
                            || self@.offsets[key] - location.start_offset > usize::MAX,
                    }
                },
                (None, Ok(None)) => true,
                _ => false,
            },
    {
        let offset: u64 = match self.offset(key) {
            Some(offset) => offset,
            None => {
                return Ok(None);
            },
        };
        let mut i: usize = self.groups.len();
        while i > 0
            invariant
                i <= self.groups@.len(),
                last_start(self.groups@, offset, self.groups@.len()) == last_start(
                    self.groups@,
                    offset,
                    i as nat,
                ),
                self@.offsets.contains_key(keys::key_of(key@)->Some_0),
                keys::key_of(key@) is Some,
                self@.offsets[keys::key_of(key@)->Some_0] == offset,
            decreases i,
        {
            let location: GroupLocation = self.groups[i - 1];
            if location.start_offset <= offset {
                return match location.row_index(offset) {
                    Ok(_) => Ok(Some((offset, location))),
                    Err(error) => Err(error),
                };
            }
            i -= 1;
        }
        Err(corrupt("indexed node offset has no containing group"))
    }

    fn grow_charge(&mut self, bytes: usize, budget: &mut MemoryBudget) -> (fits: bool)
        requires
            old(self).wf(),
            old(self)@.charged <= old(budget).charged_of(),
        ensures
            final(self).wf(),
            final(self)@.charged <= final(budget).charged_of(),
            fits == (old(self)@.grown(bytes as nat) - old(self)@.charged <= old(budget).room()),
            fits ==> final(self)@ == (IndexView {
                charged: old(self)@.grown(bytes as nat),
                ..old(self)@
            }),
            !fits ==> final(self)@ == old(self)@,
            final(budget).limit_of() == old(budget).limit_of(),
            final(budget).charged_of() - final(self)@.charged == old(budget).charged_of()
                - old(self)@.charged,
    {
        proof {
            budget.lemma_limit();
        }
        let ghost before = self@;
        let requested: usize = if self.charged_bytes == 0 {
            match PK_INDEX_BASE_BYTES.checked_add(bytes) {
                Some(requested) => requested,
                None => {
                    return false;
                },
            }
        } else {
            bytes
        };
        if !budget.try_charge(requested) {
            return false;
        }
        self.charged_bytes = self.charged_bytes + requested;
        assert(self@ =~= IndexView { charged: before.grown(bytes as nat), ..before });
        true
    }

    fn push_group(&mut self, location: GroupLocation, budget: &mut MemoryBudget) -> (fits: bool)
        requires
            old(self).wf(),
            old(self)@.charged <= old(budget).charged_of(),
        ensures
            final(self).wf(),
            final(self)@.charged <= final(budget).charged_of(),
            final(budget).limit_of() == old(budget).limit_of(),
            final(budget).charged_of() - final(self)@.charged == old(budget).charged_of()
                - old(self)@.charged,
            match with_location(old(self)@, location, old(budget).room() + old(self)@.charged) {
                Some(after) => fits && final(self)@ == after,
                None => !fits,
            },
    {
        if !self.grow_charge(PK_INDEX_GROUP_BYTES, budget) {
            return false;
        }
        let ghost before = self@;
        self.groups.push(location);
        assert(self@ =~= IndexView { groups: before.groups.push(location), ..before });
        true
    }

    fn insert(&mut self, value: &Value, offset: u64, budget: &mut MemoryBudget) -> (fits: bool)
        requires
            old(self).wf(),
            old(self)@.charged <= old(budget).charged_of(),
        ensures
            final(self).wf(),
            final(self)@.charged <= final(budget).charged_of(),
            final(budget).limit_of() == old(budget).limit_of(),
            final(budget).charged_of() - final(self)@.charged == old(budget).charged_of()
                - old(self)@.charged,
            match with_key(old(self)@, value@, offset, old(budget).room() + old(self)@.charged) {
                Some(after) => fits && final(self)@ == after,
                None => !fits,
            },
    {
        proof {
            budget.lemma_limit();
        }
        let key: PkKey = match PkKey::of_value(value) {
            Some(key) => key,
            None => {
                return match value {
                    Value::Null => true,
                    _ => false,
                };
            },
        };
        let ghost first = self@;
        let ghost named = key@;
        if self.places.get(&key).is_some() {
            assert(self@.offsets.contains_key(named));
            return true;
        }
        assert(!self@.offsets.contains_key(named));
        let bytes: usize = match &key {
            PkKey::Int64(_) => PK_INDEX_INT_ENTRY_BYTES,
            PkKey::String(text) => match PK_INDEX_STRING_ENTRY_BYTES.checked_add(
                text_len(text.as_str()),
            ) {
                Some(bytes) => bytes,
                None => {
                    return false;
                },
            },
        };
        if !self.grow_charge(bytes, budget) {
            return false;
        }
        let ghost before = *self;
        let place: usize = self.offsets.len();
        self.offsets.push(offset);
        self.places.insert(key, place);
        proof {
            assert forall|other: KeyView| #[trigger] self.places@.contains_key(other) implies self.places@[other]
                < self.offsets@.len() by {
                if other != named {
                    assert(before.places@.contains_key(other));
                }
            }
            let want = before@.offsets.insert(named, offset);
            assert forall|other: KeyView| #[trigger] self@.offsets.contains_key(other) implies self@.offsets[other]
                == want[other] by {
                if other != named {
                    assert(before.places@.contains_key(other));
                }
            }
            assert(self@.offsets =~= want);
        }
        true
    }
}

fn index_group_keys(
    index: &mut PkResolutionIndex,
    rows: &Vec<Vec<Value>>,
    column: usize,
    start_offset: u64,
    budget: &mut MemoryBudget,
) -> (fits: bool)
    requires
        old(index).wf(),
        old(index)@.charged <= old(budget).charged_of(),
        start_offset + rows@.len() <= u64::MAX,
        forall|i: int| 0 <= i < rows@.len() ==> column < (#[trigger] rows@[i])@.len(),
    ensures
        final(index).wf(),
        final(index)@.charged <= final(budget).charged_of(),
        final(budget).limit_of() == old(budget).limit_of(),
        final(budget).charged_of() - final(index)@.charged == old(budget).charged_of()
            - old(index)@.charged,
        match with_keys(
            old(index)@,
            groups::rows_of(rows@),
            column as int,
            start_offset as int,
            old(budget).room() + old(index)@.charged,
            rows@.len(),
        ) {
            Some(after) => fits && final(index)@ == after,
            None => !fits,
        },
{
    let ghost shown = groups::rows_of(rows@);
    let ghost first = index@;
    let ghost room = budget.room() + index@.charged;
    let ghost base = budget.charged_of() - index@.charged;
    let mut i: usize = 0;
    while i < rows.len()
        invariant
            i <= rows@.len(),
            shown == groups::rows_of(rows@),
            first == old(index)@,
            room == old(budget).room() + old(index)@.charged,
            base == old(budget).charged_of() - old(index)@.charged,
            index.wf(),
            index@.charged <= budget.charged_of(),
            budget.limit_of() == old(budget).limit_of(),
            budget.charged_of() - index@.charged == base,
            start_offset + rows@.len() <= u64::MAX,
            forall|i: int| 0 <= i < rows@.len() ==> column < (#[trigger] rows@[i])@.len(),
            with_keys(first, shown, column as int, start_offset as int, room, i as nat) == Some(
                index@,
            ),
        decreases rows@.len() - i,
    {
        let offset: u64 = start_offset + i as u64;
        proof {
            assert(shown[i as int] == types::views(rows@[i as int]@));
            assert(shown[i as int][column as int] == rows@[i as int]@[column as int]@);
            assert(budget.room() + index@.charged == room);
        }
        if !index.insert(&rows[i][column], offset, budget) {
            proof {
                lemma_keys_refused(
                    first,
                    shown,
                    column as int,
                    start_offset as int,
                    room,
                    (i + 1) as nat,
                    rows@.len(),
                );
            }
            return false;
        }
        i += 1;
    }
    true
}

/// Builds the index of a table's groups. The budget is charged for it; where
/// there is no room nothing stays charged. The room is what the caller
/// leaves: one that keeps caches calls
/// [`crate::overlay::reclaim::build_pk_index_or_reclaim`].
pub fn build_pk_index(
    store: &GroupStore,
    ids: &Vec<u64>,
    types: &Vec<LogicalType>,
    column: usize,
    budget: &mut MemoryBudget,
) -> (result: DevonResult<Option<PkResolutionIndex>>)
    requires
        store.wf(),
        column < types@.len(),
    ensures
        final(budget).limit_of() == old(budget).limit_of(),
        match (
            result,
            built(store@, ids@, types@, column as int, old(budget).room(), ids@.len()),
        ) {
            (Ok(Some(index)), Built::Going(after, _)) => index.wf() && index@ == after
                && final(budget).charged_of() == old(budget).charged_of() + after.charged,
            (Ok(None), Built::Refused) => final(budget).charged_of() == old(budget).charged_of(),
            (Err(error), Built::Failed(kind)) => error.kind_of() == kind
                && final(budget).charged_of() == old(budget).charged_of(),
            _ => false,
        },
{
    let ghost room = budget.room();
    let ghost base = budget.charged_of();
    let mut index = PkResolutionIndex::new();
    let mut start_offset: u64 = 0;
    let mut i: usize = 0;
    while i < ids.len()
        invariant
            i <= ids@.len(),
            store.wf(),
            column < types@.len(),
            room == old(budget).room(),
            base == old(budget).charged_of(),
            index.wf(),
            budget.limit_of() == old(budget).limit_of(),
            budget.charged_of() - index@.charged == base,
            index@.charged <= budget.charged_of(),
            built(store@, ids@, types@, column as int, room, i as nat) == Built::Going(
                index@,
                start_offset as nat,
            ),
        decreases ids@.len() - i,
    {
        let ghost before = built(store@, ids@, types@, column as int, room, (i + 1) as nat);
        proof {
            if !(before is Going) {
                lemma_stopped(
                    store@,
                    ids@,
                    types@,
                    column as int,
                    room,
                    (i + 1) as nat,
                    ids@.len(),
                );
            }
            assert(budget.room() + index@.charged == room);
        }
        let id: u64 = ids[i];
        let rows: Vec<Vec<Value>> = match store.read_rows(id, types) {
            Ok(rows) => rows,
            Err(error) => {
                budget.release(index.charged_bytes);
                return Err(error);
            },
        };
        let ghost shown = groups::rows_of(rows@);
        let row_count: u64 = rows.len() as u64;
        let end: u64 = match start_offset.checked_add(row_count) {
            Some(end) => end,
            None => {
                budget.release(index.charged_bytes);
                return Err(corrupt("checkpointed node offset exceeds u64::MAX"));
            },
        };
        if !index.push_group(
            GroupLocation { page_id: id, start_offset, row_count },
            budget,
        ) {
            budget.release(index.charged_bytes);
            return Ok(None);
        }
        proof {
            assert forall|k: int| 0 <= k < rows@.len() implies column < (#[trigger] rows@[k])@.len() by {
                assert(groups::values_fit(types@, shown[k]));
                assert(shown[k] == types::views(rows@[k]@));
            }
            assert(budget.room() + index@.charged == room);
        }
        if !index_group_keys(&mut index, &rows, column, start_offset, budget) {
            budget.release(index.charged_bytes);
            return Ok(None);
        }
        start_offset = end;
        i += 1;
    }
    Ok(Some(index))
}

} // verus!
