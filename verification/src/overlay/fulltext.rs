//! Full-text indexes of stored text columns, kept per published state.

use std::sync::Arc;

use vstd::prelude::*;

use crate::budget::MemoryBudget;
use crate::catalog;
use crate::catalog::Catalog;
use crate::error::{budget_exceeded, corrupt, invalid_argument, not_found, DevonResult, ErrorKind};
use crate::groups;
use crate::groups::{GroupStore, GroupView};
use crate::node_table::column_types;
use crate::overlay::chain;
use crate::overlay::chain::refused;
use crate::overlay::pk_cache;
use crate::overlay::pk_cache::drop_publication;
use crate::overlay::published::PublishedState;
use crate::picked;
use crate::schema;
use crate::schema::{ColumnDef, ColumnView, NodeTableSchema};
use crate::shared::{share, take_unshared};
use crate::tally::Tally;
use crate::text;
use crate::text::{same_name, same_text, with_name};
use crate::types;
use crate::types::{text_len, LogicalType, Value, ValueView};

verus! {

/// Estimated bytes of an indexed text, without the text.
pub const DOCUMENT_BYTES: usize = 32;

/// An indexed text: its row and what it says.
#[derive(Debug)]
pub struct Document {
    pub ordinal: u64,
    pub text: String,
}

/// The texts of an index.
pub open spec fn documents_of(documents: Seq<Document>) -> Seq<(u64, Seq<char>)> {
    documents.map_values(|document: Document| (document.ordinal, document.text@))
}

/// The index of a stored text column, and what the budget is charged for it.
/// The charge lasts as long as anyone holds the index.
#[derive(Debug)]
pub struct ChargedFullTextIndex {
    documents: Vec<Document>,
    charged_bytes: usize,
}

/// What an index holds.
#[verifier::ext_equal]
pub struct TextIndexView {
    pub documents: Seq<(u64, Seq<char>)>,
    pub charged: nat,
}

impl View for ChargedFullTextIndex {
    type V = TextIndexView;

    closed spec fn view(&self) -> TextIndexView {
        TextIndexView {
            documents: documents_of(self.documents@),
            charged: self.charged_bytes as nat,
        }
    }
}

impl ChargedFullTextIndex {
    /// How many texts are indexed.
    pub fn len(&self) -> (count: usize)
        ensures
            count == self@.documents.len(),
    {
        self.documents.len()
    }

    /// An indexed text.
    pub fn document(&self, at: usize) -> (document: &Document)
        requires
            at < self@.documents.len(),
        ensures
            self@.documents[at as int] == (document.ordinal, document.text@),
    {
        &self.documents[at]
    }

    /// The bytes that the budget is charged for this.
    pub fn charged_bytes(&self) -> (bytes: usize)
        ensures
            bytes == self@.charged,
    {
        self.charged_bytes
    }
}

/// What asking for an index gives.
#[derive(Debug)]
pub enum FullTextResult {
    /// The index of the stored rows.
    Indexed(Arc<ChargedFullTextIndex>),
    /// There was no room for an index: the caller has to do without.
    Unavailable,
}

/// Whether there is an index.
#[derive(Debug)]
pub enum FullTextState {
    /// None was asked for yet.
    Unbuilt,
    /// There is one.
    Ready(Arc<ChargedFullTextIndex>),
    /// There was no room for one.
    Refused,
}

/// Whether there is an index, and which.
pub enum TextStateView {
    Unbuilt,
    Ready(TextIndexView),
    Refused,
}

impl View for FullTextState {
    type V = TextStateView;

    open spec fn view(&self) -> TextStateView {
        match self {
            FullTextState::Unbuilt => TextStateView::Unbuilt,
            FullTextState::Ready(index) => TextStateView::Ready(index@),
            FullTextState::Refused => TextStateView::Refused,
        }
    }
}

/// The bytes that an indexed text takes.
pub open spec fn document_bytes(text: Seq<char>) -> nat {
    DOCUMENT_BYTES as nat + vstd::utf8::encode_utf8(text).len()
}

/// The bytes that a column takes while it is read.
pub open spec fn column_bytes(rows: Seq<Seq<ValueView>>, column: int) -> nat
    decreases rows.len(),
{
    if rows.len() == 0 {
        0
    } else {
        column_bytes(rows.drop_last(), column) + groups::held_bytes(rows.last()[column])
    }
}

/// The index with one row more, where `room` bytes are enough for it and for
/// `scratch` others. A row without a text is not indexed.
pub open spec fn with_text(
    index: TextIndexView,
    value: ValueView,
    ordinal: u64,
    scratch: nat,
    room: int,
) -> Result<TextIndexView, ErrorKind> {
    match value {
        ValueView::Null => Ok(index),
        ValueView::String(text) => if index.charged + document_bytes(text) + scratch <= room {
            Ok(
                TextIndexView {
                    documents: index.documents.push((ordinal, text)),
                    charged: index.charged + document_bytes(text),
                },
            )
        } else {
            Err(ErrorKind::BudgetExceeded)
        },
        _ => Err(ErrorKind::Corrupt),
    }
}

/// The index with the first `n` of a group's rows.
pub open spec fn with_texts(
    index: TextIndexView,
    rows: Seq<Seq<ValueView>>,
    column: int,
    start: int,
    scratch: nat,
    room: int,
    n: nat,
) -> Result<TextIndexView, ErrorKind>
    decreases n,
{
    if n == 0 {
        Ok(index)
    } else {
        match with_texts(index, rows, column, start, scratch, room, (n - 1) as nat) {
            Err(kind) => Err(kind),
            Ok(before) => with_text(
                before,
                rows[n - 1][column],
                (start + n - 1) as u64,
                scratch,
                room,
            ),
        }
    }
}

/// The index of the first `n` groups and how many rows they have, where
/// `room` bytes are enough.
pub open spec fn text_built(
    store: Map<u64, GroupView>,
    ids: Seq<u64>,
    types: Seq<LogicalType>,
    column: int,
    room: int,
    n: nat,
) -> Result<(TextIndexView, nat), ErrorKind>
    decreases n,
{
    if n == 0 {
        Ok((TextIndexView { documents: Seq::empty(), charged: 0 }, 0))
    } else {
        match text_built(store, ids, types, column, room, (n - 1) as nat) {
            Err(kind) => Err(kind),
            Ok((index, start)) => match groups::node_at(store, ids[n - 1], types) {
                None => Err(ErrorKind::Corrupt),
                Some(rows) => if start + rows.len() > u64::MAX {
                    Err(ErrorKind::Corrupt)
                } else if index.charged + column_bytes(rows, column) > room {
                    Err(ErrorKind::BudgetExceeded)
                } else {
                    match with_texts(
                        index,
                        rows,
                        column,
                        start as int,
                        column_bytes(rows, column),
                        room,
                        rows.len(),
                    ) {
                        Err(kind) => Err(kind),
                        Ok(after) => Ok((after, start + rows.len())),
                    }
                },
            },
        }
    }
}

/// Once building failed, more groups do not change that.
proof fn lemma_build_fails(
    store: Map<u64, GroupView>,
    ids: Seq<u64>,
    types: Seq<LogicalType>,
    column: int,
    room: int,
    at: nat,
    n: nat,
)
    requires
        at <= n,
        text_built(store, ids, types, column, room, at) is Err,
    ensures
        text_built(store, ids, types, column, room, n) == text_built(
            store,
            ids,
            types,
            column,
            room,
            at,
        ),
    decreases n,
{
    if at < n {
        lemma_build_fails(store, ids, types, column, room, at, (n - 1) as nat);
    }
}

/// Once a row failed, more rows do not change that.
proof fn lemma_texts_fail(
    index: TextIndexView,
    rows: Seq<Seq<ValueView>>,
    column: int,
    start: int,
    scratch: nat,
    room: int,
    at: nat,
    n: nat,
)
    requires
        at <= n,
        with_texts(index, rows, column, start, scratch, room, at) is Err,
    ensures
        with_texts(index, rows, column, start, scratch, room, n) == with_texts(
            index,
            rows,
            column,
            start,
            scratch,
            room,
            at,
        ),
    decreases n,
{
    if at < n {
        lemma_texts_fail(index, rows, column, start, scratch, room, at, (n - 1) as nat);
    }
}

/// The texts that rows have in a column, with their places, of the first `n`.
pub open spec fn texts_in(rows: Seq<Seq<ValueView>>, column: int, n: nat) -> Seq<(u64, Seq<char>)>
    decreases n,
{
    if n == 0 {
        Seq::empty()
    } else {
        match rows[n - 1][column] {
            ValueView::String(text) => texts_in(rows, column, (n - 1) as nat).push(
                ((n - 1) as u64, text),
            ),
            _ => texts_in(rows, column, (n - 1) as nat),
        }
    }
}

/// The texts of rows are those of all rows that hold one in the column, in order, each with the
/// number of its row.
pub proof fn law_texts_are_those_of_all_rows(rows: Seq<Seq<ValueView>>, column: int, n: nat)
    requires
        n <= rows.len(),
    ensures
        picked::gives(
            texts_in(rows, column, n),
            Seq::new(n, |i: int| i),
            |i: int|
                match rows[i][column] {
                    ValueView::String(text) => Some((i as u64, text)),
                    _ => None,
                },
        ),
    decreases n,
{
    let of = |i: int|
        match rows[i][column] {
            ValueView::String(text) => Some((i as u64, text)),
            _ => None,
        };
    let all = Seq::new(n, |i: int| i);
    if n == 0 {
        picked::lemma_gives_none(all, of);
    } else {
        let rest = Seq::new((n - 1) as nat, |i: int| i);
        law_texts_are_those_of_all_rows(rows, column, (n - 1) as nat);
        assert(all =~= rest.push(n - 1));
        picked::lemma_gives_more(texts_in(rows, column, (n - 1) as nat), rest, of, n - 1);
    }
}

/// Rows that come first are seen alike.
proof fn lemma_texts_prefix(
    a: Seq<Seq<ValueView>>,
    b: Seq<Seq<ValueView>>,
    column: int,
    n: nat,
)
    requires
        n <= a.len(),
        n <= b.len(),
        forall|i: int| 0 <= i < n ==> a[i] == b[i],
    ensures
        texts_in(a, column, n) == texts_in(b, column, n),
    decreases n,
{
    if n > 0 {
        lemma_texts_prefix(a, b, column, (n - 1) as nat);
    }
}

proof fn lemma_texts_indexed(
    index: TextIndexView,
    before: Seq<Seq<ValueView>>,
    rows: Seq<Seq<ValueView>>,
    column: int,
    scratch: nat,
    room: int,
    n: nat,
)
    requires
        index.documents == texts_in(before, column, before.len()),
        n <= rows.len(),
        with_texts(index, rows, column, before.len() as int, scratch, room, n) is Ok,
    ensures
        with_texts(
            index,
            rows,
            column,
            before.len() as int,
            scratch,
            room,
            n,
        )->Ok_0.documents == texts_in(before + rows, column, before.len() + n),
    decreases n,
{
    let all = before + rows;
    if n == 0 {
        lemma_texts_prefix(before, all, column, before.len());
    } else {
        lemma_texts_indexed(index, before, rows, column, scratch, room, (n - 1) as nat);
        assert(all[before.len() + n - 1] == rows[n - 1]);
    }
}

/// The index holds the text of every stored row that has one, under the
/// row's number, and nothing else.
pub proof fn law_index_holds_every_text(
    store: Map<u64, GroupView>,
    ids: Seq<u64>,
    types: Seq<LogicalType>,
    column: int,
    room: int,
    n: nat,
)
    requires
        n <= ids.len(),
        text_built(store, ids, types, column, room, n) is Ok,
    ensures
        ({
            let (index, seen) = text_built(store, ids, types, column, room, n)->Ok_0;
            let rows = crate::overlay::pk_index::joined(store, ids, types, n);
            &&& seen == rows.len()
            &&& index.documents == texts_in(rows, column, rows.len())
        }),
    decreases n,
{
    if n > 0 {
        law_index_holds_every_text(store, ids, types, column, room, (n - 1) as nat);
        let (index, seen) = text_built(store, ids, types, column, room, (n - 1) as nat)->Ok_0;
        let before = crate::overlay::pk_index::joined(store, ids, types, (n - 1) as nat);
        let rows = groups::node_at(store, ids[n - 1], types)->Some_0;
        lemma_texts_indexed(
            index,
            before,
            rows,
            column,
            column_bytes(rows, column),
            room,
            rows.len(),
        );
    }
}

fn column_tally(rows: &Vec<Vec<Value>>, column: usize) -> (total: Tally)
    requires
        forall|i: int| 0 <= i < rows@.len() ==> column < (#[trigger] rows@[i])@.len(),
    ensures
        total.wf(),
        total@ == column_bytes(groups::rows_of(rows@), column as int),
{
    let ghost shown = groups::rows_of(rows@);
    let mut total: Tally = Tally::of(0);
    let mut i: usize = 0;
    assert(shown.subrange(0, 0) =~= Seq::empty());
    while i < rows.len()
        invariant
            i <= rows@.len(),
            shown == groups::rows_of(rows@),
            forall|i: int| 0 <= i < rows@.len() ==> column < (#[trigger] rows@[i])@.len(),
            total.wf(),
            total@ == column_bytes(shown.subrange(0, i as int), column as int),
        decreases rows@.len() - i,
    {
        proof {
            let next = shown.subrange(0, i + 1);
            assert(next.drop_last() =~= shown.subrange(0, i as int));
            assert(next.last() == types::views(rows@[i as int]@));
            assert(next.last()[column as int] == rows@[i as int]@[column as int]@);
        }
        total = total.plus(&Tally::of(rows[i][column].approx_bytes() as u64));
        i += 1;
    }
    assert(shown.subrange(0, shown.len() as int) =~= shown);
    total
}

fn index_texts(
    index: &mut ChargedFullTextIndex,
    rows: &Vec<Vec<Value>>,
    column: usize,
    start: u64,
    scratch: usize,
    budget: &mut MemoryBudget,
) -> (result: DevonResult<()>)
    requires
        start + rows@.len() <= u64::MAX,
        forall|i: int| 0 <= i < rows@.len() ==> column < (#[trigger] rows@[i])@.len(),
        old(index)@.charged + scratch <= old(budget).charged_of(),
    ensures
        final(index)@.charged + scratch <= final(budget).charged_of(),
        final(budget).limit_of() == old(budget).limit_of(),
        final(budget).charged_of() - final(index)@.charged == old(budget).charged_of() - old(
            index,
        )@.charged,
        match (
            result,
            with_texts(
                old(index)@,
                groups::rows_of(rows@),
                column as int,
                start as int,
                scratch as nat,
                old(budget).room() + old(index)@.charged + scratch,
                rows@.len(),
            ),
        ) {
            (Ok(()), Ok(after)) => final(index)@ == after,
            (Err(error), Err(kind)) => error.kind_of() == kind,
            _ => false,
        },
{
    let ghost shown = groups::rows_of(rows@);
    let ghost first = index@;
    let ghost room = budget.room() + index@.charged + scratch;
    let ghost base = budget.charged_of() - index@.charged;
    let mut i: usize = 0;
    while i < rows.len()
        invariant
            i <= rows@.len(),
            shown == groups::rows_of(rows@),
            first == old(index)@,
            room == old(budget).room() + old(index)@.charged + scratch,
            base == old(budget).charged_of() - old(index)@.charged,
            start + rows@.len() <= u64::MAX,
            forall|i: int| 0 <= i < rows@.len() ==> column < (#[trigger] rows@[i])@.len(),
            index@.charged + scratch <= budget.charged_of(),
            budget.limit_of() == old(budget).limit_of(),
            budget.charged_of() - index@.charged == base,
            with_texts(
                first,
                shown,
                column as int,
                start as int,
                scratch as nat,
                room,
                i as nat,
            ) == Ok::<TextIndexView, ErrorKind>(index@),
        decreases rows@.len() - i,
    {
        let ghost before = index@;
        proof {
            assert(shown[i as int] == types::views(rows@[i as int]@));
            assert(shown[i as int][column as int] == rows@[i as int]@[column as int]@);
            budget.lemma_limit();
            if with_texts(
                first,
                shown,
                column as int,
                start as int,
                scratch as nat,
                room,
                (i + 1) as nat,
            ) is Err {
                lemma_texts_fail(
                    first,
                    shown,
                    column as int,
                    start as int,
                    scratch as nat,
                    room,
                    (i + 1) as nat,
                    rows@.len(),
                );
            }
        }
        match &rows[i][column] {
            Value::Null => {},
            Value::String(text) => {
                let bytes: usize = match DOCUMENT_BYTES.checked_add(text_len(text.as_str())) {
                    Some(bytes) => bytes,
                    None => {
                        return Err(budget_exceeded("full-text builder working memory refused"));
                    },
                };
                if !budget.try_charge(bytes) {
                    return Err(refused("full-text index requested ", bytes, budget));
                }
                index.charged_bytes = index.charged_bytes + bytes;
                let ghost listed = documents_of(index.documents@);
                let ordinal: u64 = start + i as u64;
                index.documents.push(Document { ordinal, text: text.clone() });
                assert(documents_of(index.documents@) =~= listed.push((ordinal, text@)));
            },
            _ => {
                return Err(corrupt("full-text String column contained a non-string value"));
            },
        }
        i += 1;
    }
    Ok(())
}

/// Builds the index of a table's stored text column. The budget is charged
/// for it, and for a group's column while it is read; where it fails nothing
/// stays charged. The room is what the caller leaves: one that keeps caches
/// calls [`crate::overlay::reclaim::build_fulltext_index_or_reclaim`].
pub fn build_fulltext_index(
    store: &GroupStore,
    ids: &Vec<u64>,
    types: &Vec<LogicalType>,
    column: usize,
    budget: &mut MemoryBudget,
) -> (result: DevonResult<ChargedFullTextIndex>)
    requires
        store.wf(),
        column < types@.len(),
    ensures
        final(budget).limit_of() == old(budget).limit_of(),
        match (
            result,
            text_built(store@, ids@, types@, column as int, old(budget).room(), ids@.len()),
        ) {
            (Ok(index), Ok((after, _))) => index@ == after && final(budget).charged_of() == old(
                budget,
            ).charged_of() + after.charged,
            (Err(error), Err(kind)) => error.kind_of() == kind && final(budget).charged_of()
                == old(budget).charged_of(),
            _ => false,
        },
{
    let ghost room = budget.room();
    let ghost base = budget.charged_of();
    let mut index = ChargedFullTextIndex { documents: Vec::new(), charged_bytes: 0 };
    let mut start: u64 = 0;
    let mut i: usize = 0;
    assert(index@ =~= TextIndexView { documents: Seq::empty(), charged: 0 });
    while i < ids.len()
        invariant
            i <= ids@.len(),
            store.wf(),
            column < types@.len(),
            room == old(budget).room(),
            base == old(budget).charged_of(),
            budget.limit_of() == old(budget).limit_of(),
            budget.charged_of() - index@.charged == base,
            text_built(store@, ids@, types@, column as int, room, i as nat) == Ok::<
                (TextIndexView, nat),
                ErrorKind,
            >((index@, start as nat)),
        decreases ids@.len() - i,
    {
        proof {
            budget.lemma_limit();
            if text_built(store@, ids@, types@, column as int, room, (i + 1) as nat) is Err {
                lemma_build_fails(
                    store@,
                    ids@,
                    types@,
                    column as int,
                    room,
                    (i + 1) as nat,
                    ids@.len(),
                );
            }
        }
        let rows: Vec<Vec<Value>> = match store.read_rows(ids[i], types) {
            Ok(rows) => rows,
            Err(error) => {
                budget.release(index.charged_bytes);
                return Err(error);
            },
        };
        let ghost shown = groups::rows_of(rows@);
        proof {
            assert forall|k: int| 0 <= k < rows@.len() implies column < (#[trigger] rows@[k])@.len() by {
                assert(groups::values_fit(types@, shown[k]));
                assert(shown[k] == types::views(rows@[k]@));
            }
        }
        let end: u64 = match start.checked_add(rows.len() as u64) {
            Some(end) => end,
            None => {
                budget.release(index.charged_bytes);
                return Err(corrupt("full-text row ordinal exceeds u64::MAX"));
            },
        };
        let scratch: usize = match column_tally(&rows, column).size() {
            Some(scratch) => scratch,
            None => {
                budget.release(index.charged_bytes);
                return Err(budget_exceeded("full-text builder working memory refused"));
            },
        };
        if !budget.try_charge(scratch) {
            let error = refused("full-text index requested ", scratch, budget);
            budget.release(index.charged_bytes);
            return Err(error);
        }
        let ghost held = index@;
        assert(budget.room() + index@.charged + scratch == room);
        match index_texts(&mut index, &rows, column, start, scratch, budget) {
            Ok(()) => {
                budget.release(scratch);
            },
            Err(error) => {
                budget.release(scratch);
                budget.release(index.charged_bytes);
                return Err(error);
            },
        }
        start = end;
        i += 1;
    }
    Ok(index)
}

/// Lets go of an index. Its charge is given back where nobody else holds it;
/// whether that is so.
pub fn release_index(index: Arc<ChargedFullTextIndex>, budget: &mut MemoryBudget) -> (freed: bool)
    ensures
        final(budget).limit_of() == old(budget).limit_of(),
        final(budget).charged_of() == if freed {
            chain::released(old(budget).charged_of(), index@.charged)
        } else {
            old(budget).charged_of()
        },
{
    settle_index(take_unshared(index), budget)
}

/// What becomes of an index that was let go of, given whether it was the last hold on it: where it
/// was, its charge is given back; whether that is so.
pub fn settle_index(
    answer: Result<ChargedFullTextIndex, Arc<ChargedFullTextIndex>>,
    budget: &mut MemoryBudget,
) -> (freed: bool)
    ensures
        final(budget).limit_of() == old(budget).limit_of(),
        match answer {
            Ok(owned) => {
                &&& freed
                &&& final(budget).charged_of() == chain::released(
                    old(budget).charged_of(),
                    owned@.charged,
                )
            },
            Err(_) => !freed && final(budget).charged_of() == old(budget).charged_of(),
        },
{
    match answer {
        Ok(owned) => {
            budget.release(owned.charged_bytes);
            true
        },
        Err(_) => false,
    }
}

#[derive(Debug)]
struct FullTextEntry {
    publications: Vec<u64>,
    table: String,
    column: String,
    state: FullTextState,
}

/// The index kept for a column: the states that share it, and whether there
/// is one.
#[verifier::ext_equal]
pub struct EntryView {
    pub publications: Seq<u64>,
    pub table: Seq<char>,
    pub column: Seq<char>,
    pub state: TextStateView,
}

impl FullTextEntry {
    spec fn shown(self) -> EntryView {
        EntryView {
            publications: self.publications@,
            table: self.table@,
            column: self.column@,
            state: self.state@,
        }
    }
}

/// All full-text indexes that are kept.
#[derive(Debug)]
pub struct FullTextRegistry {
    entries: Vec<FullTextEntry>,
}

impl View for FullTextRegistry {
    type V = Seq<EntryView>;

    closed spec fn view(&self) -> Seq<EntryView> {
        self.entries@.map_values(|entry: FullTextEntry| entry.shown())
    }
}

/// Whether an entry is a state's for a column.
pub open spec fn is_entry(
    entry: EntryView,
    publication: u64,
    table: Seq<char>,
    column: Seq<char>,
) -> bool {
    entry.publications.contains(publication) && entry.table == table && entry.column == column
}

/// Where a state's entry for a column stands at or behind `from`.
pub open spec fn entry_place(
    entries: Seq<EntryView>,
    publication: u64,
    table: Seq<char>,
    column: Seq<char>,
    from: nat,
) -> Option<nat>
    decreases entries.len() - from,
{
    if from >= entries.len() {
        None
    } else if is_entry(entries[from as int], publication, table, column) {
        Some(from)
    } else {
        entry_place(entries, publication, table, column, from + 1)
    }
}

/// The entry of a state's column is the first that lists the state and has both names.
pub proof fn law_entry_is_the_first_of_its_column(
    entries: Seq<EntryView>,
    publication: u64,
    table: Seq<char>,
    column: Seq<char>,
    from: nat,
)
    ensures
        match entry_place(entries, publication, table, column, from) {
            Some(at) => {
                &&& from <= at < entries.len()
                &&& entries[at as int].publications.contains(publication)
                &&& entries[at as int].table == table
                &&& entries[at as int].column == column
                &&& forall|i: int|
                    from <= i < at ==> !((#[trigger] entries[i]).publications.contains(publication)
                        && entries[i].table == table && entries[i].column == column)
            },
            None => forall|i: int|
                from <= i < entries.len() ==> !((#[trigger] entries[i]).publications.contains(
                    publication,
                ) && entries[i].table == table && entries[i].column == column),
        },
    decreases entries.len() - from,
{
    if from < entries.len() && !is_entry(entries[from as int], publication, table, column) {
        law_entry_is_the_first_of_its_column(entries, publication, table, column, from + 1);
    }
}

/// The entries with one for a state's column, and where it stands.
pub open spec fn with_entry(
    entries: Seq<EntryView>,
    publication: u64,
    table: Seq<char>,
    column: Seq<char>,
) -> (Seq<EntryView>, int) {
    match entry_place(entries, publication, table, column, 0) {
        Some(at) => (entries, at as int),
        None => (
            entries.push(
                EntryView {
                    publications: seq![publication],
                    table,
                    column,
                    state: TextStateView::Unbuilt,
                },
            ),
            entries.len() as int,
        ),
    }
}

/// What is kept once an index was asked for.
pub open spec fn text_ensured(
    state: TextStateView,
    build: Result<(TextIndexView, nat), ErrorKind>,
) -> Result<TextStateView, ErrorKind> {
    match state {
        TextStateView::Unbuilt => match build {
            Ok((index, _)) => Ok(TextStateView::Ready(index)),
            Err(ErrorKind::BudgetExceeded) => Ok(TextStateView::Refused),
            Err(kind) => Err(kind),
        },
        other => Ok(other),
    }
}

/// The bytes that an index state is charged.
pub open spec fn text_charge(state: TextStateView) -> nat {
    match state {
        TextStateView::Ready(index) => index.charged,
        _ => 0,
    }
}

/// The bytes that all kept indexes are charged.
pub open spec fn entries_charge(entries: Seq<EntryView>) -> nat
    decreases entries.len(),
{
    if entries.len() == 0 {
        0
    } else {
        entries_charge(entries.drop_last()) + text_charge(entries.last().state)
    }
}

/// No more is freed than is charged.
pub proof fn lemma_freed_bound(entries: Seq<EntryView>, freed: Seq<bool>)
    ensures
        freed_charge(entries, freed) <= entries_charge(entries),
    decreases entries.len(),
{
    if entries.len() > 0 {
        lemma_freed_bound(entries.drop_last(), freed.drop_last());
    }
}

proof fn lemma_entry_charge(entries: Seq<EntryView>, at: int, entry: EntryView)
    requires
        0 <= at < entries.len(),
    ensures
        entries_charge(entries.update(at, entry)) == entries_charge(entries) + text_charge(
            entry.state,
        ) - text_charge(entries[at].state),
    decreases entries.len(),
{
    let other = entries.update(at, entry);
    if at == entries.len() - 1 {
        assert(other.drop_last() =~= entries.drop_last());
    } else {
        lemma_entry_charge(entries.drop_last(), at, entry);
        assert(other.drop_last() =~= entries.drop_last().update(at, entry));
    }
}

/// Another state of a column's entry changes what is charged by the difference of the two.
pub proof fn lemma_lookup_charge(
    entries: Seq<EntryView>,
    publication: u64,
    table: Seq<char>,
    column: Seq<char>,
    state: TextStateView,
)
    ensures
        ({
            let (opened, at) = with_entry(entries, publication, table, column);
            &&& entries_charge(opened) == entries_charge(entries)
            &&& entries_charge(opened.update(at, (EntryView { state, ..opened[at] })))
                == entries_charge(entries) + text_charge(state) - text_charge(opened[at].state)
        }),
{
    let (opened, at) = with_entry(entries, publication, table, column);
    lemma_entry_within(entries, publication, table, column, 0);
    if entry_place(entries, publication, table, column, 0) is None {
        assert(opened.drop_last() =~= entries);
    }
    lemma_entry_charge(opened, at, EntryView { state, ..opened[at] });
}

proof fn lemma_entry_within(
    entries: Seq<EntryView>,
    publication: u64,
    table: Seq<char>,
    column: Seq<char>,
    from: nat,
)
    ensures
        entry_place(entries, publication, table, column, from) matches Some(at) ==> at
            < entries.len(),
    decreases entries.len() - from,
{
    if from < entries.len() {
        lemma_entry_within(entries, publication, table, column, from + 1);
    }
}

/// Nothing is charged for entries that are given up.
pub proof fn lemma_shed_charges(entries: Seq<EntryView>)
    ensures
        entries_charge(entries.map_values(|entry: EntryView| shed_entry(entry))) == 0,
    decreases entries.len(),
{
    if entries.len() > 0 {
        let shed = entries.map_values(|entry: EntryView| shed_entry(entry));
        lemma_shed_charges(entries.drop_last());
        assert(shed.drop_last() =~= entries.drop_last().map_values(
            |entry: EntryView| shed_entry(entry),
        ));
    }
}

/// The bytes of those kept indexes that are freed.
pub open spec fn freed_charge(entries: Seq<EntryView>, freed: Seq<bool>) -> nat
    decreases entries.len(),
{
    if entries.len() == 0 {
        0
    } else {
        freed_charge(entries.drop_last(), freed.drop_last()) + if freed.last() {
            text_charge(entries.last().state)
        } else {
            0
        }
    }
}

/// One more entry adds its charge where it is freed.
proof fn lemma_freed(entries: Seq<EntryView>, freed: Seq<bool>, i: int, next: bool)
    requires
        0 <= i < entries.len(),
        freed.len() == i,
    ensures
        freed_charge(entries.subrange(0, i + 1), freed.push(next)) == freed_charge(
            entries.subrange(0, i),
            freed,
        ) + if next {
            text_charge(entries[i].state)
        } else {
            0
        },
{
    let more = entries.subrange(0, i + 1);
    assert(more.drop_last() =~= entries.subrange(0, i));
    assert(freed.push(next).drop_last() =~= freed);
}

/// Where a column stands at or behind `from`, by its folded name.
pub open spec fn column_place(columns: Seq<ColumnView>, name: Seq<char>, from: nat) -> Option<nat>
    decreases columns.len() - from,
{
    if from >= columns.len() {
        None
    } else if text::folded(columns[from as int].name) == text::folded(name) {
        Some(from)
    } else {
        column_place(columns, name, from + 1)
    }
}

/// A column is found by its folded name wherever it is there, the first of that name.
pub proof fn law_column_is_the_first_of_its_name(
    columns: Seq<ColumnView>,
    name: Seq<char>,
    from: nat,
)
    ensures
        match column_place(columns, name, from) {
            Some(at) => {
                &&& from <= at < columns.len()
                &&& text::folded(columns[at as int].name) == text::folded(name)
                &&& forall|i: int|
                    from <= i < at ==> text::folded((#[trigger] columns[i]).name) != text::folded(
                        name,
                    )
            },
            None => forall|i: int|
                from <= i < columns.len() ==> text::folded((#[trigger] columns[i]).name)
                    != text::folded(name),
        },
    decreases columns.len() - from,
{
    if from < columns.len() && text::folded(columns[from as int].name) != text::folded(name) {
        law_column_is_the_first_of_its_name(columns, name, from + 1);
    }
}

fn find_column(columns: &Vec<ColumnDef>, name: &str) -> (found: Option<usize>)
    ensures
        match found {
            Some(at) => column_place(schema::columns_of(columns@), name@, 0) == Some(at as nat)
                && at < columns@.len(),
            None => column_place(schema::columns_of(columns@), name@, 0) is None,
        },
{
    let ghost shown = schema::columns_of(columns@);
    let mut i: usize = 0;
    while i < columns.len()
        invariant
            i <= columns@.len(),
            shown == schema::columns_of(columns@),
            column_place(shown, name@, 0) == column_place(shown, name@, i as nat),
        decreases columns@.len() - i,
    {
        assert(shown[i as int] == columns@[i as int]@);
        if same_name(columns[i].name.as_str(), name) {
            return Some(i);
        }
        i += 1;
    }
    None
}

/// The type of a table's column.
pub open spec fn column_type(
    catalog: catalog::CatalogView,
    table: Seq<char>,
    column: Seq<char>,
) -> Option<LogicalType> {
    match catalog::node_of(catalog, table) {
        None => None,
        Some(entry) => match column_place(entry.schema.columns, column, 0) {
            None => None,
            Some(at) => Some(entry.schema.columns[at as int].ty),
        },
    }
}

fn type_of(catalog: &Catalog, table: &str, column: &str) -> (ty: Option<LogicalType>)
    ensures
        ty == column_type(catalog@, table@, column@),
{
    match catalog.node_table(table) {
        None => None,
        Some(schema) => match find_column(&schema.columns, column) {
            None => None,
            Some(at) => {
                assert(schema::columns_of(schema.columns@)[at as int] == schema.columns@[at as int]@);
                Some(schema.columns[at].ty)
            },
        },
    }
}

/// Whether a column has the same type in two catalogs.
pub fn fulltext_identity_matches(prev: &Catalog, next: &Catalog, table: &str, column: &str) -> (same:
    bool)
    ensures
        same == (column_type(prev@, table@, column@) is Some && column_type(
            prev@,
            table@,
            column@,
        ) == column_type(next@, table@, column@)),
{
    match (type_of(prev, table, column), type_of(next, table, column)) {
        (Some(a), Some(b)) => a == b,
        _ => false,
    }
}

/// The column that an index is asked for, or why there can be none.
pub open spec fn text_column(
    catalog: catalog::CatalogView,
    table: Seq<char>,
    column: Seq<char>,
) -> Result<(schema::NodeSchemaView, nat), ErrorKind> {
    match catalog::node_of(catalog, table) {
        None => Err(ErrorKind::NotFound),
        Some(entry) => match column_place(entry.schema.columns, column, 0) {
            None => Err(ErrorKind::InvalidArgument),
            Some(at) => if entry.schema.columns[at as int].ty == LogicalType::String {
                Ok((entry.schema, at))
            } else {
                Err(ErrorKind::InvalidArgument)
            },
        },
    }
}

impl FullTextRegistry {
    /// Nothing is kept.
    pub fn new() -> (registry: FullTextRegistry)
        ensures
            registry@ == Seq::<EntryView>::empty(),
    {
        let registry = FullTextRegistry { entries: Vec::new() };
        assert(registry@ =~= Seq::<EntryView>::empty());
        registry
    }

    fn open(&mut self, publication: u64, table: &String, column: &String) -> (at: usize)
        ensures
            at < final(self)@.len(),
            (final(self)@, at as int) == with_entry(old(self)@, publication, table@, column@),
    {
        let ghost before = self@;
        let mut i: usize = 0;
        while i < self.entries.len()
            invariant
                i <= self.entries@.len(),
                self@ == before,
                before == old(self)@,
                entry_place(before, publication, table@, column@, 0) == entry_place(
                    before,
                    publication,
                    table@,
                    column@,
                    i as nat,
                ),
            decreases self.entries@.len() - i,
        {
            assert(self@[i as int] == self.entries@[i as int].shown());
            if holds(&self.entries[i].publications, publication) && same_text(
                &self.entries[i].table,
                table,
            ) && same_text(&self.entries[i].column, column) {
                return i;
            }
            i += 1;
        }
        let mut publications: Vec<u64> = Vec::new();
        publications.push(publication);
        self.entries.push(
            FullTextEntry {
                publications,
                table: table.clone(),
                column: column.clone(),
                state: FullTextState::Unbuilt,
            },
        );
        proof {
            let added = EntryView {
                publications: seq![publication],
                table: table@,
                column: column@,
                state: TextStateView::Unbuilt,
            };
            assert(self.entries@.last().shown() =~= added);
            assert(self@ =~= before.push(added));
        }
        i
    }
}

fn holds(publications: &Vec<u64>, publication: u64) -> (there: bool)
    ensures
        there == publications@.contains(publication),
{
    let mut i: usize = 0;
    while i < publications.len()
        invariant
            i <= publications@.len(),
            forall|k: int| 0 <= k < i ==> publications@[k] != publication,
        decreases publications@.len() - i,
    {
        if publications[i] == publication {
            return true;
        }
        i += 1;
    }
    false
}

impl PublishedState {
    /// The full-text index of a stored text column, built when it is first
    /// asked for. It holds the stored rows only: what commits changed since
    /// is for the caller to merge.
    pub fn fulltext_index(
        state: &PublishedState,
        publication: u64,
        registry: &mut FullTextRegistry,
        store: &GroupStore,
        table: &str,
        column: &str,
        budget: &mut MemoryBudget,
    ) -> (result: DevonResult<FullTextResult>)
        requires
            store.wf(),
        ensures
            final(budget).limit_of() == old(budget).limit_of(),
            match text_column(state.catalog@, table@, column@) {
                Err(kind) => result is Err && result->Err_0.kind_of() == kind && final(registry)@
                    == old(registry)@ && final(budget).charged_of() == old(budget).charged_of(),
                Ok((schema, position)) => {
                    let (opened, at) = with_entry(
                        old(registry)@,
                        publication,
                        schema.name,
                        schema.columns[position as int].name,
                    );
                    let build = text_built(
                        store@,
                        pk_cache::stored_ids(state.catalog@, schema.name),
                        schema::types_of(schema.columns),
                        position as int,
                        old(budget).room(),
                        pk_cache::stored_ids(state.catalog@, schema.name).len(),
                    );
                    match text_ensured(opened[at].state, build) {
                        Err(kind) => {
                            &&& result is Err
                            &&& result->Err_0.kind_of() == kind
                            &&& final(registry)@ == opened
                            &&& final(budget).charged_of() == old(budget).charged_of()
                        },
                        Ok(after) => {
                            &&& final(registry)@ == opened.update(
                                at,
                                (EntryView { state: after, ..opened[at] }),
                            )
                            &&& final(budget).charged_of() == old(budget).charged_of()
                                + text_charge(after) - text_charge(opened[at].state)
                            &&& match (result, after) {
                                (
                                    Ok(FullTextResult::Indexed(index)),
                                    TextStateView::Ready(want),
                                ) => index@ == want,
                                (
                                    Ok(FullTextResult::Unavailable),
                                    TextStateView::Refused,
                                ) => true,
                                _ => false,
                            }
                        },
                    }
                },
            },
    {
        let schema: &NodeTableSchema = match state.catalog.node_table(table) {
            Some(schema) => schema,
            None => {
                return Err(not_found(with_name("node table `", table, "`").as_str()));
            },
        };
        let position: usize = match find_column(&schema.columns, column) {
            Some(position) => position,
            None => {
                let head: String = with_name("unknown column `", table, ".");
                return Err(
                    invalid_argument(with_name(head.as_str(), column, "`").as_str()),
                );
            },
        };
        assert(schema@.columns[position as int] == schema.columns@[position as int]@);
        match schema.columns[position].ty {
            LogicalType::String => {},
            other => {
                let head: String = with_name("full-text column `", table, ".");
                let middle: String = with_name(head.as_str(), column, "` must be String, got ");
                return Err(
                    invalid_argument(with_name(middle.as_str(), other.name(), "").as_str()),
                );
            },
        }
        let none: Vec<u64> = Vec::new();
        let ids: &Vec<u64> = match state.catalog.table_storage(schema.name.as_str()) {
            Some(ids) => ids,
            None => &none,
        };
        assert(ids@ =~= pk_cache::stored_ids(state.catalog@, schema@.name));
        let at: usize = registry.open(publication, &schema.name, &schema.columns[position].name);
        let ghost opened = registry@;
        assert(opened[at as int] == registry.entries@[at as int].shown());
        let mut entry: FullTextEntry = registry.entries.remove(at);
        let unbuilt: bool = match entry.state {
            FullTextState::Unbuilt => true,
            _ => false,
        };
        let mut fault: DevonResult<()> = Ok(());
        if unbuilt {
            let types: Vec<LogicalType> = column_types(&schema.columns);
            match build_fulltext_index(store, ids, &types, position, budget) {
                Ok(index) => {
                    entry.state = FullTextState::Ready(Arc::new(index));
                },
                Err(error) => {
                    if error.kind() == ErrorKind::BudgetExceeded {
                        entry.state = FullTextState::Refused;
                    } else {
                        fault = Err(error);
                    }
                },
            }
        }
        let found: FullTextResult = match &entry.state {
            FullTextState::Ready(index) => FullTextResult::Indexed(share(index)),
            _ => FullTextResult::Unavailable,
        };
        let ghost shown = entry.shown();
        registry.entries.insert(at, entry);
        proof {
            assert(shown =~= EntryView { state: shown.state, ..opened[at as int] });
            assert(registry@ =~= opened.update(at as int, shown));
            assert(opened.update(at as int, opened[at as int]) =~= opened);
        }
        match fault {
            Ok(()) => Ok(found),
            Err(error) => Err(error),
        }
    }

    /// Whether an index of a column is kept for this state.
    pub fn fulltext_index_present(
        registry: &FullTextRegistry,
        publication: u64,
        table: &str,
        column: &str,
    ) -> (present: bool)
        ensures
            present == (exists|i: int|
                0 <= i < registry@.len() && is_ready_for(
                    #[trigger] registry@[i],
                    publication,
                    table@,
                    column@,
                )),
    {
        let mut i: usize = 0;
        while i < registry.entries.len()
            invariant
                i <= registry.entries@.len(),
                forall|k: int|
                    0 <= k < i ==> !is_ready_for(
                        #[trigger] registry@[k],
                        publication,
                        table@,
                        column@,
                    ),
            decreases registry.entries@.len() - i,
        {
            assert(registry@[i as int] == registry.entries@[i as int].shown());
            let entry: &FullTextEntry = &registry.entries[i];
            let ready: bool = match entry.state {
                FullTextState::Ready(_) => true,
                _ => false,
            };
            if ready && holds(&entry.publications, publication) && same_name(
                entry.table.as_str(),
                table,
            ) && same_name(entry.column.as_str(), column) {
                assert(is_ready_for(registry@[i as int], publication, table@, column@));
                return true;
            }
            i += 1;
        }
        false
    }

    /// Shares the indexes kept for one state with the next, which has the
    /// same stored rows, where the column still has its type. What was kept
    /// for the next is let go of.
    pub fn adopt_fulltext_caches(
        prev_state: &PublishedState,
        next_state: &PublishedState,
        registry: &mut FullTextRegistry,
        prev: u64,
        next: u64,
        budget: &mut MemoryBudget,
    )
        ensures
            final(budget).limit_of() == old(budget).limit_of(),
            if prev == next || !any_for(old(registry)@, prev) {
                final(registry)@ == old(registry)@ && final(budget).charged_of() == old(
                    budget,
                ).charged_of()
            } else {
                &&& final(registry)@ == forgotten(old(registry)@, next).map_values(
                    |entry: EntryView|
                        adopted(entry, prev, next, prev_state.catalog@, next_state.catalog@),
                )
                &&& exists|freed: Seq<bool>|
                    freed_by_forgetting(old(registry)@, next, freed) && final(budget).charged_of()
                        == chain::released(
                        old(budget).charged_of(),
                        #[trigger] freed_charge(old(registry)@, freed),
                    )
            },
    {
        let ghost given = registry@;
        let mut any: bool = false;
        let mut i: usize = 0;
        while i < registry.entries.len()
            invariant
                i <= registry.entries@.len(),
                registry@ == given,
                any == (exists|k: int|
                    0 <= k < i && (#[trigger] given[k]).publications.contains(prev)),
            decreases registry.entries@.len() - i,
        {
            assert(registry@[i as int] == registry.entries@[i as int].shown());
            if holds(&registry.entries[i].publications, prev) {
                assert(given[i as int].publications.contains(prev));
                any = true;
            }
            i += 1;
        }
        if prev == next || !any {
            return;
        }
        registry.forget(next, budget);
        let ghost all = registry@;
        let mut i: usize = 0;
        while i < registry.entries.len()
            invariant
                i <= all.len() == registry.entries@.len(),
                forall|k: int|
                    0 <= k < i ==> (#[trigger] registry.entries@[k]).shown() == adopted(
                        all[k],
                        prev,
                        next,
                        prev_state.catalog@,
                        next_state.catalog@,
                    ),
                forall|k: int|
                    i <= k < all.len() ==> (#[trigger] registry.entries@[k]).shown() == all[k],
            decreases all.len() - i,
        {
            let ghost before = registry.entries@;
            assert(before[i as int].shown() == all[i as int]);
            let mut entry: FullTextEntry = registry.entries.remove(i);
            if holds(&entry.publications, prev) && fulltext_identity_matches(
                &prev_state.catalog,
                &next_state.catalog,
                entry.table.as_str(),
                entry.column.as_str(),
            ) {
                entry.publications.push(next);
            }
            registry.entries.insert(i, entry);
            assert(registry.entries@ =~= before.update(i as int, entry));
            assert(entry.shown() =~= adopted(
                all[i as int],
                prev,
                next,
                prev_state.catalog@,
                next_state.catalog@,
            ));
            i += 1;
        }
        assert(registry@ =~= all.map_values(
            |entry: EntryView|
                adopted(entry, prev, next, prev_state.catalog@, next_state.catalog@),
        ));
    }
}

impl FullTextRegistry {
    /// Lets go of what is kept for a state. What no other state shares goes,
    /// and a charge is given back where no reader holds the index any more.
    pub fn forget(&mut self, publication: u64, budget: &mut MemoryBudget)
        ensures
            final(self)@ == forgotten(old(self)@, publication),
            final(budget).limit_of() == old(budget).limit_of(),
            exists|freed: Seq<bool>|
                freed_by_forgetting(old(self)@, publication, freed) && final(budget).charged_of()
                    == chain::released(
                    old(budget).charged_of(),
                    #[trigger] freed_charge(old(self)@, freed),
                ),
    {
        let ghost all = self@;
        let ghost first = budget.charged_of();
        let mut kept: Vec<FullTextEntry> = Vec::new();
        let mut turned: Vec<FullTextEntry> = Vec::new();
        let ghost held = self.entries@;
        while self.entries.len() > 0
            invariant
                all == held.map_values(|entry: FullTextEntry| entry.shown()),
                self.entries@.len() + turned@.len() == held.len(),
                self.entries@ == held.subrange(0, self.entries@.len() as int),
                forall|k: int|
                    0 <= k < turned@.len() ==> #[trigger] turned@[k] == held[held.len() - 1 - k],
            decreases self.entries@.len(),
        {
            match self.entries.pop() {
                Some(entry) => {
                    turned.push(entry);
                    assert(self.entries@ =~= held.subrange(0, self.entries@.len() as int));
                },
                None => {},
            }
        }
        let ghost mut done: nat = 0;
        let ghost mut freed: Seq<bool> = Seq::empty();
        assert(all.subrange(0, 0) =~= Seq::empty());
        assert(shown_entries(kept@) =~= Seq::empty());
        while turned.len() > 0
            invariant
                all == held.map_values(|entry: FullTextEntry| entry.shown()),
                all == old(self)@,
                first == old(budget).charged_of(),
                done + turned@.len() == held.len(),
                forall|k: int|
                    0 <= k < turned@.len() ==> #[trigger] turned@[k] == held[held.len() - 1 - k],
                shown_entries(kept@) == forgotten(all.subrange(0, done as int), publication),
                budget.limit_of() == old(budget).limit_of(),
                freed.len() == done,
                forall|k: int|
                    0 <= k < done && #[trigger] freed[k] ==> pk_cache::without(
                        all[k].publications,
                        publication,
                    ).len() == 0,
                budget.charged_of() == chain::released(
                    first,
                    freed_charge(all.subrange(0, done as int), freed),
                ),
            decreases turned@.len(),
        {
            let ghost listed = shown_entries(kept@);
            let ghost rest = turned@;
            let mut entry: FullTextEntry = match turned.pop() {
                Some(entry) => entry,
                None => {
                    return;
                },
            };
            proof {
                assert(rest.last() == held[done as int]);
                let next = all.subrange(0, done as int + 1);
                assert(next.drop_last() =~= all.subrange(0, done as int));
                assert(next.last() == entry.shown());
            }
            let left: Vec<u64> = drop_publication(&entry.publications, publication);
            let mut gone: bool = false;
            if left.len() == 0 {
                match entry.state {
                    FullTextState::Ready(index) => {
                        gone = release_index(index, budget);
                    },
                    _ => {},
                }
            } else {
                entry.publications = left;
                let ghost shown = entry.shown();
                kept.push(entry);
                assert(shown_entries(kept@) =~= listed.push(shown));
            }
            proof {
                lemma_freed(all, freed, done as int, gone);
                freed = freed.push(gone);
                done = done + 1;
            }
        }
        proof {
            assert(all.subrange(0, all.len() as int) =~= all);
            assert(freed_by_forgetting(all, publication, freed));
        }
        self.entries = kept;
    }
}

spec fn shown_entries(entries: Seq<FullTextEntry>) -> Seq<EntryView> {
    entries.map_values(|entry: FullTextEntry| entry.shown())
}

/// Whether only indexes that no other state shares are freed when a state is let go of.
pub open spec fn freed_by_forgetting(
    entries: Seq<EntryView>,
    publication: u64,
    freed: Seq<bool>,
) -> bool {
    &&& freed.len() == entries.len()
    &&& forall|k: int|
        0 <= k < freed.len() && #[trigger] freed[k] ==> pk_cache::without(
            entries[k].publications,
            publication,
        ).len() == 0
}

/// The entries once a state is let go of: what no other state shares goes.
pub open spec fn forgotten(entries: Seq<EntryView>, publication: u64) -> Seq<EntryView>
    decreases entries.len(),
{
    if entries.len() == 0 {
        Seq::empty()
    } else {
        let before = forgotten(entries.drop_last(), publication);
        let left = pk_cache::without(entries.last().publications, publication);
        if left.len() == 0 {
            before
        } else {
            before.push(EntryView { publications: left, ..entries.last() })
        }
    }
}

/// Letting a state go leaves every entry that another state shares, in order, for the others only.
pub proof fn law_shared_entries_stay(entries: Seq<EntryView>, publication: u64)
    ensures
        picked::gives(
            forgotten(entries, publication),
            entries,
            |entry: EntryView|
                {
                    let left = pk_cache::without(entry.publications, publication);
                    if left.len() > 0 {
                        Some(EntryView { publications: left, ..entry })
                    } else {
                        None
                    }
                },
        ),
    decreases entries.len(),
{
    let of = |entry: EntryView|
        {
            let left = pk_cache::without(entry.publications, publication);
            if left.len() > 0 {
                Some(EntryView { publications: left, ..entry })
            } else {
                None
            }
        };
    if entries.len() == 0 {
        picked::lemma_gives_none(entries, of);
    } else {
        let rest = entries.drop_last();
        law_shared_entries_stay(rest, publication);
        assert(entries =~= rest.push(entries.last()));
        picked::lemma_gives_more(forgotten(rest, publication), rest, of, entries.last());
    }
}

/// Whether any index is kept for a state.
pub open spec fn any_for(entries: Seq<EntryView>, publication: u64) -> bool {
    exists|k: int|
        0 <= k < entries.len() && (#[trigger] entries[k]).publications.contains(publication)
}

/// An entry once a state's indexes are shared with the next.
pub open spec fn adopted(
    entry: EntryView,
    prev: u64,
    next: u64,
    before: catalog::CatalogView,
    after: catalog::CatalogView,
) -> EntryView {
    let ty = column_type(before, entry.table, entry.column);
    if entry.publications.contains(prev) && ty is Some && ty == column_type(
        after,
        entry.table,
        entry.column,
    ) {
        EntryView { publications: entry.publications.push(next), ..entry }
    } else {
        entry
    }
}

/// Whether an entry is a state's index for a column, by folded names.
pub open spec fn is_ready_for(
    entry: EntryView,
    publication: u64,
    table: Seq<char>,
    column: Seq<char>,
) -> bool {
    entry.publications.contains(publication) && text::folded(entry.table) == text::folded(table)
        && text::folded(entry.column) == text::folded(column) && entry.state is Ready
}

/// An entry with its index given up; a refusal is forgotten too.
pub open spec fn shed_entry(entry: EntryView) -> EntryView {
    EntryView { state: TextStateView::Unbuilt, ..entry }
}

/// Shedding twice does no more than shedding once: a second call with nothing built in between
/// finds nothing to give up, changes nothing and gives nothing back, whoever still holds an index,
/// and no index is present behind the first.
pub proof fn law_second_shedding_finds_nothing(entries: Seq<EntryView>)
    ensures
        ({
            let shed = entries.map_values(|entry: EntryView| shed_entry(entry));
            &&& !(exists|i: int| 0 <= i < shed.len() && !((#[trigger] shed[i]).state is Unbuilt))
            &&& shed.map_values(|entry: EntryView| shed_entry(entry)) == shed
            &&& forall|freed: Seq<bool>| #[trigger] freed_charge(shed, freed) == 0
            &&& forall|i: int, publication: u64, table: Seq<char>, column: Seq<char>|
                0 <= i < shed.len() ==> !#[trigger] is_ready_for(
                    shed[i],
                    publication,
                    table,
                    column,
                )
        }),
{
    let shed = entries.map_values(|entry: EntryView| shed_entry(entry));
    assert(shed.map_values(|entry: EntryView| shed_entry(entry)) =~= shed);
    lemma_shed_charges(entries);
    assert forall|freed: Seq<bool>| #[trigger] freed_charge(shed, freed) == 0 by {
        lemma_freed_bound(shed, freed);
    }
}

/// Gives up all indexes and forgets refusals. A charge is given back where
/// no reader holds the index any more; readers' charges stay.
pub fn shed_fulltext_caches(registry: &mut FullTextRegistry, budget: &mut MemoryBudget) -> (any:
    bool)
    ensures
        final(registry)@ == old(registry)@.map_values(|entry: EntryView| shed_entry(entry)),
        any == (exists|i: int|
            0 <= i < old(registry)@.len() && !((#[trigger] old(registry)@[i]).state is Unbuilt)),
        final(budget).limit_of() == old(budget).limit_of(),
        exists|freed: Seq<bool>|
            freed.len() == old(registry)@.len() && final(budget).charged_of() == chain::released(
                old(budget).charged_of(),
                #[trigger] freed_charge(old(registry)@, freed),
            ),
{
    let ghost all = registry@;
    let ghost mut freed: Seq<bool> = Seq::empty();
    let ghost first = budget.charged_of();
    let mut any: bool = false;
    let mut i: usize = 0;
    assert(all.subrange(0, 0) =~= Seq::empty());
    while i < registry.entries.len()
        invariant
            i <= all.len() == registry.entries@.len(),
            all == old(registry)@,
            first == old(budget).charged_of(),
            forall|k: int|
                0 <= k < i ==> (#[trigger] registry.entries@[k]).shown() == shed_entry(all[k]),
            forall|k: int|
                i <= k < all.len() ==> (#[trigger] registry.entries@[k]).shown() == all[k],
            any == (exists|k: int| 0 <= k < i && !((#[trigger] all[k]).state is Unbuilt)),
            budget.limit_of() == old(budget).limit_of(),
            freed.len() == i,
            budget.charged_of() == chain::released(
                first,
                freed_charge(all.subrange(0, i as int), freed),
            ),
        decreases all.len() - i,
    {
        let ghost before = registry.entries@;
        proof {
            let next = all.subrange(0, i + 1);
            assert(next.drop_last() =~= all.subrange(0, i as int));
            assert(before[i as int].shown() == all[i as int]);
        }
        let entry: FullTextEntry = registry.entries.remove(i);
        let mut gone: bool = false;
        match entry.state {
            FullTextState::Unbuilt => {},
            FullTextState::Ready(index) => {
                assert(!(all[i as int].state is Unbuilt));
                gone = release_index(index, budget);
                any = true;
            },
            FullTextState::Refused => {
                assert(!(all[i as int].state is Unbuilt));
                any = true;
            },
        }
        let shed = FullTextEntry {
            publications: entry.publications,
            table: entry.table,
            column: entry.column,
            state: FullTextState::Unbuilt,
        };
        registry.entries.insert(i, shed);
        assert(registry.entries@ =~= before.update(i as int, shed));
        assert(shed.shown() =~= shed_entry(all[i as int]));
        proof {
            lemma_freed(all, freed, i as int, gone);
            freed = freed.push(gone);
        }
        i += 1;
    }
    assert(all.subrange(0, all.len() as int) =~= all);
    assert(registry@ =~= all.map_values(|entry: EntryView| shed_entry(entry)));
    any
}

} // verus!
