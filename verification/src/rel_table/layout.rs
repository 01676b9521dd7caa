//! How a node table's rows lie in its groups.

use vstd::prelude::*;

use crate::catalog;
use crate::catalog::{Catalog, CatalogView};
use crate::error::{corrupt, not_found, DevonResult, ErrorKind};
use crate::groups;
use crate::groups::{GroupStore, GroupView};
use crate::text::with_name;

verus! {

/// The rows of the groups before one.
pub open spec fn rows_before(counts: Seq<nat>, group: int) -> nat
    decreases group,
{
    if group <= 0 {
        0
    } else {
        rows_before(counts, group - 1) + counts[group - 1]
    }
}

/// The rows of all groups.
pub open spec fn total_rows(counts: Seq<nat>) -> nat {
    rows_before(counts, counts.len() as int)
}

/// Whether a row lies in a group.
pub open spec fn lies_in(counts: Seq<nat>, group: int, row: int) -> bool {
    &&& 0 <= group < counts.len()
    &&& rows_before(counts, group) <= row < rows_before(counts, group + 1)
}

/// The group that a row lies in.
pub open spec fn group_of(counts: Seq<nat>, row: int) -> Option<int> {
    if exists|group: int| lies_in(counts, group, row) {
        Some(choose|group: int| lies_in(counts, group, row))
    } else {
        None
    }
}

/// Later groups have more rows before them.
pub proof fn lemma_rows_grow(counts: Seq<nat>, a: int, b: int)
    requires
        0 <= a <= b,
    ensures
        rows_before(counts, a) <= rows_before(counts, b),
    decreases b - a,
{
    if a < b {
        lemma_rows_grow(counts, a, b - 1);
    }
}

/// A row lies in one group only.
pub proof fn lemma_one_group(counts: Seq<nat>, group: int, row: int)
    requires
        lies_in(counts, group, row),
    ensures
        group_of(counts, row) == Some(group),
        row < total_rows(counts),
{
    let other = group_of(counts, row)->Some_0;
    assert(lies_in(counts, other, row));
    if group < other {
        lemma_rows_grow(counts, group + 1, other);
    } else if other < group {
        lemma_rows_grow(counts, other + 1, group);
    }
    lemma_rows_grow(counts, group + 1, counts.len() as int);
}

/// A row behind all groups lies in none.
pub proof fn lemma_no_group(counts: Seq<nat>, row: int)
    requires
        row >= total_rows(counts),
    ensures
        group_of(counts, row) is None,
{
    assert forall|group: int| !lies_in(counts, group, row) by {
        if lies_in(counts, group, row) {
            lemma_one_group(counts, group, row);
        }
    }
}

/// Equal counts lie alike.
pub proof fn lemma_same_rows(a: Seq<nat>, b: Seq<nat>, group: int)
    requires
        0 <= group <= a.len(),
        group <= b.len(),
        forall|i: int| 0 <= i < group ==> a[i] == b[i],
    ensures
        rows_before(a, group) == rows_before(b, group),
    decreases group,
{
    if group > 0 {
        lemma_same_rows(a, b, group - 1);
    }
}

/// The row counts of node groups.
pub open spec fn counts_of(store: Map<u64, GroupView>, columns: nat, ids: Seq<u64>) -> Seq<nat> {
    Seq::new(ids.len(), |i: int| groups::node_rows(store, ids[i], columns)->Some_0)
}

/// Whether all node groups are readable.
pub open spec fn readable(store: Map<u64, GroupView>, columns: nat, ids: Seq<u64>) -> bool {
    forall|i: int|
        0 <= i < ids.len() ==> groups::node_rows(store, #[trigger] ids[i], columns) is Some
}

/// The row counts of a node table's groups, or the kind of error that
/// reading them gives.
pub open spec fn layout_of(
    store: Map<u64, GroupView>,
    catalog: CatalogView,
    name: Seq<char>,
) -> Result<Seq<nat>, ErrorKind> {
    match catalog::node_of(catalog, name) {
        None => Err(ErrorKind::NotFound),
        Some(entry) => {
            let counts = counts_of(store, entry.schema.columns.len(), entry.groups);
            if readable(store, entry.schema.columns.len(), entry.groups) && total_rows(counts)
                <= u64::MAX {
                Ok(counts)
            } else {
                Err(ErrorKind::Corrupt)
            }
        },
    }
}

/// The row counts of a node table's groups, and the rows before each.
#[derive(Debug)]
pub struct EndpointLayout {
    row_counts: Vec<usize>,
    starts: Vec<u64>,
    total_rows: u64,
}

impl View for EndpointLayout {
    type V = Seq<nat>;

    closed spec fn view(&self) -> Seq<nat> {
        self.row_counts@.map_values(|count: usize| count as nat)
    }
}

impl EndpointLayout {
    /// The rows before each group are the sums of the counts.
    pub closed spec fn wf(self) -> bool {
        &&& self.starts@.len() == self.row_counts@.len()
        &&& self.total_rows == total_rows(self@)
        &&& forall|i: int|
            0 <= i < self.starts@.len() ==> #[trigger] self.starts@[i] == rows_before(self@, i)
    }

    /// The layout of groups with the given row counts.
    pub fn of_counts(counts: Vec<usize>) -> (layout: Option<EndpointLayout>)
        ensures
            match layout {
                Some(layout) => layout.wf() && layout@ == counts@.map_values(
                    |count: usize| count as nat,
                ),
                None => total_rows(counts@.map_values(|count: usize| count as nat)) > u64::MAX,
            },
    {
        let ghost shown = counts@.map_values(|count: usize| count as nat);
        let mut starts: Vec<u64> = Vec::new();
        let mut total: u64 = 0;
        let mut i: usize = 0;
        while i < counts.len()
            invariant
                i <= counts@.len(),
                shown == counts@.map_values(|count: usize| count as nat),
                starts@.len() == i,
                total == rows_before(shown, i as int),
                forall|j: int| 0 <= j < i ==> #[trigger] starts@[j] == rows_before(shown, j),
            decreases counts@.len() - i,
        {
            starts.push(total);
            match total.checked_add(counts[i] as u64) {
                Some(sum) => {
                    total = sum;
                },
                None => {
                    proof {
                        assert(rows_before(shown, i + 1) > u64::MAX);
                        lemma_rows_grow(shown, i + 1, counts@.len() as int);
                    }
                    return None;
                },
            }
            i += 1;
        }
        Some(EndpointLayout { row_counts: counts, starts, total_rows: total })
    }

    /// How many groups there are.
    pub fn group_count(&self) -> (count: usize)
        ensures
            count == self@.len(),
    {
        self.row_counts.len()
    }

    /// The rows of a group.
    pub fn rows_in(&self, group: usize) -> (rows: usize)
        requires
            group < self@.len(),
        ensures
            rows == self@[group as int],
    {
        self.row_counts[group]
    }

    /// The rows before a group.
    pub fn start_of(&self, group: usize) -> (start: u64)
        requires
            self.wf(),
            group < self@.len(),
        ensures
            start == rows_before(self@, group as int),
            start + self@[group as int] == rows_before(self@, group + 1),
            start + self@[group as int] <= total_rows(self@) <= u64::MAX,
    {
        proof {
            lemma_rows_grow(self@, group + 1, self@.len() as int);
        }
        self.starts[group]
    }

    /// The rows of all groups.
    pub fn total(&self) -> (rows: u64)
        requires
            self.wf(),
        ensures
            rows == total_rows(self@),
    {
        self.total_rows
    }

    /// The group that a row lies in, and its place there.
    pub fn locate(&self, offset: u64) -> (place: Option<(usize, usize)>)
        requires
            self.wf(),
        ensures
            match place {
                Some((group, slot)) => {
                    &&& lies_in(self@, group as int, offset as int)
                    &&& group_of(self@, offset as int) == Some(group as int)
                    &&& slot == offset - rows_before(self@, group as int)
                    &&& slot < self@[group as int]
                },
                None => offset >= total_rows(self@) && group_of(self@, offset as int) is None,
            },
    {
        if offset >= self.total_rows {
            proof {
                lemma_no_group(self@, offset as int);
            }
            return None;
        }
        let mut low: usize = 0;
        let mut high: usize = self.starts.len();
        while low < high
            invariant
                low <= high <= self.starts@.len(),
                self.wf(),
                forall|i: int| 0 <= i < low ==> rows_before(self@, i) <= offset,
                forall|i: int| high <= i < self.starts@.len() ==> offset < rows_before(self@, i),
            decreases high - low,
        {
            let middle: usize = low + (high - low) / 2;
            if self.starts[middle] <= offset {
                proof {
                    assert forall|i: int| 0 <= i < middle + 1 implies rows_before(self@, i)
                        <= offset by {
                        lemma_rows_grow(self@, i, middle as int);
                    }
                }
                low = middle + 1;
            } else {
                proof {
                    assert forall|i: int| middle <= i < self.starts@.len() implies offset
                        < rows_before(self@, i) by {
                        lemma_rows_grow(self@, middle as int, i);
                    }
                }
                high = middle;
            }
        }
        assert(low > 0) by {
            if low == 0 && self.starts@.len() > 0 {
                assert(rows_before(self@, 0) == 0);
            }
        }
        let group: usize = low - 1;
        assert(rows_before(self@, group as int) <= offset);
        assert(offset < rows_before(self@, group + 1)) by {
            if low < self.starts@.len() {
                assert(offset < rows_before(self@, low as int));
            }
        }
        proof {
            assert(lies_in(self@, group as int, offset as int));
            lemma_one_group(self@, group as int, offset as int);
            assert(self@[group as int] == self.row_counts@[group as int]);
        }
        Some((group, (offset - self.starts[group]) as usize))
    }
}

/// Reads the layout of a node table.
pub fn endpoint_layout(store: &GroupStore, catalog: &Catalog, table_name: &str) -> (result:
    DevonResult<EndpointLayout>)
    requires
        store.wf(),
    ensures
        match result {
            Ok(layout) => layout.wf() && layout_of(store@, catalog@, table_name@) == Ok::<
                Seq<nat>,
                ErrorKind,
            >(layout@),
            Err(error) => layout_of(store@, catalog@, table_name@) == Err::<Seq<nat>, ErrorKind>(
                error.kind_of(),
            ),
        },
{
    let columns: usize = match catalog.node_table(table_name) {
        Some(schema) => schema.columns.len(),
        None => {
            return Err(not_found(with_name("node table `", table_name, "`").as_str()));
        },
    };
    match catalog.table_groups(table_name) {
        Some(ids) => read_layout(store, columns, ids, table_name),
        None => Err(not_found(with_name("node table `", table_name, "`").as_str())),
    }
}

/// Reads the layout of node groups.
pub fn read_layout(store: &GroupStore, columns: usize, ids: &Vec<u64>, table_name: &str) -> (result:
    DevonResult<EndpointLayout>)
    requires
        store.wf(),
    ensures
        match result {
            Ok(layout) => {
                &&& layout.wf()
                &&& readable(store@, columns as nat, ids@)
                &&& layout@ == counts_of(store@, columns as nat, ids@)
                &&& total_rows(layout@) <= u64::MAX
            },
            Err(error) => {
                &&& !readable(store@, columns as nat, ids@) || total_rows(
                    counts_of(store@, columns as nat, ids@),
                ) > u64::MAX
                &&& error.kind_of() == ErrorKind::Corrupt
            },
        },
{
    let mut counts: Vec<usize> = Vec::new();
    let mut i: usize = 0;
    while i < ids.len()
        invariant
            i <= ids@.len(),
            store.wf(),
            counts@.len() == i,
            forall|j: int|
                0 <= j < i ==> groups::node_rows(store@, #[trigger] ids@[j], columns as nat)
                    == Some(counts@[j] as nat),
        decreases ids@.len() - i,
    {
        match store.read_row_count(ids[i], columns, i) {
            Ok(rows) => {
                counts.push(rows);
            },
            Err(error) => {
                assert(groups::node_rows(store@, ids@[i as int], columns as nat) is None);
                return Err(error);
            },
        }
        i += 1;
    }
    let ghost shown = counts@.map_values(|count: usize| count as nat);
    proof {
        assert forall|j: int| 0 <= j < ids@.len() implies shown[j] == #[trigger] counts_of(
            store@,
            columns as nat,
            ids@,
        )[j] by {
            assert(groups::node_rows(store@, ids@[j], columns as nat) == Some(counts@[j] as nat));
        }
        assert(shown =~= counts_of(store@, columns as nat, ids@));
    }
    match EndpointLayout::of_counts(counts) {
        Some(layout) => Ok(layout),
        None => Err(
            corrupt(with_name("node table `", table_name, "` row count overflows u64").as_str()),
        ),
    }
}

} // verus!
