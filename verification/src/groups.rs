//! Stored groups: node groups of rows, and the adjacency groups of
//! relationship tables, each under the page id of its directory.

use vstd::prelude::*;

use crate::error::{corrupt, invalid_argument, DevonResult, ErrorKind};
use crate::sorted;
use crate::tally::Tally;
use crate::text::with_number;
use crate::types;
use crate::types::{duplicate_values, LogicalType, Value, ValueView};

verus! {

/// Rows that a node group holds at most.
pub const NODE_GROUP_CAPACITY: usize = 2048;

/// Bytes of a slot's edge offset.
pub const OFFSET_BYTES: usize = 4;

/// Bytes of a neighbour.
pub const NEIGHBOR_BYTES: usize = 8;

/// One edge of an adjacency group.
#[derive(Debug)]
pub struct CsrEdge {
    pub neighbor: u64,
    pub values: Vec<Value>,
}

/// What an edge says.
#[verifier::ext_equal]
pub struct EdgeView {
    pub neighbor: u64,
    pub values: Seq<ValueView>,
}

impl View for CsrEdge {
    type V = EdgeView;

    open spec fn view(&self) -> EdgeView {
        EdgeView { neighbor: self.neighbor, values: types::views(self.values@) }
    }
}

/// What edges say.
pub open spec fn edges_of(edges: Seq<CsrEdge>) -> Seq<EdgeView> {
    edges.map_values(|edge: CsrEdge| edge@)
}

/// The adjacency of one node group: the edges of each of its rows, in order.
#[derive(Debug)]
pub struct CsrGroup {
    pub types: Vec<LogicalType>,
    pub slots: Vec<Vec<CsrEdge>>,
}

/// What an adjacency group says.
#[verifier::ext_equal]
pub struct CsrView {
    pub types: Seq<LogicalType>,
    pub slots: Seq<Seq<EdgeView>>,
}

impl View for CsrGroup {
    type V = CsrView;

    open spec fn view(&self) -> CsrView {
        CsrView {
            types: self.types@,
            slots: self.slots@.map_values(|slot: Vec<CsrEdge>| edges_of(slot@)),
        }
    }
}

/// How many edges slots hold.
pub open spec fn edge_total(slots: Seq<Seq<EdgeView>>) -> nat
    decreases slots.len(),
{
    if slots.len() == 0 {
        0
    } else {
        edge_total(slots.drop_last()) + slots.last().len()
    }
}

/// Whether every edge of the slots leads below `rows` and has values of the
/// types.
pub open spec fn edges_lawful(group: CsrView, rows: nat) -> bool {
    forall|slot: int, at: int|
        #![trigger group.slots[slot][at]]
        0 <= slot < group.slots.len() && 0 <= at < group.slots[slot].len()
            ==> group.slots[slot][at].neighbor < rows && values_fit(
            group.types,
            group.slots[slot][at].values,
        )
}

/// Whether values fit types one by one.
pub open spec fn values_fit(types: Seq<LogicalType>, values: Seq<ValueView>) -> bool {
    &&& values.len() == types.len()
    &&& forall|i: int| 0 <= i < values.len() ==> (#[trigger] values[i]).fits_type(types[i])
}

fn do_values_fit(types: &Vec<LogicalType>, values: &Vec<Value>) -> (fit: bool)
    ensures
        fit == values_fit(types@, types::views(values@)),
{
    if values.len() != types.len() {
        return false;
    }
    let ghost shown = types::views(values@);
    let mut i: usize = 0;
    while i < values.len()
        invariant
            i <= values@.len(),
            values@.len() == types@.len(),
            shown == types::views(values@),
            forall|j: int| 0 <= j < i ==> (#[trigger] shown[j]).fits_type(types@[j]),
        decreases values@.len() - i,
    {
        if !values[i].matches_type(&types[i]) {
            assert(!shown[i as int].fits_type(types@[i as int]));
            return false;
        }
        i += 1;
    }
    true
}

/// Whether two lists of values are equal.
pub fn same_values(a: &Vec<Value>, b: &Vec<Value>) -> (same: bool)
    ensures
        same == (types::views(a@) == types::views(b@)),
{
    if a.len() != b.len() {
        assert(types::views(a@).len() != types::views(b@).len());
        return false;
    }
    let mut i: usize = 0;
    while i < a.len()
        invariant
            i <= a@.len(),
            a@.len() == b@.len(),
            forall|j: int| 0 <= j < i ==> (#[trigger] a@[j])@ == b@[j]@,
        decreases a@.len() - i,
    {
        if !a[i].same(&b[i]) {
            assert(types::views(a@)[i as int] != types::views(b@)[i as int]);
            return false;
        }
        i += 1;
    }
    assert(types::views(a@) =~= types::views(b@));
    true
}

fn same_types(a: &Vec<LogicalType>, b: &Vec<LogicalType>) -> (same: bool)
    ensures
        same == (a@ == b@),
{
    if a.len() != b.len() {
        return false;
    }
    let mut i: usize = 0;
    while i < a.len()
        invariant
            i <= a@.len(),
            a@.len() == b@.len(),
            forall|j: int| 0 <= j < i ==> #[trigger] a@[j] == b@[j],
        decreases a@.len() - i,
    {
        if a[i] != b[i] {
            return false;
        }
        i += 1;
    }
    assert(a@ =~= b@);
    true
}

fn same_edges(a: &Vec<CsrEdge>, b: &Vec<CsrEdge>) -> (same: bool)
    ensures
        same == (edges_of(a@) == edges_of(b@)),
{
    if a.len() != b.len() {
        assert(edges_of(a@).len() != edges_of(b@).len());
        return false;
    }
    let mut i: usize = 0;
    while i < a.len()
        invariant
            i <= a@.len(),
            a@.len() == b@.len(),
            forall|j: int| 0 <= j < i ==> (#[trigger] a@[j])@ == b@[j]@,
        decreases a@.len() - i,
    {
        if a[i].neighbor != b[i].neighbor || !same_values(&a[i].values, &b[i].values) {
            assert(a@[i as int]@ != b@[i as int]@);
            assert(edges_of(a@)[i as int] != edges_of(b@)[i as int]);
            return false;
        }
        assert(a@[i as int]@ =~= b@[i as int]@);
        i += 1;
    }
    assert(edges_of(a@) =~= edges_of(b@));
    true
}

impl CsrGroup {
    /// A group of rows without edges.
    pub fn new(row_count: usize, types: Vec<LogicalType>) -> (group: CsrGroup)
        ensures
            group@.types == types@,
            group@.slots == Seq::new(row_count as nat, |i: int| Seq::<EdgeView>::empty()),
    {
        let mut slots: Vec<Vec<CsrEdge>> = Vec::new();
        while slots.len() < row_count
            invariant
                slots@.len() <= row_count,
                forall|i: int| 0 <= i < slots@.len() ==> (#[trigger] slots@[i])@.len() == 0,
            decreases row_count - slots@.len(),
        {
            slots.push(Vec::new());
        }
        let group = CsrGroup { types, slots };
        proof {
            let want = Seq::new(row_count as nat, |i: int| Seq::<EdgeView>::empty());
            assert forall|i: int| 0 <= i < row_count implies group@.slots[i] == want[i] by {
                assert(group@.slots[i] =~= Seq::<EdgeView>::empty());
            }
            assert(group@.slots =~= want);
        }
        group
    }

    /// How many rows the group covers.
    pub fn row_count(&self) -> (count: usize)
        ensures
            count == self@.slots.len(),
    {
        self.slots.len()
    }

    /// Whether the group has no edge.
    pub fn is_edgeless(&self) -> (yes: bool)
        ensures
            yes == (forall|slot: int|
                0 <= slot < self@.slots.len() ==> (#[trigger] self@.slots[slot]).len() == 0),
    {
        let mut slot: usize = 0;
        while slot < self.slots.len()
            invariant
                slot <= self.slots@.len(),
                forall|i: int| 0 <= i < slot ==> (#[trigger] self@.slots[i]).len() == 0,
            decreases self.slots@.len() - slot,
        {
            assert(self@.slots[slot as int].len() == self.slots@[slot as int]@.len());
            if self.slots[slot].len() != 0 {
                return false;
            }
            slot += 1;
        }
        true
    }

    /// Adds an edge behind those of its row.
    pub fn push_edge(&mut self, slot: usize, neighbor: u64, values: Vec<Value>) -> (result:
        DevonResult<()>)
        ensures
            match result {
                Ok(()) => {
                    &&& slot < old(self)@.slots.len()
                    &&& values_fit(old(self)@.types, types::views(values@))
                    &&& final(self)@.types == old(self)@.types
                    &&& final(self)@.slots == old(self)@.slots.update(
                        slot as int,
                        old(self)@.slots[slot as int].push(
                            (EdgeView { neighbor, values: types::views(values@) }),
                        ),
                    )
                },
                Err(error) => {
                    &&& slot >= old(self)@.slots.len() || !values_fit(
                        old(self)@.types,
                        types::views(values@),
                    )
                    &&& error.kind_of() == ErrorKind::InvalidArgument
                    &&& final(self)@ == old(self)@
                },
            },
    {
        if slot >= self.slots.len() {
            return Err(invalid_argument("edge slot is outside the adjacency group"));
        }
        if !do_values_fit(&self.types, &values) {
            return Err(invalid_argument("edge values do not match the property columns"));
        }
        let ghost before = self@.slots;
        let ghost added = EdgeView { neighbor, values: types::views(values@) };
        let mut edges: Vec<CsrEdge> = Vec::new();
        std::mem::swap(&mut edges, &mut self.slots[slot]);
        let ghost held = edges_of(edges@);
        assert(before[slot as int] == held);
        edges.push(CsrEdge { neighbor, values });
        assert(edges_of(edges@) =~= held.push(added));
        self.slots[slot] = edges;
        assert(self@.slots =~= before.update(slot as int, held.push(added)));
        Ok(())
    }

    /// A copy.
    pub fn duplicate(&self) -> (copy: CsrGroup)
        ensures
            copy@ == self@,
    {
        let mut types: Vec<LogicalType> = Vec::new();
        let mut i: usize = 0;
        while i < self.types.len()
            invariant
                i <= self.types@.len(),
                types@ == self.types@.subrange(0, i as int),
            decreases self.types@.len() - i,
        {
            types.push(self.types[i]);
            assert(types@ =~= self.types@.subrange(0, i + 1));
            i += 1;
        }
        let mut slots: Vec<Vec<CsrEdge>> = Vec::new();
        let mut slot: usize = 0;
        while slot < self.slots.len()
            invariant
                slot <= self.slots@.len(),
                slots@.len() == slot,
                forall|j: int|
                    0 <= j < slot ==> edges_of((#[trigger] slots@[j])@) == edges_of(
                        self.slots@[j]@,
                    ),
            decreases self.slots@.len() - slot,
        {
            slots.push(duplicate_edges(&self.slots[slot]));
            slot += 1;
        }
        let copy = CsrGroup { types, slots };
        assert(copy@.types =~= self@.types);
        assert(copy@.slots =~= self@.slots);
        copy
    }

    /// Whether two groups say the same.
    pub fn same(&self, other: &CsrGroup) -> (same: bool)
        ensures
            same == (self@ == other@),
    {
        if !same_types(&self.types, &other.types) || self.slots.len() != other.slots.len() {
            assert(self@.types != other@.types || self@.slots.len() != other@.slots.len());
            return false;
        }
        let mut slot: usize = 0;
        while slot < self.slots.len()
            invariant
                slot <= self.slots@.len(),
                self.slots@.len() == other.slots@.len(),
                forall|j: int|
                    0 <= j < slot ==> #[trigger] self@.slots[j] == other@.slots[j],
            decreases self.slots@.len() - slot,
        {
            if !same_edges(&self.slots[slot], &other.slots[slot]) {
                assert(self@.slots[slot as int] != other@.slots[slot as int]);
                return false;
            }
            assert(self@.slots[slot as int] == other@.slots[slot as int]);
            slot += 1;
        }
        assert(self@.slots =~= other@.slots);
        assert(self@ =~= other@);
        true
    }

    /// Whether every edge leads below `rows` and has values of the types.
    pub fn is_lawful(&self, rows: u64) -> (yes: bool)
        ensures
            yes == edges_lawful(self@, rows as nat),
    {
        let mut slot: usize = 0;
        while slot < self.slots.len()
            invariant
                slot <= self.slots@.len(),
                forall|s: int, at: int|
                    #![trigger self@.slots[s][at]]
                    0 <= s < slot && 0 <= at < self@.slots[s].len() ==> self@.slots[s][at].neighbor
                        < rows && values_fit(self@.types, self@.slots[s][at].values),
            decreases self.slots@.len() - slot,
        {
            let mut at: usize = 0;
            while at < self.slots[slot].len()
                invariant
                    slot < self.slots@.len(),
                    at <= self.slots@[slot as int]@.len(),
                    forall|a: int|
                        #![trigger self@.slots[slot as int][a]]
                        0 <= a < at ==> self@.slots[slot as int][a].neighbor < rows && values_fit(
                            self@.types,
                            self@.slots[slot as int][a].values,
                        ),
                decreases self.slots@[slot as int]@.len() - at,
            {
                assert(self@.slots[slot as int][at as int] == self.slots@[slot as int]@[at as int]@);
                if self.slots[slot][at].neighbor >= rows || !do_values_fit(
                    &self.types,
                    &self.slots[slot][at].values,
                ) {
                    return false;
                }
                at += 1;
            }
            assert(self@.slots[slot as int].len() == self.slots@[slot as int]@.len());
            slot += 1;
        }
        true
    }
}

/// Copies of edges.
pub fn duplicate_edges(edges: &Vec<CsrEdge>) -> (copy: Vec<CsrEdge>)
    ensures
        edges_of(copy@) == edges_of(edges@),
{
    let mut copy: Vec<CsrEdge> = Vec::new();
    let mut i: usize = 0;
    while i < edges.len()
        invariant
            i <= edges@.len(),
            copy@.len() == i,
            forall|j: int| 0 <= j < i ==> (#[trigger] copy@[j])@ == edges@[j]@,
        decreases edges@.len() - i,
    {
        copy.push(
            CsrEdge {
                neighbor: edges[i].neighbor,
                values: duplicate_values(edges[i].values.as_slice()),
            },
        );
        assert(copy@[i as int]@ =~= edges@[i as int]@);
        i += 1;
    }
    assert(edges_of(copy@) =~= edges_of(edges@));
    copy
}

/// Rows of a node group.
pub open spec fn rows_of(rows: Seq<Vec<Value>>) -> Seq<Seq<ValueView>> {
    rows.map_values(|row: Vec<Value>| types::views(row@))
}

/// The rows of one node group.
#[derive(Debug)]
pub struct NodeGroup {
    pub types: Vec<LogicalType>,
    pub rows: Vec<Vec<Value>>,
}

/// What a node group says.
#[verifier::ext_equal]
pub struct NodeView {
    pub types: Seq<LogicalType>,
    pub rows: Seq<Seq<ValueView>>,
}

impl View for NodeGroup {
    type V = NodeView;

    open spec fn view(&self) -> NodeView {
        NodeView { types: self.types@, rows: rows_of(self.rows@) }
    }
}

/// Whether rows have values of the types, and fit one group.
pub open spec fn rows_lawful(types: Seq<LogicalType>, rows: Seq<Seq<ValueView>>) -> bool {
    rows.len() <= NODE_GROUP_CAPACITY && rows_typed(types, rows)
}

/// Whether rows have values of the types.
pub open spec fn rows_typed(types: Seq<LogicalType>, rows: Seq<Seq<ValueView>>) -> bool {
    forall|i: int| 0 <= i < rows.len() ==> values_fit(types, #[trigger] rows[i])
}

fn are_typed(types: &Vec<LogicalType>, rows: &Vec<Vec<Value>>) -> (yes: bool)
    ensures
        yes == rows_typed(types@, rows_of(rows@)),
{
    let mut i: usize = 0;
    while i < rows.len()
        invariant
            i <= rows@.len(),
            forall|j: int| 0 <= j < i ==> values_fit(types@, #[trigger] rows_of(rows@)[j]),
        decreases rows@.len() - i,
    {
        assert(rows_of(rows@)[i as int] == types::views(rows@[i as int]@));
        if !do_values_fit(types, &rows[i]) {
            return false;
        }
        i += 1;
    }
    true
}

/// A stored group.
#[derive(Debug)]
pub enum StoredGroup {
    Node(NodeGroup),
    Csr(CsrGroup),
}

/// What a stored group says.
pub enum GroupView {
    Node(NodeView),
    Csr(CsrView),
}

impl View for StoredGroup {
    type V = GroupView;

    open spec fn view(&self) -> GroupView {
        match self {
            StoredGroup::Node(group) => GroupView::Node(group@),
            StoredGroup::Csr(group) => GroupView::Csr(group@),
        }
    }
}

/// Where a number stands in a list.
pub open spec fn place(list: Seq<u64>, key: u64) -> int {
    choose|i: int| 0 <= i < list.len() && list[i] == key
}

/// The stored groups by page id. A stored group never changes; a new one
/// gets a page id of its own.
#[derive(Debug)]
pub struct GroupStore {
    ids: Vec<u64>,
    groups: Vec<StoredGroup>,
    next: u64,
}

impl View for GroupStore {
    type V = Map<u64, GroupView>;

    closed spec fn view(&self) -> Map<u64, GroupView> {
        Map::new(
            |id: u64| self.ids@.contains(id),
            |id: u64| self.groups@[place(self.ids@, id)]@,
        )
    }
}

/// The row count of the node group at a page, where one with that many
/// columns stands there.
pub open spec fn node_rows(store: Map<u64, GroupView>, id: u64, columns: nat) -> Option<nat> {
    if store.dom().contains(id) && store[id] is Node && store[id]->Node_0.types.len()
        == columns {
        Some(store[id]->Node_0.rows.len())
    } else {
        None
    }
}

/// The rows at a page, where a lawful node group of these types stands
/// there.
pub open spec fn node_at(
    store: Map<u64, GroupView>,
    id: u64,
    types: Seq<LogicalType>,
) -> Option<Seq<Seq<ValueView>>> {
    if store.dom().contains(id) && store[id] is Node && store[id]->Node_0.types == types
        && rows_lawful(types, store[id]->Node_0.rows) {
        Some(store[id]->Node_0.rows)
    } else {
        None
    }
}

/// The adjacency group at a page, where a lawful one of these types stands
/// there.
pub open spec fn csr_at(
    store: Map<u64, GroupView>,
    id: u64,
    types: Seq<LogicalType>,
    rows: nat,
) -> Option<CsrView> {
    if store.dom().contains(id) && store[id] is Csr && store[id]->Csr_0.types == types
        && edges_lawful(store[id]->Csr_0, rows) {
        Some(store[id]->Csr_0)
    } else {
        None
    }
}

impl GroupStore {
    /// Page ids ascend, and the next one is behind them.
    pub closed spec fn wf(self) -> bool {
        &&& sorted::ascending(self.ids@)
        &&& self.ids@.len() == self.groups@.len()
        &&& forall|i: int| 0 <= i < self.ids@.len() ==> #[trigger] self.ids@[i] < self.next
        &&& 0 < self.next
    }

    /// The page id of the next group.
    pub closed spec fn next_of(self) -> u64 {
        self.next
    }

    /// Every group stands before the next page id.
    pub proof fn lemma_next(self, id: u64)
        requires
            self.wf(),
        ensures
            self@.dom().contains(id) ==> id < self.next_of(),
            self.next_of() > 0,
    {
        if self.ids@.contains(id) {
            let i = place(self.ids@, id);
            assert(self.ids@[i] == id);
        }
    }

    /// A store without groups; page ids begin behind the superblock slots.
    pub fn new() -> (store: GroupStore)
        ensures
            store.wf(),
            store@ == Map::<u64, GroupView>::empty(),
            store.next_of() == 2,
    {
        let store = GroupStore { ids: Vec::new(), groups: Vec::new(), next: 2 };
        assert(store@ =~= Map::<u64, GroupView>::empty());
        store
    }

    fn find(&self, id: u64) -> (found: Option<&StoredGroup>)
        requires
            self.wf(),
        ensures
            match found {
                Some(group) => self@.dom().contains(id) && self@[id] == group@,
                None => !self@.dom().contains(id),
            },
    {
        let (there, at): (bool, usize) = sorted::search(&self.ids, id);
        if there {
            proof {
                let i = place(self.ids@, id);
                if i < at {
                    assert(self.ids@[i] < self.ids@[at as int]);
                } else if i > at {
                    assert(self.ids@[at as int] < self.ids@[i]);
                }
            }
            Some(&self.groups[at])
        } else {
            None
        }
    }

    /// Whether a group stands at a page.
    pub fn contains(&self, id: u64) -> (there: bool)
        requires
            self.wf(),
        ensures
            there == self@.dom().contains(id),
    {
        self.find(id).is_some()
    }

    /// Stores a group under the next page id.
    pub fn write(&mut self, group: StoredGroup) -> (result: DevonResult<u64>)
        requires
            old(self).wf(),
        ensures
            final(self).wf(),
            match result {
                Ok(id) => {
                    &&& id == old(self).next_of()
                    &&& !old(self)@.dom().contains(id)
                    &&& final(self)@ == old(self)@.insert(id, group@)
                    &&& final(self).next_of() == id + 1
                },
                Err(error) => {
                    &&& old(self).next_of() == u64::MAX
                    &&& error.kind_of() == ErrorKind::InvalidArgument
                    &&& final(self)@ == old(self)@
                    &&& final(self).next_of() == old(self).next_of()
                },
            },
    {
        if self.next == u64::MAX {
            return Err(invalid_argument("page identifiers are exhausted"));
        }
        let id: u64 = self.next;
        let ghost before = *self;
        let ghost shown = group@;
        proof {
            self.lemma_next(id);
        }
        self.ids.push(id);
        self.groups.push(group);
        self.next = id + 1;
        proof {
            assert forall|k: u64| #[trigger] self.ids@.contains(k) <==> before.ids@.contains(k)
                || k == id by {
                if before.ids@.contains(k) {
                    let i = place(before.ids@, k);
                    assert(self.ids@[i] == k);
                }
                if k == id {
                    assert(self.ids@[before.ids@.len() as int] == k);
                }
                if self.ids@.contains(k) && k != id {
                    let i = place(self.ids@, k);
                    assert(before.ids@[i] == k);
                }
            }
            assert forall|k: u64| self@.dom().contains(k) implies self@[k] == before@.insert(
                id,
                shown,
            )[k] by {
                let i = place(self.ids@, k);
                assert(self.ids@.contains(k));
                if k == id {
                    if i < before.ids@.len() {
                        assert(before.ids@[i] < before.next);
                    }
                } else {
                    let j = place(before.ids@, k);
                    assert(before.ids@.contains(k));
                    assert(self.ids@[j] == k);
                    if i < j {
                        assert(self.ids@[i] < self.ids@[j]);
                    } else if j < i {
                        assert(self.ids@[j] < self.ids@[i]);
                    }
                }
            }
            assert(self@ =~= before@.insert(id, shown));
        }
        Ok(id)
    }

    /// The row count of a node group.
    pub fn read_row_count(&self, id: u64, columns: usize, group_index: usize) -> (result: DevonResult<
        usize,
    >)
        requires
            self.wf(),
        ensures
            match result {
                Ok(rows) => node_rows(self@, id, columns as nat) == Some(rows as nat),
                Err(error) => node_rows(self@, id, columns as nat) is None && error.kind_of()
                    == ErrorKind::Corrupt,
            },
    {
        match self.find(id) {
            Some(StoredGroup::Node(group)) => {
                if group.types.len() == columns {
                    return Ok(group.rows.len());
                }
            },
            _ => {},
        }
        let head: String = with_number(
            "node group ",
            group_index as u64,
            " references invalid directory page ",
        );
        Err(corrupt(with_number(head.as_str(), id, "").as_str()))
    }

    /// The rows of a node group.
    pub fn read_rows(&self, id: u64, types: &Vec<LogicalType>) -> (result: DevonResult<
        Vec<Vec<Value>>,
    >)
        requires
            self.wf(),
        ensures
            match result {
                Ok(rows) => node_at(self@, id, types@) == Some(rows_of(rows@)),
                Err(error) => node_at(self@, id, types@) is None && error.kind_of()
                    == ErrorKind::Corrupt,
            },
    {
        match self.find(id) {
            Some(StoredGroup::Node(group)) => {
                if same_types(&group.types, types) && group.rows.len() <= NODE_GROUP_CAPACITY
                    && are_typed(types, &group.rows) {
                    return Ok(duplicate_rows(&group.rows));
                }
            },
            _ => {},
        }
        Err(corrupt(with_number("invalid node group directory page ", id, "").as_str()))
    }

    /// A lawful adjacency group.
    pub fn read_checked(&self, id: u64, types: &Vec<LogicalType>, rows: u64) -> (result:
        DevonResult<&CsrGroup>)
        requires
            self.wf(),
        ensures
            match result {
                Ok(group) => csr_at(self@, id, types@, rows as nat) == Some(group@),
                Err(error) => csr_at(self@, id, types@, rows as nat) is None && error.kind_of()
                    == ErrorKind::Corrupt,
            },
    {
        match self.find(id) {
            Some(StoredGroup::Csr(group)) => {
                if same_types(&group.types, types) && group.is_lawful(rows) {
                    return Ok(group);
                }
            },
            _ => {},
        }
        Err(corrupt(with_number("invalid adjacency group directory page ", id, "").as_str()))
    }
}

/// Copies of rows.
pub fn duplicate_rows(rows: &Vec<Vec<Value>>) -> (copy: Vec<Vec<Value>>)
    ensures
        rows_of(copy@) == rows_of(rows@),
{
    let mut copy: Vec<Vec<Value>> = Vec::new();
    let mut i: usize = 0;
    while i < rows.len()
        invariant
            i <= rows@.len(),
            copy@.len() == i,
            forall|j: int|
                0 <= j < i ==> types::views((#[trigger] copy@[j])@) == types::views(rows@[j]@),
        decreases rows@.len() - i,
    {
        copy.push(duplicate_values(rows[i].as_slice()));
        i += 1;
    }
    assert(rows_of(copy@) =~= rows_of(rows@));
    copy
}

/// The bytes that a value takes in memory.
pub open spec fn held_bytes(value: ValueView) -> nat {
    if value.weight() <= usize::MAX {
        value.weight()
    } else {
        usize::MAX as nat
    }
}

/// The bytes that values take.
pub open spec fn values_bytes(values: Seq<ValueView>) -> nat
    decreases values.len(),
{
    if values.len() == 0 {
        0
    } else {
        values_bytes(values.drop_last()) + held_bytes(values.last())
    }
}

/// The bytes that the properties of edges take.
pub open spec fn edges_bytes(edges: Seq<EdgeView>) -> nat
    decreases edges.len(),
{
    if edges.len() == 0 {
        0
    } else {
        edges_bytes(edges.drop_last()) + values_bytes(edges.last().values)
    }
}

/// The bytes that the properties of a group take.
pub open spec fn slots_bytes(slots: Seq<Seq<EdgeView>>) -> nat
    decreases slots.len(),
{
    if slots.len() == 0 {
        0
    } else {
        slots_bytes(slots.drop_last()) + edges_bytes(slots.last())
    }
}

/// The bytes that a group of so many rows and edges takes, once.
pub open spec fn footprint(rows: nat, edges: nat, properties: nat) -> nat {
    OFFSET_BYTES as nat * (rows + 1) + NEIGHBOR_BYTES as nat * edges + properties
}

/// The bytes that values take.
pub fn values_tally(values: &Vec<Value>) -> (total: Tally)
    ensures
        total.wf(),
        total@ == values_bytes(types::views(values@)),
{
    let ghost shown = types::views(values@);
    let mut total: Tally = Tally::of(0);
    let mut i: usize = 0;
    assert(shown.subrange(0, 0) =~= Seq::empty());
    while i < values.len()
        invariant
            i <= values@.len(),
            shown == types::views(values@),
            total.wf(),
            total@ == values_bytes(shown.subrange(0, i as int)),
        decreases values@.len() - i,
    {
        proof {
            let next = shown.subrange(0, i + 1);
            assert(next.drop_last() =~= shown.subrange(0, i as int));
            assert(next.last() == values@[i as int]@);
        }
        total = total.plus(&Tally::of(values[i].approx_bytes() as u64));
        i += 1;
    }
    assert(shown.subrange(0, shown.len() as int) =~= shown);
    total
}

fn edges_tally(edges: &Vec<CsrEdge>) -> (total: Tally)
    ensures
        total.wf(),
        total@ == edges_bytes(edges_of(edges@)),
{
    let ghost shown = edges_of(edges@);
    let mut total: Tally = Tally::of(0);
    let mut i: usize = 0;
    assert(shown.subrange(0, 0) =~= Seq::empty());
    while i < edges.len()
        invariant
            i <= edges@.len(),
            shown == edges_of(edges@),
            total.wf(),
            total@ == edges_bytes(shown.subrange(0, i as int)),
        decreases edges@.len() - i,
    {
        proof {
            let next = shown.subrange(0, i + 1);
            assert(next.drop_last() =~= shown.subrange(0, i as int));
            assert(next.last() == edges@[i as int]@);
        }
        total = total.plus(&values_tally(&edges[i].values));
        i += 1;
    }
    assert(shown.subrange(0, shown.len() as int) =~= shown);
    total
}

/// The bytes that a group of so many rows and edges takes, once.
pub fn footprint_tally(rows: usize, edges: &Tally, properties: &Tally) -> (total: Tally)
    requires
        edges.wf(),
        properties.wf(),
    ensures
        total.wf(),
        total@ == footprint(rows as nat, edges@, properties@),
{
    let offsets: Tally = Tally::of(rows as u64).plus(&Tally::of(1)).times(OFFSET_BYTES as u64);
    let neighbors: Tally = edges.times(NEIGHBOR_BYTES as u64);
    offsets.plus(&neighbors).plus(properties)
}

impl CsrGroup {
    /// How many edges the group has, and the bytes their properties take.
    pub fn tally(&self) -> (totals: (Tally, Tally))
        ensures
            totals.0.wf(),
            totals.1.wf(),
            totals.0@ == edge_total(self@.slots),
            totals.1@ == slots_bytes(self@.slots),
    {
        let ghost shown = self@.slots;
        let mut edges: Tally = Tally::of(0);
        let mut bytes: Tally = Tally::of(0);
        let mut slot: usize = 0;
        assert(shown.subrange(0, 0) =~= Seq::empty());
        while slot < self.slots.len()
            invariant
                slot <= self.slots@.len(),
                shown == self@.slots,
                edges.wf(),
                bytes.wf(),
                edges@ == edge_total(shown.subrange(0, slot as int)),
                bytes@ == slots_bytes(shown.subrange(0, slot as int)),
            decreases self.slots@.len() - slot,
        {
            proof {
                let next = shown.subrange(0, slot + 1);
                assert(next.drop_last() =~= shown.subrange(0, slot as int));
                assert(next.last() == edges_of(self.slots@[slot as int]@));
            }
            edges = edges.plus(&Tally::of(self.slots[slot].len() as u64));
            bytes = bytes.plus(&edges_tally(&self.slots[slot]));
            slot += 1;
        }
        assert(shown.subrange(0, shown.len() as int) =~= shown);
        (edges, bytes)
    }

    /// The bytes of the group, decoded and encoded.
    pub fn both_forms(&self) -> (total: Tally)
        ensures
            total.wf(),
            total@ == 2 * footprint(
                self@.slots.len(),
                edge_total(self@.slots),
                slots_bytes(self@.slots),
            ),
    {
        let (edges, bytes): (Tally, Tally) = self.tally();
        footprint_tally(self.row_count(), &edges, &bytes).times(2)
    }
}

} // verus!
