//! The catalog: which tables there are, and where their groups are stored.

use vstd::prelude::*;

use crate::error::{invalid_argument, not_found, DevonResult, ErrorKind};
use crate::schema::{
    NodeSchemaView, NodeTableSchema, RelSchemaView, RelTableSchema,
};
use crate::text;
use crate::text::{same_name, with_name};

verus! {

/// Where a relationship table's groups are stored: page ids by group, zero
/// for a group without edges.
#[derive(Debug)]
pub struct RelStorage {
    pub fwd: Vec<u64>,
    pub bwd: Vec<u64>,
}

/// What a relationship storage says.
#[verifier::ext_equal]
pub struct RelStorageView {
    pub fwd: Seq<u64>,
    pub bwd: Seq<u64>,
}

impl View for RelStorage {
    type V = RelStorageView;

    open spec fn view(&self) -> RelStorageView {
        RelStorageView { fwd: self.fwd@, bwd: self.bwd@ }
    }
}

/// A copy of page ids.
pub fn duplicate_ids(ids: &Vec<u64>) -> (copy: Vec<u64>)
    ensures
        copy@ == ids@,
{
    let mut copy: Vec<u64> = Vec::new();
    let mut i: usize = 0;
    while i < ids.len()
        invariant
            i <= ids@.len(),
            copy@ == ids@.subrange(0, i as int),
        decreases ids@.len() - i,
    {
        copy.push(ids[i]);
        assert(copy@ =~= ids@.subrange(0, i + 1));
        i += 1;
    }
    assert(copy@ =~= ids@);
    copy
}

impl RelStorage {
    /// A copy.
    pub fn duplicate(&self) -> (copy: RelStorage)
        ensures
            copy@ == self@,
    {
        RelStorage { fwd: duplicate_ids(&self.fwd), bwd: duplicate_ids(&self.bwd) }
    }
}

#[derive(Debug)]
struct NodeEntry {
    schema: NodeTableSchema,
    groups: Vec<u64>,
    stored: bool,
}

#[derive(Debug)]
struct RelEntry {
    schema: RelTableSchema,
    storage: Option<RelStorage>,
}

/// A node table of the catalog: its schema, the page ids of its groups, and
/// whether it ever was stored.
#[verifier::ext_equal]
pub struct NodeEntryView {
    pub schema: NodeSchemaView,
    pub groups: Seq<u64>,
    pub stored: bool,
}

/// A relationship table of the catalog: its schema and where it is stored,
/// if it ever was.
#[verifier::ext_equal]
pub struct RelEntryView {
    pub schema: RelSchemaView,
    pub storage: Option<RelStorageView>,
}

/// The tables of a catalog in declaration order.
#[verifier::ext_equal]
pub struct CatalogView {
    pub nodes: Seq<NodeEntryView>,
    pub rels: Seq<RelEntryView>,
}

impl NodeEntry {
    spec fn shown(self) -> NodeEntryView {
        NodeEntryView { schema: self.schema@, groups: self.groups@, stored: self.stored }
    }
}

spec fn storage_of(storage: Option<RelStorage>) -> Option<RelStorageView> {
    match storage {
        Some(storage) => Some(storage@),
        None => None,
    }
}

impl RelEntry {
    spec fn shown(self) -> RelEntryView {
        RelEntryView { schema: self.schema@, storage: storage_of(self.storage) }
    }
}

/// The catalog.
#[derive(Debug)]
pub struct Catalog {
    nodes: Vec<NodeEntry>,
    rels: Vec<RelEntry>,
}

impl View for Catalog {
    type V = CatalogView;

    closed spec fn view(&self) -> CatalogView {
        CatalogView {
            nodes: self.nodes@.map_values(|entry: NodeEntry| entry.shown()),
            rels: self.rels@.map_values(|entry: RelEntry| entry.shown()),
        }
    }
}

/// Where a node table stands at or behind `from`, by its folded name.
pub open spec fn node_place(nodes: Seq<NodeEntryView>, name: Seq<char>, from: nat) -> Option<nat>
    decreases nodes.len() - from,
{
    if from >= nodes.len() {
        None
    } else if text::folded(nodes[from as int].schema.name) == text::folded(name) {
        Some(from)
    } else {
        node_place(nodes, name, from + 1)
    }
}

/// Where a relationship table stands at or behind `from`, by its folded
/// name.
pub open spec fn rel_place(rels: Seq<RelEntryView>, name: Seq<char>, from: nat) -> Option<nat>
    decreases rels.len() - from,
{
    if from >= rels.len() {
        None
    } else if text::folded(rels[from as int].schema.name) == text::folded(name) {
        Some(from)
    } else {
        rel_place(rels, name, from + 1)
    }
}

/// A node table is found by its folded name wherever it is there, the first of that name.
pub proof fn law_node_table_is_found_by_name(
    nodes: Seq<NodeEntryView>,
    name: Seq<char>,
    from: nat,
)
    ensures
        match node_place(nodes, name, from) {
            Some(at) => {
                &&& from <= at < nodes.len()
                &&& text::folded(nodes[at as int].schema.name) == text::folded(name)
                &&& forall|i: int|
                    from <= i < at ==> text::folded((#[trigger] nodes[i]).schema.name)
                        != text::folded(name)
            },
            None => forall|i: int|
                from <= i < nodes.len() ==> text::folded((#[trigger] nodes[i]).schema.name)
                    != text::folded(name),
        },
    decreases nodes.len() - from,
{
    if from < nodes.len() && text::folded(nodes[from as int].schema.name) != text::folded(name) {
        law_node_table_is_found_by_name(nodes, name, from + 1);
    }
}

/// A relationship table is found by its folded name wherever it is there, the first of that name.
pub proof fn law_rel_table_is_found_by_name(rels: Seq<RelEntryView>, name: Seq<char>, from: nat)
    ensures
        match rel_place(rels, name, from) {
            Some(at) => {
                &&& from <= at < rels.len()
                &&& text::folded(rels[at as int].schema.name) == text::folded(name)
                &&& forall|i: int|
                    from <= i < at ==> text::folded((#[trigger] rels[i]).schema.name)
                        != text::folded(name)
            },
            None => forall|i: int|
                from <= i < rels.len() ==> text::folded((#[trigger] rels[i]).schema.name)
                    != text::folded(name),
        },
    decreases rels.len() - from,
{
    if from < rels.len() && text::folded(rels[from as int].schema.name) != text::folded(name) {
        law_rel_table_is_found_by_name(rels, name, from + 1);
    }
}

/// The node table of a name.
pub open spec fn node_of(catalog: CatalogView, name: Seq<char>) -> Option<NodeEntryView> {
    match node_place(catalog.nodes, name, 0) {
        Some(at) => Some(catalog.nodes[at as int]),
        None => None,
    }
}

/// The relationship table of a name.
pub open spec fn rel_of(catalog: CatalogView, name: Seq<char>) -> Option<RelEntryView> {
    match rel_place(catalog.rels, name, 0) {
        Some(at) => Some(catalog.rels[at as int]),
        None => None,
    }
}

/// The page ids of a relationship table; none where it was never stored.
pub open spec fn ids_of(catalog: CatalogView, name: Seq<char>) -> RelStorageView {
    match rel_of(catalog, name) {
        Some(entry) => match entry.storage {
            Some(storage) => storage,
            None => RelStorageView { fwd: Seq::empty(), bwd: Seq::empty() },
        },
        None => RelStorageView { fwd: Seq::empty(), bwd: Seq::empty() },
    }
}

/// The catalog with a relationship table stored elsewhere.
pub open spec fn with_rel_storage(
    catalog: CatalogView,
    name: Seq<char>,
    storage: RelStorageView,
) -> CatalogView {
    let at = rel_place(catalog.rels, name, 0)->Some_0 as int;
    CatalogView {
        rels: catalog.rels.update(
            at,
            RelEntryView { schema: catalog.rels[at].schema, storage: Some(storage) },
        ),
        ..catalog
    }
}

/// The catalog with a node table's groups elsewhere.
pub open spec fn with_groups(
    catalog: CatalogView,
    name: Seq<char>,
    groups: Seq<u64>,
) -> CatalogView {
    let at = node_place(catalog.nodes, name, 0)->Some_0 as int;
    CatalogView {
        nodes: catalog.nodes.update(
            at,
            NodeEntryView { schema: catalog.nodes[at].schema, groups, stored: true },
        ),
        ..catalog
    }
}

/// A place that was found is inside, and has the name.
pub proof fn lemma_rel_place(rels: Seq<RelEntryView>, name: Seq<char>, from: nat)
    ensures
        rel_place(rels, name, from) matches Some(at) ==> from <= at < rels.len() && text::folded(
            rels[at as int].schema.name,
        ) == text::folded(name),
    decreases rels.len() - from,
{
    if from < rels.len() {
        lemma_rel_place(rels, name, from + 1);
    }
}

/// A place that was found is inside, and has the name.
pub proof fn lemma_node_place(nodes: Seq<NodeEntryView>, name: Seq<char>, from: nat)
    ensures
        node_place(nodes, name, from) matches Some(at) ==> from <= at < nodes.len()
            && text::folded(nodes[at as int].schema.name) == text::folded(name),
    decreases nodes.len() - from,
{
    if from < nodes.len() {
        lemma_node_place(nodes, name, from + 1);
    }
}

/// Entries with the same schemas are found alike.
proof fn lemma_same_rel_place(
    a: Seq<RelEntryView>,
    b: Seq<RelEntryView>,
    name: Seq<char>,
    from: nat,
)
    requires
        a.len() == b.len(),
        forall|i: int| 0 <= i < a.len() ==> (#[trigger] a[i]).schema == b[i].schema,
    ensures
        rel_place(a, name, from) == rel_place(b, name, from),
    decreases a.len() - from,
{
    if from < a.len() {
        assert(a[from as int].schema == b[from as int].schema);
        lemma_same_rel_place(a, b, name, from + 1);
    }
}

/// Entries with the same schemas are found alike.
proof fn lemma_same_node_place(
    a: Seq<NodeEntryView>,
    b: Seq<NodeEntryView>,
    name: Seq<char>,
    from: nat,
)
    requires
        a.len() == b.len(),
        forall|i: int| 0 <= i < a.len() ==> (#[trigger] a[i]).schema == b[i].schema,
    ensures
        node_place(a, name, from) == node_place(b, name, from),
    decreases a.len() - from,
{
    if from < a.len() {
        assert(a[from as int].schema == b[from as int].schema);
        lemma_same_node_place(a, b, name, from + 1);
    }
}

/// What is stored of a node table is read back, and the rest of the catalog
/// stays.
pub proof fn law_groups_read_back(catalog: CatalogView, name: Seq<char>, groups: Seq<u64>)
    requires
        node_of(catalog, name) is Some,
    ensures
        node_of(with_groups(catalog, name, groups), name) == Some(
            (NodeEntryView {
                schema: node_of(catalog, name)->Some_0.schema,
                groups,
                stored: true,
            }),
        ),
        with_groups(catalog, name, groups).rels == catalog.rels,
{
    lemma_node_place(catalog.nodes, name, 0);
    let after = with_groups(catalog, name, groups);
    lemma_same_node_place(catalog.nodes, after.nodes, name, 0);
}

/// What is stored of a relationship table is read back, and the rest of the
/// catalog stays.
pub proof fn law_rel_storage_reads_back(
    catalog: CatalogView,
    name: Seq<char>,
    storage: RelStorageView,
)
    requires
        rel_of(catalog, name) is Some,
    ensures
        ids_of(with_rel_storage(catalog, name, storage), name) == storage,
        rel_of(with_rel_storage(catalog, name, storage), name) is Some,
        rel_of(with_rel_storage(catalog, name, storage), name)->Some_0.schema == rel_of(
            catalog,
            name,
        )->Some_0.schema,
        with_rel_storage(catalog, name, storage).nodes == catalog.nodes,
{
    lemma_rel_place(catalog.rels, name, 0);
    let after = with_rel_storage(catalog, name, storage);
    lemma_same_rel_place(catalog.rels, after.rels, name, 0);
}

impl Catalog {
    /// A catalog without tables.
    pub fn new() -> (catalog: Catalog)
        ensures
            catalog@ == (CatalogView { nodes: Seq::empty(), rels: Seq::empty() }),
    {
        let catalog = Catalog { nodes: Vec::new(), rels: Vec::new() };
        assert(catalog@ =~= CatalogView { nodes: Seq::empty(), rels: Seq::empty() });
        catalog
    }

    fn find_node(&self, name: &str) -> (found: Option<usize>)
        ensures
            match found {
                Some(at) => node_place(self@.nodes, name@, 0) == Some(at as nat) && at
                    < self.nodes@.len(),
                None => node_place(self@.nodes, name@, 0) is None,
            },
    {
        let mut i: usize = 0;
        while i < self.nodes.len()
            invariant
                i <= self.nodes@.len(),
                node_place(self@.nodes, name@, 0) == node_place(self@.nodes, name@, i as nat),
            decreases self.nodes@.len() - i,
        {
            assert(self@.nodes[i as int] == self.nodes@[i as int].shown());
            if same_name(self.nodes[i].schema.name.as_str(), name) {
                return Some(i);
            }
            i += 1;
        }
        None
    }

    fn find_rel(&self, name: &str) -> (found: Option<usize>)
        ensures
            match found {
                Some(at) => rel_place(self@.rels, name@, 0) == Some(at as nat) && at
                    < self.rels@.len(),
                None => rel_place(self@.rels, name@, 0) is None,
            },
    {
        let mut i: usize = 0;
        while i < self.rels.len()
            invariant
                i <= self.rels@.len(),
                rel_place(self@.rels, name@, 0) == rel_place(self@.rels, name@, i as nat),
            decreases self.rels@.len() - i,
        {
            assert(self@.rels[i as int] == self.rels@[i as int].shown());
            if same_name(self.rels[i].schema.name.as_str(), name) {
                return Some(i);
            }
            i += 1;
        }
        None
    }

    /// Adds a node table without groups; no other node table may have its
    /// name.
    pub fn add_node_table(&mut self, schema: NodeTableSchema) -> (result: DevonResult<()>)
        ensures
            match result {
                Ok(()) => {
                    &&& node_of(old(self)@, schema@.name) is None
                    &&& final(self)@ == (CatalogView {
                        nodes: old(self)@.nodes.push(
                            (NodeEntryView { schema: schema@, groups: Seq::empty(), stored: false }),
                        ),
                        ..old(self)@
                    })
                },
                Err(error) => {
                    &&& node_of(old(self)@, schema@.name) is Some
                    &&& error.kind_of() == ErrorKind::InvalidArgument
                    &&& final(self)@ == old(self)@
                },
            },
    {
        if self.find_node(schema.name.as_str()).is_some() {
            return Err(
                invalid_argument(
                    with_name("node table `", schema.name.as_str(), "` already exists").as_str(),
                ),
            );
        }
        let ghost before = self@;
        let ghost shown = schema@;
        self.nodes.push(NodeEntry { schema, groups: Vec::new(), stored: false });
        proof {
            let added = NodeEntryView { schema: shown, groups: Seq::empty(), stored: false };
            assert(self.nodes@.last().shown() =~= added);
            assert(self@.nodes =~= before.nodes.push(added));
            assert(self@.rels =~= before.rels);
        }
        Ok(())
    }

    /// Adds a relationship table that was never stored; no other
    /// relationship table may have its name.
    pub fn add_rel_table(&mut self, schema: RelTableSchema) -> (result: DevonResult<()>)
        ensures
            match result {
                Ok(()) => {
                    &&& rel_of(old(self)@, schema@.name) is None
                    &&& final(self)@ == (CatalogView {
                        rels: old(self)@.rels.push(
                            (RelEntryView { schema: schema@, storage: None }),
                        ),
                        ..old(self)@
                    })
                },
                Err(error) => {
                    &&& rel_of(old(self)@, schema@.name) is Some
                    &&& error.kind_of() == ErrorKind::InvalidArgument
                    &&& final(self)@ == old(self)@
                },
            },
    {
        if self.find_rel(schema.name.as_str()).is_some() {
            return Err(
                invalid_argument(
                    with_name(
                        "relationship table `",
                        schema.name.as_str(),
                        "` already exists",
                    ).as_str(),
                ),
            );
        }
        let ghost before = self@;
        let ghost shown = schema@;
        self.rels.push(RelEntry { schema, storage: None });
        proof {
            let added = RelEntryView { schema: shown, storage: None };
            assert(self.rels@.last().shown() =~= added);
            assert(self@.rels =~= before.rels.push(added));
            assert(self@.nodes =~= before.nodes);
        }
        Ok(())
    }

    /// The schema of a node table.
    pub fn node_table(&self, name: &str) -> (found: Option<&NodeTableSchema>)
        ensures
            match found {
                Some(schema) => node_of(self@, name@) is Some && node_of(
                    self@,
                    name@,
                )->Some_0.schema == schema@,
                None => node_of(self@, name@) is None,
            },
    {
        match self.find_node(name) {
            Some(at) => Some(&self.nodes[at].schema),
            None => None,
        }
    }

    /// The page ids of a node table's groups.
    pub fn table_groups(&self, name: &str) -> (found: Option<&Vec<u64>>)
        ensures
            match found {
                Some(groups) => node_of(self@, name@) is Some && node_of(
                    self@,
                    name@,
                )->Some_0.groups == groups@,
                None => node_of(self@, name@) is None,
            },
    {
        match self.find_node(name) {
            Some(at) => Some(&self.nodes[at].groups),
            None => None,
        }
    }

    /// The page ids of a node table's groups, if it ever was stored.
    pub fn table_storage(&self, name: &str) -> (found: Option<&Vec<u64>>)
        ensures
            match found {
                Some(groups) => node_of(self@, name@) is Some && node_of(self@, name@)->Some_0.stored
                    && node_of(self@, name@)->Some_0.groups == groups@,
                None => node_of(self@, name@) is None || !node_of(self@, name@)->Some_0.stored,
            },
    {
        match self.find_node(name) {
            Some(at) => {
                assert(self@.nodes[at as int] == self.nodes@[at as int].shown());
                if self.nodes[at].stored {
                    Some(&self.nodes[at].groups)
                } else {
                    None
                }
            },
            None => None,
        }
    }

    /// The schema of a relationship table.
    pub fn rel_table(&self, name: &str) -> (found: Option<&RelTableSchema>)
        ensures
            match found {
                Some(schema) => rel_of(self@, name@) is Some && rel_of(self@, name@)->Some_0.schema
                    == schema@,
                None => rel_of(self@, name@) is None,
            },
    {
        match self.find_rel(name) {
            Some(at) => Some(&self.rels[at].schema),
            None => None,
        }
    }

    /// Where a relationship table is stored.
    pub fn rel_storage(&self, name: &str) -> (found: Option<&RelStorage>)
        ensures
            match found {
                Some(storage) => rel_of(self@, name@) is Some && rel_of(
                    self@,
                    name@,
                )->Some_0.storage == Some(storage@),
                None => rel_of(self@, name@) is None || rel_of(self@, name@)->Some_0.storage is None,
            },
    {
        match self.find_rel(name) {
            Some(at) => {
                assert(self@.rels[at as int] == self.rels@[at as int].shown());
                match &self.rels[at].storage {
                    Some(storage) => Some(storage),
                    None => None,
                }
            },
            None => None,
        }
    }

    /// Says where a relationship table is stored.
    pub fn set_rel_storage(&mut self, name: &str, storage: RelStorage) -> (result: DevonResult<()>)
        ensures
            match result {
                Ok(()) => rel_of(old(self)@, name@) is Some && final(self)@ == with_rel_storage(
                    old(self)@,
                    name@,
                    storage@,
                ),
                Err(error) => rel_of(old(self)@, name@) is None && error.kind_of()
                    == ErrorKind::NotFound && final(self)@ == old(self)@,
            },
    {
        match self.find_rel(name) {
            Some(at) => {
                let ghost before = self@;
                let ghost shown = storage@;
                let old_entry: RelEntry = self.rels.remove(at);
                self.rels.insert(at, RelEntry { schema: old_entry.schema, storage: Some(storage) });
                proof {
                    let want = with_rel_storage(before, name@, shown);
                    assert(before.rels[at as int].schema == old_entry.schema@);
                    assert(self@.rels =~= want.rels);
                    assert(self@.nodes =~= want.nodes);
                }
                Ok(())
            },
            None => Err(not_found(with_name("relationship table `", name, "`").as_str())),
        }
    }

    /// Says where a node table's groups are stored.
    pub fn set_table_groups(&mut self, name: &str, groups: Vec<u64>) -> (result: DevonResult<()>)
        ensures
            match result {
                Ok(()) => node_of(old(self)@, name@) is Some && final(self)@ == with_groups(
                    old(self)@,
                    name@,
                    groups@,
                ),
                Err(error) => node_of(old(self)@, name@) is None && error.kind_of()
                    == ErrorKind::NotFound && final(self)@ == old(self)@,
            },
    {
        match self.find_node(name) {
            Some(at) => {
                let ghost before = self@;
                let ghost shown = groups@;
                let old_entry: NodeEntry = self.nodes.remove(at);
                self.nodes.insert(at, NodeEntry { schema: old_entry.schema, groups, stored: true });
                proof {
                    let want = with_groups(before, name@, shown);
                    assert(before.nodes[at as int].schema == old_entry.schema@);
                    assert(self@.nodes =~= want.nodes);
                    assert(self@.rels =~= want.rels);
                }
                Ok(())
            },
            None => Err(not_found(with_name("node table `", name, "`").as_str())),
        }
    }
}

} // verus!
