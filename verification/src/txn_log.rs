//! Transactions in the log: their records, the order of these, and how they
//! are grouped when they are read back.

use vstd::prelude::*;

use crate::error::{corrupt, invalid_argument, DevonError, DevonResult, ErrorKind};
use crate::node_table;
use crate::node_table::primary_key_column;
use crate::order;
use crate::order::{standing, Standing};
use crate::overlay::{RelEndpointTombstones, TombstonesView};
use crate::picked;
use crate::schema::{NodeSchemaView, NodeTableSchema, RelSchemaView, RelTableSchema};
use crate::text::{with_name, with_number};
use crate::text;
use crate::types;
use crate::types::{duplicate_values, LogicalType, Value, ValueView};

verus! {

broadcast use vstd::std_specs::btree::group_btree_axioms;

/// The end of a relationship that a tombstone is about.
#[derive(Debug, Clone, Copy, PartialEq, Eq, PartialOrd, Ord, Structural)]
pub enum RelEndpoint {
    From,
    To,
}

/// A schema change.
#[derive(Debug, PartialEq, Eq)]
pub enum DdlPayload {
    CreateNodeTable(NodeTableSchema),
    CreateRelTable(RelTableSchema),
}

/// What a schema change says.
pub enum DdlView {
    CreateNodeTable(NodeSchemaView),
    CreateRelTable(RelSchemaView),
}

impl View for DdlPayload {
    type V = DdlView;

    open spec fn view(&self) -> DdlView {
        match self {
            DdlPayload::CreateNodeTable(schema) => DdlView::CreateNodeTable(schema@),
            DdlPayload::CreateRelTable(schema) => DdlView::CreateRelTable(schema@),
        }
    }
}

impl DdlPayload {
    /// A copy.
    pub fn duplicate(&self) -> (copy: DdlPayload)
        ensures
            copy@ == self@,
    {
        match self {
            DdlPayload::CreateNodeTable(schema) => DdlPayload::CreateNodeTable(schema.duplicate()),
            DdlPayload::CreateRelTable(schema) => DdlPayload::CreateRelTable(schema.duplicate()),
        }
    }
}

/// Whether a schema change can be: a node table has a primary key, and it is
/// an Int64 or a String.
pub open spec fn ddl_lawful(change: DdlView) -> bool {
    match change {
        DdlView::CreateNodeTable(schema) => match node_table::key_column(schema.columns, 0) {
            Some(at) => schema.columns[at as int].ty is Int64 || schema.columns[at as int].ty
                is String,
            None => false,
        },
        DdlView::CreateRelTable(_) => true,
    }
}

/// Checks the schema of a schema change that was read back.
pub fn validate_ddl_schema(change: &DdlPayload) -> (result: DevonResult<()>)
    ensures
        match result {
            Ok(()) => ddl_lawful(change@),
            Err(error) => !ddl_lawful(change@) && error.kind_of() == ErrorKind::Corrupt,
        },
{
    match change {
        DdlPayload::CreateNodeTable(schema) => match primary_key_column(&schema.columns) {
            Some(at) => {
                assert(schema@.columns[at as int] == schema.columns@[at as int]@);
                match schema.columns[at].ty {
                    LogicalType::Int64 => Ok(()),
                    LogicalType::String => Ok(()),
                    other => Err(
                        corrupt(
                            with_name(
                                "DDL WAL payload has an invalid schema: primary key must be Int64 or String, found ",
                                other.name(),
                                "",
                            ).as_str(),
                        ),
                    ),
                }
            },
            None => Err(
                corrupt(
                    with_name(
                        "DDL WAL payload has an invalid schema: node table `",
                        schema.name.as_str(),
                        "` has no primary key",
                    ).as_str(),
                ),
            ),
        },
        DdlPayload::CreateRelTable(_) => Ok(()),
    }
}

/// A record of the log.
#[derive(Debug, PartialEq, Eq)]
pub enum WalPayload {
    NodeInsert { table: String, row: Vec<Value> },
    RelInsert { rel: String, from: u64, to: u64, values: Vec<Value> },
    NodeUpdate { table: String, row: Vec<Value> },
    RelDelete { rel: String, endpoint: RelEndpoint, offset: u64 },
    NodeDelete { table: String, key: Value },
    Ddl(DdlPayload),
    Commit { records: u64 },
}

/// What a record says.
pub enum PayloadView {
    NodeInsert { table: Seq<char>, row: Seq<ValueView> },
    RelInsert { rel: Seq<char>, from: u64, to: u64, values: Seq<ValueView> },
    NodeUpdate { table: Seq<char>, row: Seq<ValueView> },
    RelDelete { rel: Seq<char>, endpoint: RelEndpoint, offset: u64 },
    NodeDelete { table: Seq<char>, key: ValueView },
    Ddl(DdlView),
    Commit { records: u64 },
}

impl View for WalPayload {
    type V = PayloadView;

    open spec fn view(&self) -> PayloadView {
        match self {
            WalPayload::NodeInsert { table, row } => PayloadView::NodeInsert {
                table: table@,
                row: types::views(row@),
            },
            WalPayload::RelInsert { rel, from, to, values } => PayloadView::RelInsert {
                rel: rel@,
                from: *from,
                to: *to,
                values: types::views(values@),
            },
            WalPayload::NodeUpdate { table, row } => PayloadView::NodeUpdate {
                table: table@,
                row: types::views(row@),
            },
            WalPayload::RelDelete { rel, endpoint, offset } => PayloadView::RelDelete {
                rel: rel@,
                endpoint: *endpoint,
                offset: *offset,
            },
            WalPayload::NodeDelete { table, key } => PayloadView::NodeDelete {
                table: table@,
                key: key@,
            },
            WalPayload::Ddl(ddl) => PayloadView::Ddl(ddl@),
            WalPayload::Commit { records } => PayloadView::Commit { records: *records },
        }
    }
}

/// What records say.
pub open spec fn payloads(records: Seq<WalPayload>) -> Seq<PayloadView> {
    records.map_values(|record: WalPayload| record@)
}

impl WalPayload {
    /// A copy.
    pub fn duplicate(&self) -> (copy: WalPayload)
        ensures
            copy@ == self@,
    {
        match self {
            WalPayload::NodeInsert { table, row } => WalPayload::NodeInsert {
                table: table.clone(),
                row: duplicate_values(row.as_slice()),
            },
            WalPayload::RelInsert { rel, from, to, values } => WalPayload::RelInsert {
                rel: rel.clone(),
                from: *from,
                to: *to,
                values: duplicate_values(values.as_slice()),
            },
            WalPayload::NodeUpdate { table, row } => WalPayload::NodeUpdate {
                table: table.clone(),
                row: duplicate_values(row.as_slice()),
            },
            WalPayload::RelDelete { rel, endpoint, offset } => WalPayload::RelDelete {
                rel: rel.clone(),
                endpoint: *endpoint,
                offset: *offset,
            },
            WalPayload::NodeDelete { table, key } => WalPayload::NodeDelete {
                table: table.clone(),
                key: key.duplicate(),
            },
            WalPayload::Ddl(ddl) => WalPayload::Ddl(ddl.duplicate()),
            WalPayload::Commit { records } => WalPayload::Commit { records: *records },
        }
    }
}

/// A record that a transaction committed.
#[derive(Debug, PartialEq, Eq)]
pub struct CommittedRecord {
    /// The log position of the transaction's commit.
    pub begin_lsn: u64,
    pub payload: WalPayload,
}

/// A transaction read back from the log.
#[derive(Debug, PartialEq, Eq)]
pub struct CommittedGroup {
    /// The log position of the commit record.
    pub commit_lsn: u64,
    pub records: Vec<CommittedRecord>,
}

/// What a transaction says: where it committed, and its records, each with
/// the position it carries.
#[verifier::ext_equal]
pub struct GroupView {
    pub commit_lsn: u64,
    pub records: Seq<(u64, PayloadView)>,
}

/// What committed records say.
pub open spec fn stamped_of(records: Seq<CommittedRecord>) -> Seq<(u64, PayloadView)> {
    records.map_values(|record: CommittedRecord| (record.begin_lsn, record.payload@))
}

impl View for CommittedGroup {
    type V = GroupView;

    open spec fn view(&self) -> GroupView {
        GroupView { commit_lsn: self.commit_lsn, records: stamped_of(self.records@) }
    }
}

/// What transactions say.
pub open spec fn groups_of(groups: Seq<CommittedGroup>) -> Seq<GroupView> {
    groups.map_values(|group: CommittedGroup| group@)
}

/// Whether the bits of a double are neither infinite nor no number.
pub open spec fn finite_double(bits: u64) -> bool {
    (bits / 0x0010_0000_0000_0000) % 0x800 != 0x7ff
}

/// Whether the bits of a single are neither infinite nor no number.
pub open spec fn finite_single(bits: u32) -> bool {
    (bits / 0x0080_0000) % 0x100 != 0xff
}

/// Whether the bits of singles are all neither infinite nor no number.
pub open spec fn finite_singles(elements: Seq<u32>) -> bool {
    forall|i: int| 0 <= i < elements.len() ==> finite_single(#[trigger] elements[i])
}

/// Whether a value's numbers are finite.
pub open spec fn is_finite(value: ValueView) -> bool {
    match value {
        ValueView::Float64(bits) => finite_double(bits),
        ValueView::Vector(elements) => finite_singles(elements),
        _ => true,
    }
}

/// Whether the numbers of all values are finite.
pub open spec fn all_finite(values: Seq<ValueView>) -> bool {
    forall|i: int| 0 <= i < values.len() ==> is_finite(#[trigger] values[i])
}

/// Whether a record can be written: its numbers are finite, and a commit
/// counts at least one record.
pub open spec fn is_writable(record: PayloadView) -> bool {
    match record {
        PayloadView::NodeInsert { table: _, row } => all_finite(row),
        PayloadView::RelInsert { rel: _, from: _, to: _, values } => all_finite(values),
        PayloadView::NodeUpdate { table: _, row } => all_finite(row),
        PayloadView::NodeDelete { table: _, key } => is_finite(key),
        PayloadView::Commit { records } => records > 0,
        _ => true,
    }
}

/// A double is finite exactly where not all of its eleven exponent bits are set.
pub proof fn law_finite_doubles(bits: u64)
    ensures
        finite_double(bits) <==> bits & 0x7ff0_0000_0000_0000 != 0x7ff0_0000_0000_0000,
        finite_double(bits) <==> bits & 0x7fff_ffff_ffff_ffff < 0x7ff0_0000_0000_0000,
{
    assert(((bits / 0x0010_0000_0000_0000) % 0x800 != 0x7ff) <==> bits & 0x7ff0_0000_0000_0000
        != 0x7ff0_0000_0000_0000) by (bit_vector);
    assert(((bits / 0x0010_0000_0000_0000) % 0x800 != 0x7ff) <==> bits & 0x7fff_ffff_ffff_ffff
        < 0x7ff0_0000_0000_0000) by (bit_vector);
}

/// A single is finite exactly where not all of its eight exponent bits are set.
pub proof fn law_finite_singles(bits: u32)
    ensures
        finite_single(bits) <==> bits & 0x7f80_0000 != 0x7f80_0000,
        finite_single(bits) <==> bits & 0x7fff_ffff < 0x7f80_0000,
{
    assert(((bits / 0x0080_0000) % 0x100 != 0xff) <==> bits & 0x7f80_0000 != 0x7f80_0000)
        by (bit_vector);
    assert(((bits / 0x0080_0000) % 0x100 != 0xff) <==> bits & 0x7fff_ffff < 0x7f80_0000)
        by (bit_vector);
}

/// Whether a value is a double whose exponent bits are all set, or a vector with a single of which
/// that is so.
pub open spec fn has_infinite_bits(value: ValueView) -> bool {
    ||| value matches ValueView::Float64(bits) && bits & 0x7ff0_0000_0000_0000
        == 0x7ff0_0000_0000_0000
    ||| value matches ValueView::Vector(elements) && exists|i: int|
        0 <= i < elements.len() && (#[trigger] elements[i]) & 0x7f80_0000 == 0x7f80_0000
}

/// A record is written unless one of its values is infinite or no number; a commit is unless it
/// counts nothing. Nothing else is refused.
pub proof fn law_only_infinite_values_are_refused(record: PayloadView)
    ensures
        record matches PayloadView::NodeInsert { table, row } ==> (is_writable(record) <==> forall|
            i: int,
        |
            0 <= i < row.len() ==> !has_infinite_bits(#[trigger] row[i])),
        record matches PayloadView::NodeUpdate { table, row } ==> (is_writable(record) <==> forall|
            i: int,
        |
            0 <= i < row.len() ==> !has_infinite_bits(#[trigger] row[i])),
        record matches PayloadView::RelInsert { rel, from, to, values } ==> (is_writable(record)
            <==> forall|i: int|
            0 <= i < values.len() ==> !has_infinite_bits(#[trigger] values[i])),
        record matches PayloadView::NodeDelete { table, key } ==> (is_writable(record)
            <==> !has_infinite_bits(key)),
        record matches PayloadView::Commit { records } ==> (is_writable(record) <==> records != 0),
        record is RelDelete || record is Ddl ==> is_writable(record),
{
    assert forall|value: ValueView| #[trigger] is_finite(value) <==> !has_infinite_bits(value) by {
        match value {
            ValueView::Float64(bits) => {
                law_finite_doubles(bits);
            },
            ValueView::Vector(elements) => {
                assert forall|i: int| 0 <= i < elements.len() implies (finite_single(
                    #[trigger] elements[i],
                ) <==> elements[i] & 0x7f80_0000 != 0x7f80_0000) by {
                    law_finite_singles(elements[i]);
                }
            },
            _ => {},
        }
    }
    match record {
        PayloadView::NodeInsert { table, row } => {
            assert(forall|i: int| 0 <= i < row.len() ==> (is_finite(#[trigger] row[i])
                <==> !has_infinite_bits(row[i])));
        },
        PayloadView::NodeUpdate { table, row } => {
            assert(forall|i: int| 0 <= i < row.len() ==> (is_finite(#[trigger] row[i])
                <==> !has_infinite_bits(row[i])));
        },
        PayloadView::RelInsert { rel, from, to, values } => {
            assert(forall|i: int| 0 <= i < values.len() ==> (is_finite(#[trigger] values[i])
                <==> !has_infinite_bits(values[i])));
        },
        _ => {},
    }
}

/// Where the kind of a record stands in a transaction.
pub open spec fn phase(record: PayloadView) -> nat {
    match record {
        PayloadView::Ddl(_) => 0,
        PayloadView::NodeInsert { .. } => 1,
        PayloadView::RelInsert { .. } => 2,
        PayloadView::NodeUpdate { .. } => 3,
        PayloadView::RelDelete { .. } => 4,
        PayloadView::NodeDelete { .. } => 5,
        PayloadView::Commit { .. } => 6,
    }
}

/// The table that orders a record among those of its kind, for the kinds
/// that are ordered by table.
pub open spec fn ordering_table(record: PayloadView) -> Option<Seq<char>> {
    match record {
        PayloadView::NodeInsert { table, row: _ } => Some(table),
        PayloadView::RelInsert { rel, from: _, to: _, values: _ } => Some(rel),
        PayloadView::RelDelete { rel, endpoint: _, offset: _ } => Some(rel),
        _ => None,
    }
}

/// Whether a name stands before another, bytewise.
pub open spec fn name_less(a: Seq<char>, b: Seq<char>) -> bool {
    order::lex_less(vstd::utf8::encode_utf8(a), vstd::utf8::encode_utf8(b))
}

/// Whether one record may stand before another: kinds do not go back, tables
/// do not go back among records of a kind that is ordered by table, and no
/// endpoint is deleted twice.
pub open spec fn in_order(a: PayloadView, b: PayloadView) -> bool {
    &&& phase(a) <= phase(b)
    &&& phase(a) == phase(b) && ordering_table(a) is Some ==> !name_less(
        ordering_table(b)->Some_0,
        ordering_table(a)->Some_0,
    )
    &&& a is RelDelete ==> a != b
}

/// Whether records are in the order of a transaction: DDL, node inserts by
/// table, relationship inserts by table, node updates, relationship deletes
/// by table and without repetition, node deletes; no commit.
pub open spec fn ordered(records: Seq<PayloadView>) -> bool {
    &&& forall|i: int| 0 <= i < records.len() ==> !((#[trigger] records[i]) is Commit)
    &&& forall|i: int, j: int|
        0 <= i < j < records.len() ==> in_order(#[trigger] records[i], #[trigger] records[j])
}

fn finite_value(value: &Value) -> (finite: bool)
    ensures
        finite == is_finite(value@),
{
    match value {
        Value::Float64(bits) => (*bits / 0x0010_0000_0000_0000) % 0x800 != 0x7ff,
        Value::Vector(elements) => {
            let mut i: usize = 0;
            while i < elements.len()
                invariant
                    i <= elements@.len(),
                    value@ == ValueView::Vector(elements@),
                    forall|j: int| 0 <= j < i ==> finite_single(#[trigger] elements@[j]),
                decreases elements@.len() - i,
            {
                if (elements[i] / 0x0080_0000) % 0x100 == 0xff {
                    proof {
                        let shown = elements@;
                        assert(!finite_single(shown[i as int]));
                        assert(!finite_singles(shown));
                    }
                    return false;
                }
                i += 1;
            }
            true
        },
        _ => true,
    }
}

fn finite_values(table: &str, table_kind: &str, values: &Vec<Value>) -> (result: DevonResult<()>)
    ensures
        match result {
            Ok(()) => all_finite(types::views(values@)),
            Err(error) => !all_finite(types::views(values@)) && error.kind_of()
                == ErrorKind::InvalidArgument,
        },
{
    let ghost shown = types::views(values@);
    let mut i: usize = 0;
    while i < values.len()
        invariant
            i <= values@.len(),
            shown == types::views(values@),
            forall|j: int| 0 <= j < i ==> is_finite(#[trigger] shown[j]),
        decreases values@.len() - i,
    {
        assert(shown[i as int] == values@[i as int]@);
        if !finite_value(&values[i]) {
            return Err(not_finite(table, table_kind, &values[i]));
        }
        i += 1;
    }
    Ok(())
}

fn not_finite(table: &str, table_kind: &str, value: &Value) -> (error: DevonError)
    ensures
        error.kind_of() == ErrorKind::InvalidArgument,
{
    let head: String = with_name(table_kind, " table `", table);
    let kind: &str = match value {
        Value::Vector(_) => "Vector",
        _ => "Float64",
    };
    let middle: String = with_name(head.as_str(), "` contains a non-finite ", kind);
    invalid_argument(with_name(middle.as_str(), " value", "").as_str())
}

/// Whether a record can be written.
pub fn validate_payload(payload: &WalPayload) -> (result: DevonResult<()>)
    ensures
        match result {
            Ok(()) => is_writable(payload@),
            Err(error) => !is_writable(payload@) && error.kind_of() == ErrorKind::InvalidArgument,
        },
{
    match payload {
        WalPayload::NodeInsert { table, row } => finite_values(table.as_str(), "node", row),
        WalPayload::RelInsert { rel, from: _, to: _, values } => finite_values(
            rel.as_str(),
            "relationship",
            values,
        ),
        WalPayload::NodeUpdate { table, row } => finite_values(table.as_str(), "node", row),
        WalPayload::NodeDelete { table, key } => {
            if finite_value(key) {
                Ok(())
            } else {
                Err(not_finite(table.as_str(), "node", key))
            }
        },
        WalPayload::Commit { records } => {
            if *records == 0 {
                Err(invalid_argument("commit WAL payload must name at least one record"))
            } else {
                Ok(())
            }
        },
        _ => Ok(()),
    }
}

/// The count of a commit record that was read back.
pub fn commit_count(records: u64) -> (result: DevonResult<WalPayload>)
    ensures
        match result {
            Ok(payload) => records > 0 && payload@ == (PayloadView::Commit { records }),
            Err(error) => records == 0 && error.kind_of() == ErrorKind::Corrupt,
        },
{
    if records == 0 {
        Err(corrupt("commit WAL payload must name at least one record"))
    } else {
        Ok(WalPayload::Commit { records })
    }
}

/// Not standing before is transitive.
proof fn lemma_not_less(a: Seq<char>, b: Seq<char>, c: Seq<char>)
    requires
        !name_less(b, a),
        !name_less(c, b),
    ensures
        !name_less(c, a),
{
    let x = vstd::utf8::encode_utf8(a);
    let y = vstd::utf8::encode_utf8(b);
    let z = vstd::utf8::encode_utf8(c);
    order::lemma_lex_total(x, y);
    order::lemma_lex_total(y, z);
    if order::lex_less(z, x) {
        if x == y {
        } else if y == z {
        } else {
            order::lemma_lex_transitive(x, y, z);
            order::lemma_lex_transitive(x, z, x);
            order::lemma_lex_irreflexive(x);
        }
    }
}

/// Names that stand neither before nor behind each other are equal.
proof fn lemma_names_equal(a: Seq<char>, b: Seq<char>)
    requires
        !name_less(a, b),
        !name_less(b, a),
    ensures
        a == b,
{
    order::lemma_lex_total(vstd::utf8::encode_utf8(a), vstd::utf8::encode_utf8(b));
    vstd::utf8::encode_utf8_decode_utf8(a);
    vstd::utf8::encode_utf8_decode_utf8(b);
}

fn stands_before(a: &str, b: &str) -> (before: bool)
    ensures
        before == name_less(a@, b@),
{
    match standing(a.as_bytes(), b.as_bytes()) {
        Standing::Before => true,
        Standing::Same => {
            proof {
                order::lemma_lex_irreflexive(vstd::utf8::encode_utf8(a@));
            }
            false
        },
        Standing::After => {
            proof {
                let x = vstd::utf8::encode_utf8(a@);
                let y = vstd::utf8::encode_utf8(b@);
                if order::lex_less(x, y) {
                    order::lemma_lex_transitive(x, y, x);
                    order::lemma_lex_irreflexive(x);
                }
            }
            false
        },
    }
}

/// What an order check remembers: the phase, the last table of the phase,
/// and the endpoints of that table that were deleted.
struct Progress {
    phase: u8,
    table: Option<String>,
    claims: RelEndpointTombstones,
}

spec fn claimed(claims: TombstonesView, endpoint: RelEndpoint, offset: u64) -> bool {
    match endpoint {
        RelEndpoint::From => claims.from.contains(offset),
        RelEndpoint::To => claims.to.contains(offset),
    }
}

spec fn is_claim(record: PayloadView, rel: Seq<char>, endpoint: RelEndpoint, offset: u64) -> bool {
    record == (PayloadView::RelDelete { rel, endpoint, offset })
}

impl Progress {
    spec fn table_of(self) -> Option<Seq<char>> {
        match self.table {
            Some(table) => Some(table@),
            None => None,
        }
    }

    /// Whether an endpoint of the remembered table was deleted.
    spec fn was_claimed(
        self,
        records: Seq<PayloadView>,
        endpoint: RelEndpoint,
        offset: u64,
    ) -> bool {
        exists|i: int|
            0 <= i < records.len() && self.table_of() is Some && is_claim(
                #[trigger] records[i],
                self.table_of()->Some_0,
                endpoint,
                offset,
            )
    }

    /// What is remembered is of the last record, no record goes behind it,
    /// and the endpoints are those that were deleted.
    spec fn follows(self, records: Seq<PayloadView>) -> bool {
        &&& records.len() == 0 ==> self.phase == 0
        &&& records.len() > 0 ==> self.phase == phase(records.last()) && self.table_of()
            == ordering_table(records.last())
        &&& forall|i: int| 0 <= i < records.len() ==> phase(#[trigger] records[i]) <= self.phase
        &&& forall|i: int|
            0 <= i < records.len() && phase(#[trigger] records[i]) == self.phase
                && ordering_table(records[i]) is Some ==> self.table_of() is Some && !name_less(
                self.table_of()->Some_0,
                ordering_table(records[i])->Some_0,
            )
        &&& forall|endpoint: RelEndpoint, offset: u64| #[trigger]
            claimed(self.claims@, endpoint, offset) <==> self.was_claimed(
                records,
                endpoint,
                offset,
            )
    }
}

/// A name does not stand before itself.
proof fn lemma_not_before_itself(name: Seq<char>)
    ensures
        !name_less(name, name),
{
    order::lemma_lex_irreflexive(vstd::utf8::encode_utf8(name));
}

/// One record more: it follows all before it.
proof fn lemma_follows(before: Progress, records: Seq<PayloadView>, record: PayloadView, k: int)
    requires
        before.follows(records),
        0 <= k < records.len(),
        before.phase <= phase(record),
        before.phase == phase(record) && ordering_table(record) is Some ==> !name_less(
            ordering_table(record)->Some_0,
            before.table_of()->Some_0,
        ),
        record is RelDelete ==> !records.contains(record),
    ensures
        in_order(records[k], record),
{
    assert(records.contains(records[k]));
    if phase(records[k]) == phase(record) && ordering_table(records[k]) is Some {
        lemma_not_less(
            ordering_table(records[k])->Some_0,
            before.table_of()->Some_0,
            ordering_table(record)->Some_0,
        );
    }
}

/// Where a record's table is not the one remembered, its endpoints were not
/// deleted before.
proof fn lemma_new_table(before: Progress, records: Seq<PayloadView>, record: PayloadView, k: int)
    requires
        before.follows(records),
        0 <= k < records.len(),
        before.phase <= phase(record),
        ordering_table(record) is Some,
        before.phase == phase(record) ==> !name_less(
            ordering_table(record)->Some_0,
            before.table_of()->Some_0,
        ),
        before.phase != phase(record) || before.table_of() != ordering_table(record),
    ensures
        !(records[k] is RelDelete) || ordering_table(records[k]) != ordering_table(record),
{
    if records[k] is RelDelete && ordering_table(records[k]) == ordering_table(record) {
        assert(phase(records[k]) == 4);
        assert(phase(records[k]) <= before.phase);
        if phase(record) == 4 {
            lemma_names_equal(ordering_table(record)->Some_0, before.table_of()->Some_0);
        }
    }
}

/// What a record is called in messages.
pub open spec fn kind_word(record: PayloadView) -> Seq<char> {
    match record {
        PayloadView::Ddl(_) => "DDL"@,
        PayloadView::NodeInsert { .. } => "node insert"@,
        PayloadView::RelInsert { .. } => "relationship insert"@,
        PayloadView::NodeUpdate { .. } => "node update"@,
        PayloadView::RelDelete { .. } => "relationship endpoint delete"@,
        PayloadView::NodeDelete { .. } => "node delete"@,
        PayloadView::Commit { .. } => "commit"@,
    }
}

/// What is said of a record behind one of a later kind.
pub open spec fn late_text(kind: Seq<char>) -> Seq<char> {
    kind
        + " appears after a later record kind; expected DDL, then node inserts, then relationship inserts, then node updates, then relationship endpoint deletes, then node deletes"@
}

/// What is said of a record behind one of a later table.
pub open spec fn misplaced_text(kind: Seq<char>, table: Seq<char>) -> Seq<char> {
    kind + " table `"@ + table + "` is out of lexicographic order"@
}

/// What is said of edges that are deleted twice.
pub open spec fn twice_text(rel: Seq<char>, endpoint: RelEndpoint, offset: u64) -> Seq<char> {
    "duplicate relationship endpoint delete claim for `"@ + rel + match endpoint {
        RelEndpoint::From => "` From offset "@,
        RelEndpoint::To => "` To offset "@,
    } + text::decimal(offset as nat)
}

/// What is wrong with a record behind others, if anything.
pub open spec fn record_fault(before: Seq<PayloadView>, record: PayloadView) -> Option<Seq<char>> {
    if record is Commit {
        Some("transaction records must not contain a commit payload"@)
    } else if before.len() > 0 && phase(record) < phase(before.last()) {
        Some(late_text(kind_word(record)))
    } else if before.len() > 0 && phase(record) == phase(before.last()) && ordering_table(
        record,
    ) is Some && ordering_table(before.last()) is Some && name_less(
        ordering_table(record)->Some_0,
        ordering_table(before.last())->Some_0,
    ) {
        Some(misplaced_text(kind_word(record), ordering_table(record)->Some_0))
    } else {
        match record {
            PayloadView::RelDelete { rel, endpoint, offset } => if before.contains(record) {
                Some(twice_text(rel, endpoint, offset))
            } else {
                None
            },
            _ => None,
        }
    }
}

/// What is wrong with the first of `n` records with which something is.
pub open spec fn order_fault(records: Seq<PayloadView>, n: nat) -> Option<Seq<char>>
    decreases n,
{
    if n == 0 {
        None
    } else {
        match order_fault(records, (n - 1) as nat) {
            Some(fault) => Some(fault),
            None => record_fault(records.subrange(0, n - 1), records[n - 1]),
        }
    }
}

/// More records do not change what the first fault is.
proof fn lemma_fault_stays(records: Seq<PayloadView>, at: nat, n: nat)
    requires
        at <= n,
        order_fault(records, at) is Some,
    ensures
        order_fault(records, n) == order_fault(records, at),
    decreases n,
{
    if at < n {
        lemma_fault_stays(records, at, (n - 1) as nat);
    }
}

fn late(kind: &str) -> (message: String)
    ensures
        message@ == late_text(kind@),
{
    let message: String = with_name(
        kind,
        " appears after a later record kind; expected DDL, then node inserts, then relationship inserts, then node updates, then relationship endpoint deletes, then node deletes",
        "",
    );
    proof {
        reveal_strlit("");
        assert(message@ =~= late_text(kind@));
    }
    message
}

fn out_of_order(kind: &str, table: &str) -> (message: String)
    ensures
        message@ == misplaced_text(kind@, table@),
{
    let head: String = with_name(kind, " table `", table);
    let message: String = with_name(head.as_str(), "` is out of lexicographic order", "");
    proof {
        reveal_strlit("");
        assert(message@ =~= misplaced_text(kind@, table@));
    }
    message
}

fn describe(record: &WalPayload) -> (found: (u8, Option<&String>, &'static str))
    ensures
        found.0 == phase(record@),
        match found.1 {
            Some(table) => ordering_table(record@) == Some(table@),
            None => ordering_table(record@) is None,
        },
        found.2@ == kind_word(record@),
{
    match record {
        WalPayload::Ddl(_) => (0, None, "DDL"),
        WalPayload::NodeInsert { table, row: _ } => (1, Some(table), "node insert"),
        WalPayload::RelInsert { rel, from: _, to: _, values: _ } => (
            2,
            Some(rel),
            "relationship insert",
        ),
        WalPayload::NodeUpdate { .. } => (3, None, "node update"),
        WalPayload::RelDelete { rel, endpoint: _, offset: _ } => (
            4,
            Some(rel),
            "relationship endpoint delete",
        ),
        WalPayload::NodeDelete { .. } => (5, None, "node delete"),
        WalPayload::Commit { .. } => (6, None, "commit"),
    }
}

fn claimed_twice(rel: &str, endpoint: RelEndpoint, offset: u64) -> (message: String)
    ensures
        message@ == twice_text(rel@, endpoint, offset),
{
    let side: &str = match endpoint {
        RelEndpoint::From => "` From offset ",
        RelEndpoint::To => "` To offset ",
    };
    let head: String = with_name(
        "duplicate relationship endpoint delete claim for `",
        rel,
        side,
    );
    let message: String = with_number(head.as_str(), offset, "");
    proof {
        reveal_strlit("");
        assert(message@ =~= twice_text(rel@, endpoint, offset));
    }
    message
}

/// What is wrong with the order of a transaction's records, if anything.
pub fn validate_record_order(records: &Vec<WalPayload>) -> (fault: Option<String>)
    ensures
        fault is None <==> ordered(payloads(records@)),
        match fault {
            Some(fault) => order_fault(payloads(records@), records@.len()) == Some(fault@),
            None => order_fault(payloads(records@), records@.len()) is None,
        },
{
    let ghost all = payloads(records@);
    let mut progress = Progress { phase: 0, table: None, claims: RelEndpointTombstones::new() };
    let mut i: usize = 0;
    while i < records.len()
        invariant
            i <= records@.len(),
            all == payloads(records@),
            forall|k: int| 0 <= k < i ==> !((#[trigger] all[k]) is Commit),
            forall|k: int, j: int|
                0 <= k < j < i ==> in_order(#[trigger] all[k], #[trigger] all[j]),
            progress.follows(all.subrange(0, i as int)),
            order_fault(all, i as nat) is None,
        decreases records@.len() - i,
    {
        let ghost part = all.subrange(0, i as int);
        let ghost next = all.subrange(0, i + 1);
        let record: &WalPayload = &records[i];
        assert(all[i as int] == record@);
        assert(next =~= part.push(record@));
        assert(forall|k: int| 0 <= k < i ==> part[k] == all[k]);
        assert(order_fault(all, (i + 1) as nat) == record_fault(part, record@));
        proof {
            if record_fault(part, record@) is Some {
                lemma_fault_stays(all, (i + 1) as nat, all.len());
            }
        }
        match record {
            WalPayload::Commit { .. } => {
                assert(all[i as int] is Commit);
                return Some(
                    "transaction records must not contain a commit payload".to_owned(),
                );
            },
            _ => {},
        }
        let (own_phase, table, kind): (u8, Option<&String>, &'static str) = describe(record);
        if own_phase < progress.phase {
            assert(!in_order(all[i - 1], all[i as int]));
            return Some(late(kind));
        }
        let mut same_table: bool = false;
        if own_phase == progress.phase {
            match (table, &progress.table) {
                (Some(table), Some(last)) => {
                    if stands_before(table.as_str(), last.as_str()) {
                        assert(!in_order(all[i - 1], all[i as int]));
                        return Some(out_of_order(kind, table.as_str()));
                    }
                    same_table = *table == *last;
                },
                _ => {},
            }
        }
        let ghost before = progress;
        if !same_table {
            let held: Option<String> = match table {
                Some(table) => Some(table.clone()),
                None => None,
            };
            progress =
            Progress { phase: own_phase, table: held, claims: RelEndpointTombstones::new() };
        }
        let ghost middle = progress;
        proof {
            assert forall|endpoint: RelEndpoint, offset: u64| #[trigger]
                claimed(middle.claims@, endpoint, offset) <==> middle.was_claimed(
                    part,
                    endpoint,
                    offset,
                ) by {
                if !same_table && middle.was_claimed(part, endpoint, offset) {
                    let k = choose|k: int|
                        0 <= k < part.len() && middle.table_of() is Some && is_claim(
                            #[trigger] part[k],
                            middle.table_of()->Some_0,
                            endpoint,
                            offset,
                        );
                    lemma_new_table(before, part, record@, k);
                } else if same_table {
                    assert(before.was_claimed(part, endpoint, offset) == middle.was_claimed(
                        part,
                        endpoint,
                        offset,
                    ));
                }
            }
        }
        let mut twice: bool = false;
        match record {
            WalPayload::RelDelete { rel, endpoint, offset } => {
                match endpoint {
                    RelEndpoint::From => {
                        twice = !progress.claims.from_offsets.insert(*offset);
                    },
                    RelEndpoint::To => {
                        twice = !progress.claims.to_offsets.insert(*offset);
                    },
                }
                assert(twice == claimed(middle.claims@, *endpoint, *offset));
                if twice {
                    proof {
                        let k = choose|k: int|
                            0 <= k < part.len() && middle.table_of() is Some && is_claim(
                                #[trigger] part[k],
                                middle.table_of()->Some_0,
                                *endpoint,
                                *offset,
                            );
                        assert(middle.was_claimed(part, *endpoint, *offset));
                        assert(all[k] == part[k]);
                        assert(!in_order(all[k], all[i as int]));
                        assert(part[k] == record@);
                        assert(part.contains(record@));
                    }
                    return Some(claimed_twice(rel.as_str(), *endpoint, *offset));
                }
                proof {
                    if part.contains(record@) {
                        let k = part.index_of(record@);
                        assert(is_claim(
                            part[k],
                            middle.table_of()->Some_0,
                            *endpoint,
                            *offset,
                        ));
                        assert(middle.was_claimed(part, *endpoint, *offset));
                    }
                }
            },
            _ => {},
        }
        proof {
            assert forall|k: int| 0 <= k < i implies in_order(#[trigger] all[k], all[i as int]) by {
                assert(part[k] == all[k]);
                lemma_follows(before, part, record@, k);
            }
            assert forall|endpoint: RelEndpoint, offset: u64| #[trigger]
                claimed(progress.claims@, endpoint, offset) <==> progress.was_claimed(
                    next,
                    endpoint,
                    offset,
                ) by {
                assert(claimed(middle.claims@, endpoint, offset) <==> middle.was_claimed(
                    part,
                    endpoint,
                    offset,
                ));
                if middle.was_claimed(part, endpoint, offset) {
                    let k = choose|k: int|
                        0 <= k < part.len() && middle.table_of() is Some && is_claim(
                            #[trigger] part[k],
                            middle.table_of()->Some_0,
                            endpoint,
                            offset,
                        );
                    assert(next[k] == part[k]);
                    assert(progress.was_claimed(next, endpoint, offset));
                }
                if progress.was_claimed(next, endpoint, offset) {
                    let k = choose|k: int|
                        0 <= k < next.len() && progress.table_of() is Some && is_claim(
                            #[trigger] next[k],
                            progress.table_of()->Some_0,
                            endpoint,
                            offset,
                        );
                    if k < part.len() {
                        assert(part[k] == next[k]);
                        assert(middle.was_claimed(part, endpoint, offset));
                    } else {
                        assert(next[k] == record@);
                    }
                }
                if record@ is RelDelete && is_claim(
                    record@,
                    progress.table_of()->Some_0,
                    endpoint,
                    offset,
                ) {
                    assert(next[i as int] == record@);
                    assert(progress.was_claimed(next, endpoint, offset));
                }
            }
            assert forall|k: int|
                0 <= k < next.len() && phase(#[trigger] next[k]) == progress.phase
                    && ordering_table(next[k]) is Some implies progress.table_of() is Some
                && !name_less(
                progress.table_of()->Some_0,
                ordering_table(next[k])->Some_0,
            ) by {
                if k < part.len() {
                    assert(next[k] == part[k]);
                    if before.phase == progress.phase {
                        lemma_not_less(
                            ordering_table(next[k])->Some_0,
                            before.table_of()->Some_0,
                            progress.table_of()->Some_0,
                        );
                    }
                } else {
                    lemma_not_before_itself(progress.table_of()->Some_0);
                }
            }
            assert forall|k: int| 0 <= k < next.len() implies phase(#[trigger] next[k])
                <= progress.phase by {
                if k < part.len() {
                    assert(next[k] == part[k]);
                }
            }
            assert(next.last() == record@);
        }
        i += 1;
    }
    assert(all.subrange(0, all.len() as int) =~= all);
    None
}

/// Whether all records can be written.
pub open spec fn all_writable(records: Seq<PayloadView>) -> bool {
    forall|i: int| 0 <= i < records.len() ==> is_writable(#[trigger] records[i])
}

/// The records of a transaction as the log holds them: behind them their
/// commit.
pub fn encode_transaction(records: &Vec<WalPayload>) -> (result: DevonResult<Vec<WalPayload>>)
    ensures
        ({
            let all = payloads(records@);
            let accepted = all.len() > 0 && ordered(all) && all_writable(all);
            match result {
                Ok(frames) => accepted && payloads(frames@) == all.push(
                    (PayloadView::Commit { records: records@.len() as u64 }),
                ),
                Err(error) => {
                    &&& !accepted
                    &&& error.kind_of() == ErrorKind::InvalidArgument
                    &&& order_fault(all, all.len()) matches Some(fault) ==> error.text_of()
                        == fault
                },
            }
        }),
{
    if records.len() == 0 {
        return Err(invalid_argument("empty transactions do not write WAL records"));
    }
    match validate_record_order(records) {
        None => {},
        Some(fault) => {
            return Err(invalid_argument(fault.as_str()));
        },
    }
    let ghost all = payloads(records@);
    let mut frames: Vec<WalPayload> = Vec::new();
    let mut i: usize = 0;
    while i < records.len()
        invariant
            i <= records@.len(),
            all == payloads(records@),
            order_fault(all, all.len()) is None,
            frames@.len() == i,
            forall|k: int| 0 <= k < i ==> (#[trigger] frames@[k])@ == all[k],
            forall|k: int| 0 <= k < i ==> is_writable(#[trigger] all[k]),
        decreases records@.len() - i,
    {
        assert(all[i as int] == records@[i as int]@);
        match validate_payload(&records[i]) {
            Ok(()) => {},
            Err(error) => {
                return Err(error);
            },
        }
        frames.push(records[i].duplicate());
        i += 1;
    }
    frames.push(WalPayload::Commit { records: records.len() as u64 });
    assert(payloads(frames@) =~= all.push(
        PayloadView::Commit { records: records@.len() as u64 },
    ));
    Ok(frames)
}

/// A record read back from the log: its position, and what it says or the
/// kind of error that reading it gave.
pub type ReadRecord = (u64, Result<PayloadView, ErrorKind>);

/// What records read back say.
pub open spec fn read_of(records: Seq<(u64, DevonResult<WalPayload>)>) -> Seq<ReadRecord> {
    records.map_values(
        |record: (u64, DevonResult<WalPayload>)|
            (
                record.0,
                match record.1 {
                    Ok(payload) => Ok(payload@),
                    Err(error) => Err(error.kind_of()),
                },
            ),
    )
}

/// The transactions found so far, the records behind the last commit, and
/// the position of that commit.
#[verifier::ext_equal]
pub struct GroupingView {
    pub groups: Seq<GroupView>,
    pub pending: Seq<PayloadView>,
    pub previous: Option<u64>,
}

/// Records stamped with a position.
pub open spec fn stamped(records: Seq<PayloadView>, lsn: u64) -> Seq<(u64, PayloadView)> {
    records.map_values(|record: PayloadView| (lsn, record))
}

/// Takes one record more.
pub open spec fn grouped_one(
    before: GroupingView,
    record: ReadRecord,
    checkpoint_lsn: u64,
) -> Result<GroupingView, ErrorKind> {
    match record.1 {
        Err(kind) => Err(kind),
        Ok(payload) => match payload {
            PayloadView::Commit { records } => {
                let lsn = record.0;
                if before.previous matches Some(previous) && lsn <= previous {
                    Err(ErrorKind::Corrupt)
                } else if lsn <= checkpoint_lsn {
                    Ok(GroupingView { pending: Seq::empty(), previous: Some(lsn), ..before })
                } else if records != before.pending.len() || !ordered(before.pending) {
                    Err(ErrorKind::Corrupt)
                } else {
                    Ok(
                        GroupingView {
                            groups: before.groups.push(
                                GroupView {
                                    commit_lsn: lsn,
                                    records: stamped(before.pending, lsn),
                                },
                            ),
                            pending: Seq::empty(),
                            previous: Some(lsn),
                        },
                    )
                }
            },
            _ => Ok(GroupingView { pending: before.pending.push(payload), ..before }),
        },
    }
}

/// Takes the first `n` records.
pub open spec fn grouped(
    records: Seq<ReadRecord>,
    checkpoint_lsn: u64,
    n: nat,
) -> Result<GroupingView, ErrorKind>
    decreases n,
{
    if n == 0 {
        Ok(GroupingView { groups: Seq::empty(), pending: Seq::empty(), previous: None })
    } else {
        match grouped(records, checkpoint_lsn, (n - 1) as nat) {
            Err(kind) => Err(kind),
            Ok(before) => grouped_one(before, records[n - 1], checkpoint_lsn),
        }
    }
}

/// Once a record is refused, more records do not change that.
proof fn lemma_grouping_fails(
    records: Seq<ReadRecord>,
    checkpoint_lsn: u64,
    at: nat,
    n: nat,
)
    requires
        at <= n,
        grouped(records, checkpoint_lsn, at) is Err,
    ensures
        grouped(records, checkpoint_lsn, n) == grouped(records, checkpoint_lsn, at),
    decreases n,
{
    if at < n {
        lemma_grouping_fails(records, checkpoint_lsn, at, (n - 1) as nat);
    }
}

/// What is said of a corrupt record: its position, and what was wrong.
pub open spec fn payload_text(lsn: u64, fault: Seq<char>) -> Seq<char> {
    "WAL payload at LSN "@ + text::decimal(lsn as nat) + ": "@ + fault
}

/// What is said of a commit that does not follow the one before: the
/// positions of both.
pub open spec fn descent_text(previous: u64, current: u64) -> Seq<char> {
    "WAL commit LSNs must strictly ascend across groups: previous commit LSN "@ + text::decimal(
        previous as nat,
    ) + ", current commit LSN "@ + text::decimal(current as nat)
}

/// What is said of a commit that counts its records wrongly.
pub open spec fn count_text(lsn: u64, declared: u64, found: nat) -> Seq<char> {
    "WAL commit at LSN "@ + text::decimal(lsn as nat) + " declares "@ + text::decimal(declared as nat)
        + " records but the group contains "@ + text::decimal(found)
}

/// What is said of a commit whose records are out of order.
pub open spec fn group_text(lsn: u64, fault: Seq<char>) -> Seq<char> {
    "WAL group committed at LSN "@ + text::decimal(lsn as nat) + ": "@ + fault
}

/// What is said of a commit that is refused.
pub open spec fn refusal_says(
    before: GroupingView,
    lsn: u64,
    declared: u64,
    text: Seq<char>,
) -> bool {
    if before.previous matches Some(previous) && lsn <= previous {
        text == descent_text(before.previous->Some_0, lsn)
    } else if declared != before.pending.len() {
        text == count_text(lsn, declared, before.pending.len())
    } else {
        text == group_text(lsn, order_fault(before.pending, before.pending.len())->Some_0)
    }
}

/// Whether `error` is what grouping says of the record at a place, the first
/// that it refuses: the error names the record's position. An error that is
/// not about stored bytes is handed on as it is.
pub open spec fn refused_with(
    records: Seq<(u64, DevonResult<WalPayload>)>,
    checkpoint_lsn: u64,
    at: nat,
    error: DevonError,
) -> bool {
    &&& at < records.len()
    &&& grouped(read_of(records), checkpoint_lsn, at) is Ok
    &&& grouped(read_of(records), checkpoint_lsn, at + 1) is Err
    &&& match records[at as int].1 {
        Err(given) => if given is Corrupt {
            error is Corrupt && error.text_of() == payload_text(
                records[at as int].0,
                given.text_of(),
            )
        } else {
            error == given
        },
        Ok(payload) => payload@ is Commit && error is Corrupt && refusal_says(
            grouped(read_of(records), checkpoint_lsn, at)->Ok_0,
            records[at as int].0,
            payload@->Commit_records,
            error.text_of(),
        ),
    }
}

fn at_lsn(error: DevonError, lsn: u64) -> (named: DevonError)
    ensures
        named.kind_of() == error.kind_of(),
        if error is Corrupt {
            named.text_of() == payload_text(lsn, error.text_of())
        } else {
            named == error
        },
{
    match error {
        DevonError::Corrupt { context } => {
            let head: String = with_number("WAL payload at LSN ", lsn, ": ");
            let text: String = with_name(head.as_str(), context.as_str(), "");
            proof {
                reveal_strlit("");
                assert(text@ =~= payload_text(lsn, context@));
            }
            corrupt(text.as_str())
        },
        other => other,
    }
}

fn descends(previous: u64, current: u64) -> (error: DevonError)
    ensures
        error is Corrupt,
        error.text_of() == descent_text(previous, current),
{
    let head: String = with_number(
        "WAL commit LSNs must strictly ascend across groups: previous commit LSN ",
        previous,
        ", current commit LSN ",
    );
    let text: String = with_number(head.as_str(), current, "");
    proof {
        reveal_strlit("");
        assert(text@ =~= descent_text(previous, current));
    }
    corrupt(text.as_str())
}

fn miscounted(lsn: u64, declared: u64, found: u64) -> (error: DevonError)
    ensures
        error is Corrupt,
        error.text_of() == count_text(lsn, declared, found as nat),
{
    let head: String = with_number("WAL commit at LSN ", lsn, " declares ");
    let middle: String = with_number(
        head.as_str(),
        declared,
        " records but the group contains ",
    );
    let text: String = with_number(middle.as_str(), found, "");
    proof {
        reveal_strlit("");
        assert(text@ =~= count_text(lsn, declared, found as nat));
    }
    corrupt(text.as_str())
}

fn misordered(lsn: u64, fault: &str) -> (error: DevonError)
    ensures
        error is Corrupt,
        error.text_of() == group_text(lsn, fault@),
{
    let head: String = with_number("WAL group committed at LSN ", lsn, ": ");
    let text: String = with_name(head.as_str(), fault, "");
    proof {
        reveal_strlit("");
        assert(text@ =~= group_text(lsn, fault@));
    }
    corrupt(text.as_str())
}

fn stamp(pending: Vec<WalPayload>, lsn: u64) -> (records: Vec<CommittedRecord>)
    ensures
        stamped_of(records@) == stamped(payloads(pending@), lsn),
{
    let ghost all = payloads(pending@);
    let mut records: Vec<CommittedRecord> = Vec::new();
    let mut i: usize = 0;
    while i < pending.len()
        invariant
            i <= pending@.len(),
            all == payloads(pending@),
            records@.len() == i,
            forall|k: int|
                0 <= k < i ==> (#[trigger] records@[k]).begin_lsn == lsn && records@[k].payload@
                    == all[k],
        decreases pending@.len() - i,
    {
        records.push(CommittedRecord { begin_lsn: lsn, payload: pending[i].duplicate() });
        i += 1;
    }
    assert(stamped_of(records@) =~= stamped(all, lsn));
    records
}

/// Groups the records of the log into committed transactions. Those that
/// the checkpoint already holds are skipped, and records behind the last
/// commit are dropped.
pub fn group_transactions(records: Vec<(u64, DevonResult<WalPayload>)>, checkpoint_lsn: u64) -> (
result: DevonResult<Vec<CommittedGroup>>)
    ensures
        match (result, grouped(read_of(records@), checkpoint_lsn, records@.len())) {
            (Ok(groups), Ok(after)) => groups_of(groups@) == after.groups,
            (Err(error), Err(kind)) => error.kind_of() == kind && exists|at: nat| #[trigger]
                refused_with(records@, checkpoint_lsn, at, error),
            _ => false,
        },
{
    let ghost all = read_of(records@);
    let ghost size = records@.len();
    let mut rest: Vec<(u64, DevonResult<WalPayload>)> = records;
    let mut turned: Vec<(u64, DevonResult<WalPayload>)> = Vec::new();
    let ghost given = rest@;
    while rest.len() > 0
        invariant
            rest@.len() <= given.len(),
            rest@ == given.subrange(0, rest@.len() as int),
            turned@.len() == given.len() - rest@.len(),
            forall|k: int|
                0 <= k < turned@.len() ==> #[trigger] turned@[k] == given[given.len() - 1 - k],
        decreases rest@.len(),
    {
        match rest.pop() {
            Some(record) => {
                turned.push(record);
                assert(rest@ =~= given.subrange(0, rest@.len() as int));
            },
            None => {},
        }
    }
    let mut groups: Vec<CommittedGroup> = Vec::new();
    let mut pending: Vec<WalPayload> = Vec::new();
    let mut previous: Option<u64> = None;
    let ghost mut done: nat = 0;
    assert(groups_of(groups@) =~= Seq::empty());
    assert(payloads(pending@) =~= Seq::empty());
    while turned.len() > 0
        invariant
            size == given.len(),
            given == records@,
            all == read_of(given),
            done + turned@.len() == given.len(),
            forall|k: int|
                0 <= k < turned@.len() ==> #[trigger] turned@[k] == given[given.len() - 1 - k],
            grouped(all, checkpoint_lsn, done) == Ok::<GroupingView, ErrorKind>(
                (GroupingView {
                    groups: groups_of(groups@),
                    pending: payloads(pending@),
                    previous,
                }),
            ),
        decreases turned@.len(),
    {
        let ghost before = GroupingView {
            groups: groups_of(groups@),
            pending: payloads(pending@),
            previous,
        };
        let ghost held = turned@;
        let (lsn, payload): (u64, DevonResult<WalPayload>) = match turned.pop() {
            Some(record) => record,
            None => {
                return Ok(groups);
            },
        };
        proof {
            assert(held.last() == given[done as int]);
            assert(all[done as int] == read_of(given)[done as int]);
            if grouped_one(before, all[done as int], checkpoint_lsn) is Err {
                lemma_grouping_fails(all, checkpoint_lsn, done + 1, size);
            }
        }
        match payload {
            Err(error) => {
                let named: DevonError = at_lsn(error, lsn);
                assert(refused_with(given, checkpoint_lsn, done, named));
                return Err(named);
            },
            Ok(WalPayload::Commit { records }) => {
                match previous {
                    Some(earlier) => {
                        if lsn <= earlier {
                            let error: DevonError = descends(earlier, lsn);
                            assert(refused_with(given, checkpoint_lsn, done, error));
                            return Err(error);
                        }
                    },
                    None => {},
                }
                if lsn > checkpoint_lsn {
                    if records != pending.len() as u64 {
                        let error: DevonError = miscounted(lsn, records, pending.len() as u64);
                        assert(refused_with(given, checkpoint_lsn, done, error));
                        return Err(error);
                    }
                    match validate_record_order(&pending) {
                        None => {},
                        Some(fault) => {
                            let error: DevonError = misordered(lsn, fault.as_str());
                            assert(error.text_of() == group_text(lsn, fault@));
                            assert(refused_with(given, checkpoint_lsn, done, error));
                            return Err(error);
                        },
                    }
                    let group = CommittedGroup { commit_lsn: lsn, records: stamp(pending, lsn) };
                    let ghost shown = group@;
                    let ghost found = groups@;
                    groups.push(group);
                    assert(groups_of(groups@) =~= groups_of(found).push(shown));
                }
                pending = Vec::new();
                previous = Some(lsn);
                assert(payloads(pending@) =~= Seq::empty());
            },
            Ok(record) => {
                let ghost shown = record@;
                let ghost found = pending@;
                pending.push(record);
                assert(payloads(pending@) =~= payloads(found).push(shown));
            },
        }
        proof {
            done = done + 1;
            let after = GroupingView {
                groups: groups_of(groups@),
                pending: payloads(pending@),
                previous,
            };
            assert(grouped_one(before, all[done - 1], checkpoint_lsn)->Ok_0 =~= after);
        }
    }
    Ok(groups)
}

/// The records of a transaction in the log, each one position behind the
/// other, with their commit behind them.
pub open spec fn framed(records: Seq<PayloadView>, first_lsn: u64) -> Seq<ReadRecord> {
    records.push(PayloadView::Commit { records: records.len() as u64 }).map(
        |i: int, record: PayloadView| ((first_lsn + i) as u64, Ok(record)),
    )
}

/// The records of a transaction are pending until its commit comes.
proof fn lemma_pending(
    before: Seq<ReadRecord>,
    records: Seq<PayloadView>,
    first_lsn: u64,
    checkpoint_lsn: u64,
    n: nat,
)
    requires
        ordered(records),
        n <= records.len(),
        grouped(before, checkpoint_lsn, before.len()) is Ok,
        grouped(before, checkpoint_lsn, before.len())->Ok_0.pending.len() == 0,
    ensures
        ({
            let state = grouped(before, checkpoint_lsn, before.len())->Ok_0;
            grouped(before + framed(records, first_lsn), checkpoint_lsn, before.len() + n) == Ok::<
                GroupingView,
                ErrorKind,
            >((GroupingView { pending: records.subrange(0, n as int), ..state }))
        }),
    decreases n,
{
    let all = before + framed(records, first_lsn);
    let state = grouped(before, checkpoint_lsn, before.len())->Ok_0;
    if n == 0 {
        lemma_same_grouping(before, all, checkpoint_lsn, before.len());
        assert(state.pending =~= records.subrange(0, 0));
    } else {
        lemma_pending(before, records, first_lsn, checkpoint_lsn, (n - 1) as nat);
        assert(all[before.len() + n - 1] == framed(records, first_lsn)[n - 1]);
        assert(!(records[n - 1] is Commit));
        assert(records.subrange(0, n as int) =~= records.subrange(0, n - 1).push(records[n - 1]));
    }
}

/// Grouping looks at the records that it takes only.
proof fn lemma_same_grouping(
    a: Seq<ReadRecord>,
    b: Seq<ReadRecord>,
    checkpoint_lsn: u64,
    n: nat,
)
    requires
        n <= a.len(),
        n <= b.len(),
        forall|i: int| 0 <= i < n ==> a[i] == b[i],
    ensures
        grouped(a, checkpoint_lsn, n) == grouped(b, checkpoint_lsn, n),
    decreases n,
{
    if n > 0 {
        lemma_same_grouping(a, b, checkpoint_lsn, (n - 1) as nat);
    }
}

/// A transaction that was written is read back: behind a log that ends in a
/// commit it comes out as one group with its records, each stamped with the
/// position of its commit, where that is behind the checkpoint and the
/// commit before it.
pub proof fn law_transaction_reads_back(
    before: Seq<ReadRecord>,
    records: Seq<PayloadView>,
    first_lsn: u64,
    checkpoint_lsn: u64,
)
    requires
        ordered(records),
        records.len() > 0,
        first_lsn + records.len() <= u64::MAX,
        first_lsn + records.len() > checkpoint_lsn,
        grouped(before, checkpoint_lsn, before.len()) is Ok,
        grouped(before, checkpoint_lsn, before.len())->Ok_0.pending.len() == 0,
        grouped(before, checkpoint_lsn, before.len())->Ok_0.previous matches Some(previous)
            ==> previous < first_lsn + records.len(),
    ensures
        ({
            let state = grouped(before, checkpoint_lsn, before.len())->Ok_0;
            let all = before + framed(records, first_lsn);
            let lsn = (first_lsn + records.len()) as u64;
            grouped(all, checkpoint_lsn, all.len()) == Ok::<GroupingView, ErrorKind>(
                (GroupingView {
                    groups: state.groups.push(
                        (GroupView { commit_lsn: lsn, records: stamped(records, lsn) }),
                    ),
                    pending: Seq::empty(),
                    previous: Some(lsn),
                }),
            )
        }),
{
    let all = before + framed(records, first_lsn);
    lemma_pending(before, records, first_lsn, checkpoint_lsn, records.len());
    assert(records.subrange(0, records.len() as int) =~= records);
    assert(all.len() == before.len() + records.len() + 1);
    assert(all[all.len() - 1] == framed(records, first_lsn)[records.len() as int]);
}

/// The transactions found are those of the commits behind the checkpoint, in order, and their
/// positions ascend. Each has as many records as its commit counts, all at its position and none
/// of them a commit.
pub proof fn law_transactions_are_those_of_the_commits(
    records: Seq<ReadRecord>,
    checkpoint_lsn: u64,
)
    requires
        grouped(records, checkpoint_lsn, records.len()) is Ok,
    ensures
        ({
            let after = grouped(records, checkpoint_lsn, records.len())->Ok_0;
            let found = after.groups;
            &&& picked::gives(
                found.map_values(|group: GroupView| (group.commit_lsn, group.records.len())),
                records,
                |record: ReadRecord|
                    if record.1->Ok_0 is Commit && record.0 > checkpoint_lsn {
                        Some((record.0, record.1->Ok_0->Commit_records as nat))
                    } else {
                        None
                    },
            )
            &&& forall|i: int, j: int|
                0 <= i < j < found.len() ==> (#[trigger] found[i]).commit_lsn < (
                #[trigger] found[j]).commit_lsn
            &&& forall|i: int|
                0 <= i < found.len() ==> (after.previous matches Some(last) && (
                #[trigger] found[i]).commit_lsn <= last)
            &&& forall|i: int, k: int|
                0 <= i < found.len() && 0 <= k < found[i].records.len() ==> (
                #[trigger] found[i].records[k]).0 == found[i].commit_lsn && !(
                found[i].records[k].1 is Commit)
        }),
    decreases records.len(),
{
    let of = |record: ReadRecord|
        if record.1->Ok_0 is Commit && record.0 > checkpoint_lsn {
            Some((record.0, record.1->Ok_0->Commit_records as nat))
        } else {
            None
        };
    let shape = |group: GroupView| (group.commit_lsn, group.records.len());
    let after = grouped(records, checkpoint_lsn, records.len())->Ok_0;
    if records.len() == 0 {
        assert(after.groups.map_values(shape) =~= Seq::empty());
        picked::lemma_gives_none(records, of);
    } else {
        let rest = records.drop_last();
        let last = records.last();
        lemma_same_grouping(rest, records, checkpoint_lsn, rest.len());
        law_transactions_are_those_of_the_commits(rest, checkpoint_lsn);
        let before = grouped(rest, checkpoint_lsn, rest.len())->Ok_0;
        assert(records =~= rest.push(last));
        picked::lemma_gives_more(before.groups.map_values(shape), rest, of, last);
        if of(last) is Some {
            let added = after.groups.last();
            assert(after.groups =~= before.groups.push(added));
            assert(after.groups.map_values(shape) =~= before.groups.map_values(shape).push(
                (added.commit_lsn, added.records.len()),
            ));
            assert forall|k: int| 0 <= k < added.records.len() implies (
            #[trigger] added.records[k]).0 == added.commit_lsn && !(added.records[k].1
                is Commit) by {
                assert(added.records[k] == (last.0, before.pending[k]));
                assert(!(before.pending[k] is Commit));
            }
        } else {
            assert(after.groups == before.groups);
        }
    }
}

/// Records behind the last commit do not change the transactions found.
pub proof fn law_unterminated_records_are_dropped(
    before: Seq<ReadRecord>,
    tail: Seq<ReadRecord>,
    checkpoint_lsn: u64,
)
    requires
        grouped(before, checkpoint_lsn, before.len()) is Ok,
        forall|i: int|
            0 <= i < tail.len() ==> (#[trigger] tail[i]).1 is Ok && !(tail[i].1->Ok_0 is Commit),
    ensures
        ({
            let all = before + tail;
            &&& grouped(all, checkpoint_lsn, all.len()) is Ok
            &&& grouped(all, checkpoint_lsn, all.len())->Ok_0.groups == grouped(
                before,
                checkpoint_lsn,
                before.len(),
            )->Ok_0.groups
        }),
    decreases tail.len(),
{
    let all = before + tail;
    if tail.len() == 0 {
        assert(all =~= before);
    } else {
        let shorter = tail.drop_last();
        assert forall|i: int| 0 <= i < shorter.len() implies (#[trigger] shorter[i]).1 is Ok && !(
        shorter[i].1->Ok_0 is Commit) by {
            assert(shorter[i] == tail[i]);
        }
        law_unterminated_records_are_dropped(before, shorter, checkpoint_lsn);
        let part = before + shorter;
        lemma_same_grouping(part, all, checkpoint_lsn, part.len());
        assert(all[all.len() - 1] == tail[tail.len() - 1]);
    }
}

} // verus!
