//! Choosing a column's encoding from a sample of its rows.
//!
//! The choice is the writer's own: a reader decodes whatever a payload
//! declares. A sample of the column prices the section that each encoding
//! would yield; the encodings that beat the plain price by a quarter are
//! ranked, the cheapest first. The writer takes the first ranked encoding
//! that accepts the whole column, and plain where none does.

use vstd::prelude::*;

use crate::bits;
use crate::bits::bit_width;
use crate::bytes;
use crate::bytes::get_le;
use crate::encodings;
use crate::encodings::alp;
use crate::encodings::constant;
use crate::encodings::dictionary;
use crate::encodings::dictionary::collect_dictionary;
use crate::encodings::fsst;
use crate::encodings::Encoding;
use crate::saturating;
use crate::saturating::{plus, times};
use crate::types;
use crate::types::{text_len, Column, LogicalType, Value, ValueView};

verus! {

/// Rows before this one are always in the sample.
pub const HEAD_ROWS: usize = 256;

/// Every row at a multiple of this is in the sample.
pub const STRIDE: usize = 8;

/// Whether a row is in the sample.
pub open spec fn sampled(row: int) -> bool {
    row < HEAD_ROWS || row % STRIDE as int == 0
}

/// Whether a row is in the sample.
pub fn is_sampled(row: usize) -> (yes: bool)
    ensures
        yes == sampled(row as int),
{
    row < HEAD_ROWS || row % STRIDE == 0
}

/// The sampled rows of a column.
pub open spec fn sample_of(rows: Seq<ValueView>) -> Seq<ValueView>
    decreases rows.len(),
{
    if rows.len() == 0 {
        Seq::empty()
    } else if sampled(rows.len() - 1) {
        sample_of(rows.drop_last()).push(rows.last())
    } else {
        sample_of(rows.drop_last())
    }
}

/// A quantity of the sample scaled to the column.
pub open spec fn scaled(quantity: nat, sample_rows: nat, row_count: nat) -> nat {
    if sample_rows == 0 {
        quantity
    } else {
        saturating::capped(quantity * row_count) / sample_rows
    }
}

/// The sampled rows of one column, and how many rows the column has.
#[derive(Debug)]
pub struct Sample {
    pub values: Vec<Value>,
    pub row_count: u64,
}

impl Sample {
    /// The sampled rows.
    pub open spec fn rows(self) -> Seq<ValueView> {
        types::views(self.values@)
    }

    /// Samples a column.
    pub fn take(column: &[Value]) -> (sample: Sample)
        ensures
            sample.rows() == sample_of(types::views(column@)),
            sample.row_count == column@.len(),
    {
        let ghost rows = types::views(column@);
        let mut values: Vec<Value> = Vec::new();
        let mut row: usize = 0;
        proof {
            assert(rows.subrange(0, 0) =~= Seq::<ValueView>::empty());
            assert(types::views(values@) =~= Seq::<ValueView>::empty());
        }
        while row < column.len()
            invariant
                row <= column@.len(),
                rows == types::views(column@),
                types::views(values@) == sample_of(rows.subrange(0, row as int)),
            decreases column@.len() - row,
        {
            let ghost before = values@;
            assert(rows.subrange(0, row + 1).drop_last() =~= rows.subrange(0, row as int));
            if is_sampled(row) {
                values.push(column[row].duplicate());
                assert(types::views(values@) =~= types::views(before).push(rows[row as int]));
            }
            row += 1;
        }
        assert(rows.subrange(0, rows.len() as int) =~= rows);
        Sample { values, row_count: column.len() as u64 }
    }

    /// How many rows are in the sample.
    pub fn len(&self) -> (len: u64)
        ensures
            len == self.values@.len(),
    {
        self.values.len() as u64
    }

    /// Scales a quantity of the sample to the column.
    pub fn scale(&self, quantity: u64) -> (number: u64)
        ensures
            number == scaled(quantity as nat, self.values@.len(), self.row_count as nat),
    {
        if self.values.len() == 0 {
            return quantity;
        }
        times(quantity, self.row_count) / self.len()
    }
}

/// The bytes of the strings of the rows.
pub open spec fn text_total(rows: Seq<ValueView>) -> nat
    decreases rows.len(),
{
    if rows.len() == 0 {
        0
    } else {
        text_total(rows.drop_last()) + match rows.last() {
            ValueView::String(text) => vstd::utf8::encode_utf8(text).len(),
            _ => 0,
        }
    }
}

/// The price of the plain section; `None` for a type that only plain carries.
pub open spec fn plain_price(rows: Seq<ValueView>, row_count: nat, ty: LogicalType) -> Option<nat> {
    match ty {
        LogicalType::Bool => Some((row_count + 7) / 8),
        LogicalType::Int64 => Some(saturating::capped(row_count * 8)),
        LogicalType::Float64 => Some(saturating::capped(row_count * 8)),
        LogicalType::Timestamp => Some(saturating::capped(row_count * 8)),
        LogicalType::Decimal { .. } => Some(saturating::capped(row_count * 16)),
        LogicalType::String => Some(
            saturating::capped(
                (row_count + 1) * 4 + scaled(
                    saturating::capped(text_total(rows)),
                    rows.len(),
                    row_count,
                ),
            ),
        ),
        _ => None,
    }
}

/// The price of the plain section.
fn plain_estimate(sample: &Sample, ty: &LogicalType) -> (price: Option<u64>)
    ensures
        match price {
            Some(price) => plain_price(sample.rows(), sample.row_count as nat, *ty) == Some(
                price as nat,
            ),
            None => plain_price(sample.rows(), sample.row_count as nat, *ty) is None,
        },
{
    let row_count: u64 = sample.row_count;
    match ty {
        LogicalType::Bool => {
            let rest: u64 = if row_count % 8 == 0 {
                0
            } else {
                1
            };
            Some(row_count / 8 + rest)
        },
        LogicalType::Int64 => Some(times(row_count, 8)),
        LogicalType::Float64 => Some(times(row_count, 8)),
        LogicalType::Timestamp => Some(times(row_count, 8)),
        LogicalType::Decimal { .. } => Some(times(row_count, 16)),
        LogicalType::String => {
            let heap: u64 = heap_bytes(sample);
            Some(plus(times(plus(row_count, 1), 4), sample.scale(heap)))
        },
        _ => None,
    }
}

fn heap_bytes(sample: &Sample) -> (heap: u64)
    ensures
        heap == saturating::capped(text_total(sample.rows())),
{
    let ghost rows = sample.rows();
    let mut heap: u64 = 0;
    let mut row: usize = 0;
    assert(rows.subrange(0, 0) =~= Seq::<ValueView>::empty());
    while row < sample.values.len()
        invariant
            row <= sample.values@.len(),
            rows == sample.rows(),
            heap == saturating::capped(text_total(rows.subrange(0, row as int))),
        decreases sample.values@.len() - row,
    {
        assert(rows.subrange(0, row + 1).drop_last() =~= rows.subrange(0, row as int));
        assert(rows[row as int] == sample.values@[row as int]@);
        if let Value::String(text) = &sample.values[row] {
            heap = plus(heap, text_len(text.as_str()) as u64);
        }
        row += 1;
    }
    assert(rows.subrange(0, rows.len() as int) =~= rows);
    heap
}

/// The price of a constant section; `None` where the sample holds two values.
pub open spec fn constant_price(rows: Seq<ValueView>, ty: LogicalType) -> Option<nat> {
    if !constant::one_value(rows) {
        None
    } else {
        match ty {
            LogicalType::String => if exists|value: ValueView| #[trigger]
                constant::is_shared(rows, value) && value is String {
                let shared = choose|value: ValueView| #[trigger]
                    constant::is_shared(rows, value) && value is String;
                Some(
                    saturating::capped(4 + vstd::utf8::encode_utf8(shared->String_0).len()),
                )
            } else {
                Some(4)
            },
            LogicalType::Bool => Some(1),
            LogicalType::Int64 => Some(8),
            LogicalType::Float64 => Some(8),
            LogicalType::Timestamp => Some(8),
            LogicalType::Decimal { .. } => Some(16),
            _ => None,
        }
    }
}

fn constant_estimate(sample: &Sample, ty: &LogicalType) -> (price: Option<u64>)
    ensures
        match price {
            Some(price) => constant_price(sample.rows(), *ty) == Some(price as nat),
            None => constant_price(sample.rows(), *ty) is None,
        },
{
    let ghost rows = sample.rows();
    let mut shared: Option<usize> = None;
    let mut row: usize = 0;
    while row < sample.values.len()
        invariant
            row <= sample.values@.len(),
            rows == sample.rows(),
            match shared {
                None => forall|i: int| 0 <= i < row ==> #[trigger] rows[i] == ValueView::Null,
                Some(at) => {
                    &&& at < row
                    &&& rows[at as int] != ValueView::Null
                    &&& forall|i: int|
                        0 <= i < row ==> #[trigger] rows[i] == ValueView::Null || rows[i]
                            == rows[at as int]
                },
            },
        decreases sample.values@.len() - row,
    {
        let value: &Value = &sample.values[row];
        assert(rows[row as int] == value@);
        let null: bool = match value {
            Value::Null => true,
            _ => false,
        };
        if !null {
            match shared {
                None => {
                    shared = Some(row);
                },
                Some(at) => {
                    assert(rows[at as int] == sample.values@[at as int]@);
                    if !sample.values[at].same(value) {
                        assert(!constant::one_value(rows));
                        return None;
                    }
                },
            }
        }
        row += 1;
    }
    proof {
        match shared {
            None => {
                assert(constant::one_value(rows));
                assert forall|value: ValueView| !#[trigger] constant::is_shared(rows, value) by {}
            },
            Some(at) => {
                assert(constant::one_value(rows));
                assert(constant::is_shared(rows, rows[at as int]));
                assert forall|value: ValueView| #[trigger]
                    constant::is_shared(rows, value) implies value == rows[at as int] by {}
                assert(rows[at as int] == sample.values@[at as int]@);
            },
        }
    }
    match ty {
        LogicalType::String => {
            if let Some(at) = shared {
                if let Value::String(text) = &sample.values[at] {
                    return Some(plus(4, text_len(text.as_str()) as u64));
                }
            }
            Some(4)
        },
        LogicalType::Bool => Some(1),
        LogicalType::Int64 => Some(8),
        LogicalType::Float64 => Some(8),
        LogicalType::Timestamp => Some(8),
        LogicalType::Decimal { .. } => Some(16),
        _ => None,
    }
}

/// What rows of one run share: the number, zero for NULL; `None` for a value
/// of another type.
pub open spec fn key_of(ty: LogicalType, value: ValueView) -> Option<int> {
    match (ty, value) {
        (_, ValueView::Null) => Some(0),
        (LogicalType::Bool, ValueView::Bool(flag)) => Some(
            if flag {
                1
            } else {
                0
            },
        ),
        (LogicalType::Int64, ValueView::Int64(number)) => Some(number as int),
        (LogicalType::Timestamp, ValueView::Timestamp(number)) => Some(number as int),
        (LogicalType::Decimal { .. }, ValueView::Decimal(decimal)) => Some(decimal.digits as int),
        _ => None,
    }
}

/// What rows of one run share.
fn run_key(ty: &LogicalType, value: &Value) -> (key: Option<i128>)
    ensures
        match key {
            Some(key) => key_of(*ty, value@) == Some(key as int),
            None => key_of(*ty, value@) is None,
        },
{
    match (ty, value) {
        (_, Value::Null) => Some(0),
        (LogicalType::Bool, Value::Bool(flag)) => Some(
            if *flag {
                1
            } else {
                0
            },
        ),
        (LogicalType::Int64, Value::Int64(number)) => Some(*number as i128),
        (LogicalType::Timestamp, Value::Timestamp(number)) => Some(*number as i128),
        (LogicalType::Decimal { .. }, Value::Decimal(decimal)) => Some(decimal.digits),
        _ => None,
    }
}

/// How many runs of one key the rows have.
pub open spec fn run_count(ty: LogicalType, rows: Seq<ValueView>) -> nat
    decreases rows.len(),
{
    if rows.len() == 0 {
        0
    } else if rows.len() > 1 && key_of(ty, rows[rows.len() - 2]) == key_of(ty, rows.last()) {
        run_count(ty, rows.drop_last())
    } else {
        run_count(ty, rows.drop_last()) + 1
    }
}

/// The price of a run-length section; `None` where the type or a value is
/// not admitted.
pub open spec fn rle_price(rows: Seq<ValueView>, row_count: nat, ty: LogicalType) -> Option<nat> {
    let width: Option<nat> = match ty {
        LogicalType::Bool => Some(1),
        LogicalType::Int64 => Some(8),
        LogicalType::Timestamp => Some(8),
        LogicalType::Decimal { .. } => Some(16),
        _ => None,
    };
    if width is None || exists|i: int|
        0 <= i < rows.len() && key_of(ty, #[trigger] rows[i]) is None {
        None
    } else {
        let scaled_runs = scaled(run_count(ty, rows), rows.len(), row_count);
        let runs: nat = if scaled_runs == 0 {
            1
        } else {
            scaled_runs
        };
        Some(saturating::capped(4 + runs * (4 + width->0)))
    }
}

fn rle_estimate(sample: &Sample, ty: &LogicalType) -> (price: Option<u64>)
    ensures
        match price {
            Some(price) => rle_price(sample.rows(), sample.row_count as nat, *ty) == Some(
                price as nat,
            ),
            None => rle_price(sample.rows(), sample.row_count as nat, *ty) is None,
        },
{
    let width: u64 = match ty {
        LogicalType::Bool => 1,
        LogicalType::Int64 => 8,
        LogicalType::Timestamp => 8,
        LogicalType::Decimal { .. } => 16,
        _ => {
            return None;
        },
    };
    let ghost rows = sample.rows();
    let mut runs: u64 = 0;
    let mut previous: Option<i128> = None;
    let mut row: usize = 0;
    assert(rows.subrange(0, 0) =~= Seq::<ValueView>::empty());
    while row < sample.values.len()
        invariant
            row <= sample.values@.len(),
            rows == sample.rows(),
            runs <= row,
            runs == run_count(*ty, rows.subrange(0, row as int)),
            forall|i: int| 0 <= i < row ==> key_of(*ty, #[trigger] rows[i]) is Some,
            row == 0 ==> previous is None,
            row > 0 ==> previous is Some && key_of(*ty, rows[row - 1]) == Some(previous->0 as int),
        decreases sample.values@.len() - row,
    {
        let ghost next = rows.subrange(0, row + 1);
        assert(next.drop_last() =~= rows.subrange(0, row as int));
        assert(rows[row as int] == sample.values@[row as int]@);
        let key: i128 = match run_key(ty, &sample.values[row]) {
            Some(key) => key,
            None => {
                return None;
            },
        };
        let same: bool = match previous {
            Some(held) => held == key,
            None => false,
        };
        if !same {
            runs += 1;
            previous = Some(key);
        }
        proof {
            if row > 0 {
                assert(next[next.len() - 2] == rows[row - 1]);
            }
        }
        row += 1;
    }
    assert(rows.subrange(0, rows.len() as int) =~= rows);
    let mut total: u64 = sample.scale(runs);
    if total == 0 {
        total = 1;
    }
    Some(plus(4, times(total, 4 + width)))
}

/// The integer of a row of integers or timestamps.
pub open spec fn whole(value: ValueView) -> Option<int> {
    match value {
        ValueView::Int64(number) => Some(number as int),
        ValueView::Timestamp(number) => Some(number as int),
        _ => None,
    }
}

/// Whether `low` and `high` are the least and the greatest integer of the
/// rows, both zero without any.
pub open spec fn are_bounds(rows: Seq<ValueView>, low: int, high: int) -> bool {
    if forall|i: int| 0 <= i < rows.len() ==> whole(#[trigger] rows[i]) is None {
        low == 0 && high == 0
    } else {
        &&& exists|i: int| 0 <= i < rows.len() && whole(#[trigger] rows[i]) == Some(low)
        &&& exists|i: int| 0 <= i < rows.len() && whole(#[trigger] rows[i]) == Some(high)
        &&& forall|i: int|
            0 <= i < rows.len() && whole(#[trigger] rows[i]) is Some ==> low <= whole(rows[i])->0
                <= high
    }
}

/// Whether `price` is the price of a bit-packed section.
pub open spec fn is_bitpack_price(rows: Seq<ValueView>, row_count: nat, price: Option<nat>) -> bool {
    if exists|i: int|
        0 <= i < rows.len() && !((#[trigger] rows[i]) is Null || whole(rows[i]) is Some) {
        price is None
    } else {
        exists|low: int, high: int, width: nat|
            #![trigger are_bounds(rows, low, high), bits::is_bit_width((high - low) as nat, width)]
            {
                &&& are_bounds(rows, low, high)
                &&& bits::is_bit_width((high - low) as nat, width)
                &&& price == Some(
                    saturating::capped(12 + (row_count + 1023) / 1024 * width * 128),
                )
            }
    }
}

fn bitpack_for_estimate(sample: &Sample) -> (price: Option<u64>)
    ensures
        is_bitpack_price(
            sample.rows(),
            sample.row_count as nat,
            match price {
                Some(price) => Some(price as nat),
                None => None,
            },
        ),
{
    let ghost rows = sample.rows();
    let mut found: bool = false;
    let mut low: i64 = 0;
    let mut high: i64 = 0;
    let mut row: usize = 0;
    while row < sample.values.len()
        invariant
            row <= sample.values@.len(),
            rows == sample.rows(),
            forall|i: int|
                0 <= i < row ==> (#[trigger] rows[i]) is Null || whole(rows[i]) is Some,
            !found ==> low == 0 && high == 0 && forall|i: int|
                0 <= i < row ==> whole(#[trigger] rows[i]) is None,
            found ==> {
                &&& exists|i: int| 0 <= i < row && whole(#[trigger] rows[i]) == Some(low as int)
                &&& exists|i: int| 0 <= i < row && whole(#[trigger] rows[i]) == Some(high as int)
                &&& forall|i: int|
                    0 <= i < row && whole(#[trigger] rows[i]) is Some ==> low <= whole(rows[i])->0
                        <= high
            },
        decreases sample.values@.len() - row,
    {
        let value: &Value = &sample.values[row];
        assert(rows[row as int] == value@);
        let number: Option<i64> = match value {
            Value::Null => None,
            Value::Int64(number) => Some(*number),
            Value::Timestamp(number) => Some(*number),
            _ => {
                return None;
            },
        };
        if let Some(number) = number {
            assert(whole(rows[row as int]) == Some(number as int));
            if !found {
                found = true;
                low = number;
                high = number;
            } else {
                if number < low {
                    low = number;
                }
                if number > high {
                    high = number;
                }
            }
        }
        row += 1;
    }
    assert(are_bounds(rows, low as int, high as int));
    let span: u64 = (high as i128 - low as i128) as u64;
    let width: u8 = bit_width(span);
    assert(bits::is_bit_width((high - low) as nat, width as nat));
    let rest: u64 = if sample.row_count % 1024 == 0 {
        0
    } else {
        1
    };
    let blocks: u64 = sample.row_count / 1024 + rest;
    proof {
        assert(blocks == (sample.row_count + 1023) / 1024);
        assert(blocks * width <= 0x40_0000_0000_0000 * 64) by (nonlinear_arith)
            requires
                blocks <= 0x40_0000_0000_0000,
                width <= 64,
        ;
    }
    Some(plus(12, times(times(blocks, width as u64), 128)))
}

/// Whether `price` is the price of a dictionary section.
pub open spec fn is_dictionary_price(
    rows: Seq<ValueView>,
    row_count: nat,
    price: Option<nat>,
) -> bool {
    if !dictionary::all_strings(rows) {
        price is None
    } else {
        exists|entries: Seq<Seq<u8>>| #[trigger]
            dictionary::is_dictionary(rows, entries) && price == Some(
                dictionary_price(entries, rows.len(), row_count),
            )
    }
}

/// The price of a section with these dictionary entries.
pub open spec fn dictionary_price(entries: Seq<Seq<u8>>, sample_rows: nat, row_count: nat) -> nat {
    let count = scaled(entries.len(), sample_rows, row_count);
    let kept = if count <= row_count {
        count
    } else {
        row_count
    };
    saturating::capped(
        4 + (kept + 1) * 4 + scaled(
            saturating::capped(bytes::joined(entries).len()),
            sample_rows,
            row_count,
        ) + row_count * 4,
    )
}

fn dictionary_estimate(sample: &Sample) -> (price: Option<u64>)
    ensures
        is_dictionary_price(
            sample.rows(),
            sample.row_count as nat,
            match price {
                Some(price) => Some(price as nat),
                None => None,
            },
        ),
{
    let column: Column = Column::Boxed(types::duplicate_values(sample.values.as_slice()));
    assert(column.rows() =~= sample.rows());
    let entries: Vec<String> = match collect_dictionary(&column) {
        Some(entries) => entries,
        None => {
            return None;
        },
    };
    let ghost spelled = dictionary::entry_bytes(entries@);
    let mut heap: u64 = 0;
    let mut at: usize = 0;
    assert(spelled.subrange(0, 0) =~= Seq::<Seq<u8>>::empty());
    while at < entries.len()
        invariant
            at <= entries@.len(),
            spelled == dictionary::entry_bytes(entries@),
            heap == saturating::capped(bytes::joined(spelled.subrange(0, at as int)).len()),
        decreases entries@.len() - at,
    {
        assert(spelled.subrange(0, at + 1).drop_last() =~= spelled.subrange(0, at as int));
        heap = plus(heap, text_len(entries[at].as_str()) as u64);
        at += 1;
    }
    assert(spelled.subrange(0, spelled.len() as int) =~= spelled);
    let mut count: u64 = sample.scale(entries.len() as u64);
    if count > sample.row_count {
        count = sample.row_count;
    }
    let fixed: u64 = plus(4, times(plus(count, 1), 4));
    Some(plus(plus(fixed, sample.scale(heap)), times(sample.row_count, 4)))
}

/// Whether `price` is the price of a section over a symbol table.
pub open spec fn is_fsst_price(rows: Seq<ValueView>, row_count: nat, price: Option<nat>) -> bool {
    if fsst::refused(rows) {
        price is None
    } else {
        exists|table: Seq<Seq<u8>>| #[trigger]
            fsst::is_row_table(rows, table) && fsst::heap_fits(table, rows) && price == Some(
                fsst_price(table, rows, row_count),
            )
    }
}

/// The price of a section over a symbol table.
pub open spec fn fsst_price(table: Seq<Seq<u8>>, rows: Seq<ValueView>, row_count: nat) -> nat {
    saturating::capped(
        1 + bytes::joined(fsst::symbol_parts(table)).len() + (row_count + 1) * 4 + scaled(
            bytes::joined(fsst::streams(table, rows)).len(),
            rows.len(),
            row_count,
        ),
    )
}

fn fsst_estimate(sample: &Sample, ty: &LogicalType) -> (price: Option<u64>)
    ensures
        is_fsst_price(
            sample.rows(),
            sample.row_count as nat,
            match price {
                Some(price) => Some(price as nat),
                None => None,
            },
        ),
{
    let ghost rows = sample.rows();
    let column: Column = Column::from_values(
        ty,
        types::duplicate_values(sample.values.as_slice()),
    );
    let trial: Vec<u8> = match fsst::encode(&column, ty) {
        Ok((trial, _)) => trial,
        Err(_) => {
            return None;
        },
    };
    let ghost table = choose|table: Seq<Seq<u8>>| #[trigger]
        fsst::is_row_table(rows, table) && fsst::heap_fits(table, rows) && trial@
            == fsst::section_of(table, rows);
    let ghost parts = fsst::symbol_parts(table);
    let ghost streams = fsst::streams(table, rows);
    let size: usize = trial.len();
    proof {
        fsst::lemma_records(table, rows, 0);
    }
    let count: u8 = trial[0];
    let mut cursor: usize = 1;
    let mut record: u8 = 0;
    while record < count
        invariant
            record <= count,
            size == trial@.len(),
            trial@ == fsst::section_of(table, rows),
            count == table.len(),
            crate::encodings::symbols::is_table(table),
            cursor == fsst::record_at(trial@, record as nat),
        decreases count - record,
    {
        proof {
            fsst::lemma_records(table, rows, record as nat);
        }
        let len: usize = trial[cursor] as usize;
        cursor = cursor + 1 + len;
        record += 1;
    }
    proof {
        fsst::lemma_records(table, rows, count as nat);
        assert(parts.subrange(0, parts.len() as int) =~= parts);
        let offsets = bytes::offset_parts(streams);
        assert forall|i: int| 0 <= i < offsets.len() implies (#[trigger] offsets[i]).len() == 4 by {
            bytes::lemma_le_bytes_len(bytes::heap_offset(streams, i), 4);
        }
        bytes::lemma_joined_len(offsets, 4);
        assert(size == cursor + (rows.len() + 1) * 4 + bytes::joined(streams).len());
    }
    let offsets: usize = (sample.values.len() + 1) * 4;
    let heap: usize = size - cursor - offsets;
    let fixed: u64 = plus(cursor as u64, times(plus(sample.row_count, 1), 4));
    Some(plus(fixed, sample.scale(heap as u64)))
}

/// The price of a section of scaled doubles, from the section of the sample;
/// `None` without one.
pub open spec fn alp_price(trial: Option<Seq<u8>>, sample_rows: nat, row_count: nat) -> Option<nat> {
    match trial {
        Some(section) => if section.len() < 20 || section[16] > 64 {
            None
        } else {
            Some(
                saturating::capped(
                    20 + alp::blocks_len(row_count, section[16] as nat) + scaled(
                        alp::section_exceptions(section),
                        sample_rows,
                        row_count,
                    ) * 12,
                ),
            )
        },
        None => None,
    }
}

fn alp_estimate(sample: &Sample, trial: &Option<Vec<u8>>) -> (price: Option<u64>)
    ensures
        ({
            let section = match *trial {
                Some(section) => Some(section@),
                None => None,
            };
            match price {
                Some(price) => alp_price(section, sample.values@.len(), sample.row_count as nat)
                    == Some(price as nat),
                None => alp_price(section, sample.values@.len(), sample.row_count as nat) is None,
            }
        }),
{
    let section: &Vec<u8> = match trial {
        Some(section) => section,
        None => {
            return None;
        },
    };
    if section.len() < 20 {
        return None;
    }
    let width: u8 = section[16];
    if width > 64 {
        return None;
    }
    let exceptions: u64 = get_le(section.as_slice(), 4, 4);
    let row_count: u64 = sample.row_count;
    let lanes: u64 = (row_count / 1024) * 16 + (row_count % 1024 + 63) / 64;
    proof {
        assert(lanes == alp::total_lanes(row_count as nat));
        assert(width * 8 * lanes == lanes * (width * 8)) by (nonlinear_arith);
    }
    let packed: u64 = times(lanes, width as u64 * 8);
    Some(plus(plus(20, packed), times(sample.scale(exceptions), 12)))
}

/// Whether `price` is what an encoding is estimated to take for a column of
/// `row_count` rows with this sample.
pub open spec fn is_price(
    encoding: Encoding,
    rows: Seq<ValueView>,
    row_count: nat,
    ty: LogicalType,
    trial: Option<Seq<u8>>,
    price: Option<nat>,
) -> bool {
    match encoding {
        Encoding::Plain => price is None,
        Encoding::Constant => price == constant_price(rows, ty),
        Encoding::Rle => price == rle_price(rows, row_count, ty),
        Encoding::BitpackFor => is_bitpack_price(rows, row_count, price),
        Encoding::Dictionary => is_dictionary_price(rows, row_count, price),
        Encoding::Fsst => is_fsst_price(rows, row_count, price),
        Encoding::Alp => price == alp_price(trial, rows.len(), row_count),
    }
}

/// An encoding has one price.
pub proof fn lemma_price_unique(
    encoding: Encoding,
    rows: Seq<ValueView>,
    row_count: nat,
    ty: LogicalType,
    trial: Option<Seq<u8>>,
    a: Option<nat>,
    b: Option<nat>,
)
    requires
        is_price(encoding, rows, row_count, ty, trial, a),
        is_price(encoding, rows, row_count, ty, trial, b),
    ensures
        a == b,
{
    match encoding {
        Encoding::BitpackFor => {
            if !exists|i: int|
                0 <= i < rows.len() && !((#[trigger] rows[i]) is Null || whole(rows[i]) is Some) {
                let (l, h, w) = choose|low: int, high: int, width: nat|
                    #![trigger are_bounds(rows, low, high), bits::is_bit_width((high - low) as nat, width)]
                    {
                        &&& are_bounds(rows, low, high)
                        &&& bits::is_bit_width((high - low) as nat, width)
                        &&& a == Some(
                            saturating::capped(12 + (row_count + 1023) / 1024 * width * 128),
                        )
                    };
                let (m, i, x) = choose|low: int, high: int, width: nat|
                    #![trigger are_bounds(rows, low, high), bits::is_bit_width((high - low) as nat, width)]
                    {
                        &&& are_bounds(rows, low, high)
                        &&& bits::is_bit_width((high - low) as nat, width)
                        &&& b == Some(
                            saturating::capped(12 + (row_count + 1023) / 1024 * width * 128),
                        )
                    };
                lemma_bounds_unique(rows, l, h, m, i);
                bits::lemma_bit_width_unique((h - l) as nat, w, x);
            }
        },
        Encoding::Dictionary => {
            if dictionary::all_strings(rows) {
                let p = choose|entries: Seq<Seq<u8>>| #[trigger]
                    dictionary::is_dictionary(rows, entries) && a == Some(
                        dictionary_price(entries, rows.len(), row_count),
                    );
                let q = choose|entries: Seq<Seq<u8>>| #[trigger]
                    dictionary::is_dictionary(rows, entries) && b == Some(
                        dictionary_price(entries, rows.len(), row_count),
                    );
                dictionary::lemma_dictionary_unique(rows, p, q);
            }
        },
        Encoding::Fsst => {
            if !fsst::refused(rows) {
                let p = choose|table: Seq<Seq<u8>>| #[trigger]
                    fsst::is_row_table(rows, table) && fsst::heap_fits(table, rows) && a == Some(
                        fsst_price(table, rows, row_count),
                    );
                let q = choose|table: Seq<Seq<u8>>| #[trigger]
                    fsst::is_row_table(rows, table) && fsst::heap_fits(table, rows) && b == Some(
                        fsst_price(table, rows, row_count),
                    );
                crate::encodings::symbols::lemma_built_unique(
                    crate::encodings::symbols::sample_of(fsst::texts_of(rows)),
                    crate::encodings::symbols::ITERATIONS as nat,
                    p,
                    q,
                );
            }
        },
        _ => {},
    }
}

proof fn lemma_bounds_unique(rows: Seq<ValueView>, a: int, b: int, c: int, d: int)
    requires
        are_bounds(rows, a, b),
        are_bounds(rows, c, d),
    ensures
        a == c,
        b == d,
{
    if !forall|i: int| 0 <= i < rows.len() ==> whole(#[trigger] rows[i]) is None {
        let i = choose|i: int| 0 <= i < rows.len() && whole(#[trigger] rows[i]) == Some(a);
        let j = choose|i: int| 0 <= i < rows.len() && whole(#[trigger] rows[i]) == Some(b);
        let k = choose|i: int| 0 <= i < rows.len() && whole(#[trigger] rows[i]) == Some(c);
        let l = choose|i: int| 0 <= i < rows.len() && whole(#[trigger] rows[i]) == Some(d);
    }
}

fn estimate(encoding: Encoding, sample: &Sample, ty: &LogicalType, trial: &Option<Vec<u8>>) -> (price:
    Option<u64>)
    ensures
        is_price(
            encoding,
            sample.rows(),
            sample.row_count as nat,
            *ty,
            match *trial {
                Some(section) => Some(section@),
                None => None,
            },
            match price {
                Some(price) => Some(price as nat),
                None => None,
            },
        ),
{
    match encoding {
        Encoding::Plain => None,
        Encoding::Constant => constant_estimate(sample, ty),
        Encoding::Rle => rle_estimate(sample, ty),
        Encoding::BitpackFor => bitpack_for_estimate(sample),
        Encoding::Dictionary => dictionary_estimate(sample),
        Encoding::Fsst => fsst_estimate(sample, ty),
        Encoding::Alp => alp_estimate(sample, trial),
    }
}

/// Whether an encoding is ranked for a column: it may carry the type, and
/// its price is at most three quarters of the plain price.
pub open spec fn ranks(
    encoding: Encoding,
    column: Seq<ValueView>,
    ty: LogicalType,
    trial: Option<Seq<u8>>,
    price: nat,
) -> bool {
    let rows = sample_of(column);
    &&& column.len() > 0
    &&& encodings::admissible(encoding, ty)
    &&& plain_price(rows, column.len(), ty) is Some
    &&& is_price(encoding, rows, column.len(), ty, trial, Some(price))
    &&& saturating::capped(price * 4) <= saturating::capped(
        plain_price(rows, column.len(), ty)->0 * 3,
    )
}

/// Where an encoding of a price stands among the ranked: the cheaper first,
/// then the lower id.
pub open spec fn rank_of(encoding: Encoding, price: nat) -> nat {
    price * 8 + encodings::encoding_id(encoding) as nat
}

/// Whether the list holds exactly the encodings that rank, each with its
/// price, in rank order.
pub open spec fn is_ranking(
    ranked: Seq<(Encoding, nat)>,
    column: Seq<ValueView>,
    ty: LogicalType,
    trial: Option<Seq<u8>>,
) -> bool {
    &&& forall|i: int|
        0 <= i < ranked.len() ==> ranks(
            (#[trigger] ranked[i]).0,
            column,
            ty,
            trial,
            ranked[i].1,
        )
    &&& forall|encoding: Encoding, price: nat| #[trigger]
        ranks(encoding, column, ty, trial, price) ==> ranked.contains((encoding, price))
    &&& forall|i: int, j: int|
        0 <= i < j < ranked.len() ==> rank_of((#[trigger] ranked[i]).0, ranked[i].1) < rank_of(
            (#[trigger] ranked[j]).0,
            ranked[j].1,
        )
}

/// A column has one ranking: the same rows always yield the same choice.
pub proof fn law_ranking_deterministic(
    a: Seq<(Encoding, nat)>,
    b: Seq<(Encoding, nat)>,
    column: Seq<ValueView>,
    ty: LogicalType,
    trial: Option<Seq<u8>>,
)
    requires
        is_ranking(a, column, ty, trial),
        is_ranking(b, column, ty, trial),
    ensures
        a == b,
    decreases a.len() + b.len(),
{
    lemma_same_members(a, b, column, ty, trial);
    lemma_same_members(b, a, column, ty, trial);
    lemma_sorted_equal(a, b);
}

proof fn lemma_same_members(
    a: Seq<(Encoding, nat)>,
    b: Seq<(Encoding, nat)>,
    column: Seq<ValueView>,
    ty: LogicalType,
    trial: Option<Seq<u8>>,
)
    requires
        is_ranking(a, column, ty, trial),
        is_ranking(b, column, ty, trial),
    ensures
        forall|i: int| 0 <= i < a.len() ==> b.contains(#[trigger] a[i]),
{
    assert forall|i: int| 0 <= i < a.len() implies b.contains(#[trigger] a[i]) by {
        assert(ranks(a[i].0, column, ty, trial, a[i].1));
    }
}

/// Whether ranks ascend.
pub open spec fn in_rank_order(list: Seq<(Encoding, nat)>) -> bool {
    forall|i: int, j: int|
        0 <= i < j < list.len() ==> rank_of((#[trigger] list[i]).0, list[i].1) < rank_of(
            (#[trigger] list[j]).0,
            list[j].1,
        )
}

proof fn lemma_sorted_equal(a: Seq<(Encoding, nat)>, b: Seq<(Encoding, nat)>)
    requires
        in_rank_order(a),
        in_rank_order(b),
        forall|i: int| 0 <= i < a.len() ==> b.contains(#[trigger] a[i]),
        forall|i: int| 0 <= i < b.len() ==> a.contains(#[trigger] b[i]),
    ensures
        a == b,
    decreases a.len(),
{
    if a.len() == 0 {
        if b.len() > 0 {
            assert(a.contains(b[0]));
        }
        assert(a =~= b);
    } else {
        assert(b.contains(a[0]));
        let x = a.last();
        assert(b.contains(x));
        let j = choose|j: int| 0 <= j < b.len() && b[j] == x;
        let y = b.last();
        assert(a.contains(y));
        let i = choose|i: int| 0 <= i < a.len() && a[i] == y;
        assert(x == y);
        let p = a.drop_last();
        let q = b.drop_last();
        assert forall|k: int| 0 <= k < p.len() implies q.contains(#[trigger] p[k]) by {
            assert(b.contains(a[k]));
            let m = choose|m: int| 0 <= m < b.len() && b[m] == a[k];
            assert(q[m] == p[k]);
        }
        assert forall|k: int| 0 <= k < q.len() implies p.contains(#[trigger] q[k]) by {
            assert(a.contains(b[k]));
            let m = choose|m: int| 0 <= m < a.len() && a[m] == b[k];
            assert(p[m] == q[k]);
        }
        lemma_sorted_equal(p, q);
        assert(a =~= p.push(x));
        assert(b =~= q.push(y));
    }
}

/// The list with natural numbers for prices.
pub open spec fn priced(list: Seq<(Encoding, u64)>) -> Seq<(Encoding, nat)> {
    list.map_values(|entry: (Encoding, u64)| (entry.0, entry.1 as nat))
}

/// The encoding of each entry.
pub open spec fn names_of(list: Seq<(Encoding, nat)>) -> Seq<Encoding> {
    list.map_values(|entry: (Encoding, nat)| entry.0)
}

/// Puts a priced encoding into its place.
fn insert_ranked(list: &mut Vec<(Encoding, u64)>, encoding: Encoding, price: u64)
    requires
        in_rank_order(priced(old(list)@)),
        forall|i: int|
            0 <= i < old(list)@.len() ==> rank_of(
                (#[trigger] old(list)@[i]).0,
                old(list)@[i].1 as nat,
            ) != rank_of(encoding, price as nat),
    ensures
        in_rank_order(priced(final(list)@)),
        exists|at: int|
            0 <= at <= old(list)@.len() && final(list)@ == #[trigger] old(list)@.insert(
                at,
                (encoding, price),
            ),
{
    let ghost before = list@;
    let mut at: usize = 0;
    while at < list.len() && (list[at].1 < price || (list[at].1 == price && list[at].0.id()
        < encoding.id()))
        invariant
            at <= list@.len(),
            list@ == before,
            forall|i: int|
                0 <= i < at ==> rank_of((#[trigger] list@[i]).0, list@[i].1 as nat) < rank_of(
                    encoding,
                    price as nat,
                ),
        decreases list@.len() - at,
    {
        at += 1;
    }
    proof {
        assert forall|i: int| at <= i < before.len() implies rank_of(encoding, price as nat)
            < rank_of((#[trigger] before[i]).0, before[i].1 as nat) by {
            let a = before[at as int];
            assert(rank_of(a.0, a.1 as nat) != rank_of(encoding, price as nat));
            if i > at {
                assert(priced(before)[at as int] == (a.0, a.1 as nat));
                assert(priced(before)[i] == (before[i].0, before[i].1 as nat));
            }
        }
    }
    list.insert(at, (encoding, price));
    proof {
        let after = priced(list@);
        assert forall|i: int, j: int| 0 <= i < j < after.len() implies rank_of(
            (#[trigger] after[i]).0,
            after[i].1,
        ) < rank_of((#[trigger] after[j]).0, after[j].1) by {
            let p = if i < at {
                i
            } else {
                i - 1
            };
            let q = if j < at {
                j
            } else {
                j - 1
            };
            if i != at {
                assert(list@[i] == before[p]);
                assert(priced(before)[p] == (before[p].0, before[p].1 as nat));
            }
            if j != at {
                assert(list@[j] == before[q]);
                assert(priced(before)[q] == (before[q].0, before[q].1 as nat));
            }
        }
        assert(list@ == before.insert(at as int, (encoding, price)));
    }
}

/// Considers one encoding for the ranking.
fn consider(
    encoding: Encoding,
    sample: &Sample,
    ty: &LogicalType,
    trial: &Option<Vec<u8>>,
    plain: u64,
    list: &mut Vec<(Encoding, u64)>,
    Ghost(column): Ghost<Seq<ValueView>>,
    Ghost(done): Ghost<Set<Encoding>>,
)
    requires
        column.len() > 0,
        sample.rows() == sample_of(column),
        sample.row_count == column.len(),
        plain_price(sample_of(column), column.len(), *ty) == Some(plain as nat),
        !done.contains(encoding),
        partial_ranking(priced(old(list)@), column, *ty, trial_bytes(*trial), done),
    ensures
        partial_ranking(
            priced(final(list)@),
            column,
            *ty,
            trial_bytes(*trial),
            done.insert(encoding),
        ),
{
    let ghost shown = trial_bytes(*trial);
    let ghost before = priced(list@);
    let ghost start = list@;
    let mut found: Option<u64> = None;
    if encoding.is_admissible_for(ty) {
        let price: Option<u64> = estimate(encoding, sample, ty, trial);
        if let Some(price) = price {
            if times(price, 4) <= times(plain, 3) {
                found = Some(price);
            }
        }
        proof {
            let shown_price = match price {
                Some(price) => Some(price as nat),
                None => None,
            };
            assert forall|other: nat| #[trigger]
                ranks(encoding, column, *ty, shown, other) implies Some(other) == shown_price by {
                lemma_price_unique(
                    encoding,
                    sample_of(column),
                    column.len(),
                    *ty,
                    shown,
                    Some(other),
                    shown_price,
                );
            }
        }
    }
    match found {
        Some(price) => {
            proof {
                assert(ranks(encoding, column, *ty, shown, price as nat));
                assert forall|i: int| 0 <= i < start.len() implies rank_of(
                    (#[trigger] start[i]).0,
                    start[i].1 as nat,
                ) != rank_of(encoding, price as nat) by {
                    assert(before[i] == (start[i].0, start[i].1 as nat));
                    assert(done.contains(before[i].0));
                    encodings::law_ids_distinct(before[i].0, encoding);
                }
            }
            insert_ranked(list, encoding, price);
            proof {
                let at = choose|at: int|
                    0 <= at <= start.len() && list@ == #[trigger] start.insert(
                        at,
                        (encoding, price),
                    );
                let after = priced(list@);
                assert(after =~= before.insert(at, (encoding, price as nat)));
                assert forall|i: int| 0 <= i < after.len() implies done.insert(encoding).contains(
                    (#[trigger] after[i]).0,
                ) && ranks(after[i].0, column, *ty, shown, after[i].1) by {
                    if i < at {
                        assert(after[i] == before[i]);
                    } else if i > at {
                        assert(after[i] == before[i - 1]);
                    }
                }
                assert forall|e: Encoding, p: nat|
                    #[trigger] ranks(e, column, *ty, shown, p) && done.insert(encoding).contains(
                        e,
                    ) implies after.contains((e, p)) by {
                    if e == encoding {
                        assert(after[at] == (e, p));
                    } else {
                        assert(before.contains((e, p)));
                        let k = choose|k: int| 0 <= k < before.len() && before[k] == (e, p);
                        if k < at {
                            assert(after[k] == before[k]);
                        } else {
                            assert(after[k + 1] == before[k]);
                        }
                    }
                }
            }
        },
        None => {
            assert forall|e: Encoding, p: nat|
                #[trigger] ranks(e, column, *ty, shown, p) && done.insert(encoding).contains(
                    e,
                ) implies before.contains((e, p)) by {
                assert(e != encoding);
            }
        },
    }
}

/// The section of a trial, where there is one.
pub open spec fn trial_bytes(trial: Option<Vec<u8>>) -> Option<Seq<u8>> {
    match trial {
        Some(section) => Some(section@),
        None => None,
    }
}

/// A ranking of some of the encodings.
spec fn partial_ranking(
    list: Seq<(Encoding, nat)>,
    column: Seq<ValueView>,
    ty: LogicalType,
    trial: Option<Seq<u8>>,
    done: Set<Encoding>,
) -> bool {
    &&& in_rank_order(list)
    &&& forall|i: int|
        0 <= i < list.len() ==> done.contains((#[trigger] list[i]).0) && ranks(
            list[i].0,
            column,
            ty,
            trial,
            list[i].1,
        )
    &&& forall|e: Encoding, p: nat|
        #[trigger] ranks(e, column, ty, trial, p) && done.contains(e) ==> list.contains((e, p))
}

/// The encodings for the writer to try, in order. A column of doubles brings
/// the section that its scaled sample packs to.
pub fn ranked_candidates(column: &[Value], ty: &LogicalType, trial: &Option<Vec<u8>>) -> (ranked: Vec<
    Encoding,
>)
    ensures
        exists|list: Seq<(Encoding, nat)>|
            #[trigger] is_ranking(list, types::views(column@), *ty, trial_bytes(*trial))
                && ranked@ == names_of(list),
{
    let ghost rows = types::views(column@);
    let ghost shown = trial_bytes(*trial);
    let mut ranked: Vec<Encoding> = Vec::new();
    if column.len() == 0 {
        proof {
            let list = Seq::<(Encoding, nat)>::empty();
            assert(is_ranking(list, rows, *ty, shown));
            assert(ranked@ =~= names_of(list));
        }
        return ranked;
    }
    let sample: Sample = Sample::take(column);
    let plain: u64 = match plain_estimate(&sample, ty) {
        Some(plain) => plain,
        None => {
            proof {
                let list = Seq::<(Encoding, nat)>::empty();
                assert(is_ranking(list, rows, *ty, shown));
                assert(ranked@ =~= names_of(list));
            }
            return ranked;
        },
    };
    let mut list: Vec<(Encoding, u64)> = Vec::new();
    let ghost done = Set::<Encoding>::empty();
    consider(Encoding::Constant, &sample, ty, trial, plain, &mut list, Ghost(rows), Ghost(done));
    let ghost done = done.insert(Encoding::Constant);
    consider(Encoding::Rle, &sample, ty, trial, plain, &mut list, Ghost(rows), Ghost(done));
    let ghost done = done.insert(Encoding::Rle);
    consider(Encoding::BitpackFor, &sample, ty, trial, plain, &mut list, Ghost(rows), Ghost(done));
    let ghost done = done.insert(Encoding::BitpackFor);
    consider(Encoding::Dictionary, &sample, ty, trial, plain, &mut list, Ghost(rows), Ghost(done));
    let ghost done = done.insert(Encoding::Dictionary);
    consider(Encoding::Fsst, &sample, ty, trial, plain, &mut list, Ghost(rows), Ghost(done));
    let ghost done = done.insert(Encoding::Fsst);
    consider(Encoding::Alp, &sample, ty, trial, plain, &mut list, Ghost(rows), Ghost(done));
    let ghost done = done.insert(Encoding::Alp);
    proof {
        assert forall|e: Encoding, p: nat| #[trigger] ranks(e, rows, *ty, shown, p) implies priced(
            list@,
        ).contains((e, p)) by {
            assert(done.contains(e));
        }
        assert(is_ranking(priced(list@), rows, *ty, shown));
    }
    let mut at: usize = 0;
    while at < list.len()
        invariant
            at <= list@.len(),
            ranked@.len() == at,
            forall|i: int| 0 <= i < at ==> #[trigger] ranked@[i] == list@[i].0,
        decreases list@.len() - at,
    {
        ranked.push(list[at].0);
        at += 1;
    }
    assert(ranked@ =~= names_of(priced(list@)));
    ranked
}

} // verus!
