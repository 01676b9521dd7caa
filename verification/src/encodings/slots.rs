//! Fixed-width value slots: how scalar values stand in bytes.

use vstd::prelude::*;

use crate::text::{and_number, with_name};
use crate::types;
use crate::types::{
    column_validity, fits_precision, Bitmap, Column, Decimal128, LogicalType, Value, ValueView,
};

verus! {

/// The two's complement reading of a 64-bit word.
pub open spec fn signed64(raw: nat) -> int {
    if raw < 0x8000_0000_0000_0000 {
        raw as int
    } else {
        raw - 0x1_0000_0000_0000_0000
    }
}

/// The two's complement word of a 64-bit integer.
pub open spec fn unsigned64(value: int) -> nat {
    if value >= 0 {
        value as nat
    } else {
        (value + 0x1_0000_0000_0000_0000) as nat
    }
}

/// The two's complement reading of a 128-bit word.
pub open spec fn signed128(raw: nat) -> int {
    if raw < 0x8000_0000_0000_0000_0000_0000_0000_0000 {
        raw as int
    } else {
        raw - 0x1_0000_0000_0000_0000_0000_0000_0000_0000
    }
}

/// The two's complement word of a 128-bit integer.
pub open spec fn unsigned128(value: int) -> nat {
    if value >= 0 {
        value as nat
    } else {
        (value + 0x1_0000_0000_0000_0000_0000_0000_0000_0000) as nat
    }
}

/// The two's complement reading of a 64-bit word.
pub fn to_signed64(raw: u64) -> (value: i64)
    ensures
        value == signed64(raw as nat),
{
    if raw < 0x8000_0000_0000_0000 {
        raw as i64
    } else {
        let below: u64 = u64::MAX - raw;
        -1 - (below as i64)
    }
}

/// The two's complement word of a 64-bit integer.
pub fn to_unsigned64(value: i64) -> (raw: u64)
    ensures
        raw == unsigned64(value as int),
{
    if value >= 0 {
        value as u64
    } else {
        let below: i64 = -1 - value;
        u64::MAX - (below as u64)
    }
}

/// The two's complement reading of a 128-bit word.
pub fn to_signed128(raw: u128) -> (value: i128)
    ensures
        value == signed128(raw as nat),
{
    if raw < 0x8000_0000_0000_0000_0000_0000_0000_0000 {
        raw as i128
    } else {
        let below: u128 = u128::MAX - raw;
        -1 - (below as i128)
    }
}

/// The two's complement word of a 128-bit integer.
pub fn to_unsigned128(value: i128) -> (raw: u128)
    ensures
        raw == unsigned128(value as int),
{
    if value >= 0 {
        value as u128
    } else {
        let below: i128 = -1 - value;
        u128::MAX - (below as u128)
    }
}

/// The bytes of one slot, for the types that have fixed-width slots.
pub open spec fn slot_width(ty: LogicalType) -> Option<nat> {
    match ty {
        LogicalType::Int64 => Some(8),
        LogicalType::Float64 => Some(8),
        LogicalType::Timestamp => Some(8),
        LogicalType::Bool => Some(1),
        LogicalType::Decimal { .. } => Some(16),
        _ => None,
    }
}

/// The value that a slot of type `ty` holds, where it holds one.
pub open spec fn slot_value(ty: LogicalType, raw: nat) -> Option<ValueView> {
    match ty {
        LogicalType::Int64 => Some(ValueView::Int64(signed64(raw) as i64)),
        LogicalType::Timestamp => Some(ValueView::Timestamp(signed64(raw) as i64)),
        LogicalType::Float64 => Some(ValueView::Float64(raw as u64)),
        LogicalType::Bool => if raw <= 1 {
            Some(ValueView::Bool(raw == 1))
        } else {
            None
        },
        LogicalType::Decimal { precision, scale } => if types::digits_fit(
            signed128(raw) as i128,
            precision,
        ) {
            Some(ValueView::Decimal(Decimal128 { digits: signed128(raw) as i128, scale }))
        } else {
            None
        },
        _ => None,
    }
}

/// The slot that a scalar value takes.
pub open spec fn value_slot(value: ValueView) -> nat {
    match value {
        ValueView::Int64(number) => unsigned64(number as int),
        ValueView::Timestamp(number) => unsigned64(number as int),
        ValueView::Float64(bits) => bits as nat,
        ValueView::Bool(flag) => if flag {
            1
        } else {
            0
        },
        ValueView::Decimal(decimal) => unsigned128(decimal.digits as int),
        _ => 0,
    }
}

/// A value of a fixed-width type is read back from its slot.
pub proof fn lemma_slot_round_trip(ty: LogicalType, value: ValueView)
    requires
        value.fits_type(ty),
        slot_width(ty) is Some,
        value != ValueView::Null,
    ensures
        slot_value(ty, value_slot(value)) == Some(value),
        value_slot(value) < crate::bytes::radix_pow(slot_width(ty)->0),
{
    crate::bytes::lemma_radix_values();
    crate::bytes::lemma_radix_16();
}

/// The slot of NULL reads as the type's zero.
pub proof fn lemma_zero_slot(ty: LogicalType)
    requires
        slot_width(ty) is Some,
    ensures
        ty is Decimal || slot_value(ty, 0) is Some,
        crate::bytes::radix_pow(slot_width(ty)->0) > 0,
{
    crate::bytes::lemma_radix_values();
    crate::bytes::lemma_radix_16();
}

/// The bytes of one slot.
pub fn width_of(ty: &LogicalType) -> (width: Option<usize>)
    ensures
        match slot_width(*ty) {
            Some(n) => width == Some(n as usize) && n <= 16,
            None => width is None,
        },
{
    match ty {
        LogicalType::Int64 => Some(8),
        LogicalType::Float64 => Some(8),
        LogicalType::Timestamp => Some(8),
        LogicalType::Bool => Some(1),
        LogicalType::Decimal { .. } => Some(16),
        _ => None,
    }
}

/// Whether a slot of type `ty` holds a value.
pub fn slot_accepted(ty: &LogicalType, raw: u128) -> (accepted: bool)
    requires
        ty matches LogicalType::Decimal { precision, .. } ==> precision <= 38,
    ensures
        accepted == (slot_value(*ty, raw as nat) is Some),
{
    match ty {
        LogicalType::Int64 => true,
        LogicalType::Timestamp => true,
        LogicalType::Float64 => true,
        LogicalType::Bool => raw <= 1,
        LogicalType::Decimal { precision, .. } => fits_precision(to_signed128(raw), *precision),
        _ => false,
    }
}

/// What is wrong with a slot that holds no value.
pub(crate) fn slot_fault(encoding: &str, ty: &LogicalType, raw: u128) -> String {
    match ty {
        LogicalType::Bool => and_number(
            with_name(encoding, " Bool value is ", ""),
            raw as u64,
            ", expected 0 or 1",
        ),
        LogicalType::Decimal { precision, scale } => match Decimal128::new(
            to_signed128(raw),
            *scale,
        ) {
            Ok(_) => and_number(
                with_name(encoding, " Decimal digits exceed declared precision ", ""),
                *precision as u64,
                "",
            ),
            Err(error) => with_name(encoding, " Decimal is invalid: ", error.text()),
        },
        _ => with_name(encoding, " value is invalid", ""),
    }
}

/// What is said of a Decimal column that cannot be.
pub(crate) fn declaration_fault(encoding: &str, precision: u8, scale: u8) -> String {
    and_number(
        and_number(
            with_name(encoding, " column has invalid Decimal(", ""),
            precision as u64,
            ", ",
        ),
        scale as u64,
        ") declaration",
    )
}

/// The slot that a scalar value takes.
pub fn slot_of(value: &Value) -> (raw: u128)
    ensures
        raw == value_slot(value@),
{
    match value {
        Value::Int64(number) => to_unsigned64(*number) as u128,
        Value::Timestamp(number) => to_unsigned64(*number) as u128,
        Value::Float64(bits) => *bits as u128,
        Value::Bool(flag) => if *flag {
            1
        } else {
            0
        },
        Value::Decimal(decimal) => to_unsigned128(decimal.digits),
        _ => 0,
    }
}

/// The rows that slots spell: their values, NULL where the bitmap says so.
pub open spec fn rows_of_slots(ty: LogicalType, raws: Seq<nat>, bits: Seq<bool>) -> Seq<ValueView> {
    Seq::new(
        raws.len(),
        |row: int|
            if types::bit_set(bits, row) {
                slot_value(ty, raws[row])->0
            } else {
                ValueView::Null
            },
    )
}

/// The slots as numbers.
pub open spec fn raw_numbers(raws: Seq<u128>) -> Seq<nat> {
    raws.map_values(|raw: u128| raw as nat)
}

/// The column that accepted slots spell.
pub fn column_of_slots(ty: &LogicalType, raws: &Vec<u128>, validity: &Bitmap) -> (column: Column)
    requires
        slot_width(*ty) is Some,
        forall|i: int|
            0 <= i < raws@.len() ==> {
                &&& slot_value(*ty, #[trigger] raws@[i] as nat) is Some
                &&& (raws@[i] as nat) < crate::bytes::radix_pow(slot_width(*ty)->0)
            },
    ensures
        column.rows() == rows_of_slots(*ty, raw_numbers(raws@), validity@),
        column.stored_as(*ty, validity@),
{
    let kept: Option<Bitmap> = column_validity(validity, raws.len());
    proof {
        crate::bytes::lemma_radix_values();
    }
    let column = match ty {
        LogicalType::Int64 => Column::Int64 { values: int_slots(raws, validity), validity: kept },
        LogicalType::Timestamp => Column::Timestamp {
            values: int_slots(raws, validity),
            validity: kept,
        },
        LogicalType::Float64 => Column::Float64 {
            values: float_slots(raws, validity),
            validity: kept,
        },
        LogicalType::Bool => Column::Bool { values: bool_slots(raws, validity), validity: kept },
        LogicalType::Decimal { scale, .. } => Column::Decimal {
            values: decimal_slots(raws, validity),
            scale: *scale,
            validity: kept,
        },
        _ => Column::Boxed(Vec::new()),
    };
    proof {
        let want = rows_of_slots(*ty, raw_numbers(raws@), validity@);
        assert forall|row: int| 0 <= row < want.len() implies column.row(row) == want[row] by {
            assert(raw_numbers(raws@)[row] == raws@[row] as nat);
            assert(slot_value(*ty, raws@[row] as nat) is Some);
            if kept is None {
                assert(types::bit_set(validity@, row));
            }
        }
        assert(column.rows() =~= want);
    }
    column
}

fn int_slots(raws: &Vec<u128>, validity: &Bitmap) -> (values: Vec<i64>)
    requires
        forall|i: int| 0 <= i < raws@.len() ==> #[trigger] raws@[i] <= u64::MAX,
    ensures
        values@.len() == raws@.len(),
        forall|i: int|
            0 <= i < values@.len() ==> #[trigger] values@[i] == if types::bit_set(validity@, i) {
                signed64(raws@[i] as nat)
            } else {
                0
            },
{
    let mut values: Vec<i64> = Vec::new();
    let mut row: usize = 0;
    while row < raws.len()
        invariant
            row <= raws@.len(),
            values@.len() == row,
            forall|i: int| 0 <= i < raws@.len() ==> #[trigger] raws@[i] <= u64::MAX,
            forall|i: int|
                0 <= i < values@.len() ==> #[trigger] values@[i] == if types::bit_set(
                    validity@,
                    i,
                ) {
                    signed64(raws@[i] as nat)
                } else {
                    0
                },
        decreases raws@.len() - row,
    {
        let value: i64 = if validity.is_valid(row) {
            to_signed64(raws[row] as u64)
        } else {
            0
        };
        values.push(value);
        row += 1;
    }
    values
}

fn float_slots(raws: &Vec<u128>, validity: &Bitmap) -> (values: Vec<u64>)
    requires
        forall|i: int| 0 <= i < raws@.len() ==> #[trigger] raws@[i] <= u64::MAX,
    ensures
        values@.len() == raws@.len(),
        forall|i: int|
            0 <= i < values@.len() ==> #[trigger] values@[i] == if types::bit_set(validity@, i) {
                raws@[i] as int
            } else {
                0
            },
{
    let mut values: Vec<u64> = Vec::new();
    let mut row: usize = 0;
    while row < raws.len()
        invariant
            row <= raws@.len(),
            values@.len() == row,
            forall|i: int| 0 <= i < raws@.len() ==> #[trigger] raws@[i] <= u64::MAX,
            forall|i: int|
                0 <= i < values@.len() ==> #[trigger] values@[i] == if types::bit_set(
                    validity@,
                    i,
                ) {
                    raws@[i] as int
                } else {
                    0
                },
        decreases raws@.len() - row,
    {
        let value: u64 = if validity.is_valid(row) {
            raws[row] as u64
        } else {
            0
        };
        values.push(value);
        row += 1;
    }
    values
}

fn bool_slots(raws: &Vec<u128>, validity: &Bitmap) -> (values: Vec<bool>)
    ensures
        values@.len() == raws@.len(),
        forall|i: int|
            0 <= i < values@.len() ==> #[trigger] values@[i] == (types::bit_set(validity@, i)
                && raws@[i] == 1),
{
    let mut values: Vec<bool> = Vec::new();
    let mut row: usize = 0;
    while row < raws.len()
        invariant
            row <= raws@.len(),
            values@.len() == row,
            forall|i: int|
                0 <= i < values@.len() ==> #[trigger] values@[i] == (types::bit_set(validity@, i)
                    && raws@[i] == 1),
        decreases raws@.len() - row,
    {
        values.push(validity.is_valid(row) && raws[row] == 1);
        row += 1;
    }
    values
}

fn decimal_slots(raws: &Vec<u128>, validity: &Bitmap) -> (values: Vec<i128>)
    ensures
        values@.len() == raws@.len(),
        forall|i: int|
            0 <= i < values@.len() ==> #[trigger] values@[i] == if types::bit_set(validity@, i) {
                signed128(raws@[i] as nat)
            } else {
                0
            },
{
    let mut values: Vec<i128> = Vec::new();
    let mut row: usize = 0;
    while row < raws.len()
        invariant
            row <= raws@.len(),
            values@.len() == row,
            forall|i: int|
                0 <= i < values@.len() ==> #[trigger] values@[i] == if types::bit_set(
                    validity@,
                    i,
                ) {
                    signed128(raws@[i] as nat)
                } else {
                    0
                },
        decreases raws@.len() - row,
    {
        let value: i128 = if validity.is_valid(row) {
            to_signed128(raws[row])
        } else {
            0
        };
        values.push(value);
        row += 1;
    }
    values
}

} // verus!
