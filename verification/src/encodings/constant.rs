//! Constant encoding: every row that is not NULL holds one shared value.
//!
//! The section is the shared value alone: its fixed-width slot, or for a
//! string a u32 byte length and the bytes. A column of NULLs spells zero.

use vstd::prelude::*;
use vstd::slice::slice_subrange;

use crate::bytes;
use crate::bytes::{get_le, get_le_wide, put_bytes, put_le, put_le_wide};
use crate::encodings::slots;
use crate::encodings::slots::{
    column_of_slots, declaration_fault, slot_accepted, slot_fault, slot_of, width_of,
};
use crate::error::{corrupt, invalid_argument, DevonResult, ErrorKind};
use crate::text::{and_name, and_number, text_from_utf8, with_name, with_number};
use crate::types;
use crate::types::{
    all_null, same_bytes, text_len, Bitmap, Column, LogicalType, Value, ValueView, MAX_PRECISION,
};

verus! {

/// The section bytes of an all-NULL column.
pub open spec fn zero_bytes(ty: LogicalType) -> Seq<u8> {
    match slots::slot_width(ty) {
        Some(width) => Seq::new(width, |i: int| 0u8),
        None => Seq::new(4, |i: int| 0u8),
    }
}

/// Whether all rows that are not NULL hold one value.
pub open spec fn one_value(rows: Seq<ValueView>) -> bool {
    forall|i: int, j: int|
        0 <= i < rows.len() && 0 <= j < rows.len() && #[trigger] rows[i] != ValueView::Null
            && #[trigger] rows[j] != ValueView::Null ==> rows[i] == rows[j]
}

/// Whether `value` is the shared value of the rows.
pub open spec fn is_shared(rows: Seq<ValueView>, value: ValueView) -> bool {
    value != ValueView::Null && rows.contains(value)
}

/// The spelling of a value, where the type admits it.
pub open spec fn spelling(ty: LogicalType, value: ValueView) -> Option<Seq<u8>> {
    match (ty, value) {
        (LogicalType::Int64, ValueView::Int64(_)) => Some(
            bytes::le_bytes(slots::value_slot(value), 8),
        ),
        (LogicalType::Timestamp, ValueView::Timestamp(_)) => Some(
            bytes::le_bytes(slots::value_slot(value), 8),
        ),
        (LogicalType::Float64, ValueView::Float64(_)) => Some(
            bytes::le_bytes(slots::value_slot(value), 8),
        ),
        (LogicalType::Bool, ValueView::Bool(_)) => Some(
            bytes::le_bytes(slots::value_slot(value), 1),
        ),
        (LogicalType::Decimal { .. }, ValueView::Decimal(_)) => Some(
            bytes::le_bytes(slots::value_slot(value), 16),
        ),
        (LogicalType::String, ValueView::String(text)) => {
            let encoded = vstd::utf8::encode_utf8(text);
            if encoded.len() <= u32::MAX {
                Some(bytes::le_bytes(encoded.len(), 4) + encoded)
            } else {
                None
            }
        },
        _ => None,
    }
}

/// What encoding these rows must answer; `None` is a refusal.
pub open spec fn encoding_of(rows: Seq<ValueView>, ty: LogicalType, section: Option<Seq<u8>>) -> bool {
    if !one_value(rows) {
        section is None
    } else if exists|value: ValueView| is_shared(rows, value) {
        exists|value: ValueView| #[trigger] is_shared(rows, value) && section == spelling(ty, value)
    } else {
        section == Some(zero_bytes(ty))
    }
}

/// The value that a section of `ty` spells.
pub open spec fn spelled_value(section: Seq<u8>, ty: LogicalType) -> Option<ValueView> {
    if ty == LogicalType::String {
        if section.len() >= 4 && bytes::le_at(section, 0, 4) == section.len() - 4
            && vstd::utf8::valid_utf8(section.subrange(4, section.len() as int)) {
            Some(
                ValueView::String(
                    vstd::utf8::decode_utf8(section.subrange(4, section.len() as int)),
                ),
            )
        } else {
            None
        }
    } else if ty matches LogicalType::Decimal { precision, scale } && !types::decimal_declared(
        precision,
        scale,
    ) {
        None
    } else {
        match slots::slot_width(ty) {
            Some(width) => if section.len() == width {
                slots::slot_value(ty, bytes::le_value(section))
            } else {
                None
            },
            None => None,
        }
    }
}

/// `value` in the rows that hold one, NULL in the others.
pub open spec fn filled(value: ValueView, bits: Seq<bool>, row_count: nat) -> Seq<ValueView> {
    Seq::new(
        row_count,
        |row: int|
            if types::bit_set(bits, row) {
                value
            } else {
                ValueView::Null
            },
    )
}

/// The rows that a section decodes to; `None` is a refusal.
pub open spec fn decoding_of(
    params: Seq<u8>,
    section: Seq<u8>,
    bits: Seq<bool>,
    row_count: nat,
    ty: LogicalType,
) -> Option<Seq<ValueView>> {
    if params != seq![0u8, 0, 0] {
        None
    } else if types::every_null(bits, row_count) && section != zero_bytes(ty) {
        None
    } else {
        match spelled_value(section, ty) {
            Some(value) => Some(filled(value, bits, row_count)),
            None => None,
        }
    }
}

/// The bytes of a fixed-width value, `None` for strings and for types that
/// the encoding does not admit.
pub fn value_section_len(ty: &LogicalType) -> (width: Option<usize>)
    ensures
        match slots::slot_width(*ty) {
            Some(n) => width == Some(n as usize) && n <= 16,
            None => width is None,
        },
{
    width_of(ty)
}

/// Encodes the values section as the one value that all rows share.
pub fn encode(column: &Column, ty: &LogicalType) -> (result: DevonResult<(Vec<u8>, [u8; 3])>)
    ensures
        match result {
            Ok((section, params)) => encoding_of(column.rows(), *ty, Some(section@)) && params@
                == seq![0u8, 0, 0],
            Err(error) => encoding_of(column.rows(), *ty, None) && error.kind_of()
                == ErrorKind::InvalidArgument,
        },
{
    let ghost rows = column.rows();
    let count: usize = column.len();
    let mut shared: Option<Value> = None;
    let mut row: usize = 0;
    while row < count
        invariant
            row <= count,
            count == column.row_count(),
            rows == column.rows(),
            match shared {
                None => forall|j: int| 0 <= j < row ==> #[trigger] rows[j] == ValueView::Null,
                Some(held) => {
                    &&& is_shared(rows, held@)
                    &&& forall|j: int|
                        0 <= j < row ==> #[trigger] rows[j] == ValueView::Null || rows[j] == held@
                },
            },
        decreases count - row,
    {
        let value: Value = column.value_at(row);
        let null: bool = match &value {
            Value::Null => true,
            _ => false,
        };
        if !null {
            match &shared {
                None => {
                    assert(rows[row as int] == value@);
                    shared = Some(value);
                },
                Some(held) => {
                    if !held.same(&value) {
                        proof {
                            assert(rows[row as int] == value@);
                            let at = choose|k: int| 0 <= k < rows.len() && rows[k] == held@;
                            assert(rows[at] == held@);
                            assert(!one_value(rows));
                        }
                        return Err(
                            invalid_argument(
                                with_number(
                                    "encoding constant requires one shared non-null value but row ",
                                    row as u64,
                                    " disagrees",
                                ).as_str(),
                            ),
                        );
                    }
                },
            }
        }
        row += 1;
    }
    proof {
        assert(one_value(rows));
    }
    match &shared {
        Some(held) => match encode_value(held, ty) {
            Ok(section) => Ok((section, [0u8, 0u8, 0u8])),
            Err(error) => Err(error),
        },
        None => {
            proof {
                assert forall|value: ValueView| !is_shared(rows, value) by {
                    if rows.contains(value) {
                        let at = choose|k: int| 0 <= k < rows.len() && rows[k] == value;
                        assert(rows[at] == ValueView::Null);
                    }
                }
            }
            Ok((zero_spelling(ty), [0u8, 0u8, 0u8]))
        },
    }
}

/// Decodes the shared value: every row that holds one holds it.
pub fn decode(
    params: [u8; 3],
    section: &[u8],
    validity: &Bitmap,
    row_count: usize,
    ty: &LogicalType,
) -> (result: DevonResult<Column>)
    ensures
        match result {
            Ok(column) => {
                &&& decoding_of(params@, section@, validity@, row_count as nat, *ty) == Some(
                    column.rows(),
                )
                &&& column.stored_as(*ty, validity@)
            },
            Err(error) => decoding_of(params@, section@, validity@, row_count as nat, *ty) is None
                && error.kind_of() == ErrorKind::Corrupt,
        },
{
    if params[0] != 0 || params[1] != 0 || params[2] != 0 {
        assert(params@ != seq![0u8, 0, 0]);
        return Err(corrupt("encoding constant parameters are not zero"));
    }
    assert(params@ =~= seq![0u8, 0, 0]);
    if all_null(validity, row_count) {
        let zero: Vec<u8> = zero_spelling(ty);
        if !same_bytes(section, zero.as_slice()) {
            return Err(
                corrupt("constant value slot is not the zero spelling but every row is NULL"),
            );
        }
    }
    match ty {
        LogicalType::String => decode_string(section, validity, row_count),
        _ => decode_fixed(section, validity, row_count, ty),
    }
}

/// The section bytes of an all-NULL column.
pub fn zero_spelling(ty: &LogicalType) -> (section: Vec<u8>)
    ensures
        section@ == zero_bytes(*ty),
{
    let width: usize = match value_section_len(ty) {
        Some(width) => width,
        None => 4,
    };
    let mut section: Vec<u8> = Vec::new();
    while section.len() < width
        invariant
            section@.len() <= width,
            forall|j: int| 0 <= j < section@.len() ==> section@[j] == 0,
        decreases width - section@.len(),
    {
        section.push(0);
    }
    assert(section@ =~= zero_bytes(*ty));
    section
}

fn encode_value(value: &Value, ty: &LogicalType) -> (result: DevonResult<Vec<u8>>)
    ensures
        match result {
            Ok(section) => spelling(*ty, value@) == Some(section@),
            Err(error) => spelling(*ty, value@) is None && error.kind_of()
                == ErrorKind::InvalidArgument,
        },
{
    let mut section: Vec<u8> = Vec::new();
    let width: usize = match (ty, value) {
        (LogicalType::Int64, Value::Int64(_)) => 8,
        (LogicalType::Timestamp, Value::Timestamp(_)) => 8,
        (LogicalType::Float64, Value::Float64(_)) => 8,
        (LogicalType::Bool, Value::Bool(_)) => 1,
        (LogicalType::Decimal { .. }, Value::Decimal(_)) => 16,
        (LogicalType::String, Value::String(text)) => {
            let len: usize = text_len(text.as_str());
            if len as u64 > u32::MAX as u64 {
                return Err(invalid_argument("encoding constant String value length exceeds u32"));
            }
            put_le(&mut section, len as u64, 4);
            put_bytes(&mut section, text.as_str().as_bytes());
            assert(section@ =~= bytes::le_bytes(len as nat, 4) + vstd::utf8::encode_utf8(text@));
            return Ok(section);
        },
        _ => {
            return Err(
                invalid_argument(
                    with_name("encoding constant value does not match ", ty.name(), "").as_str(),
                ),
            );
        },
    };
    put_le_wide(&mut section, slot_of(value), width);
    assert(section@ =~= bytes::le_bytes(slots::value_slot(value@), width as nat));
    Ok(section)
}

fn decode_fixed(
    section: &[u8],
    validity: &Bitmap,
    row_count: usize,
    ty: &LogicalType,
) -> (result: DevonResult<Column>)
    requires
        *ty != LogicalType::String,
    ensures
        match result {
            Ok(column) => {
                &&& spelled_value(section@, *ty) matches Some(value) && column.rows() == filled(
                    value,
                    validity@,
                    row_count as nat,
                )
                &&& column.stored_as(*ty, validity@)
            },
            Err(error) => spelled_value(section@, *ty) is None && error.kind_of()
                == ErrorKind::Corrupt,
        },
{
    if let LogicalType::Decimal { precision, scale } = ty {
        if *precision < 1 || *precision > MAX_PRECISION || *scale > *precision {
            return Err(corrupt(declaration_fault("constant", *precision, *scale).as_str()));
        }
    }
    let width: usize = match value_section_len(ty) {
        Some(width) => width,
        None => {
            return Err(
                corrupt(with_name("encoding constant is not admissible for ", ty.name(), "").as_str()),
            );
        },
    };
    if section.len() != width {
        return Err(
            corrupt(
                and_name(
                    and_number(
                        with_number(
                            "constant value section is ",
                            section.len() as u64,
                            " bytes, expected exactly ",
                        ),
                        width as u64,
                        " for ",
                    ),
                    ty.name(),
                    "",
                ).as_str(),
            ),
        );
    }
    let raw: u128 = get_le_wide(section, 0, width);
    assert(section@.subrange(0, width as int) =~= section@);
    if !slot_accepted(ty, raw) {
        return Err(corrupt(slot_fault("constant", ty, raw).as_str()));
    }
    let mut raws: Vec<u128> = Vec::new();
    while raws.len() < row_count
        invariant
            raws@.len() <= row_count,
            forall|j: int| 0 <= j < raws@.len() ==> raws@[j] == raw,
        decreases row_count - raws@.len(),
    {
        raws.push(raw);
    }
    let column: Column = column_of_slots(ty, &raws, validity);
    assert(column.rows() =~= filled(
        slots::slot_value(*ty, raw as nat)->0,
        validity@,
        row_count as nat,
    ));
    Ok(column)
}

fn decode_string(section: &[u8], validity: &Bitmap, row_count: usize) -> (result: DevonResult<
    Column,
>)
    ensures
        match result {
            Ok(column) => {
                &&& spelled_value(section@, LogicalType::String) matches Some(value)
                    && column.rows() == filled(value, validity@, row_count as nat)
                &&& column.stored_as(LogicalType::String, validity@)
            },
            Err(error) => spelled_value(section@, LogicalType::String) is None && error.kind_of()
                == ErrorKind::Corrupt,
        },
{
    if section.len() < 4 {
        return Err(
            corrupt(
                with_number(
                    "constant String value section is ",
                    section.len() as u64,
                    " bytes, expected at least 4",
                ).as_str(),
            ),
        );
    }
    let len: u64 = get_le(section, 0, 4);
    if (section.len() - 4) as u64 != len {
        return Err(
            corrupt(
                and_number(
                    and_number(
                        with_number(
                            "constant String value section is ",
                            section.len() as u64,
                            " bytes, expected ",
                        ),
                        len.saturating_add(4),
                        " for a ",
                    ),
                    len,
                    "-byte value",
                ).as_str(),
            ),
        );
    }
    let text: String = match text_from_utf8(slice_subrange(section, 4, section.len())) {
        Ok(text) => text,
        Err(fault) => {
            return Err(
                corrupt(
                    with_name("constant String is not valid UTF-8: ", fault.as_str(), "").as_str(),
                ),
            );
        },
    };
    let mut values: Vec<Value> = Vec::new();
    let mut row: usize = 0;
    while row < row_count
        invariant
            row <= row_count,
            values@.len() == row,
            forall|j: int|
                0 <= j < row ==> (#[trigger] values@[j])@ == if types::bit_set(validity@, j) {
                    ValueView::String(text@)
                } else {
                    ValueView::Null
                },
        decreases row_count - row,
    {
        if validity.is_valid(row) {
            values.push(Value::String(text.clone()));
        } else {
            values.push(Value::Null);
        }
        row += 1;
    }
    let column = Column::Boxed(values);
    assert(column.rows() =~= filled(ValueView::String(text@), validity@, row_count as nat));
    Ok(column)
}

/// What was encoded is decoded: the section of a column whose values all fit
/// its type gives the column's rows back.
pub proof fn law_constant_round_trip(rows: Seq<ValueView>, ty: LogicalType, section: Seq<u8>)
    requires
        encoding_of(rows, ty, Some(section)),
        ty == LogicalType::String || slots::slot_width(ty) is Some,
        ty matches LogicalType::Decimal { precision, scale } ==> types::decimal_declared(
            precision,
            scale,
        ),
        forall|i: int| 0 <= i < rows.len() ==> (#[trigger] rows[i]).fits_type(ty),
    ensures
        decoding_of(seq![0u8, 0, 0], section, types::validity_of(rows), rows.len(), ty) == Some(
            rows,
        ),
{
    let bits = types::validity_of(rows);
    bytes::lemma_radix_values();
    if exists|value: ValueView| is_shared(rows, value) {
        let value = choose|value: ValueView| #[trigger]
            is_shared(rows, value) && Some(section) == spelling(ty, value);
        let at = choose|k: int| 0 <= k < rows.len() && rows[k] == value;
        assert(rows[at] == value && rows[at].fits_type(ty));
        assert(types::bit_set(bits, at));
        if ty == LogicalType::String {
            let text = value->String_0;
            let encoded = vstd::utf8::encode_utf8(text);
            bytes::lemma_le_round_trip(encoded.len(), 4);
            assert(section.subrange(0, 4) =~= bytes::le_bytes(encoded.len(), 4));
            assert(section.subrange(4, section.len() as int) =~= encoded);
            vstd::utf8::encode_utf8_valid_utf8(text);
            vstd::utf8::encode_utf8_decode_utf8(text);
        } else {
            slots::lemma_slot_round_trip(ty, value);
            bytes::lemma_le_round_trip(slots::value_slot(value), slots::slot_width(ty)->0);
        }
        assert(filled(value, bits, rows.len()) =~= rows);
    } else {
        assert forall|row: int| 0 <= row < rows.len() implies #[trigger] rows[row]
            == ValueView::Null by {
            if rows[row] != ValueView::Null {
                assert(is_shared(rows, rows[row]));
            }
        }
        let zero = zero_bytes(ty);
        if ty == LogicalType::String {
            bytes::lemma_le_round_trip(0, 4);
            reveal_with_fuel(bytes::le_bytes, 5);
            assert(zero.subrange(0, 4) =~= bytes::le_bytes(0, 4));
            assert(zero.subrange(4, 4) =~= Seq::<u8>::empty());
        } else {
            let width = slots::slot_width(ty)->0;
            lemma_zero_value(width);
            if ty is Decimal {
                lemma_zero_fits(ty);
            }
        }
        let value = spelled_value(zero, ty)->0;
        assert(filled(value, bits, rows.len()) =~= rows);
    }
}

proof fn lemma_zero_value(width: nat)
    ensures
        bytes::le_value(Seq::new(width, |i: int| 0u8)) == 0,
    decreases width,
{
    if width > 0 {
        lemma_zero_value((width - 1) as nat);
        assert(Seq::new(width, |i: int| 0u8).drop_first() =~= Seq::new(
            (width - 1) as nat,
            |i: int| 0u8,
        ));
    }
}

proof fn lemma_zero_fits(ty: LogicalType)
    requires
        ty is Decimal,
    ensures
        slots::slot_value(ty, 0) is Some,
{
    types::lemma_pow10_positive(ty->precision as nat);
}

} // verus!
