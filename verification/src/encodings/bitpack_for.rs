//! Bit-packing with a frame of reference, for integers and timestamps.
//!
//! The section is the i64 reference (the minimum), the bit width, three zero
//! bytes, then blocks of 1024 deltas. A block holds one plane per bit, a
//! plane sixteen u64 words, and bit `lane` of word `word` belongs to the
//! in-block slot `16 * lane + word`.

use vstd::prelude::*;
use vstd::slice::slice_subrange;

use crate::bits;
use crate::bits::{bit_of, bit_width};
use crate::bytes;
use crate::bytes::{get_le, put_le};
use crate::encodings::slots;
use crate::encodings::slots::{to_signed64, to_unsigned64};
use crate::error::{corrupt, invalid_argument, DevonResult, ErrorKind};
use crate::text::{and_number, signed_text, with_name, with_number};
use crate::types;
use crate::types::{all_null, column_validity, is_row_valid, Bitmap, Column, LogicalType, ValueView};

verus! {

/// Slots of a block.
pub const BLOCK_ROWS: usize = 1024;

/// Bytes of a plane: sixteen words.
pub const PLANE_BYTES: usize = 128;

/// Bytes before the first block.
pub const HEADER_LEN: usize = 12;

/// The integer in a row, where the row holds one.
pub open spec fn row_int(value: ValueView) -> Option<int> {
    match value {
        ValueView::Int64(number) => Some(number as int),
        ValueView::Timestamp(number) => Some(number as int),
        _ => None,
    }
}

/// Whether the column is stored in the typed form of `ty`.
pub open spec fn typed_storage(column: Column, ty: LogicalType) -> bool {
    (ty is Int64 && column is Int64) || (ty is Timestamp && column is Timestamp)
}

/// Whether `reference` is the least value of the rows, zero without any.
pub open spec fn is_reference(rows: Seq<ValueView>, reference: int) -> bool {
    if forall|i: int| 0 <= i < rows.len() ==> row_int(#[trigger] rows[i]) is None {
        reference == 0
    } else {
        &&& exists|i: int| 0 <= i < rows.len() && row_int(#[trigger] rows[i]) == Some(reference)
        &&& forall|i: int|
            0 <= i < rows.len() && row_int(#[trigger] rows[i]) is Some ==> reference <= row_int(
                rows[i],
            )->0
    }
}

/// The delta of a slot: zero for a NULL row and past the last row.
pub open spec fn delta(rows: Seq<ValueView>, reference: int, slot: int) -> nat {
    if 0 <= slot < rows.len() && row_int(rows[slot]) is Some {
        (row_int(rows[slot])->0 - reference) as nat
    } else {
        0
    }
}

/// Whether `width` is the least width that holds every delta.
pub open spec fn is_width(rows: Seq<ValueView>, reference: int, width: nat) -> bool {
    &&& forall|i: int|
        0 <= i < rows.len() ==> #[trigger] delta(rows, reference, i) < bits::two_pow(width)
    &&& width == 0 || exists|i: int|
        0 <= i < rows.len() && #[trigger] delta(rows, reference, i) >= bits::two_pow(
            (width - 1) as nat,
        )
}

/// The deltas of one block; slots behind the last row have none.
pub open spec fn block_deltas(rows: Seq<ValueView>, reference: int, block: int) -> Seq<nat> {
    Seq::new(1024, |slot: int| delta(rows, reference, block * 1024 + slot))
}

/// Unsigned numbers as natural ones.
pub open spec fn naturals(deltas: Seq<u64>) -> Seq<nat> {
    deltas.map_values(|delta: u64| delta as nat)
}

/// The lanes of one word: bit `plane` of the slots that the word holds.
pub open spec fn lanes(deltas: Seq<nat>, plane: int, word: int) -> Seq<nat> {
    Seq::new(64, |lane: int| bits::bit(deltas[16 * lane + word], plane as nat))
}

/// The words of one plane.
pub open spec fn plane_words(deltas: Seq<nat>, plane: int) -> Seq<Seq<u8>> {
    Seq::new(16, |word: int| bytes::le_bytes(bits::bits_value(lanes(deltas, plane, word)), 8))
}

/// The planes of one block.
pub open spec fn block_planes(deltas: Seq<nat>, width: nat) -> Seq<Seq<u8>> {
    Seq::new(width, |plane: int| bytes::joined(plane_words(deltas, plane)))
}

/// The bytes of one block.
pub open spec fn packed_block(deltas: Seq<nat>, width: nat) -> Seq<u8> {
    bytes::joined(block_planes(deltas, width))
}

/// The delta that a block's bytes hold in a slot.
pub open spec fn slot_delta(block: Seq<u8>, width: nat, slot: int) -> nat {
    bits::bits_value(
        Seq::new(
            width,
            |plane: int|
                bits::bit(
                    bytes::le_at(block, plane * 128 + (slot % 16) * 8, 8),
                    (slot / 16) as nat,
                ),
        ),
    )
}

/// The blocks of a column.
pub open spec fn blocks(rows: Seq<ValueView>, reference: int, width: nat) -> Seq<Seq<u8>> {
    Seq::new(
        block_count(rows.len()),
        |block: int| packed_block(block_deltas(rows, reference, block), width),
    )
}

/// How many blocks the rows take.
pub open spec fn block_count(row_count: nat) -> nat {
    (row_count + 1023) / 1024
}

/// The section for a reference and a width.
pub open spec fn section_of(rows: Seq<ValueView>, reference: int, width: nat) -> Seq<u8> {
    bytes::le_bytes(slots::unsigned64(reference), 8) + seq![width as u8, 0, 0, 0] + bytes::joined(
        blocks(rows, reference, width),
    )
}

/// Whether the section is the encoding of the rows.
pub open spec fn is_encoding(rows: Seq<ValueView>, section: Seq<u8>, params: Seq<u8>) -> bool {
    exists|reference: int, width: nat|
        #![trigger section_of(rows, reference, width)]
        {
            &&& is_reference(rows, reference)
            &&& is_width(rows, reference, width)
            &&& width <= 64
            &&& section == section_of(rows, reference, width)
            &&& params == seq![width as u8, 0, 0]
        }
}

/// The reference that a section names.
pub open spec fn section_reference(section: Seq<u8>) -> int {
    slots::signed64(bytes::le_at(section, 0, 8))
}

/// The bytes of a section's block.
pub open spec fn section_block(section: Seq<u8>, block: int) -> Seq<u8> {
    let stride = section[8] as nat * 128;
    section.subrange(12 + block * stride, 12 + block * stride + stride)
}

/// The delta that a section holds for a row.
pub open spec fn packed_delta(section: Seq<u8>, row: int) -> nat {
    slot_delta(section_block(section, row / 1024), section[8] as nat, row % 1024)
}

/// Whether the header and the length of a section are as the format says.
pub open spec fn framed(params: Seq<u8>, section: Seq<u8>, row_count: nat) -> bool {
    &&& params[1] == 0 && params[2] == 0
    &&& section.len() >= 12
    &&& section[9] == 0 && section[10] == 0 && section[11] == 0
    &&& section[8] <= 64
    &&& params[0] == section[8]
    &&& section.len() == 12 + block_count(row_count) * (section[8] as nat * 128)
}

/// Whether the delta of a row is one that the format allows: zero for a
/// NULL row and past the last row, else within the i64 range.
pub open spec fn delta_allowed(section: Seq<u8>, bits: Seq<bool>, row_count: nat, row: int) -> bool {
    if row < row_count && types::bit_set(bits, row) {
        section_reference(section) + packed_delta(section, row) <= i64::MAX
    } else {
        packed_delta(section, row) == 0
    }
}

/// The rows that a section decodes to; `None` is a refusal.
pub open spec fn decoding_of(
    params: Seq<u8>,
    section: Seq<u8>,
    bits: Seq<bool>,
    row_count: nat,
    ty: LogicalType,
) -> Option<Seq<ValueView>> {
    if !(ty is Int64 || ty is Timestamp) || !framed(params, section, row_count) {
        None
    } else if types::every_null(bits, row_count) && section_reference(section) != 0 {
        None
    } else if exists|row: int|
        0 <= row < block_count(row_count) * 1024 && !#[trigger] delta_allowed(
            section,
            bits,
            row_count,
            row,
        ) {
        None
    } else {
        Some(
            Seq::new(
                row_count,
                |row: int|
                    if !types::bit_set(bits, row) {
                        ValueView::Null
                    } else if ty is Int64 {
                        ValueView::Int64(
                            (section_reference(section) + packed_delta(section, row)) as i64,
                        )
                    } else {
                        ValueView::Timestamp(
                            (section_reference(section) + packed_delta(section, row)) as i64,
                        )
                    },
            ),
        )
    }
}

/// Encodes the values section.
pub fn encode(column: &Column, ty: &LogicalType) -> (result: DevonResult<(Vec<u8>, [u8; 3])>)
    ensures
        match result {
            Ok((section, params)) => typed_storage(*column, *ty) && is_encoding(
                column.rows(),
                section@,
                params@,
            ),
            Err(error) => !typed_storage(*column, *ty) && error.kind_of()
                == ErrorKind::InvalidArgument,
        },
{
    match (ty, column) {
        (LogicalType::Int64, Column::Int64 { values, validity }) => {
            let ghost rows = column.rows();
            assert(rows_are(rows, values@, *validity));
            Ok(encode_slots(values, validity, Ghost(rows)))
        },
        (LogicalType::Timestamp, Column::Timestamp { values, validity }) => {
            let ghost rows = column.rows();
            assert(rows_are(rows, values@, *validity));
            Ok(encode_slots(values, validity, Ghost(rows)))
        },
        _ => Err(
            invalid_argument(
                with_name(
                    "encoding bitpack_for column storage does not match ",
                    ty.name(),
                    "",
                ).as_str(),
            ),
        ),
    }
}

/// Whether the rows are these slots under this validity.
pub open spec fn rows_are(rows: Seq<ValueView>, values: Seq<i64>, validity: Option<Bitmap>) -> bool {
    &&& rows.len() == values.len()
    &&& forall|i: int|
        0 <= i < rows.len() ==> row_int(#[trigger] rows[i]) == if types::row_valid(validity, i) {
            Some(values[i] as int)
        } else {
            None
        }
}

fn encode_slots(
    values: &Vec<i64>,
    validity: &Option<Bitmap>,
    Ghost(rows): Ghost<Seq<ValueView>>,
) -> (encoded: (Vec<u8>, [u8; 3]))
    requires
        rows_are(rows, values@, *validity),
    ensures
        is_encoding(rows, encoded.0@, encoded.1@),
{
    let reference: i64 = reference_of(values, validity, Ghost(rows));
    let width: u8 = bit_width_of(values, validity, reference, Ghost(rows));
    let mut section: Vec<u8> = Vec::new();
    put_le(&mut section, to_unsigned64(reference), 8);
    section.push(width);
    section.push(0);
    section.push(0);
    section.push(0);
    let ghost head = section@;
    assert(head =~= bytes::le_bytes(slots::unsigned64(reference as int), 8) + seq![
        width,
        0u8,
        0,
        0,
    ]);
    let ghost all = blocks(rows, reference as int, width as nat);
    let count: usize = values.len() / BLOCK_ROWS + if values.len() % BLOCK_ROWS == 0 {
        0
    } else {
        1
    };
    assert(count == block_count(rows.len()));
    let mut block: usize = 0;
    assert(all.subrange(0, 0) =~= Seq::<Seq<u8>>::empty());
    assert(section@ =~= head + bytes::joined(all.subrange(0, 0)));
    while block < count
        invariant
            block <= count,
            count == block_count(rows.len()),
            width <= 64,
            rows_are(rows, values@, *validity),
            is_reference(rows, reference as int),
            is_width(rows, reference as int, width as nat),
            all == blocks(rows, reference as int, width as nat),
            section@ == head + bytes::joined(all.subrange(0, block as int)),
        decreases count - block,
    {
        let deltas: Vec<u64> = fill_deltas(values, validity, reference, block, Ghost(rows));
        let ghost before = section@;
        pack_block(&deltas, width, &mut section);
        proof {
            let next = all.subrange(0, block + 1);
            assert(next.drop_last() =~= all.subrange(0, block as int));
            assert(naturals(deltas@) =~= block_deltas(rows, reference as int, block as int));
            assert(section@ =~= head + bytes::joined(next));
        }
        block += 1;
    }
    assert(all.subrange(0, count as int) =~= all);
    let params: [u8; 3] = [width, 0u8, 0u8];
    assert(params@ =~= seq![width, 0u8, 0]);
    assert(section@ =~= section_of(rows, reference as int, width as nat));
    (section, params)
}

/// The least value of the rows that hold one, zero without any.
fn reference_of(
    values: &Vec<i64>,
    validity: &Option<Bitmap>,
    Ghost(rows): Ghost<Seq<ValueView>>,
) -> (reference: i64)
    requires
        rows_are(rows, values@, *validity),
    ensures
        is_reference(rows, reference as int),
{
    let mut reference: Option<i64> = None;
    let mut row: usize = 0;
    while row < values.len()
        invariant
            row <= values@.len(),
            rows_are(rows, values@, *validity),
            match reference {
                None => forall|i: int| 0 <= i < row ==> row_int(#[trigger] rows[i]) is None,
                Some(least) => {
                    &&& exists|i: int|
                        0 <= i < row && row_int(#[trigger] rows[i]) == Some(least as int)
                    &&& forall|i: int|
                        0 <= i < row && row_int(#[trigger] rows[i]) is Some ==> least <= row_int(
                            rows[i],
                        )->0
                },
            },
        decreases values@.len() - row,
    {
        assert(row_int(rows[row as int]) == if types::row_valid(*validity, row as int) {
            Some(values@[row as int] as int)
        } else {
            None
        });
        if is_row_valid(validity, row) {
            let value: i64 = values[row];
            match reference {
                None => {
                    reference = Some(value);
                },
                Some(least) => {
                    if value < least {
                        reference = Some(value);
                    }
                },
            }
        }
        row += 1;
    }
    match reference {
        Some(least) => least,
        None => 0,
    }
}

/// The least width that holds every delta.
fn bit_width_of(
    values: &Vec<i64>,
    validity: &Option<Bitmap>,
    reference: i64,
    Ghost(rows): Ghost<Seq<ValueView>>,
) -> (width: u8)
    requires
        rows_are(rows, values@, *validity),
        is_reference(rows, reference as int),
    ensures
        width <= 64,
        is_width(rows, reference as int, width as nat),
{
    let mut widest: u64 = 0;
    let mut row: usize = 0;
    while row < values.len()
        invariant
            row <= values@.len(),
            rows_are(rows, values@, *validity),
            is_reference(rows, reference as int),
            forall|i: int| 0 <= i < row ==> #[trigger] delta(rows, reference as int, i) <= widest,
            widest == 0 || exists|i: int|
                0 <= i < row && #[trigger] delta(rows, reference as int, i) == widest,
        decreases values@.len() - row,
    {
        assert(row_int(rows[row as int]) == if types::row_valid(*validity, row as int) {
            Some(values@[row as int] as int)
        } else {
            None
        });
        if is_row_valid(validity, row) {
            let distance: u64 = delta_of(values[row], reference);
            assert(delta(rows, reference as int, row as int) == distance);
            if distance > widest {
                widest = distance;
            }
        } else {
            assert(delta(rows, reference as int, row as int) == 0);
        }
        row += 1;
    }
    let width: u8 = bit_width(widest);
    width
}

/// The distance of a value from the reference below it.
fn delta_of(value: i64, reference: i64) -> (distance: u64)
    requires
        reference <= value,
    ensures
        distance == value - reference,
{
    (value as i128 - reference as i128) as u64
}

/// The deltas of one block.
fn fill_deltas(
    values: &Vec<i64>,
    validity: &Option<Bitmap>,
    reference: i64,
    block: usize,
    Ghost(rows): Ghost<Seq<ValueView>>,
) -> (deltas: Vec<u64>)
    requires
        rows_are(rows, values@, *validity),
        is_reference(rows, reference as int),
        block < block_count(values@.len()),
    ensures
        deltas@.len() == 1024,
        forall|slot: int|
            0 <= slot < 1024 ==> #[trigger] deltas@[slot] == delta(
                rows,
                reference as int,
                block * 1024 + slot,
            ),
{
    let mut deltas: Vec<u64> = Vec::new();
    let total: usize = values.len();
    assert(block * 1024 < total);
    let start: usize = block * BLOCK_ROWS;
    let mut slot: usize = 0;
    while slot < BLOCK_ROWS
        invariant
            slot <= 1024,
            start == block * 1024,
            start < values@.len(),
            rows_are(rows, values@, *validity),
            is_reference(rows, reference as int),
            deltas@.len() == slot,
            forall|j: int|
                0 <= j < slot ==> #[trigger] deltas@[j] == delta(
                    rows,
                    reference as int,
                    block * 1024 + j,
                ),
        decreases 1024 - slot,
    {
        let mut distance: u64 = 0;
        if slot < values.len() - start {
            let row: usize = start + slot;
            assert(row_int(rows[row as int]) == if types::row_valid(*validity, row as int) {
                Some(values@[row as int] as int)
            } else {
                None
            });
            if is_row_valid(validity, row) {
                distance = delta_of(values[row], reference);
            }
        }
        deltas.push(distance);
        slot += 1;
    }
    deltas
}

/// Packs one block: plane by plane, word by word.
pub fn pack_block(deltas: &Vec<u64>, width: u8, out: &mut Vec<u8>)
    requires
        width <= 64,
        deltas@.len() == 1024,
    ensures
        final(out)@ == old(out)@ + packed_block(naturals(deltas@), width as nat),
{
    let ghost all = block_planes(naturals(deltas@), width as nat);
    let mut plane: u8 = 0;
    assert(all.subrange(0, 0) =~= Seq::<Seq<u8>>::empty());
    assert(out@ =~= old(out)@ + bytes::joined(all.subrange(0, 0)));
    while plane < width
        invariant
            plane <= width <= 64,
            deltas@.len() == 1024,
            all == block_planes(naturals(deltas@), width as nat),
            out@ == old(out)@ + bytes::joined(all.subrange(0, plane as int)),
        decreases width - plane,
    {
        let ghost before = out@;
        let ghost words = plane_words(naturals(deltas@), plane as int);
        let mut word: usize = 0;
        assert(words.subrange(0, 0) =~= Seq::<Seq<u8>>::empty());
        assert(out@ =~= before + bytes::joined(words.subrange(0, 0)));
        while word < 16
            invariant
                word <= 16,
                plane < width <= 64,
                deltas@.len() == 1024,
                words == plane_words(naturals(deltas@), plane as int),
                out@ == before + bytes::joined(words.subrange(0, word as int)),
            decreases 16 - word,
        {
            let packed: u64 = pack_word(deltas, plane, word);
            let ghost prior = out@;
            put_le(out, packed, 8);
            proof {
                let next = words.subrange(0, word + 1);
                assert(next.drop_last() =~= words.subrange(0, word as int));
                assert(out@ =~= before + bytes::joined(next));
            }
            word += 1;
        }
        proof {
            assert(words.subrange(0, 16) =~= words);
            let next = all.subrange(0, plane + 1);
            assert(next.drop_last() =~= all.subrange(0, plane as int));
            assert(next.last() == bytes::joined(words));
            assert(out@ =~= old(out)@ + bytes::joined(next));
        }
        plane += 1;
    }
    assert(all.subrange(0, width as int) =~= all);
}

fn pack_word(deltas: &Vec<u64>, plane: u8, word: usize) -> (packed: u64)
    requires
        plane < 64,
        word < 16,
        deltas@.len() == 1024,
    ensures
        packed == bits::bits_value(lanes(naturals(deltas@), plane as int, word as int)),
{
    let ghost digits = lanes(naturals(deltas@), plane as int, word as int);
    let mut packed: u64 = 0;
    let mut lane: usize = 64;
    proof {
        bits::lemma_two_pow_64();
        assert(digits.skip(64) =~= Seq::<nat>::empty());
    }
    while lane > 0
        invariant
            lane <= 64,
            plane < 64,
            word < 16,
            deltas@.len() == 1024,
            digits == lanes(naturals(deltas@), plane as int, word as int),
            packed == bits::bits_value(digits.skip(lane as int)),
            bits::two_pow(64) == 0x1_0000_0000_0000_0000,
        decreases lane,
    {
        let ghost tail = digits.skip(lane as int);
        lane -= 1;
        let digit: u64 = bit_of(deltas[16 * lane + word], plane as u64);
        proof {
            let next = digits.skip(lane as int);
            assert(next.drop_first() =~= tail);
            assert(naturals(deltas@)[16 * lane + word] == deltas@[16 * lane + word]);
            assert(next[0] == digit);
            assert forall|i: int| 0 <= i < next.len() implies #[trigger] next[i] < 2 by {
                bits::lemma_bit_range(naturals(deltas@)[16 * (lane + i) + word], plane as nat);
            }
            bits::lemma_bits_value_bound(next);
            bits::lemma_two_pow_monotone(next.len(), 64);
        }
        packed = packed * 2 + digit;
    }
    assert(digits.skip(0) =~= digits);
    packed
}

/// Decodes a section into the typed column.
pub fn decode(
    params: [u8; 3],
    section: &[u8],
    validity: &Bitmap,
    row_count: usize,
    ty: &LogicalType,
) -> (result: DevonResult<Column>)
    ensures
        match result {
            Ok(column) => {
                &&& decoding_of(params@, section@, validity@, row_count as nat, *ty) == Some(
                    column.rows(),
                )
                &&& column.stored_as(*ty, validity@)
            },
            Err(error) => decoding_of(params@, section@, validity@, row_count as nat, *ty) is None
                && error.kind_of() == ErrorKind::Corrupt,
        },
{
    let integer: bool = match ty {
        LogicalType::Int64 => true,
        LogicalType::Timestamp => true,
        _ => false,
    };
    if !integer {
        return Err(
            corrupt(with_name("encoding bitpack_for is not admissible for ", ty.name(), "").as_str()),
        );
    }
    let (reference, width): (i64, u8) = match header(params, section) {
        Ok(fields) => fields,
        Err(error) => {
            return Err(error);
        },
    };
    let block_total: usize = row_count / BLOCK_ROWS + if row_count % BLOCK_ROWS == 0 {
        0
    } else {
        1
    };
    assert(block_total == block_count(row_count as nat));
    let block_bytes: usize = width as usize * PLANE_BYTES;
    let size: usize = section.len();
    assert(block_total * block_bytes == block_count(row_count as nat) * (section@[8] as nat * 128));
    let expected: usize = match block_total.checked_mul(block_bytes) {
        Some(body) => match body.checked_add(HEADER_LEN) {
            Some(total) => total,
            None => {
                return Err(corrupt("bitpack_for section length overflows"));
            },
        },
        None => {
            return Err(corrupt("bitpack_for section length overflows"));
        },
    };
    if size != expected {
        return Err(
            corrupt(
                and_number(
                    and_number(
                        and_number(
                            with_number(
                                "bitpack_for section is ",
                                size as u64,
                                " bytes, expected exactly ",
                            ),
                            expected as u64,
                            " for ",
                        ),
                        row_count as u64,
                        " rows at bit width ",
                    ),
                    width as u64,
                    "",
                ).as_str(),
            ),
        );
    }
    if all_null(validity, row_count) && reference != 0 {
        return Err(
            corrupt(
                with_name(
                    "bitpack_for reference is ",
                    signed_text(reference).as_str(),
                    " but every row is NULL",
                ).as_str(),
            ),
        );
    }
    match decode_blocks(section, reference, width, validity, row_count) {
        Ok(values) => {
            let kept: Option<Bitmap> = column_validity(validity, row_count);
            let column = match ty {
                LogicalType::Int64 => Column::Int64 { values, validity: kept },
                _ => Column::Timestamp { values, validity: kept },
            };
            proof {
                let want = decoding_of(params@, section@, validity@, row_count as nat, *ty)->0;
                assert forall|row: int| 0 <= row < row_count implies column.row(row)
                    == want[row] by {
                    assert(row < block_count(row_count as nat) * 1024);
                    assert(delta_allowed(section@, validity@, row_count as nat, row));
                    if kept is None {
                        assert(types::bit_set(validity@, row));
                    }
                }
                assert(column.rows() =~= want);
            }
            Ok(column)
        },
        Err(error) => Err(error),
    }
}

/// Validates the header against the parameters.
fn header(params: [u8; 3], section: &[u8]) -> (result: DevonResult<(i64, u8)>)
    ensures
        match result {
            Ok((reference, width)) => {
                &&& params@[1] == 0 && params@[2] == 0
                &&& section@.len() >= 12
                &&& section@[9] == 0 && section@[10] == 0 && section@[11] == 0
                &&& section@[8] <= 64
                &&& params@[0] == section@[8]
                &&& width == section@[8]
                &&& reference == section_reference(section@)
            },
            Err(error) => {
                &&& forall|row_count: nat| !framed(params@, section@, row_count)
                &&& error.kind_of() == ErrorKind::Corrupt
            },
        },
{
    if params[1] != 0 || params[2] != 0 {
        return Err(corrupt("encoding bitpack_for parameters p1/p2 are not zero"));
    }
    if section.len() < HEADER_LEN {
        return Err(
            corrupt(
                with_number(
                    "bitpack_for header is ",
                    section.len() as u64,
                    " bytes, expected at least 12",
                ).as_str(),
            ),
        );
    }
    if section[9] != 0 || section[10] != 0 || section[11] != 0 {
        return Err(corrupt("bitpack_for reserved header bytes are not zero"));
    }
    let width: u8 = section[8];
    if width > 64 {
        return Err(
            corrupt(with_number("bitpack_for bit width ", width as u64, " exceeds 64").as_str()),
        );
    }
    if params[0] != width {
        return Err(
            corrupt(
                and_number(
                    with_number(
                        "bitpack_for directory parameter bit width ",
                        params[0] as u64,
                        " disagrees with the section bit width ",
                    ),
                    width as u64,
                    "",
                ).as_str(),
            ),
        );
    }
    let reference: i64 = to_signed64(get_le(section, 0, 8));
    Ok((reference, width))
}

/// Unpacks every block and applies the deltas.
fn decode_blocks(
    section: &[u8],
    reference: i64,
    width: u8,
    validity: &Bitmap,
    row_count: usize,
) -> (result: DevonResult<Vec<i64>>)
    requires
        width <= 64,
        section@.len() == 12 + block_count(row_count as nat) * (width as nat * 128),
        width == section@[8],
        reference == section_reference(section@),
    ensures
        match result {
            Ok(values) => {
                &&& values@.len() == row_count
                &&& forall|row: int|
                    0 <= row < block_count(row_count as nat) * 1024 ==> #[trigger] delta_allowed(
                        section@,
                        validity@,
                        row_count as nat,
                        row,
                    )
                &&& forall|row: int|
                    0 <= row < row_count ==> #[trigger] values@[row] == if types::bit_set(
                        validity@,
                        row,
                    ) {
                        reference + packed_delta(section@, row)
                    } else {
                        0
                    }
            },
            Err(error) => {
                &&& exists|row: int|
                    0 <= row < block_count(row_count as nat) * 1024 && !#[trigger] delta_allowed(
                        section@,
                        validity@,
                        row_count as nat,
                        row,
                    )
                &&& error.kind_of() == ErrorKind::Corrupt
            },
        },
{
    let mut values: Vec<i64> = Vec::new();
    let total: usize = row_count / BLOCK_ROWS + if row_count % BLOCK_ROWS == 0 {
        0
    } else {
        1
    };
    let mut block: usize = 0;
    while block < total
        invariant
            block <= total,
            total == block_count(row_count as nat),
            width <= 64,
            width == section@[8],
            reference == section_reference(section@),
            section@.len() == 12 + total * (width as nat * 128),
            values@.len() == if block * 1024 <= row_count {
                (block * 1024) as nat
            } else {
                row_count as nat
            },
            forall|row: int|
                0 <= row < block * 1024 ==> #[trigger] delta_allowed(
                    section@,
                    validity@,
                    row_count as nat,
                    row,
                ),
            forall|row: int|
                0 <= row < values@.len() ==> #[trigger] values@[row] == if types::bit_set(
                    validity@,
                    row,
                ) {
                    reference + packed_delta(section@, row)
                } else {
                    0
                },
        decreases total - block,
    {
        proof {
            let stride: int = width as int * 128;
            assert(block * stride + stride <= total * stride) by (nonlinear_arith)
                requires
                    block + 1 <= total,
                    stride >= 0,
            ;
            assert(block * stride >= 0) by (nonlinear_arith)
                requires
                    stride >= 0,
            ;
        }
        let stride: usize = width as usize * PLANE_BYTES;
        let size: usize = section.len();
        let start: usize = HEADER_LEN + block * stride;
        let deltas: Vec<u64> = unpack_block(
            slice_subrange(section, start, start + stride),
            width,
        );
        proof {
            assert forall|slot: int| 0 <= slot < 1024 implies #[trigger] deltas@[slot]
                == packed_delta(section@, block * 1024 + slot) by {
                let row = block * 1024 + slot;
                assert(row / 1024 == block && row % 1024 == slot);
            }
        }
        match apply_deltas(&mut values, &deltas, reference, validity, row_count, block, section) {
            Ok(()) => {},
            Err(error) => {
                return Err(error);
            },
        }
        block += 1;
    }
    Ok(values)
}

/// The deltas of one block: the exact inverse of packing it.
pub fn unpack_block(block: &[u8], width: u8) -> (deltas: Vec<u64>)
    requires
        width <= 64,
        block@.len() == width * 128,
    ensures
        deltas@.len() == 1024,
        forall|slot: int|
            0 <= slot < 1024 ==> #[trigger] deltas@[slot] == slot_delta(
                block@,
                width as nat,
                slot,
            ),
{
    let mut deltas: Vec<u64> = Vec::new();
    let mut slot: usize = 0;
    while slot < BLOCK_ROWS
        invariant
            slot <= 1024,
            width <= 64,
            block@.len() == width * 128,
            deltas@.len() == slot,
            forall|j: int|
                0 <= j < slot ==> #[trigger] deltas@[j] == slot_delta(block@, width as nat, j),
        decreases 1024 - slot,
    {
        let value: u64 = unpack_slot(block, width, slot);
        deltas.push(value);
        slot += 1;
    }
    deltas
}

fn unpack_slot(block: &[u8], width: u8, slot: usize) -> (value: u64)
    requires
        width <= 64,
        slot < 1024,
        block@.len() == width * 128,
    ensures
        value == slot_delta(block@, width as nat, slot as int),
{
    let word: usize = slot % 16;
    let lane: usize = slot / 16;
    let ghost digits = Seq::new(
        width as nat,
        |plane: int|
            bits::bit(
                bytes::le_at(block@, plane * 128 + (slot as int % 16) * 8, 8),
                (slot as int / 16) as nat,
            ),
    );
    let mut value: u64 = 0;
    let mut plane: usize = width as usize;
    proof {
        bits::lemma_two_pow_64();
        assert(digits.skip(width as int) =~= Seq::<nat>::empty());
    }
    while plane > 0
        invariant
            plane <= width <= 64,
            word == slot % 16,
            lane == slot / 16,
            slot < 1024,
            block@.len() == width * 128,
            digits == Seq::new(
                width as nat,
                |plane: int|
                    bits::bit(
                        bytes::le_at(block@, plane * 128 + (slot as int % 16) * 8, 8),
                        (slot as int / 16) as nat,
                    ),
            ),
            value == bits::bits_value(digits.skip(plane as int)),
            bits::two_pow(64) == 0x1_0000_0000_0000_0000,
        decreases plane,
    {
        let ghost tail = digits.skip(plane as int);
        plane -= 1;
        let packed: u64 = get_le(block, plane * PLANE_BYTES + word * 8, 8);
        let digit: u64 = bit_of(packed, lane as u64);
        proof {
            let next = digits.skip(plane as int);
            assert(next.drop_first() =~= tail);
            assert(next[0] == digit);
            assert forall|i: int| 0 <= i < next.len() implies #[trigger] next[i] < 2 by {
                bits::lemma_bit_range(
                    bytes::le_at(block@, (plane + i) * 128 + word * 8, 8),
                    lane as nat,
                );
            }
            bits::lemma_bits_value_bound(next);
            bits::lemma_two_pow_monotone(next.len(), 64);
        }
        value = value * 2 + digit;
    }
    assert(digits.skip(0) =~= digits);
    value
}

/// Adds the values of one block, holding the zero laws and the i64 range.
fn apply_deltas(
    values: &mut Vec<i64>,
    deltas: &Vec<u64>,
    reference: i64,
    validity: &Bitmap,
    row_count: usize,
    block: usize,
    section: &[u8],
) -> (result: DevonResult<()>)
    requires
        deltas@.len() == 1024,
        block < block_count(row_count as nat),
        old(values)@.len() == block * 1024,
        reference == section_reference(section@),
        forall|slot: int|
            0 <= slot < 1024 ==> #[trigger] deltas@[slot] == packed_delta(
                section@,
                block * 1024 + slot,
            ),
        forall|row: int|
            0 <= row < old(values)@.len() ==> #[trigger] old(values)@[row] == if types::bit_set(
                validity@,
                row,
            ) {
                reference + packed_delta(section@, row)
            } else {
                0
            },
    ensures
        match result {
            Ok(()) => {
                &&& final(values)@.len() == if (block + 1) * 1024 <= row_count {
                    ((block + 1) * 1024) as nat
                } else {
                    row_count as nat
                }
                &&& forall|row: int|
                    block * 1024 <= row < (block + 1) * 1024 ==> #[trigger] delta_allowed(
                        section@,
                        validity@,
                        row_count as nat,
                        row,
                    )
                &&& forall|row: int|
                    0 <= row < final(values)@.len() ==> #[trigger] final(values)@[row]
                        == if types::bit_set(validity@, row) {
                        reference + packed_delta(section@, row)
                    } else {
                        0
                    }
            },
            Err(error) => {
                &&& exists|row: int|
                    0 <= row < block_count(row_count as nat) * 1024 && !#[trigger] delta_allowed(
                        section@,
                        validity@,
                        row_count as nat,
                        row,
                    )
                &&& error.kind_of() == ErrorKind::Corrupt
            },
        },
{
    let start: usize = values.len();
    let mut slot: usize = 0;
    while slot < BLOCK_ROWS
        invariant
            slot <= 1024,
            start == block * 1024,
            start < row_count,
            block < block_count(row_count as nat),
            deltas@.len() == 1024,
            reference == section_reference(section@),
            forall|j: int|
                0 <= j < 1024 ==> #[trigger] deltas@[j] == packed_delta(
                    section@,
                    block * 1024 + j,
                ),
            values@.len() == if start + slot <= row_count {
                (start + slot) as nat
            } else {
                row_count as nat
            },
            forall|row: int|
                start <= row < start + slot ==> #[trigger] delta_allowed(
                    section@,
                    validity@,
                    row_count as nat,
                    row,
                ),
            forall|row: int|
                0 <= row < values@.len() ==> #[trigger] values@[row] == if types::bit_set(
                    validity@,
                    row,
                ) {
                    reference + packed_delta(section@, row)
                } else {
                    0
                },
        decreases 1024 - slot,
    {
        let distance: u64 = deltas[slot];
        let ghost row = start + slot;
        assert(distance == packed_delta(section@, row));
        if slot >= row_count - start {
            if distance != 0 {
                assert(!delta_allowed(section@, validity@, row_count as nat, row));
                return Err(
                    corrupt(
                        and_number(
                            with_number("bitpack_for padding slot ", slot as u64, " of block "),
                            (start / 1024) as u64,
                            " is not zero",
                        ).as_str(),
                    ),
                );
            }
        } else if !validity.is_valid(start + slot) {
            if distance != 0 {
                assert(!delta_allowed(section@, validity@, row_count as nat, row));
                return Err(
                    corrupt(
                        and_number(
                            with_number(
                                "bitpack_for NULL slot ",
                                (start + slot) as u64,
                                " holds nonzero delta ",
                            ),
                            distance,
                            "",
                        ).as_str(),
                    ),
                );
            }
            values.push(0);
        } else {
            let sum: i128 = reference as i128 + distance as i128;
            if sum > i64::MAX as i128 {
                assert(!delta_allowed(section@, validity@, row_count as nat, row));
                return Err(
                    corrupt(
                        and_number(
                            and_number(
                                with_name(
                                    "bitpack_for reference ",
                                    signed_text(reference).as_str(),
                                    " + delta ",
                                ),
                                distance,
                                " overflows i64 at row ",
                            ),
                            (start + slot) as u64,
                            "",
                        ).as_str(),
                    ),
                );
            }
            values.push(sum as i64);
        }
        assert(delta_allowed(section@, validity@, row_count as nat, row));
        slot += 1;
    }
    Ok(())
}

/// What was packed is unpacked: the bytes of a block are 128 for each bit of the width, and hold the
/// block's deltas in their slots.
pub proof fn law_block_round_trip(deltas: Seq<nat>, width: nat)
    requires
        width <= 64,
        deltas.len() == 1024,
        forall|slot: int| 0 <= slot < 1024 ==> #[trigger] deltas[slot] < bits::two_pow(width),
    ensures
        packed_block(deltas, width).len() == width * 128,
        forall|slot: int|
            0 <= slot < 1024 ==> #[trigger] slot_delta(packed_block(deltas, width), width, slot)
                == deltas[slot],
{
    lemma_plane_sizes(deltas, width);
    assert forall|slot: int| 0 <= slot < 1024 implies #[trigger] slot_delta(
        packed_block(deltas, width),
        width,
        slot,
    ) == deltas[slot] by {
        lemma_packed_slot(deltas, width, slot);
    }
}

proof fn lemma_packed_slot(deltas: Seq<nat>, width: nat, slot: int)
    requires
        width <= 64,
        deltas.len() == 1024,
        0 <= slot < 1024,
        deltas[slot] < bits::two_pow(width),
    ensures
        slot_delta(packed_block(deltas, width), width, slot) == deltas[slot],
{
    let word = slot % 16;
    let lane = slot / 16;
    let body = packed_block(deltas, width);
    let planes = block_planes(deltas, width);
    lemma_plane_sizes(deltas, width);
    bits::lemma_two_pow_64();
    let digits = Seq::new(
        width,
        |plane: int|
            bits::bit(bytes::le_at(body, plane * 128 + (slot % 16) * 8, 8), (slot / 16) as nat),
    );
    let x = deltas[slot];
    assert forall|plane: int| 0 <= plane < width implies #[trigger] digits[plane] == bits::bit(
        x,
        plane as nat,
    ) by {
        let words = plane_words(deltas, plane);
        bytes::lemma_joined_part(planes, 128, plane);
        assert(planes[plane] == bytes::joined(words));
        lemma_word_sizes(deltas, plane);
        bytes::lemma_joined_part(words, 8, word);
        let in_plane = body.subrange(plane * 128, plane * 128 + 128);
        let at = plane * 128 + word * 8;
        assert(in_plane.subrange(word * 8, word * 8 + 8) =~= body.subrange(at, at + 8));
        let spelled = lanes(deltas, plane, word);
        assert forall|i: int| 0 <= i < spelled.len() implies #[trigger] spelled[i] < 2 by {
            bits::lemma_bit_range(deltas[16 * i + word], plane as nat);
        }
        bits::lemma_bits_value_bound(spelled);
        bytes::lemma_radix_values();
        bytes::lemma_le_round_trip(bits::bits_value(spelled), 8);
        bits::lemma_bit_of_value(spelled, lane as nat);
        assert(16 * lane + word == slot);
    }
    bits::lemma_value_of_bits(x, width);
    assert(digits =~= bits::low_bits(x, width));
}

/// What a row's packed bits spell in the section of the rows is its delta.
proof fn lemma_packed(rows: Seq<ValueView>, reference: int, width: nat, row: int)
    requires
        width <= 64,
        forall|i: int|
            0 <= i < rows.len() ==> #[trigger] delta(rows, reference, i) < bits::two_pow(width),
        0 <= row < block_count(rows.len()) * 1024,
        slots::unsigned64(reference) < 0x1_0000_0000_0000_0000,
    ensures
        packed_delta(section_of(rows, reference, width), row) == delta(rows, reference, row),
{
    let section = section_of(rows, reference, width);
    let block = row / 1024;
    let all = blocks(rows, reference, width);
    let deltas = block_deltas(rows, reference, block);
    bytes::lemma_le_bytes_len(slots::unsigned64(reference), 8);
    assert(section[8] == width as u8);
    lemma_block_sizes(rows, reference, width);
    bytes::lemma_joined_part(all, width * 128, block);
    assert(all[block] == packed_block(deltas, width));
    let base = block * (width * 128);
    assert(section_block(section, block) =~= bytes::joined(all).subrange(base, base + width * 128));
    assert(delta(rows, reference, row) < bits::two_pow(width)) by {
        bits::lemma_two_pow_monotone(0, width);
    }
    assert(deltas[row % 1024] == delta(rows, reference, row));
    lemma_packed_slot(deltas, width, row % 1024);
}

proof fn lemma_word_sizes(deltas: Seq<nat>, plane: int)
    ensures
        forall|i: int|
            0 <= i < plane_words(deltas, plane).len() ==> (#[trigger] plane_words(
                deltas,
                plane,
            )[i]).len() == 8,
        bytes::joined(plane_words(deltas, plane)).len() == 128,
{
    let words = plane_words(deltas, plane);
    assert forall|i: int| 0 <= i < words.len() implies (#[trigger] words[i]).len() == 8 by {
        bytes::lemma_le_bytes_len(bits::bits_value(lanes(deltas, plane, i)), 8);
    }
    bytes::lemma_joined_len(words, 8);
}

proof fn lemma_plane_sizes(deltas: Seq<nat>, width: nat)
    ensures
        forall|i: int|
            0 <= i < block_planes(deltas, width).len() ==> (#[trigger] block_planes(
                deltas,
                width,
            )[i]).len() == 128,
        packed_block(deltas, width).len() == width * 128,
{
    let planes = block_planes(deltas, width);
    assert forall|i: int| 0 <= i < planes.len() implies (#[trigger] planes[i]).len() == 128 by {
        lemma_word_sizes(deltas, i);
    }
    bytes::lemma_joined_len(planes, 128);
}

proof fn lemma_block_sizes(rows: Seq<ValueView>, reference: int, width: nat)
    ensures
        forall|i: int|
            0 <= i < blocks(rows, reference, width).len() ==> (#[trigger] blocks(
                rows,
                reference,
                width,
            )[i]).len() == width * 128,
        bytes::joined(blocks(rows, reference, width)).len() == block_count(rows.len()) * (width
            * 128),
{
    let all = blocks(rows, reference, width);
    assert forall|i: int| 0 <= i < all.len() implies (#[trigger] all[i]).len() == width * 128 by {
        lemma_plane_sizes(block_deltas(rows, reference, i), width);
    }
    bytes::lemma_joined_len(all, width * 128);
}

/// What was encoded is decoded: the section of a column of integers gives
/// the column's rows back.
pub proof fn law_bitpack_round_trip(
    rows: Seq<ValueView>,
    ty: LogicalType,
    section: Seq<u8>,
    params: Seq<u8>,
)
    requires
        is_encoding(rows, section, params),
        ty is Int64 || ty is Timestamp,
        forall|i: int| 0 <= i < rows.len() ==> (#[trigger] rows[i]).fits_type(ty),
    ensures
        decoding_of(params, section, types::validity_of(rows), rows.len(), ty) == Some(rows),
{
    let (reference, width) = choose|reference: int, width: nat|
        #![trigger section_of(rows, reference, width)]
        {
            &&& is_reference(rows, reference)
            &&& is_width(rows, reference, width)
            &&& width <= 64
            &&& section == section_of(rows, reference, width)
            &&& params == seq![width as u8, 0, 0]
        };
    let bits = types::validity_of(rows);
    if exists|i: int| 0 <= i < rows.len() && row_int(#[trigger] rows[i]) is Some {
        let i = choose|i: int| 0 <= i < rows.len() && row_int(#[trigger] rows[i]) == Some(reference);
        assert(i64::MIN <= reference <= i64::MAX);
    }
    bytes::lemma_radix_values();
    bytes::lemma_le_round_trip(slots::unsigned64(reference), 8);
    lemma_block_sizes(rows, reference, width);
    assert(section.subrange(0, 8) =~= bytes::le_bytes(slots::unsigned64(reference), 8));
    assert(section_reference(section) == reference);
    assert(section[8] == width as u8 && section[9] == 0 && section[10] == 0 && section[11] == 0);
    assert(framed(params, section, rows.len()));
    assert forall|row: int| 0 <= row < block_count(rows.len()) * 1024 implies #[trigger]
        delta_allowed(section, bits, rows.len(), row) by {
        lemma_packed(rows, reference, width, row);
        if row < rows.len() {
            assert(rows[row].fits_type(ty));
            assert(types::bit_set(bits, row) == (rows[row] != ValueView::Null));
        }
    }
    if types::every_null(bits, rows.len()) {
        assert forall|i: int| 0 <= i < rows.len() implies row_int(#[trigger] rows[i]) is None by {
            assert(!types::bit_set(bits, i));
        }
    }
    let back = decoding_of(params, section, bits, rows.len(), ty)->0;
    assert forall|row: int| 0 <= row < rows.len() implies back[row] == rows[row] by {
        lemma_packed(rows, reference, width, row);
        assert(rows[row].fits_type(ty));
        assert(types::bit_set(bits, row) == (rows[row] != ValueView::Null));
        if rows[row] != ValueView::Null {
            assert(reference <= row_int(rows[row])->0);
        }
    }
    assert(back =~= rows);
}

} // verus!
