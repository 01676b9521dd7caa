//! Lossless compression of doubles that are decimal numbers in disguise.
//!
//! A row is held as the integer that its value scales to under a pair of
//! powers of ten, or, where scaling does not give the value's bits back, as
//! the bits themselves. Scaling is floating-point work and is done by the
//! caller; here the scaled rows are chosen between, packed and unpacked.
//!
//! The section is the two exponents, two zero bytes, a u32 exception count,
//! an i64 reference, a bit width, three zero bytes, the packed deltas and
//! the exceptions, each a u32 row and the u64 bits. A block packs up to 1024
//! deltas into planes of 64-row words, lane after lane.

use vstd::prelude::*;

use crate::bits;
use crate::bits::{bit_of, bit_width};
use crate::bytes;
use crate::bytes::{get_le, put_le};
use crate::encodings::slots;
use crate::encodings::slots::{to_signed64, to_unsigned64};
use crate::error::{corrupt, invalid_argument, DevonResult, ErrorKind};
use crate::text::{with_name, with_number};
use crate::types;
use crate::types::{column_validity, Bitmap, Column, LogicalType, Value, ValueView};

verus! {

/// The largest exponent that the writer tries.
pub const MAX_EXPONENT: u8 = 18;

/// Pairs of exponents that the writer tries at most.
pub const PAIRS: usize = 361;

/// One scaled row.
#[derive(Debug, Clone, Copy, PartialEq, Eq, Structural)]
pub enum AlpRow {
    Null,
    /// The integer that the value scales to.
    Integer(i64),
    /// The bits of a value that does not scale.
    Exception(u64),
}

/// A decoded section: the exponents and the scaled rows.
#[derive(Debug, PartialEq, Eq)]
pub struct AlpSection {
    pub e: u8,
    pub f: u8,
    pub rows: Vec<AlpRow>,
}

/// The rows that hold a double, by their bits; `None` for NULL.
pub open spec fn float_rows(rows: Seq<ValueView>) -> Seq<Option<u64>> {
    rows.map_values(
        |value: ValueView|
            match value {
                ValueView::Float64(bits) => Some(bits),
                _ => None,
            },
    )
}

/// Whether every row is NULL or a double.
pub open spec fn all_floats(rows: Seq<ValueView>) -> bool {
    forall|row: int|
        0 <= row < rows.len() ==> (#[trigger] rows[row]) is Null || rows[row] is Float64
}

/// The doubles of a column by their bits.
pub fn collect_values(column: &Column, ty: &LogicalType) -> (result: DevonResult<Vec<Option<u64>>>)
    ensures
        match result {
            Ok(values) => *ty == LogicalType::Float64 && all_floats(column.rows()) && values@
                == float_rows(column.rows()),
            Err(error) => {
                &&& *ty != LogicalType::Float64 || !all_floats(column.rows())
                &&& error.kind_of() == ErrorKind::InvalidArgument
            },
        },
{
    let float: bool = match ty {
        LogicalType::Float64 => true,
        _ => false,
    };
    if !float {
        return Err(
            invalid_argument(
                with_name("encoding alp is not admissible for ", ty.name(), "").as_str(),
            ),
        );
    }
    let ghost rows = column.rows();
    let count: usize = column.len();
    let mut values: Vec<Option<u64>> = Vec::new();
    let mut row: usize = 0;
    while row < count
        invariant
            row <= count,
            count == column.row_count(),
            rows == column.rows(),
            values@.len() == row,
            forall|r: int|
                0 <= r < row ==> (#[trigger] rows[r]) is Null || rows[r] is Float64,
            forall|r: int| 0 <= r < row ==> #[trigger] values@[r] == float_rows(rows)[r],
        decreases count - row,
    {
        let value: Value = column.value_at(row);
        assert(rows[row as int] == value@);
        match &value {
            Value::Null => values.push(None),
            Value::Float64(number) => values.push(Some(*number)),
            _ => {
                return Err(invalid_argument("encoding alp value does not match Float64"));
            },
        }
        row += 1;
    }
    assert(values@ =~= float_rows(rows));
    Ok(values)
}

/// How many rows are exceptions.
pub open spec fn exceptions_in(rows: Seq<AlpRow>) -> nat
    decreases rows.len(),
{
    if rows.len() == 0 {
        0
    } else {
        exceptions_in(rows.drop_last()) + if rows.last() is Exception {
            1nat
        } else {
            0nat
        }
    }
}

/// How many rows are exceptions.
pub fn count_exceptions(rows: &Vec<AlpRow>) -> (count: usize)
    ensures
        count == exceptions_in(rows@),
        count <= rows@.len(),
{
    let mut count: usize = 0;
    let mut row: usize = 0;
    assert(rows@.subrange(0, 0) =~= Seq::<AlpRow>::empty());
    while row < rows.len()
        invariant
            row <= rows@.len(),
            count <= row,
            count == exceptions_in(rows@.subrange(0, row as int)),
        decreases rows@.len() - row,
    {
        assert(rows@.subrange(0, row + 1).drop_last() =~= rows@.subrange(0, row as int));
        if let AlpRow::Exception(_) = rows[row] {
            count += 1;
        }
        row += 1;
    }
    assert(rows@.subrange(0, rows@.len() as int) =~= rows@);
    count
}

/// Whether `at` is the first of the least counts.
pub open spec fn is_first_least(counts: Seq<usize>, at: int) -> bool {
    &&& 0 <= at < counts.len()
    &&& forall|i: int| 0 <= i < counts.len() ==> counts[at] <= #[trigger] counts[i]
    &&& forall|i: int| 0 <= i < at ==> counts[at] < #[trigger] counts[i]
}

/// The exponents to write with, from the exception counts of the pairs in
/// ascending order: the first pair with the fewest exceptions. The counts
/// may end at the first zero, since nothing after it can be better.
pub fn select_parameters(counts: &Vec<usize>) -> (pair: (u8, u8))
    requires
        0 < counts@.len() <= PAIRS,
    ensures
        pair.0 <= MAX_EXPONENT,
        pair.1 <= MAX_EXPONENT,
        is_first_least(counts@, pair.0 * 19 + pair.1),
{
    let mut best: usize = 0;
    let mut at: usize = 1;
    while at < counts.len()
        invariant
            1 <= at <= counts@.len() <= PAIRS,
            best < at,
            forall|i: int| 0 <= i < at ==> counts@[best as int] <= #[trigger] counts@[i],
            forall|i: int| 0 <= i < best ==> counts@[best as int] < #[trigger] counts@[i],
        decreases counts@.len() - at,
    {
        if counts[at] < counts[best] {
            best = at;
        }
        at += 1;
    }
    assert((best / 19) * 19 + best % 19 == best);
    ((best / 19) as u8, (best % 19) as u8)
}

/// The integer of a row, where it has one.
pub open spec fn row_integer(row: AlpRow) -> Option<int> {
    match row {
        AlpRow::Integer(value) => Some(value as int),
        _ => None,
    }
}

/// Whether `reference` is the least integer of the rows, zero without any.
pub open spec fn is_reference(rows: Seq<AlpRow>, reference: int) -> bool {
    if forall|i: int| 0 <= i < rows.len() ==> row_integer(#[trigger] rows[i]) is None {
        reference == 0
    } else {
        &&& exists|i: int| 0 <= i < rows.len() && row_integer(#[trigger] rows[i]) == Some(reference)
        &&& forall|i: int|
            0 <= i < rows.len() && row_integer(#[trigger] rows[i]) is Some ==> reference
                <= row_integer(rows[i])->0
    }
}

/// The delta of a slot: zero without an integer and past the last row.
pub open spec fn delta(rows: Seq<AlpRow>, reference: int, slot: int) -> nat {
    if 0 <= slot < rows.len() && row_integer(rows[slot]) is Some {
        (row_integer(rows[slot])->0 - reference) as nat
    } else {
        0
    }
}

/// Whether `width` is the least width that holds every delta.
pub open spec fn is_width(rows: Seq<AlpRow>, reference: int, width: nat) -> bool {
    &&& forall|i: int|
        0 <= i < rows.len() ==> #[trigger] delta(rows, reference, i) < bits::two_pow(width)
    &&& width == 0 || exists|i: int|
        0 <= i < rows.len() && #[trigger] delta(rows, reference, i) >= bits::two_pow(
            (width - 1) as nat,
        )
}

/// How many blocks the rows take.
pub open spec fn block_count(row_count: nat) -> nat {
    (row_count + 1023) / 1024
}

/// How many lanes a block has: sixteen, or as many as the tail needs.
pub open spec fn lanes_of(row_count: nat, block: int) -> nat {
    if (block + 1) * 1024 <= row_count {
        16
    } else {
        ((row_count - block * 1024 + 63) / 64) as nat
    }
}

/// How many lanes all blocks have.
pub open spec fn total_lanes(row_count: nat) -> nat {
    (row_count / 1024) * 16 + (row_count % 1024 + 63) / 64
}

/// The bits of one word.
pub open spec fn word_bits(rows: Seq<AlpRow>, reference: int, block: int, plane: int, lane: int) -> Seq<
    nat,
> {
    Seq::new(
        64,
        |j: int| bits::bit(delta(rows, reference, block * 1024 + 64 * lane + j), plane as nat),
    )
}

/// The words of one plane.
pub open spec fn plane_words(rows: Seq<AlpRow>, reference: int, block: int, plane: int) -> Seq<
    Seq<u8>,
> {
    Seq::new(
        lanes_of(rows.len(), block),
        |lane: int|
            bytes::le_bytes(bits::bits_value(word_bits(rows, reference, block, plane, lane)), 8),
    )
}

/// The planes of one block.
pub open spec fn block_planes(rows: Seq<AlpRow>, reference: int, block: int, width: nat) -> Seq<
    Seq<u8>,
> {
    Seq::new(width, |plane: int| bytes::joined(plane_words(rows, reference, block, plane)))
}

/// The blocks of the rows.
pub open spec fn blocks(rows: Seq<AlpRow>, reference: int, width: nat) -> Seq<Seq<u8>> {
    Seq::new(
        block_count(rows.len()),
        |block: int| bytes::joined(block_planes(rows, reference, block, width)),
    )
}

/// The exceptions in row order.
pub open spec fn exceptions_of(rows: Seq<AlpRow>) -> Seq<(nat, u64)>
    decreases rows.len(),
{
    if rows.len() == 0 {
        Seq::empty()
    } else if rows.last() is Exception {
        exceptions_of(rows.drop_last()).push(
            ((rows.len() - 1) as nat, rows.last()->Exception_0),
        )
    } else {
        exceptions_of(rows.drop_last())
    }
}

/// The exceptions as they are written.
pub open spec fn exception_parts(exceptions: Seq<(nat, u64)>) -> Seq<Seq<u8>> {
    exceptions.map_values(
        |exception: (nat, u64)|
            bytes::le_bytes(exception.0, 4) + bytes::le_bytes(exception.1 as nat, 8),
    )
}

/// The header of a section.
pub open spec fn header_of(e: u8, f: u8, count: nat, reference: int, width: nat) -> Seq<u8> {
    seq![e, f, 0, 0] + bytes::le_bytes(count, 4) + bytes::le_bytes(slots::unsigned64(reference), 8)
        + seq![width as u8, 0, 0, 0]
}

/// The section for a reference and a width.
pub open spec fn section_of(rows: Seq<AlpRow>, e: u8, f: u8, reference: int, width: nat) -> Seq<u8> {
    header_of(e, f, exceptions_of(rows).len(), reference, width) + bytes::joined(
        blocks(rows, reference, width),
    ) + bytes::joined(exception_parts(exceptions_of(rows)))
}

/// Whether the section is the encoding of the scaled rows.
pub open spec fn is_encoding(rows: Seq<AlpRow>, e: u8, f: u8, section: Seq<u8>) -> bool {
    exists|reference: int, width: nat|
        #![trigger section_of(rows, e, f, reference, width)]
        {
            &&& is_reference(rows, reference)
            &&& is_width(rows, reference, width)
            &&& width <= 64
            &&& section == section_of(rows, e, f, reference, width)
        }
}

/// Encodes scaled rows; the parameters are the two exponents and zero.
pub fn encode(rows: &Vec<AlpRow>, e: u8, f: u8) -> (encoded: (Vec<u8>, [u8; 3]))
    requires
        rows@.len() <= u32::MAX,
    ensures
        is_encoding(rows@, e, f, encoded.0@),
        encoded.1@ == seq![e, f, 0u8],
{
    let ghost shown = rows@;
    let reference: i64 = reference_of(rows);
    let width: u8 = bit_width_of(rows, reference);
    let exceptions: usize = count_exceptions(rows);
    let mut section: Vec<u8> = Vec::new();
    section.push(e);
    section.push(f);
    section.push(0);
    section.push(0);
    put_le(&mut section, exceptions as u64, 4);
    put_le(&mut section, to_unsigned64(reference), 8);
    section.push(width);
    section.push(0);
    section.push(0);
    section.push(0);
    proof {
        lemma_exception_count(shown);
        assert(section@ =~= header_of(
            e,
            f,
            exceptions_of(shown).len(),
            reference as int,
            width as nat,
        ));
    }
    pack_blocks(rows, reference, width, &mut section);
    write_exceptions(rows, &mut section);
    let params: [u8; 3] = [e, f, 0u8];
    assert(params@ =~= seq![e, f, 0u8]);
    assert(section@ =~= section_of(shown, e, f, reference as int, width as nat));
    (section, params)
}

proof fn lemma_exception_count(rows: Seq<AlpRow>)
    ensures
        exceptions_of(rows).len() == exceptions_in(rows),
    decreases rows.len(),
{
    if rows.len() > 0 {
        lemma_exception_count(rows.drop_last());
    }
}

fn reference_of(rows: &Vec<AlpRow>) -> (reference: i64)
    ensures
        is_reference(rows@, reference as int),
{
    let mut reference: Option<i64> = None;
    let mut row: usize = 0;
    while row < rows.len()
        invariant
            row <= rows@.len(),
            match reference {
                None => forall|i: int| 0 <= i < row ==> row_integer(#[trigger] rows@[i]) is None,
                Some(least) => {
                    &&& exists|i: int|
                        0 <= i < row && row_integer(#[trigger] rows@[i]) == Some(least as int)
                    &&& forall|i: int|
                        0 <= i < row && row_integer(#[trigger] rows@[i]) is Some ==> least
                            <= row_integer(rows@[i])->0
                },
            },
        decreases rows@.len() - row,
    {
        let current: AlpRow = rows[row];
        assert(rows@[row as int] == current);
        if let AlpRow::Integer(value) = current {
            match reference {
                None => {
                    reference = Some(value);
                },
                Some(least) => {
                    if value < least {
                        reference = Some(value);
                    }
                },
            }
        }
        row += 1;
    }
    match reference {
        Some(least) => least,
        None => 0,
    }
}

fn delta_at(rows: &Vec<AlpRow>, reference: i64, slot: usize) -> (distance: u64)
    requires
        is_reference(rows@, reference as int),
    ensures
        distance == delta(rows@, reference as int, slot as int),
{
    if slot >= rows.len() {
        return 0;
    }
    let current: AlpRow = rows[slot];
    assert(rows@[slot as int] == current);
    match current {
        AlpRow::Integer(value) => {
            assert(row_integer(rows@[slot as int]) is Some);
            (value as i128 - reference as i128) as u64
        },
        _ => 0,
    }
}

fn bit_width_of(rows: &Vec<AlpRow>, reference: i64) -> (width: u8)
    requires
        is_reference(rows@, reference as int),
    ensures
        width <= 64,
        is_width(rows@, reference as int, width as nat),
{
    let mut widest: u64 = 0;
    let mut row: usize = 0;
    while row < rows.len()
        invariant
            row <= rows@.len(),
            is_reference(rows@, reference as int),
            forall|i: int| 0 <= i < row ==> #[trigger] delta(rows@, reference as int, i) <= widest,
            widest == 0 || exists|i: int|
                0 <= i < row && #[trigger] delta(rows@, reference as int, i) == widest,
        decreases rows@.len() - row,
    {
        let distance: u64 = delta_at(rows, reference, row);
        if distance > widest {
            widest = distance;
        }
        row += 1;
    }
    bit_width(widest)
}

/// Packs all blocks.
fn pack_blocks(rows: &Vec<AlpRow>, reference: i64, width: u8, out: &mut Vec<u8>)
    requires
        width <= 64,
        rows@.len() <= u32::MAX,
        is_reference(rows@, reference as int),
    ensures
        final(out)@ == old(out)@ + bytes::joined(
            blocks(rows@, reference as int, width as nat),
        ),
{
    let ghost all = blocks(rows@, reference as int, width as nat);
    let row_count: usize = rows.len();
    let total: usize = row_count / 1024 + if row_count % 1024 == 0 {
        0
    } else {
        1
    };
    let mut block: usize = 0;
    assert(all.subrange(0, 0) =~= Seq::<Seq<u8>>::empty());
    assert(out@ =~= old(out)@ + bytes::joined(all.subrange(0, 0)));
    while block < total
        invariant
            block <= total,
            row_count == rows@.len(),
            row_count <= u32::MAX,
            total == block_count(row_count as nat),
            width <= 64,
            is_reference(rows@, reference as int),
            all == blocks(rows@, reference as int, width as nat),
            out@ == old(out)@ + bytes::joined(all.subrange(0, block as int)),
        decreases total - block,
    {
        let ghost before = out@;
        let ghost planes = block_planes(rows@, reference as int, block as int, width as nat);
        let lanes: usize = lane_count(row_count, block);
        let mut plane: u8 = 0;
        assert(planes.subrange(0, 0) =~= Seq::<Seq<u8>>::empty());
        assert(out@ =~= before + bytes::joined(planes.subrange(0, 0)));
        while plane < width
            invariant
                plane <= width <= 64,
                block < total,
                total == block_count(row_count as nat),
                row_count == rows@.len(),
                row_count <= u32::MAX,
                lanes == lanes_of(row_count as nat, block as int),
                lanes <= 16,
                is_reference(rows@, reference as int),
                planes == block_planes(rows@, reference as int, block as int, width as nat),
                out@ == before + bytes::joined(planes.subrange(0, plane as int)),
            decreases width - plane,
        {
            let ghost prior = out@;
            pack_plane(rows, reference, block, plane, lanes, out);
            proof {
                let next = planes.subrange(0, plane + 1);
                assert(next.drop_last() =~= planes.subrange(0, plane as int));
                assert(next.last() == bytes::joined(
                    plane_words(rows@, reference as int, block as int, plane as int),
                ));
                assert(out@ =~= before + bytes::joined(next));
            }
            plane += 1;
        }
        proof {
            assert(planes.subrange(0, width as int) =~= planes);
            let next = all.subrange(0, block + 1);
            assert(next.drop_last() =~= all.subrange(0, block as int));
            assert(next.last() == bytes::joined(planes));
            assert(out@ =~= old(out)@ + bytes::joined(next));
        }
        block += 1;
    }
    assert(all.subrange(0, total as int) =~= all);
}

fn lane_count(row_count: usize, block: usize) -> (lanes: usize)
    requires
        block < block_count(row_count as nat),
    ensures
        lanes == lanes_of(row_count as nat, block as int),
        1 <= lanes <= 16,
{
    let left: usize = row_count - block * 1024;
    if left >= 1024 {
        16
    } else {
        (left + 63) / 64
    }
}

fn pack_plane(
    rows: &Vec<AlpRow>,
    reference: i64,
    block: usize,
    plane: u8,
    lanes: usize,
    out: &mut Vec<u8>,
)
    requires
        plane < 64,
        rows@.len() <= u32::MAX,
        block < block_count(rows@.len()),
        lanes == lanes_of(rows@.len(), block as int),
        lanes <= 16,
        is_reference(rows@, reference as int),
    ensures
        final(out)@ == old(out)@ + bytes::joined(
            plane_words(rows@, reference as int, block as int, plane as int),
        ),
{
    let ghost words = plane_words(rows@, reference as int, block as int, plane as int);
    let mut lane: usize = 0;
    assert(words.subrange(0, 0) =~= Seq::<Seq<u8>>::empty());
    assert(out@ =~= old(out)@ + bytes::joined(words.subrange(0, 0)));
    while lane < lanes
        invariant
            lane <= lanes <= 16,
            plane < 64,
            rows@.len() <= u32::MAX,
            block < block_count(rows@.len()),
            lanes == lanes_of(rows@.len(), block as int),
            is_reference(rows@, reference as int),
            words == plane_words(rows@, reference as int, block as int, plane as int),
            out@ == old(out)@ + bytes::joined(words.subrange(0, lane as int)),
        decreases lanes - lane,
    {
        let packed: u64 = pack_word(rows, reference, block, plane, lane);
        put_le(out, packed, 8);
        proof {
            let next = words.subrange(0, lane + 1);
            assert(next.drop_last() =~= words.subrange(0, lane as int));
            assert(out@ =~= old(out)@ + bytes::joined(next));
        }
        lane += 1;
    }
    assert(words.subrange(0, lanes as int) =~= words);
}

fn pack_word(rows: &Vec<AlpRow>, reference: i64, block: usize, plane: u8, lane: usize) -> (packed: u64)
    requires
        plane < 64,
        lane < 16,
        rows@.len() <= u32::MAX,
        block < block_count(rows@.len()),
        is_reference(rows@, reference as int),
    ensures
        packed == bits::bits_value(
            word_bits(rows@, reference as int, block as int, plane as int, lane as int),
        ),
{
    let ghost digits = word_bits(
        rows@,
        reference as int,
        block as int,
        plane as int,
        lane as int,
    );
    let mut packed: u64 = 0;
    let mut j: usize = 64;
    let start: usize = block * 1024 + 64 * lane;
    proof {
        bits::lemma_two_pow_64();
        assert(digits.skip(64) =~= Seq::<nat>::empty());
    }
    while j > 0
        invariant
            j <= 64,
            plane < 64,
            start == block * 1024 + 64 * lane,
            start <= u32::MAX + 2048,
            is_reference(rows@, reference as int),
            digits == word_bits(
                rows@,
                reference as int,
                block as int,
                plane as int,
                lane as int,
            ),
            packed == bits::bits_value(digits.skip(j as int)),
            bits::two_pow(64) == 0x1_0000_0000_0000_0000,
        decreases j,
    {
        let ghost tail = digits.skip(j as int);
        j -= 1;
        let mut distance: u64 = 0;
        if start < rows.len() && j < rows.len() - start {
            distance = delta_at(rows, reference, start + j);
        }
        let digit: u64 = bit_of(distance, plane as u64);
        proof {
            let next = digits.skip(j as int);
            assert(next.drop_first() =~= tail);
            assert(distance == delta(rows@, reference as int, start + j));
            assert(next[0] == digit);
            assert forall|i: int| 0 <= i < next.len() implies #[trigger] next[i] < 2 by {
                bits::lemma_bit_range(
                    delta(rows@, reference as int, block * 1024 + 64 * lane + (j + i)),
                    plane as nat,
                );
            }
            bits::lemma_bits_value_bound(next);
            bits::lemma_two_pow_monotone(next.len(), 64);
        }
        packed = packed * 2 + digit;
    }
    assert(digits.skip(0) =~= digits);
    packed
}

/// Writes the exceptions in row order.
fn write_exceptions(rows: &Vec<AlpRow>, out: &mut Vec<u8>)
    requires
        rows@.len() <= u32::MAX,
    ensures
        final(out)@ == old(out)@ + bytes::joined(exception_parts(exceptions_of(rows@))),
{
    let mut row: usize = 0;
    proof {
        assert(rows@.subrange(0, 0) =~= Seq::<AlpRow>::empty());
        assert(exception_parts(exceptions_of(rows@.subrange(0, 0))) =~= Seq::<Seq<u8>>::empty());
        assert(out@ =~= old(out)@ + bytes::joined(
            exception_parts(exceptions_of(rows@.subrange(0, 0))),
        ));
    }
    while row < rows.len()
        invariant
            row <= rows@.len() <= u32::MAX,
            out@ == old(out)@ + bytes::joined(
                exception_parts(exceptions_of(rows@.subrange(0, row as int))),
            ),
        decreases rows@.len() - row,
    {
        let ghost part = rows@.subrange(0, row as int);
        let ghost next = rows@.subrange(0, row + 1);
        assert(next.drop_last() =~= part);
        if let AlpRow::Exception(number) = rows[row] {
            put_le(out, row as u64, 4);
            put_le(out, number, 8);
            proof {
                let bytes_of = bytes::le_bytes(row as nat, 4) + bytes::le_bytes(number as nat, 8);
                assert(exception_parts(exceptions_of(next)) =~= exception_parts(
                    exceptions_of(part),
                ).push(bytes_of));
                bytes::lemma_joined_push(exception_parts(exceptions_of(part)), bytes_of);
                assert(out@ =~= old(out)@ + bytes::joined(exception_parts(exceptions_of(next))));
            }
        }
        row += 1;
    }
    assert(rows@.subrange(0, rows@.len() as int) =~= rows@);
}

/// The exception count of a section.
pub open spec fn section_exceptions(section: Seq<u8>) -> nat {
    bytes::le_at(section, 4, 4)
}

/// The reference of a section.
pub open spec fn section_reference(section: Seq<u8>) -> int {
    slots::signed64(bytes::le_at(section, 8, 8))
}

/// Whether the header of a section is lawful and agrees with the parameters.
pub open spec fn header_lawful(params: Seq<u8>, section: Seq<u8>, row_count: nat) -> bool {
    &&& section.len() >= 20
    &&& section[2] == 0 && section[3] == 0
    &&& section_exceptions(section) <= row_count
    &&& params[2] == 0
    &&& params[0] == section[0]
    &&& params[1] == section[1]
    &&& section[16] <= 64
    &&& section[17] == 0 && section[18] == 0 && section[19] == 0
}

/// The bytes of the packed deltas.
pub open spec fn blocks_len(row_count: nat, width: nat) -> nat {
    width * 8 * total_lanes(row_count)
}

/// Where the exceptions begin.
pub open spec fn exceptions_at(section: Seq<u8>, row_count: nat) -> int {
    20 + blocks_len(row_count, section[16] as nat) as int
}

/// Whether a section is as long as its header says.
pub open spec fn length_lawful(section: Seq<u8>, row_count: nat) -> bool {
    section.len() == exceptions_at(section, row_count) + section_exceptions(section) * 12
}

/// Where a word of the packed deltas stands.
pub open spec fn word_at(width: nat, row_count: nat, block: int, plane: int, lane: int) -> int {
    20 + block * (width * 128) + plane * (lanes_of(row_count, block) * 8) + lane * 8
}

/// The delta that a section holds for a slot.
pub open spec fn packed_delta(section: Seq<u8>, row_count: nat, slot: int) -> nat {
    let width = section[16] as nat;
    bits::bits_value(
        Seq::new(
            width,
            |plane: int|
                bits::bit(
                    bytes::le_at(
                        section,
                        word_at(width, row_count, slot / 1024, plane, (slot % 1024) / 64),
                        8,
                    ),
                    (slot % 64) as nat,
                ),
        ),
    )
}

/// Whether the bits past the last row are zero.
pub open spec fn padding_lawful(section: Seq<u8>, row_count: nat) -> bool {
    forall|slot: int|
        row_count <= slot < (row_count + 63) / 64 * 64 ==> #[trigger] packed_delta(
            section,
            row_count,
            slot,
        ) == 0
}

/// The row of an exception.
pub open spec fn exception_row(section: Seq<u8>, row_count: nat, index: int) -> nat {
    bytes::le_at(section, exceptions_at(section, row_count) + index * 12, 4)
}

/// The bits of an exception.
pub open spec fn exception_bits(section: Seq<u8>, row_count: nat, index: int) -> nat {
    bytes::le_at(section, exceptions_at(section, row_count) + index * 12 + 4, 8)
}

/// Whether an exception names a row that holds a value and stands behind the
/// exception before it.
pub open spec fn exception_lawful(
    section: Seq<u8>,
    bits: Seq<bool>,
    row_count: nat,
    index: int,
) -> bool {
    let row = exception_row(section, row_count, index);
    &&& row < row_count
    &&& index > 0 ==> exception_row(section, row_count, index - 1) < row
    &&& types::bit_set(bits, row as int)
}

/// Whether all exceptions are lawful.
pub open spec fn exceptions_lawful(section: Seq<u8>, bits: Seq<bool>, row_count: nat) -> bool {
    forall|index: int|
        0 <= index < section_exceptions(section) ==> #[trigger] exception_lawful(
            section,
            bits,
            row_count,
            index,
        )
}

/// Whether a row is an exception.
pub open spec fn is_exception(section: Seq<u8>, row_count: nat, row: int) -> bool {
    exists|index: int|
        0 <= index < section_exceptions(section) && #[trigger] exception_row(
            section,
            row_count,
            index,
        ) == row
}

/// The scaled row that a section holds for a row.
pub open spec fn section_row(section: Seq<u8>, bits: Seq<bool>, row_count: nat, row: int) -> AlpRow {
    if !types::bit_set(bits, row) {
        AlpRow::Null
    } else if is_exception(section, row_count, row) {
        AlpRow::Exception(
            exception_bits(
                section,
                row_count,
                choose|index: int|
                    0 <= index < section_exceptions(section) && #[trigger] exception_row(
                        section,
                        row_count,
                        index,
                    ) == row,
            ) as u64,
        )
    } else {
        AlpRow::Integer(
            slots::signed64(
                ((slots::unsigned64(section_reference(section)) + packed_delta(
                    section,
                    row_count,
                    row,
                )) % 0x1_0000_0000_0000_0000) as nat,
            ) as i64,
        )
    }
}

/// The scaled rows that a section decodes to; `None` is a refusal.
pub open spec fn decoding_of(
    params: Seq<u8>,
    section: Seq<u8>,
    bits: Seq<bool>,
    row_count: nat,
    ty: LogicalType,
) -> Option<Seq<AlpRow>> {
    if ty != LogicalType::Float64 || !header_lawful(params, section, row_count) || !length_lawful(
        section,
        row_count,
    ) || !padding_lawful(section, row_count) || !exceptions_lawful(section, bits, row_count) {
        None
    } else {
        Some(Seq::new(row_count, |row: int| section_row(section, bits, row_count, row)))
    }
}

/// Decodes a section to its exponents and scaled rows.
pub fn decode(
    params: [u8; 3],
    section: &[u8],
    validity: &Bitmap,
    row_count: usize,
    ty: &LogicalType,
) -> (result: DevonResult<AlpSection>)
    ensures
        match result {
            Ok(decoded) => {
                &&& decoding_of(params@, section@, validity@, row_count as nat, *ty) == Some(
                    decoded.rows@,
                )
                &&& decoded.e == params@[0]
                &&& decoded.f == params@[1]
            },
            Err(error) => decoding_of(params@, section@, validity@, row_count as nat, *ty) is None
                && error.kind_of() == ErrorKind::Corrupt,
        },
{
    let float: bool = match ty {
        LogicalType::Float64 => true,
        _ => false,
    };
    if !float {
        return Err(
            corrupt(with_name("encoding alp is not admissible for ", ty.name(), "").as_str()),
        );
    }
    let (reference, width, count): (i64, u8, usize) = match parse_header(
        params,
        section,
        row_count,
    ) {
        Ok(fields) => fields,
        Err(error) => {
            return Err(error);
        },
    };
    let table: usize = match check_length(section, row_count, width, count) {
        Ok(table) => table,
        Err(error) => {
            return Err(error);
        },
    };
    let mut rows: Vec<AlpRow> = match unpack_rows(section, reference, width, validity, row_count) {
        Some(rows) => rows,
        None => {
            return Err(corrupt("alp tail block padding bits are not zero"));
        },
    };
    match apply_exceptions(section, table, count, validity, row_count, &mut rows) {
        Ok(()) => {},
        Err(error) => {
            return Err(error);
        },
    }
    proof {
        let want = decoding_of(params@, section@, validity@, row_count as nat, *ty)->0;
        assert(rows@ =~= want);
    }
    Ok(AlpSection { e: params[0], f: params[1], rows })
}

/// Validates the header against the parameters: reference, width and
/// exception count.
fn parse_header(params: [u8; 3], section: &[u8], row_count: usize) -> (result: DevonResult<
    (i64, u8, usize),
>)
    ensures
        match result {
            Ok((reference, width, count)) => {
                &&& header_lawful(params@, section@, row_count as nat)
                &&& reference == section_reference(section@)
                &&& width == section@[16]
                &&& count == section_exceptions(section@)
            },
            Err(error) => !header_lawful(params@, section@, row_count as nat) && error.kind_of()
                == ErrorKind::Corrupt,
        },
{
    let size: usize = section.len();
    if size < 8 {
        return Err(
            corrupt(
                with_number(
                    "alp values section is ",
                    size as u64,
                    " bytes, shorter than the 8-byte header",
                ).as_str(),
            ),
        );
    }
    let e: u8 = section[0];
    let f: u8 = section[1];
    if section[2] != 0 || section[3] != 0 {
        return Err(corrupt("alp reserved bytes are not zero"));
    }
    let count: u64 = get_le(section, 4, 4);
    if count > row_count as u64 {
        let head: String = with_number("alp exception_count ", count, " exceeds row_count ");
        return Err(corrupt(with_number(head.as_str(), row_count as u64, "").as_str()));
    }
    match validate_params(params, e, f) {
        Ok(()) => {},
        Err(error) => {
            return Err(error);
        },
    }
    if size < 20 {
        return Err(
            corrupt(
                with_number(
                    "alp values section is ",
                    size as u64,
                    " bytes, shorter than the 20-byte frame-of-reference header",
                ).as_str(),
            ),
        );
    }
    let reference: i64 = to_signed64(get_le(section, 8, 8));
    let width: u8 = section[16];
    if width > 64 {
        return Err(
            corrupt(
                with_number("alp bit_width is ", width as u64, ", expected at most 64").as_str(),
            ),
        );
    }
    if section[17] != 0 || section[18] != 0 || section[19] != 0 {
        return Err(corrupt("alp frame-of-reference reserved bytes are not zero"));
    }
    Ok((reference, width, count as usize))
}

fn validate_params(params: [u8; 3], e: u8, f: u8) -> (result: DevonResult<()>)
    ensures
        match result {
            Ok(()) => params@[0] == e && params@[1] == f && params@[2] == 0,
            Err(error) => !(params@[0] == e && params@[1] == f && params@[2] == 0)
                && error.kind_of() == ErrorKind::Corrupt,
        },
{
    if params[2] != 0 {
        return Err(
            corrupt(
                with_number(
                    "alp directory parameter p2 is ",
                    params[2] as u64,
                    ", expected zero",
                ).as_str(),
            ),
        );
    }
    if params[0] != e {
        let head: String = with_number(
            "alp directory exponent ",
            params[0] as u64,
            " does not match the values-section header ",
        );
        return Err(corrupt(with_number(head.as_str(), e as u64, "").as_str()));
    }
    if params[1] != f {
        let head: String = with_number(
            "alp directory factor ",
            params[1] as u64,
            " does not match the values-section header ",
        );
        return Err(corrupt(with_number(head.as_str(), f as u64, "").as_str()));
    }
    Ok(())
}

/// Checks the exact length; also where the exceptions begin.
fn check_length(section: &[u8], row_count: usize, width: u8, count: usize) -> (result: DevonResult<
    usize,
>)
    requires
        section@.len() >= 20,
        width == section@[16],
        width <= 64,
        count == section_exceptions(section@),
    ensures
        match result {
            Ok(table) => length_lawful(section@, row_count as nat) && table == exceptions_at(
                section@,
                row_count as nat,
            ),
            Err(error) => !length_lawful(section@, row_count as nat) && error.kind_of()
                == ErrorKind::Corrupt,
        },
{
    let size: usize = section.len();
    let lanes: usize = (row_count / 1024) * 16 + (row_count % 1024 + 63) / 64;
    let plane: usize = width as usize * 8;
    assert(lanes == total_lanes(row_count as nat));
    assert(plane * lanes == blocks_len(row_count as nat, width as nat));
    let packed: usize = match plane.checked_mul(lanes) {
        Some(packed) => packed,
        None => {
            return Err(corrupt("alp implied values-section length overflows"));
        },
    };
    let table: usize = match packed.checked_add(20) {
        Some(table) => table,
        None => {
            return Err(corrupt("alp implied values-section length overflows"));
        },
    };
    let records: usize = match count.checked_mul(12) {
        Some(records) => records,
        None => {
            return Err(corrupt("alp implied values-section length overflows"));
        },
    };
    let expected: usize = match table.checked_add(records) {
        Some(expected) => expected,
        None => {
            return Err(corrupt("alp implied values-section length overflows"));
        },
    };
    if size != expected {
        let head: String = with_number(
            "alp values section is ",
            size as u64,
            " bytes, expected exactly ",
        );
        let rows: String = with_number(head.as_str(), expected as u64, " for row_count ");
        let wide: String = with_number(rows.as_str(), row_count as u64, ", bit_width ");
        let more: String = with_number(wide.as_str(), width as u64, ", exception_count ");
        return Err(corrupt(with_number(more.as_str(), count as u64, "").as_str()));
    }
    Ok(table)
}

/// The row that its packed delta gives, before exceptions.
pub open spec fn plain_row(section: Seq<u8>, bits: Seq<bool>, row_count: nat, row: int) -> AlpRow {
    if !types::bit_set(bits, row) {
        AlpRow::Null
    } else {
        AlpRow::Integer(
            slots::signed64(
                ((slots::unsigned64(section_reference(section)) + packed_delta(
                    section,
                    row_count,
                    row,
                )) % 0x1_0000_0000_0000_0000) as nat,
            ) as i64,
        )
    }
}

/// Unpacks every row; `None` where bits past the last row are set.
fn unpack_rows(
    section: &[u8],
    reference: i64,
    width: u8,
    validity: &Bitmap,
    row_count: usize,
) -> (found: Option<Vec<AlpRow>>)
    requires
        width <= 64,
        width == section@[16],
        reference == section_reference(section@),
        section@.len() >= 20,
        section@.len() >= exceptions_at(section@, row_count as nat),
    ensures
        match found {
            Some(rows) => {
                &&& padding_lawful(section@, row_count as nat)
                &&& rows@.len() == row_count
                &&& forall|row: int|
                    0 <= row < row_count ==> #[trigger] rows@[row] == plain_row(
                        section@,
                        validity@,
                        row_count as nat,
                        row,
                    )
            },
            None => !padding_lawful(section@, row_count as nat),
        },
{
    let base: u64 = to_unsigned64(reference);
    let mut rows: Vec<AlpRow> = Vec::new();
    let mut row: usize = 0;
    while row < row_count
        invariant
            row <= row_count,
            width <= 64,
            width == section@[16],
            reference == section_reference(section@),
            base == slots::unsigned64(reference as int),
            section@.len() >= 20,
            section@.len() >= exceptions_at(section@, row_count as nat),
            rows@.len() == row,
            forall|r: int|
                0 <= r < row ==> #[trigger] rows@[r] == plain_row(
                    section@,
                    validity@,
                    row_count as nat,
                    r,
                ),
        decreases row_count - row,
    {
        if validity.is_valid(row) {
            let distance: u64 = unpack_slot(section, width, row_count, row);
            let sum: u128 = base as u128 + distance as u128;
            let wrapped: u64 = (sum % 0x1_0000_0000_0000_0000) as u64;
            rows.push(AlpRow::Integer(to_signed64(wrapped)));
        } else {
            rows.push(AlpRow::Null);
        }
        row += 1;
    }
    let tail: usize = row_count % 64;
    if tail != 0 {
        let mut extra: usize = 0;
        while extra < 64 - tail
            invariant
                extra <= 64 - tail,
                tail == row_count % 64,
                0 < tail < 64,
                width <= 64,
                width == section@[16],
                section@.len() >= 20,
                section@.len() >= exceptions_at(section@, row_count as nat),
                forall|slot: int|
                    row_count <= slot < row_count + extra ==> #[trigger] packed_delta(
                        section@,
                        row_count as nat,
                        slot,
                    ) == 0,
            decreases 64 - extra,
        {
            if row_count > usize::MAX - extra {
                proof {
                    assert((row_count - tail) % 64 == 0);
                }
            }
            let distance: u64 = unpack_padding(section, width, row_count, extra);
            if distance != 0 {
                proof {
                    assert(packed_delta(section@, row_count as nat, row_count + extra) != 0);
                    assert((row_count + 63) / 64 * 64 == row_count - tail + 64);
                }
                return None;
            }
            extra += 1;
        }
        assert((row_count + 63) / 64 * 64 == row_count - tail + 64);
    } else {
        assert((row_count + 63) / 64 * 64 == row_count);
    }
    Some(rows)
}

fn unpack_padding(section: &[u8], width: u8, row_count: usize, extra: usize) -> (value: u64)
    requires
        width <= 64,
        width == section@[16],
        section@.len() >= exceptions_at(section@, row_count as nat),
        row_count % 64 != 0,
        row_count % 64 + extra < 64,
    ensures
        value == packed_delta(section@, row_count as nat, row_count + extra),
{
    let block: usize = row_count / 1024;
    let in_block: usize = row_count % 1024 + extra;
    let ghost slot = row_count + extra;
    assert(slot / 1024 == block && slot % 1024 == in_block);
    unpack_at(section, width, row_count, block, in_block, Ghost(slot))
}

fn unpack_slot(section: &[u8], width: u8, row_count: usize, row: usize) -> (value: u64)
    requires
        width <= 64,
        width == section@[16],
        section@.len() >= exceptions_at(section@, row_count as nat),
        row < row_count,
    ensures
        value == packed_delta(section@, row_count as nat, row as int),
{
    unpack_at(section, width, row_count, row / 1024, row % 1024, Ghost(row as int))
}

fn unpack_at(
    section: &[u8],
    width: u8,
    row_count: usize,
    block: usize,
    in_block: usize,
    Ghost(slot): Ghost<int>,
) -> (value: u64)
    requires
        width <= 64,
        width == section@[16],
        section@.len() >= exceptions_at(section@, row_count as nat),
        slot / 1024 == block,
        slot % 1024 == in_block,
        0 <= slot,
        block < block_count(row_count as nat),
        in_block / 64 < lanes_of(row_count as nat, block as int),
    ensures
        value == packed_delta(section@, row_count as nat, slot),
{
    let size: usize = section.len();
    let lanes: usize = lane_count(row_count, block);
    let lane: usize = in_block / 64;
    let index: usize = in_block % 64;
    let ghost n = row_count as nat;
    let ghost w = width as nat;
    proof {
        lemma_block_bounds(n, w, block as int);
        assert(index == slot % 64);
    }
    let stride: usize = width as usize * 128;
    let start: usize = 20 + block * stride;
    let ghost digits = Seq::new(
        w,
        |plane: int|
            bits::bit(
                bytes::le_at(section@, word_at(w, n, block as int, plane, lane as int), 8),
                index as nat,
            ),
    );
    let mut value: u64 = 0;
    let mut plane: usize = width as usize;
    proof {
        bits::lemma_two_pow_64();
        assert(digits.skip(width as int) =~= Seq::<nat>::empty());
    }
    while plane > 0
        invariant
            plane <= width <= 64,
            w == width,
            n == row_count,
            size == section@.len(),
            lanes == lanes_of(n, block as int),
            lane < lanes <= 16,
            index < 64,
            start == 20 + block * (w * 128),
            start + w * (lanes * 8) <= size,
            digits == Seq::new(
                w,
                |plane: int|
                    bits::bit(
                        bytes::le_at(section@, word_at(w, n, block as int, plane, lane as int), 8),
                        index as nat,
                    ),
            ),
            value == bits::bits_value(digits.skip(plane as int)),
            bits::two_pow(64) == 0x1_0000_0000_0000_0000,
        decreases plane,
    {
        let ghost tail = digits.skip(plane as int);
        plane -= 1;
        proof {
            assert(plane * (lanes * 8) + lanes * 8 <= w * (lanes * 8)) by (nonlinear_arith)
                requires
                    plane + 1 <= w,
            ;
            assert(plane * (lanes * 8) <= 64 * 128) by (nonlinear_arith)
                requires
                    plane <= 64,
                    lanes <= 16,
            ;
        }
        let packed: u64 = get_le(section, start + plane * (lanes * 8) + lane * 8, 8);
        let digit: u64 = bit_of(packed, index as u64);
        proof {
            let next = digits.skip(plane as int);
            assert(next.drop_first() =~= tail);
            assert(next[0] == digit);
            assert forall|i: int| 0 <= i < next.len() implies #[trigger] next[i] < 2 by {
                bits::lemma_bit_range(
                    bytes::le_at(
                        section@,
                        word_at(w, n, block as int, plane + i, lane as int),
                        8,
                    ),
                    index as nat,
                );
            }
            bits::lemma_bits_value_bound(next);
            bits::lemma_two_pow_monotone(next.len(), 64);
        }
        value = value * 2 + digit;
    }
    proof {
        assert(digits.skip(0) =~= digits);
        assert(digits =~= Seq::new(
            w,
            |plane: int|
                bits::bit(
                    bytes::le_at(
                        section@,
                        word_at(w, n, slot / 1024, plane, (slot % 1024) / 64),
                        8,
                    ),
                    (slot % 64) as nat,
                ),
        ));
    }
    value
}

/// A block lies within the packed deltas.
proof fn lemma_block_bounds(row_count: nat, width: nat, block: int)
    requires
        0 <= block < block_count(row_count),
    ensures
        0 <= block * (width * 128),
        block * (width * 128) + width * (lanes_of(row_count, block) * 8) <= blocks_len(
            row_count,
            width,
        ),
{
    let lanes = lanes_of(row_count, block);
    assert(block * 16 + lanes <= total_lanes(row_count));
    assert(0 <= block * (width * 128)) by (nonlinear_arith)
        requires
            0 <= block,
    ;
    assert(block * (width * 128) + width * (lanes * 8) == width * 8 * (block * 16 + lanes))
        by (nonlinear_arith);
    assert(width * 8 * (block * 16 + lanes) <= width * 8 * total_lanes(row_count))
        by (nonlinear_arith)
        requires
            block * 16 + lanes <= total_lanes(row_count),
    ;
}

/// Reads the exceptions and puts their bits into their rows.
fn apply_exceptions(
    section: &[u8],
    table: usize,
    count: usize,
    validity: &Bitmap,
    row_count: usize,
    rows: &mut Vec<AlpRow>,
) -> (result: DevonResult<()>)
    requires
        table == exceptions_at(section@, row_count as nat),
        count == section_exceptions(section@),
        section@.len() == table + count * 12,
        old(rows)@.len() == row_count,
        forall|row: int|
            0 <= row < row_count ==> #[trigger] old(rows)@[row] == plain_row(
                section@,
                validity@,
                row_count as nat,
                row,
            ),
    ensures
        match result {
            Ok(()) => {
                &&& exceptions_lawful(section@, validity@, row_count as nat)
                &&& final(rows)@.len() == row_count
                &&& forall|row: int|
                    0 <= row < row_count ==> #[trigger] final(rows)@[row] == section_row(
                        section@,
                        validity@,
                        row_count as nat,
                        row,
                    )
            },
            Err(error) => !exceptions_lawful(section@, validity@, row_count as nat)
                && error.kind_of() == ErrorKind::Corrupt,
        },
{
    let size: usize = section.len();
    let ghost n = row_count as nat;
    let mut previous: u64 = 0;
    let mut index: usize = 0;
    proof {
        bytes::lemma_radix_values();
    }
    while index < count
        invariant
            index <= count,
            size == section@.len(),
            n == row_count,
            table == exceptions_at(section@, n),
            count == section_exceptions(section@),
            size == table + count * 12,
            bytes::radix_pow(4) == 0x1_0000_0000,
            rows@.len() == row_count,
            forall|i: int|
                0 <= i < index ==> #[trigger] exception_lawful(section@, validity@, n, i),
            index > 0 ==> previous == exception_row(section@, n, index - 1),
            forall|row: int|
                0 <= row < row_count ==> (#[trigger] rows@[row] == plain_row(
                    section@,
                    validity@,
                    n,
                    row,
                ) && (forall|i: int|
                    0 <= i < index ==> #[trigger] exception_row(section@, n, i) != row)) || (
                exists|i: int|
                    0 <= i < index && #[trigger] exception_row(section@, n, i) == row && rows@[row]
                        == AlpRow::Exception(exception_bits(section@, n, i) as u64)),
        decreases count - index,
    {
        let at: usize = table + index * 12;
        let row: u64 = get_le(section, at, 4);
        assert(row == exception_row(section@, n, index as int));
        if row >= row_count as u64 {
            assert(!exception_lawful(section@, validity@, n, index as int));
            let head: String = with_number(
                "alp exception row ",
                row,
                " is out of bounds for row_count ",
            );
            return Err(corrupt(with_number(head.as_str(), row_count as u64, "").as_str()));
        }
        if index > 0 && row <= previous {
            assert(!exception_lawful(section@, validity@, n, index as int));
            return Err(corrupt("alp exception rows are not strictly increasing"));
        }
        if !validity.is_valid(row as usize) {
            assert(!exception_lawful(section@, validity@, n, index as int));
            return Err(corrupt(with_number("alp exception row ", row, " is a NULL row").as_str()));
        }
        let number: u64 = get_le(section, at + 4, 8);
        assert(number == exception_bits(section@, n, index as int));
        let ghost before = rows@;
        rows.set(row as usize, AlpRow::Exception(number));
        proof {
            assert(exception_lawful(section@, validity@, n, index as int));
            assert forall|r: int| 0 <= r < row_count implies (#[trigger] rows@[r] == plain_row(
                section@,
                validity@,
                n,
                r,
            ) && (forall|i: int|
                0 <= i < index + 1 ==> #[trigger] exception_row(section@, n, i) != r)) || (exists|
                i: int,
            |
                0 <= i < index + 1 && #[trigger] exception_row(section@, n, i) == r && rows@[r]
                    == AlpRow::Exception(exception_bits(section@, n, i) as u64)) by {
                if r == row {
                    assert(exception_row(section@, n, index as int) == r);
                } else {
                    assert(rows@[r] == before[r]);
                }
            }
        }
        previous = row;
        index += 1;
    }
    proof {
        assert forall|row: int| 0 <= row < row_count implies #[trigger] rows@[row] == section_row(
            section@,
            validity@,
            n,
            row,
        ) by {
            if is_exception(section@, n, row) {
                let chosen = choose|index: int|
                    0 <= index < section_exceptions(section@) && #[trigger] exception_row(
                        section@,
                        n,
                        index,
                    ) == row;
                let i = choose|i: int|
                    0 <= i < count && #[trigger] exception_row(section@, n, i) == row && rows@[row]
                        == AlpRow::Exception(exception_bits(section@, n, i) as u64);
                lemma_exceptions_distinct(section@, validity@, n, chosen, i);
                assert(exception_lawful(section@, validity@, n, i));
            }
        }
    }
    Ok(())
}

proof fn lemma_exceptions_distinct(section: Seq<u8>, bits: Seq<bool>, row_count: nat, a: int, b: int)
    requires
        exceptions_lawful(section, bits, row_count),
        0 <= a < section_exceptions(section),
        0 <= b < section_exceptions(section),
        exception_row(section, row_count, a) == exception_row(section, row_count, b),
    ensures
        a == b,
{
    if a < b {
        lemma_exceptions_increase(section, bits, row_count, a, b);
    } else if b < a {
        lemma_exceptions_increase(section, bits, row_count, b, a);
    }
}

proof fn lemma_exceptions_increase(section: Seq<u8>, bits: Seq<bool>, row_count: nat, a: int, b: int)
    requires
        exceptions_lawful(section, bits, row_count),
        0 <= a < b < section_exceptions(section),
    ensures
        exception_row(section, row_count, a) < exception_row(section, row_count, b),
    decreases b - a,
{
    assert(exception_lawful(section, bits, row_count, b));
    if a < b - 1 {
        lemma_exceptions_increase(section, bits, row_count, a, b - 1);
    }
}

/// The column of decoded rows, given the bits that the integers scale back
/// to: exceptions keep their bits, NULL slots are zero.
pub fn materialize(decoded: &AlpSection, scaled: &Vec<u64>, validity: &Bitmap) -> (column: Column)
    requires
        scaled@.len() == decoded.rows@.len(),
        forall|row: int|
            0 <= row < scaled@.len() ==> ((#[trigger] decoded.rows@[row]) is Null
                <==> !types::bit_set(validity@, row)),
    ensures
        column.stored_as(LogicalType::Float64, validity@),
        column.rows() == decoded_values(decoded.rows@, scaled@),
{
    let count: usize = scaled.len();
    let mut values: Vec<u64> = Vec::new();
    let mut row: usize = 0;
    while row < count
        invariant
            row <= count,
            count == scaled@.len(),
            count == decoded.rows@.len(),
            values@.len() == row,
            forall|r: int|
                0 <= r < row ==> #[trigger] values@[r] == (match decoded.rows@[r] {
                    AlpRow::Null => 0,
                    AlpRow::Integer(_) => scaled@[r],
                    AlpRow::Exception(number) => number,
                }),
        decreases count - row,
    {
        values.push(
            match decoded.rows[row] {
                AlpRow::Null => 0,
                AlpRow::Integer(_) => scaled[row],
                AlpRow::Exception(number) => number,
            },
        );
        row += 1;
    }
    let kept: Option<Bitmap> = column_validity(validity, count);
    let column = Column::Float64 { values, validity: kept };
    proof {
        let want = decoded_values(decoded.rows@, scaled@);
        assert forall|r: int| 0 <= r < count implies column.row(r) == want[r] by {
            assert(decoded.rows@[r] is Null <==> !types::bit_set(validity@, r));
            if kept is None {
                assert(types::bit_set(validity@, r));
            }
        }
        assert(column.rows() =~= want);
    }
    column
}

/// The values of decoded rows, given the bits that the integers scale to.
pub open spec fn decoded_values(rows: Seq<AlpRow>, scaled: Seq<u64>) -> Seq<ValueView> {
    Seq::new(
        rows.len(),
        |row: int|
            match rows[row] {
                AlpRow::Null => ValueView::Null,
                AlpRow::Integer(_) => ValueView::Float64(scaled[row]),
                AlpRow::Exception(number) => ValueView::Float64(number),
            },
    )
}

proof fn lemma_word_sizes(rows: Seq<AlpRow>, reference: int, block: int, plane: int)
    ensures
        forall|i: int|
            0 <= i < plane_words(rows, reference, block, plane).len() ==> (#[trigger] plane_words(
                rows,
                reference,
                block,
                plane,
            )[i]).len() == 8,
        bytes::joined(plane_words(rows, reference, block, plane)).len() == lanes_of(
            rows.len(),
            block,
        ) * 8,
{
    let words = plane_words(rows, reference, block, plane);
    assert forall|i: int| 0 <= i < words.len() implies (#[trigger] words[i]).len() == 8 by {
        bytes::lemma_le_bytes_len(
            bits::bits_value(word_bits(rows, reference, block, plane, i)),
            8,
        );
    }
    bytes::lemma_joined_len(words, 8);
}

proof fn lemma_plane_sizes(rows: Seq<AlpRow>, reference: int, block: int, width: nat)
    ensures
        forall|i: int|
            0 <= i < block_planes(rows, reference, block, width).len() ==> (
            #[trigger] block_planes(rows, reference, block, width)[i]).len() == lanes_of(
                rows.len(),
                block,
            ) * 8,
        bytes::joined(block_planes(rows, reference, block, width)).len() == width * (lanes_of(
            rows.len(),
            block,
        ) * 8),
{
    let planes = block_planes(rows, reference, block, width);
    let stride = lanes_of(rows.len(), block) * 8;
    assert forall|i: int| 0 <= i < planes.len() implies (#[trigger] planes[i]).len() == stride by {
        lemma_word_sizes(rows, reference, block, i);
    }
    bytes::lemma_joined_len(planes, stride);
}

/// Where a block begins, and how long all blocks are.
proof fn lemma_block_offset(rows: Seq<AlpRow>, reference: int, width: nat, block: int)
    requires
        0 <= block <= block_count(rows.len()),
    ensures
        block < block_count(rows.len()) ==> bytes::heap_offset(
            blocks(rows, reference, width),
            block,
        ) == block * (width * 128),
        block == block_count(rows.len()) ==> bytes::heap_offset(
            blocks(rows, reference, width),
            block,
        ) == blocks_len(rows.len(), width),
    decreases block,
{
    let all = blocks(rows, reference, width);
    let n = rows.len();
    if block == 0 {
        assert(all.subrange(0, 0) =~= Seq::<Seq<u8>>::empty());
        assert(0 * (width * 128) == 0);
        if block_count(n) == 0 {
            assert(total_lanes(n) == 0);
            assert(blocks_len(n, width) == 0) by (nonlinear_arith)
                requires
                    blocks_len(n, width) == width * 8 * total_lanes(n),
                    total_lanes(n) == 0,
            ;
        }
    } else {
        let prior = block - 1;
        lemma_block_offset(rows, reference, width, prior);
        lemma_plane_sizes(rows, reference, prior, width);
        let next = all.subrange(0, block);
        assert(next.drop_last() =~= all.subrange(0, prior));
        assert(next.last() == bytes::joined(block_planes(rows, reference, prior, width)));
        let lanes = lanes_of(n, prior);
        assert(prior * (width * 128) + width * (lanes * 8) == width * 8 * (prior * 16 + lanes))
            by (nonlinear_arith);
        if block < block_count(n) {
            assert(lanes == 16);
            assert(width * 8 * (prior * 16 + 16) == block * (width * 128)) by (nonlinear_arith)
                requires
                    block == prior + 1,
            ;
        } else {
            assert(prior * 16 + lanes == total_lanes(n));
        }
    }
}

/// The packed deltas of an encoding are the deltas.
#[verifier::rlimit(60)]
#[verifier::spinoff_prover]
proof fn lemma_packed(
    rows: Seq<AlpRow>,
    e: u8,
    f: u8,
    reference: int,
    width: nat,
    slot: int,
)
    requires
        width <= 64,
        rows.len() <= u32::MAX,
        is_width(rows, reference, width),
        0 <= slot < (rows.len() + 63) / 64 * 64,
    ensures
        packed_delta(section_of(rows, e, f, reference, width), rows.len(), slot) == delta(
            rows,
            reference,
            slot,
        ),
{
    let n = rows.len();
    let section = section_of(rows, e, f, reference, width);
    let block = slot / 1024;
    let lane = (slot % 1024) / 64;
    let index = slot % 64;
    let lanes = lanes_of(n, block);
    let all = blocks(rows, reference, width);
    let planes = block_planes(rows, reference, block, width);
    assert(block < block_count(n));
    assert(lane < lanes);
    lemma_header_bytes(rows, e, f, reference, width);
    lemma_block_offset(rows, reference, width, block);
    bytes::lemma_heap_entry(all, block);
    assert(all[block] == bytes::joined(planes));
    bits::lemma_two_pow_64();
    let digits = Seq::new(
        width,
        |plane: int|
            bits::bit(
                bytes::le_at(section, word_at(width, n, block, plane, lane), 8),
                index as nat,
            ),
    );
    let x = delta(rows, reference, slot);
    lemma_plane_sizes(rows, reference, block, width);
    let base = block * (width * 128);
    let end = bytes::heap_offset(all, block + 1) as int;
    let stride = (lanes * 8) as int;
    let body = bytes::joined(all);
    let in_block = body.subrange(base, end);
    assert(base >= 0) by (nonlinear_arith)
        requires
            base == block * (width * 128),
            block >= 0,
    ;
    assert forall|plane: int| 0 <= plane < width implies #[trigger] digits[plane] == bits::bit(
        x,
        plane as nat,
    ) by {
        let words = plane_words(rows, reference, block, plane);
        bytes::lemma_joined_part(planes, (lanes * 8) as nat, plane);
        assert(planes[plane] == bytes::joined(words));
        lemma_word_sizes(rows, reference, block, plane);
        bytes::lemma_joined_part(words, 8, lane);
        let in_plane = in_block.subrange(plane * stride, plane * stride + stride);
        let at = word_at(width, n, block, plane, lane);
        assert(at == 20 + base + plane * stride + lane * 8);
        assert(in_plane.subrange(lane * 8, lane * 8 + 8) =~= section.subrange(at, at + 8));
        let spelled = word_bits(rows, reference, block, plane, lane);
        assert forall|i: int| 0 <= i < spelled.len() implies #[trigger] spelled[i] < 2 by {
            bits::lemma_bit_range(
                delta(rows, reference, block * 1024 + 64 * lane + i),
                plane as nat,
            );
        }
        bits::lemma_bits_value_bound(spelled);
        bytes::lemma_radix_values();
        bytes::lemma_le_round_trip(bits::bits_value(spelled), 8);
        bits::lemma_bit_of_value(spelled, index as nat);
        assert(block * 1024 + 64 * lane + index == slot);
    }
    assert(x < bits::two_pow(width)) by {
        bits::lemma_two_pow_monotone(0, width);
    }
    bits::lemma_value_of_bits(x, width);
    assert(digits =~= bits::low_bits(x, width));
    assert(digits =~= Seq::new(
        width,
        |plane: int|
            bits::bit(
                bytes::le_at(section, word_at(width, n, slot / 1024, plane, (slot % 1024) / 64), 8),
                (slot % 64) as nat,
            ),
    ));
}

/// The first twenty bytes of an encoding.
proof fn lemma_header_bytes(rows: Seq<AlpRow>, e: u8, f: u8, reference: int, width: nat)
    requires
        width <= 64,
    ensures
        ({
            let section = section_of(rows, e, f, reference, width);
            &&& header_of(e, f, exceptions_of(rows).len(), reference, width).len() == 20
            &&& section.len() >= 20
            &&& section[0] == e
            &&& section[1] == f
            &&& section[2] == 0
            &&& section[3] == 0
            &&& section[16] == width
            &&& section[17] == 0
            &&& section[18] == 0
            &&& section[19] == 0
            &&& section.subrange(4, 8) == bytes::le_bytes(exceptions_of(rows).len(), 4)
            &&& section.subrange(8, 16) == bytes::le_bytes(slots::unsigned64(reference), 8)
        }),
{
    let section = section_of(rows, e, f, reference, width);
    bytes::lemma_le_bytes_len(exceptions_of(rows).len(), 4);
    bytes::lemma_le_bytes_len(slots::unsigned64(reference), 8);
    assert(section.subrange(4, 8) =~= bytes::le_bytes(exceptions_of(rows).len(), 4));
    assert(section.subrange(8, 16) =~= bytes::le_bytes(slots::unsigned64(reference), 8));
}

/// The exceptions are the exception rows, in ascending order.
proof fn lemma_exceptions(rows: Seq<AlpRow>)
    ensures
        exceptions_of(rows).len() <= rows.len(),
        forall|i: int|
            0 <= i < exceptions_of(rows).len() ==> (#[trigger] exceptions_of(rows)[i]).0
                < rows.len() && rows[exceptions_of(rows)[i].0 as int] == AlpRow::Exception(
                exceptions_of(rows)[i].1,
            ),
        forall|i: int, j: int|
            0 <= i < j < exceptions_of(rows).len() ==> (#[trigger] exceptions_of(rows)[i]).0 < (
            #[trigger] exceptions_of(rows)[j]).0,
        forall|row: int|
            0 <= row < rows.len() && (#[trigger] rows[row]) is Exception ==> exists|i: int|
                0 <= i < exceptions_of(rows).len() && (#[trigger] exceptions_of(rows)[i]).0 == row,
    decreases rows.len(),
{
    if rows.len() > 0 {
        let init = rows.drop_last();
        lemma_exceptions(init);
        let before = exceptions_of(init);
        let after = exceptions_of(rows);
        assert forall|row: int| 0 <= row < rows.len() && (
        #[trigger] rows[row]) is Exception implies exists|i: int|
            0 <= i < after.len() && (#[trigger] after[i]).0 == row by {
            if row < init.len() {
                assert(init[row] is Exception);
                let i = choose|i: int| 0 <= i < before.len() && (#[trigger] before[i]).0 == row;
                assert(after[i] == before[i]);
            } else {
                assert(after[before.len() as int].0 == row);
            }
        }
    }
}

/// The exceptions of an encoding stand behind its blocks.
proof fn lemma_exception_records(
    rows: Seq<AlpRow>,
    e: u8,
    f: u8,
    reference: int,
    width: nat,
)
    requires
        width <= 64,
        rows.len() <= u32::MAX,
    ensures
        ({
            let section = section_of(rows, e, f, reference, width);
            let exceptions = exceptions_of(rows);
            &&& section_exceptions(section) == exceptions.len()
            &&& length_lawful(section, rows.len())
            &&& forall|i: int|
                0 <= i < exceptions.len() ==> #[trigger] exception_row(section, rows.len(), i)
                    == exceptions[i].0 && exception_bits(section, rows.len(), i) == exceptions[i].1
        }),
{
    let n = rows.len();
    let section = section_of(rows, e, f, reference, width);
    let exceptions = exceptions_of(rows);
    let parts = exception_parts(exceptions);
    let all = blocks(rows, reference, width);
    lemma_header_bytes(rows, e, f, reference, width);
    lemma_exceptions(rows);
    bytes::lemma_radix_values();
    bytes::lemma_le_round_trip(exceptions.len(), 4);
    lemma_block_offset(rows, reference, width, block_count(n) as int);
    assert(all.subrange(0, all.len() as int) =~= all);
    assert forall|i: int| 0 <= i < parts.len() implies (#[trigger] parts[i]).len() == 12 by {
        bytes::lemma_le_bytes_len(exceptions[i].0, 4);
        bytes::lemma_le_bytes_len(exceptions[i].1 as nat, 8);
    }
    bytes::lemma_joined_len(parts, 12);
    let table = exceptions_at(section, n);
    assert(section =~= section.subrange(0, table) + bytes::joined(parts));
    assert forall|i: int| 0 <= i < exceptions.len() implies #[trigger] exception_row(section, n, i)
        == exceptions[i].0 && exception_bits(section, n, i) == exceptions[i].1 by {
        bytes::lemma_joined_part(parts, 12, i);
        bytes::lemma_le_round_trip(exceptions[i].0, 4);
        bytes::lemma_le_round_trip(exceptions[i].1 as nat, 8);
        let at = table + i * 12;
        let part = bytes::joined(parts).subrange(i * 12, i * 12 + 12);
        assert(part == parts[i]);
        assert(part.subrange(0, 4) =~= bytes::le_bytes(exceptions[i].0, 4));
        assert(part.subrange(4, 12) =~= bytes::le_bytes(exceptions[i].1 as nat, 8));
        assert(section.subrange(at, at + 4) =~= part.subrange(0, 4));
        assert(section.subrange(at + 4, at + 12) =~= part.subrange(4, 12));
    }
}

/// Which rows hold a value.
pub open spec fn validity_of(rows: Seq<AlpRow>) -> Seq<bool> {
    rows.map_values(|row: AlpRow| row != AlpRow::Null)
}

/// What was encoded is decoded: the section of scaled rows gives the rows
/// back, bit for bit.
#[verifier::rlimit(60)]
#[verifier::spinoff_prover]
pub proof fn law_alp_round_trip(rows: Seq<AlpRow>, e: u8, f: u8, section: Seq<u8>)
    requires
        rows.len() <= u32::MAX,
        is_encoding(rows, e, f, section),
    ensures
        decoding_of(seq![e, f, 0u8], section, validity_of(rows), rows.len(), LogicalType::Float64)
            == Some(rows),
{
    let (reference, width) = choose|reference: int, width: nat|
        #![trigger section_of(rows, e, f, reference, width)]
        {
            &&& is_reference(rows, reference)
            &&& is_width(rows, reference, width)
            &&& width <= 64
            &&& section == section_of(rows, e, f, reference, width)
        };
    let n = rows.len();
    let bits = validity_of(rows);
    let exceptions = exceptions_of(rows);
    let params = seq![e, f, 0u8];
    if exists|i: int| 0 <= i < n && row_integer(#[trigger] rows[i]) is Some {
        let i = choose|i: int|
            0 <= i < n && row_integer(#[trigger] rows[i]) == Some(reference);
        assert(i64::MIN <= reference <= i64::MAX);
    }
    lemma_header_bytes(rows, e, f, reference, width);
    lemma_exceptions(rows);
    bytes::lemma_radix_values();
    bytes::lemma_le_round_trip(exceptions.len(), 4);
    bytes::lemma_le_round_trip(slots::unsigned64(reference), 8);
    assert(section_reference(section) == reference);
    assert(header_lawful(params, section, n));
    lemma_exception_records(rows, e, f, reference, width);
    assert forall|slot: int| n <= slot < (n + 63) / 64 * 64 implies #[trigger] packed_delta(
        section,
        n,
        slot,
    ) == 0 by {
        lemma_packed(rows, e, f, reference, width, slot);
    }
    assert forall|i: int| 0 <= i < exceptions.len() implies #[trigger] exception_lawful(
        section,
        bits,
        n,
        i,
    ) by {
        assert(exception_row(section, n, i) == exceptions[i].0);
        if i > 0 {
            assert(exception_row(section, n, i - 1) == exceptions[i - 1].0);
        }
        assert(bits[exceptions[i].0 as int]);
    }
    let back = decoding_of(params, section, bits, n, LogicalType::Float64)->0;
    assert forall|row: int| 0 <= row < n implies back[row] == rows[row] by {
        lemma_packed(rows, e, f, reference, width, row);
        match rows[row] {
            AlpRow::Null => {},
            AlpRow::Integer(value) => {
                assert(bits[row]);
                assert(reference <= row_integer(rows[row])->0);
                if is_exception(section, n, row) {
                    let i = choose|index: int|
                        0 <= index < section_exceptions(section) && #[trigger] exception_row(
                            section,
                            n,
                            index,
                        ) == row;
                    assert(exceptions[i].0 == row);
                }
            },
            AlpRow::Exception(number) => {
                assert(bits[row]);
                let i = choose|i: int| 0 <= i < exceptions.len() && (#[trigger] exceptions[i]).0 == row;
                assert(exception_row(section, n, i) == row);
                let chosen = choose|index: int|
                    0 <= index < section_exceptions(section) && #[trigger] exception_row(
                        section,
                        n,
                        index,
                    ) == row;
                assert(exceptions[chosen].0 == row);
                assert(rows[exceptions[chosen].0 as int] == AlpRow::Exception(
                    exceptions[chosen].1,
                ));
            },
        }
    }
    assert(back =~= rows);
}

} // verus!
