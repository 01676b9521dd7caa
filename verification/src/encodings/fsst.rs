//! String compression by a static symbol table.
//!
//! The section is a symbol count, for each symbol its length and bytes, the
//! `rows + 1` u32 heap offsets, and the heap of code streams. Code 255 is
//! the escape: the next byte stands for itself. A NULL row has no codes.

use vstd::prelude::*;
use vstd::slice::slice_subrange;

use crate::bytes;
use crate::bytes::{get_le, put_bytes, put_le};
use crate::encodings::symbols;
use crate::encodings::symbols::{copy_bytes, SymbolTable, TOTAL_CAP_BYTES};
use crate::error::{corrupt, invalid_argument, DevonResult, ErrorKind};
use crate::text::{and_name, text_from_utf8, with_name, with_number};
use crate::types;
use crate::types::{Bitmap, Column, LogicalType, Value, ValueView};

verus! {

/// The code before a literal byte.
pub const ESCAPE: u8 = 255;

/// Whether every row is NULL or a string.
pub open spec fn all_strings(rows: Seq<ValueView>) -> bool {
    forall|row: int|
        0 <= row < rows.len() ==> (#[trigger] rows[row]) is Null || rows[row] is String
}

/// The strings of the rows that hold one.
pub open spec fn texts_of(rows: Seq<ValueView>) -> Seq<Seq<u8>>
    decreases rows.len(),
{
    if rows.len() == 0 {
        Seq::empty()
    } else if rows.last() is String {
        texts_of(rows.drop_last()).push(vstd::utf8::encode_utf8(rows.last()->String_0))
    } else {
        texts_of(rows.drop_last())
    }
}

/// The codes of a string.
pub open spec fn stream(table: Seq<Seq<u8>>, bytes: Seq<u8>) -> Seq<u8>
    decreases bytes.len(),
{
    if bytes.len() == 0 {
        Seq::empty()
    } else {
        match symbols::longest(table, bytes) {
            Some(code) => if 0 < table[code].len() <= bytes.len() {
                seq![code as u8] + stream(table, bytes.skip(table[code].len() as int))
            } else {
                Seq::empty()
            },
            None => seq![ESCAPE, bytes[0]] + stream(table, bytes.skip(1)),
        }
    }
}

/// The codes of a row.
pub open spec fn row_stream(table: Seq<Seq<u8>>, value: ValueView) -> Seq<u8> {
    if value is String {
        stream(table, vstd::utf8::encode_utf8(value->String_0))
    } else {
        Seq::empty()
    }
}

/// The codes of all rows.
pub open spec fn streams(table: Seq<Seq<u8>>, rows: Seq<ValueView>) -> Seq<Seq<u8>> {
    rows.map_values(|value: ValueView| row_stream(table, value))
}

/// The symbols as they are written.
pub open spec fn symbol_parts(table: Seq<Seq<u8>>) -> Seq<Seq<u8>> {
    table.map_values(|symbol: Seq<u8>| seq![symbol.len() as u8] + symbol)
}

/// The section of the rows under a table.
pub open spec fn section_of(table: Seq<Seq<u8>>, rows: Seq<ValueView>) -> Seq<u8> {
    seq![table.len() as u8] + bytes::joined(symbol_parts(table)) + bytes::joined(
        bytes::offset_parts(streams(table, rows)),
    ) + bytes::joined(streams(table, rows))
}

/// Whether the table is the one that the rows build.
pub open spec fn is_row_table(rows: Seq<ValueView>, table: Seq<Seq<u8>>) -> bool {
    symbols::is_built(
        symbols::sample_of(texts_of(rows)),
        symbols::ITERATIONS as nat,
        table,
    )
}

/// Whether the codes of the rows fit the heap.
pub open spec fn heap_fits(table: Seq<Seq<u8>>, rows: Seq<ValueView>) -> bool {
    bytes::joined(streams(table, rows)).len() <= u32::MAX
}

/// Whether the section is the encoding of the rows.
pub open spec fn is_encoding(rows: Seq<ValueView>, section: Seq<u8>) -> bool {
    exists|table: Seq<Seq<u8>>| #[trigger]
        is_row_table(rows, table) && heap_fits(table, rows) && section == section_of(table, rows)
}

/// Whether the rows cannot be encoded: not all are strings, or their codes
/// do not fit.
pub open spec fn refused(rows: Seq<ValueView>) -> bool {
    ||| !all_strings(rows)
    ||| forall|table: Seq<Seq<u8>>| #[trigger]
        is_row_table(rows, table) ==> !heap_fits(table, rows)
}

/// Where symbol record `index` of a section begins.
pub open spec fn record_at(section: Seq<u8>, index: nat) -> int
    decreases index,
{
    if index == 0 {
        1
    } else {
        record_at(section, (index - 1) as nat) + 1 + section[record_at(
            section,
            (index - 1) as nat,
        )] as int
    }
}

/// Whether a symbol record lies within the section and is of a lawful length.
pub open spec fn record_lawful(section: Seq<u8>, index: nat) -> bool {
    let at = record_at(section, index);
    &&& 0 < at < section.len()
    &&& 1 <= section[at] <= 8
    &&& at + 1 + section[at] <= section.len()
}

/// Whether the symbol table of a section is lawful.
pub open spec fn table_lawful(section: Seq<u8>) -> bool {
    section.len() >= 1 && forall|index: nat|
        index < section[0] ==> #[trigger] record_lawful(section, index)
}

/// The symbols of a section.
pub open spec fn section_table(section: Seq<u8>) -> Seq<Seq<u8>> {
    Seq::new(
        section[0] as nat,
        |index: int|
            section.subrange(
                record_at(section, index as nat) + 1,
                record_at(section, index as nat + 1),
            ),
    )
}

/// Where the offsets begin.
pub open spec fn offsets_at(section: Seq<u8>) -> int {
    record_at(section, section[0] as nat)
}

/// An offset of a section.
pub open spec fn section_offset(section: Seq<u8>, row: int) -> nat {
    bytes::le_at(section, offsets_at(section) + row * 4, 4)
}

/// Where the heap begins.
pub open spec fn heap_at(section: Seq<u8>, row_count: nat) -> int {
    offsets_at(section) + (row_count + 1) * 4
}

/// Whether an offset is at most the next.
pub open spec fn offset_step(section: Seq<u8>, row: int) -> bool {
    section_offset(section, row) <= section_offset(section, row + 1)
}

/// Whether the offsets start at zero, never fall and end at the heap's end.
pub open spec fn offsets_lawful(section: Seq<u8>, row_count: nat) -> bool {
    &&& heap_at(section, row_count) <= section.len()
    &&& section_offset(section, 0) == 0
    &&& forall|row: int| 0 <= row < row_count ==> #[trigger] offset_step(section, row)
    &&& section_offset(section, row_count as int) == section.len() - heap_at(section, row_count)
}

/// The codes of a row in a section.
pub open spec fn section_stream(section: Seq<u8>, row_count: nat, row: int) -> Seq<u8> {
    section.subrange(
        heap_at(section, row_count) + section_offset(section, row),
        heap_at(section, row_count) + section_offset(section, row + 1),
    )
}

/// The bytes that codes spell; `None` for a code without a meaning.
pub open spec fn expand(table: Seq<Seq<u8>>, codes: Seq<u8>) -> Option<Seq<u8>>
    decreases codes.len(),
{
    if codes.len() == 0 {
        Some(Seq::empty())
    } else if codes[0] == ESCAPE {
        if codes.len() == 1 {
            None
        } else {
            match expand(table, codes.skip(2)) {
                Some(rest) => Some(seq![codes[1]] + rest),
                None => None,
            }
        }
    } else if codes[0] < table.len() {
        match expand(table, codes.skip(1)) {
            Some(rest) => Some(table[codes[0] as int] + rest),
            None => None,
        }
    } else {
        None
    }
}

/// Whether a row's codes are ones that the format allows.
pub open spec fn row_lawful(section: Seq<u8>, bits: Seq<bool>, row_count: nat, row: int) -> bool {
    if types::bit_set(bits, row) {
        expand(
            section_table(section),
            section_stream(section, row_count, row),
        ) matches Some(text) && vstd::utf8::valid_utf8(text)
    } else {
        section_offset(section, row) == section_offset(section, row + 1)
    }
}

/// The rows that a section decodes to; `None` is a refusal.
pub open spec fn decoding_of(
    params: Seq<u8>,
    section: Seq<u8>,
    bits: Seq<bool>,
    row_count: nat,
    ty: LogicalType,
) -> Option<Seq<ValueView>> {
    if params != seq![0u8, 0, 0] || ty != LogicalType::String || !table_lawful(section)
        || !offsets_lawful(section, row_count) {
        None
    } else if exists|row: int|
        0 <= row < row_count && !#[trigger] row_lawful(section, bits, row_count, row) {
        None
    } else {
        Some(
            Seq::new(
                row_count,
                |row: int|
                    if types::bit_set(bits, row) {
                        ValueView::String(
                            vstd::utf8::decode_utf8(
                                expand(
                                    section_table(section),
                                    section_stream(section, row_count, row),
                                )->0,
                            ),
                        )
                    } else {
                        ValueView::Null
                    },
            ),
        )
    }
}

/// Encodes a column of strings.
pub fn encode(column: &Column, ty: &LogicalType) -> (result: DevonResult<(Vec<u8>, [u8; 3])>)
    ensures
        match result {
            Ok((section, params)) => {
                &&& all_strings(column.rows())
                &&& is_encoding(column.rows(), section@)
                &&& params@ == seq![0u8, 0, 0]
            },
            Err(error) => refused(column.rows()) && error.kind_of() == ErrorKind::InvalidArgument,
        },
{
    let ghost rows = column.rows();
    let texts: Vec<Vec<u8>> = match collect_texts(column) {
        Some(texts) => texts,
        None => {
            return Err(
                invalid_argument(
                    with_name("encoding fsst value does not match ", ty.name(), "").as_str(),
                ),
            );
        },
    };
    let total: u64 = match total_bytes(&texts) {
        Some(total) => total,
        None => {
            proof {
                assert forall|table: Seq<Seq<u8>>| #[trigger]
                    is_row_table(rows, table) implies !heap_fits(table, rows) by {
                    lemma_heap_floor(table, rows);
                }
            }
            return Err(invalid_argument("encoding fsst compressed heap length exceeds u32"));
        },
    };
    let table: SymbolTable = SymbolTable::build(&texts, total);
    assert(is_row_table(rows, table.table()));
    match write_section(column, &table) {
        Some(section) => {
            let params: [u8; 3] = [0u8, 0u8, 0u8];
            assert(params@ =~= seq![0u8, 0, 0]);
            Ok((section, params))
        },
        None => {
            proof {
                assert forall|other: Seq<Seq<u8>>| #[trigger]
                    is_row_table(rows, other) implies !heap_fits(other, rows) by {
                    symbols::lemma_built_unique(
                        symbols::sample_of(texts_of(rows)),
                        symbols::ITERATIONS as nat,
                        other,
                        table.table(),
                    );
                }
            }
            Err(invalid_argument("encoding fsst compressed heap length exceeds u32"))
        },
    }
}

/// The strings of the column; `None` where a row holds another kind of value.
fn collect_texts(column: &Column) -> (found: Option<Vec<Vec<u8>>>)
    ensures
        match found {
            Some(texts) => all_strings(column.rows()) && symbols::strings_of(texts@) == texts_of(
                column.rows(),
            ),
            None => !all_strings(column.rows()),
        },
{
    let ghost rows = column.rows();
    let count: usize = column.len();
    let mut texts: Vec<Vec<u8>> = Vec::new();
    let mut row: usize = 0;
    assert(symbols::strings_of(texts@) =~= texts_of(rows.subrange(0, 0)));
    while row < count
        invariant
            row <= count,
            count == column.row_count(),
            rows == column.rows(),
            forall|r: int|
                0 <= r < row ==> (#[trigger] rows[r]) is Null || rows[r] is String,
            symbols::strings_of(texts@) == texts_of(rows.subrange(0, row as int)),
        decreases count - row,
    {
        let value: Value = column.value_at(row);
        let ghost next = rows.subrange(0, row + 1);
        proof {
            assert(next.drop_last() =~= rows.subrange(0, row as int));
            assert(next.last() == value@);
        }
        match &value {
            Value::Null => {},
            Value::String(text) => {
                let ghost before = symbols::strings_of(texts@);
                texts.push(copy_bytes(text.as_str().as_bytes()));
                assert(symbols::strings_of(texts@) =~= before.push(
                    vstd::utf8::encode_utf8(text@),
                ));
            },
            _ => {
                assert(rows[row as int] == value@);
                return None;
            },
        }
        row += 1;
    }
    assert(rows.subrange(0, count as int) =~= rows);
    Some(texts)
}

/// The length of all strings; `None` where it is too much to encode.
fn total_bytes(texts: &Vec<Vec<u8>>) -> (total: Option<u64>)
    ensures
        match total {
            Some(sum) => sum == symbols::total_len(symbols::strings_of(texts@)) && sum
                <= TOTAL_CAP_BYTES,
            None => symbols::total_len(symbols::strings_of(texts@)) > TOTAL_CAP_BYTES,
        },
{
    let ghost strings = symbols::strings_of(texts@);
    let mut total: u64 = 0;
    let mut at: usize = 0;
    assert(strings.subrange(0, 0) =~= Seq::<Seq<u8>>::empty());
    while at < texts.len()
        invariant
            at <= texts@.len(),
            strings == symbols::strings_of(texts@),
            total <= TOTAL_CAP_BYTES,
            total == symbols::total_len(strings.subrange(0, at as int)),
        decreases texts@.len() - at,
    {
        let len: u64 = texts[at].len() as u64;
        proof {
            let next = strings.subrange(0, at + 1);
            assert(next.drop_last() =~= strings.subrange(0, at as int));
            assert(next.last() == texts@[at as int]@);
            symbols::lemma_total_prefix(strings, at + 1);
        }
        if len > TOTAL_CAP_BYTES - total {
            return None;
        }
        total = total + len;
        at += 1;
    }
    assert(strings.subrange(0, texts@.len() as int) =~= strings);
    Some(total)
}

/// Writes the section; `None` where the codes do not fit.
fn write_section(column: &Column, table: &SymbolTable) -> (found: Option<Vec<u8>>)
    requires
        all_strings(column.rows()),
        symbols::is_table(table.table()),
    ensures
        match found {
            Some(section) => heap_fits(table.table(), column.rows()) && section@ == section_of(
                table.table(),
                column.rows(),
            ),
            None => !heap_fits(table.table(), column.rows()),
        },
{
    let ghost rows = column.rows();
    let ghost shown = table.table();
    let ghost parts = streams(shown, rows);
    let ghost offsets = bytes::offset_parts(parts);
    let index: Vec<Vec<u8>> = table.first_byte_index();
    let mut section: Vec<u8> = Vec::new();
    write_symbols(table, &mut section);
    let ghost head = section@;
    let mut heap: Vec<u8> = Vec::new();
    put_le(&mut section, 0, 4);
    proof {
        assert(parts.subrange(0, 0) =~= Seq::<Seq<u8>>::empty());
        assert(offsets.subrange(0, 1) =~= Seq::<Seq<u8>>::empty().push(offsets[0]));
        bytes::lemma_joined_push(Seq::<Seq<u8>>::empty(), offsets[0]);
        assert(section@ =~= head + bytes::joined(offsets.subrange(0, 1)));
    }
    let count: usize = column.len();
    let mut row: usize = 0;
    while row < count
        invariant
            row <= count,
            count == column.row_count(),
            rows == column.rows(),
            shown == table.table(),
            all_strings(rows),
            symbols::is_table(shown),
            symbols::is_index(shown, index@),
            parts == streams(shown, rows),
            offsets == bytes::offset_parts(parts),
            heap@ == bytes::joined(parts.subrange(0, row as int)),
            heap@.len() <= u32::MAX,
            section@ == head + bytes::joined(offsets.subrange(0, row + 1)),
        decreases count - row,
    {
        let value: Value = column.value_at(row);
        assert(rows[row as int] is Null || rows[row as int] is String);
        if let Value::String(text) = &value {
            encode_bytes(table, &index, text.as_str().as_bytes(), &mut heap);
        }
        proof {
            let next = parts.subrange(0, row + 1);
            assert(next.drop_last() =~= parts.subrange(0, row as int));
            assert(next.last() == row_stream(shown, value@));
            assert(heap@ =~= bytes::joined(next));
            bytes::lemma_joined_prefix(parts, row + 1);
        }
        if heap.len() as u64 > u32::MAX as u64 {
            return None;
        }
        put_le(&mut section, heap.len() as u64, 4);
        proof {
            let next = offsets.subrange(0, row + 2);
            assert(next.drop_last() =~= offsets.subrange(0, row + 1));
            assert(next.last() == bytes::le_bytes(heap@.len(), 4));
            assert(section@ =~= head + bytes::joined(next));
        }
        row += 1;
    }
    put_bytes(&mut section, heap.as_slice());
    proof {
        assert(parts.subrange(0, count as int) =~= parts);
        assert(offsets.subrange(0, count + 1) =~= offsets);
        assert(section@ =~= section_of(shown, rows));
    }
    Some(section)
}

fn write_symbols(table: &SymbolTable, section: &mut Vec<u8>)
    requires
        symbols::is_table(table.table()),
        old(section)@.len() == 0,
    ensures
        final(section)@ == seq![table.table().len() as u8] + bytes::joined(
            symbol_parts(table.table()),
        ),
{
    let ghost shown = table.table();
    let ghost parts = symbol_parts(shown);
    let count: usize = table.symbols.len();
    section.push(count as u8);
    let mut at: usize = 0;
    assert(parts.subrange(0, 0) =~= Seq::<Seq<u8>>::empty());
    assert(section@ =~= seq![count as u8] + bytes::joined(parts.subrange(0, 0)));
    while at < count
        invariant
            at <= count,
            count == table.symbols@.len(),
            count <= 255,
            shown == table.table(),
            symbols::is_table(shown),
            parts == symbol_parts(shown),
            section@ == seq![count as u8] + bytes::joined(parts.subrange(0, at as int)),
        decreases count - at,
    {
        assert(1 <= shown[at as int].len() <= 8);
        let len: usize = table.symbols[at].len();
        section.push(len as u8);
        put_bytes(section, table.symbols[at].as_slice());
        proof {
            let next = parts.subrange(0, at + 1);
            assert(next.drop_last() =~= parts.subrange(0, at as int));
            assert(next.last() =~= seq![len as u8] + shown[at as int]);
            assert(section@ =~= seq![count as u8] + bytes::joined(next));
        }
        at += 1;
    }
    assert(parts.subrange(0, count as int) =~= parts);
}

/// Appends the codes of one string: always the longest symbol, or an escape. The codes spell the
/// string.
pub fn encode_bytes(table: &SymbolTable, index: &Vec<Vec<u8>>, bytes: &[u8], out: &mut Vec<u8>)
    requires
        symbols::is_table(table.table()),
        symbols::is_index(table.table(), index@),
    ensures
        final(out)@ == old(out)@ + stream(table.table(), bytes@),
        expand(table.table(), stream(table.table(), bytes@)) == Some(bytes@),
{
    proof {
        law_stream_expands(table.table(), bytes@);
    }
    let ghost shown = table.table();
    let mut position: usize = 0;
    assert(bytes@.skip(0) =~= bytes@);
    while position < bytes.len()
        invariant
            position <= bytes@.len(),
            shown == table.table(),
            symbols::is_table(shown),
            symbols::is_index(shown, index@),
            old(out)@ + stream(shown, bytes@) == out@ + stream(
                shown,
                bytes@.skip(position as int),
            ),
        decreases bytes@.len() - position,
    {
        let ghost rest = bytes@.skip(position as int);
        let ghost before = out@;
        match table.longest_match(index, bytes, position) {
            Some(code) => {
                assert(1 <= shown[code as int].len() <= 8);
                out.push(code);
                let len: usize = table.symbols[code as usize].len();
                proof {
                    assert(rest.skip(len as int) =~= bytes@.skip(position + len));
                    assert(before + stream(shown, rest) =~= out@ + stream(
                        shown,
                        bytes@.skip(position + len),
                    ));
                }
                position += len;
            },
            None => {
                out.push(ESCAPE);
                out.push(bytes[position]);
                proof {
                    assert(rest.skip(1) =~= bytes@.skip(position + 1));
                    assert(before + stream(shown, rest) =~= out@ + stream(
                        shown,
                        bytes@.skip(position + 1),
                    ));
                }
                position += 1;
            },
        }
    }
    proof {
        assert(bytes@.skip(position as int) =~= Seq::<u8>::empty());
        assert(out@ + stream(shown, Seq::<u8>::empty()) =~= out@);
    }
}

/// A code stands for at most eight bytes.
proof fn lemma_stream_floor(table: Seq<Seq<u8>>, bytes: Seq<u8>)
    requires
        symbols::is_table(table),
    ensures
        bytes.len() <= 8 * stream(table, bytes).len(),
    decreases bytes.len(),
{
    if bytes.len() > 0 {
        match symbols::longest(table, bytes) {
            Some(code) => {
                assert(symbols::is_longest(table, bytes, code));
                assert(1 <= table[code].len() <= 8);
                lemma_stream_floor(table, bytes.skip(table[code].len() as int));
            },
            None => {
                lemma_stream_floor(table, bytes.skip(1));
            },
        }
    }
}

proof fn lemma_total_floor(table: Seq<Seq<u8>>, rows: Seq<ValueView>)
    requires
        symbols::is_table(table),
    ensures
        symbols::total_len(texts_of(rows)) <= 8 * bytes::joined(streams(table, rows)).len(),
    decreases rows.len(),
{
    if rows.len() > 0 {
        let init = rows.drop_last();
        lemma_total_floor(table, init);
        assert(streams(table, rows).drop_last() =~= streams(table, init));
        if rows.last() is String {
            let text = vstd::utf8::encode_utf8(rows.last()->String_0);
            lemma_stream_floor(table, text);
            assert(texts_of(rows).drop_last() =~= texts_of(init));
        }
    }
}

proof fn lemma_heap_floor(table: Seq<Seq<u8>>, rows: Seq<ValueView>)
    requires
        is_row_table(rows, table),
        symbols::total_len(texts_of(rows)) > TOTAL_CAP_BYTES,
    ensures
        !heap_fits(table, rows),
{
    lemma_total_floor(table, rows);
}

/// Decodes a section.
pub fn decode(
    params: [u8; 3],
    section: &[u8],
    validity: &Bitmap,
    row_count: usize,
    ty: &LogicalType,
) -> (result: DevonResult<Column>)
    ensures
        match result {
            Ok(column) => {
                &&& decoding_of(params@, section@, validity@, row_count as nat, *ty) == Some(
                    column.rows(),
                )
                &&& column.stored_as(*ty, validity@)
            },
            Err(error) => decoding_of(params@, section@, validity@, row_count as nat, *ty) is None
                && error.kind_of() == ErrorKind::Corrupt,
        },
{
    if params[0] != 0 || params[1] != 0 || params[2] != 0 {
        assert(params@ != seq![0u8, 0, 0]);
        return Err(corrupt("encoding fsst parameters are not zero"));
    }
    assert(params@ =~= seq![0u8, 0, 0]);
    let string: bool = match ty {
        LogicalType::String => true,
        _ => false,
    };
    if !string {
        return Err(
            corrupt(with_name("encoding fsst is not admissible for ", ty.name(), "").as_str()),
        );
    }
    let (table, start): (Vec<Vec<u8>>, usize) = match parse_symbol_table(section) {
        Ok(parsed) => parsed,
        Err(error) => {
            return Err(error);
        },
    };
    let (offsets, heap): (Vec<u32>, usize) = match parse_offsets(section, start, row_count) {
        Ok(parsed) => parsed,
        Err(error) => {
            return Err(error);
        },
    };
    materialize(&table, section, &offsets, heap, validity, row_count)
}

/// Reads the symbols; also where the offsets begin.
fn parse_symbol_table(section: &[u8]) -> (result: DevonResult<(Vec<Vec<u8>>, usize)>)
    ensures
        match result {
            Ok((table, start)) => {
                &&& table_lawful(section@)
                &&& symbols::strings_of(table@) == section_table(section@)
                &&& start == offsets_at(section@)
                &&& start <= section@.len()
            },
            Err(error) => !table_lawful(section@) && error.kind_of() == ErrorKind::Corrupt,
        },
{
    let size: usize = section.len();
    if size == 0 {
        return Err(corrupt("fsst values section is empty, expected at least the symbol count"));
    }
    let count: usize = section[0] as usize;
    let ghost all = section_table(section@);
    let mut table: Vec<Vec<u8>> = Vec::new();
    let mut at: usize = 1;
    let mut index: usize = 0;
    while index < count
        invariant
            index <= count,
            count == section@[0],
            size == section@.len(),
            0 < at <= size,
            at == record_at(section@, index as nat),
            all == section_table(section@),
            table@.len() == index,
            forall|i: int| 0 <= i < index ==> (#[trigger] table@[i])@ == all[i],
            forall|i: nat| i < index ==> #[trigger] record_lawful(section@, i),
        decreases count - index,
    {
        if at == size {
            assert(!record_lawful(section@, index as nat));
            return Err(
                corrupt(
                    with_number("fsst symbol table is truncated at symbol ", index as u64, "").as_str(),
                ),
            );
        }
        let len: usize = section[at] as usize;
        if len < 1 || len > 8 {
            assert(!record_lawful(section@, index as nat));
            let head: String = with_number("fsst symbol ", index as u64, " length is ");
            return Err(
                corrupt(with_number(head.as_str(), len as u64, ", expected 1..=8").as_str()),
            );
        }
        if size - at - 1 < len {
            assert(!record_lawful(section@, index as nat));
            let head: String = with_number("fsst symbol ", index as u64, " is truncated: ");
            let more: String = with_number(head.as_str(), len as u64, " bytes declared, ");
            return Err(
                corrupt(with_number(more.as_str(), (size - at - 1) as u64, " remain").as_str()),
            );
        }
        let symbol: Vec<u8> = copy_bytes(slice_subrange(section, at + 1, at + 1 + len));
        table.push(symbol);
        proof {
            assert(record_lawful(section@, index as nat));
            assert(record_at(section@, index as nat + 1) == at + 1 + len);
        }
        at = at + 1 + len;
        index += 1;
    }
    assert(symbols::strings_of(table@) =~= all);
    Ok((table, at))
}

/// Reads and validates the offsets; also where the heap begins.
fn parse_offsets(section: &[u8], start: usize, row_count: usize) -> (result: DevonResult<
    (Vec<u32>, usize),
>)
    requires
        table_lawful(section@),
        start == offsets_at(section@),
        start <= section@.len(),
    ensures
        match result {
            Ok((offsets, heap)) => {
                &&& offsets_lawful(section@, row_count as nat)
                &&& heap == heap_at(section@, row_count as nat)
                &&& offsets@.len() == row_count + 1
                &&& forall|i: int|
                    0 <= i < offsets@.len() ==> #[trigger] offsets@[i] == section_offset(
                        section@,
                        i,
                    )
                &&& forall|i: int, j: int|
                    0 <= i <= j < offsets@.len() ==> #[trigger] offsets@[i]
                        <= #[trigger] offsets@[j]
            },
            Err(error) => !offsets_lawful(section@, row_count as nat) && error.kind_of()
                == ErrorKind::Corrupt,
        },
{
    let size: usize = section.len();
    if (size - start) / 4 <= row_count {
        let head: String = with_number(
            "fsst offsets section is ",
            (size - start) as u64,
            " bytes, expected ",
        );
        let more: String = with_number(
            head.as_str(),
            (row_count as u64).wrapping_add(1).wrapping_mul(4),
            " for ",
        );
        return Err(corrupt(with_number(more.as_str(), row_count as u64, " rows").as_str()));
    }
    let count: usize = row_count + 1;
    let heap: usize = start + count * 4;
    let mut offsets: Vec<u32> = Vec::new();
    proof {
        bytes::lemma_radix_values();
    }
    let mut index: usize = 0;
    while index < count
        invariant
            index <= count,
            start == offsets_at(section@),
            heap == start + count * 4,
            heap <= size,
            size == section@.len(),
            bytes::radix_pow(4) == 0x1_0000_0000,
            offsets@.len() == index,
            forall|i: int|
                0 <= i < index ==> #[trigger] offsets@[i] == section_offset(section@, i),
        decreases count - index,
    {
        let offset: u64 = get_le(section, start + index * 4, 4);
        offsets.push(offset as u32);
        index += 1;
    }
    assert(offsets@[0] == section_offset(section@, 0));
    if offsets[0] != 0 {
        return Err(
            corrupt(
                with_number("fsst offsets start at ", offsets[0] as u64, ", expected 0").as_str(),
            ),
        );
    }
    let mut row: usize = 0;
    while row < row_count
        invariant
            row <= row_count,
            offsets@.len() == row_count + 1,
            forall|i: int|
                0 <= i < offsets@.len() ==> #[trigger] offsets@[i] == section_offset(section@, i),
            forall|i: int| 0 <= i < row ==> #[trigger] offset_step(section@, i),
            forall|i: int, j: int|
                0 <= i <= j <= row ==> #[trigger] offsets@[i] <= #[trigger] offsets@[j],
        decreases row_count - row,
    {
        assert(offsets@[row as int] == section_offset(section@, row as int));
        assert(offsets@[row + 1] == section_offset(section@, row + 1));
        if offsets[row] > offsets[row + 1] {
            assert(!offset_step(section@, row as int));
            return Err(
                corrupt(with_number("fsst offsets decrease at row ", row as u64, "").as_str()),
            );
        }
        row += 1;
    }
    assert(offsets@[row_count as int] == section_offset(section@, row_count as int));
    if offsets[row_count] as u64 != (size - heap) as u64 {
        let head: String = with_number(
            "fsst offsets end at ",
            offsets[row_count] as u64,
            " but the heap is ",
        );
        return Err(corrupt(with_number(head.as_str(), (size - heap) as u64, " bytes").as_str()));
    }
    Ok((offsets, heap))
}

/// Expands every row's codes.
fn materialize(
    table: &Vec<Vec<u8>>,
    section: &[u8],
    offsets: &Vec<u32>,
    heap: usize,
    validity: &Bitmap,
    row_count: usize,
) -> (result: DevonResult<Column>)
    requires
        table_lawful(section@),
        offsets_lawful(section@, row_count as nat),
        symbols::strings_of(table@) == section_table(section@),
        heap == heap_at(section@, row_count as nat),
        offsets@.len() == row_count + 1,
        forall|i: int|
            0 <= i < offsets@.len() ==> #[trigger] offsets@[i] == section_offset(section@, i),
        forall|i: int, j: int|
            0 <= i <= j < offsets@.len() ==> #[trigger] offsets@[i] <= #[trigger] offsets@[j],
    ensures
        ({
            let params = seq![0u8, 0u8, 0u8];
            match result {
                Ok(column) => {
                    &&& decoding_of(
                        params,
                        section@,
                        validity@,
                        row_count as nat,
                        LogicalType::String,
                    ) == Some(column.rows())
                    &&& column.stored_as(LogicalType::String, validity@)
                },
                Err(error) => decoding_of(
                    params,
                    section@,
                    validity@,
                    row_count as nat,
                    LogicalType::String,
                ) is None && error.kind_of() == ErrorKind::Corrupt,
            }
        }),
{
    let size: usize = section.len();
    let ghost shown = section_table(section@);
    let mut values: Vec<Value> = Vec::new();
    let mut row: usize = 0;
    assert(offsets@[row_count as int] == section_offset(section@, row_count as int));
    while row < row_count
        invariant
            row <= row_count,
            size == section@.len(),
            heap == heap_at(section@, row_count as nat),
            heap <= size,
            shown == section_table(section@),
            symbols::strings_of(table@) == shown,
            offsets@.len() == row_count + 1,
            offsets@[row_count as int] == size - heap,
            forall|i: int|
                0 <= i < offsets@.len() ==> #[trigger] offsets@[i] == section_offset(section@, i),
            forall|i: int, j: int|
                0 <= i <= j < offsets@.len() ==> #[trigger] offsets@[i] <= #[trigger] offsets@[j],
            values@.len() == row,
            forall|r: int|
                0 <= r < row ==> #[trigger] row_lawful(section@, validity@, row_count as nat, r),
            forall|r: int|
                0 <= r < row ==> (#[trigger] values@[r])@ == if types::bit_set(validity@, r) {
                    ValueView::String(
                        vstd::utf8::decode_utf8(
                            expand(shown, section_stream(section@, row_count as nat, r))->0,
                        ),
                    )
                } else {
                    ValueView::Null
                },
        decreases row_count - row,
    {
        assert(offsets@[row as int] <= offsets@[row + 1]);
        assert(offsets@[row + 1] <= offsets@[row_count as int]);
        assert(offsets@[row as int] == section_offset(section@, row as int));
        assert(offsets@[row + 1] == section_offset(section@, row + 1));
        let start: usize = offsets[row] as usize;
        let end: usize = offsets[row + 1] as usize;
        if !validity.is_valid(row) {
            if start != end {
                assert(!row_lawful(section@, validity@, row_count as nat, row as int));
                return Err(
                    corrupt(
                        with_number("fsst NULL row ", row as u64, " has a nonempty code stream").as_str(),
                    ),
                );
            }
            values.push(Value::Null);
        } else {
            let codes: &[u8] = slice_subrange(section, heap + start, heap + end);
            assert(codes@ == section_stream(section@, row_count as nat, row as int));
            match decode_row(table, codes, start, row) {
                Ok(text) => {
                    values.push(Value::String(text));
                },
                Err(error) => {
                    assert(!row_lawful(section@, validity@, row_count as nat, row as int));
                    return Err(error);
                },
            }
        }
        assert(row_lawful(section@, validity@, row_count as nat, row as int));
        row += 1;
    }
    let column = Column::Boxed(values);
    proof {
        let params = seq![0u8, 0u8, 0u8];
        let want = decoding_of(
            params,
            section@,
            validity@,
            row_count as nat,
            LogicalType::String,
        )->0;
        assert(column.rows() =~= want);
    }
    Ok(column)
}

/// Expands one row's codes; `heap_offset` is where they stand in the heap.
fn decode_row(
    table: &Vec<Vec<u8>>,
    codes: &[u8],
    heap_offset: usize,
    row: usize,
) -> (result: DevonResult<String>)
    requires
        table@.len() <= 255,
        heap_offset <= u32::MAX,
        codes@.len() <= u32::MAX,
    ensures
        match result {
            Ok(text) => expand(symbols::strings_of(table@), codes@) matches Some(bytes)
                && vstd::utf8::valid_utf8(bytes) && text@ == vstd::utf8::decode_utf8(bytes),
            Err(error) => {
                &&& !(expand(symbols::strings_of(table@), codes@) matches Some(bytes)
                    && vstd::utf8::valid_utf8(bytes))
                &&& error.kind_of() == ErrorKind::Corrupt
            },
        },
{
    let ghost shown = symbols::strings_of(table@);
    let mut decoded: Vec<u8> = Vec::new();
    let mut position: usize = 0;
    assert(codes@.skip(0) =~= codes@);
    proof {
        let all = expand(shown, codes@);
        if all is Some {
            assert(decoded@ + all->0 =~= all->0);
        }
    }
    while position < codes.len()
        invariant
            position <= codes@.len(),
            table@.len() <= 255,
            heap_offset <= u32::MAX,
            codes@.len() <= u32::MAX,
            shown == symbols::strings_of(table@),
            match expand(shown, codes@.skip(position as int)) {
                Some(rest) => expand(shown, codes@) == Some(decoded@ + rest),
                None => expand(shown, codes@) is None,
            },
        decreases codes@.len() - position,
    {
        let ghost rest = codes@.skip(position as int);
        let ghost before = decoded@;
        let code: u8 = codes[position];
        if code == ESCAPE {
            if position + 1 == codes.len() {
                return Err(
                    corrupt(
                        with_number(
                            "fsst escape at heap offset ",
                            heap_offset as u64 + position as u64,
                            " has no literal byte",
                        ).as_str(),
                    ),
                );
            }
            let literal: u8 = codes[position + 1];
            decoded.push(literal);
            proof {
                assert(rest.skip(2) =~= codes@.skip(position + 2));
                if expand(shown, rest) is Some {
                    let tail = expand(shown, rest.skip(2))->0;
                    assert(before + (seq![literal] + tail) =~= decoded@ + tail);
                }
            }
            position += 2;
        } else if (code as usize) < table.len() {
            put_bytes(&mut decoded, table[code as usize].as_slice());
            proof {
                assert(rest.skip(1) =~= codes@.skip(position + 1));
                if expand(shown, rest) is Some {
                    let tail = expand(shown, rest.skip(1))->0;
                    assert(before + (shown[code as int] + tail) =~= decoded@ + tail);
                }
            }
            position += 1;
        } else {
            let head: String = with_number(
                "fsst heap byte at offset ",
                heap_offset as u64 + position as u64,
                " is code ",
            );
            let more: String = with_number(
                head.as_str(),
                code as u64,
                ", but the symbol table has ",
            );
            return Err(
                corrupt(with_number(more.as_str(), table.len() as u64, " symbols").as_str()),
            );
        }
    }
    proof {
        assert(codes@.skip(position as int) =~= Seq::<u8>::empty());
        assert(decoded@ + Seq::<u8>::empty() =~= decoded@);
    }
    match text_from_utf8(decoded.as_slice()) {
        Ok(text) => Ok(text),
        Err(fault) => Err(
            corrupt(
                and_name(
                    with_number("fsst decoded row ", row as u64, " is not valid UTF-8: "),
                    fault.as_str(),
                    "",
                ).as_str(),
            ),
        ),
    }
}

/// The codes of a string spell the string. Each of them is the longest symbol that the rest of the
/// string begins with, or an escape where there is none.
pub proof fn law_stream_expands(table: Seq<Seq<u8>>, bytes: Seq<u8>)
    requires
        symbols::is_table(table),
    ensures
        expand(table, stream(table, bytes)) == Some(bytes),
        bytes.len() > 0 ==> match symbols::longest(table, bytes) {
            Some(code) => {
                &&& symbols::is_longest(table, bytes, code)
                &&& code < ESCAPE
                &&& stream(table, bytes) == seq![code as u8] + stream(
                    table,
                    bytes.skip(table[code].len() as int),
                )
            },
            None => {
                &&& forall|code: int| !#[trigger] symbols::is_longest(table, bytes, code)
                &&& stream(table, bytes) == seq![ESCAPE, bytes[0]] + stream(table, bytes.skip(1))
            },
        },
    decreases bytes.len(),
{
    if bytes.len() == 0 {
        assert(expand(table, stream(table, bytes))->0 =~= bytes);
    } else {
        let codes = stream(table, bytes);
        match symbols::longest(table, bytes) {
            Some(code) => {
                assert(symbols::is_longest(table, bytes, code));
                assert(1 <= table[code].len() <= 8);
                let rest = bytes.skip(table[code].len() as int);
                law_stream_expands(table, rest);
                assert(codes.skip(1) =~= stream(table, rest));
                assert(table[code] + rest =~= bytes);
            },
            None => {
                let rest = bytes.skip(1);
                law_stream_expands(table, rest);
                assert(codes.skip(2) =~= stream(table, rest));
                assert(seq![bytes[0]] + rest =~= bytes);
            },
        }
    }
}

/// Equal columns have equal sections.
pub proof fn law_fsst_deterministic(rows: Seq<ValueView>, a: Seq<u8>, b: Seq<u8>)
    requires
        is_encoding(rows, a),
        is_encoding(rows, b),
    ensures
        a == b,
{
    let p = choose|table: Seq<Seq<u8>>| #[trigger]
        is_row_table(rows, table) && heap_fits(table, rows) && a == section_of(table, rows);
    let q = choose|table: Seq<Seq<u8>>| #[trigger]
        is_row_table(rows, table) && heap_fits(table, rows) && b == section_of(table, rows);
    symbols::lemma_built_unique(
        symbols::sample_of(texts_of(rows)),
        symbols::ITERATIONS as nat,
        p,
        q,
    );
}

pub proof fn lemma_records(table: Seq<Seq<u8>>, rows: Seq<ValueView>, index: nat)
    requires
        symbols::is_table(table),
        index <= table.len(),
    ensures
        ({
            let section = section_of(table, rows);
            &&& section[0] == table.len()
            &&& record_at(section, index) == 1 + bytes::heap_offset(
                symbol_parts(table),
                index as int,
            )
            &&& index < table.len() ==> record_lawful(section, index) && section.subrange(
                record_at(section, index) + 1,
                record_at(section, index + 1),
            ) == table[index as int]
        }),
    decreases index,
{
    let section = section_of(table, rows);
    let parts = symbol_parts(table);
    let records = bytes::joined(parts);
    if index == 0 {
        assert(parts.subrange(0, 0) =~= Seq::<Seq<u8>>::empty());
    } else {
        lemma_records(table, rows, (index - 1) as nat);
        lemma_record(table, rows, (index - 1) as nat);
    }
    if index < table.len() {
        lemma_record(table, rows, index);
    }
}

proof fn lemma_record(table: Seq<Seq<u8>>, rows: Seq<ValueView>, index: nat)
    requires
        symbols::is_table(table),
        index < table.len(),
        record_at(section_of(table, rows), index) == 1 + bytes::heap_offset(
            symbol_parts(table),
            index as int,
        ),
    ensures
        ({
            let section = section_of(table, rows);
            &&& record_at(section, index + 1) == 1 + bytes::heap_offset(
                symbol_parts(table),
                index as int + 1,
            )
            &&& record_lawful(section, index)
            &&& section.subrange(record_at(section, index) + 1, record_at(section, index + 1))
                == table[index as int]
        }),
{
    let section = section_of(table, rows);
    let parts = symbol_parts(table);
    let records = bytes::joined(parts);
    let i = index as int;
    assert(1 <= table[i].len() <= 8);
    bytes::lemma_heap_entry(parts, i);
    let from = bytes::heap_offset(parts, i) as int;
    let to = bytes::heap_offset(parts, i + 1) as int;
    let part = records.subrange(from, to);
    assert(part == parts[i]);
    assert(parts[i] == seq![table[i].len() as u8] + table[i]);
    assert(to - from == 1 + table[i].len());
    assert(section.subrange(1 + from, 1 + to) =~= part);
    assert(section[1 + from] == part[0]);
    assert(section.subrange(2 + from, 1 + to) =~= part.subrange(1, to - from));
    assert(part.subrange(1, to - from) =~= table[i]);
}

/// What was encoded is decoded: the section of a column of strings gives the
/// column's rows back.
pub proof fn law_fsst_round_trip(rows: Seq<ValueView>, section: Seq<u8>)
    requires
        all_strings(rows),
        is_encoding(rows, section),
    ensures
        decoding_of(
            seq![0u8, 0, 0],
            section,
            types::validity_of(rows),
            rows.len(),
            LogicalType::String,
        ) == Some(rows),
{
    let table = choose|table: Seq<Seq<u8>>| #[trigger]
        is_row_table(rows, table) && heap_fits(table, rows) && section == section_of(table, rows);
    let bits = types::validity_of(rows);
    let n = rows.len();
    assert forall|index: nat| index < table.len() implies #[trigger] record_lawful(
        section,
        index,
    ) by {
        lemma_records(table, rows, index);
    }
    lemma_records(table, rows, 0);
    assert(section_table(section) =~= table) by {
        assert forall|i: int| 0 <= i < table.len() implies section_table(section)[i]
            == table[i] by {
            lemma_records(table, rows, i as nat);
        }
    }
    lemma_offsets(table, rows);
    assert forall|row: int| 0 <= row < n implies #[trigger] row_lawful(section, bits, n, row) by {
        lemma_row(table, rows, row);
        lemma_row_round_trip(table, rows, row);
    }
    let back = decoding_of(seq![0u8, 0, 0], section, bits, n, LogicalType::String)->0;
    assert forall|row: int| 0 <= row < n implies back[row] == rows[row] by {
        lemma_row(table, rows, row);
        lemma_row_round_trip(table, rows, row);
    }
    assert(back =~= rows);
}

proof fn lemma_row_round_trip(table: Seq<Seq<u8>>, rows: Seq<ValueView>, row: int)
    requires
        all_strings(rows),
        symbols::is_table(table),
        0 <= row < rows.len(),
    ensures
        types::bit_set(types::validity_of(rows), row) == (rows[row] is String),
        rows[row] is String || rows[row] is Null,
        rows[row] is String ==> {
            let text = vstd::utf8::encode_utf8(rows[row]->String_0);
            &&& expand(table, streams(table, rows)[row]) == Some(text)
            &&& vstd::utf8::valid_utf8(text)
            &&& vstd::utf8::decode_utf8(text) == rows[row]->String_0
        },
        rows[row] is Null ==> streams(table, rows)[row].len() == 0,
{
    assert(rows[row] is Null || rows[row] is String);
    if rows[row] is String {
        let text = vstd::utf8::encode_utf8(rows[row]->String_0);
        law_stream_expands(table, text);
        vstd::utf8::encode_utf8_valid_utf8(rows[row]->String_0);
        vstd::utf8::encode_utf8_decode_utf8(rows[row]->String_0);
    }
}

proof fn lemma_sizes(table: Seq<Seq<u8>>, rows: Seq<ValueView>)
    requires
        symbols::is_table(table),
    ensures
        ({
            let section = section_of(table, rows);
            let records = bytes::joined(symbol_parts(table));
            let offsets = bytes::offset_parts(streams(table, rows));
            &&& offsets_at(section) == 1 + records.len()
            &&& heap_at(section, rows.len()) == 1 + records.len() + bytes::joined(offsets).len()
            &&& bytes::joined(offsets).len() == (rows.len() + 1) * 4
            &&& section.len() == heap_at(section, rows.len()) + bytes::joined(
                streams(table, rows),
            ).len()
            &&& forall|i: int| 0 <= i < offsets.len() ==> (#[trigger] offsets[i]).len() == 4
        }),
{
    let section = section_of(table, rows);
    let offsets = bytes::offset_parts(streams(table, rows));
    lemma_records(table, rows, table.len());
    assert(symbol_parts(table).subrange(0, table.len() as int) =~= symbol_parts(table));
    assert forall|i: int| 0 <= i < offsets.len() implies (#[trigger] offsets[i]).len() == 4 by {
        bytes::lemma_le_bytes_len(bytes::heap_offset(streams(table, rows), i), 4);
    }
    bytes::lemma_joined_len(offsets, 4);
}

proof fn lemma_offset(table: Seq<Seq<u8>>, rows: Seq<ValueView>, row: int)
    requires
        symbols::is_table(table),
        heap_fits(table, rows),
        0 <= row <= rows.len(),
    ensures
        section_offset(section_of(table, rows), row) == bytes::heap_offset(
            streams(table, rows),
            row,
        ),
{
    let section = section_of(table, rows);
    let parts = streams(table, rows);
    let offsets = bytes::offset_parts(parts);
    lemma_sizes(table, rows);
    bytes::lemma_radix_values();
    bytes::lemma_joined_part(offsets, 4, row);
    bytes::lemma_joined_prefix(parts, row);
    bytes::lemma_le_round_trip(bytes::heap_offset(parts, row), 4);
    let at = offsets_at(section) + row * 4;
    assert(section.subrange(at, at + 4) =~= bytes::joined(offsets).subrange(row * 4, row * 4 + 4));
}

proof fn lemma_offsets(table: Seq<Seq<u8>>, rows: Seq<ValueView>)
    requires
        symbols::is_table(table),
        heap_fits(table, rows),
    ensures
        offsets_lawful(section_of(table, rows), rows.len()),
{
    let section = section_of(table, rows);
    let parts = streams(table, rows);
    lemma_sizes(table, rows);
    lemma_offset(table, rows, 0);
    lemma_offset(table, rows, rows.len() as int);
    assert(parts.subrange(0, 0) =~= Seq::<Seq<u8>>::empty());
    assert(parts.subrange(0, rows.len() as int) =~= parts);
    assert forall|row: int| 0 <= row < rows.len() implies #[trigger] offset_step(section, row) by {
        lemma_offset(table, rows, row);
        lemma_offset(table, rows, row + 1);
        bytes::lemma_heap_entry(parts, row);
    }
}

proof fn lemma_row(table: Seq<Seq<u8>>, rows: Seq<ValueView>, row: int)
    requires
        symbols::is_table(table),
        heap_fits(table, rows),
        0 <= row < rows.len(),
    ensures
        section_stream(section_of(table, rows), rows.len(), row) == streams(table, rows)[row],
        streams(table, rows)[row].len() == section_offset(section_of(table, rows), row + 1)
            - section_offset(section_of(table, rows), row),
{
    let section = section_of(table, rows);
    let parts = streams(table, rows);
    lemma_sizes(table, rows);
    lemma_offset(table, rows, row);
    lemma_offset(table, rows, row + 1);
    bytes::lemma_heap_entry(parts, row);
    let from = bytes::heap_offset(parts, row) as int;
    let to = bytes::heap_offset(parts, row + 1) as int;
    assert(section_stream(section, rows.len(), row) =~= bytes::joined(parts).subrange(from, to));
}

} // verus!
