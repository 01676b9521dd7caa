//! Dictionary encoding of strings: each distinct string once, sorted, and
//! one u32 code per row.
//!
//! The section is a u32 entry count, the `count + 1` u32 heap offsets, the
//! heap of entries, and a u32 code per row. A NULL row has code zero.

use vstd::prelude::*;
use vstd::slice::slice_subrange;

use crate::bytes;
use crate::bytes::{get_le, put_bytes, put_le};
use crate::error::{corrupt, invalid_argument, DevonError, DevonResult, ErrorKind};
use crate::order;
use crate::order::{standing, Standing};
use crate::text::{and_name, and_number, text_from_utf8, with_name, with_number};
use crate::types;
use crate::types::{text_len, Bitmap, Column, LogicalType, Value, ValueView};

verus! {

/// The parameters of this layout: four-byte codes.
pub const CODE_WIDTH: u8 = 4;

/// Whether every row is NULL or a string.
pub open spec fn all_strings(rows: Seq<ValueView>) -> bool {
    forall|row: int|
        0 <= row < rows.len() ==> (#[trigger] rows[row]) is Null || rows[row] is String
}

/// The bytes of a row's string.
pub open spec fn row_bytes(value: ValueView) -> Seq<u8> {
    vstd::utf8::encode_utf8(value->String_0)
}

/// Whether some row holds the string of these bytes.
pub open spec fn some_row(rows: Seq<ValueView>, entry: Seq<u8>) -> bool {
    exists|row: int| 0 <= row < rows.len() && (#[trigger] rows[row]) is String && row_bytes(rows[row]) == entry
}

/// Whether `entries` are exactly the strings of the rows, in order.
pub open spec fn is_dictionary(rows: Seq<ValueView>, entries: Seq<Seq<u8>>) -> bool {
    &&& order::ascending(entries)
    &&& forall|entry: Seq<u8>|
        #![trigger entries.contains(entry)]
        #![trigger some_row(rows, entry)]
        entries.contains(entry) <==> some_row(rows, entry)
}

/// Whether the entry count and the heap fit the section.
pub open spec fn entries_fit(entries: Seq<Seq<u8>>) -> bool {
    entries.len() <= u32::MAX && bytes::joined(entries).len() <= u32::MAX
}

/// Whether `code` is the code of the row.
pub open spec fn is_code(entries: Seq<Seq<u8>>, value: ValueView, code: nat) -> bool {
    if value is String {
        code < entries.len() && entries[code as int] == row_bytes(value)
    } else {
        code == 0
    }
}

/// The codes as they are written.
pub open spec fn code_parts(codes: Seq<nat>) -> Seq<Seq<u8>> {
    codes.map_values(|code: nat| bytes::le_bytes(code, 4))
}

/// The section of these entries and codes.
pub open spec fn section_of(entries: Seq<Seq<u8>>, codes: Seq<nat>) -> Seq<u8> {
    bytes::le_bytes(entries.len(), 4) + bytes::joined(bytes::offset_parts(entries)) + bytes::joined(
        entries,
    ) + bytes::joined(code_parts(codes))
}

/// Whether the section is the encoding of the rows.
pub open spec fn is_encoding(rows: Seq<ValueView>, section: Seq<u8>) -> bool {
    exists|entries: Seq<Seq<u8>>, codes: Seq<nat>|
        #![trigger section_of(entries, codes)]
        {
            &&& is_dictionary(rows, entries)
            &&& entries_fit(entries)
            &&& codes.len() == rows.len()
            &&& forall|row: int|
                0 <= row < rows.len() ==> is_code(entries, rows[row], #[trigger] codes[row])
            &&& section == section_of(entries, codes)
        }
}

/// Whether the rows cannot be encoded: not all are strings, or the strings
/// do not fit.
pub open spec fn refused(rows: Seq<ValueView>) -> bool {
    ||| !all_strings(rows)
    ||| exists|entries: Seq<Seq<u8>>| #[trigger] is_dictionary(rows, entries) && !entries_fit(
        entries,
    )
}

/// The rows have one dictionary.
pub proof fn lemma_dictionary_unique(rows: Seq<ValueView>, a: Seq<Seq<u8>>, b: Seq<Seq<u8>>)
    requires
        is_dictionary(rows, a),
        is_dictionary(rows, b),
    ensures
        a == b,
{
    assert forall|entry: Seq<u8>|
        #![trigger a.contains(entry)]
        #![trigger b.contains(entry)]
        a.contains(entry) <==> b.contains(entry) by {
        assert(some_row(rows, entry) <==> a.contains(entry));
        assert(some_row(rows, entry) <==> b.contains(entry));
    }
    order::lemma_ascending_unique(a, b);
}

/// The entry count of a section.
pub open spec fn section_count(section: Seq<u8>) -> nat {
    bytes::le_at(section, 0, 4)
}

/// An offset of a section.
pub open spec fn section_offset(section: Seq<u8>, index: int) -> nat {
    bytes::le_at(section, 4 + index * 4, 4)
}

/// Where the heap begins.
pub open spec fn heap_start(section: Seq<u8>) -> int {
    8 + section_count(section) as int * 4
}

/// Where the heap ends and the codes begin.
pub open spec fn heap_end(section: Seq<u8>, row_count: nat) -> int {
    section.len() - row_count * 4
}

/// Whether the regions of a section fit its length.
pub open spec fn regions_fit(section: Seq<u8>, row_count: nat) -> bool {
    section.len() >= 4 && heap_start(section) <= heap_end(section, row_count)
}

/// An entry of a section.
pub open spec fn section_entry(section: Seq<u8>, index: int) -> Seq<u8> {
    section.subrange(
        heap_start(section) + section_offset(section, index),
        heap_start(section) + section_offset(section, index + 1),
    )
}

/// The code of a row.
pub open spec fn section_code(section: Seq<u8>, row_count: nat, row: int) -> nat {
    bytes::le_at(section, heap_end(section, row_count) + row * 4, 4)
}

/// Whether an offset is at most the next.
pub open spec fn offset_step(section: Seq<u8>, index: int) -> bool {
    section_offset(section, index) <= section_offset(section, index + 1)
}

/// Whether the offsets start at zero, never fall and end at the heap's end.
pub open spec fn offsets_lawful(section: Seq<u8>, row_count: nat) -> bool {
    let count = section_count(section);
    &&& section_offset(section, 0) == 0
    &&& forall|i: int|
        0 <= i < count ==> #[trigger] offset_step(section, i)
    &&& section_offset(section, count as int) == heap_end(section, row_count) - heap_start(section)
}

/// The entries of a section.
pub open spec fn section_entries(section: Seq<u8>) -> Seq<Seq<u8>> {
    Seq::new(section_count(section), |index: int| section_entry(section, index))
}

/// Whether every entry is UTF-8 and they stand in strict order.
pub open spec fn entries_lawful(section: Seq<u8>) -> bool {
    &&& forall|i: int|
        0 <= i < section_count(section) ==> vstd::utf8::valid_utf8(
            #[trigger] section_entries(section)[i],
        )
    &&& order::ascending(section_entries(section))
}

/// Whether a row's code is one that the format allows.
pub open spec fn code_lawful(section: Seq<u8>, bits: Seq<bool>, row_count: nat, row: int) -> bool {
    if types::bit_set(bits, row) {
        section_code(section, row_count, row) < section_count(section)
    } else {
        section_code(section, row_count, row) == 0
    }
}

/// The rows that a section decodes to; `None` is a refusal.
pub open spec fn decoding_of(
    params: Seq<u8>,
    section: Seq<u8>,
    bits: Seq<bool>,
    row_count: nat,
    ty: LogicalType,
) -> Option<Seq<ValueView>> {
    if params != seq![CODE_WIDTH, 0, 0] || ty != LogicalType::String || !regions_fit(
        section,
        row_count,
    ) || !offsets_lawful(section, row_count) || !entries_lawful(section) {
        None
    } else if exists|row: int|
        0 <= row < row_count && !#[trigger] code_lawful(section, bits, row_count, row) {
        None
    } else {
        Some(
            Seq::new(
                row_count,
                |row: int|
                    if types::bit_set(bits, row) {
                        ValueView::String(
                            vstd::utf8::decode_utf8(
                                section_entry(section, section_code(section, row_count, row) as int),
                            ),
                        )
                    } else {
                        ValueView::Null
                    },
            ),
        )
    }
}

/// The bytes of texts.
pub open spec fn entry_bytes(texts: Seq<String>) -> Seq<Seq<u8>> {
    texts.map_values(|text: String| vstd::utf8::encode_utf8(text@))
}

/// Encodes a column of strings.
pub fn encode(column: &Column, ty: &LogicalType) -> (result: DevonResult<(Vec<u8>, [u8; 3])>)
    ensures
        match result {
            Ok((section, params)) => {
                &&& *ty == LogicalType::String
                &&& all_strings(column.rows())
                &&& is_encoding(column.rows(), section@)
                &&& params@ == seq![CODE_WIDTH, 0, 0]
            },
            Err(error) => {
                &&& *ty != LogicalType::String || refused(column.rows())
                &&& error.kind_of() == ErrorKind::InvalidArgument
            },
        },
{
    let string: bool = match ty {
        LogicalType::String => true,
        _ => false,
    };
    if !string {
        return Err(
            invalid_argument(
                with_name("encoding dictionary is not admissible for ", ty.name(), "").as_str(),
            ),
        );
    }
    let dictionary: Vec<String> = match collect_dictionary(column) {
        Some(dictionary) => dictionary,
        None => {
            return Err(invalid_argument("encoding dictionary value does not match String"));
        },
    };
    match write_section(column, &dictionary) {
        Some(section) => {
            let params: [u8; 3] = [CODE_WIDTH, 0u8, 0u8];
            assert(params@ =~= seq![CODE_WIDTH, 0u8, 0]);
            Ok((section, params))
        },
        None => Err(invalid_argument("encoding dictionary entry count or heap length exceeds u32")),
    }
}

/// Looks a text up in a sorted dictionary: where it stands, or where it
/// would have to stand.
pub(crate) fn search(dictionary: &Vec<String>, text: &str) -> (found: (bool, usize))
    requires
        order::ascending(entry_bytes(dictionary@)),
    ensures
        found.0 ==> found.1 < dictionary@.len() && entry_bytes(dictionary@)[found.1 as int]
            == vstd::utf8::encode_utf8(text@),
        !found.0 ==> {
            &&& found.1 <= dictionary@.len()
            &&& forall|i: int|
                0 <= i < found.1 ==> order::lex_less(
                    #[trigger] entry_bytes(dictionary@)[i],
                    vstd::utf8::encode_utf8(text@),
                )
            &&& forall|i: int|
                found.1 <= i < dictionary@.len() ==> order::lex_less(
                    vstd::utf8::encode_utf8(text@),
                    #[trigger] entry_bytes(dictionary@)[i],
                )
        },
{
    let ghost entries = entry_bytes(dictionary@);
    let ghost wanted = vstd::utf8::encode_utf8(text@);
    let mut low: usize = 0;
    let mut high: usize = dictionary.len();
    while low < high
        invariant
            low <= high <= dictionary@.len(),
            entries == entry_bytes(dictionary@),
            wanted == vstd::utf8::encode_utf8(text@),
            order::ascending(entries),
            forall|i: int| 0 <= i < low ==> order::lex_less(#[trigger] entries[i], wanted),
            forall|i: int|
                high <= i < dictionary@.len() ==> order::lex_less(wanted, #[trigger] entries[i]),
        decreases high - low,
    {
        let middle: usize = low + (high - low) / 2;
        let ghost at = entries[middle as int];
        match standing(dictionary[middle].as_str().as_bytes(), text.as_bytes()) {
            Standing::Same => {
                return (true, middle);
            },
            Standing::Before => {
                assert forall|i: int| 0 <= i < middle + 1 implies order::lex_less(
                    #[trigger] entries[i],
                    wanted,
                ) by {
                    if i < middle {
                        order::lemma_lex_transitive(entries[i], at, wanted);
                    }
                }
                low = middle + 1;
            },
            Standing::After => {
                assert forall|i: int| middle <= i < dictionary@.len() implies order::lex_less(
                    wanted,
                    #[trigger] entries[i],
                ) by {
                    if i > middle {
                        order::lemma_lex_transitive(wanted, at, entries[i]);
                    }
                }
                high = middle;
            },
        }
    }
    (false, low)
}

/// The distinct strings of the column in order; `None` where a row holds
/// another kind of value.
pub fn collect_dictionary(column: &Column) -> (found: Option<Vec<String>>)
    ensures
        match found {
            Some(dictionary) => all_strings(column.rows()) && is_dictionary(
                column.rows(),
                entry_bytes(dictionary@),
            ),
            None => !all_strings(column.rows()),
        },
{
    let ghost rows = column.rows();
    let count: usize = column.len();
    let mut dictionary: Vec<String> = Vec::new();
    let mut row: usize = 0;
    proof {
        assert forall|entry: Seq<u8>|
            #![trigger entry_bytes(dictionary@).contains(entry)]
            #![trigger some_row(rows.subrange(0, 0), entry)]
            entry_bytes(dictionary@).contains(entry) <==> some_row(rows.subrange(0, 0), entry) by {}
    }
    while row < count
        invariant
            row <= count,
            count == column.row_count(),
            rows == column.rows(),
            all_strings(rows.subrange(0, row as int)),
            is_dictionary(rows.subrange(0, row as int), entry_bytes(dictionary@)),
        decreases count - row,
    {
        let value: Value = column.value_at(row);
        let ghost before = rows.subrange(0, row as int);
        let ghost after = rows.subrange(0, row + 1);
        assert(after =~= before.push(value@));
        match value {
            Value::Null => {
                proof {
                    lemma_null_row(before, ValueView::Null, entry_bytes(dictionary@));
                }
            },
            Value::String(text) => {
                let ghost entries = entry_bytes(dictionary@);
                let (present, index): (bool, usize) = search(&dictionary, text.as_str());
                if present {
                    proof {
                        lemma_known_row(before, ValueView::String(text@), entries, index as int);
                    }
                } else {
                    let ghost wanted = vstd::utf8::encode_utf8(text@);
                    let ghost shown = text@;
                    dictionary.insert(index, text);
                    proof {
                        assert(entry_bytes(dictionary@) =~= entries.insert(index as int, wanted));
                        lemma_new_row(before, ValueView::String(shown), entries, index as int);
                    }
                }
            },
            _ => {
                assert(rows[row as int] == value@);
                return None;
            },
        }
        assert forall|r: int| 0 <= r < after.len() implies (#[trigger] after[r]) is Null
            || after[r] is String by {
            if r < before.len() {
                assert(after[r] == before[r]);
            }
        }
        row += 1;
    }
    assert(rows.subrange(0, count as int) =~= rows);
    Some(dictionary)
}

proof fn lemma_null_row(rows: Seq<ValueView>, value: ValueView, entries: Seq<Seq<u8>>)
    requires
        is_dictionary(rows, entries),
        !(value is String),
    ensures
        is_dictionary(rows.push(value), entries),
{
    let grown = rows.push(value);
    assert forall|entry: Seq<u8>|
        #![trigger entries.contains(entry)]
        #![trigger some_row(grown, entry)]
        entries.contains(entry) <==> some_row(grown, entry) by {
        lemma_some_row_push(rows, value, entry);
    }
}

proof fn lemma_some_row_push(rows: Seq<ValueView>, value: ValueView, entry: Seq<u8>)
    ensures
        some_row(rows.push(value), entry) <==> some_row(rows, entry) || (value is String
            && row_bytes(value) == entry),
{
    let grown = rows.push(value);
    if some_row(rows, entry) {
        let r = choose|r: int|
            0 <= r < rows.len() && (#[trigger] rows[r]) is String && row_bytes(rows[r]) == entry;
        assert(grown[r] == rows[r]);
    }
    if value is String && row_bytes(value) == entry {
        assert(grown[rows.len() as int] == value);
    }
    if some_row(grown, entry) {
        let r = choose|r: int|
            0 <= r < grown.len() && (#[trigger] grown[r]) is String && row_bytes(grown[r]) == entry;
        if r < rows.len() {
            assert(rows[r] == grown[r]);
        }
    }
}

proof fn lemma_known_row(rows: Seq<ValueView>, value: ValueView, entries: Seq<Seq<u8>>, index: int)
    requires
        is_dictionary(rows, entries),
        value is String,
        0 <= index < entries.len(),
        entries[index] == row_bytes(value),
    ensures
        is_dictionary(rows.push(value), entries),
{
    let grown = rows.push(value);
    assert forall|entry: Seq<u8>|
        #![trigger entries.contains(entry)]
        #![trigger some_row(grown, entry)]
        entries.contains(entry) <==> some_row(grown, entry) by {
        lemma_some_row_push(rows, value, entry);
    }
}

proof fn lemma_new_row(rows: Seq<ValueView>, value: ValueView, entries: Seq<Seq<u8>>, index: int)
    requires
        is_dictionary(rows, entries),
        value is String,
        0 <= index <= entries.len(),
        forall|i: int|
            0 <= i < index ==> order::lex_less(#[trigger] entries[i], row_bytes(value)),
        forall|i: int|
            index <= i < entries.len() ==> order::lex_less(row_bytes(value), #[trigger] entries[i]),
    ensures
        is_dictionary(rows.push(value), entries.insert(index, row_bytes(value))),
{
    let grown = rows.push(value);
    let wanted = row_bytes(value);
    let longer = entries.insert(index, wanted);
    assert forall|entry: Seq<u8>|
        #![trigger longer.contains(entry)]
        #![trigger some_row(grown, entry)]
        longer.contains(entry) <==> some_row(grown, entry) by {
        lemma_some_row_push(rows, value, entry);
        if longer.contains(entry) {
            let k = choose|k: int| 0 <= k < longer.len() && longer[k] == entry;
            if k < index {
                assert(entries[k] == entry);
                assert(entries.contains(entry));
            } else if k > index {
                assert(entries[k - 1] == entry);
                assert(entries.contains(entry));
            }
        }
        if some_row(rows, entry) {
            assert(entries.contains(entry));
            let k = choose|k: int| 0 <= k < entries.len() && entries[k] == entry;
            if k < index {
                assert(longer[k] == entry);
            } else {
                assert(longer[k + 1] == entry);
            }
        }
        if entry == wanted {
            assert(longer[index] == entry);
        }
    }
}

/// Writes the section; `None` where the entries do not fit.
fn write_section(column: &Column, dictionary: &Vec<String>) -> (found: Option<Vec<u8>>)
    requires
        all_strings(column.rows()),
        is_dictionary(column.rows(), entry_bytes(dictionary@)),
    ensures
        match found {
            Some(section) => is_encoding(column.rows(), section@),
            None => refused(column.rows()),
        },
{
    let ghost rows = column.rows();
    let ghost entries = entry_bytes(dictionary@);
    if dictionary.len() as u64 > u32::MAX as u64 {
        assert(!entries_fit(entries));
        return None;
    }
    let mut section: Vec<u8> = Vec::new();
    put_le(&mut section, dictionary.len() as u64, 4);
    put_le(&mut section, 0, 4);
    let ghost parts = bytes::offset_parts(entries);
    let mut offset: u64 = 0;
    let mut index: usize = 0;
    proof {
        assert(entries.subrange(0, 0) =~= Seq::<Seq<u8>>::empty());
        assert(parts.subrange(0, 1) =~= Seq::<Seq<u8>>::empty().push(parts[0]));
        bytes::lemma_joined_push(Seq::<Seq<u8>>::empty(), parts[0]);
        assert(section@ =~= bytes::le_bytes(entries.len(), 4) + bytes::joined(
            parts.subrange(0, 1),
        ));
    }
    while index < dictionary.len()
        invariant
            index <= dictionary@.len() <= u32::MAX,
            rows == column.rows(),
            entries == entry_bytes(dictionary@),
            is_dictionary(rows, entries),
            parts == bytes::offset_parts(entries),
            offset <= u32::MAX,
            offset == bytes::heap_offset(entries, index as int),
            section@ == bytes::le_bytes(entries.len(), 4) + bytes::joined(
                parts.subrange(0, index + 1),
            ),
        decreases dictionary@.len() - index,
    {
        let len: usize = text_len(dictionary[index].as_str());
        proof {
            let next = entries.subrange(0, index + 1);
            assert(next.drop_last() =~= entries.subrange(0, index as int));
            assert(bytes::heap_offset(entries, index + 1) == offset + len);
            bytes::lemma_joined_prefix(entries, index + 1);
        }
        if len as u64 > u32::MAX as u64 - offset {
            assert(!entries_fit(entries));
            return None;
        }
        offset = offset + len as u64;
        put_le(&mut section, offset, 4);
        proof {
            let next = parts.subrange(0, index + 2);
            assert(next.drop_last() =~= parts.subrange(0, index + 1));
            assert(section@ =~= bytes::le_bytes(entries.len(), 4) + bytes::joined(next));
        }
        index += 1;
    }
    proof {
        assert(parts.subrange(0, entries.len() as int + 1) =~= parts);
        assert(entries.subrange(0, entries.len() as int) =~= entries);
        assert(entries_fit(entries));
    }
    let ghost head = section@;
    let mut entry: usize = 0;
    assert(entries.subrange(0, 0) =~= Seq::<Seq<u8>>::empty());
    assert(section@ =~= head + bytes::joined(entries.subrange(0, 0)));
    while entry < dictionary.len()
        invariant
            entry <= dictionary@.len(),
            entries == entry_bytes(dictionary@),
            section@ == head + bytes::joined(entries.subrange(0, entry as int)),
        decreases dictionary@.len() - entry,
    {
        put_bytes(&mut section, dictionary[entry].as_str().as_bytes());
        proof {
            let next = entries.subrange(0, entry + 1);
            assert(next.drop_last() =~= entries.subrange(0, entry as int));
            assert(section@ =~= head + bytes::joined(next));
        }
        entry += 1;
    }
    assert(entries.subrange(0, entries.len() as int) =~= entries);
    let ghost body = section@;
    let ghost mut codes: Seq<nat> = Seq::empty();
    let count: usize = column.len();
    let mut row: usize = 0;
    assert(code_parts(codes) =~= Seq::<Seq<u8>>::empty());
    assert(section@ =~= body + bytes::joined(code_parts(codes)));
    while row < count
        invariant
            row <= count,
            count == column.row_count(),
            rows == column.rows(),
            all_strings(rows),
            dictionary@.len() <= u32::MAX,
            entries == entry_bytes(dictionary@),
            is_dictionary(rows, entries),
            codes.len() == row,
            forall|r: int| 0 <= r < row ==> is_code(entries, rows[r], #[trigger] codes[r]),
            section@ == body + bytes::joined(code_parts(codes)),
        decreases count - row,
    {
        let value: Value = column.value_at(row);
        assert(rows[row as int] is Null || rows[row as int] is String);
        let code: usize = match &value {
            Value::String(text) => {
                let (present, index): (bool, usize) = search(dictionary, text.as_str());
                proof {
                    let wanted = vstd::utf8::encode_utf8(text@);
                    assert(rows[row as int] == value@);
                    assert(some_row(rows, wanted));
                    assert(entries.contains(wanted));
                    if !present {
                        let k = choose|k: int| 0 <= k < entries.len() && entries[k] == wanted;
                        order::lemma_lex_irreflexive(wanted);
                        if k < index {
                            assert(order::lex_less(entries[k], wanted));
                        } else {
                            assert(order::lex_less(wanted, entries[k]));
                        }
                    }
                }
                index
            },
            _ => 0,
        };
        let ghost before = codes;
        put_le(&mut section, code as u64, 4);
        proof {
            codes = before.push(code as nat);
            assert(code_parts(codes) =~= code_parts(before).push(bytes::le_bytes(code as nat, 4)));
            bytes::lemma_joined_push(code_parts(before), bytes::le_bytes(code as nat, 4));
            assert(section@ =~= body + bytes::joined(code_parts(codes)));
        }
        row += 1;
    }
    assert(section@ =~= section_of(entries, codes));
    Some(section)
}

/// Decodes a dictionary section.
pub fn decode(
    params: [u8; 3],
    section: &[u8],
    validity: &Bitmap,
    row_count: usize,
    ty: &LogicalType,
) -> (result: DevonResult<Column>)
    ensures
        match result {
            Ok(column) => {
                &&& decoding_of(params@, section@, validity@, row_count as nat, *ty) == Some(
                    column.rows(),
                )
                &&& column.stored_as(*ty, validity@)
            },
            Err(error) => decoding_of(params@, section@, validity@, row_count as nat, *ty) is None
                && error.kind_of() == ErrorKind::Corrupt,
        },
{
    if params[0] != CODE_WIDTH || params[1] != 0 || params[2] != 0 {
        assert(params@ != seq![CODE_WIDTH, 0, 0]);
        return Err(corrupt("encoding dictionary parameters are not the v1 spelling [4, 0, 0]"));
    }
    assert(params@ =~= seq![CODE_WIDTH, 0, 0]);
    let string: bool = match ty {
        LogicalType::String => true,
        _ => false,
    };
    if !string {
        return Err(
            corrupt(with_name("encoding dictionary is not admissible for ", ty.name(), "").as_str()),
        );
    }
    let (offsets, start, end): (Vec<u32>, usize, usize) = match split_section(section, row_count) {
        Some(regions) => regions,
        None => {
            return Err(short_section(section, row_count));
        },
    };
    let entries: Vec<String> = match validate_entries(&offsets, section, start, end, row_count) {
        Ok(entries) => entries,
        Err(error) => {
            return Err(error);
        },
    };
    materialize(&entries, section, end, validity, row_count)
}

/// Splits the section into offsets, heap and codes: the offsets, and where
/// What is said of a section that cannot hold its entries and codes.
fn short_section(section: &[u8], row_count: usize) -> (error: DevonError)
    ensures
        error.kind_of() == ErrorKind::Corrupt,
{
    let size: u64 = section.len() as u64;
    if size < 4 {
        return corrupt(
            with_number(
                "dictionary section is ",
                size,
                " bytes, smaller than the u32 dict_count 4",
            ).as_str(),
        );
    }
    proof {
        bytes::lemma_radix_values();
    }
    let count: u64 = get_le(section, 0, 4);
    match row_count.checked_mul(4) {
        Some(codes_len) => match (8 + count * 4).checked_add(codes_len as u64) {
            Some(minimum) => corrupt(
                and_number(
                    and_number(
                        and_number(
                            with_number(
                                "dictionary section is ",
                                size,
                                " bytes, too short for dict_count ",
                            ),
                            count,
                            " and ",
                        ),
                        row_count as u64,
                        " codes (",
                    ),
                    minimum,
                    " minimum)",
                ).as_str(),
            ),
            None => corrupt("dictionary section length overflows usize"),
        },
        None => corrupt(
            with_number(
                "dictionary codes length overflows usize for ",
                row_count as u64,
                " rows",
            ).as_str(),
        ),
    }
}

/// the heap begins and ends.
fn split_section(section: &[u8], row_count: usize) -> (found: Option<(Vec<u32>, usize, usize)>)
    ensures
        match found {
            Some((offsets, start, end)) => {
                &&& regions_fit(section@, row_count as nat)
                &&& start == heap_start(section@)
                &&& end == heap_end(section@, row_count as nat)
                &&& offsets@.len() == section_count(section@) + 1
                &&& forall|i: int|
                    0 <= i < offsets@.len() ==> #[trigger] offsets@[i] == section_offset(
                        section@,
                        i,
                    )
            },
            None => !regions_fit(section@, row_count as nat),
        },
{
    let size: usize = section.len();
    if size < 4 {
        return None;
    }
    proof {
        bytes::lemma_radix_values();
    }
    let count: u64 = get_le(section, 0, 4);
    let codes_len: usize = match row_count.checked_mul(4) {
        Some(len) => len,
        None => {
            return None;
        },
    };
    if codes_len > size {
        return None;
    }
    let end: usize = size - codes_len;
    let begin: u64 = 8 + count * 4;
    if begin > end as u64 {
        return None;
    }
    let start: usize = begin as usize;
    let mut offsets: Vec<u32> = Vec::new();
    let mut index: usize = 0;
    let total: usize = count as usize + 1;
    while index < total
        invariant
            index <= total,
            total == section_count(section@) + 1,
            4 + total * 4 == start,
            start <= size,
            size == section@.len(),
            bytes::radix_pow(4) == 0x1_0000_0000,
            offsets@.len() == index,
            forall|i: int|
                0 <= i < index ==> #[trigger] offsets@[i] == section_offset(section@, i),
        decreases total - index,
    {
        let offset: u64 = get_le(section, 4 + index * 4, 4);
        offsets.push(offset as u32);
        index += 1;
    }
    Some((offsets, start, end))
}

/// Validates the offsets and every entry, and reads the entries.
fn validate_entries(
    offsets: &Vec<u32>,
    section: &[u8],
    start: usize,
    end: usize,
    row_count: usize,
) -> (result: DevonResult<Vec<String>>)
    requires
        regions_fit(section@, row_count as nat),
        start == heap_start(section@),
        end == heap_end(section@, row_count as nat),
        offsets@.len() == section_count(section@) + 1,
        forall|i: int|
            0 <= i < offsets@.len() ==> #[trigger] offsets@[i] == section_offset(section@, i),
    ensures
        match result {
            Ok(entries) => {
                &&& offsets_lawful(section@, row_count as nat)
                &&& entries_lawful(section@)
                &&& entries@.len() == section_count(section@)
                &&& forall|i: int|
                    0 <= i < entries@.len() ==> (#[trigger] entries@[i])@
                        == vstd::utf8::decode_utf8(section_entry(section@, i))
            },
            Err(error) => {
                &&& !offsets_lawful(section@, row_count as nat) || !entries_lawful(section@)
                &&& error.kind_of() == ErrorKind::Corrupt
            },
        },
{
    match validate_offsets(offsets, section, end - start, row_count) {
        Ok(()) => {},
        Err(error) => {
            return Err(error);
        },
    }
    read_entries(offsets, section, start, end)
}

/// Validates the offsets.
fn validate_offsets(
    offsets: &Vec<u32>,
    section: &[u8],
    heap_len: usize,
    row_count: usize,
) -> (result: DevonResult<()>)
    requires
        heap_len == heap_end(section@, row_count as nat) - heap_start(section@),
        offsets@.len() == section_count(section@) + 1,
        forall|i: int|
            0 <= i < offsets@.len() ==> #[trigger] offsets@[i] == section_offset(section@, i),
    ensures
        match result {
            Ok(()) => {
                &&& offsets_lawful(section@, row_count as nat)
                &&& offsets@[offsets@.len() - 1] == heap_len
                &&& forall|i: int, j: int|
                    0 <= i <= j < offsets@.len() ==> #[trigger] offsets@[i] <= #[trigger] offsets@[j]
            },
            Err(error) => !offsets_lawful(section@, row_count as nat) && error.kind_of()
                == ErrorKind::Corrupt,
        },
{
    let count: usize = offsets.len() - 1;
    assert(offsets@[0] == section_offset(section@, 0));
    if offsets[0] != 0 {
        return Err(
            corrupt(
                with_number("dictionary offsets start at ", offsets[0] as u64, ", expected 0").as_str(),
            ),
        );
    }
    let mut index: usize = 0;
    while index < count
        invariant
            index <= count,
            count + 1 == offsets@.len(),
            count == section_count(section@),
            forall|i: int|
                0 <= i < offsets@.len() ==> #[trigger] offsets@[i] == section_offset(section@, i),
            forall|i: int| 0 <= i < index ==> #[trigger] offset_step(section@, i),
            forall|i: int, j: int|
                0 <= i <= j <= index ==> #[trigger] offsets@[i] <= #[trigger] offsets@[j],
        decreases count - index,
    {
        assert(offsets@[index as int] == section_offset(section@, index as int));
        assert(offsets@[index + 1] == section_offset(section@, index + 1));
        if offsets[index + 1] < offsets[index] {
            assert(!offset_step(section@, index as int));
            return Err(corrupt("dictionary offsets are not non-decreasing"));
        }
        index += 1;
    }
    assert(offsets@[count as int] == section_offset(section@, count as int));
    if offsets[count] as u64 != heap_len as u64 {
        return Err(
            corrupt(
                and_number(
                    with_number(
                        "dictionary offsets end at ",
                        offsets[count] as u64,
                        " but the heap is ",
                    ),
                    heap_len as u64,
                    " bytes",
                ).as_str(),
            ),
        );
    }
    Ok(())
}

/// Reads the entries, which must be UTF-8 and strictly ascending.
fn read_entries(
    offsets: &Vec<u32>,
    section: &[u8],
    start: usize,
    end: usize,
) -> (result: DevonResult<Vec<String>>)
    requires
        start == heap_start(section@),
        start <= end <= section@.len(),
        offsets@.len() == section_count(section@) + 1,
        offsets@[offsets@.len() - 1] == end - start,
        forall|i: int|
            0 <= i < offsets@.len() ==> #[trigger] offsets@[i] == section_offset(section@, i),
        forall|i: int, j: int|
            0 <= i <= j < offsets@.len() ==> #[trigger] offsets@[i] <= #[trigger] offsets@[j],
    ensures
        match result {
            Ok(entries) => {
                &&& entries_lawful(section@)
                &&& entries@.len() == section_count(section@)
                &&& forall|i: int|
                    0 <= i < entries@.len() ==> (#[trigger] entries@[i])@
                        == vstd::utf8::decode_utf8(section_entry(section@, i))
            },
            Err(error) => !entries_lawful(section@) && error.kind_of() == ErrorKind::Corrupt,
        },
{
    let size: usize = section.len();
    let count: usize = offsets.len() - 1;
    let ghost all = section_entries(section@);
    let mut entries: Vec<String> = Vec::new();
    let mut entry: usize = 0;
    while entry < count
        invariant
            entry <= count,
            count + 1 == offsets@.len(),
            count == section_count(section@),
            size == section@.len(),
            start == heap_start(section@),
            start <= end <= size,
            all == section_entries(section@),
            offsets@[count as int] == end - start,
            forall|i: int|
                0 <= i < offsets@.len() ==> #[trigger] offsets@[i] == section_offset(section@, i),
            forall|i: int, j: int|
                0 <= i <= j < offsets@.len() ==> #[trigger] offsets@[i] <= #[trigger] offsets@[j],
            entries@.len() == entry,
            forall|i: int| 0 <= i < entry ==> vstd::utf8::valid_utf8(#[trigger] all[i]),
            forall|i: int|
                0 <= i < entry ==> (#[trigger] entries@[i])@ == vstd::utf8::decode_utf8(all[i]),
            order::ascending(all.subrange(0, entry as int)),
        decreases count - entry,
    {
        assert(offsets@[entry as int] <= offsets@[entry + 1]);
        assert(offsets@[entry + 1] <= offsets@[count as int]);
        assert(offsets@[entry as int] == section_offset(section@, entry as int));
        assert(offsets@[entry + 1] == section_offset(section@, entry + 1));
        let from: usize = start + offsets[entry] as usize;
        let to: usize = start + offsets[entry + 1] as usize;
        let part: &[u8] = slice_subrange(section, from, to);
        assert(part@ == all[entry as int]);
        let text: String = match text_from_utf8(part) {
            Ok(text) => text,
            Err(fault) => {
                assert(!vstd::utf8::valid_utf8(section_entries(section@)[entry as int]));
                return Err(
                    corrupt(
                        and_name(
                            with_number(
                                "dictionary entry ",
                                entry as u64,
                                " is not valid UTF-8: ",
                            ),
                            fault.as_str(),
                            "",
                        ).as_str(),
                    ),
                );
            },
        };
        if entry > 0 {
            let prior: &[u8] = entries[entry - 1].as_str().as_bytes();
            let ghost earlier = all[entry - 1];
            let ghost later = all[entry as int];
            proof {
                assert(vstd::utf8::valid_utf8(earlier));
                vstd::utf8::decode_utf8_encode_utf8(earlier);
                assert(prior@ == earlier);
            }
            let placed: bool = match standing(prior, part) {
                Standing::Before => true,
                _ => false,
            };
            if !placed {
                proof {
                    lemma_not_before(earlier, later);
                    assert(!order::lex_less(all[entry - 1], all[entry as int]));
                    assert(!order::ascending(section_entries(section@)));
                }
                return Err(
                    corrupt(
                        with_number(
                            "dictionary entries are not unique and sorted bytewise ascending at entry ",
                            entry as u64,
                            "",
                        ).as_str(),
                    ),
                );
            }
            assert(all.subrange(0, entry as int).last() == earlier);
        }
        entries.push(text);
        proof {
            let before = all.subrange(0, entry as int);
            assert(all.subrange(0, entry + 1) =~= before.push(all[entry as int]));
            order::lemma_ascending_push(before, all[entry as int]);
        }
        entry += 1;
    }
    assert(all.subrange(0, count as int) =~= all);
    Ok(entries)
}

proof fn lemma_not_before(a: Seq<u8>, b: Seq<u8>)
    requires
        a == b || order::lex_less(b, a),
    ensures
        !order::lex_less(a, b),
{
    order::lemma_lex_irreflexive(a);
    if order::lex_less(a, b) && a != b {
        order::lemma_lex_transitive(a, b, a);
    }
}

/// Looks every row's code up.
fn materialize(
    entries: &Vec<String>,
    section: &[u8],
    end: usize,
    validity: &Bitmap,
    row_count: usize,
) -> (result: DevonResult<Column>)
    requires
        regions_fit(section@, row_count as nat),
        offsets_lawful(section@, row_count as nat),
        entries_lawful(section@),
        end == heap_end(section@, row_count as nat),
        entries@.len() == section_count(section@),
        forall|i: int|
            0 <= i < entries@.len() ==> (#[trigger] entries@[i])@ == vstd::utf8::decode_utf8(
                section_entry(section@, i),
            ),
    ensures
        ({
            let params = seq![CODE_WIDTH, 0u8, 0u8];
            match result {
                Ok(column) => {
                    &&& decoding_of(
                        params,
                        section@,
                        validity@,
                        row_count as nat,
                        LogicalType::String,
                    ) == Some(column.rows())
                    &&& column.stored_as(LogicalType::String, validity@)
                },
                Err(error) => decoding_of(
                    params,
                    section@,
                    validity@,
                    row_count as nat,
                    LogicalType::String,
                ) is None && error.kind_of() == ErrorKind::Corrupt,
            }
        }),
{
    let size: usize = section.len();
    let mut values: Vec<Value> = Vec::new();
    let mut row: usize = 0;
    proof {
        bytes::lemma_radix_values();
    }
    while row < row_count
        invariant
            row <= row_count,
            size == section@.len(),
            end == heap_end(section@, row_count as nat),
            end + row_count * 4 == size,
            bytes::radix_pow(4) == 0x1_0000_0000,
            entries@.len() == section_count(section@),
            forall|i: int|
                0 <= i < entries@.len() ==> (#[trigger] entries@[i])@ == vstd::utf8::decode_utf8(
                    section_entry(section@, i),
                ),
            values@.len() == row,
            forall|r: int|
                0 <= r < row ==> #[trigger] code_lawful(
                    section@,
                    validity@,
                    row_count as nat,
                    r,
                ),
            forall|r: int|
                0 <= r < row ==> (#[trigger] values@[r])@ == if types::bit_set(validity@, r) {
                    ValueView::String(
                        vstd::utf8::decode_utf8(
                            section_entry(
                                section@,
                                section_code(section@, row_count as nat, r) as int,
                            ),
                        ),
                    )
                } else {
                    ValueView::Null
                },
        decreases row_count - row,
    {
        let code: u64 = get_le(section, end + row * 4, 4);
        assert(code == section_code(section@, row_count as nat, row as int));
        if !validity.is_valid(row) {
            if code != 0 {
                assert(!code_lawful(section@, validity@, row_count as nat, row as int));
                return Err(
                    corrupt(
                        and_number(
                            with_number("dictionary code at NULL row ", row as u64, " is "),
                            code,
                            ", expected 0",
                        ).as_str(),
                    ),
                );
            }
            values.push(Value::Null);
        } else {
            if code >= entries.len() as u64 {
                assert(!code_lawful(section@, validity@, row_count as nat, row as int));
                return Err(
                    corrupt(
                        and_number(
                            and_number(
                                with_number("dictionary code ", code, " at row "),
                                row as u64,
                                " is out of range for dict_count ",
                            ),
                            entries.len() as u64,
                            "",
                        ).as_str(),
                    ),
                );
            }
            let index: usize = code as usize;
            values.push(Value::String(entries[index].clone()));
        }
        assert(code_lawful(section@, validity@, row_count as nat, row as int));
        row += 1;
    }
    let column = Column::Boxed(values);
    proof {
        let params = seq![CODE_WIDTH, 0u8, 0u8];
        let want = decoding_of(
            params,
            section@,
            validity@,
            row_count as nat,
            LogicalType::String,
        )->0;
        assert(column.rows() =~= want);
    }
    Ok(column)
}

/// What was encoded is decoded: the section of a column of strings gives the
/// column's rows back.
pub proof fn law_dictionary_round_trip(rows: Seq<ValueView>, section: Seq<u8>)
    requires
        all_strings(rows),
        is_encoding(rows, section),
    ensures
        decoding_of(
            seq![CODE_WIDTH, 0, 0],
            section,
            types::validity_of(rows),
            rows.len(),
            LogicalType::String,
        ) == Some(rows),
{
    let (entries, codes) = choose|entries: Seq<Seq<u8>>, codes: Seq<nat>|
        #![trigger section_of(entries, codes)]
        {
            &&& is_dictionary(rows, entries)
            &&& entries_fit(entries)
            &&& codes.len() == rows.len()
            &&& forall|row: int|
                0 <= row < rows.len() ==> is_code(entries, rows[row], #[trigger] codes[row])
            &&& section == section_of(entries, codes)
        };
    let bits = types::validity_of(rows);
    assert forall|row: int| 0 <= row < codes.len() implies #[trigger] codes[row] <= u32::MAX by {
        assert(is_code(entries, rows[row], codes[row]));
    }
    lemma_section_regions(entries, codes);
    lemma_section_entries(entries, codes);
    assert forall|i: int| 0 <= i < entries.len() implies vstd::utf8::valid_utf8(
        #[trigger] section_entries(section)[i],
    ) by {
        assert(entries.contains(entries[i]));
        assert(some_row(rows, entries[i]));
        let r = choose|r: int|
            0 <= r < rows.len() && (#[trigger] rows[r]) is String && row_bytes(rows[r])
                == entries[i];
        vstd::utf8::encode_utf8_valid_utf8(rows[r]->String_0);
    }
    assert forall|row: int| 0 <= row < rows.len() implies #[trigger] code_lawful(
        section,
        bits,
        rows.len(),
        row,
    ) by {
        lemma_section_code(entries, codes, row);
        assert(is_code(entries, rows[row], codes[row]));
        assert(rows[row] is Null || rows[row] is String);
        assert(types::bit_set(bits, row) == (rows[row] != ValueView::Null));
    }
    let back = decoding_of(
        seq![CODE_WIDTH, 0, 0],
        section,
        bits,
        rows.len(),
        LogicalType::String,
    )->0;
    assert forall|row: int| 0 <= row < rows.len() implies back[row] == rows[row] by {
        lemma_section_code(entries, codes, row);
        assert(is_code(entries, rows[row], codes[row]));
        assert(rows[row] is Null || rows[row] is String);
        assert(types::bit_set(bits, row) == (rows[row] != ValueView::Null));
        if rows[row] is String {
            let code = codes[row] as int;
            assert(section_entries(section)[code] == entries[code]);
            vstd::utf8::encode_utf8_decode_utf8(rows[row]->String_0);
        }
    }
    assert(back =~= rows);
}

proof fn lemma_part_sizes(entries: Seq<Seq<u8>>, codes: Seq<nat>)
    ensures
        forall|i: int|
            0 <= i < bytes::offset_parts(entries).len() ==> (#[trigger] bytes::offset_parts(entries)[i]).len()
                == 4,
        forall|i: int|
            0 <= i < code_parts(codes).len() ==> (#[trigger] code_parts(codes)[i]).len() == 4,
        bytes::joined(bytes::offset_parts(entries)).len() == (entries.len() + 1) * 4,
        bytes::joined(code_parts(codes)).len() == codes.len() * 4,
{
    let offsets = bytes::offset_parts(entries);
    let coded = code_parts(codes);
    assert forall|i: int| 0 <= i < offsets.len() implies (#[trigger] offsets[i]).len() == 4 by {
        bytes::lemma_le_bytes_len(bytes::heap_offset(entries, i), 4);
    }
    assert forall|i: int| 0 <= i < coded.len() implies (#[trigger] coded[i]).len() == 4 by {
        bytes::lemma_le_bytes_len(codes[i], 4);
    }
    bytes::lemma_joined_len(offsets, 4);
    bytes::lemma_joined_len(coded, 4);
}

proof fn lemma_section_regions(entries: Seq<Seq<u8>>, codes: Seq<nat>)
    requires
        entries_fit(entries),
    ensures
        ({
            let section = section_of(entries, codes);
            &&& section_count(section) == entries.len()
            &&& heap_start(section) == 8 + entries.len() * 4
            &&& heap_end(section, codes.len()) == heap_start(section) + bytes::joined(entries).len()
            &&& regions_fit(section, codes.len())
        }),
{
    let section = section_of(entries, codes);
    lemma_part_sizes(entries, codes);
    bytes::lemma_radix_values();
    bytes::lemma_le_round_trip(entries.len(), 4);
    assert(section.subrange(0, 4) =~= bytes::le_bytes(entries.len(), 4));
}

proof fn lemma_section_offset(entries: Seq<Seq<u8>>, codes: Seq<nat>, i: int)
    requires
        entries_fit(entries),
        0 <= i <= entries.len(),
    ensures
        section_offset(section_of(entries, codes), i) == bytes::heap_offset(entries, i),
{
    let section = section_of(entries, codes);
    let offsets = bytes::offset_parts(entries);
    lemma_part_sizes(entries, codes);
    bytes::lemma_radix_values();
    bytes::lemma_le_bytes_len(entries.len(), 4);
    bytes::lemma_joined_part(offsets, 4, i);
    bytes::lemma_joined_prefix(entries, i);
    bytes::lemma_le_round_trip(bytes::heap_offset(entries, i), 4);
    assert(section.subrange(4 + i * 4, 4 + i * 4 + 4) =~= bytes::joined(offsets).subrange(
        i * 4,
        i * 4 + 4,
    ));
}

proof fn lemma_section_code(entries: Seq<Seq<u8>>, codes: Seq<nat>, row: int)
    requires
        entries_fit(entries),
        0 <= row < codes.len(),
        codes[row] <= u32::MAX,
    ensures
        section_code(section_of(entries, codes), codes.len(), row) == codes[row],
{
    let section = section_of(entries, codes);
    let coded = code_parts(codes);
    lemma_part_sizes(entries, codes);
    lemma_section_regions(entries, codes);
    bytes::lemma_radix_values();
    bytes::lemma_le_bytes_len(entries.len(), 4);
    bytes::lemma_joined_part(coded, 4, row);
    let at = heap_end(section, codes.len()) + row * 4;
    assert(section.subrange(at, at + 4) =~= bytes::joined(coded).subrange(row * 4, row * 4 + 4));
    bytes::lemma_le_round_trip(codes[row], 4);
}

proof fn lemma_section_entries(entries: Seq<Seq<u8>>, codes: Seq<nat>)
    requires
        entries_fit(entries),
    ensures
        offsets_lawful(section_of(entries, codes), codes.len()),
        section_entries(section_of(entries, codes)) == entries,
{
    let section = section_of(entries, codes);
    let heap = bytes::joined(entries);
    let count = entries.len();
    lemma_part_sizes(entries, codes);
    lemma_section_regions(entries, codes);
    bytes::lemma_le_bytes_len(entries.len(), 4);
    assert(entries.subrange(0, 0) =~= Seq::<Seq<u8>>::empty());
    assert(entries.subrange(0, count as int) =~= entries);
    lemma_section_offset(entries, codes, 0);
    lemma_section_offset(entries, codes, count as int);
    assert forall|i: int| 0 <= i < count implies #[trigger] offset_step(section, i) by {
        bytes::lemma_heap_entry(entries, i);
        lemma_section_offset(entries, codes, i);
        lemma_section_offset(entries, codes, i + 1);
    }
    assert forall|i: int| 0 <= i < count implies section_entries(section)[i] == entries[i] by {
        bytes::lemma_heap_entry(entries, i);
        lemma_section_offset(entries, codes, i);
        lemma_section_offset(entries, codes, i + 1);
        let from = bytes::heap_offset(entries, i) as int;
        let to = bytes::heap_offset(entries, i + 1) as int;
        assert(section_entry(section, i) =~= heap.subrange(from, to));
    }
    assert(section_entries(section) =~= entries);
}

} // verus!
