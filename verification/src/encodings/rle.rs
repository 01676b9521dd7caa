//! Run-length encoding of integers, timestamps, decimals and booleans.
//!
//! The section is a u32 run count, then for each run a u32 length and the
//! slot of its value. Runs cover all rows; a NULL row has the slot zero, so
//! a run may go on across it.

use vstd::prelude::*;

use crate::bytes;
use crate::bytes::{get_le, get_le_wide, put_bytes, put_le, put_le_wide};
use crate::encodings::slots;
use crate::encodings::slots::{
    column_of_slots, declaration_fault, slot_accepted, slot_fault, slot_of, width_of,
};
use crate::error::{corrupt, invalid_argument, DevonError, DevonResult, ErrorKind};
use crate::text::{and_number, with_name, with_number};
use crate::types;
use crate::types::{Bitmap, Column, LogicalType, Value, ValueView, MAX_PRECISION};

verus! {

/// The types that runs can carry.
pub open spec fn admitted(ty: LogicalType) -> bool {
    ty is Int64 || ty is Timestamp || ty is Bool || ty is Decimal
}

/// The slot that a row takes, where the type admits the value. Integers and
/// timestamps stand for one another.
pub open spec fn row_slot(ty: LogicalType, value: ValueView) -> Option<nat> {
    match (ty, value) {
        (_, ValueView::Null) => Some(0),
        (LogicalType::Int64, ValueView::Int64(_)) => Some(slots::value_slot(value)),
        (LogicalType::Int64, ValueView::Timestamp(_)) => Some(slots::value_slot(value)),
        (LogicalType::Timestamp, ValueView::Int64(_)) => Some(slots::value_slot(value)),
        (LogicalType::Timestamp, ValueView::Timestamp(_)) => Some(slots::value_slot(value)),
        (LogicalType::Bool, ValueView::Bool(_)) => Some(slots::value_slot(value)),
        (LogicalType::Decimal { scale, .. }, ValueView::Decimal(decimal)) => if decimal.scale
            == scale {
            Some(slots::value_slot(value))
        } else {
            None
        },
        _ => None,
    }
}

/// Whether every row has a slot.
pub open spec fn all_slots(ty: LogicalType, rows: Seq<ValueView>) -> bool {
    forall|row: int| 0 <= row < rows.len() ==> row_slot(ty, #[trigger] rows[row]) is Some
}

/// The slots of the rows.
pub open spec fn slots_of(ty: LogicalType, rows: Seq<ValueView>) -> Seq<nat> {
    rows.map_values(|value: ValueView| row_slot(ty, value)->0)
}

/// The maximal runs of equal numbers, as length and number.
pub open spec fn runs_of(raws: Seq<nat>) -> Seq<(nat, nat)>
    decreases raws.len(),
{
    if raws.len() == 0 {
        Seq::empty()
    } else {
        let before = runs_of(raws.drop_last());
        if before.len() > 0 && before.last().1 == raws.last() {
            before.drop_last().push((before.last().0 + 1, raws.last()))
        } else {
            before.push((1, raws.last()))
        }
    }
}

/// The numbers that runs spell.
pub open spec fn expand(runs: Seq<(nat, nat)>) -> Seq<nat>
    decreases runs.len(),
{
    if runs.len() == 0 {
        Seq::empty()
    } else {
        expand(runs.drop_last()) + Seq::new(runs.last().0, |i: int| runs.last().1)
    }
}

/// The bytes of one run.
pub open spec fn run_bytes(run: (nat, nat), width: nat) -> Seq<u8> {
    bytes::le_bytes(run.0, 4) + bytes::le_bytes(run.1, width)
}

/// The bytes of each run.
pub open spec fn run_parts(runs: Seq<(nat, nat)>, width: nat) -> Seq<Seq<u8>> {
    runs.map_values(|run: (nat, nat)| run_bytes(run, width))
}

/// Whether the run lengths and their count fit the section.
pub open spec fn runs_fit(runs: Seq<(nat, nat)>) -> bool {
    &&& runs.len() <= u32::MAX
    &&& forall|i: int| 0 <= i < runs.len() ==> (#[trigger] runs[i]).0 <= u32::MAX
}

/// The section that these rows encode to; `None` is a refusal.
pub open spec fn encoding_of(rows: Seq<ValueView>, ty: LogicalType) -> Option<Seq<u8>> {
    if !admitted(ty) || !all_slots(ty, rows) || !runs_fit(runs_of(slots_of(ty, rows))) {
        None
    } else {
        let runs = runs_of(slots_of(ty, rows));
        Some(
            bytes::le_bytes(runs.len(), 4) + bytes::joined(
                run_parts(runs, slots::slot_width(ty)->0),
            ),
        )
    }
}

/// The runs that a section spells.
pub open spec fn parsed(section: Seq<u8>, width: nat) -> Seq<(nat, nat)> {
    Seq::new(
        bytes::le_at(section, 0, 4),
        |i: int|
            (
                bytes::le_at(section, 4 + i * (4 + width), 4),
                bytes::le_at(section, 8 + i * (4 + width), width as int),
            ),
    )
}

/// Whether a section has the exact length of its run count and only runs of
/// accepted values that are not empty.
pub open spec fn runs_accepted(section: Seq<u8>, ty: LogicalType) -> bool {
    let width = slots::slot_width(ty)->0;
    &&& section.len() >= 4
    &&& section.len() - 4 == bytes::le_at(section, 0, 4) * (4 + width)
    &&& forall|i: int|
        0 <= i < parsed(section, width).len() ==> {
            &&& (#[trigger] parsed(section, width)[i]).0 > 0
            &&& slots::slot_value(ty, parsed(section, width)[i].1) is Some
        }
}

/// The rows that a section decodes to; `None` is a refusal.
pub open spec fn decoding_of(
    params: Seq<u8>,
    section: Seq<u8>,
    bits: Seq<bool>,
    row_count: nat,
    ty: LogicalType,
) -> Option<Seq<ValueView>> {
    if params != seq![0u8, 0, 0] || !admitted(ty) {
        None
    } else if ty matches LogicalType::Decimal { precision, scale } && !types::decimal_declared(
        precision,
        scale,
    ) {
        None
    } else if !runs_accepted(section, ty) || expand(
        parsed(section, slots::slot_width(ty)->0),
    ).len() != row_count {
        None
    } else {
        Some(
            slots::rows_of_slots(ty, expand(parsed(section, slots::slot_width(ty)->0)), bits),
        )
    }
}

/// Encodes the values section as runs.
pub fn encode(column: &Column, ty: &LogicalType) -> (result: DevonResult<(Vec<u8>, [u8; 3])>)
    ensures
        match result {
            Ok((section, params)) => encoding_of(column.rows(), *ty) == Some(section@) && params@
                == seq![0u8, 0, 0],
            Err(error) => encoding_of(column.rows(), *ty) is None && error.kind_of()
                == ErrorKind::InvalidArgument,
        },
{
    let admissible: bool = match ty {
        LogicalType::Int64 => true,
        LogicalType::Timestamp => true,
        LogicalType::Bool => true,
        LogicalType::Decimal { .. } => true,
        _ => false,
    };
    if !admissible {
        return Err(
            invalid_argument(
                with_name("encoding rle is not admissible for ", ty.name(), "").as_str(),
            ),
        );
    }
    match encode_runs(column, ty) {
        Ok(section) => Ok((section, [0u8, 0u8, 0u8])),
        Err(error) => Err(error),
    }
}

/// Collects the maximal runs of the column's slots and writes the section.
fn encode_runs(column: &Column, ty: &LogicalType) -> (result: DevonResult<Vec<u8>>)
    requires
        admitted(*ty),
    ensures
        match result {
            Ok(section) => encoding_of(column.rows(), *ty) == Some(section@),
            Err(error) => encoding_of(column.rows(), *ty) is None && error.kind_of()
                == ErrorKind::InvalidArgument,
        },
{
    let ghost rows = column.rows();
    let ghost raws = slots_of(*ty, rows);
    let width: usize = match width_of(ty) {
        Some(width) => width,
        None => 0,
    };
    let count: usize = column.len();
    let mut body: Vec<u8> = Vec::new();
    let mut run_count: u32 = 0;
    let mut held: u128 = 0;
    let mut len: usize = 0;
    let mut row: usize = 0;
    let ghost mut done: Seq<(nat, nat)> = Seq::empty();
    assert(raws.subrange(0, 0) =~= Seq::<nat>::empty());
    while row < count
        invariant
            row <= count,
            count == column.row_count(),
            rows == column.rows(),
            raws == slots_of(*ty, rows),
            admitted(*ty),
            slots::slot_width(*ty) == Some(width as nat),
            forall|j: int| 0 <= j < row ==> row_slot(*ty, #[trigger] rows[j]) is Some,
            len <= row,
            len == 0 <==> row == 0,
            run_count == done.len(),
            runs_fit(done),
            body@ == bytes::joined(run_parts(done, width as nat)),
            runs_of(raws.subrange(0, row as int)) == if len == 0 {
                Seq::<(nat, nat)>::empty()
            } else {
                done.push((len as nat, held as nat))
            },
            len == 0 ==> done.len() == 0,
        decreases count - row,
    {
        let value: Value = column.value_at(row);
        let raw: u128 = match row_slot_of(ty, &value) {
            Some(raw) => raw,
            None => {
                assert(row_slot(*ty, rows[row as int]) is None);
                return Err(
                    invalid_argument(
                        with_name("encoding rle value does not match ", ty.name(), "").as_str(),
                    ),
                );
            },
        };
        let ghost taken = raws.subrange(0, row + 1);
        proof {
            assert(taken.drop_last() =~= raws.subrange(0, row as int));
            assert(raws[row as int] == raw as nat);
            assert(taken.last() == raw as nat);
        }
        if len > 0 && held == raw {
            proof {
                let before = done.push((len as nat, held as nat));
                assert(before.drop_last() =~= done);
            }
            len += 1;
        } else {
            if len > 0 {
                let ghost before = done;
                match flush_run(&mut body, run_count, held, len, width, Ghost(done)) {
                    Some(more) => {
                        run_count = more;
                        proof {
                            done = before.push((len as nat, held as nat));
                        }
                    },
                    None => {
                        proof {
                            lemma_unfit_prefix(raws, row as int, before, (len as nat, held as nat));
                        }
                        return Err(over_wide(len));
                    },
                }
            }
            held = raw;
            len = 1;
        }
        row += 1;
    }
    assert(raws.subrange(0, count as int) =~= raws);
    if len > 0 {
        match flush_run(&mut body, run_count, held, len, width, Ghost(done)) {
            Some(more) => {
                run_count = more;
                proof {
                    done = done.push((len as nat, held as nat));
                }
            },
            None => {
                proof {
                    lemma_unfit_prefix(raws, count as int, done, (len as nat, held as nat));
                }
                return Err(over_wide(len));
            },
        }
    }
    assert(all_slots(*ty, rows));
    let mut section: Vec<u8> = Vec::new();
    put_le(&mut section, run_count as u64, 4);
    put_bytes(&mut section, body.as_slice());
    assert(section@ =~= bytes::le_bytes(done.len(), 4) + bytes::joined(
        run_parts(done, width as nat),
    ));
    Ok(section)
}

fn over_wide(len: usize) -> (error: DevonError)
    ensures
        error.kind_of() == ErrorKind::InvalidArgument,
{
    if len as u64 > u32::MAX as u64 {
        invalid_argument("rle run length exceeds u32")
    } else {
        invalid_argument("rle run count exceeds u32")
    }
}

/// Writes one run; `None` when its length or the count is over u32.
fn flush_run(
    body: &mut Vec<u8>,
    run_count: u32,
    value: u128,
    len: usize,
    width: usize,
    Ghost(done): Ghost<Seq<(nat, nat)>>,
) -> (more: Option<u32>)
    requires
        old(body)@ == bytes::joined(run_parts(done, width as nat)),
        run_count == done.len(),
        runs_fit(done),
    ensures
        match more {
            Some(count) => {
                &&& count == run_count + 1
                &&& runs_fit(done.push((len as nat, value as nat)))
                &&& final(body)@ == bytes::joined(
                    run_parts(done.push((len as nat, value as nat)), width as nat),
                )
            },
            None => !runs_fit(done.push((len as nat, value as nat))),
        },
{
    let ghost grown = done.push((len as nat, value as nat));
    if len as u64 > u32::MAX as u64 {
        assert(grown[done.len() as int].0 > u32::MAX);
        return None;
    }
    if run_count == u32::MAX {
        return None;
    }
    put_le(body, len as u64, 4);
    put_le_wide(body, value, width);
    proof {
        let part = run_bytes((len as nat, value as nat), width as nat);
        assert(run_parts(grown, width as nat) =~= run_parts(done, width as nat).push(part));
        bytes::lemma_joined_push(run_parts(done, width as nat), part);
        assert(body@ =~= old(body)@ + part);
        assert forall|i: int| 0 <= i < grown.len() implies (#[trigger] grown[i]).0 <= u32::MAX by {
            if i < done.len() {
                assert(grown[i] == done[i]);
            }
        }
    }
    Some(run_count + 1)
}

/// The slot that a row takes, where the type admits the value.
fn row_slot_of(ty: &LogicalType, value: &Value) -> (raw: Option<u128>)
    ensures
        match row_slot(*ty, value@) {
            Some(n) => raw matches Some(found) && found == n,
            None => raw is None,
        },
{
    match (ty, value) {
        (_, Value::Null) => Some(0),
        (LogicalType::Int64, Value::Int64(_)) => Some(slot_of(value)),
        (LogicalType::Int64, Value::Timestamp(_)) => Some(slot_of(value)),
        (LogicalType::Timestamp, Value::Int64(_)) => Some(slot_of(value)),
        (LogicalType::Timestamp, Value::Timestamp(_)) => Some(slot_of(value)),
        (LogicalType::Bool, Value::Bool(_)) => Some(slot_of(value)),
        (LogicalType::Decimal { scale, .. }, Value::Decimal(decimal)) => if decimal.scale
            == *scale {
            Some(slot_of(value))
        } else {
            None
        },
        _ => None,
    }
}

/// Decodes a run section into the typed column.
pub fn decode(
    params: [u8; 3],
    section: &[u8],
    validity: &Bitmap,
    row_count: usize,
    ty: &LogicalType,
) -> (result: DevonResult<Column>)
    ensures
        match result {
            Ok(column) => {
                &&& decoding_of(params@, section@, validity@, row_count as nat, *ty) == Some(
                    column.rows(),
                )
                &&& column.stored_as(*ty, validity@)
            },
            Err(error) => decoding_of(params@, section@, validity@, row_count as nat, *ty) is None
                && error.kind_of() == ErrorKind::Corrupt,
        },
{
    if params[0] != 0 || params[1] != 0 || params[2] != 0 {
        assert(params@ != seq![0u8, 0, 0]);
        return Err(corrupt("encoding rle parameters are not zero"));
    }
    assert(params@ =~= seq![0u8, 0, 0]);
    let admissible: bool = match ty {
        LogicalType::Int64 => true,
        LogicalType::Timestamp => true,
        LogicalType::Bool => true,
        LogicalType::Decimal { .. } => true,
        _ => false,
    };
    if !admissible {
        return Err(
            corrupt(with_name("encoding rle is not admissible for ", ty.name(), "").as_str()),
        );
    }
    if let LogicalType::Decimal { precision, scale } = ty {
        if *precision < 1 || *precision > MAX_PRECISION || *scale > *precision {
            return Err(corrupt(declaration_fault("rle", *precision, *scale).as_str()));
        }
    }
    match parse_runs(section, row_count, ty) {
        Ok(runs) => {
            let raws: Vec<u128> = expand_runs(&runs, row_count);
            proof {
                let width = slots::slot_width(*ty)->0;
                lemma_expand_members(run_numbers(runs@));
                assert forall|i: int| 0 <= i < raws@.len() implies {
                    &&& slots::slot_value(*ty, #[trigger] raws@[i] as nat) is Some
                    &&& (raws@[i] as nat) < bytes::radix_pow(width)
                } by {
                    let numbers = run_numbers(runs@);
                    assert(expand(numbers)[i] == raws@[i] as nat);
                    let at = choose|k: int| 0 <= k < numbers.len() && numbers[k].1 == expand(numbers)[i];
                    assert(numbers[at] == parsed(section@, width)[at]);
                    assert(runs@[at].1 as nat == raws@[i] as nat);
                }
                assert(slots::raw_numbers(raws@) =~= expand(parsed(section@, width)));
            }
            Ok(column_of_slots(ty, &raws, validity))
        },
        Err(error) => Err(error),
    }
}

/// Runs as numbers.
pub open spec fn run_numbers(runs: Seq<(u32, u128)>) -> Seq<(nat, nat)> {
    runs.map_values(|run: (u32, u128)| (run.0 as nat, run.1 as nat))
}

/// Validates the framing and every run, and that the runs cover exactly
/// `row_count` rows.
fn parse_runs(section: &[u8], row_count: usize, ty: &LogicalType) -> (result: DevonResult<
    Vec<(u32, u128)>,
>)
    requires
        admitted(*ty),
        ty matches LogicalType::Decimal { precision, .. } ==> precision <= 38,
    ensures
        match result {
            Ok(runs) => {
                let width = slots::slot_width(*ty)->0;
                &&& runs_accepted(section@, *ty)
                &&& run_numbers(runs@) == parsed(section@, width)
                &&& expand(parsed(section@, width)).len() == row_count
                &&& forall|i: int|
                    0 <= i < runs@.len() ==> ((#[trigger] runs@[i]).1 as nat) < bytes::radix_pow(
                        width,
                    )
            },
            Err(error) => {
                &&& !runs_accepted(section@, *ty) || expand(
                    parsed(section@, slots::slot_width(*ty)->0),
                ).len() != row_count
                &&& error.kind_of() == ErrorKind::Corrupt
            },
        },
{
    let width: usize = match width_of(ty) {
        Some(width) => width,
        None => 0,
    };
    if section.len() < 4 {
        return Err(
            corrupt(
                with_number(
                    "rle values section is ",
                    section.len() as u64,
                    " bytes, smaller than the 4-byte run_count prefix",
                ).as_str(),
            ),
        );
    }
    proof {
        bytes::lemma_radix_values();
    }
    let run_count: u64 = get_le(section, 0, 4);
    let entry_len: u64 = 4 + width as u64;
    assert(run_count * entry_len <= 0x1_0000_0000 * 20) by (nonlinear_arith)
        requires
            run_count < 0x1_0000_0000,
            entry_len <= 20,
    ;
    let needed: u64 = run_count * entry_len;
    let actual: u64 = (section.len() - 4) as u64;
    if actual < needed {
        return Err(
            corrupt(
                and_number(
                    and_number(
                        with_number("rle run section is ", actual, " bytes, expected "),
                        needed,
                        " for ",
                    ),
                    run_count,
                    " runs",
                ).as_str(),
            ),
        );
    }
    if actual > needed {
        return Err(
            corrupt(
                and_number(
                    with_number(
                        "rle values section has ",
                        actual - needed,
                        " trailing bytes after ",
                    ),
                    run_count,
                    " runs",
                ).as_str(),
            ),
        );
    }
    let ghost whole = parsed(section@, width as nat);
    let mut runs: Vec<(u32, u128)> = Vec::new();
    let mut covered: usize = 0;
    let mut index: u64 = 0;
    assert(run_numbers(runs@) =~= whole.subrange(0, 0));
    while index < run_count
        invariant
            index <= run_count < 0x1_0000_0000,
            bytes::radix_pow(4) == 0x1_0000_0000,
            slots::slot_width(*ty) == Some(width as nat),
            width <= 16,
            ty matches LogicalType::Decimal { precision, .. } ==> precision <= 38,
            entry_len == 4 + width,
            run_count == bytes::le_at(section@, 0, 4),
            section@.len() - 4 == run_count * entry_len,
            whole == parsed(section@, width as nat),
            run_numbers(runs@) == whole.subrange(0, index as int),
            covered == expand(whole.subrange(0, index as int)).len(),
            forall|i: int| 0 <= i < index ==> (#[trigger] whole[i]).0 > 0,
            forall|i: int|
                0 <= i < index ==> slots::slot_value(*ty, (#[trigger] whole[i]).1) is Some,
            forall|i: int|
                0 <= i < runs@.len() ==> ((#[trigger] runs@[i]).1 as nat) < bytes::radix_pow(
                    width as nat,
                ),
        decreases run_count - index,
    {
        assert(index * entry_len + entry_len <= run_count * entry_len) by (nonlinear_arith)
            requires
                index + 1 <= run_count,
        ;
        let size: usize = section.len();
        let at: u64 = index * entry_len;
        let start: usize = 4 + at as usize;
        let run_len: u32 = get_le(section, start, 4) as u32;
        let raw: u128 = get_le_wide(section, start + 4, width);
        let ghost run = whole[index as int];
        assert(run == (run_len as nat, raw as nat));
        if run_len == 0 {
            return Err(corrupt(with_number("rle run ", index, " has length 0").as_str()));
        }
        if !slot_accepted(ty, raw) {
            return Err(corrupt(slot_fault("rle", ty, raw).as_str()));
        }
        proof {
            let next = whole.subrange(0, index + 1);
            assert(next.drop_last() =~= whole.subrange(0, index as int));
            lemma_expand_prefix(whole, index + 1);
        }
        match covered.checked_add(run_len as usize) {
            Some(sum) => {
                covered = sum;
            },
            None => {
                return Err(corrupt("rle run lengths overflow row coverage"));
            },
        }
        runs.push((run_len, raw));
        index += 1;
        assert(run_numbers(runs@) =~= whole.subrange(0, index as int));
    }
    assert(whole.subrange(0, run_count as int) =~= whole);
    if covered != row_count {
        return Err(
            corrupt(
                and_number(
                    with_number("rle runs cover ", covered as u64, " rows, expected "),
                    row_count as u64,
                    "",
                ).as_str(),
            ),
        );
    }
    Ok(runs)
}

/// Writes out the numbers of the runs.
fn expand_runs(runs: &Vec<(u32, u128)>, row_count: usize) -> (raws: Vec<u128>)
    requires
        expand(run_numbers(runs@)).len() == row_count,
    ensures
        slots::raw_numbers(raws@) == expand(run_numbers(runs@)),
{
    let ghost numbers = run_numbers(runs@);
    let mut raws: Vec<u128> = Vec::new();
    let mut index: usize = 0;
    assert(numbers.subrange(0, 0) =~= Seq::<(nat, nat)>::empty());
    assert(slots::raw_numbers(raws@) =~= expand(numbers.subrange(0, 0)));
    while index < runs.len()
        invariant
            index <= runs@.len(),
            numbers == run_numbers(runs@),
            slots::raw_numbers(raws@) == expand(numbers.subrange(0, index as int)),
        decreases runs@.len() - index,
    {
        let run_len: u32 = runs[index].0;
        let raw: u128 = runs[index].1;
        let ghost before = raws@;
        let mut copied: u32 = 0;
        while copied < run_len
            invariant
                copied <= run_len,
                raws@ == before + Seq::new(copied as nat, |i: int| raw),
            decreases run_len - copied,
        {
            raws.push(raw);
            copied += 1;
            assert(raws@ =~= before + Seq::new(copied as nat, |i: int| raw));
        }
        proof {
            let next = numbers.subrange(0, index + 1);
            assert(next.drop_last() =~= numbers.subrange(0, index as int));
            assert(next.last() == (run_len as nat, raw as nat));
            assert(slots::raw_numbers(raws@) =~= expand(next));
        }
        index += 1;
    }
    assert(numbers.subrange(0, runs@.len() as int) =~= numbers);
    raws
}

proof fn lemma_expand_members(runs: Seq<(nat, nat)>)
    ensures
        forall|i: int|
            0 <= i < expand(runs).len() ==> exists|k: int|
                0 <= k < runs.len() && runs[k].1 == #[trigger] expand(runs)[i],
    decreases runs.len(),
{
    if runs.len() > 0 {
        let init = runs.drop_last();
        lemma_expand_members(init);
        assert forall|i: int| 0 <= i < expand(runs).len() implies exists|k: int|
            0 <= k < runs.len() && runs[k].1 == #[trigger] expand(runs)[i] by {
            if i < expand(init).len() {
                assert(expand(runs)[i] == expand(init)[i]);
                let k = choose|k: int| 0 <= k < init.len() && init[k].1 == expand(init)[i];
                assert(runs[k].1 == expand(runs)[i]);
            } else {
                assert(runs[runs.len() - 1].1 == expand(runs)[i]);
            }
        }
    }
}

proof fn lemma_expand_prefix(runs: Seq<(nat, nat)>, n: int)
    requires
        0 <= n <= runs.len(),
    ensures
        expand(runs.subrange(0, n)).len() <= expand(runs).len(),
    decreases runs.len() - n,
{
    if n < runs.len() {
        lemma_expand_prefix(runs, n + 1);
        assert(runs.subrange(0, n + 1).drop_last() =~= runs.subrange(0, n));
    } else {
        assert(runs.subrange(0, n) =~= runs);
    }
}

/// What runs of a prefix hold, the runs of the whole hold too: all but the
/// last run stay, and the last only grows.
proof fn lemma_runs_grow(raws: Seq<nat>, n: int)
    requires
        0 < n <= raws.len(),
    ensures
        ({
            let part = runs_of(raws.subrange(0, n));
            let whole = runs_of(raws);
            &&& 0 < part.len() <= whole.len()
            &&& forall|i: int| 0 <= i < part.len() ==> (#[trigger] part[i]).0 <= whole[i].0
        }),
    decreases raws.len() - n,
{
    let part = runs_of(raws.subrange(0, n));
    assert(raws.subrange(0, n).len() > 0);
    if n < raws.len() {
        let next = raws.subrange(0, n + 1);
        assert(next.drop_last() =~= raws.subrange(0, n));
        lemma_runs_grow(raws, n + 1);
        let longer = runs_of(next);
        assert forall|i: int| 0 <= i < part.len() implies (#[trigger] part[i]).0 <= longer[i].0 by {}
        assert forall|i: int| 0 <= i < part.len() implies (#[trigger] part[i]).0 <= runs_of(raws)[i].0 by {
            assert(longer[i].0 <= runs_of(raws)[i].0);
        }
    } else {
        assert(raws.subrange(0, n) =~= raws);
    }
}

proof fn lemma_unfit_prefix(raws: Seq<nat>, n: int, done: Seq<(nat, nat)>, last: (nat, nat))
    requires
        0 < n <= raws.len(),
        runs_of(raws.subrange(0, n)) == done.push(last),
        !runs_fit(done.push(last)),
    ensures
        !runs_fit(runs_of(raws)),
{
    lemma_runs_grow(raws, n);
    let part = done.push(last);
    if part.len() <= u32::MAX {
        let i = choose|i: int| 0 <= i < part.len() && !((#[trigger] part[i]).0 <= u32::MAX);
        assert(runs_of(raws)[i].0 > u32::MAX);
    }
}

/// Runs spell the numbers that they were made of, and none is empty.
pub proof fn lemma_expand_runs(raws: Seq<nat>)
    ensures
        expand(runs_of(raws)) == raws,
        forall|i: int|
            0 <= i < runs_of(raws).len() ==> (#[trigger] runs_of(raws)[i]).0 > 0 && raws.contains(
                runs_of(raws)[i].1,
            ),
    decreases raws.len(),
{
    if raws.len() == 0 {
        assert(expand(runs_of(raws)) =~= raws);
    } else {
        let init = raws.drop_last();
        let before = runs_of(init);
        lemma_expand_runs(init);
        let runs = runs_of(raws);
        assert(raws =~= init.push(raws.last()));
        assert(raws[raws.len() - 1] == raws.last());
        if before.len() > 0 && before.last().1 == raws.last() {
            assert(runs.drop_last() =~= before.drop_last());
            assert(expand(runs) =~= expand(before).push(raws.last()));
        } else {
            assert(runs.drop_last() =~= before);
            assert(expand(runs) =~= expand(before).push(raws.last()));
        }
        assert forall|i: int| 0 <= i < runs.len() implies (#[trigger] runs[i]).0 > 0
            && raws.contains(runs[i].1) by {
            if i < runs.len() - 1 {
                assert(runs[i] == before[i]);
                let k = choose|k: int| 0 <= k < init.len() && init[k] == before[i].1;
                assert(raws[k] == runs[i].1);
            } else {
                assert(runs[i].1 == raws[raws.len() - 1]);
            }
        }
    }
}

/// What was encoded is decoded: the section of a column whose values all fit
/// its type gives the column's rows back.
pub proof fn law_rle_round_trip(rows: Seq<ValueView>, ty: LogicalType, section: Seq<u8>)
    requires
        encoding_of(rows, ty) == Some(section),
        ty matches LogicalType::Decimal { precision, scale } ==> types::decimal_declared(
            precision,
            scale,
        ),
        forall|i: int| 0 <= i < rows.len() ==> (#[trigger] rows[i]).fits_type(ty),
    ensures
        decoding_of(seq![0u8, 0, 0], section, types::validity_of(rows), rows.len(), ty) == Some(
            rows,
        ),
{
    let width = slots::slot_width(ty)->0;
    let raws = slots_of(ty, rows);
    let runs = runs_of(raws);
    let parts = run_parts(runs, width);
    let bits = types::validity_of(rows);
    lemma_expand_runs(raws);
    bytes::lemma_radix_values();
    bytes::lemma_radix_16();
    assert forall|i: int| 0 <= i < raws.len() implies #[trigger] raws[i] < bytes::radix_pow(width)
        && slots::slot_value(ty, raws[i]) is Some by {
        assert(rows[i].fits_type(ty));
        if rows[i] != ValueView::Null {
            slots::lemma_slot_round_trip(ty, rows[i]);
        } else {
            slots::lemma_zero_slot(ty);
            if ty is Decimal {
                types::lemma_pow10_positive(ty->precision as nat);
            }
        }
    }
    assert forall|i: int| 0 <= i < parts.len() implies (#[trigger] parts[i]).len() == 4 + width by {
        bytes::lemma_le_bytes_len(runs[i].0, 4);
        bytes::lemma_le_bytes_len(runs[i].1, width);
    }
    bytes::lemma_joined_len(parts, 4 + width);
    bytes::lemma_le_round_trip(runs.len(), 4);
    assert(section.subrange(0, 4) =~= bytes::le_bytes(runs.len(), 4));
    let found = parsed(section, width);
    assert(found.len() == runs.len());
    assert forall|i: int| 0 <= i < runs.len() implies #[trigger] found[i] == runs[i] by {
        let at = i * (4 + width);
        bytes::lemma_joined_part(parts, 4 + width, i);
        assert(raws.contains(runs[i].1));
        let k = choose|k: int| 0 <= k < raws.len() && raws[k] == runs[i].1;
        assert(raws[k] < bytes::radix_pow(width));
        bytes::lemma_le_round_trip(runs[i].0, 4);
        bytes::lemma_le_round_trip(runs[i].1, width);
        let part = bytes::joined(parts).subrange(at, at + (4 + width));
        assert(part == run_bytes(runs[i], width));
        assert(section.subrange(4 + at, 4 + at + 4) =~= part.subrange(0, 4));
        assert(part.subrange(0, 4) =~= bytes::le_bytes(runs[i].0, 4));
        assert(section.subrange(8 + at, 8 + at + width) =~= part.subrange(4, 4 + width as int));
        assert(part.subrange(4, 4 + width as int) =~= bytes::le_bytes(runs[i].1, width));
    }
    assert(found =~= runs);
    assert forall|i: int| 0 <= i < found.len() implies (#[trigger] found[i]).0 > 0
        && slots::slot_value(ty, found[i].1) is Some by {
        assert(found[i] == runs[i]);
        let k = choose|k: int| 0 <= k < raws.len() && raws[k] == runs[i].1;
        assert(slots::slot_value(ty, raws[k]) is Some);
    }
    let back = slots::rows_of_slots(ty, raws, bits);
    assert forall|i: int| 0 <= i < rows.len() implies back[i] == rows[i] by {
        if rows[i] != ValueView::Null {
            assert(rows[i].fits_type(ty));
            slots::lemma_slot_round_trip(ty, rows[i]);
            assert(types::bit_set(bits, i));
        } else {
            assert(!types::bit_set(bits, i));
        }
    }
    assert(back =~= rows);
}

} // verus!
