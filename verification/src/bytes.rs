//! Little-endian integers in byte buffers.

use vstd::prelude::*;

verus! {

/// `256` to the power `n`: how many values `n` bytes can hold.
pub open spec fn radix_pow(n: nat) -> nat
    decreases n,
{
    if n == 0 {
        1
    } else {
        256 * radix_pow((n - 1) as nat)
    }
}

/// The number that a little-endian byte sequence writes.
pub open spec fn le_value(bytes: Seq<u8>) -> nat
    decreases bytes.len(),
{
    if bytes.len() == 0 {
        0
    } else {
        bytes[0] as nat + 256 * le_value(bytes.drop_first())
    }
}

/// The `width` little-endian bytes of `value`; higher digits are dropped.
pub open spec fn le_bytes(value: nat, width: nat) -> Seq<u8>
    decreases width,
{
    if width == 0 {
        Seq::empty()
    } else {
        seq![(value % 256) as u8] + le_bytes(value / 256, (width - 1) as nat)
    }
}

/// The number in the `width` bytes from `offset` on.
pub open spec fn le_at(bytes: Seq<u8>, offset: int, width: int) -> nat {
    le_value(bytes.subrange(offset, offset + width))
}

/// Writing a number that fits and reading it back gives the number.
pub proof fn lemma_le_round_trip(value: nat, width: nat)
    requires
        value < radix_pow(width),
    ensures
        le_bytes(value, width).len() == width,
        le_value(le_bytes(value, width)) == value,
    decreases width,
{
    if width > 0 {
        let rest = le_bytes(value / 256, (width - 1) as nat);
        lemma_le_round_trip(value / 256, (width - 1) as nat);
        assert(le_bytes(value, width).drop_first() =~= rest);
    }
}

/// `width` bytes are written whatever the number.
pub proof fn lemma_le_bytes_len(value: nat, width: nat)
    ensures
        le_bytes(value, width).len() == width,
    decreases width,
{
    if width > 0 {
        lemma_le_bytes_len(value / 256, (width - 1) as nat);
    }
}

/// The number read from bytes is below the bound of their count.
pub proof fn lemma_le_value_bound(bytes: Seq<u8>)
    ensures
        le_value(bytes) < radix_pow(bytes.len()),
    decreases bytes.len(),
{
    if bytes.len() > 0 {
        lemma_le_value_bound(bytes.drop_first());
    }
}

/// Reading bytes and writing the number gives the bytes.
pub proof fn lemma_le_bytes_of_value(bytes: Seq<u8>)
    ensures
        le_bytes(le_value(bytes), bytes.len()) =~= bytes,
    decreases bytes.len(),
{
    if bytes.len() > 0 {
        let tail = bytes.drop_first();
        lemma_le_bytes_of_value(tail);
        let value = le_value(bytes);
        assert(value / 256 == le_value(tail));
        assert(value % 256 == bytes[0]);
        assert(bytes =~= seq![bytes[0]] + tail);
    }
}

/// The bounds of the widths in use.
pub proof fn lemma_radix_values()
    ensures
        radix_pow(1) == 0x100,
        radix_pow(2) == 0x1_0000,
        radix_pow(4) == 0x1_0000_0000,
        radix_pow(8) == 0x1_0000_0000_0000_0000,
{
    reveal_with_fuel(radix_pow, 9);
}

/// A bound grows with its width.
pub proof fn lemma_radix_monotone(a: nat, b: nat)
    requires
        a <= b,
    ensures
        1 <= radix_pow(a) <= radix_pow(b),
    decreases b,
{
    if a < b {
        lemma_radix_monotone(a, (b - 1) as nat);
    } else if b > 0 {
        lemma_radix_monotone((a - 1) as nat, (b - 1) as nat);
    }
}

/// Appends the `width` little-endian bytes of `value`.
pub fn put_le(out: &mut Vec<u8>, value: u64, width: usize)
    ensures
        final(out)@ == old(out)@ + le_bytes(value as nat, width as nat),
{
    let mut rest: u64 = value;
    let mut done: usize = 0;
    proof {
        assert(old(out)@ + le_bytes(value as nat, width as nat) =~= out@ + le_bytes(
            rest as nat,
            (width - done) as nat,
        ));
    }
    while done < width
        invariant
            done <= width,
            old(out)@ + le_bytes(value as nat, width as nat) == out@ + le_bytes(
                rest as nat,
                (width - done) as nat,
            ),
        decreases width - done,
    {
        let ghost before = out@;
        out.push((rest % 256) as u8);
        proof {
            let tail = le_bytes((rest / 256) as nat, (width - done - 1) as nat);
            assert(before + le_bytes(rest as nat, (width - done) as nat) =~= out@ + tail);
        }
        rest = rest / 256;
        done += 1;
    }
    assert(out@ + le_bytes(rest as nat, 0) =~= out@);
}

/// Overwrites the `width` bytes from `offset` on with those of `value`.
pub fn set_le(out: &mut Vec<u8>, offset: usize, value: u64, width: usize)
    requires
        offset + width <= old(out)@.len(),
    ensures
        final(out)@ == old(out)@.subrange(0, offset as int) + le_bytes(value as nat, width as nat)
            + old(out)@.subrange(offset + width, old(out)@.len() as int),
        final(out)@.len() == old(out)@.len(),
{
    let mut bytes: Vec<u8> = Vec::new();
    put_le(&mut bytes, value, width);
    proof {
        lemma_le_bytes_len(value as nat, width as nat);
    }
    assert(bytes@ =~= le_bytes(value as nat, width as nat));
    let total: usize = out.len();
    let mut i: usize = 0;
    while i < width
        invariant
            i <= width,
            bytes@.len() == width,
            total == old(out)@.len(),
            offset + width <= old(out)@.len(),
            out@.len() == old(out)@.len(),
            out@ =~= old(out)@.subrange(0, offset as int) + bytes@.subrange(0, i as int)
                + old(out)@.subrange(offset + i, old(out)@.len() as int),
        decreases width - i,
    {
        out.set(offset + i, bytes[i]);
        i += 1;
    }
    assert(bytes@.subrange(0, width as int) =~= bytes@);
}

/// Reads the `width` little-endian bytes from `offset` on.
pub fn get_le(bytes: &[u8], offset: usize, width: usize) -> (value: u64)
    requires
        offset + width <= bytes@.len(),
        width <= 8,
    ensures
        value == le_at(bytes@, offset as int, width as int),
        (value as nat) < radix_pow(width as nat),
{
    let total: usize = bytes.len();
    let mut value: u64 = 0;
    let mut left: usize = width;
    let ghost whole = bytes@.subrange(offset as int, offset + width);
    proof {
        lemma_radix_values();
        lemma_radix_monotone(width as nat, 8);
        lemma_le_value_bound(whole);
        assert(whole.skip(width as int) =~= Seq::<u8>::empty());
    }
    while left > 0
        invariant
            left <= width <= 8,
            total == bytes@.len(),
            offset + width <= bytes@.len(),
            whole == bytes@.subrange(offset as int, offset + width),
            value == le_value(whole.skip(left as int)),
            radix_pow(8) == 0x1_0000_0000_0000_0000,
        decreases left,
    {
        let ghost tail = whole.skip(left as int);
        left -= 1;
        proof {
            let next = whole.skip(left as int);
            assert(next.drop_first() =~= tail);
            assert(next[0] == bytes@[offset + left]);
            lemma_le_value_bound(next);
            lemma_radix_monotone(next.len(), 8);
        }
        value = value * 256 + bytes[offset + left] as u64;
    }
    assert(whole.skip(0) =~= whole);
    value
}

/// Appends `part` to `out`.
pub fn put_bytes(out: &mut Vec<u8>, part: &[u8])
    ensures
        final(out)@ == old(out)@ + part@,
{
    let mut i: usize = 0;
    while i < part.len()
        invariant
            i <= part@.len(),
            out@ == old(out)@ + part@.subrange(0, i as int),
        decreases part@.len() - i,
    {
        out.push(part[i]);
        i += 1;
        assert(out@ =~= old(out)@ + part@.subrange(0, i as int));
    }
    assert(part@.subrange(0, part@.len() as int) =~= part@);
}

/// Appends the `width` little-endian bytes of a wide number.
pub fn put_le_wide(out: &mut Vec<u8>, value: u128, width: usize)
    ensures
        final(out)@ == old(out)@ + le_bytes(value as nat, width as nat),
{
    let mut rest: u128 = value;
    let mut done: usize = 0;
    proof {
        assert(old(out)@ + le_bytes(value as nat, width as nat) =~= out@ + le_bytes(
            rest as nat,
            (width - done) as nat,
        ));
    }
    while done < width
        invariant
            done <= width,
            old(out)@ + le_bytes(value as nat, width as nat) == out@ + le_bytes(
                rest as nat,
                (width - done) as nat,
            ),
        decreases width - done,
    {
        let ghost before = out@;
        out.push((rest % 256) as u8);
        proof {
            let tail = le_bytes((rest / 256) as nat, (width - done - 1) as nat);
            assert(before + le_bytes(rest as nat, (width - done) as nat) =~= out@ + tail);
        }
        rest = rest / 256;
        done += 1;
    }
    assert(out@ + le_bytes(rest as nat, 0) =~= out@);
}

/// Reads the `width` little-endian bytes from `offset` on, at most sixteen.
pub fn get_le_wide(bytes: &[u8], offset: usize, width: usize) -> (value: u128)
    requires
        offset + width <= bytes@.len(),
        width <= 16,
    ensures
        value == le_at(bytes@, offset as int, width as int),
        (value as nat) < radix_pow(width as nat),
{
    let total: usize = bytes.len();
    let mut value: u128 = 0;
    let mut left: usize = width;
    let ghost whole = bytes@.subrange(offset as int, offset + width);
    proof {
        lemma_radix_16();
        lemma_radix_monotone(width as nat, 16);
        lemma_le_value_bound(whole);
        assert(whole.skip(width as int) =~= Seq::<u8>::empty());
    }
    while left > 0
        invariant
            left <= width <= 16,
            total == bytes@.len(),
            offset + width <= bytes@.len(),
            whole == bytes@.subrange(offset as int, offset + width),
            value == le_value(whole.skip(left as int)),
            radix_pow(16) == 0x1_0000_0000_0000_0000_0000_0000_0000_0000,
        decreases left,
    {
        let ghost tail = whole.skip(left as int);
        left -= 1;
        proof {
            let next = whole.skip(left as int);
            assert(next.drop_first() =~= tail);
            assert(next[0] == bytes@[offset + left]);
            lemma_le_value_bound(next);
            lemma_radix_monotone(next.len(), 16);
        }
        value = value * 256 + bytes[offset + left] as u128;
    }
    assert(whole.skip(0) =~= whole);
    value
}

/// The bound of sixteen bytes.
pub proof fn lemma_radix_16()
    ensures
        radix_pow(16) == 0x1_0000_0000_0000_0000_0000_0000_0000_0000,
{
    reveal_with_fuel(radix_pow, 17);
}

/// The parts written one after another.
pub open spec fn joined(parts: Seq<Seq<u8>>) -> Seq<u8>
    decreases parts.len(),
{
    if parts.len() == 0 {
        Seq::empty()
    } else {
        joined(parts.drop_last()) + parts.last()
    }
}

/// One more part stands at the end.
pub proof fn lemma_joined_push(parts: Seq<Seq<u8>>, part: Seq<u8>)
    ensures
        joined(parts.push(part)) == joined(parts) + part,
{
    assert(parts.push(part).drop_last() =~= parts);
}

/// Parts of one length add up.
pub proof fn lemma_joined_len(parts: Seq<Seq<u8>>, stride: nat)
    requires
        forall|i: int| 0 <= i < parts.len() ==> (#[trigger] parts[i]).len() == stride,
    ensures
        joined(parts).len() == parts.len() * stride,
    decreases parts.len(),
{
    if parts.len() == 0 {
        assert(parts.len() * stride == 0) by (nonlinear_arith)
            requires
                parts.len() == 0,
        ;
    } else {
        let init = parts.drop_last();
        assert forall|i: int| 0 <= i < init.len() implies (#[trigger] init[i]).len() == stride by {
            assert(init[i] == parts[i]);
        }
        lemma_joined_len(init, stride);
        assert(parts[parts.len() - 1].len() == stride);
        assert((init.len() + 1) * stride == init.len() * stride + stride) by (nonlinear_arith);
    }
}

/// Parts of one length stand at multiples of it.
pub proof fn lemma_joined_part(parts: Seq<Seq<u8>>, stride: nat, i: int)
    requires
        forall|j: int| 0 <= j < parts.len() ==> (#[trigger] parts[j]).len() == stride,
        0 <= i < parts.len(),
    ensures
        0 <= i * stride,
        i * stride + stride <= joined(parts).len(),
        joined(parts).subrange(i * stride, i * stride + stride) == parts[i],
    decreases parts.len(),
{
    let init = parts.drop_last();
    assert forall|j: int| 0 <= j < init.len() implies (#[trigger] init[j]).len() == stride by {
        assert(init[j] == parts[j]);
    }
    lemma_joined_len(init, stride);
    lemma_joined_len(parts, stride);
    assert(parts[parts.len() - 1].len() == stride);
    assert(0 <= i * stride) by (nonlinear_arith)
        requires
            0 <= i,
    ;
    if i < init.len() {
        lemma_joined_part(init, stride, i);
        assert(init[i] == parts[i]);
        assert(joined(parts).subrange(i * stride, i * stride + stride) =~= joined(init).subrange(
            i * stride,
            i * stride + stride,
        ));
    } else {
        assert(i * stride == init.len() * stride);
        assert(joined(parts).subrange(i * stride, i * stride + stride) =~= parts[i]);
    }
}

/// Where entry `index` begins in the heap.
pub open spec fn heap_offset(entries: Seq<Seq<u8>>, index: int) -> nat {
    joined(entries.subrange(0, index)).len()
}

/// The offsets as they are written.
pub open spec fn offset_parts(entries: Seq<Seq<u8>>) -> Seq<Seq<u8>> {
    Seq::new(entries.len() + 1, |index: int| le_bytes(heap_offset(entries, index), 4))
}

/// What comes first is no longer than the whole.
pub proof fn lemma_joined_prefix(parts: Seq<Seq<u8>>, n: int)
    requires
        0 <= n <= parts.len(),
    ensures
        joined(parts.subrange(0, n)).len() <= joined(parts).len(),
    decreases parts.len() - n,
{
    if n < parts.len() {
        lemma_joined_prefix(parts, n + 1);
        assert(parts.subrange(0, n + 1).drop_last() =~= parts.subrange(0, n));
    } else {
        assert(parts.subrange(0, n) =~= parts);
    }
}

/// An entry stands between its offset and the next.
pub proof fn lemma_heap_entry(entries: Seq<Seq<u8>>, index: int)
    requires
        0 <= index < entries.len(),
    ensures
        heap_offset(entries, index) <= heap_offset(entries, index + 1) <= joined(
            entries,
        ).len(),
        joined(entries).subrange(
            heap_offset(entries, index) as int,
            heap_offset(entries, index + 1) as int,
        ) == entries[index],
    decreases entries.len(),
{
    let init = entries.drop_last();
    let next = entries.subrange(0, index + 1);
    assert(next.drop_last() =~= entries.subrange(0, index));
    lemma_joined_prefix(entries, index + 1);
    if index < init.len() {
        lemma_heap_entry(init, index);
        assert(init.subrange(0, index) =~= entries.subrange(0, index));
        assert(init.subrange(0, index + 1) =~= next);
        assert(joined(entries).subrange(
            heap_offset(entries, index) as int,
            heap_offset(entries, index + 1) as int,
        ) =~= joined(init).subrange(
            heap_offset(entries, index) as int,
            heap_offset(entries, index + 1) as int,
        ));
    } else {
        assert(next =~= entries);
        assert(entries.subrange(0, index) =~= init);
        assert(joined(entries).subrange(
            heap_offset(entries, index) as int,
            heap_offset(entries, index + 1) as int,
        ) =~= entries[index]);
    }
}

} // verus!
