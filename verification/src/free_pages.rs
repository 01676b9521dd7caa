//! The on-disk form of the free-page ledger: ledger pages, and the
//! superblock extension that names the chain of them.
//!
//! A ledger page is its magic, the next page, the entry count, the consumed
//! count, a CRC-32C over these and the entries, four zero bytes, and the
//! entries: a page id and the log sequence number that retired it. The
//! extension stands behind the superblock header: head, tail, the count of
//! pages ever retired, and their CRC-32C.

use vstd::prelude::*;
use vstd::slice::slice_subrange;

use crate::bytes;
use crate::bytes::{get_le, put_bytes, put_le, set_le};
use crate::checksum;
use crate::checksum::{crc32c, crc32c_append};
use crate::error::{corrupt, invalid_argument, DevonResult, ErrorKind};

verus! {

/// Where the entries of a ledger page begin.
pub const LEDGER_HEADER_LEN: usize = 32;

/// The bytes of an entry.
pub const LEDGER_ENTRY_LEN: usize = 16;

/// Where the superblock extension begins.
pub const EXTENSION_START: usize = 64;

/// Where the superblock extension ends.
pub const EXTENSION_END: usize = 92;

/// One retired page.
#[derive(Debug, Clone, Copy, PartialEq, Eq, Structural)]
pub struct LedgerEntry {
    pub page_id: u64,
    pub retired_lsn: u64,
}

/// One page of the ledger. The first `consumed_count` entries have been
/// handed out again.
#[derive(Debug, PartialEq, Eq)]
pub struct LedgerPage {
    pub next_page: u64,
    pub consumed_count: u32,
    pub entries: Vec<LedgerEntry>,
}

/// What a ledger page says.
#[verifier::ext_equal]
pub struct LedgerView {
    pub next: u64,
    pub consumed: u32,
    pub entries: Seq<LedgerEntry>,
}

impl View for LedgerPage {
    type V = LedgerView;

    open spec fn view(&self) -> LedgerView {
        LedgerView {
            next: self.next_page,
            consumed: self.consumed_count,
            entries: self.entries@,
        }
    }
}

/// The first eight bytes of a ledger page.
pub open spec fn ledger_magic() -> Seq<u8> {
    seq![0x44u8, 0x45, 0x56, 0x4f, 0x4e, 0x46, 0x50, 0x4c]
}

/// The bytes of an entry.
pub open spec fn entry_bytes(entry: LedgerEntry) -> Seq<u8> {
    bytes::le_bytes(entry.page_id as nat, 8) + bytes::le_bytes(entry.retired_lsn as nat, 8)
}

/// The entries as they are written.
pub open spec fn entry_parts(entries: Seq<LedgerEntry>) -> Seq<Seq<u8>> {
    entries.map_values(|entry: LedgerEntry| entry_bytes(entry))
}

/// The bytes before the checksum.
pub open spec fn ledger_head(ledger: LedgerView) -> Seq<u8> {
    ledger_magic() + bytes::le_bytes(ledger.next as nat, 8) + bytes::le_bytes(
        ledger.entries.len(),
        4,
    ) + bytes::le_bytes(ledger.consumed as nat, 4)
}

/// The bytes of a ledger page.
pub open spec fn ledger_bytes(ledger: LedgerView, page_size: nat) -> Seq<u8> {
    let head = ledger_head(ledger);
    let body = bytes::joined(entry_parts(ledger.entries));
    head + bytes::le_bytes(checksum::crc32c_of(head + body) as nat, 4) + seq![0u8, 0, 0, 0] + body
        + Seq::new((page_size - 32 - body.len()) as nat, |i: int| 0u8)
}

/// How many entries a page holds.
pub open spec fn capacity_of(page_size: nat) -> nat {
    if page_size < 32 {
        0
    } else {
        ((page_size - 32) / 16) as nat
    }
}

/// Whether a ledger page can be written.
pub open spec fn ledger_fits(ledger: LedgerView, page_size: nat) -> bool {
    &&& page_size >= 32
    &&& ledger.entries.len() <= capacity_of(page_size)
    &&& ledger.entries.len() <= u32::MAX
    &&& ledger.consumed <= ledger.entries.len()
}

/// The entry count that a page claims.
pub open spec fn claimed_entries(page: Seq<u8>) -> nat {
    bytes::le_at(page, 16, 4)
}

/// Whether a page is a lawful ledger page.
pub open spec fn ledger_lawful(page: Seq<u8>) -> bool {
    let count = claimed_entries(page);
    &&& page.len() >= 32
    &&& page.subrange(0, 8) == ledger_magic()
    &&& 32 + count * 16 <= page.len()
    &&& bytes::le_at(page, 20, 4) <= count
    &&& checksum::crc32c_of(page.subrange(0, 24) + page.subrange(32, (32 + count * 16) as int))
        == bytes::le_at(page, 24, 4)
}

/// The entry that a page holds at an index.
pub open spec fn page_entry(page: Seq<u8>, index: int) -> LedgerEntry {
    LedgerEntry {
        page_id: bytes::le_at(page, 32 + index * 16, 8) as u64,
        retired_lsn: bytes::le_at(page, 40 + index * 16, 8) as u64,
    }
}

/// What a page says as a ledger page; `None` where it is not a lawful one.
pub open spec fn ledger_of(page: Seq<u8>) -> Option<LedgerView> {
    if ledger_lawful(page) {
        Some(
            LedgerView {
                next: bytes::le_at(page, 8, 8) as u64,
                consumed: bytes::le_at(page, 20, 4) as u32,
                entries: Seq::new(claimed_entries(page), |i: int| page_entry(page, i)),
            },
        )
    } else {
        None
    }
}

impl LedgerPage {
    /// How many entries a page of this size holds.
    pub fn capacity(page_size: usize) -> (count: usize)
        ensures
            count == capacity_of(page_size as nat),
    {
        if page_size < LEDGER_HEADER_LEN {
            0
        } else {
            (page_size - LEDGER_HEADER_LEN) / LEDGER_ENTRY_LEN
        }
    }

    /// The bytes of this page.
    pub fn encode(&self, page_size: usize) -> (result: DevonResult<Vec<u8>>)
        ensures
            match result {
                Ok(page) => ledger_fits(self@, page_size as nat) && page@ == ledger_bytes(
                    self@,
                    page_size as nat,
                ) && page@.len() == page_size,
                Err(error) => !ledger_fits(self@, page_size as nat) && error.kind_of()
                    == ErrorKind::InvalidArgument,
            },
    {
        let count: usize = self.entries.len();
        if page_size < LEDGER_HEADER_LEN || count > LedgerPage::capacity(page_size) || count as u64
            > u32::MAX as u64 {
            return Err(invalid_argument("ledger entries exceed the page capacity"));
        }
        if self.consumed_count as u64 > count as u64 {
            return Err(invalid_argument("ledger consumed_count exceeds entry_count"));
        }
        let ghost ledger = self@;
        let mut head: Vec<u8> = Vec::new();
        push_magic(&mut head);
        put_le(&mut head, self.next_page, 8);
        put_le(&mut head, count as u64, 4);
        put_le(&mut head, self.consumed_count as u64, 4);
        assert(head@ =~= ledger_head(ledger));
        let body: Vec<u8> = self.entry_section();
        let ghost spelled = bytes::joined(entry_parts(ledger.entries));
        proof {
            lemma_entry_sizes(ledger.entries);
            lemma_head_len(ledger);
            checksum::law_crc32c_concatenation(0, head@, body@);
        }
        let checksum: u32 = crc32c_append(crc32c(head.as_slice()), body.as_slice());
        let mut page: Vec<u8> = head;
        put_le(&mut page, checksum as u64, 4);
        page.push(0);
        page.push(0);
        page.push(0);
        page.push(0);
        put_bytes(&mut page, body.as_slice());
        let ghost front = page@;
        proof {
            bytes::lemma_le_bytes_len(checksum as nat, 4);
            assert(front =~= ledger_head(ledger) + bytes::le_bytes(checksum as nat, 4) + seq![
                0u8,
                0,
                0,
                0,
            ] + spelled);
        }
        while page.len() < page_size
            invariant
                front.len() <= page@.len() <= page_size,
                page@ == front + Seq::new((page@.len() - front.len()) as nat, |i: int| 0u8),
            decreases page_size - page@.len(),
        {
            page.push(0);
            assert(page@ =~= front + Seq::new((page@.len() - front.len()) as nat, |i: int| 0u8));
        }
        assert(page@ =~= ledger_bytes(ledger, page_size as nat));
        Ok(page)
    }

    fn entry_section(&self) -> (section: Vec<u8>)
        ensures
            section@ == bytes::joined(entry_parts(self.entries@)),
    {
        let ghost parts = entry_parts(self.entries@);
        let mut section: Vec<u8> = Vec::new();
        let mut i: usize = 0;
        assert(parts.subrange(0, 0) =~= Seq::<Seq<u8>>::empty());
        while i < self.entries.len()
            invariant
                i <= self.entries@.len(),
                parts == entry_parts(self.entries@),
                section@ == bytes::joined(parts.subrange(0, i as int)),
            decreases self.entries@.len() - i,
        {
            let entry: LedgerEntry = self.entries[i];
            put_le(&mut section, entry.page_id, 8);
            put_le(&mut section, entry.retired_lsn, 8);
            proof {
                let next = parts.subrange(0, i + 1);
                assert(next.drop_last() =~= parts.subrange(0, i as int));
                assert(section@ =~= bytes::joined(next));
            }
            i += 1;
        }
        assert(parts.subrange(0, parts.len() as int) =~= parts);
        section
    }

    /// Reads a page as a ledger page: magic, counts, then the checksum.
    pub fn decode(page: &[u8]) -> (result: DevonResult<LedgerPage>)
        ensures
            match result {
                Ok(ledger) => ledger_of(page@) == Some(ledger@),
                Err(error) => ledger_of(page@) is None && error.kind_of() == ErrorKind::Corrupt,
            },
    {
        let size: usize = page.len();
        if size < LEDGER_HEADER_LEN || !has_magic(page) {
            return Err(corrupt("free-page ledger magic is invalid"));
        }
        proof {
            bytes::lemma_radix_values();
        }
        let count: u64 = get_le(page, 16, 4);
        let consumed: u64 = get_le(page, 20, 4);
        if count > ((size - LEDGER_HEADER_LEN) / LEDGER_ENTRY_LEN) as u64 {
            return Err(corrupt("ledger entry_count exceeds page capacity"));
        }
        if consumed > count {
            return Err(corrupt("ledger consumed_count exceeds entry_count"));
        }
        let entries_end: usize = LEDGER_HEADER_LEN + count as usize * LEDGER_ENTRY_LEN;
        let ghost front = page@.subrange(0, 24);
        let ghost body = page@.subrange(32, entries_end as int);
        proof {
            checksum::law_crc32c_concatenation(0, front, body);
        }
        let computed: u32 = crc32c_append(
            crc32c(slice_subrange(page, 0, 24)),
            slice_subrange(page, 32, entries_end),
        );
        if computed as u64 != get_le(page, 24, 4) {
            return Err(corrupt("free-page ledger CRC-32C does not match"));
        }
        let mut entries: Vec<LedgerEntry> = Vec::new();
        let mut i: usize = 0;
        while i < count as usize
            invariant
                i <= count,
                size == page@.len(),
                32 + count * 16 <= size,
                entries@.len() == i,
                forall|j: int| 0 <= j < i ==> #[trigger] entries@[j] == page_entry(page@, j),
            decreases count - i,
        {
            entries.push(
                LedgerEntry {
                    page_id: get_le(page, 32 + i * 16, 8),
                    retired_lsn: get_le(page, 40 + i * 16, 8),
                },
            );
            i += 1;
        }
        let ledger = LedgerPage {
            next_page: get_le(page, 8, 8),
            consumed_count: consumed as u32,
            entries,
        };
        assert(ledger@.entries =~= ledger_of(page@)->0.entries);
        Ok(ledger)
    }
}

fn push_magic(out: &mut Vec<u8>)
    ensures
        final(out)@ == old(out)@ + ledger_magic(),
{
    out.push(0x44);
    out.push(0x45);
    out.push(0x56);
    out.push(0x4f);
    out.push(0x4e);
    out.push(0x46);
    out.push(0x50);
    out.push(0x4c);
    assert(out@ =~= old(out)@ + ledger_magic());
}

fn has_magic(page: &[u8]) -> (yes: bool)
    requires
        page@.len() >= 8,
    ensures
        yes == (page@.subrange(0, 8) == ledger_magic()),
{
    let yes: bool = page[0] == 0x44 && page[1] == 0x45 && page[2] == 0x56 && page[3] == 0x4f
        && page[4] == 0x4e && page[5] == 0x46 && page[6] == 0x50 && page[7] == 0x4c;
    proof {
        let front = page@.subrange(0, 8);
        if yes {
            assert(front =~= ledger_magic());
        } else {
            assert(front[0] == page@[0] && front[1] == page@[1] && front[2] == page@[2] && front[3]
                == page@[3] && front[4] == page@[4] && front[5] == page@[5] && front[6] == page@[6]
                && front[7] == page@[7]);
        }
    }
    yes
}

proof fn lemma_entry_sizes(entries: Seq<LedgerEntry>)
    ensures
        forall|i: int|
            0 <= i < entry_parts(entries).len() ==> (#[trigger] entry_parts(entries)[i]).len()
                == 16,
        bytes::joined(entry_parts(entries)).len() == entries.len() * 16,
{
    let parts = entry_parts(entries);
    assert forall|i: int| 0 <= i < parts.len() implies (#[trigger] parts[i]).len() == 16 by {
        bytes::lemma_le_bytes_len(entries[i].page_id as nat, 8);
        bytes::lemma_le_bytes_len(entries[i].retired_lsn as nat, 8);
    }
    bytes::lemma_joined_len(parts, 16);
}

proof fn lemma_head_len(ledger: LedgerView)
    ensures
        ledger_head(ledger).len() == 24,
{
    bytes::lemma_le_bytes_len(ledger.next as nat, 8);
    bytes::lemma_le_bytes_len(ledger.entries.len(), 4);
    bytes::lemma_le_bytes_len(ledger.consumed as nat, 4);
}

/// A ledger page that was written reads back.
pub proof fn law_ledger_round_trip(ledger: LedgerView, page_size: nat)
    requires
        ledger_fits(ledger, page_size),
    ensures
        ledger_bytes(ledger, page_size).len() == page_size,
        ledger_of(ledger_bytes(ledger, page_size)) == Some(ledger),
{
    let head = ledger_head(ledger);
    let parts = entry_parts(ledger.entries);
    let body = bytes::joined(parts);
    let crc = checksum::crc32c_of(head + body);
    let page = ledger_bytes(ledger, page_size);
    lemma_entry_sizes(ledger.entries);
    lemma_head_len(ledger);
    bytes::lemma_radix_values();
    bytes::lemma_le_round_trip(ledger.next as nat, 8);
    bytes::lemma_le_round_trip(ledger.entries.len(), 4);
    bytes::lemma_le_round_trip(ledger.consumed as nat, 4);
    bytes::lemma_le_round_trip(crc as nat, 4);
    assert(page.len() == page_size);
    assert(page.subrange(0, 8) =~= ledger_magic());
    assert(page.subrange(8, 16) =~= bytes::le_bytes(ledger.next as nat, 8));
    assert(page.subrange(16, 20) =~= bytes::le_bytes(ledger.entries.len(), 4));
    assert(page.subrange(20, 24) =~= bytes::le_bytes(ledger.consumed as nat, 4));
    assert(page.subrange(24, 28) =~= bytes::le_bytes(crc as nat, 4));
    assert(page.subrange(0, 24) =~= head);
    let end = (32 + ledger.entries.len() * 16) as int;
    assert(page.subrange(32, end) =~= body);
    assert(ledger_lawful(page));
    let back = ledger_of(page)->0;
    assert forall|i: int| 0 <= i < ledger.entries.len() implies back.entries[i]
        == ledger.entries[i] by {
        let entry = ledger.entries[i];
        bytes::lemma_joined_part(parts, 16, i);
        bytes::lemma_le_round_trip(entry.page_id as nat, 8);
        bytes::lemma_le_round_trip(entry.retired_lsn as nat, 8);
        let part = body.subrange(i * 16, i * 16 + 16);
        assert(part == entry_bytes(entry));
        assert(page.subrange(32 + i * 16, 32 + i * 16 + 8) =~= part.subrange(0, 8));
        assert(page.subrange(40 + i * 16, 40 + i * 16 + 8) =~= part.subrange(8, 16));
        assert(part.subrange(0, 8) =~= bytes::le_bytes(entry.page_id as nat, 8));
        assert(part.subrange(8, 16) =~= bytes::le_bytes(entry.retired_lsn as nat, 8));
    }
    assert(back.entries =~= ledger.entries);
}

/// The ledger chain that a superblock slot names.
#[derive(Debug, Clone, Copy, PartialEq, Eq, Structural)]
pub struct SuperblockExtension {
    /// The first ledger page, zero without a ledger.
    pub retire_ledger_head: u64,
    /// The last ledger page.
    pub retire_ledger_tail: u64,
    /// How many pages have ever been retired.
    pub retired_total: u64,
}

/// The fields of an extension as they are written.
pub open spec fn extension_fields(extension: SuperblockExtension) -> Seq<u8> {
    bytes::le_bytes(extension.retire_ledger_head as nat, 8) + bytes::le_bytes(
        extension.retire_ledger_tail as nat,
        8,
    ) + bytes::le_bytes(extension.retired_total as nat, 8)
}

/// The bytes of an extension.
pub open spec fn extension_bytes(extension: SuperblockExtension) -> Seq<u8> {
    extension_fields(extension) + bytes::le_bytes(
        checksum::crc32c_of(extension_fields(extension)) as nat,
        4,
    )
}

/// A slot page with an extension put in.
pub open spec fn with_extension(page: Seq<u8>, extension: SuperblockExtension) -> Seq<u8> {
    page.subrange(0, 64) + extension_bytes(extension) + page.subrange(92, page.len() as int)
}

/// The extension that a slot page holds; `None` where its checksum does not
/// match.
pub open spec fn extension_of(page: Seq<u8>) -> Option<SuperblockExtension> {
    if page.len() < 92 || checksum::crc32c_of(page.subrange(64, 88)) != bytes::le_at(page, 88, 4) {
        None
    } else {
        Some(
            SuperblockExtension {
                retire_ledger_head: bytes::le_at(page, 64, 8) as u64,
                retire_ledger_tail: bytes::le_at(page, 72, 8) as u64,
                retired_total: bytes::le_at(page, 80, 8) as u64,
            },
        )
    }
}

impl SuperblockExtension {
    /// Whether the extension names a ledger.
    pub open spec fn names_ledger(self) -> bool {
        self.retire_ledger_head != 0
    }

    /// Whether the extension names a ledger.
    pub fn has_ledger(&self) -> (yes: bool)
        ensures
            yes == self.names_ledger(),
    {
        self.retire_ledger_head != 0
    }

    /// Writes the extension into a slot page.
    pub fn encode_into(&self, page: &mut Vec<u8>) -> (result: DevonResult<()>)
        ensures
            result is Ok <==> old(page)@.len() >= 92,
            result is Ok ==> final(page)@ == with_extension(old(page)@, *self)
                && final(page)@.len() == old(page)@.len(),
            result matches Err(error) ==> error.kind_of() == ErrorKind::InvalidArgument
                && final(page)@ == old(page)@,
    {
        if page.len() < EXTENSION_END {
            return Err(invalid_argument("slot page is too short for the superblock extension"));
        }
        let ghost before = page@;
        let mut fields: Vec<u8> = Vec::new();
        put_le(&mut fields, self.retire_ledger_head, 8);
        put_le(&mut fields, self.retire_ledger_tail, 8);
        put_le(&mut fields, self.retired_total, 8);
        assert(fields@ =~= extension_fields(*self));
        let checksum: u32 = crc32c(fields.as_slice());
        proof {
            bytes::lemma_le_bytes_len(self.retire_ledger_head as nat, 8);
            bytes::lemma_le_bytes_len(self.retire_ledger_tail as nat, 8);
            bytes::lemma_le_bytes_len(self.retired_total as nat, 8);
            bytes::lemma_le_bytes_len(checksum as nat, 4);
        }
        set_le(page, 64, self.retire_ledger_head, 8);
        set_le(page, 72, self.retire_ledger_tail, 8);
        set_le(page, 80, self.retired_total, 8);
        set_le(page, 88, checksum as u64, 4);
        assert(page@ =~= with_extension(before, *self));
        Ok(())
    }

    /// Reads the extension of a slot page.
    pub fn decode_from(page: &[u8]) -> (found: Option<SuperblockExtension>)
        ensures
            found == extension_of(page@),
    {
        if page.len() < EXTENSION_END {
            return None;
        }
        let checksum: u32 = crc32c(slice_subrange(page, 64, 88));
        if checksum as u64 != get_le(page, 88, 4) {
            return None;
        }
        Some(
            SuperblockExtension {
                retire_ledger_head: get_le(page, 64, 8),
                retire_ledger_tail: get_le(page, 72, 8),
                retired_total: get_le(page, 80, 8),
            },
        )
    }
}

/// An extension that was written reads back.
pub proof fn law_extension_round_trip(page: Seq<u8>, extension: SuperblockExtension)
    requires
        page.len() >= 92,
    ensures
        extension_of(with_extension(page, extension)) == Some(extension),
{
    let written = with_extension(page, extension);
    let crc = checksum::crc32c_of(extension_fields(extension));
    bytes::lemma_radix_values();
    bytes::lemma_le_round_trip(extension.retire_ledger_head as nat, 8);
    bytes::lemma_le_round_trip(extension.retire_ledger_tail as nat, 8);
    bytes::lemma_le_round_trip(extension.retired_total as nat, 8);
    bytes::lemma_le_round_trip(crc as nat, 4);
    assert(written.subrange(64, 72) =~= bytes::le_bytes(extension.retire_ledger_head as nat, 8));
    assert(written.subrange(72, 80) =~= bytes::le_bytes(extension.retire_ledger_tail as nat, 8));
    assert(written.subrange(80, 88) =~= bytes::le_bytes(extension.retired_total as nat, 8));
    assert(written.subrange(88, 92) =~= bytes::le_bytes(crc as nat, 4));
    assert(written.subrange(64, 88) =~= extension_fields(extension));
}

} // verus!
