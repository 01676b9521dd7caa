//! The versioned database header that fills the first two pages.
//!
//! Layout of the 64-byte header, little-endian: magic, format version,
//! minimum reader version, feature flags, page size, database id,
//! checkpoint LSN, catalog root, CRC-32C of the first 60 bytes. The rest of
//! the page is written zero and not validated.

use vstd::prelude::*;
use vstd::slice::slice_subrange;

use crate::bytes;
use crate::bytes::{get_le, put_le};
use crate::checksum;
use crate::checksum::crc32c;
use crate::error::{corrupt, invalid_argument, DevonError, DevonResult, ErrorKind};
use crate::text::with_number;

verus! {

broadcast use vstd::seq_lib::group_seq_properties;

/// Header bytes in each slot.
pub const HEADER_LEN: usize = 64;

/// Where the checksum stands.
pub const CHECKSUM_OFFSET: usize = 60;

/// The newest on-disk format version this reader understands.
pub const SUPPORTED_FORMAT_VERSION: u32 = 1;

/// Bit 0: the file holds a persistent HNSW index.
pub const HNSW_INDEX_FLAG: u64 = 0x1;

/// Bit 1: the catalog carries an ontology section.
pub const ONTOLOGY_FLAG: u64 = 0x2;

/// Bit 2: the catalog carries pinned plans.
pub const PINNED_PLANS_FLAG: u64 = 0x4;

/// Bit 3: node-group directories may carry zone maps.
pub const ZONE_MAPS_FLAG: u64 = 0x8;

/// Bit 4: some node table has a geographic column.
pub const GEO_COLUMNS_FLAG: u64 = 0x10;

/// Bit 5: the superblock extension names a free-page ledger.
pub const FREE_PAGES_FLAG: u64 = 0x20;

/// Bit 6: the log may hold node updates and deletes.
pub const DML_WAL_FLAG: u64 = 0x40;

/// Bit 7: some table has a timestamp, bytes, decimal or JSON column.
pub const SCALAR_TYPES_V2_FLAG: u64 = 0x80;

/// Bit 8: writers coordinate across processes.
pub const MULTIPROCESS_COORDINATION_FLAG: u64 = 0x100;

/// Bit 9: the catalog root is a directory of continuation pages.
pub const MULTIPAGE_CATALOG_FLAG: u64 = 0x200;

/// Bit 10: the log may hold relationship endpoint tombstones.
pub const REL_TOMBSTONE_WAL_FLAG: u64 = 0x400;

/// Bit 12: read-safe, without a meaning yet; a reader that sees it opens
/// read-only.
pub const RESERVED_READ_SAFE_FLAG: u64 = 0x1000;

/// Bit 13: some node group carries a non-plain values section.
pub const COLUMN_ENCODINGS_FLAG: u64 = 0x2000;

/// Bit 14: the log may mutate an indexed node table.
pub const HNSW_MUTATION_WAL_FLAG: u64 = 0x4000;

/// Flags that a reader may ignore while reading (bits 0, 1, 2, 3, 5, 12).
pub const READ_SAFE_FLAG_MASK: u64 = 0x102f;

/// Flags that this build supports, writes included (bits 0 to 10, 13, 14).
pub const SUPPORTED_FLAG_MASK: u64 = 0x67ff;

/// The versioned database header stored in both superblock slots.
#[derive(Clone, Debug, Eq, PartialEq)]
pub struct Superblock {
    /// The format version that wrote the file.
    pub format_version: u32,
    /// The oldest reader version that can open the file.
    pub min_reader_version: u32,
    /// The feature flags in force.
    pub feature_flags: u64,
    /// The page size in bytes.
    pub page_size: u32,
    /// The database's persistent identifier.
    pub db_id: [u8; 16],
    /// The log sequence number of the last completed checkpoint.
    pub checkpoint_lsn: u64,
    /// The page of the catalog root, or zero for an empty database.
    pub catalog_root: u64,
}

/// The first eight bytes of every database file.
pub open spec fn magic() -> Seq<u8> {
    seq![0x44u8, 0x45, 0x56, 0x4f, 0x4e, 0x44, 0x42, 0]
}

/// A page size is a power of two between 4096 and 65536.
pub open spec fn is_page_size(page_size: u32) -> bool {
    page_size == 4096 || page_size == 8192 || page_size == 16384 || page_size == 32768 || page_size
        == 65536
}

/// The page sizes are the powers of two between four and sixty-four KiB.
pub proof fn law_page_sizes_are_powers_of_two(page_size: u32)
    ensures
        is_page_size(page_size) <==> 4096 <= page_size <= 65536 && page_size & sub_one(page_size)
            == 0,
{
    assert((page_size == 4096 || page_size == 8192 || page_size == 16384 || page_size == 32768
        || page_size == 65536) <==> 4096 <= page_size && page_size <= 65536 && page_size & ((
    page_size - 1) as u32) == 0) by (bit_vector);
}

/// A number less one.
pub open spec fn sub_one(number: u32) -> u32 {
    (number - 1) as u32
}

impl Superblock {
    /// The bytes that the header checksum covers.
    pub open spec fn checked_bytes(self) -> Seq<u8> {
        magic() + bytes::le_bytes(self.format_version as nat, 4) + bytes::le_bytes(
            self.min_reader_version as nat,
            4,
        ) + bytes::le_bytes(self.feature_flags as nat, 8) + bytes::le_bytes(self.page_size as nat, 4)
            + self.db_id@ + bytes::le_bytes(self.checkpoint_lsn as nat, 8) + bytes::le_bytes(
            self.catalog_root as nat,
            8,
        )
    }

    /// The 64 header bytes.
    pub open spec fn header_bytes(self) -> Seq<u8> {
        self.checked_bytes() + bytes::le_bytes(checksum::crc32c_of(self.checked_bytes()) as nat, 4)
    }

    /// The slot page of `len` bytes: the header, then zeros.
    pub open spec fn slot_bytes(self, len: nat) -> Seq<u8> {
        self.header_bytes() + Seq::new((len - 64) as nat, |i: int| 0u8)
    }

    /// Whether this header may be written at all.
    pub open spec fn encodable(self) -> bool {
        is_page_size(self.page_size) && self.min_reader_version <= self.format_version
    }

    /// Whether the fields of this header are those that `page` spells.
    pub open spec fn read_from(self, page: Seq<u8>) -> bool {
        &&& self.format_version == bytes::le_at(page, 8, 4)
        &&& self.min_reader_version == bytes::le_at(page, 12, 4)
        &&& self.feature_flags == bytes::le_at(page, 16, 8)
        &&& self.page_size == bytes::le_at(page, 24, 4)
        &&& self.db_id@ == page.subrange(28, 44)
        &&& self.checkpoint_lsn == bytes::le_at(page, 44, 8)
        &&& self.catalog_root == bytes::le_at(page, 52, 8)
    }

    /// Why these fields are refused, checked in this order: reader version,
    /// unknown flags, page size.
    pub open spec fn field_refusal(self, supported: u64, read_safe: u64) -> Option<ErrorKind> {
        if self.min_reader_version > SUPPORTED_FORMAT_VERSION {
            Some(ErrorKind::VersionMismatch)
        } else if self.feature_flags & !(read_safe | supported) != 0 {
            Some(ErrorKind::VersionMismatch)
        } else if !is_page_size(self.page_size) {
            Some(ErrorKind::Corrupt)
        } else {
            None
        }
    }

    /// Whether a reader with these flags is confined to reading.
    pub open spec fn confined_to_reading(self) -> bool {
        self.feature_flags & READ_SAFE_FLAG_MASK & !SUPPORTED_FLAG_MASK != 0
    }

    /// Writes this header into a slot page, zeroing the rest of the page.
    pub fn encode(&self, page: &mut Vec<u8>) -> (result: DevonResult<()>)
        ensures
            result is Ok <==> old(page)@.len() >= 64 && self.encodable(),
            result is Ok ==> final(page)@ == self.slot_bytes(old(page)@.len()),
            result matches Err(error) ==> error.kind_of() == ErrorKind::InvalidArgument
                && final(page)@ == old(page)@,
    {
        if page.len() < HEADER_LEN {
            return Err(invalid_argument("superblock page must be at least 64 bytes"));
        }
        if !valid_page_size(self.page_size) {
            return Err(
                invalid_argument(
                    with_number(
                        "page size ",
                        self.page_size as u64,
                        " must be a power of two between 4096 and 65536 bytes",
                    ).as_str(),
                ),
            );
        }
        if self.min_reader_version > self.format_version {
            let head: String = with_number(
                "minimum reader version ",
                self.min_reader_version as u64,
                " cannot exceed format version ",
            );
            return Err(
                invalid_argument(
                    with_number(head.as_str(), self.format_version as u64, "").as_str(),
                ),
            );
        }
        let mut out: Vec<u8> = Vec::new();
        push_magic(&mut out);
        put_le(&mut out, self.format_version as u64, 4);
        put_le(&mut out, self.min_reader_version as u64, 4);
        put_le(&mut out, self.feature_flags, 8);
        put_le(&mut out, self.page_size as u64, 4);
        push_id(&mut out, &self.db_id);
        put_le(&mut out, self.checkpoint_lsn, 8);
        put_le(&mut out, self.catalog_root, 8);
        assert(out@ =~= self.checked_bytes());
        let checksum: u32 = crc32c(out.as_slice());
        put_le(&mut out, checksum as u64, 4);
        proof {
            self.lemma_header_layout();
        }
        let len: usize = page.len();
        while out.len() < len
            invariant
                64 <= out@.len() <= len,
                out@ == self.header_bytes() + Seq::new((out@.len() - 64) as nat, |i: int| 0u8),
            decreases len - out@.len(),
        {
            let ghost before = out@;
            out.push(0);
            assert(out@ =~= self.header_bytes() + Seq::new((out@.len() - 64) as nat, |i: int| 0u8));
        }
        *page = out;
        Ok(())
    }

    /// Reads and validates a header with this build's flag masks.
    pub fn decode(page: &[u8]) -> (result: DevonResult<Superblock>)
        ensures
            decode_outcome(page@, SUPPORTED_FLAG_MASK, READ_SAFE_FLAG_MASK, result),
    {
        Superblock::decode_with_masks(page, SUPPORTED_FLAG_MASK, READ_SAFE_FLAG_MASK)
    }

    /// Reads and validates a header: length, magic, checksum, then the
    /// fields against the given flag masks.
    pub fn decode_with_masks(page: &[u8], supported: u64, read_safe: u64) -> (result: DevonResult<
        Superblock,
    >)
        ensures
            decode_outcome(page@, supported, read_safe, result),
    {
        if page.len() < HEADER_LEN {
            return Err(corrupt("superblock page is shorter than 64 bytes"));
        }
        if !has_magic(page) {
            return Err(corrupt("invalid superblock magic"));
        }
        let expected: u64 = get_le(page, CHECKSUM_OFFSET, 4);
        let actual: u32 = crc32c(slice_subrange(page, 0, CHECKSUM_OFFSET));
        if actual as u64 != expected {
            return Err(corrupt("superblock checksum does not match"));
        }
        let superblock = Superblock {
            format_version: read_u32(page, 8),
            min_reader_version: read_u32(page, 12),
            feature_flags: get_le(page, 16, 8),
            page_size: read_u32(page, 24),
            db_id: read_db_id(page),
            checkpoint_lsn: get_le(page, 44, 8),
            catalog_root: get_le(page, 52, 8),
        };
        assert(superblock.read_from(page@));
        match superblock.validate_decoded(supported, read_safe) {
            Ok(()) => Ok(superblock),
            Err(error) => Err(error),
        }
    }

    /// Whether this file may only be opened read-only: it sets a read-safe
    /// flag that this build does not support.
    #[must_use]
    pub fn requires_read_only(&self) -> (confined: bool)
        ensures
            confined == self.confined_to_reading(),
    {
        self.feature_flags & READ_SAFE_FLAG_MASK & !SUPPORTED_FLAG_MASK != 0
    }

    fn validate_decoded(&self, supported: u64, read_safe: u64) -> (result: DevonResult<()>)
        ensures
            match result {
                Ok(()) => self.field_refusal(supported, read_safe) is None,
                Err(error) => {
                    &&& self.field_refusal(supported, read_safe) == Some(error.kind_of())
                    &&& error is VersionMismatch ==> error == self.version_mismatch()
                },
            },
    {
        if self.min_reader_version > SUPPORTED_FORMAT_VERSION {
            return Err(
                DevonError::VersionMismatch {
                    file_version: self.format_version,
                    min_reader_version: self.min_reader_version,
                    supported: SUPPORTED_FORMAT_VERSION,
                },
            );
        }
        if self.feature_flags & !(read_safe | supported) != 0 {
            return Err(
                DevonError::VersionMismatch {
                    file_version: self.format_version,
                    min_reader_version: self.min_reader_version,
                    supported: SUPPORTED_FORMAT_VERSION,
                },
            );
        }
        if !valid_page_size(self.page_size) {
            return Err(corrupt("invalid page size in superblock"));
        }
        Ok(())
    }

    /// The version mismatch that names this header's versions.
    pub open spec fn version_mismatch(self) -> DevonError {
        DevonError::VersionMismatch {
            file_version: self.format_version,
            min_reader_version: self.min_reader_version,
            supported: SUPPORTED_FORMAT_VERSION,
        }
    }

    /// Where each field of a header stands.
    pub proof fn lemma_header_layout(self)
        ensures
            self.checked_bytes().len() == 60,
            self.header_bytes().len() == 64,
            self.header_bytes().subrange(0, 60) == self.checked_bytes(),
            self.header_bytes().subrange(0, 8) == magic(),
            self.header_bytes().subrange(8, 12) == bytes::le_bytes(self.format_version as nat, 4),
            self.header_bytes().subrange(12, 16) == bytes::le_bytes(self.min_reader_version as nat, 4),
            self.header_bytes().subrange(16, 24) == bytes::le_bytes(self.feature_flags as nat, 8),
            self.header_bytes().subrange(24, 28) == bytes::le_bytes(self.page_size as nat, 4),
            self.header_bytes().subrange(28, 44) == self.db_id@,
            self.header_bytes().subrange(44, 52) == bytes::le_bytes(self.checkpoint_lsn as nat, 8),
            self.header_bytes().subrange(52, 60) == bytes::le_bytes(self.catalog_root as nat, 8),
            self.header_bytes().subrange(60, 64) == bytes::le_bytes(
                checksum::crc32c_of(self.checked_bytes()) as nat,
                4,
            ),
    {
        let header = self.header_bytes();
        bytes::lemma_le_bytes_len(self.format_version as nat, 4);
        bytes::lemma_le_bytes_len(self.min_reader_version as nat, 4);
        bytes::lemma_le_bytes_len(self.feature_flags as nat, 8);
        bytes::lemma_le_bytes_len(self.page_size as nat, 4);
        bytes::lemma_le_bytes_len(self.checkpoint_lsn as nat, 8);
        bytes::lemma_le_bytes_len(self.catalog_root as nat, 8);
        bytes::lemma_le_bytes_len(checksum::crc32c_of(self.checked_bytes()) as nat, 4);
        assert(self.db_id@.len() == 16);
        assert(header.subrange(0, 60) =~= self.checked_bytes());
        assert(header.subrange(0, 8) =~= magic());
        assert(header.subrange(8, 12) =~= bytes::le_bytes(self.format_version as nat, 4));
        assert(header.subrange(12, 16) =~= bytes::le_bytes(self.min_reader_version as nat, 4));
        assert(header.subrange(16, 24) =~= bytes::le_bytes(self.feature_flags as nat, 8));
        assert(header.subrange(24, 28) =~= bytes::le_bytes(self.page_size as nat, 4));
        assert(header.subrange(28, 44) =~= self.db_id@);
        assert(header.subrange(44, 52) =~= bytes::le_bytes(self.checkpoint_lsn as nat, 8));
        assert(header.subrange(52, 60) =~= bytes::le_bytes(self.catalog_root as nat, 8));
        assert(header.subrange(60, 64) =~= bytes::le_bytes(checksum::crc32c_of(self.checked_bytes()) as nat, 4));
    }
}

/// Why a slot is refused before its fields are looked at.
pub open spec fn frame_refused(page: Seq<u8>) -> bool {
    ||| page.len() < 64
    ||| page.subrange(0, 8) != magic()
    ||| checksum::crc32c_of(page.subrange(0, 60)) != bytes::le_at(page, 60, 4)
}

/// What decoding `page` must answer.
pub open spec fn decode_outcome(
    page: Seq<u8>,
    supported: u64,
    read_safe: u64,
    result: DevonResult<Superblock>,
) -> bool {
    match result {
        Ok(superblock) => {
            &&& !frame_refused(page)
            &&& superblock.read_from(page)
            &&& superblock.field_refusal(supported, read_safe) is None
        },
        Err(error) => {
            ||| frame_refused(page) && error.kind_of() == ErrorKind::Corrupt
            ||| {
                &&& !frame_refused(page)
                &&& exists|superblock: Superblock| #[trigger]
                    superblock.read_from(page) && superblock.field_refusal(supported, read_safe)
                        == Some(error.kind_of()) && (error is VersionMismatch ==> error
                        == superblock.version_mismatch())
            }
        },
    }
}

/// A single changed byte of a header is refused: where a header's magic and checksum hold, they do
/// not once any of its 64 bytes is another.
pub proof fn law_changed_header_byte_is_refused(page: Seq<u8>, i: int, byte: u8)
    requires
        !frame_refused(page),
        0 <= i < 64,
        page[i] != byte,
    ensures
        frame_refused(page.update(i, byte)),
{
    let other = page.update(i, byte);
    let covered = page.subrange(0, 60);
    let stored = page.subrange(60, 64);
    if i < 60 {
        checksum::law_changed_byte_is_noticed(covered, i, byte);
        assert(other.subrange(0, 60) =~= covered.update(i, byte));
        assert(other.subrange(60, 64) =~= stored);
    } else {
        assert(other.subrange(0, 60) =~= covered);
        bytes::lemma_le_bytes_of_value(stored);
        bytes::lemma_le_bytes_of_value(other.subrange(60, 64));
        assert(other.subrange(60, 64)[i - 60] != stored[i - 60]);
    }
}

/// A slot that was written decodes to the header that was written, unless
/// its own fields are refused.
pub proof fn law_slot_round_trip(superblock: Superblock, len: nat)
    requires
        len >= 64,
    ensures
        !frame_refused(superblock.slot_bytes(len)),
        superblock.read_from(superblock.slot_bytes(len)),
        forall|other: Superblock| #[trigger]
            other.read_from(superblock.slot_bytes(len)) ==> {
                &&& other.format_version == superblock.format_version
                &&& other.min_reader_version == superblock.min_reader_version
                &&& other.feature_flags == superblock.feature_flags
                &&& other.page_size == superblock.page_size
                &&& other.db_id@ == superblock.db_id@
                &&& other.checkpoint_lsn == superblock.checkpoint_lsn
                &&& other.catalog_root == superblock.catalog_root
            },
{
    let page = superblock.slot_bytes(len);
    let header = superblock.header_bytes();
    superblock.lemma_header_layout();
    bytes::lemma_radix_values();
    bytes::lemma_le_round_trip(superblock.format_version as nat, 4);
    bytes::lemma_le_round_trip(superblock.min_reader_version as nat, 4);
    bytes::lemma_le_round_trip(superblock.feature_flags as nat, 8);
    bytes::lemma_le_round_trip(superblock.page_size as nat, 4);
    bytes::lemma_le_round_trip(superblock.checkpoint_lsn as nat, 8);
    bytes::lemma_le_round_trip(superblock.catalog_root as nat, 8);
    bytes::lemma_le_round_trip(checksum::crc32c_of(superblock.checked_bytes()) as nat, 4);
    assert(page.subrange(0, 8) =~= header.subrange(0, 8));
    assert(page.subrange(0, 60) =~= header.subrange(0, 60));
    assert(page.subrange(8, 12) =~= header.subrange(8, 12));
    assert(page.subrange(12, 16) =~= header.subrange(12, 16));
    assert(page.subrange(16, 24) =~= header.subrange(16, 24));
    assert(page.subrange(24, 28) =~= header.subrange(24, 28));
    assert(page.subrange(28, 44) =~= header.subrange(28, 44));
    assert(page.subrange(44, 52) =~= header.subrange(44, 52));
    assert(page.subrange(52, 60) =~= header.subrange(52, 60));
    assert(page.subrange(60, 64) =~= header.subrange(60, 64));
}

/// Picks the slot to trust: a version mismatch in either slot wins, then the
/// valid slot with the higher checkpoint LSN, the first on a tie.
pub fn choose_authoritative(
    a: DevonResult<Superblock>,
    b: DevonResult<Superblock>,
) -> (result: DevonResult<Superblock>)
    ensures
        result == authoritative(a, b),
{
    match a {
        Err(first) => match first {
            DevonError::VersionMismatch { .. } => Err(first),
            _ => match b {
                Ok(second) => Ok(second),
                Err(second) => match second {
                    DevonError::VersionMismatch { .. } => Err(second),
                    _ => Err(first),
                },
            },
        },
        Ok(first) => match b {
            Ok(second) => if second.checkpoint_lsn > first.checkpoint_lsn {
                Ok(second)
            } else {
                Ok(first)
            },
            Err(second) => match second {
                DevonError::VersionMismatch { .. } => Err(second),
                _ => Ok(first),
            },
        },
    }
}

/// The slot to trust.
pub open spec fn authoritative(
    a: DevonResult<Superblock>,
    b: DevonResult<Superblock>,
) -> DevonResult<Superblock> {
    if a matches Err(error) && error is VersionMismatch {
        a
    } else if b matches Err(error) && error is VersionMismatch {
        b
    } else if a is Err {
        if b is Ok {
            b
        } else {
            a
        }
    } else if b matches Ok(second) && a matches Ok(first) && second.checkpoint_lsn
        > first.checkpoint_lsn {
        b
    } else {
        a
    }
}

/// Whether `page_size` is a power of two between 4096 and 65536.
pub fn valid_page_size(page_size: u32) -> (valid: bool)
    ensures
        valid == is_page_size(page_size),
{
    page_size == 4096 || page_size == 8192 || page_size == 16384 || page_size == 32768 || page_size
        == 65536
}

fn push_magic(out: &mut Vec<u8>)
    ensures
        final(out)@ == old(out)@ + magic(),
{
    out.push(0x44);
    out.push(0x45);
    out.push(0x56);
    out.push(0x4f);
    out.push(0x4e);
    out.push(0x44);
    out.push(0x42);
    out.push(0);
    assert(out@ =~= old(out)@ + magic());
}

fn has_magic(page: &[u8]) -> (has: bool)
    requires
        page@.len() >= 8,
    ensures
        has == (page@.subrange(0, 8) == magic()),
{
    let has: bool = page[0] == 0x44 && page[1] == 0x45 && page[2] == 0x56 && page[3] == 0x4f
        && page[4] == 0x4e && page[5] == 0x44 && page[6] == 0x42 && page[7] == 0;
    proof {
        let head = page@.subrange(0, 8);
        if has {
            assert(head =~= magic());
        } else if head == magic() {
            assert(head[0] == magic()[0] && head[1] == magic()[1] && head[2] == magic()[2]
                && head[3] == magic()[3] && head[4] == magic()[4] && head[5] == magic()[5]
                && head[6] == magic()[6] && head[7] == magic()[7]);
        }
    }
    has
}

fn push_id(out: &mut Vec<u8>, id: &[u8; 16])
    ensures
        final(out)@ == old(out)@ + id@,
{
    let mut i: usize = 0;
    while i < 16
        invariant
            i <= 16,
            out@ == old(out)@ + id@.subrange(0, i as int),
        decreases 16 - i,
    {
        out.push(id[i]);
        i += 1;
        assert(out@ =~= old(out)@ + id@.subrange(0, i as int));
    }
    assert(id@.subrange(0, 16) =~= id@);
}

fn read_u32(page: &[u8], offset: usize) -> (value: u32)
    requires
        offset + 4 <= page@.len(),
    ensures
        value == bytes::le_at(page@, offset as int, 4),
{
    let value: u64 = get_le(page, offset, 4);
    proof {
        bytes::lemma_radix_values();
    }
    value as u32
}

fn read_db_id(page: &[u8]) -> (id: [u8; 16])
    requires
        page@.len() >= 44,
    ensures
        id@ == page@.subrange(28, 44),
{
    let mut id: [u8; 16] = [0u8;16];
    let mut i: usize = 0;
    while i < 16
        invariant
            i <= 16,
            page@.len() >= 44,
            forall|j: int| 0 <= j < i ==> id@[j] == page@[28 + j],
        decreases 16 - i,
    {
        id[i] = page[28 + i];
        i += 1;
    }
    assert(id@ =~= page@.subrange(28, 44));
    id
}

} // verus!
