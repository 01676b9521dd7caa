use crc32c::crc32c;
use devondb_storage::error::{DevonError, DevonResult};
use devondb_storage::superblock::{
    choose_authoritative, Superblock, CHECKSUM_OFFSET, HEADER_LEN, SUPPORTED_FORMAT_VERSION, GEO_COLUMNS_FLAG, HNSW_INDEX_FLAG, HNSW_MUTATION_WAL_FLAG, MULTIPROCESS_COORDINATION_FLAG, ONTOLOGY_FLAG, PINNED_PLANS_FLAG, READ_SAFE_FLAG_MASK, REL_TOMBSTONE_WAL_FLAG, RESERVED_READ_SAFE_FLAG, SCALAR_TYPES_V2_FLAG, SUPPORTED_FLAG_MASK,
};

#[test]
fn mutation_fence_rejects_old_mask_even_at_unchanged_checkpoint_lsn() {
    let mut header = sample_superblock(7);
    let old = SUPPORTED_FLAG_MASK & !HNSW_MUTATION_WAL_FLAG;
    assert!(
        Superblock::decode_with_masks(&encoded(&header), old, READ_SAFE_FLAG_MASK)
            .is_ok()
    );
    header.feature_flags |= HNSW_MUTATION_WAL_FLAG;
    let bytes = encoded(&header);
    assert!(Superblock::decode(&bytes).is_ok());
    assert!(matches!(
        Superblock::decode_with_masks(&bytes, old, READ_SAFE_FLAG_MASK),
        Err(DevonError::VersionMismatch { .. })
    ));
    header.feature_flags &= !HNSW_MUTATION_WAL_FLAG;
    assert!(
        Superblock::decode_with_masks(&encoded(&header), old, READ_SAFE_FLAG_MASK)
            .is_ok()
    );
}

fn sample_superblock(checkpoint_lsn: u64) -> Superblock {
    Superblock {
        format_version: SUPPORTED_FORMAT_VERSION,
        min_reader_version: SUPPORTED_FORMAT_VERSION,
        feature_flags: 0,
        page_size: 4096,
        db_id: *b"0123456789abcdef",
        checkpoint_lsn,
        catalog_root: 73,
    }
}

fn encoded(superblock: &Superblock) -> Vec<u8> {
    let mut page = vec![0xff; superblock.page_size as usize];
    superblock.encode(&mut page).unwrap();
    page
}

fn corrupt_result() -> DevonResult<Superblock> {
    Err(DevonError::Corrupt {
        context: "invalid slot".to_owned(),
    })
}

fn newer_format_result() -> DevonResult<Superblock> {
    let mut newer = sample_superblock(43);
    newer.format_version = SUPPORTED_FORMAT_VERSION + 1;
    newer.min_reader_version = SUPPORTED_FORMAT_VERSION + 1;
    Superblock::decode(&encoded(&newer))
}

#[test]
fn encode_decode_round_trip_and_zeroes_padding() {
    let expected = sample_superblock(42);
    let page = encoded(&expected);

    assert_eq!(Superblock::decode(&page).unwrap(), expected);
    assert!(page[HEADER_LEN..].iter().all(|byte| *byte == 0));
}

#[test]
fn bad_magic_is_corrupt() {
    let mut page = encoded(&sample_superblock(42));
    page[0] ^= 0xff;

    assert!(matches!(
        Superblock::decode(&page),
        Err(DevonError::Corrupt { .. })
    ));
}

#[test]
fn flipped_byte_is_corrupt() {
    let mut page = encoded(&sample_superblock(42));
    page[32] ^= 0xff;

    assert!(matches!(
        Superblock::decode(&page),
        Err(DevonError::Corrupt { .. })
    ));
}

#[test]
fn unsupported_min_reader_version_is_version_mismatch() {
    let mut page = encoded(&sample_superblock(42));
    let min_reader_version = SUPPORTED_FORMAT_VERSION + 1;
    page[12..16].copy_from_slice(&min_reader_version.to_le_bytes());
    let checksum = crc32c(&page[..CHECKSUM_OFFSET]);
    page[CHECKSUM_OFFSET..HEADER_LEN].copy_from_slice(&checksum.to_le_bytes());

    assert!(matches!(
        Superblock::decode(&page),
        Err(DevonError::VersionMismatch {
            file_version: SUPPORTED_FORMAT_VERSION,
            min_reader_version: version,
            supported: SUPPORTED_FORMAT_VERSION,
        }) if version == min_reader_version
    ));
}

#[test]
fn unknown_feature_flag_is_version_mismatch() {
    let mut flagged = sample_superblock(42);
    // Bit 11 is outside both masks (bit 10 is REL_TOMBSTONE_WAL and bit
    // 12 is the current reserved read-safe fixture slot).
    flagged.feature_flags = 1 << 11;

    assert!(matches!(
        Superblock::decode(&encoded(&flagged)),
        Err(DevonError::VersionMismatch {
            file_version: SUPPORTED_FORMAT_VERSION,
            min_reader_version: SUPPORTED_FORMAT_VERSION,
            supported: SUPPORTED_FORMAT_VERSION,
        })
    ));
}

#[test]
fn rel_tombstone_wal_flag_is_supported_and_not_read_safe() {
    let bit_10: u64 = 1 << 10;
    assert_eq!(REL_TOMBSTONE_WAL_FLAG, bit_10);
    assert_eq!(SUPPORTED_FLAG_MASK & bit_10, bit_10);
    assert_eq!(READ_SAFE_FLAG_MASK & bit_10, 0);

    let mut flagged = sample_superblock(42);
    flagged.feature_flags = REL_TOMBSTONE_WAL_FLAG;
    let decoded = Superblock::decode(&encoded(&flagged)).unwrap();
    assert!(!decoded.requires_read_only());
}

#[test]
fn supported_not_read_safe_flag_decodes_writable() {
    let mut flagged = sample_superblock(42);
    flagged.feature_flags = GEO_COLUMNS_FLAG
        | SCALAR_TYPES_V2_FLAG
        | MULTIPROCESS_COORDINATION_FLAG;

    let decoded = Superblock::decode(&encoded(&flagged)).unwrap();
    assert!(!decoded.requires_read_only());
}

#[test]
fn multiprocess_flag_survives_superblock_round_trip() {
    let mut flagged = sample_superblock(42);
    flagged.feature_flags = MULTIPROCESS_COORDINATION_FLAG;

    let decoded = Superblock::decode(&encoded(&flagged)).unwrap();

    assert_eq!(decoded.feature_flags, MULTIPROCESS_COORDINATION_FLAG);
    assert!(!decoded.requires_read_only());
}

#[test]
fn read_safe_unsupported_flag_decodes_but_requires_read_only() {
    let mut flagged = sample_superblock(42);
    flagged.feature_flags = RESERVED_READ_SAFE_FLAG;

    let decoded = Superblock::decode(&encoded(&flagged)).unwrap();
    assert!(decoded.requires_read_only());
    // Fully supported flags never force read-only in this build.
    let mut supported = sample_superblock(42);
    supported.feature_flags =
        HNSW_INDEX_FLAG | ONTOLOGY_FLAG | PINNED_PLANS_FLAG;
    assert!(!supported.requires_read_only());
    assert!(!sample_superblock(42).requires_read_only());
}

#[test]
fn encode_rejects_min_reader_version_above_format_version() {
    let mut superblock = sample_superblock(42);
    superblock.min_reader_version = superblock.format_version + 1;
    let mut page = vec![0_u8; superblock.page_size as usize];

    assert!(matches!(
        superblock.encode(&mut page),
        Err(DevonError::InvalidArgument { .. })
    ));
}

#[test]
fn arbitration_picks_higher_checkpoint_lsn() {
    let lower = sample_superblock(41);
    let higher = sample_superblock(42);

    assert_eq!(
        choose_authoritative(Ok(lower), Ok(higher.clone())).unwrap(),
        higher
    );
}

#[test]
fn arbitration_uses_valid_slot_when_other_is_corrupt() {
    let valid = sample_superblock(42);

    assert_eq!(
        choose_authoritative(corrupt_result(), Ok(valid.clone())).unwrap(),
        valid
    );
}

#[test]
fn arbitration_rejects_newer_format_instead_of_using_stale_valid_slot() {
    let valid = sample_superblock(42);

    assert!(matches!(
        choose_authoritative(Ok(valid), newer_format_result()),
        Err(DevonError::VersionMismatch { .. })
    ));
}

#[test]
fn arbitration_prefers_version_mismatch_over_corrupt_in_both_orders() {
    assert!(matches!(
        choose_authoritative(newer_format_result(), corrupt_result()),
        Err(DevonError::VersionMismatch { .. })
    ));
    assert!(matches!(
        choose_authoritative(corrupt_result(), newer_format_result()),
        Err(DevonError::VersionMismatch { .. })
    ));
}

#[test]
fn any_other_header_byte_is_refused() {
    let page = encoded(&sample_superblock(9));
    for at in 0..HEADER_LEN {
        for change in [1_u8, 0x80, 0xff] {
            let mut other = page.clone();
            other[at] ^= change;
            assert!(
                matches!(Superblock::decode(&other), Err(DevonError::Corrupt { .. })),
                "byte {at}"
            );
        }
    }
}
