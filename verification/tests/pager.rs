use std::sync::Arc;

use devondb_storage::budget::MemoryBudget;
use devondb_storage::error::{DevonError, ErrorKind};
use devondb_storage::free_pages::SuperblockExtension;
use devondb_storage::pager::cache::{pins_of, PageCache, PageRef, FRAME_OVERHEAD};
use devondb_storage::pager::space::Action;
use devondb_storage::pager::{
    apply_failed_flip_floor, generate_db_id, identifier_from, FreeStateForTest, Pager,
};
use devondb_storage::superblock::{Superblock, DML_WAL_FLAG, FREE_PAGES_FLAG};

const PAGE_SIZE: u32 = 4096;
const DB_ID: [u8; 16] = *b"pager-test-db-id";

fn frame_charge() -> usize {
    PAGE_SIZE as usize + FRAME_OVERHEAD
}

fn unlimited() -> MemoryBudget {
    MemoryBudget::new(usize::MAX)
}

/// Does to the bytes of a file what the pager asks for.
fn perform(file: &mut Vec<u8>, actions: Vec<Action>) {
    let size = PAGE_SIZE as usize;
    for action in actions {
        match action {
            Action::Write { page, data } => {
                let from = page as usize * size;
                if file.len() < from + size {
                    file.resize(from + size, 0);
                }
                file[from..from + size].copy_from_slice(&data);
            }
            Action::Sync => {}
            Action::Truncate { pages } => file.truncate(pages as usize * size),
        }
    }
}

fn created() -> (Pager, Vec<u8>) {
    let mut pager = Pager::create(PAGE_SIZE, DB_ID).unwrap();
    let mut file = Vec::new();
    perform(&mut file, pager.take_actions());
    (pager, file)
}

fn populate_pages(pager: &mut Pager, count: usize, budget: &mut MemoryBudget) -> Vec<u64> {
    (0..count)
        .map(|index| {
            let page_id = pager.allocate_page(budget).unwrap();
            let byte = u8::try_from(index + 1).unwrap();
            pager
                .write_page(page_id, &vec![byte; PAGE_SIZE as usize], budget)
                .unwrap();
            page_id
        })
        .collect()
}

fn same_buffer(a: &PageRef, b: &PageRef) -> bool {
    Arc::ptr_eq(a.shared(), b.shared())
}

#[test]
fn flag_only_publication_survives_reopen_without_lsn_advance() {
    let (mut pager, mut file) = created();
    let before = pager.superblock();

    let flags = before.feature_flags | DML_WAL_FLAG;
    pager.commit_feature_flags(flags).unwrap();
    perform(&mut file, pager.take_actions());
    let after = pager.superblock();
    assert_eq!(after.feature_flags, flags);
    assert_eq!(after.checkpoint_lsn, before.checkpoint_lsn);
    // Both slots carry the new flags, so the equal-LSN slot-0 tie-break
    // cannot resurrect the old value on reopen.
    for slot in 0_usize..2 {
        let from = slot * PAGE_SIZE as usize;
        let decoded = Superblock::decode(&file[from..from + PAGE_SIZE as usize]).unwrap();
        assert_eq!(decoded.feature_flags, flags, "slot {slot}");
    }
    drop(pager);

    let mut reopened = Pager::open(&file).unwrap();
    assert_eq!(reopened.superblock().feature_flags, flags);

    reopened.commit_feature_flags(before.feature_flags).unwrap();
    assert_eq!(reopened.superblock().feature_flags, before.feature_flags);
}

#[test]
fn cache_pins_block_eviction() {
    let mut budget = MemoryBudget::new(frame_charge() * 9);
    let mut pager = created().0.with_budget();
    let page_ids = populate_pages(&mut pager, 10, &mut budget);
    let pinned = pager.read_page_ref(page_ids[0], &mut budget).unwrap();
    for page_id in &page_ids[1..9] {
        drop(pager.read_page_ref(*page_id, &mut budget).unwrap());
    }

    drop(pager.read_page_ref(page_ids[9], &mut budget).unwrap());

    assert!(pager.is_cached(page_ids[0]));
    assert!(!pager.is_cached(page_ids[1]));
    assert!(same_buffer(
        &pinned,
        &pager.read_page_ref(page_ids[0], &mut budget).unwrap()
    ));
    assert_eq!(pager.cached_pages(), 9);
    assert_eq!(budget.charged(), frame_charge() * 9);
}

#[test]
fn cache_eviction_at_budget_uses_clock_second_chance() {
    let mut budget = MemoryBudget::new(frame_charge() * 9);
    let mut pager = created().0.with_budget();
    let page_ids = populate_pages(&mut pager, 10, &mut budget);
    for page_id in &page_ids[..9] {
        drop(pager.read_page_ref(*page_id, &mut budget).unwrap());
    }

    drop(pager.read_page_ref(page_ids[9], &mut budget).unwrap());

    assert!(!pager.is_cached(page_ids[0]));
    assert!(pager.is_cached(page_ids[9]));
    assert_eq!(pager.cached_pages(), 9);
    assert_eq!(budget.charged(), frame_charge() * 9);
}

#[test]
fn cache_uncharged_fallback_works_at_the_frame_floor() {
    let mut budget = MemoryBudget::new(frame_charge() * 8);
    let mut pager = created().0.with_budget();
    let page_ids = populate_pages(&mut pager, 9, &mut budget);
    let pinned = page_ids[..8]
        .iter()
        .map(|page_id| pager.read_page_ref(*page_id, &mut budget).unwrap())
        .collect::<Vec<_>>();

    let first = pager.read_page_ref(page_ids[8], &mut budget).unwrap();
    let second = pager.read_page_ref(page_ids[8], &mut budget).unwrap();

    assert!(first.bytes().iter().all(|byte| *byte == 9));
    assert!(!same_buffer(&first, &second));
    assert!(!pager.is_cached(page_ids[8]));
    assert_eq!(pager.cached_pages(), 8);
    assert_eq!(budget.charged(), frame_charge() * 8);
    assert_eq!(pinned.len(), 8);
}

#[test]
fn cache_write_invalidates_the_cached_frame() {
    let mut budget = MemoryBudget::new(frame_charge() * 9);
    let mut pager = created().0.with_budget();
    let page_id = populate_pages(&mut pager, 1, &mut budget)[0];
    let stale_pin = pager.read_page_ref(page_id, &mut budget).unwrap();
    assert_eq!(budget.charged(), frame_charge());

    pager
        .write_page(page_id, &vec![0xa5; PAGE_SIZE as usize], &mut budget)
        .unwrap();

    assert!(!pager.is_cached(page_id));
    assert_eq!(budget.charged(), 0);
    assert!(stale_pin.bytes().iter().all(|byte| *byte == 1));
    assert!(pager
        .read_page_ref(page_id, &mut budget)
        .unwrap()
        .bytes()
        .iter()
        .all(|byte| *byte == 0xa5));
}

#[test]
fn create_then_open_round_trips_superblock() {
    let (pager, file) = created();
    let expected = pager.superblock();
    drop(pager);

    let reopened = Pager::open(&file).unwrap();
    assert_eq!(reopened.superblock(), expected);
}

#[test]
fn generated_database_ids_differ() {
    assert_ne!(generate_db_id().unwrap(), generate_db_id().unwrap());
}

#[test]
fn open_uses_slot_one_when_slot_zero_is_zeroed() {
    let (pager, mut file) = created();
    let expected = pager.superblock();
    drop(pager);

    file[..PAGE_SIZE as usize].fill(0);

    let reopened = Pager::open(&file).unwrap();
    assert_eq!(reopened.superblock(), expected);
    assert_eq!(reopened.authoritative_slot(), 1);
}

#[test]
fn page_write_then_read_round_trips_and_checks_size() {
    let mut budget = unlimited();
    let (mut pager, _) = created();
    let page = vec![0x5a; PAGE_SIZE as usize];

    pager.write_page(2, &page, &mut budget).unwrap();
    assert_eq!(pager.read_page(2, &mut budget).unwrap(), page);
    assert!(matches!(
        pager.write_page(3, &[0_u8; 12], &mut budget),
        Err(DevonError::InvalidArgument { .. })
    ));
    assert!(matches!(
        pager.read_page(3, &mut budget),
        Err(DevonError::InvalidArgument { .. })
    ));
}

#[test]
fn sync_after_page_write_succeeds() {
    let mut budget = unlimited();
    let (mut pager, _) = created();

    pager
        .write_page(2, &vec![0x5a; PAGE_SIZE as usize], &mut budget)
        .unwrap();
    pager.sync();
    assert_eq!(pager.take_actions().last(), Some(&Action::Sync));
}

#[test]
fn open_rejects_file_truncated_to_one_and_a_half_pages() {
    let (_, mut file) = created();
    let truncated_len = (PAGE_SIZE + PAGE_SIZE / 2) as usize;
    file.truncate(truncated_len);

    let error = Pager::open(&file).err().unwrap();
    let DevonError::Corrupt { context } = error else {
        panic!("expected corruption error, got {error:?}");
    };
    assert!(context.contains(&truncated_len.to_string()));
}

#[test]
fn open_rejects_one_page_file() {
    let (_, mut file) = created();
    let truncated_len = PAGE_SIZE as usize;
    file.truncate(truncated_len);

    let error = Pager::open(&file).err().unwrap();
    let DevonError::Corrupt { context } = error else {
        panic!("expected corruption error, got {error:?}");
    };
    assert!(context.contains(&truncated_len.to_string()));
}

#[test]
fn reserved_pages_are_rejected() {
    let mut budget = unlimited();
    let (mut pager, _) = created();
    let page = vec![0_u8; PAGE_SIZE as usize];

    for page_id in [0, 1] {
        assert!(matches!(
            pager.read_page(page_id, &mut budget),
            Err(DevonError::InvalidArgument { .. })
        ));
        assert!(matches!(
            pager.write_page(page_id, &page, &mut budget),
            Err(DevonError::InvalidArgument { .. })
        ));
    }
}

#[test]
fn allocate_page_returns_increasing_ids_and_grows_file() {
    let mut budget = unlimited();
    let (mut pager, mut file) = created();

    assert_eq!(pager.allocate_page(&mut budget).unwrap(), 2);
    assert_eq!(pager.allocate_page(&mut budget).unwrap(), 3);
    perform(&mut file, pager.take_actions());
    assert_eq!(file.len(), PAGE_SIZE as usize * 4);
    assert_eq!(
        pager.read_page(2, &mut budget).unwrap(),
        vec![0_u8; PAGE_SIZE as usize]
    );
}

#[test]
fn superblock_commits_alternate_slots_and_survive_reopen() {
    let (mut pager, mut file) = created();
    let mut first = pager.superblock();
    first.checkpoint_lsn = 10;
    first.catalog_root = 2;
    pager.commit_superblock(first.clone()).unwrap();
    assert_eq!(pager.authoritative_slot(), 1);

    let mut second = first.clone();
    second.checkpoint_lsn = 11;
    second.catalog_root = 3;
    pager.commit_superblock(second.clone()).unwrap();
    assert_eq!(pager.authoritative_slot(), 0);
    perform(&mut file, pager.take_actions());
    drop(pager);

    let size = PAGE_SIZE as usize;
    assert_eq!(Superblock::decode(&file[..size]).unwrap(), second);
    assert_eq!(Superblock::decode(&file[size..2 * size]).unwrap(), first);

    let reopened = Pager::open(&file).unwrap();
    assert_eq!(reopened.superblock(), second);
    assert_eq!(reopened.authoritative_slot(), 0);
}

#[test]
fn concurrent_reads_return_each_pages_exact_bytes() {
    let mut budget = unlimited();
    let (mut pager, _) = created();
    let page_ids: Vec<u64> = (0..8)
        .map(|_| pager.allocate_page(&mut budget).unwrap())
        .collect();
    for page_id in &page_ids {
        let fill = u8::try_from(*page_id).unwrap();
        pager
            .write_page(*page_id, &vec![fill; PAGE_SIZE as usize], &mut budget)
            .unwrap();
    }

    for _ in 0..50 {
        for page_id in &page_ids {
            let page = pager.read_page(*page_id, &mut budget).unwrap();
            let expected = u8::try_from(*page_id).unwrap();
            assert_eq!(page.len(), PAGE_SIZE as usize);
            assert!(page.iter().all(|byte| *byte == expected));
        }
    }
}

#[test]
fn cache_concurrent_readers_return_exact_page_bytes() {
    let mut budget = MemoryBudget::new(frame_charge() * 9);
    let mut pager = created().0.with_budget();
    let page_ids = populate_pages(&mut pager, 12, &mut budget);

    for _ in 0..25 {
        for (index, page_id) in page_ids.iter().enumerate() {
            let page = pager.read_page_ref(*page_id, &mut budget).unwrap();
            let expected = u8::try_from(index + 1).unwrap();
            assert!(page.bytes().iter().all(|byte| *byte == expected));
        }
    }

    assert!(budget.charged() <= budget.limit());
    assert!(pager.cached_pages() >= 8);
}

#[test]
fn retired_pages_are_handed_out_again_once_no_reader_is_older() {
    let mut budget = unlimited();
    let (mut pager, mut file) = created();
    let pages: Vec<u64> = (0..4)
        .map(|_| pager.allocate_page(&mut budget).unwrap())
        .collect();
    assert_eq!(pages, vec![2, 3, 4, 5]);
    pager.retire_pages(&vec![3, 4], 7, &mut budget).unwrap();
    assert!(pager.has_free_pages_ledger());
    let mut next = pager.superblock();
    next.checkpoint_lsn = 7;
    next.feature_flags |= FREE_PAGES_FLAG;
    pager.commit_superblock(next).unwrap();
    perform(&mut file, pager.take_actions());
    let grown = pager.page_count();

    // A reader of the state before the retirement still holds the pages.
    assert_eq!(pager.allocate_page(&mut budget).unwrap() as usize, grown);
    pager.raise_min_pin(8);
    assert_eq!(pager.min_pin(), 8);
    assert_eq!(pager.allocate_page(&mut budget).unwrap(), 3);
    assert_eq!(pager.allocate_page(&mut budget).unwrap(), 4);
    assert_eq!(pager.free_pages_session_reused(), 2);
    assert_eq!(
        pager.read_page(3, &mut budget).unwrap(),
        vec![0_u8; PAGE_SIZE as usize]
    );

    let mut reopened = Pager::open(&file).unwrap();
    let extension = reopened.free_pages_extension().unwrap();
    assert_eq!(extension.retired_total, 2);
    let ledger = reopened.free_pages_ledger_pages(&mut budget).unwrap();
    assert_eq!(ledger.len(), 1);
    let listed: Vec<u64> = ledger[0].1.entries.iter().map(|entry| entry.page_id).collect();
    assert_eq!(listed, vec![3, 4]);
    assert!(!reopened.free_pages_degraded());
}

#[test]
fn a_damaged_ledger_head_only_gives_up_reuse() {
    let mut budget = unlimited();
    let (mut pager, mut file) = created();
    for _ in 0..3 {
        pager.allocate_page(&mut budget).unwrap();
    }
    pager.retire_pages(&vec![3], 5, &mut budget).unwrap();
    let mut next = pager.superblock();
    next.checkpoint_lsn = 5;
    next.feature_flags |= FREE_PAGES_FLAG;
    pager.commit_superblock(next).unwrap();
    perform(&mut file, pager.take_actions());
    let size = PAGE_SIZE as usize;
    // The extension stands behind the header of the slot that counts.
    file[size + 64] ^= 0xff;
    let reopened = Pager::open(&file).unwrap();
    assert!(reopened.free_pages_degraded());
    assert_eq!(reopened.free_pages_extension(), None);
    assert!(!reopened.has_free_pages_ledger());
}

#[test]
fn commits_keep_identity_and_advance() {
    let (mut pager, _) = created();
    let current = pager.superblock();
    assert_eq!(
        pager.commit_superblock(current.clone()).unwrap_err().kind(),
        ErrorKind::InvalidArgument
    );
    let mut renamed = current.clone();
    renamed.checkpoint_lsn = 1;
    renamed.db_id = *b"another-db-ident";
    assert_eq!(
        pager.commit_superblock(renamed).unwrap_err().kind(),
        ErrorKind::InvalidArgument
    );
    let mut resized = current.clone();
    resized.checkpoint_lsn = 1;
    resized.page_size = 8192;
    assert_eq!(
        pager.commit_superblock(resized).unwrap_err().kind(),
        ErrorKind::InvalidArgument
    );
    assert_eq!(pager.superblock(), current);
    assert_eq!(
        Pager::create(4097, DB_ID).err().unwrap().kind(),
        ErrorKind::InvalidArgument
    );
}

#[test]
fn a_failed_flip_raises_the_floor() {
    let pending = SuperblockExtension {
        retire_ledger_head: 9,
        retire_ledger_tail: 9,
        retired_total: 12,
    };
    let mut state = FreeStateForTest {
        retired_total_floor: 5,
        pending_extension: Some(pending),
    };
    apply_failed_flip_floor(&mut state);
    assert_eq!(state.retired_total_floor, 12);
    assert_eq!(state.pending_extension, None);
    apply_failed_flip_floor(&mut state);
    assert_eq!(state.retired_total_floor, 12);
}

#[test]
fn an_identifier_needs_randomness() {
    assert_eq!(identifier_from(Ok(DB_ID)).unwrap(), DB_ID);
    let error = identifier_from(Err("no entropy".to_owned())).unwrap_err();
    assert_eq!(error.kind(), ErrorKind::Io);
    assert_eq!(
        error.text(),
        "failed to generate database identifier: no entropy"
    );
}

#[test]
fn shedding_and_releasing_give_charges_back() {
    let mut budget = MemoryBudget::new(frame_charge() * 20);
    let mut pager = created().0.with_budget();
    let page_ids = populate_pages(&mut pager, 12, &mut budget);
    for page_id in &page_ids {
        pager.read_page_ref(*page_id, &mut budget).unwrap();
    }
    assert_eq!(pager.cached_pages(), 12);
    assert_eq!(pager.page_read_count(), 12);
    assert!(!pager.shed_cache(0, &mut budget));
    assert!(pager.shed_cache(frame_charge(), &mut budget));
    assert_eq!(pager.cached_pages(), 11);
    assert_eq!(budget.charged(), frame_charge() * 11);
    assert_eq!(pager.cache_charged_bytes(), frame_charge() * 11);
    pager.release_cache(&mut budget);
    assert_eq!(budget.charged(), 0);
    assert_eq!(pager.cached_pages(), 0);
    assert_eq!(pager.page_read_count(), 12);
}

#[test]
fn written_features_are_noted_for_the_session() {
    let (mut pager, _) = created();
    assert!(!pager.has_written_zone_maps());
    assert!(!pager.has_written_column_encodings());
    pager.note_zone_maps_written();
    assert!(pager.has_written_zone_maps());
    assert!(!pager.has_written_column_encodings());
    pager.note_column_encodings_written();
    assert!(pager.has_written_zone_maps());
    assert!(pager.has_written_column_encodings());
}

#[test]
fn page_reads_are_counted_until_reset() {
    let (mut pager, _) = created();
    let mut budget = unlimited();
    let ids = populate_pages(&mut pager, 2, &mut budget);
    pager.reset_page_read_count();
    assert_eq!(pager.page_read_count(), 0);
    for id in &ids {
        pager.read_page(*id, &mut budget).unwrap();
    }
    assert_eq!(pager.page_read_count(), 2);
    pager.reset_page_read_count();
    assert_eq!(pager.page_read_count(), 0);
    assert_eq!(pager.free_pages_session_truncated(), 0);
}

#[test]
fn an_image_in_memory_opens_again() {
    let mut pager = Pager::create_memory_for_test(PAGE_SIZE, DB_ID).unwrap();
    let mut budget = unlimited();
    let ids = populate_pages(&mut pager, 3, &mut budget);
    let mut next = pager.superblock();
    next.checkpoint_lsn += 1;
    pager.commit_superblock(next).unwrap();
    let file = pager.image();
    assert_eq!(file.len(), (2 + ids.len()) * PAGE_SIZE as usize);
    let mut again = Pager::open_memory_for_test(&file).unwrap();
    assert_eq!(again.superblock(), pager.superblock());
    for (index, id) in ids.iter().enumerate() {
        let page = again.read_page(*id, &mut budget).unwrap();
        assert_eq!(page[0], u8::try_from(index + 1).unwrap());
    }
    assert!(Pager::create_memory_for_test(1000, DB_ID).is_err());
    assert!(Pager::open_memory_for_test(&Vec::new()).is_err());
}

#[test]
fn a_fresh_free_state_has_nothing_staged() {
    let state = FreeStateForTest::default();
    assert_eq!(state.retired_total_floor, 0);
    assert!(state.pending_extension.is_none());
}

/// Publishes what was retired, under the next sequence number.
fn publish(pager: &mut Pager, lsn: u64) {
    let mut next = pager.superblock();
    next.checkpoint_lsn = lsn;
    next.feature_flags |= FREE_PAGES_FLAG;
    pager.commit_superblock(next).unwrap();
}

#[test]
fn a_page_is_handed_out_once_between_two_retirements() {
    let mut budget = unlimited();
    let (mut pager, _) = created();
    let mut held: Vec<u64> = (0..6)
        .map(|_| pager.allocate_page(&mut budget).unwrap())
        .collect();
    for round in 1..6_u64 {
        let lsn = round * 10;
        let gone: Vec<u64> = held.drain(..2).collect();
        pager.retire_pages(&gone, lsn, &mut budget).unwrap();
        publish(&mut pager, lsn);
        pager.raise_min_pin(lsn + 1);
        for _ in 0..2 {
            let page = pager.allocate_page(&mut budget).unwrap();
            assert!(page >= 2);
            assert!(!held.contains(&page));
            held.push(page);
        }
    }
    assert!(pager.free_pages_session_reused() > 0);
}

#[test]
fn the_ledger_does_not_list_its_own_pages() {
    let mut budget = unlimited();
    let (mut pager, _) = created();
    let pages: Vec<u64> = (0..9)
        .map(|_| pager.allocate_page(&mut budget).unwrap())
        .collect();
    for (round, gone) in pages.chunks(3).enumerate() {
        let lsn = 10 * (round as u64 + 1);
        pager.raise_min_pin(lsn);
        pager.retire_pages(&gone.to_vec(), lsn, &mut budget).unwrap();
        publish(&mut pager, lsn);
        let ledger = pager.free_pages_ledger_pages(&mut budget).unwrap();
        let own: Vec<u64> = ledger.iter().map(|(id, _)| *id).collect();
        for (_, page) in &ledger {
            for entry in &page.entries[page.consumed_count as usize..] {
                assert!(!own.contains(&entry.page_id));
            }
        }
    }
}

fn cache_of(count: u64, budget: &mut MemoryBudget) -> PageCache {
    let mut cache = PageCache::new(PAGE_SIZE);
    for page_id in 0..count {
        assert!(cache.charge_after_reclaim(budget));
        cache.table.insert(page_id, PageRef::from_vec(vec![0]));
    }
    cache
}

#[test]
fn shedding_takes_the_frames_at_which_the_clock_stops() {
    let mut budget = unlimited();
    let mut cache = cache_of(12, &mut budget);
    // Every frame has its second chance: the second round takes the first.
    assert!(cache.shed_with(vec![false; 12], 1, &mut budget));
    assert!(!cache.table.contains(0));
    assert_eq!(cache.table.len(), 11);
    // The frame at the hand is pinned: the next one leaves.
    let mut pinned = vec![false; 11];
    pinned[0] = true;
    assert!(cache.shed_with(pinned, frame_charge(), &mut budget));
    assert!(cache.table.contains(1));
    assert!(!cache.table.contains(2));
    assert_eq!(cache.table.len(), 10);
    // One byte more than a frame takes two.
    assert!(cache.shed_with(vec![false; 10], frame_charge() + 1, &mut budget));
    assert_eq!(cache.table.len(), 8);
    assert_eq!(budget.charged(), 8 * frame_charge());
    assert!(!cache.shed_with(vec![true; 8], usize::MAX, &mut budget));
    assert_eq!(cache.table.len(), 8);
    assert!(cache.shed_with(vec![false; 8], usize::MAX, &mut budget));
    assert_eq!(cache.table.len(), 7);
    assert!(!cache.shed_with(vec![false; 7], usize::MAX, &mut budget));
    assert_eq!(budget.charged(), 7 * frame_charge());
}

#[test]
fn shedding_goes_down_to_the_floor_and_leaves_pinned_frames() {
    let mut budget = unlimited();
    let mut cache = cache_of(12, &mut budget);
    let pins: Vec<PageRef> = (0..9).map(|at| cache.table.peek(at).1).collect();
    assert!(cache.shed(usize::MAX, &mut budget));
    assert_eq!(cache.table.len(), 9);
    for page_id in 0..9 {
        assert!(cache.table.contains(page_id));
    }
    assert!(!cache.shed(1, &mut budget));
    drop(pins);
    assert!(cache.shed(usize::MAX, &mut budget));
    assert_eq!(cache.table.len(), 7);
    assert_eq!(budget.charged(), 7 * frame_charge());
}

#[test]
fn charging_for_a_frame_evicts_where_the_clock_stops() {
    let mut budget = MemoryBudget::new(9 * frame_charge());
    let mut cache = cache_of(9, &mut budget);
    let mut pinned = vec![false; 9];
    pinned[0] = true;
    assert!(cache.charge_with(pinned, &mut budget));
    assert!(cache.table.contains(0));
    assert!(!cache.table.contains(1));
    assert_eq!(cache.table.len(), 8);
    // The charge of the frame that left is that of the frame to come.
    assert_eq!(budget.charged(), 9 * frame_charge());
    assert!(!cache.charge_with(vec![true; 8], &mut budget));
    assert_eq!(cache.table.len(), 8);
    assert_eq!(budget.charged(), 9 * frame_charge());
}

#[test]
fn an_unpinned_frame_is_evicted() {
    let mut budget = unlimited();
    let mut cache = cache_of(9, &mut budget);
    let pin = cache.table.peek(0).1;
    assert!(cache.table.evict_one());
    assert!(cache.table.contains(0));
    assert!(!cache.table.contains(1));
    let rest: Vec<PageRef> = (0..8).map(|at| cache.table.peek(at).1).collect();
    assert!(!cache.table.evict_one());
    assert_eq!(cache.table.len(), 8);
    drop((pin, rest));
}

/// The page that each action writes, `None` for a flush.
fn written(actions: &[Action]) -> Vec<Option<u64>> {
    actions
        .iter()
        .map(|action| match action {
            Action::Write { page, .. } => Some(*page),
            Action::Sync => None,
            Action::Truncate { .. } => panic!("nothing is cut off"),
        })
        .collect()
}

#[test]
fn a_commit_writes_the_other_slot_and_flushes() {
    let (mut pager, _) = created();
    for lsn in 1..4_u64 {
        let mut next = pager.superblock();
        next.checkpoint_lsn = lsn;
        let slot = pager.stage_commit(&next).unwrap();
        assert_eq!(
            written(pager.pending_actions()),
            vec![Some(u64::from(slot)), None]
        );
        pager.settle_commit(next.clone(), slot, true);
        assert_eq!(pager.superblock(), next);
        pager.take_actions();
        assert!(pager.pending_actions().is_empty());
    }
}

#[test]
fn feature_flags_go_to_the_other_slot_first() {
    let (mut pager, _) = created();
    let mut next = pager.superblock();
    next.checkpoint_lsn = 1;
    let other = u64::from(pager.stage_commit(&next).unwrap());
    pager.settle_commit(next, other as u8, true);
    pager.take_actions();
    pager.commit_feature_flags(DML_WAL_FLAG).unwrap();
    assert_eq!(
        written(pager.pending_actions()),
        vec![Some(1 - other), None, Some(other), None]
    );
}

#[test]
fn every_prefix_of_a_commit_opens_with_one_of_two_headers() {
    let mut budget = unlimited();
    let (mut pager, mut file) = created();
    let pages = populate_pages(&mut pager, 4, &mut budget);
    let before = pager.superblock();
    perform(&mut file, pager.take_actions());
    pager.retire_pages(&pages[..2].to_vec(), 7, &mut budget).unwrap();
    publish(&mut pager, 7);
    let actions = pager.take_actions();
    assert!(actions.len() > 2);
    for done in 0..=actions.len() {
        let mut torn = file.clone();
        perform(&mut torn, actions[..done].to_vec());
        let opened = Pager::open(&torn).unwrap().superblock();
        if done + 1 < actions.len() {
            assert_eq!(opened, before);
        } else {
            assert_eq!(opened, pager.superblock());
        }
    }
}

#[test]
fn retiring_leaves_the_slots_alone_and_flushes_last() {
    let mut budget = unlimited();
    let (mut pager, _) = created();
    let pages = populate_pages(&mut pager, 4, &mut budget);
    pager.take_actions();
    pager.retire_pages(&pages, 7, &mut budget).unwrap();
    let pages = written(pager.pending_actions());
    assert!(pages.iter().flatten().all(|page| *page >= 2));
    assert_eq!(pages.last(), Some(&None));
}

#[test]
fn writes_that_failed_are_taken_back() {
    let mut budget = MemoryBudget::new(frame_charge() * 20);
    let (pager, mut file) = created();
    let mut pager = pager.with_budget();
    let pages = populate_pages(&mut pager, 2, &mut budget);
    perform(&mut file, pager.take_actions());
    pager.read_page_ref(pages[0], &mut budget).unwrap();
    pager
        .write_page(pages[0], &vec![8; PAGE_SIZE as usize], &mut budget)
        .unwrap();
    pager
        .write_page(pages[1], &vec![9; PAGE_SIZE as usize], &mut budget)
        .unwrap();
    let grown = pager.allocate_page(&mut budget).unwrap();
    // The first write was done, nothing behind it.
    let done = pager.pending_actions()[..1].to_vec();
    pager.fail_actions(1, &mut budget);
    perform(&mut file, done);
    assert_eq!(pager.image(), file);
    assert_eq!(pager.read_page(pages[0], &mut budget).unwrap()[0], 8);
    assert_eq!(pager.read_page(pages[1], &mut budget).unwrap()[0], 2);
    assert!(pager.read_page(grown, &mut budget).is_err());
    assert_eq!(pager.allocate_page(&mut budget).unwrap(), grown);
}

#[test]
fn a_commit_that_could_not_be_flushed_leaves_the_header_before_it() {
    let mut budget = unlimited();
    let (mut pager, file) = created();
    let before = pager.superblock();
    let mut next = before.clone();
    next.checkpoint_lsn = 5;
    let slot = pager.stage_commit(&next).unwrap();
    pager.settle_commit(next, slot, false);
    pager.fail_actions(0, &mut budget);
    assert_eq!(pager.superblock(), before);
    assert_eq!(pager.image(), file);
    let flags = pager.stage_feature_flags(DML_WAL_FLAG).unwrap();
    pager.settle_feature_flags(flags, false);
    pager.fail_actions(0, &mut budget);
    assert_eq!(pager.superblock(), before);
    assert_eq!(pager.image(), file);
    publish(&mut pager, 6);
    assert_eq!(Pager::open(&pager.image()).unwrap().superblock().checkpoint_lsn, 6);
}

#[test]
fn a_chain_that_could_not_be_flushed_is_not_named() {
    let mut budget = unlimited();
    let (mut pager, mut file) = created();
    let pages = populate_pages(&mut pager, 4, &mut budget);
    perform(&mut file, pager.take_actions());
    pager.retire_pages(&pages[..2].to_vec(), 7, &mut budget).unwrap();
    pager.fail_actions(0, &mut budget);
    assert_eq!(pager.image(), file);
    publish(&mut pager, 7);
    pager.raise_min_pin(8);
    // What was retired is lost to reuse, and never handed out.
    let fresh = pager.allocate_page(&mut budget).unwrap();
    assert!(!pages.contains(&fresh));
    assert!(Pager::open(&pager.image()).is_ok());
}

#[test]
fn a_frame_is_pinned_unless_it_is_held_once() {
    assert_eq!(
        pins_of(&vec![1, 0, 2, 1]),
        vec![false, true, true, false]
    );
}

/// A file with a ledger that lists two pages, opened again.
fn reopened_with_ledger() -> (Pager, Vec<u64>) {
    let mut budget = unlimited();
    let (mut pager, _) = created();
    let pages = populate_pages(&mut pager, 4, &mut budget);
    pager
        .retire_pages(&pages[..2].to_vec(), 7, &mut budget)
        .unwrap();
    publish(&mut pager, 7);
    let mut again = Pager::open(&pager.image()).unwrap().with_budget();
    again.reset_page_read_count();
    (again, pages)
}

#[test]
fn listing_the_ledger_counts_and_caches_its_pages() {
    let (mut pager, _) = reopened_with_ledger();
    let mut budget = unlimited();
    let ledger = pager.free_pages_ledger_pages(&mut budget).unwrap();
    assert_eq!(ledger.len(), 1);
    assert_eq!(pager.page_read_count(), 1);
    assert_eq!(pager.cached_pages(), 1);
    assert_eq!(budget.charged(), frame_charge());
    pager.free_pages_ledger_pages(&mut budget).unwrap();
    assert_eq!(pager.page_read_count(), 2);
    assert_eq!(pager.cached_pages(), 1);
}

#[test]
fn allocating_from_the_ledger_counts_and_caches_its_pages() {
    let (mut pager, pages) = reopened_with_ledger();
    let mut budget = unlimited();
    pager.raise_min_pin(8);
    assert_eq!(pager.allocate_page(&mut budget).unwrap(), pages[0]);
    assert!(pager.page_read_count() > 0);
    assert_eq!(pager.cached_pages(), 1);
    assert_eq!(budget.charged(), frame_charge());
}

#[test]
fn retiring_onto_a_ledger_counts_the_pages_that_it_reads() {
    let (mut pager, pages) = reopened_with_ledger();
    let mut budget = unlimited();
    pager
        .retire_pages(&pages[2..].to_vec(), 9, &mut budget)
        .unwrap();
    assert!(pager.page_read_count() > 0);
}

#[test]
fn writing_a_page_leaves_the_other_frames() {
    let mut budget = unlimited();
    let mut pager = created().0.with_budget();
    let pages = populate_pages(&mut pager, 3, &mut budget);
    let held: Vec<PageRef> = pages
        .iter()
        .map(|page| pager.read_page_ref(*page, &mut budget).unwrap())
        .collect();
    pager
        .write_page(pages[1], &vec![9; PAGE_SIZE as usize], &mut budget)
        .unwrap();
    assert_eq!(pager.cached_pages(), 2);
    for at in [0, 2] {
        let again = pager.read_page_ref(pages[at], &mut budget).unwrap();
        assert!(same_buffer(&again, &held[at]));
    }
}

#[test]
fn a_retirement_that_failed_can_be_made_again() {
    let mut budget = unlimited();
    let (mut pager, mut file) = created();
    let pages = populate_pages(&mut pager, 4, &mut budget);
    perform(&mut file, pager.take_actions());
    let gone = pages[..2].to_vec();
    pager.retire_pages(&gone, 7, &mut budget).unwrap();
    pager.fail_actions(0, &mut budget);
    pager.retire_pages(&gone, 7, &mut budget).unwrap();
    publish(&mut pager, 7);
    let again = Pager::open(&pager.image()).unwrap();
    assert_eq!(again.free_pages_extension().unwrap().retired_total, 2);
}

#[test]
fn a_commit_that_failed_keeps_what_was_retired() {
    let mut budget = unlimited();
    let (mut pager, mut file) = created();
    let pages = populate_pages(&mut pager, 4, &mut budget);
    pager
        .retire_pages(&pages[..2].to_vec(), 7, &mut budget)
        .unwrap();
    perform(&mut file, pager.take_actions());
    let mut next = pager.superblock();
    next.checkpoint_lsn = 7;
    next.feature_flags |= FREE_PAGES_FLAG;
    let slot = pager.stage_commit(&next).unwrap();
    pager.settle_commit(next, slot, false);
    pager.fail_actions(0, &mut budget);
    assert_eq!(pager.image(), file);
    publish(&mut pager, 8);
    let again = Pager::open(&pager.image()).unwrap();
    assert_eq!(again.free_pages_extension().unwrap().retired_total, 2);
}

#[test]
fn an_allocation_that_failed_leaves_its_pages_to_the_next() {
    let mut budget = unlimited();
    let (mut pager, pages) = reopened_with_ledger();
    pager.raise_min_pin(8);
    let first = pager.allocate_page(&mut budget).unwrap();
    assert_eq!(first, pages[0]);
    pager.fail_actions(0, &mut budget);
    assert_eq!(pager.allocate_page(&mut budget).unwrap(), first);
}

#[test]
fn each_published_retirement_adds_to_the_total() {
    let mut budget = unlimited();
    let (mut pager, _) = created();
    let pages = populate_pages(&mut pager, 6, &mut budget);
    pager
        .retire_pages(&pages[..2].to_vec(), 7, &mut budget)
        .unwrap();
    publish(&mut pager, 7);
    let first = pager.free_pages_extension().unwrap().retired_total;
    pager
        .retire_pages(&pages[2..5].to_vec(), 8, &mut budget)
        .unwrap();
    publish(&mut pager, 8);
    let second = pager.free_pages_extension().unwrap().retired_total;
    assert_eq!(first, 2);
    assert!(second >= 5);
}

#[test]
fn a_budget_never_goes_over_its_limit() {
    let mut budget = MemoryBudget::new(10);
    assert!(budget.try_charge(7));
    assert!(!budget.try_charge(4));
    assert_eq!(budget.charged(), 7);
    budget.release(20);
    assert_eq!(budget.charged(), 0);
    assert!(budget.try_charge(10));
    assert!(!budget.try_charge(1));
    assert_eq!(budget.limit(), 10);
}
