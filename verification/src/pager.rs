//! Page storage: the dual-slot superblock protocol, page allocation and the
//! free-page ledger.
//!
//! A pager holds the pages of a database file and the actions that bring the
//! file up to them; whoever owns the file performs those actions in order.
//! The first two pages are superblock slots. A commit writes the slot that is
//! not authoritative, flushes, and only then counts as authoritative.

pub mod cache;
pub mod ledger;
pub mod reclaim;
pub mod reopen;
pub mod reuse;
pub mod space;
pub mod touch;

use vstd::prelude::*;
use vstd::slice::slice_subrange;

use crate::budget::MemoryBudget;
use crate::error::{corrupt, invalid_argument, io_error, DevonError, DevonResult, ErrorKind};
use crate::free_pages;
use crate::free_pages::{LedgerPage, LedgerView, SuperblockExtension};
use crate::pager::cache::{PageCache, PageRef};
use crate::pager::ledger::{FreeView, SpaceView};
use crate::pager::reuse::SUPERBLOCK_SLOTS;
use crate::pager::space::{zero_bytes, Action, ActionView, FreeState, PageSpace};
use crate::superblock;
use crate::superblock::{
    choose_authoritative, Superblock, FREE_PAGES_FLAG, READ_SAFE_FLAG_MASK, SUPPORTED_FLAG_MASK,
    SUPPORTED_FORMAT_VERSION,
};
use crate::text::{with_name, with_number};
use crate::types::same_bytes;

verus! {

/// The part of the free-page state that a failed superblock commit touches.
#[derive(Debug)]
pub struct FreeStateForTest {
    pub retired_total_floor: u64,
    pub pending_extension: Option<SuperblockExtension>,
}

impl Default for FreeStateForTest {
    fn default() -> (state: FreeStateForTest)
        ensures
            state.retired_total_floor == 0,
            state.pending_extension is None,
    {
        FreeStateForTest { retired_total_floor: 0, pending_extension: None }
    }
}

/// The slot of a failed commit may be durable: the floor rises to the staged
/// total.
pub fn apply_failed_flip_floor(state: &mut FreeStateForTest)
    ensures
        final(state).pending_extension is None,
        final(state).retired_total_floor == (match old(state).pending_extension {
            Some(pending) => if pending.retired_total > old(state).retired_total_floor {
                pending.retired_total
            } else {
                old(state).retired_total_floor
            },
            None => old(state).retired_total_floor,
        }),
{
    if let Some(pending) = state.pending_extension {
        if pending.retired_total > state.retired_total_floor {
            state.retired_total_floor = pending.retired_total;
        }
    }
    state.pending_extension = None;
}

/// `getrandom::fill`: sixteen bytes of system randomness, or what the crate
/// says where the system has none to give. Nothing is claimed of either.
#[verifier::external_body]
fn random_id() -> Result<[u8; 16], String> {
    let mut id = [0u8; 16];
    match getrandom::fill(&mut id) {
        Ok(()) => Ok(id),
        Err(error) => Err(error.to_string()),
    }
}

/// A random database identifier.
pub fn generate_db_id() -> (result: DevonResult<[u8; 16]>)
    ensures
        result matches Err(error) ==> error.kind_of() == ErrorKind::Io,
{
    identifier_from(random_id())
}

/// The identifier that the system's randomness gives, or the failure to
/// generate one.
pub fn identifier_from(random: Result<[u8; 16], String>) -> (result: DevonResult<[u8; 16]>)
    ensures
        match (result, random) {
            (Ok(id), Ok(given)) => id == given,
            (Err(error), Err(fault)) => error.kind_of() == ErrorKind::Io && error.text_of()
                == "failed to generate database identifier: "@ + fault@,
            _ => false,
        },
{
    match random {
        Ok(id) => Ok(id),
        Err(fault) => {
            let text: String = with_name(
                "failed to generate database identifier: ",
                fault.as_str(),
                "",
            );
            proof {
                reveal_strlit("");
                assert(text@ =~= "failed to generate database identifier: "@ + fault@);
            }
            Err(io_error(text.as_str()))
        },
    }
}

/// The header of a new database.
pub open spec fn is_initial(superblock: Superblock, page_size: u32, db_id: [u8; 16]) -> bool {
    &&& superblock.format_version == SUPPORTED_FORMAT_VERSION
    &&& superblock.min_reader_version == SUPPORTED_FORMAT_VERSION
    &&& superblock.feature_flags == 0
    &&& superblock.page_size == page_size
    &&& superblock.db_id == db_id
    &&& superblock.checkpoint_lsn == 0
    &&& superblock.catalog_root == 0
}

fn initial_superblock(page_size: u32, db_id: [u8; 16]) -> (superblock: Superblock)
    ensures
        is_initial(superblock, page_size, db_id),
{
    Superblock {
        format_version: SUPPORTED_FORMAT_VERSION,
        min_reader_version: SUPPORTED_FORMAT_VERSION,
        feature_flags: 0,
        page_size,
        db_id,
        checkpoint_lsn: 0,
        catalog_root: 0,
    }
}

/// A slot page: the header, then zeros.
fn encode_page(superblock: &Superblock) -> (result: DevonResult<Vec<u8>>)
    ensures
        match result {
            Ok(page) => superblock.encodable() && page@ == superblock.slot_bytes(
                superblock.page_size as nat,
            ) && page@.len() == superblock.page_size,
            Err(error) => !superblock.encodable() && error.kind_of()
                == ErrorKind::InvalidArgument,
        },
{
    if !superblock::valid_page_size(superblock.page_size) {
        return Err(
            invalid_argument(
                with_number(
                    "page size ",
                    superblock.page_size as u64,
                    " must be a power of two between 4096 and 65536 bytes",
                ).as_str(),
            ),
        );
    }
    let mut page: Vec<u8> = zero_bytes(superblock.page_size as usize);
    match superblock.encode(&mut page) {
        Ok(()) => {
            proof {
                superblock.lemma_header_layout();
            }
            Ok(page)
        },
        Err(error) => Err(error),
    }
}

/// What reading a slot at an offset of the file must answer.
pub open spec fn slot_reads(
    file: Seq<u8>,
    offset: nat,
    expected: Option<u32>,
    result: DevonResult<Superblock>,
) -> bool {
    if file.len() < offset + 64 {
        result matches Err(error) && error.kind_of() == ErrorKind::Io
    } else {
        let header = file.subrange(offset as int, offset as int + 64);
        match result {
            Ok(found) => superblock::decode_outcome(
                header,
                SUPPORTED_FLAG_MASK,
                READ_SAFE_FLAG_MASK,
                result,
            ) && (expected is Some ==> expected == Some(found.page_size)),
            Err(error) => {
                ||| superblock::decode_outcome(
                    header,
                    SUPPORTED_FLAG_MASK,
                    READ_SAFE_FLAG_MASK,
                    result,
                )
                ||| error.kind_of() == ErrorKind::Corrupt && exists|found: Superblock|
                    #[trigger] header_holds(header, found) && expected is Some && expected != Some(
                        found.page_size,
                    )
            },
        }
    }
}

/// Whether these bytes are a lawful header with these fields.
pub open spec fn header_holds(header: Seq<u8>, found: Superblock) -> bool {
    &&& !superblock::frame_refused(header)
    &&& found.read_from(header)
    &&& found.field_refusal(SUPPORTED_FLAG_MASK, READ_SAFE_FLAG_MASK) is None
}

fn read_slot(file: &Vec<u8>, offset: u64, expected: Option<u32>) -> (result: DevonResult<
    Superblock,
>)
    requires
        offset <= 65536,
    ensures
        slot_reads(file@, offset as nat, expected, result),
{
    let size: usize = file.len();
    let start: usize = offset as usize;
    if size < 64 || size - 64 < start {
        return Err(io_error("failed to fill whole buffer"));
    }
    let header: &[u8] = slice_subrange(file.as_slice(), start, start + 64);
    match Superblock::decode(header) {
        Ok(found) => {
            if let Some(page_size) = expected {
                if page_size != found.page_size {
                    assert(header_holds(header@, found));
                    return Err(corrupt("superblock slots disagree on page size"));
                }
            }
            Ok(found)
        },
        Err(error) => Err(error),
    }
}

/// Whether a lawful slot of page size `candidate` stands where that page size
/// puts the second slot.
pub open spec fn slot_fits(file: Seq<u8>, candidate: u32) -> bool {
    &&& file.len() >= candidate + 64
    &&& exists|found: Superblock|
        #[trigger] header_holds(file.subrange(candidate as int, candidate + 64), found)
            && found.page_size == candidate
}

/// What reading the second slot must answer, given the page size of the
/// first where that is known.
pub open spec fn second_slot_reads(
    file: Seq<u8>,
    known: Option<u32>,
    result: DevonResult<Superblock>,
) -> bool {
    match known {
        Some(page_size) => slot_reads(file, page_size as nat, known, result),
        None => match result {
            Ok(found) => {
                &&& superblock::is_page_size(found.page_size)
                &&& slot_reads(file, found.page_size as nat, Some(found.page_size), result)
                &&& forall|smaller: u32|
                    superblock::is_page_size(smaller) && smaller < found.page_size
                        ==> !#[trigger] slot_fits(file, smaller)
            },
            Err(error) => {
                &&& error.kind_of() == ErrorKind::Corrupt
                &&& forall|candidate: u32|
                    superblock::is_page_size(candidate) ==> !#[trigger] slot_fits(file, candidate)
            },
        },
    }
}

/// The page size that the file is tried with at this step.
fn candidate_size(step: u32) -> (size: u32)
    requires
        step < 5,
    ensures
        superblock::is_page_size(size),
        step == 0 ==> size == 4096,
        step == 1 ==> size == 8192,
        step == 2 ==> size == 16384,
        step == 3 ==> size == 32768,
        step == 4 ==> size == 65536,
{
    if step == 0 {
        4096
    } else if step == 1 {
        8192
    } else if step == 2 {
        16384
    } else if step == 3 {
        32768
    } else {
        65536
    }
}

fn read_second_slot(file: &Vec<u8>, known: Option<u32>) -> (result: DevonResult<Superblock>)
    requires
        known is Some ==> known->0 <= 65536,
    ensures
        second_slot_reads(file@, known, result),
{
    if let Some(page_size) = known {
        return read_slot(file, page_size as u64, Some(page_size));
    }
    let mut step: u32 = 0;
    while step < 5
        invariant
            step <= 5,
            known is None,
            step >= 1 ==> !slot_fits(file@, 4096),
            step >= 2 ==> !slot_fits(file@, 8192),
            step >= 3 ==> !slot_fits(file@, 16384),
            step >= 4 ==> !slot_fits(file@, 32768),
            step >= 5 ==> !slot_fits(file@, 65536),
        decreases 5 - step,
    {
        let size: u32 = candidate_size(step);
        let result: DevonResult<Superblock> = read_slot(file, size as u64, Some(size));
        match result {
            Ok(found) => {
                return Ok(found);
            },
            Err(_) => {
                proof {
                    if slot_fits(file@, size) {
                        let header = file@.subrange(size as int, size + 64);
                        let found = choose|found: Superblock|
                            #[trigger] header_holds(header, found) && found.page_size == size;
                        lemma_headers_agree(header);
                    }
                }
            },
        }
        step += 1;
    }
    Err(corrupt("could not locate a valid second superblock slot"))
}

/// Headers read from the same bytes agree on what decides their refusal.
proof fn lemma_headers_agree(header: Seq<u8>)
    ensures
        forall|a: Superblock, b: Superblock|
            #![trigger a.read_from(header), b.read_from(header)]
            a.read_from(header) && b.read_from(header) ==> a.page_size == b.page_size && a.field_refusal(
                SUPPORTED_FLAG_MASK,
                READ_SAFE_FLAG_MASK,
            ) == b.field_refusal(SUPPORTED_FLAG_MASK, READ_SAFE_FLAG_MASK),
{
}

/// Which slot is authoritative.
pub open spec fn slot_choice(a: DevonResult<Superblock>, b: DevonResult<Superblock>) -> u8 {
    if b matches Ok(second) && (a matches Ok(first) ==> second.checkpoint_lsn
        > first.checkpoint_lsn) {
        1
    } else {
        0
    }
}

fn selected_slot(a: &DevonResult<Superblock>, b: &DevonResult<Superblock>) -> (slot: u8)
    ensures
        slot == slot_choice(*a, *b),
{
    match (a, b) {
        (Ok(first), Ok(second)) => if second.checkpoint_lsn > first.checkpoint_lsn {
            1
        } else {
            0
        },
        (Ok(_), Err(_)) => 0,
        (Err(_), Ok(_)) => 1,
        (Err(_), Err(_)) => 0,
    }
}

/// Whether a file has whole pages, two at least.
pub open spec fn length_lawful(file_len: nat, page_size: u32) -> bool {
    file_len >= 2 * page_size && file_len % page_size as nat == 0
}

fn validate_file_length(file_len: usize, page_size: u32) -> (result: DevonResult<()>)
    requires
        superblock::is_page_size(page_size),
    ensures
        match result {
            Ok(()) => length_lawful(file_len as nat, page_size),
            Err(error) => !length_lawful(file_len as nat, page_size) && error.kind_of()
                == ErrorKind::Corrupt,
        },
{
    let size: usize = page_size as usize;
    if file_len < size * 2 {
        return Err(
            corrupt(
                with_number(
                    "database file length ",
                    file_len as u64,
                    " is shorter than two pages",
                ).as_str(),
            ),
        );
    }
    if file_len % size != 0 {
        return Err(
            corrupt(
                with_number(
                    "database file length ",
                    file_len as u64,
                    " is not page-aligned",
                ).as_str(),
            ),
        );
    }
    Ok(())
}

/// The pages of a file.
pub open spec fn pages_of(file: Seq<u8>, page_size: nat) -> Seq<Seq<u8>> {
    Seq::new(
        file.len() / page_size,
        |i: int| file.subrange(i * page_size, i * page_size + page_size),
    )
}

fn split_pages(file: &Vec<u8>, page_size: u32) -> (pages: Vec<Vec<u8>>)
    requires
        superblock::is_page_size(page_size),
        length_lawful(file@.len(), page_size),
    ensures
        pages@.map_values(|page: Vec<u8>| page@) == pages_of(file@, page_size as nat),
        pages@.len() >= 2,
        forall|i: int| 0 <= i < pages@.len() ==> (#[trigger] pages@[i])@.len() == page_size,
{
    let size: usize = page_size as usize;
    let total: usize = file.len();
    let count: usize = total / size;
    assert(total == count * size) by (nonlinear_arith)
        requires
            size > 0,
            total % size == 0,
            count == total / size,
    ;
    let mut pages: Vec<Vec<u8>> = Vec::new();
    let mut at: usize = 0;
    let mut i: usize = 0;
    while i < count
        invariant
            i <= count,
            total == file@.len(),
            size == page_size,
            size > 0,
            total == count * size,
            at == i * size,
            pages@.len() == i,
            forall|j: int|
                0 <= j < i ==> (#[trigger] pages@[j])@ == file@.subrange(
                    j * page_size,
                    j * page_size + page_size,
                ),
        decreases count - i,
    {
        proof {
            assert((i + 1) * size == i * size + size) by (nonlinear_arith);
            assert((i + 1) * size <= count * size) by (nonlinear_arith)
                requires
                    i + 1 <= count,
            ;
        }
        let mut page: Vec<u8> = Vec::new();
        crate::bytes::put_bytes(&mut page, slice_subrange(file.as_slice(), at, at + size));
        assert(page@ =~= file@.subrange(i * page_size, i * page_size + page_size));
        pages.push(page);
        at = at + size;
        i += 1;
    }
    proof {
        let shown = pages@.map_values(|page: Vec<u8>| page@);
        assert(shown =~= pages_of(file@, page_size as nat));
        assert forall|j: int| 0 <= j < pages@.len() implies (#[trigger] pages@[j])@.len()
            == page_size by {
            assert((j + 1) * size == j * size + size) by (nonlinear_arith);
            assert((j + 1) * size <= count * size) by (nonlinear_arith)
                requires
                    j + 1 <= count,
            ;
            assert(0 <= j * page_size) by (nonlinear_arith)
                requires
                    0 <= j,
            ;
        }
    }
    pages
}

/// The free-page state of an opened file.
pub open spec fn opened_free(pages: Seq<Seq<u8>>, feature_flags: u64, slot: u8) -> FreeView {
    if feature_flags & FREE_PAGES_FLAG == 0 {
        space::fresh_free()
    } else {
        let own = free_pages::extension_of(pages[slot as int]);
        let a = total_of(free_pages::extension_of(pages[0]));
        let b = total_of(free_pages::extension_of(pages[1]));
        FreeView {
            extension: own,
            degraded: own is None,
            floor: if a > b {
                a
            } else {
                b
            },
            ..space::fresh_free()
        }
    }
}

/// The count of retired pages that an extension states.
pub open spec fn total_of(extension: Option<SuperblockExtension>) -> nat {
    match extension {
        Some(extension) => extension.retired_total as nat,
        None => 0,
    }
}

fn read_free_state(pages: &Vec<Vec<u8>>, feature_flags: u64, slot: u8) -> (free: FreeState)
    requires
        pages@.len() >= 2,
        slot < 2,
    ensures
        free.wf(),
        free@ == opened_free(
            pages@.map_values(|page: Vec<u8>| page@),
            feature_flags,
            slot,
        ),
{
    let ghost shown = pages@.map_values(|page: Vec<u8>| page@);
    let mut free: FreeState = FreeState::new();
    if feature_flags & FREE_PAGES_FLAG == 0 {
        return free;
    }
    assert(shown[0] == pages@[0]@ && shown[1] == pages@[1]@);
    let first: Option<SuperblockExtension> = SuperblockExtension::decode_from(
        pages[0].as_slice(),
    );
    let second: Option<SuperblockExtension> = SuperblockExtension::decode_from(
        pages[1].as_slice(),
    );
    let mut floor: u64 = 0;
    if let Some(extension) = first {
        floor = extension.retired_total;
    }
    if let Some(extension) = second {
        if extension.retired_total > floor {
            floor = extension.retired_total;
        }
    }
    let own: Option<SuperblockExtension> = if slot == 0 {
        first
    } else {
        second
    };
    free.extension = own;
    free.degraded = own.is_none();
    free.retired_total_floor = floor;
    assert(free@ =~= opened_free(shown, feature_flags, slot));
    free
}

/// Owns the pages of a database file and its authoritative superblock.
pub struct Pager {
    space: PageSpace,
    superblock: Superblock,
    slot: u8,
    cache: Option<PageCache>,
    page_reads: u64,
    wrote_zone_maps: bool,
    wrote_column_encodings: bool,
}

/// A slot page of a superblock: the header, and the extension where the
/// superblock says that there is one.
pub open spec fn slot_page(superblock: Superblock, extension: Option<SuperblockExtension>) -> Seq<
    u8,
> {
    let page = superblock.slot_bytes(superblock.page_size as nat);
    match extension {
        Some(extension) => if superblock.feature_flags & FREE_PAGES_FLAG != 0 {
            free_pages::with_extension(page, extension)
        } else {
            page
        },
        None => page,
    }
}

/// The actions that put a page into both slots: the slot that is not authoritative is durable
/// before the other is written.
pub open spec fn flag_actions(slot: u8, page: Seq<u8>) -> Seq<ActionView> {
    seq![
        ActionView::Write { page: (1 - slot) as u64, data: page },
        ActionView::Sync,
        ActionView::Write { page: slot as u64, data: page },
        ActionView::Sync,
    ]
}

/// Whether `next` may follow `current`: the same database, at a later
/// checkpoint.
pub open spec fn commit_valid(current: Superblock, next: Superblock) -> bool {
    &&& next.page_size == current.page_size
    &&& next.db_id@ == current.db_id@
    &&& next.checkpoint_lsn > current.checkpoint_lsn
}

fn same_id(a: &[u8; 16], b: &[u8; 16]) -> (same: bool)
    ensures
        same == (a@ == b@),
{
    let mut i: usize = 0;
    while i < 16
        invariant
            i <= 16,
            forall|j: int| 0 <= j < i ==> #[trigger] a@[j] == b@[j],
        decreases 16 - i,
    {
        if a[i] != b[i] {
            assert(a@[i as int] != b@[i as int]);
            return false;
        }
        i += 1;
    }
    assert(a@ =~= b@);
    true
}

fn ensure_commit_is_valid(current: &Superblock, next: &Superblock) -> (result: DevonResult<()>)
    ensures
        match result {
            Ok(()) => commit_valid(*current, *next),
            Err(error) => !commit_valid(*current, *next) && error.kind_of()
                == ErrorKind::InvalidArgument,
        },
{
    if next.page_size != current.page_size {
        return Err(invalid_argument("a commit cannot change the database page size"));
    }
    if !same_id(&next.db_id, &current.db_id) {
        return Err(invalid_argument("a commit cannot change the database identifier"));
    }
    if next.checkpoint_lsn <= current.checkpoint_lsn {
        return Err(invalid_argument("a committed superblock must advance the checkpoint LSN"));
    }
    Ok(())
}

/// The walk along a ledger from `cursor` on: each page with what it says, or
/// why the ledger is refused.
pub open spec fn ledger_walk(
    pages: Seq<Seq<u8>>,
    tail: u64,
    cursor: u64,
    done: Seq<(u64, LedgerView)>,
) -> Result<Seq<(u64, LedgerView)>, ErrorKind>
    decreases pages.len() - done.len(),
{
    if (exists|i: int| 0 <= i < done.len() && (#[trigger] done[i]).0 == cursor) || done.len() + 1
        > pages.len() {
        Err(ErrorKind::Corrupt)
    } else {
        match ledger::ledger_at(pages, cursor) {
            None => Err(
                if ledger::reusable(pages.len(), cursor) {
                    ErrorKind::Corrupt
                } else {
                    ErrorKind::InvalidArgument
                },
            ),
            Some(page) => {
                let seen = done.push((cursor, page));
                if cursor == tail {
                    if page.next != 0 {
                        Err(ErrorKind::Corrupt)
                    } else {
                        Ok(seen)
                    }
                } else if page.next == 0 {
                    Ok(seen)
                } else {
                    ledger_walk(pages, tail, page.next, seen)
                }
            },
        }
    }
}

/// How many pages the walk along a ledger from `cursor` on reads.
pub open spec fn ledger_reads_from(
    pages: Seq<Seq<u8>>,
    tail: u64,
    cursor: u64,
    done: Seq<(u64, LedgerView)>,
) -> nat
    decreases pages.len() - done.len(),
{
    if (exists|i: int| 0 <= i < done.len() && (#[trigger] done[i]).0 == cursor) || done.len() + 1
        > pages.len() || !ledger::reusable(pages.len(), cursor) {
        0
    } else {
        match ledger::ledger_at(pages, cursor) {
            None => 1,
            Some(page) => if cursor == tail || page.next == 0 {
                1
            } else {
                1 + ledger_reads_from(pages, tail, page.next, done.push((cursor, page)))
            },
        }
    }
}

/// How many pages the walk along a space's ledger reads.
pub open spec fn ledger_walk_reads(space: SpaceView) -> nat {
    match space.free.extension {
        Some(extension) => if extension.names_ledger() {
            ledger_reads_from(
                space.pages,
                extension.retire_ledger_tail,
                extension.retire_ledger_head,
                Seq::empty(),
            )
        } else {
            0
        },
        None => 0,
    }
}

/// The pages that a walk returned.
pub open spec fn walked(pages: Seq<(u64, LedgerPage)>) -> Seq<(u64, LedgerView)> {
    pages.map_values(|entry: (u64, LedgerPage)| (entry.0, entry.1@))
}

impl Pager {
    /// The pages and the free-page state.
    pub closed spec fn space_of(self) -> SpaceView {
        self.space@
    }

    /// The authoritative superblock.
    pub closed spec fn header(self) -> Superblock {
        self.superblock
    }

    /// The authoritative slot.
    pub closed spec fn slot_of(self) -> u8 {
        self.slot
    }

    /// Whether pages are cached.
    pub closed spec fn caches(self) -> bool {
        self.cache is Some
    }

    /// The cached frames.
    pub closed spec fn frames(self) -> Seq<cache::FrameView> {
        match self.cache {
            Some(cache) => cache.table.shown(),
            None => Seq::empty(),
        }
    }

    /// Where the hand of the cache's clock stands.
    pub closed spec fn hand_of(self) -> int {
        match self.cache {
            Some(cache) => cache.table.hand_of(),
            None => 0,
        }
    }

    /// The cached frames and the hand.
    pub open spec fn clock(self) -> cache::ClockView {
        cache::ClockView { frames: self.frames(), hand: self.hand_of() }
    }

    /// How many reads were counted.
    pub closed spec fn reads(self) -> u64 {
        self.page_reads
    }

    /// The pages that the file held when its actions were last taken.
    pub closed spec fn on_file(self) -> Seq<Seq<u8>> {
        self.space.on_file()
    }

    /// The actions that the file still lacks.
    pub closed spec fn pending(self) -> Seq<ActionView> {
        self.space.pending()
    }

    /// The free-page states to fall back to where pending actions cannot be done.
    pub closed spec fn marks(self) -> Seq<space::MarkView> {
        self.space.marks()
    }

    /// Whether the pager has written zone maps or column encodings.
    pub closed spec fn written_features(self) -> (bool, bool) {
        (self.wrote_zone_maps, self.wrote_column_encodings)
    }

    /// Every cached frame holds the bytes of its page, the slots are never
    /// cached, and the superblock is that of the pages.
    pub closed spec fn wf(self) -> bool {
        &&& self.space.wf()
        &&& self.superblock.page_size == self.space@.page_size
        &&& self.slot < 2
        &&& match self.cache {
            Some(cache) => cache.table.wf() && cache.frame_charge == self.space@.page_size
                + cache::FRAME_OVERHEAD,
            None => true,
        }
        &&& self.coherent()
        &&& self.space.log().len() == 0
    }

    /// The ledger pages that were read and not yet counted.
    pub(crate) closed spec fn ledger_log(self) -> Seq<(usize, u64)> {
        self.space.log()
    }

    /// Every cached frame holds the bytes of its page.
    pub open spec fn coherent(self) -> bool {
        forall|i: int|
            0 <= i < self.frames().len() ==> frame_true(
                #[trigger] self.frames()[i],
                self.space_of().pages,
            )
    }

    /// The bytes that a cached frame is charged.
    pub open spec fn frame_cost(self) -> nat {
        self.space_of().page_size + cache::FRAME_OVERHEAD as nat
    }

    /// The bytes that the cached frames are charged.
    pub open spec fn cache_charges(self) -> nat {
        if self.caches() {
            self.frames().len() * self.frame_cost()
        } else {
            0
        }
    }

    /// The charges of the cache are part of what the budget has charged.
    pub open spec fn within(self, budget: MemoryBudget) -> bool {
        self.cache_charges() <= budget.charged_of()
    }

    /// What the budget has charged beside the cache.
    pub open spec fn other_charges(self, budget: MemoryBudget) -> int {
        budget.charged_of() - self.cache_charges()
    }

    /// What a lawful pager guarantees.
    pub proof fn lemma_wf(self)
        requires
            self.wf(),
        ensures
            self.coherent(),
            self.space_of().pages.len() >= 2,
            self.space_of().page_size == self.header().page_size,
            superblock::is_page_size(self.header().page_size),
            forall|i: int|
                0 <= i < self.space_of().pages.len() ==> (
                #[trigger] self.space_of().pages[i]).len() == self.space_of().page_size,
            self.slot_of() < 2,
            space::replayed(self.on_file(), self.pending(), self.space_of().page_size)
                == self.space_of().pages,
    {
        self.space.lemma_wf();
    }

    /// The pages after the first `k` pending actions have one size, and the
    /// slots are there if they were in the file.
    pub proof fn lemma_prefix(self, k: int)
        requires
            self.wf(),
            0 <= k <= self.pending().len(),
        ensures
            ({
                let pages = space::replayed(
                    self.on_file(),
                    self.pending().subrange(0, k),
                    self.space_of().page_size,
                );
                &&& self.on_file().len() >= 2 ==> pages.len() >= 2
                &&& forall|i: int|
                    0 <= i < pages.len() ==> (#[trigger] pages[i]).len()
                        == self.space_of().page_size
                &&& k < self.pending().len() ==> space::fits(pages, self.pending()[k])
            }),
    {
        self.space.lemma_prefix(k);
    }

    fn build(superblock: Superblock, slot: u8, space: PageSpace) -> (pager: Pager)
        requires
            space.wf(),
            superblock.page_size == space@.page_size,
            slot < 2,
            space.log().len() == 0,
        ensures
            pager.wf(),
            pager.space_of() == space@,
            pager.header() == superblock,
            pager.slot_of() == slot,
            !pager.caches(),
            pager.reads() == 0,
            pager.on_file() == space.on_file(),
            pager.pending() == space.pending(),
            pager.marks() == space.marks(),
            pager.written_features() == (false, false),
    {
        Pager {
            space,
            superblock,
            slot,
            cache: None,
            page_reads: 0,
            wrote_zone_maps: false,
            wrote_column_encodings: false,
        }
    }

    fn create_with(page_size: u32, db_id: [u8; 16], truncates: bool) -> (result: DevonResult<Pager>)
        ensures
            match result {
                Ok(pager) => {
                    &&& superblock::is_page_size(page_size)
                    &&& pager.wf()
                    &&& is_initial(pager.header(), page_size, db_id)
                    &&& pager.slot_of() == 0
                    &&& pager.space_of().pages == seq![
                        pager.header().slot_bytes(page_size as nat),
                        pager.header().slot_bytes(page_size as nat),
                    ]
                    &&& pager.space_of().free == space::fresh_free()
                    &&& pager.space_of().min_pin == 0
                    &&& pager.space_of().truncates == truncates
                    &&& !pager.caches()
                    &&& pager.reads() == 0
                    &&& pager.written_features() == (false, false)
                    &&& pager.on_file().len() == 0
                    &&& pager.marks().len() == 0
                    &&& pager.pending() == seq![
                        ActionView::Write { page: 0, data: pager.space_of().pages[0] },
                        ActionView::Write { page: 1, data: pager.space_of().pages[1] },
                        ActionView::Sync,
                    ]
                },
                Err(error) => !superblock::is_page_size(page_size) && error.kind_of()
                    == ErrorKind::InvalidArgument,
            },
    {
        let superblock: Superblock = initial_superblock(page_size, db_id);
        match encode_page(&superblock) {
            Ok(page) => Ok(
                Pager::build(superblock, 0, PageSpace::created(page_size, page, truncates)),
            ),
            Err(error) => Err(error),
        }
    }

    /// A new database in a file: both slots are to be written and flushed.
    pub fn create(page_size: u32, db_id: [u8; 16]) -> (result: DevonResult<Pager>)
        ensures
            match result {
                Ok(pager) => {
                    &&& superblock::is_page_size(page_size)
                    &&& pager.wf()
                    &&& is_initial(pager.header(), page_size, db_id)
                    &&& pager.slot_of() == 0
                    &&& pager.space_of().pages == seq![
                        pager.header().slot_bytes(page_size as nat),
                        pager.header().slot_bytes(page_size as nat),
                    ]
                    &&& pager.space_of().free == space::fresh_free()
                    &&& pager.space_of().min_pin == 0
                    &&& pager.space_of().truncates
                    &&& !pager.caches()
                    &&& pager.reads() == 0
                    &&& pager.written_features() == (false, false)
                    &&& pager.on_file().len() == 0
                    &&& pager.marks().len() == 0
                    &&& pager.pending() == seq![
                        ActionView::Write { page: 0, data: pager.space_of().pages[0] },
                        ActionView::Write { page: 1, data: pager.space_of().pages[1] },
                        ActionView::Sync,
                    ]
                },
                Err(error) => !superblock::is_page_size(page_size) && error.kind_of()
                    == ErrorKind::InvalidArgument,
            },
    {
        Pager::create_with(page_size, db_id, true)
    }

    /// A new database in memory, which is never cut off.
    pub fn create_memory_for_test(page_size: u32, db_id: [u8; 16]) -> (result: DevonResult<Pager>)
        ensures
            match result {
                Ok(pager) => {
                    &&& superblock::is_page_size(page_size)
                    &&& pager.wf()
                    &&& is_initial(pager.header(), page_size, db_id)
                    &&& pager.slot_of() == 0
                    &&& pager.space_of().pages == seq![
                        pager.header().slot_bytes(page_size as nat),
                        pager.header().slot_bytes(page_size as nat),
                    ]
                    &&& pager.space_of().free == space::fresh_free()
                    &&& pager.space_of().min_pin == 0
                    &&& !pager.space_of().truncates
                    &&& !pager.caches()
                    &&& pager.reads() == 0
                    &&& pager.written_features() == (false, false)
                    &&& pager.on_file().len() == 0
                    &&& pager.marks().len() == 0
                    &&& pager.pending() == seq![
                        ActionView::Write { page: 0, data: pager.space_of().pages[0] },
                        ActionView::Write { page: 1, data: pager.space_of().pages[1] },
                        ActionView::Sync,
                    ]
                },
                Err(error) => !superblock::is_page_size(page_size) && error.kind_of()
                    == ErrorKind::InvalidArgument,
            },
    {
        Pager::create_with(page_size, db_id, false)
    }

    fn open_with(file: &Vec<u8>, truncates: bool) -> (result: DevonResult<Pager>)
        ensures
            exists|a: DevonResult<Superblock>, b: DevonResult<Superblock>|
                #[trigger] open_outcome(file@, truncates, a, b, result),
            result matches Ok(pager) ==> pager.on_file().len() >= 2,
    {
        let first: DevonResult<Superblock> = read_slot(file, 0, None);
        let known: Option<u32> = match &first {
            Ok(found) => Some(found.page_size),
            Err(_) => None,
        };
        let second: DevonResult<Superblock> = read_second_slot(file, known);
        let slot: u8 = selected_slot(&first, &second);
        let ghost a = first;
        let ghost b = second;
        let superblock: Superblock = match choose_authoritative(first, second) {
            Ok(superblock) => superblock,
            Err(error) => {
                let result = Err(error);
                assert(open_outcome(file@, truncates, a, b, result));
                return result;
            },
        };
        match validate_file_length(file.len(), superblock.page_size) {
            Ok(()) => {},
            Err(error) => {
                let result = Err(error);
                assert(open_outcome(file@, truncates, a, b, result));
                return result;
            },
        }
        let pages: Vec<Vec<u8>> = split_pages(file, superblock.page_size);
        let free: FreeState = read_free_state(&pages, superblock.feature_flags, slot);
        let space: PageSpace = PageSpace::new(superblock.page_size, pages, free, truncates);
        let result = Ok(Pager::build(superblock, slot, space));
        assert(open_outcome(file@, truncates, a, b, result));
        result
    }

    /// Opens a database file by the lawful slot with the later checkpoint.
    pub fn open(file: &Vec<u8>) -> (result: DevonResult<Pager>)
        ensures
            exists|a: DevonResult<Superblock>, b: DevonResult<Superblock>|
                #[trigger] open_outcome(file@, true, a, b, result),
            result matches Ok(pager) ==> pager.on_file().len() >= 2,
    {
        Pager::open_with(file, true)
    }

    /// Opens a database image that is never cut off.
    pub fn open_memory_for_test(file: &Vec<u8>) -> (result: DevonResult<Pager>)
        ensures
            exists|a: DevonResult<Superblock>, b: DevonResult<Superblock>|
                #[trigger] open_outcome(file@, false, a, b, result),
            result matches Ok(pager) ==> pager.on_file().len() >= 2,
    {
        Pager::open_with(file, false)
    }

    /// Caches pages from now on.
    #[must_use]
    pub fn with_budget(self) -> (pager: Pager)
        requires
            self.wf(),
        ensures
            pager.wf(),
            pager.caches(),
            pager.frames().len() == 0,
            pager.cache_charges() == 0,
            pager.space_of() == self.space_of(),
            pager.header() == self.header(),
            pager.slot_of() == self.slot_of(),
            pager.reads() == self.reads(),
            pager.on_file() == self.on_file(),
            pager.pending() == self.pending(),
            pager.written_features() == self.written_features(),
    {
        let mut pager: Pager = self;
        proof {
            pager.space.lemma_wf();
        }
        let cache: PageCache = PageCache::new(pager.space.page_size());
        pager.cache = Some(cache);
        proof {
            assert(pager.cache_charges() == 0) by (nonlinear_arith)
                requires
                    pager.cache_charges() == pager.frames().len() * pager.frame_cost(),
                    pager.frames().len() == 0,
            ;
        }
        pager
    }

    /// The actions that bring the file up to the pages, in order.
    pub fn take_actions(&mut self) -> (actions: Vec<Action>)
        requires
            old(self).wf(),
        ensures
            final(self).wf(),
            same_but_file(*final(self), *old(self)),
            space::actions_of(actions@) == old(self).pending(),
            space::replayed(
                old(self).on_file(),
                space::actions_of(actions@),
                old(self).space_of().page_size,
            ) == old(self).space_of().pages,
            final(self).on_file() == old(self).space_of().pages,
            final(self).on_file().len() >= 2,
            final(self).pending().len() == 0,
    {
        proof {
            self.lemma_wf();
        }
        let actions: Vec<Action> = self.space.take_actions();
        proof {
            lemma_coherent_kept(*self, *old(self));
        }
        actions
    }

    /// The actions that bring the file up to the pages, in order.
    #[must_use]
    pub fn pending_actions(&self) -> (actions: &Vec<Action>)
        ensures
            space::actions_of(actions@) == self.pending(),
    {
        self.space.actions()
    }

    /// Takes back the pending actions behind the first `done`, which could
    /// not be done: the pages are those that the file has. A chain that
    /// may not be durable is not named by the next commit.
    pub fn fail_actions(&mut self, done: usize, budget: &mut MemoryBudget)
        requires
            old(self).wf(),
            old(self).within(*old(budget)),
            done <= old(self).pending().len(),
            old(self).on_file().len() >= 2,
        ensures
            final(self).wf(),
            final(self).within(*final(budget)),
            final(budget).limit_of() == old(budget).limit_of(),
            final(self).other_charges(*final(budget)) == old(self).other_charges(*old(budget)),
            final(self).header() == old(self).header(),
            final(self).slot_of() == old(self).slot_of(),
            final(self).caches() == old(self).caches(),
            final(self).reads() == old(self).reads(),
            final(self).written_features() == old(self).written_features(),
            final(self).space_of() == (SpaceView {
                pages: space::replayed(
                    old(self).on_file(),
                    old(self).pending().subrange(0, done as int),
                    old(self).space_of().page_size,
                ),
                free: space::fallen_back(
                    old(self).space_of().free,
                    old(self).marks(),
                    done as nat,
                ),
                ..old(self).space_of()
            }),
            final(self).on_file() == final(self).space_of().pages,
            final(self).pending().len() == 0,
            final(self).marks().len() == 0,
    {
        self.space.rewind(done);
        self.drop_stale_frames(budget);
    }

    /// The page at an id.
    fn readable(&self, page_id: u64) -> (result: DevonResult<usize>)
        ensures
            match result {
                Ok(id) => ledger::reusable(self.space_of().pages.len(), page_id) && id == page_id,
                Err(error) => !ledger::reusable(self.space_of().pages.len(), page_id)
                    && error.kind_of() == ErrorKind::InvalidArgument,
            },
    {
        if page_id < SUPERBLOCK_SLOTS {
            return Err(invalid_argument("pages 0 and 1 are reserved for superblocks"));
        }
        let count: usize = self.space.page_count();
        if page_id >= count as u64 {
            return Err(invalid_argument("page is beyond the end of the database file"));
        }
        Ok(page_id as usize)
    }

    /// Reads one data page and pins its cache frame for as long as the
    /// result is held. Where the budget has no room for a frame, the page is
    /// read without one.
    pub fn read_page_ref(&mut self, page_id: u64, budget: &mut MemoryBudget) -> (result: DevonResult<
        PageRef,
    >)
        requires
            old(self).wf(),
            old(self).within(*old(budget)),
        ensures
            final(self).wf(),
            final(self).within(*final(budget)),
            same_but_cache(*final(self), *old(self)),
            final(budget).limit_of() == old(budget).limit_of(),
            final(self).other_charges(*final(budget)) == old(self).other_charges(*old(budget)),
            match result {
                Ok(page) => {
                    &&& ledger::reusable(old(self).space_of().pages.len(), page_id)
                    &&& page@ == old(self).space_of().pages[page_id as int]
                    &&& final(self).reads() == old(self).reads().wrapping_add(1)
                    &&& read_kept(*old(self), *final(self), page_id, *old(budget), *final(budget))
                    &&& exists|pinned: Seq<bool>| #[trigger]
                        read_through(*old(self), *final(self), page_id, old(budget).room(), pinned)
                },
                Err(error) => {
                    &&& !ledger::reusable(old(self).space_of().pages.len(), page_id)
                    &&& error.kind_of() == ErrorKind::InvalidArgument
                    &&& final(self).reads() == old(self).reads()
                    &&& final(self).clock() == old(self).clock()
                    &&& *final(budget) == *old(budget)
                },
            },
    {
        let id: usize = match self.readable(page_id) {
            Ok(id) => id,
            Err(error) => {
                return Err(error);
            },
        };
        self.page_reads = self.page_reads.wrapping_add(1);
        let ghost pages = self.space@.pages;
        let page: Vec<u8> = self.space.page(id).clone();
        assert(page@ =~= pages[id as int]);
        match self.cache.take() {
            None => {
                assert(read_through(
                    *old(self),
                    *self,
                    page_id,
                    old(budget).room(),
                    Seq::empty(),
                ));
                Ok(PageRef::from_vec(page))
            },
            Some(held) => {
                let mut cache: PageCache = held;
                let ghost start = cache;
                proof {
                    assert forall|i: int| 0 <= i < start.table.shown().len() implies frame_true(
                        #[trigger] start.table.shown()[i],
                        pages,
                    ) by {
                        assert(old(self).frames()[i] == start.table.shown()[i]);
                    }
                }
                let found: Option<PageRef> = cache.table.get(page_id);
                if let Some(found) = found {
                    proof {
                        lemma_kept_true(start, cache, pages);
                        let i = choose|i: int|
                            0 <= i < start.table.shown().len() && (
                            #[trigger] start.table.shown()[i]).page_id == page_id && found@
                                == start.table.shown()[i].data;
                        assert(old(self).frames()[i] == start.table.shown()[i]);
                    }
                    let ghost clock = cache.table.clock();
                    self.cache = Some(cache);
                    proof {
                        lemma_hit(*old(self), *self, page_id, old(budget).room());
                    }
                    return Ok(found);
                }
                proof {
                    assert(old(self).frames() == start.table.shown());
                    assert(!cache::has_page(old(self).frames(), page_id)) by {
                        if cache::has_page(old(self).frames(), page_id) {
                            let i = choose|i: int|
                                0 <= i < old(self).frames().len() && (
                                #[trigger] old(self).frames()[i]).page_id == page_id;
                            assert(start.table.shown()[i].page_id == page_id);
                        }
                    }
                    assert(cache.table.clock() == old(self).clock());
                }
                let charged: bool = cache.charge_after_reclaim(budget);
                let ghost pinned = choose|pinned: Seq<bool>|
                    pinned.len() == start.table.shown().len() && (charged, cache.table.clock())
                        == #[trigger] cache::charge_to(
                        old(self).clock(),
                        pinned,
                        start.frame_charge as int,
                        old(budget).room(),
                    );
                if !charged {
                    proof {
                        lemma_subset_true(start, cache, pages);
                        if cache::has_page(cache.table.shown(), page_id) {
                            let i = choose|i: int|
                                0 <= i < cache.table.shown().len() && (
                                #[trigger] cache.table.shown()[i]).page_id == page_id;
                            assert(cache::has_frame(
                                start.table,
                                page_id,
                                cache.table.shown()[i].data,
                            ));
                        }
                    }
                    let ghost clock = cache.table.clock();
                    self.cache = Some(cache);
                    proof {
                        assert(self.clock() == clock);
                        assert(read_through(
                            *old(self),
                            *self,
                            page_id,
                            old(budget).room(),
                            pinned,
                        ));
                    }
                    return Ok(PageRef::from_vec(page));
                }
                proof {
                    lemma_subset_true(start, cache, pages);
                }
                let ghost middle = cache;
                let page: PageRef = PageRef::from_vec(page);
                let kept: PageRef = page.pin();
                proof {
                    assert(!middle.table.holds(page_id)) by {
                        if middle.table.holds(page_id) {
                            let i = choose|i: int|
                                0 <= i < middle.table.shown().len() && (
                                #[trigger] middle.table.shown()[i]).page_id == page_id;
                            assert(cache::has_frame(
                                start.table,
                                page_id,
                                middle.table.shown()[i].data,
                            ));
                        }
                    }
                }
                cache.table.insert(page_id, kept);
                proof {
                    let n = middle.table.shown().len();
                    assert((n + 1) * cache.frame_charge == n * cache.frame_charge
                        + cache.frame_charge) by (nonlinear_arith);
                }
                let ghost clock = cache.table.clock();
                self.cache = Some(cache);
                proof {
                    assert(self.clock() == clock);
                    assert(self.frames()[middle.table.shown().len() as int].page_id == page_id);
                    assert(self.clock() =~= cache::read_to(
                        old(self).clock(),
                        page_id,
                        pages[id as int],
                        pinned,
                        old(self).frame_cost() as int,
                        old(budget).room(),
                    ));
                    assert(read_through(*old(self), *self, page_id, old(budget).room(), pinned));
                    assert forall|i: int| 0 <= i < self.frames().len() implies frame_true(
                        #[trigger] self.frames()[i],
                        pages,
                    ) by {
                        if i < middle.table.shown().len() {
                            assert(self.frames()[i] == middle.table.shown()[i]);
                        }
                    }
                }
                Ok(page)
            },
        }
    }

    /// Reads one data page.
    pub fn read_page(&mut self, page_id: u64, budget: &mut MemoryBudget) -> (result: DevonResult<
        Vec<u8>,
    >)
        requires
            old(self).wf(),
            old(self).within(*old(budget)),
        ensures
            final(self).wf(),
            final(self).within(*final(budget)),
            same_but_cache(*final(self), *old(self)),
            final(budget).limit_of() == old(budget).limit_of(),
            final(self).other_charges(*final(budget)) == old(self).other_charges(*old(budget)),
            match result {
                Ok(page) => {
                    &&& ledger::reusable(old(self).space_of().pages.len(), page_id)
                    &&& page@ == old(self).space_of().pages[page_id as int]
                    &&& final(self).reads() == old(self).reads().wrapping_add(1)
                    &&& read_kept(*old(self), *final(self), page_id, *old(budget), *final(budget))
                    &&& exists|pinned: Seq<bool>| #[trigger]
                        read_through(*old(self), *final(self), page_id, old(budget).room(), pinned)
                },
                Err(error) => {
                    &&& !ledger::reusable(old(self).space_of().pages.len(), page_id)
                    &&& error.kind_of() == ErrorKind::InvalidArgument
                    &&& final(self).reads() == old(self).reads()
                    &&& final(self).clock() == old(self).clock()
                    &&& *final(budget) == *old(budget)
                },
            },
    {
        match self.read_page_ref(page_id, budget) {
            Ok(page) => {
                let bytes: Vec<u8> = page.bytes().clone();
                assert(bytes@ =~= page@);
                Ok(bytes)
            },
            Err(error) => Err(error),
        }
    }
}

/// Whether the cache after a read is that which the read leaves, given which frames are pinned.
pub open spec fn read_through(
    before: Pager,
    after: Pager,
    page_id: u64,
    room: int,
    pinned: Seq<bool>,
) -> bool {
    if before.caches() {
        &&& pinned.len() == before.frames().len()
        &&& after.clock() == cache::read_to(
            before.clock(),
            page_id,
            before.space_of().pages[page_id as int],
            pinned,
            before.frame_cost() as int,
            room,
        )
    } else {
        after.clock() == before.clock()
    }
}

/// What a read keeps in the cache, whatever is pinned: a page that has a frame keeps it, and the
/// others theirs; a page whose frame fits into the budget gets one beside the others; and a page
/// is left without a frame only where the budget has no room for it.
pub open spec fn read_kept(
    before: Pager,
    after: Pager,
    page_id: u64,
    budget: MemoryBudget,
    charged: MemoryBudget,
) -> bool {
    let cost = before.frame_cost();
    if !before.caches() {
        charged.charged_of() == budget.charged_of()
    } else if cache::has_page(before.frames(), page_id) {
        &&& cache::same_pages(after.frames(), before.frames())
        &&& charged.charged_of() == budget.charged_of()
    } else {
        &&& cost <= budget.room() ==> {
            &&& after.frames() == before.frames().push(
                cache::FrameView {
                    page_id,
                    data: before.space_of().pages[page_id as int],
                    referenced: true,
                },
            )
            &&& charged.charged_of() == budget.charged_of() + cost
        }
        &&& !cache::has_page(after.frames(), page_id) ==> charged.charged_of() + cost
            > charged.limit_of()
    }
}

/// Whether a frame holds the bytes of its data page.
pub open spec fn frame_true(frame: cache::FrameView, pages: Seq<Seq<u8>>) -> bool {
    ledger::reusable(pages.len(), frame.page_id) && frame.data == pages[frame.page_id as int]
}

/// Whether two pagers differ at most in their cache and read count.
pub open spec fn same_but_cache(a: Pager, b: Pager) -> bool {
    &&& a.space_of() == b.space_of()
    &&& a.header() == b.header()
    &&& a.slot_of() == b.slot_of()
    &&& a.caches() == b.caches()
    &&& a.on_file() == b.on_file()
    &&& a.pending() == b.pending()
    &&& a.marks() == b.marks()
    &&& a.written_features() == b.written_features()
}

/// Whether two pagers differ at most in what their files still lack.
pub open spec fn same_but_file(a: Pager, b: Pager) -> bool {
    &&& a.space_of() == b.space_of()
    &&& a.header() == b.header()
    &&& a.slot_of() == b.slot_of()
    &&& a.caches() == b.caches()
    &&& a.frames() == b.frames()
    &&& a.reads() == b.reads()
    &&& a.written_features() == b.written_features()
}

/// What opening a file must answer, given what its slots read as.
pub open spec fn open_outcome(
    file: Seq<u8>,
    truncates: bool,
    a: DevonResult<Superblock>,
    b: DevonResult<Superblock>,
    result: DevonResult<Pager>,
) -> bool {
    let known = match a {
        Ok(found) => Some(found.page_size),
        Err(_) => None,
    };
    &&& slot_reads(file, 0, None, a)
    &&& second_slot_reads(file, known, b)
    &&& match result {
        Ok(pager) => {
            &&& superblock::authoritative(a, b) == Ok::<Superblock, DevonError>(pager.header())
            &&& length_lawful(file.len(), pager.header().page_size)
            &&& pager.wf()
            &&& pager.slot_of() == slot_choice(a, b)
            &&& pager.space_of().pages == pages_of(file, pager.header().page_size as nat)
            &&& pager.space_of().free == opened_free(
                pager.space_of().pages,
                pager.header().feature_flags,
                pager.slot_of(),
            )
            &&& pager.space_of().min_pin == 0
            &&& pager.space_of().truncates == truncates
            &&& !pager.caches()
            &&& pager.reads() == 0
            &&& pager.written_features() == (false, false)
            &&& pager.on_file() == pager.space_of().pages
            &&& pager.pending().len() == 0
        },
        Err(error) => match superblock::authoritative(a, b) {
            Ok(found) => !length_lawful(file.len(), found.page_size) && error.kind_of()
                == ErrorKind::Corrupt,
            Err(refusal) => error == refusal,
        },
    }
}

proof fn lemma_coherent_kept(a: Pager, b: Pager)
    requires
        b.coherent(),
        a.frames() == b.frames(),
        a.space_of().pages == b.space_of().pages,
    ensures
        a.coherent(),
{
    assert forall|i: int| 0 <= i < a.frames().len() implies frame_true(
        #[trigger] a.frames()[i],
        a.space_of().pages,
    ) by {
        assert(frame_true(b.frames()[i], b.space_of().pages));
    }
}

/// A read of a page that has a frame gives the frame its second chance back.
proof fn lemma_hit(before: Pager, after: Pager, page_id: u64, room: int)
    requires
        before.wf(),
        before.caches(),
        after.hand_of() == before.hand_of(),
        exists|i: int|
            0 <= i < before.frames().len() && (#[trigger] before.frames()[i]).page_id == page_id
                && after.frames() == before.frames().update(
                i,
                (cache::FrameView { referenced: true, ..before.frames()[i] }),
            ),
    ensures
        exists|pinned: Seq<bool>| #[trigger] read_through(before, after, page_id, room, pinned),
        cache::has_page(before.frames(), page_id),
        cache::same_pages(after.frames(), before.frames()),
{
    let i = choose|i: int|
        0 <= i < before.frames().len() && (#[trigger] before.frames()[i]).page_id == page_id
            && after.frames() == before.frames().update(
            i,
            (cache::FrameView { referenced: true, ..before.frames()[i] }),
        );
    let j = choose|j: int|
        0 <= j < before.frames().len() && (#[trigger] before.frames()[j]).page_id == page_id;
    let table = before.cache->0.table;
    assert(before.frames() == table.shown());
    assert(i == j) by {
        assert(table.shown()[i].page_id == table.shown()[j].page_id);
    }
    let pinned = Seq::new(before.frames().len(), |i: int| false);
    assert(after.clock() =~= cache::read_to(
        before.clock(),
        page_id,
        before.space_of().pages[page_id as int],
        pinned,
        before.frame_cost() as int,
        room,
    ));
    assert(read_through(before, after, page_id, room, pinned));
}

proof fn lemma_kept_true(before: PageCache, after: PageCache, pages: Seq<Seq<u8>>)
    requires
        cache::same_pages(after.table.shown(), before.table.shown()),
        forall|i: int|
            0 <= i < before.table.shown().len() ==> frame_true(
                #[trigger] before.table.shown()[i],
                pages,
            ),
    ensures
        forall|i: int|
            0 <= i < after.table.shown().len() ==> frame_true(
                #[trigger] after.table.shown()[i],
                pages,
            ),
{
    assert forall|i: int| 0 <= i < after.table.shown().len() implies frame_true(
        #[trigger] after.table.shown()[i],
        pages,
    ) by {
        assert(frame_true(before.table.shown()[i], pages));
    }
}

proof fn lemma_subset_true(before: PageCache, after: PageCache, pages: Seq<Seq<u8>>)
    requires
        cache::holds_subset(after.table, before.table),
        forall|i: int|
            0 <= i < before.table.shown().len() ==> frame_true(
                #[trigger] before.table.shown()[i],
                pages,
            ),
    ensures
        forall|i: int|
            0 <= i < after.table.shown().len() ==> frame_true(
                #[trigger] after.table.shown()[i],
                pages,
            ),
{
    assert forall|i: int| 0 <= i < after.table.shown().len() implies frame_true(
        #[trigger] after.table.shown()[i],
        pages,
    ) by {
        let frame = after.table.shown()[i];
        assert(cache::has_frame(before.table, frame.page_id, frame.data));
        let j = choose|j: int|
            0 <= j < before.table.shown().len() && (#[trigger] before.table.shown()[j]).page_id
                == frame.page_id && before.table.shown()[j].data == frame.data;
        assert(frame_true(before.table.shown()[j], pages));
    }
}

/// Whether a page can be written: no slot, of the right size, and at an
/// offset that a file can have.
pub open spec fn writable(page_id: u64, len: nat, page_size: nat) -> bool {
    &&& page_id >= SUPERBLOCK_SLOTS
    &&& len == page_size
    &&& page_id * page_size <= u64::MAX
    &&& page_id < usize::MAX
}

impl Pager {
    /// The part of lawfulness that does not speak of frames.
    pub(crate) closed spec fn wf_but_frames(self) -> bool {
        &&& self.space.wf()
        &&& self.superblock.page_size == self.space@.page_size
        &&& self.slot < 2
        &&& match self.cache {
            Some(cache) => cache.table.wf() && cache.frame_charge == self.space@.page_size
                + cache::FRAME_OVERHEAD,
            None => true,
        }
    }

    /// Drops the frames whose pages no longer hold their bytes.
    fn drop_stale_frames(&mut self, budget: &mut MemoryBudget)
        requires
            old(self).wf_but_frames(),
            old(self).ledger_log().len() == 0,
            old(self).within(*old(budget)),
        ensures
            final(self).wf(),
            final(self).within(*final(budget)),
            same_but_cache(*final(self), *old(self)),
            final(self).reads() == old(self).reads(),
            final(budget).limit_of() == old(budget).limit_of(),
            final(self).other_charges(*final(budget)) == old(self).other_charges(*old(budget)),
    {
        let ghost pages = self.space@.pages;
        match self.cache.take() {
            None => {},
            Some(held) => {
                let mut cache: PageCache = held;
                let ghost start = cache;
                let mut at: usize = 0;
                while at < cache.table.len()
                    invariant
                        at <= cache.table.shown().len(),
                        pages == self.space@.pages,
                        cache.table.wf(),
                        cache.within(*budget),
                        cache.frame_charge == start.frame_charge,
                        budget.limit_of() == old(budget).limit_of(),
                        cache.others(*budget) == start.others(*old(budget)),
                        forall|i: int|
                            0 <= i < at ==> frame_true(
                                #[trigger] cache.table.shown()[i],
                                pages,
                            ),
                    decreases cache.table.shown().len() - at,
                {
                    let ghost before = cache;
                    let (page_id, fresh): (u64, bool) = self.frame_is_true(&cache, at);
                    if fresh {
                        at += 1;
                    } else {
                        cache.drop_at(at, budget);
                        proof {
                            assert forall|i: int| 0 <= i < at implies frame_true(
                                #[trigger] cache.table.shown()[i],
                                pages,
                            ) by {
                                assert(cache.table.shown()[i] == before.table.shown()[i]);
                            }
                        }
                    }
                }
                self.cache = Some(cache);
            },
        }
    }

    /// The page of a frame, and whether the frame holds its bytes.
    fn frame_is_true(&self, cache: &PageCache, at: usize) -> (found: (u64, bool))
        requires
            at < cache.table.shown().len(),
        ensures
            found.0 == cache.table.shown()[at as int].page_id,
            found.1 == frame_true(cache.table.shown()[at as int], self.space_of().pages),
    {
        let (page_id, data): (u64, PageRef) = cache.table.peek(at);
        let count: usize = self.space.page_count();
        if page_id < SUPERBLOCK_SLOTS || page_id >= count as u64 {
            return (page_id, false);
        }
        let same: bool = same_bytes(
            data.bytes().as_slice(),
            self.space.page(page_id as usize).as_slice(),
        );
        (page_id, same)
    }

    /// Writes one data page, growing the file where it must.
    pub fn write_page(&mut self, page_id: u64, data: &[u8], budget: &mut MemoryBudget) -> (result:
        DevonResult<()>)
        requires
            old(self).wf(),
            old(self).within(*old(budget)),
        ensures
            final(self).wf(),
            final(self).caches() == old(self).caches(),
            final(self).written_features() == old(self).written_features(),
            final(self).within(*final(budget)),
            final(budget).limit_of() == old(budget).limit_of(),
            final(self).other_charges(*final(budget)) == old(self).other_charges(*old(budget)),
            final(self).header() == old(self).header(),
            final(self).slot_of() == old(self).slot_of(),
            final(self).reads() == old(self).reads(),
            final(self).on_file() == old(self).on_file(),
            final(self).marks() == old(self).marks(),
            match result {
                Ok(()) => {
                    &&& writable(page_id, data@.len(), old(self).space_of().page_size)
                    &&& final(self).space_of() == (SpaceView {
                        pages: ledger::put_page(
                            old(self).space_of().pages,
                            page_id as int,
                            data@,
                            old(self).space_of().page_size,
                        ),
                        ..old(self).space_of()
                    })
                    &&& final(self).pending() == old(self).pending().push(
                        (ActionView::Write { page: page_id, data: data@ }),
                    )
                    &&& final(self).clock() == cache::invalidated(old(self).clock(), page_id)
                },
                Err(error) => {
                    &&& !writable(page_id, data@.len(), old(self).space_of().page_size)
                    &&& error.kind_of() == ErrorKind::InvalidArgument
                    &&& *final(self) == *old(self)
                    &&& *final(budget) == *old(budget)
                },
            },
    {
        if page_id < SUPERBLOCK_SLOTS {
            return Err(invalid_argument("pages 0 and 1 are reserved for superblocks"));
        }
        let size: usize = self.space.page_size() as usize;
        if data.len() != size {
            return Err(invalid_argument("page data length must equal the database page size"));
        }
        if page_id.checked_mul(self.space.page_size() as u64).is_none() || page_id
            >= usize::MAX as u64 {
            return Err(invalid_argument("page offset overflows u64"));
        }
        let start: usize = self.space.actions().len();
        let mut page: Vec<u8> = Vec::new();
        crate::bytes::put_bytes(&mut page, data);
        assert(page@ =~= data@);
        self.space.write(page_id as usize, page);
        let ghost begin = *old(self);
        proof {
            assert(self.pending().subrange(0, start as int) =~= begin.pending());
            assert(self.clock() == begin.clock());
            assert(self.ledger_log() =~= Seq::empty());
        }
        self.settle_touches(start, budget, Ghost(begin));
        proof {
            let pins = choose|pins: Seq<Seq<bool>>| #[trigger]
                touch::touched(begin, *self, Seq::empty(), old(budget).room(), pins);
            touch::lemma_one_write(begin, *self, page_id, old(budget).room(), pins);
        }
        Ok(())
    }

    /// Asks for a flush of everything written.
    pub fn sync(&mut self)
        requires
            old(self).wf(),
        ensures
            final(self).wf(),
            same_but_file(*final(self), *old(self)),
            final(self).on_file() == old(self).on_file(),
            final(self).marks() == old(self).marks(),
            final(self).pending() == old(self).pending().push(ActionView::Sync),
    {
        self.space.sync();
        proof {
            lemma_coherent_kept(*self, *old(self));
        }
    }

    /// Evicts frames that nobody holds until `bytes` are given back to the
    /// budget or none is left; whether any was evicted.
    pub fn shed_cache(&mut self, bytes: usize, budget: &mut MemoryBudget) -> (any: bool)
        requires
            old(self).wf(),
            old(self).within(*old(budget)),
        ensures
            final(self).wf(),
            final(self).within(*final(budget)),
            same_but_cache(*final(self), *old(self)),
            final(self).reads() == old(self).reads(),
            final(budget).limit_of() == old(budget).limit_of(),
            final(self).other_charges(*final(budget)) == old(self).other_charges(*old(budget)),
            exists|pinned: Seq<bool>|
                pinned.len() == old(self).frames().len() && final(self).clock()
                    == #[trigger] cache::shed_to(
                    old(self).clock(),
                    pinned,
                    old(self).space_of().page_size + cache::FRAME_OVERHEAD,
                    bytes as int,
                ),
            cache::shed_bounds(
                old(self).frames().len(),
                final(self).frames(),
                old(self).space_of().page_size + cache::FRAME_OVERHEAD,
                bytes as int,
            ),
            any == (final(self).frames().len() < old(self).frames().len()),
            old(budget).charged_of() - final(budget).charged_of() == (old(self).frames().len()
                - final(self).frames().len()) * old(self).frame_cost(),
            bytes == 0 || !old(self).caches() ==> !any && final(self).clock() == old(
                self,
            ).clock(),
    {
        let ghost pages = self.space@.pages;
        match self.cache.take() {
            None => {
                proof {
                    let charge = old(self).space_of().page_size + cache::FRAME_OVERHEAD;
                    assert(cache::shed_to(
                        old(self).clock(),
                        Seq::empty(),
                        charge,
                        bytes as int,
                    ) == old(self).clock());
                    assert(0 * charge == 0) by (nonlinear_arith);
                }
                false
            },
            Some(held) => {
                let mut cache: PageCache = held;
                let ghost start = cache;
                proof {
                    assert forall|i: int| 0 <= i < start.table.shown().len() implies frame_true(
                        #[trigger] start.table.shown()[i],
                        pages,
                    ) by {
                        assert(old(self).frames()[i] == start.table.shown()[i]);
                    }
                }
                let any: bool = cache.shed(bytes, budget);
                proof {
                    lemma_subset_true(start, cache, pages);
                }
                let ghost after = cache.table.clock();
                self.cache = Some(cache);
                proof {
                    assert(old(self).clock() == start.table.clock());
                    assert(self.clock() == after);
                    let before = old(self).frames().len() as int;
                    let now = self.frames().len() as int;
                    let cost = self.frame_cost() as int;
                    assert(before * cost - now * cost == (before - now) * cost)
                        by (nonlinear_arith);
                }
                any
            },
        }
    }

    /// Allocates `count` zeroed pages with neighbouring ascending ids: free
    /// pages first, else the end of the file. The first id.
    pub fn allocate_run(&mut self, count: usize, budget: &mut MemoryBudget) -> (result: DevonResult<
        u64,
    >)
        requires
            old(self).wf(),
            old(self).within(*old(budget)),
        ensures
            final(self).wf(),
            final(self).caches() == old(self).caches(),
            final(self).written_features() == old(self).written_features(),
            final(self).within(*final(budget)),
            final(budget).limit_of() == old(budget).limit_of(),
            final(self).other_charges(*final(budget)) == old(self).other_charges(*old(budget)),
            final(self).header() == old(self).header(),
            final(self).slot_of() == old(self).slot_of(),
            exists|pins: Seq<Seq<bool>>| #[trigger]
                touch::touched(
                    *old(self),
                    *final(self),
                    space::reads_at(
                        old(self).pending().len() as usize,
                        ledger::allocation_reads(old(self).space_of(), count as nat),
                    ),
                    old(budget).room(),
                    pins,
                ),
            final(self).on_file() == old(self).on_file(),
            final(self).marks() == old(self).marks() + if count > 0 && ledger::reuse_run(
                old(self).space_of(),
                count as nat,
            ).0 is Some {
                seq![
                    space::MarkView {
                        at: final(self).pending().len(),
                        free: old(self).space_of().free,
                    },
                ]
            } else {
                Seq::empty()
            },
            final(self).pending() == old(self).pending() + space::served_writes(
                result.ok(),
                count as nat,
                old(self).space_of().page_size,
            ),
            count == 0 ==> result is Err && final(self).space_of() == old(self).space_of(),
            count > 0 ==> final(self).space_of() == ledger::allocate(
                old(self).space_of(),
                count as nat,
            ).1,
            match result {
                Ok(first) => ledger::allocate(old(self).space_of(), count as nat).0 == Some(first),
                Err(error) => {
                    &&& count > 0 ==> ledger::allocate(old(self).space_of(), count as nat).0 is None
                    &&& error.kind_of() == ErrorKind::InvalidArgument
                },
            },
    {
        let start: usize = self.space.actions().len();
        let ghost begin = *old(self);
        let result: DevonResult<u64> = self.space.allocate_run(count);
        proof {
            let log = space::reads_at(
                start,
                ledger::allocation_reads(begin.space_of(), count as nat),
            );
            assert(self.ledger_log() =~= log);
            assert(self.pending().subrange(0, start as int) =~= begin.pending());
            assert(self.clock() == begin.clock());
            lemma_allocated_size(begin.space_of(), count as nat);
        }
        self.settle_touches(start, budget, Ghost(begin));
        result
    }

    /// Allocates one zeroed page.
    pub fn allocate_page(&mut self, budget: &mut MemoryBudget) -> (result: DevonResult<u64>)
        requires
            old(self).wf(),
            old(self).within(*old(budget)),
        ensures
            final(self).wf(),
            final(self).caches() == old(self).caches(),
            final(self).written_features() == old(self).written_features(),
            final(self).within(*final(budget)),
            final(budget).limit_of() == old(budget).limit_of(),
            final(self).other_charges(*final(budget)) == old(self).other_charges(*old(budget)),
            final(self).header() == old(self).header(),
            final(self).slot_of() == old(self).slot_of(),
            exists|pins: Seq<Seq<bool>>| #[trigger]
                touch::touched(
                    *old(self),
                    *final(self),
                    space::reads_at(
                        old(self).pending().len() as usize,
                        ledger::allocation_reads(old(self).space_of(), 1),
                    ),
                    old(budget).room(),
                    pins,
                ),
            final(self).on_file() == old(self).on_file(),
            final(self).marks() == old(self).marks() + if ledger::reuse_run(
                old(self).space_of(),
                1,
            ).0 is Some {
                seq![
                    space::MarkView {
                        at: final(self).pending().len(),
                        free: old(self).space_of().free,
                    },
                ]
            } else {
                Seq::empty()
            },
            final(self).pending() == old(self).pending() + space::served_writes(
                result.ok(),
                1,
                old(self).space_of().page_size,
            ),
            final(self).space_of() == ledger::allocate(old(self).space_of(), 1).1,
            match result {
                Ok(first) => ledger::allocate(old(self).space_of(), 1).0 == Some(first),
                Err(error) => {
                    &&& ledger::allocate(old(self).space_of(), 1).0 is None
                    &&& error.kind_of() == ErrorKind::InvalidArgument
                },
            },
    {
        self.allocate_run(1, budget)
    }

    /// Retires the pages that the publication at `publish_lsn` leaves
    /// unreachable. Nothing of it is reachable before the next superblock
    /// commit.
    pub fn retire_pages(
        &mut self,
        superseded: &Vec<u64>,
        publish_lsn: u64,
        budget: &mut MemoryBudget,
    ) -> (result: DevonResult<()>)
        requires
            old(self).wf(),
            old(self).within(*old(budget)),
        ensures
            final(self).wf(),
            final(self).caches() == old(self).caches(),
            final(self).written_features() == old(self).written_features(),
            final(self).within(*final(budget)),
            final(budget).limit_of() == old(budget).limit_of(),
            final(self).other_charges(*final(budget)) == old(self).other_charges(*old(budget)),
            final(self).header() == old(self).header(),
            final(self).slot_of() == old(self).slot_of(),
            exists|log: Seq<(usize, u64)>, pins: Seq<Seq<bool>>|
                space::pages_read(log) == ledger::retire_reads(
                    old(self).space_of(),
                    space::members(superseded@),
                ) && #[trigger] touch::touched(
                    *old(self),
                    *final(self),
                    log,
                    old(budget).room(),
                    pins,
                ),
            final(self).on_file() == old(self).on_file(),
            space::marks_extend(old(self).marks(), final(self).marks()),
            space::unstaging(
                space::new_marks(old(self).marks(), final(self).marks()),
                old(self).space_of().free,
                old(self).pending().len(),
                final(self).pending().len(),
            ),
            result is Ok ==> {
                &&& final(self).marks().len() > old(self).marks().len()
                &&& final(self).marks().last().at == final(self).pending().len()
            },
            ({
                let (failure, after) = ledger::retire(
                    old(self).space_of(),
                    space::members(superseded@),
                    publish_lsn,
                );
                &&& final(self).space_of() == after
                &&& match result {
                    Ok(()) => failure is None,
                    Err(error) => failure == Some(error.kind_of()),
                }
            }),
            space::extends(old(self).pending(), final(self).pending()),
            exists|cut: Seq<ActionView>, counts: Seq<ActionView>| #[trigger]
                space::retire_actions(
                    old(self).space_of(),
                    space::members(superseded@),
                    publish_lsn,
                    cut,
                    counts,
                    space::added(old(self).pending(), final(self).pending()),
                ),
            space::spares_slots(space::added(old(self).pending(), final(self).pending())),
    {
        let ghost before = self.space@;
        let start: usize = self.space.actions().len();
        let ghost begin = *old(self);
        let result: DevonResult<()> = self.space.retire_pages(superseded, publish_lsn);
        proof {
            lemma_page_size_kept(before, space::members(superseded@), publish_lsn);
        }
        let ghost asked = self.pending();
        let ghost log = self.ledger_log();
        proof {
            assert(space::pages_read(begin.ledger_log()) =~= Seq::empty());
            assert(space::pages_read(log) =~= ledger::retire_reads(
                before,
                space::members(superseded@),
            ));
            assert(self.clock() == begin.clock());
        }
        self.settle_touches(start, budget, Ghost(begin));
        proof {
            assert(self.pending() == asked);
            let (cut, counts) = choose|cut: Seq<ActionView>, counts: Seq<ActionView>| #[trigger]
                space::retire_actions(
                    before,
                    space::members(superseded@),
                    publish_lsn,
                    cut,
                    counts,
                    space::added(old(self).pending(), asked),
                );
            assert(space::retire_actions(
                old(self).space_of(),
                space::members(superseded@),
                publish_lsn,
                cut,
                counts,
                space::added(old(self).pending(), self.pending()),
            ));
        }
        result
    }
}

/// A retirement keeps the page size.
proof fn lemma_page_size_kept(space: SpaceView, superseded: Set<u64>, lsn: u64)
    ensures
        ledger::retire(space, superseded, lsn).1.page_size == space.page_size,
{
    let (chain, start) = ledger::unlink(ledger::compact(space));
    let listing = ledger::retired_set(space, superseded);
    let begin = ledger::GatherView {
        space: start,
        listing,
        deferred: start.free.deferred,
        fresh: Seq::empty(),
    };
    lemma_gather_page_size(begin, chain, ledger::chunk_count(listing.len(), space.page_size));
}

/// Allocating keeps the page size.
proof fn lemma_allocated_size(space: SpaceView, count: nat)
    ensures
        ledger::allocate(space, count).1.page_size == space.page_size,
{
}

proof fn lemma_gather_page_size(gather: ledger::GatherView, chain: ledger::ChainView, steps: nat)
    ensures
        ledger::gather_all(gather, chain, steps).1.space.page_size == gather.space.page_size,
    decreases steps,
{
    if !(gather.fresh.len() >= ledger::pages_for(
        gather.listing.len(),
        free_pages::capacity_of(gather.space.page_size),
    ) || steps == 0) {
        match ledger::gather_one(gather, chain) {
            Some(next) => {
                lemma_gather_page_size(next, chain, (steps - 1) as nat);
            },
            None => {},
        }
    }
}

impl Pager {
    /// The page that a slot would hold.
    fn encode_slot_page(&self, superblock: &Superblock, include_pending: bool) -> (result:
        DevonResult<Vec<u8>>)
        ensures
            match result {
                Ok(page) => {
                    &&& superblock.encodable()
                    &&& page@ == slot_page(*superblock, self.named_chain(include_pending))
                    &&& page@.len() == superblock.page_size
                },
                Err(error) => !superblock.encodable() && error.kind_of()
                    == ErrorKind::InvalidArgument,
            },
    {
        let mut page: Vec<u8> = match encode_page(superblock) {
            Ok(page) => page,
            Err(error) => {
                return Err(error);
            },
        };
        if superblock.feature_flags & FREE_PAGES_FLAG != 0 {
            if let Some(extension) = self.space.slot_extension(include_pending) {
                return match extension.encode_into(&mut page) {
                    Ok(()) => Ok(page),
                    Err(error) => Err(error),
                };
            }
        }
        Ok(page)
    }

    /// The chain that a slot written now names.
    pub open spec fn named_chain(self, include_pending: bool) -> Option<SuperblockExtension> {
        if include_pending && self.space_of().free.pending is Some {
            self.space_of().free.pending
        } else {
            self.space_of().free.extension
        }
    }

    /// Writes a superblock into the slot that is not authoritative and asks
    /// for a flush; the slot. The commit counts once it is settled.
    pub fn stage_commit(&mut self, superblock: &Superblock) -> (result: DevonResult<u8>)
        requires
            old(self).wf(),
        ensures
            final(self).wf(),
            final(self).written_features() == old(self).written_features(),
            final(self).header() == old(self).header(),
            final(self).slot_of() == old(self).slot_of(),
            final(self).frames() == old(self).frames(),
            final(self).caches() == old(self).caches(),
            final(self).reads() == old(self).reads(),
            final(self).on_file() == old(self).on_file(),
            final(self).marks() == old(self).marks(),
            match result {
                Ok(slot) => {
                    &&& commit_valid(old(self).header(), *superblock)
                    &&& superblock.encodable()
                    &&& slot == 1 - old(self).slot_of()
                    &&& final(self).space_of() == (SpaceView {
                        pages: old(self).space_of().pages.update(
                            slot as int,
                            slot_page(*superblock, old(self).named_chain(true)),
                        ),
                        ..old(self).space_of()
                    })
                    &&& final(self).pending() == old(self).pending() + seq![
                        ActionView::Write {
                            page: slot as u64,
                            data: slot_page(*superblock, old(self).named_chain(true)),
                        },
                        ActionView::Sync,
                    ]
                },
                Err(error) => {
                    &&& !commit_valid(old(self).header(), *superblock) || !superblock.encodable()
                    &&& error.kind_of() == ErrorKind::InvalidArgument
                    &&& *final(self) == *old(self)
                },
            },
    {
        proof {
            self.lemma_wf();
        }
        match ensure_commit_is_valid(&self.superblock, superblock) {
            Ok(()) => {},
            Err(error) => {
                return Err(error);
            },
        }
        let page: Vec<u8> = match self.encode_slot_page(superblock, true) {
            Ok(page) => page,
            Err(error) => {
                return Err(error);
            },
        };
        let slot: u8 = 1 - self.slot;
        let ghost asked = self.pending();
        let ghost bytes = page@;
        self.space.write(slot as usize, page);
        self.space.sync();
        proof {
            lemma_slot_written(*self, *old(self));
            assert(self.pending() =~= asked + seq![
                ActionView::Write { page: slot as u64, data: bytes },
                ActionView::Sync,
            ]);
        }
        Ok(slot)
    }

    /// Settles a staged commit. Where the flush failed the old superblock
    /// stays authoritative, but the slot may be durable.
    pub fn settle_commit(&mut self, superblock: Superblock, slot: u8, synced: bool)
        requires
            old(self).wf(),
            slot < 2,
            superblock.page_size == old(self).header().page_size,
        ensures
            final(self).wf(),
            final(self).written_features() == old(self).written_features(),
            final(self).frames() == old(self).frames(),
            final(self).caches() == old(self).caches(),
            final(self).reads() == old(self).reads(),
            final(self).on_file() == old(self).on_file(),
            final(self).marks() == old(self).marks(),
            final(self).pending() == old(self).pending(),
            final(self).header() == (if synced {
                superblock
            } else {
                old(self).header()
            }),
            final(self).slot_of() == (if synced {
                slot
            } else {
                old(self).slot_of()
            }),
            final(self).space_of() == (SpaceView {
                free: if synced {
                    space::promoted(old(self).space_of().free)
                } else {
                    space::flip_failed(old(self).space_of().free)
                },
                ..old(self).space_of()
            }),
    {
        if !synced {
            self.space.note_failed_flip();
        } else {
            self.superblock = superblock;
            self.slot = slot;
            self.space.promote();
        }
        proof {
            lemma_coherent_kept(*self, *old(self));
        }
    }

    /// Commits a superblock to the slot that is not authoritative.
    pub fn commit_superblock(&mut self, superblock: Superblock) -> (result: DevonResult<()>)
        requires
            old(self).wf(),
        ensures
            final(self).wf(),
            final(self).written_features() == old(self).written_features(),
            final(self).frames() == old(self).frames(),
            final(self).caches() == old(self).caches(),
            final(self).reads() == old(self).reads(),
            final(self).on_file() == old(self).on_file(),
            final(self).marks() == old(self).marks(),
            match result {
                Ok(()) => {
                    &&& commit_valid(old(self).header(), superblock)
                    &&& superblock.encodable()
                    &&& final(self).header() == superblock
                    &&& final(self).slot_of() == 1 - old(self).slot_of()
                    &&& final(self).space_of() == (SpaceView {
                        pages: old(self).space_of().pages.update(
                            1 - old(self).slot_of(),
                            slot_page(superblock, old(self).named_chain(true)),
                        ),
                        free: space::promoted(old(self).space_of().free),
                        ..old(self).space_of()
                    })
                    &&& final(self).pending() == old(self).pending() + seq![
                        ActionView::Write {
                            page: (1 - old(self).slot_of()) as u64,
                            data: slot_page(superblock, old(self).named_chain(true)),
                        },
                        ActionView::Sync,
                    ]
                },
                Err(error) => {
                    &&& !commit_valid(old(self).header(), superblock) || !superblock.encodable()
                    &&& error.kind_of() == ErrorKind::InvalidArgument
                    &&& *final(self) == *old(self)
                },
            },
    {
        match self.stage_commit(&superblock) {
            Ok(slot) => {
                self.settle_commit(superblock, slot, true);
                Ok(())
            },
            Err(error) => Err(error),
        }
    }

    /// Writes new feature flags into both slots, the one that is not
    /// authoritative first, and asks for a flush after each; the superblock
    /// with these flags. It counts once it is settled. The pending chain is
    /// not part of it.
    pub fn stage_feature_flags(&mut self, feature_flags: u64) -> (result: DevonResult<Superblock>)
        requires
            old(self).wf(),
        ensures
            final(self).wf(),
            final(self).written_features() == old(self).written_features(),
            final(self).header() == old(self).header(),
            final(self).slot_of() == old(self).slot_of(),
            final(self).frames() == old(self).frames(),
            final(self).caches() == old(self).caches(),
            final(self).reads() == old(self).reads(),
            final(self).on_file() == old(self).on_file(),
            final(self).marks() == old(self).marks(),
            ({
                let next = Superblock { feature_flags, ..old(self).header() };
                let page = slot_page(next, old(self).named_chain(false));
                match result {
                    Ok(found) => {
                        &&& next.encodable()
                        &&& found == next
                        &&& final(self).space_of() == (SpaceView {
                            pages: old(self).space_of().pages.update(0, page).update(1, page),
                            ..old(self).space_of()
                        })
                        &&& final(self).pending() == old(self).pending() + flag_actions(
                            old(self).slot_of(),
                            page,
                        )
                    },
                    Err(error) => {
                        &&& !next.encodable()
                        &&& error.kind_of() == ErrorKind::InvalidArgument
                        &&& *final(self) == *old(self)
                    },
                }
            }),
    {
        proof {
            self.lemma_wf();
        }
        let next = Superblock {
            format_version: self.superblock.format_version,
            min_reader_version: self.superblock.min_reader_version,
            feature_flags,
            page_size: self.superblock.page_size,
            db_id: self.superblock.db_id,
            checkpoint_lsn: self.superblock.checkpoint_lsn,
            catalog_root: self.superblock.catalog_root,
        };
        let page: Vec<u8> = match self.encode_slot_page(&next, false) {
            Ok(page) => page,
            Err(error) => {
                return Err(error);
            },
        };
        let ghost before = self.space@.pages;
        let ghost asked = self.pending();
        let ghost bytes = page@;
        let copy: Vec<u8> = page.clone();
        assert(copy@ =~= page@);
        let other: usize = (1 - self.slot) as usize;
        let own: usize = self.slot as usize;
        self.space.write(other, copy);
        self.space.sync();
        self.space.write(own, page);
        self.space.sync();
        proof {
            assert(self.space@.pages =~= before.update(0, bytes).update(1, bytes));
            lemma_slot_written(*self, *old(self));
            assert(self.pending() =~= asked + flag_actions(old(self).slot_of(), bytes));
        }
        Ok(next)
    }

    /// Settles staged feature flags: where both flushes succeeded the
    /// superblock with them counts.
    pub fn settle_feature_flags(&mut self, superblock: Superblock, synced: bool)
        requires
            old(self).wf(),
            superblock.page_size == old(self).header().page_size,
        ensures
            final(self).wf(),
            final(self).written_features() == old(self).written_features(),
            final(self).header() == (if synced {
                superblock
            } else {
                old(self).header()
            }),
            final(self).slot_of() == old(self).slot_of(),
            final(self).space_of() == old(self).space_of(),
            final(self).frames() == old(self).frames(),
            final(self).caches() == old(self).caches(),
            final(self).reads() == old(self).reads(),
            final(self).on_file() == old(self).on_file(),
            final(self).marks() == old(self).marks(),
            final(self).pending() == old(self).pending(),
    {
        if synced {
            self.superblock = superblock;
        }
        proof {
            lemma_coherent_kept(*self, *old(self));
        }
    }

    /// Publishes new feature flags in both slots without a new checkpoint.
    /// The pending chain is not part of it.
    pub fn commit_feature_flags(&mut self, feature_flags: u64) -> (result: DevonResult<()>)
        requires
            old(self).wf(),
        ensures
            final(self).wf(),
            final(self).written_features() == old(self).written_features(),
            final(self).frames() == old(self).frames(),
            final(self).caches() == old(self).caches(),
            final(self).reads() == old(self).reads(),
            final(self).slot_of() == old(self).slot_of(),
            final(self).on_file() == old(self).on_file(),
            final(self).marks() == old(self).marks(),
            ({
                let next = Superblock { feature_flags, ..old(self).header() };
                let page = slot_page(next, old(self).named_chain(false));
                match result {
                    Ok(()) => if old(self).header().feature_flags == feature_flags {
                        *final(self) == *old(self)
                    } else {
                        &&& next.encodable()
                        &&& final(self).header() == next
                        &&& final(self).space_of() == (SpaceView {
                            pages: old(self).space_of().pages.update(0, page).update(1, page),
                            ..old(self).space_of()
                        })
                        &&& final(self).pending() == old(self).pending() + flag_actions(
                            old(self).slot_of(),
                            page,
                        )
                    },
                    Err(error) => {
                        &&& !next.encodable()
                        &&& old(self).header().feature_flags != feature_flags
                        &&& error.kind_of() == ErrorKind::InvalidArgument
                        &&& *final(self) == *old(self)
                    },
                }
            }),
    {
        if self.superblock.feature_flags == feature_flags {
            return Ok(());
        }
        match self.stage_feature_flags(feature_flags) {
            Ok(next) => {
                self.settle_feature_flags(next, true);
                Ok(())
            },
            Err(error) => Err(error),
        }
    }

    /// The authoritative superblock.
    #[must_use]
    pub fn superblock(&self) -> (superblock: Superblock)
        ensures
            superblock == self.header(),
    {
        Superblock {
            format_version: self.superblock.format_version,
            min_reader_version: self.superblock.min_reader_version,
            feature_flags: self.superblock.feature_flags,
            page_size: self.superblock.page_size,
            db_id: self.superblock.db_id,
            checkpoint_lsn: self.superblock.checkpoint_lsn,
            catalog_root: self.superblock.catalog_root,
        }
    }

    /// The authoritative slot.
    #[must_use]
    pub fn authoritative_slot(&self) -> (slot: u8)
        ensures
            slot == self.slot_of(),
    {
        self.slot
    }

    /// How many pages the file has.
    #[must_use]
    pub fn page_count(&self) -> (count: usize)
        ensures
            count == self.space_of().pages.len(),
    {
        self.space.page_count()
    }

    /// Raises the pin horizon; a lower candidate is ignored.
    pub fn raise_min_pin(&mut self, candidate: u64)
        requires
            old(self).wf(),
        ensures
            final(self).wf(),
            final(self).caches() == old(self).caches(),
            final(self).reads() == old(self).reads(),
            final(self).on_file() == old(self).on_file(),
            final(self).marks() == old(self).marks(),
            final(self).pending() == old(self).pending(),
            final(self).written_features() == old(self).written_features(),
            final(self).header() == old(self).header(),
            final(self).slot_of() == old(self).slot_of(),
            final(self).frames() == old(self).frames(),
            final(self).space_of() == (SpaceView {
                min_pin: if candidate > old(self).space_of().min_pin {
                    candidate as nat
                } else {
                    old(self).space_of().min_pin
                },
                ..old(self).space_of()
            }),
    {
        self.space.raise_min_pin(candidate);
        proof {
            lemma_coherent_kept(*self, *old(self));
        }
    }

    /// The pin horizon.
    #[must_use]
    pub fn min_pin(&self) -> (pin: u64)
        ensures
            pin == self.space_of().min_pin,
    {
        self.space.min_pin()
    }

    /// Whether the file names a ledger after the next slot write.
    #[must_use]
    pub fn has_free_pages_ledger(&self) -> (yes: bool)
        ensures
            yes == (self.named_chain(true) matches Some(extension) && extension.names_ledger()),
    {
        match self.space.slot_extension(true) {
            Some(extension) => extension.has_ledger(),
            None => false,
        }
    }

    /// The chain that the authoritative slot names; `None` without a ledger
    /// and where it was abandoned.
    #[must_use]
    pub fn free_pages_extension(&self) -> (extension: Option<SuperblockExtension>)
        ensures
            extension == self.space_of().free.extension,
    {
        self.space.slot_extension(false)
    }

    /// Pages handed out again in this session.
    #[must_use]
    pub fn free_pages_session_reused(&self) -> (count: u64)
        ensures
            count == self.space_of().free.reused,
    {
        self.space.session_counts().0
    }

    /// Pages cut off the file in this session.
    #[must_use]
    pub fn free_pages_session_truncated(&self) -> (count: u64)
        ensures
            count == self.space_of().free.truncated,
    {
        self.space.session_counts().1
    }

    /// Whether the ledger was abandoned in this session.
    #[must_use]
    pub fn free_pages_degraded(&self) -> (yes: bool)
        ensures
            yes == self.space_of().free.degraded,
    {
        self.space.session_counts().2
    }

    /// Walks the ledger: each page with what it says.
    pub fn free_pages_ledger_pages(&mut self, budget: &mut MemoryBudget) -> (result:
        DevonResult<Vec<(u64, LedgerPage)>>)
        requires
            old(self).wf(),
            old(self).within(*old(budget)),
        ensures
            final(self).wf(),
            final(self).within(*final(budget)),
            same_but_cache(*final(self), *old(self)),
            final(budget).limit_of() == old(budget).limit_of(),
            final(self).other_charges(*final(budget)) == old(self).other_charges(*old(budget)),
            final(self).reads() == touch::counted(
                old(self).reads(),
                ledger_walk_reads(old(self).space_of()),
            ),
            match old(self).space_of().free.extension {
                Some(extension) => if extension.names_ledger() {
                    match result {
                        Ok(pages) => ledger_walk(
                            old(self).space_of().pages,
                            extension.retire_ledger_tail,
                            extension.retire_ledger_head,
                            Seq::empty(),
                        ) == Ok::<Seq<(u64, LedgerView)>, ErrorKind>(walked(pages@)),
                        Err(error) => ledger_walk(
                            old(self).space_of().pages,
                            extension.retire_ledger_tail,
                            extension.retire_ledger_head,
                            Seq::empty(),
                        ) == Err::<Seq<(u64, LedgerView)>, ErrorKind>(error.kind_of()),
                    }
                } else {
                    result matches Ok(pages) && pages@.len() == 0
                },
                None => result matches Ok(pages) && pages@.len() == 0,
            },
    {
        let mut pages: Vec<(u64, LedgerPage)> = Vec::new();
        let extension: SuperblockExtension = match self.free_pages_extension() {
            Some(extension) => extension,
            None => {
                return Ok(pages);
            },
        };
        if !extension.has_ledger() {
            return Ok(pages);
        }
        let ghost held = self.space_of().pages;
        let ghost reads = ledger_walk_reads(self.space_of());
        let ghost mut done_reads: nat = 0;
        let ghost spec = ledger_walk(
            self.space_of().pages,
            extension.retire_ledger_tail,
            extension.retire_ledger_head,
            Seq::empty(),
        );
        let mut cursor: u64 = extension.retire_ledger_head;
        assert(walked(pages@) =~= Seq::<(u64, LedgerView)>::empty());
        loop
            invariant
                self.wf(),
                self.within(*budget),
                same_but_cache(*self, *old(self)),
                budget.limit_of() == old(budget).limit_of(),
                self.other_charges(*budget) == old(self).other_charges(*old(budget)),
                self.reads() == touch::counted(old(self).reads(), done_reads),
                held == self.space_of().pages,
                reads == ledger_walk_reads(old(self).space_of()),
                reads == done_reads + ledger_reads_from(
                    held,
                    extension.retire_ledger_tail,
                    cursor,
                    walked(pages@),
                ),
                self.space_of().free.extension == Some(extension),
                extension.names_ledger(),
                spec == ledger_walk(
                    self.space_of().pages,
                    extension.retire_ledger_tail,
                    extension.retire_ledger_head,
                    Seq::empty(),
                ),
                spec == ledger_walk(
                    self.space_of().pages,
                    extension.retire_ledger_tail,
                    cursor,
                    walked(pages@),
                ),
                pages@.len() <= self.space_of().pages.len(),
            decreases self.space_of().pages.len() - pages@.len(),
        {
            let ghost done = walked(pages@);
            if was_walked(&pages, cursor) || pages.len() >= self.space.page_count() {
                return Err(corrupt("free-page ledger chain revisits a page (cycle detected)"));
            }
            let bytes: PageRef = match self.read_page_ref(cursor, budget) {
                Ok(bytes) => bytes,
                Err(error) => {
                    return Err(error);
                },
            };
            proof {
                assert(touch::counted(old(self).reads(), (done_reads + 1) as nat) == self.reads());
                done_reads = done_reads + 1;
            }
            let page: LedgerPage = match LedgerPage::decode(bytes.bytes().as_slice()) {
                Ok(page) => page,
                Err(error) => {
                    return Err(error);
                },
            };
            let next: u64 = page.next_page;
            let ghost shown = page@;
            pages.push((cursor, page));
            assert(walked(pages@) =~= done.push((cursor, shown)));
            if cursor == extension.retire_ledger_tail {
                if next != 0 {
                    return Err(
                        corrupt("free-page ledger tail page names a successor (cycle detected)"),
                    );
                }
                return Ok(pages);
            }
            if next == 0 {
                return Ok(pages);
            }
            cursor = next;
        }
    }

    /// Reads of data pages since the pager was opened or the count reset.
    #[must_use]
    pub fn page_read_count(&self) -> (count: u64)
        ensures
            count == self.reads(),
    {
        self.page_reads
    }

    /// Sets the read count to zero.
    pub fn reset_page_read_count(&mut self)
        requires
            old(self).wf(),
        ensures
            final(self).wf(),
            same_but_cache(*final(self), *old(self)),
            final(self).frames() == old(self).frames(),
            final(self).reads() == 0,
    {
        self.page_reads = 0;
        proof {
            lemma_coherent_kept(*self, *old(self));
        }
    }

    /// The bytes charged to cached frames.
    #[must_use]
    pub fn cache_charged_bytes(&self) -> (bytes: usize)
        requires
            self.wf(),
        ensures
            bytes == if self.cache_charges() <= usize::MAX {
                self.cache_charges()
            } else {
                usize::MAX as nat
            },
            forall|budget: MemoryBudget|
                #[trigger] self.within(budget) ==> bytes <= budget.charged_of(),
    {
        match &self.cache {
            Some(cache) => match cache.table.len().checked_mul(cache.frame_charge) {
                Some(bytes) => bytes,
                None => usize::MAX,
            },
            None => 0,
        }
    }

    /// Whether a page is cached.
    #[must_use]
    pub fn is_cached(&self, page_id: u64) -> (yes: bool)
        ensures
            yes == cache::has_page(self.frames(), page_id),
    {
        match &self.cache {
            Some(cache) => {
                assert(self.frames() == cache.table.shown());
                assert forall|i: int| 0 <= i < self.frames().len() implies #[trigger] self.frames()[i]
                    == cache.table.shown()[i] by {}
                assert forall|i: int|
                    0 <= i < cache.table.shown().len() implies #[trigger] cache.table.shown()[i]
                    == self.frames()[i] by {}
                cache.table.contains(page_id)
            },
            None => false,
        }
    }

    /// How many pages are cached.
    #[must_use]
    pub fn cached_pages(&self) -> (count: usize)
        ensures
            count == self.frames().len(),
    {
        match &self.cache {
            Some(cache) => cache.table.len(),
            None => 0,
        }
    }

    /// Gives the cache's charges back, before the pager is let go.
    pub fn release_cache(&mut self, budget: &mut MemoryBudget)
        requires
            old(self).wf(),
            old(self).within(*old(budget)),
        ensures
            final(self).wf(),
            same_but_cache(*final(self), *old(self)),
            final(self).frames().len() == 0,
            final(self).reads() == old(self).reads(),
            final(budget).limit_of() == old(budget).limit_of(),
            final(budget).charged_of() == old(self).other_charges(*old(budget)),
    {
        match self.cache.take() {
            None => {},
            Some(held) => {
                let mut cache: PageCache = held;
                cache.release_all(budget);
                self.cache = Some(cache);
            },
        }
    }

    /// Records that a node group with zone maps was written.
    pub fn note_zone_maps_written(&mut self)
        requires
            old(self).wf(),
        ensures
            final(self).wf(),
            final(self).space_of() == old(self).space_of(),
            final(self).header() == old(self).header(),
            final(self).slot_of() == old(self).slot_of(),
            final(self).caches() == old(self).caches(),
            final(self).frames() == old(self).frames(),
            final(self).reads() == old(self).reads(),
            final(self).on_file() == old(self).on_file(),
            final(self).marks() == old(self).marks(),
            final(self).pending() == old(self).pending(),
            final(self).written_features() == (true, old(self).written_features().1),
    {
        self.wrote_zone_maps = true;
        proof {
            lemma_coherent_kept(*self, *old(self));
        }
    }

    /// Whether a node group with zone maps was written.
    #[must_use]
    pub fn has_written_zone_maps(&self) -> (yes: bool)
        ensures
            yes == self.written_features().0,
    {
        self.wrote_zone_maps
    }

    /// Records that a node group with column encodings was written.
    pub fn note_column_encodings_written(&mut self)
        requires
            old(self).wf(),
        ensures
            final(self).wf(),
            final(self).space_of() == old(self).space_of(),
            final(self).header() == old(self).header(),
            final(self).slot_of() == old(self).slot_of(),
            final(self).caches() == old(self).caches(),
            final(self).frames() == old(self).frames(),
            final(self).reads() == old(self).reads(),
            final(self).on_file() == old(self).on_file(),
            final(self).marks() == old(self).marks(),
            final(self).pending() == old(self).pending(),
            final(self).written_features() == (old(self).written_features().0, true),
    {
        self.wrote_column_encodings = true;
        proof {
            lemma_coherent_kept(*self, *old(self));
        }
    }

    /// Whether a node group with column encodings was written.
    #[must_use]
    pub fn has_written_column_encodings(&self) -> (yes: bool)
        ensures
            yes == self.written_features().1,
    {
        self.wrote_column_encodings
    }

    /// The bytes of the whole file.
    #[must_use]
    pub fn image(&self) -> (file: Vec<u8>)
        ensures
            file@ == crate::bytes::joined(self.space_of().pages),
    {
        let ghost pages = self.space_of().pages;
        let mut file: Vec<u8> = Vec::new();
        let mut i: usize = 0;
        assert(pages.subrange(0, 0) =~= Seq::<Seq<u8>>::empty());
        while i < self.space.page_count()
            invariant
                i <= pages.len(),
                pages == self.space_of().pages,
                file@ == crate::bytes::joined(pages.subrange(0, i as int)),
            decreases pages.len() - i,
        {
            crate::bytes::put_bytes(&mut file, self.space.page(i).as_slice());
            assert(pages.subrange(0, i + 1).drop_last() =~= pages.subrange(0, i as int));
            i += 1;
        }
        assert(pages.subrange(0, pages.len() as int) =~= pages);
        file
    }
}

/// Whether a page was walked over.
fn was_walked(pages: &Vec<(u64, LedgerPage)>, cursor: u64) -> (yes: bool)
    ensures
        yes == exists|i: int|
            0 <= i < walked(pages@).len() && (#[trigger] walked(pages@)[i]).0 == cursor,
{
    let mut i: usize = 0;
    while i < pages.len()
        invariant
            i <= pages@.len(),
            forall|j: int| 0 <= j < i ==> (#[trigger] walked(pages@)[j]).0 != cursor,
        decreases pages@.len() - i,
    {
        if pages[i].0 == cursor {
            assert(walked(pages@)[i as int].0 == cursor);
            return true;
        }
        i += 1;
    }
    false
}

/// Writing slots leaves every frame true.
proof fn lemma_slot_written(after: Pager, before: Pager)
    requires
        before.coherent(),
        after.frames() == before.frames(),
        after.space_of().pages.len() == before.space_of().pages.len(),
        forall|i: int|
            SUPERBLOCK_SLOTS <= i < before.space_of().pages.len()
                ==> #[trigger] after.space_of().pages[i] == before.space_of().pages[i],
    ensures
        after.coherent(),
{
    assert forall|i: int| 0 <= i < after.frames().len() implies frame_true(
        #[trigger] after.frames()[i],
        after.space_of().pages,
    ) by {
        assert(frame_true(before.frames()[i], before.space_of().pages));
    }
}

/// A committed superblock is what its slot decodes to, and its chain is what
/// the slot's extension reads as.
pub proof fn law_committed_slot_reads_back(
    superblock: Superblock,
    extension: Option<SuperblockExtension>,
)
    requires
        superblock.encodable(),
    ensures
        ({
            let page = slot_page(superblock, extension);
            &&& page.len() == superblock.page_size
            &&& !superblock::frame_refused(page)
            &&& superblock.read_from(page)
            &&& superblock.feature_flags & FREE_PAGES_FLAG != 0 && extension is Some
                ==> free_pages::extension_of(page) == extension
        }),
{
    let plain = superblock.slot_bytes(superblock.page_size as nat);
    superblock.lemma_header_layout();
    superblock::law_slot_round_trip(superblock, superblock.page_size as nat);
    if superblock.feature_flags & FREE_PAGES_FLAG != 0 && extension is Some {
        let page = slot_page(superblock, extension);
        let chain = extension->0;
        free_pages::law_extension_round_trip(plain, chain);
        crate::bytes::lemma_le_bytes_len(chain.retire_ledger_head as nat, 8);
        crate::bytes::lemma_le_bytes_len(chain.retire_ledger_tail as nat, 8);
        crate::bytes::lemma_le_bytes_len(chain.retired_total as nat, 8);
        crate::bytes::lemma_le_bytes_len(
            crate::checksum::crc32c_of(free_pages::extension_fields(chain)) as nat,
            4,
        );
        assert(page.subrange(0, 64) =~= plain.subrange(0, 64));
        assert(page.subrange(0, 8) =~= plain.subrange(0, 8));
        assert(page.subrange(0, 60) =~= plain.subrange(0, 60));
        assert(page.subrange(60, 64) =~= plain.subrange(60, 64));
        assert(page.subrange(8, 12) =~= plain.subrange(8, 12));
        assert(page.subrange(12, 16) =~= plain.subrange(12, 16));
        assert(page.subrange(16, 24) =~= plain.subrange(16, 24));
        assert(page.subrange(24, 28) =~= plain.subrange(24, 28));
        assert(page.subrange(28, 44) =~= plain.subrange(28, 44));
        assert(page.subrange(44, 52) =~= plain.subrange(44, 52));
        assert(page.subrange(52, 60) =~= plain.subrange(52, 60));
    }
}

} // verus!
