//! The parts of a database file that say what its pages are for.

use vstd::prelude::*;
use vstd::slice::slice_subrange;

use crate::budget::MemoryBudget;
use crate::bytes;
use crate::bytes::{get_le, put_bytes};
use crate::checksum;
use crate::checksum::crc32c;
use crate::error::ErrorKind;
use crate::free_pages;
use crate::free_pages::{LedgerEntry, LedgerPage, SuperblockExtension};
use crate::stats::accounting;
use crate::stats::accounting::{
    account_group, begins_with, read_page, Accounting, GroupLayout, PageClass, Progress, Scene,
};
use crate::stats::{corrupt, over_budget, FreeLedgerStatus, StatsError};
use crate::superblock;
use crate::superblock::valid_page_size;
use crate::text::{and_number, with_name};

verus! {

/// What of a superblock says where things are.
#[derive(Debug, Clone, Copy, PartialEq, Eq, Structural)]
pub struct Head {
    pub feature_flags: u64,
    pub page_size: u32,
    pub checkpoint_lsn: u64,
    pub catalog_root: u64,
}

/// The superblock that stands at a place, if one does.
pub open spec fn head_at(image: Seq<u8>, offset: int) -> Option<Head> {
    let header = image.subrange(offset, offset + 64);
    if offset + 64 > image.len() || header.subrange(0, 8) != superblock::magic()
        || checksum::crc32c_of(header.subrange(0, 60)) != bytes::le_at(header, 60, 4)
        || bytes::le_at(header, 12, 4) > bytes::le_at(header, 8, 4) || bytes::le_at(header, 12, 4)
        > 1 || !superblock::is_page_size(bytes::le_at(header, 24, 4) as u32) {
        None
    } else {
        Some(
            Head {
                feature_flags: bytes::le_at(header, 16, 8) as u64,
                page_size: bytes::le_at(header, 24, 4) as u32,
                checkpoint_lsn: bytes::le_at(header, 44, 8) as u64,
                catalog_root: bytes::le_at(header, 52, 8) as u64,
            },
        )
    }
}

/// The superblock at a place, if it has a page size.
pub open spec fn sized_head(image: Seq<u8>, page_size: u32) -> Option<Head> {
    match head_at(image, page_size as int) {
        Some(head) => if head.page_size == page_size {
            Some(head)
        } else {
            None
        },
        None => None,
    }
}

/// The second superblock where the first cannot be read: it stands behind a
/// page of the size that it says.
pub open spec fn second_head(image: Seq<u8>) -> Option<Head> {
    if sized_head(image, 4096) is Some {
        sized_head(image, 4096)
    } else if sized_head(image, 8192) is Some {
        sized_head(image, 8192)
    } else if sized_head(image, 16384) is Some {
        sized_head(image, 16384)
    } else if sized_head(image, 32768) is Some {
        sized_head(image, 32768)
    } else {
        sized_head(image, 65536)
    }
}

/// The superblock that counts, and its slot: the newer one, the first of two
/// equally new.
pub open spec fn selected(image: Seq<u8>) -> Option<(Head, u64)> {
    let first = head_at(image, 0);
    let second = match first {
        Some(head) => sized_head(image, head.page_size),
        None => second_head(image),
    };
    match (first, second) {
        (Some(a), Some(b)) => if b.checkpoint_lsn > a.checkpoint_lsn {
            Some((b, 1))
        } else {
            Some((a, 0))
        },
        (Some(a), None) => Some((a, 0)),
        (None, Some(b)) => Some((b, 1)),
        (None, None) => None,
    }
}

fn is_magic(page: &Vec<u8>, from: usize) -> (yes: bool)
    requires
        from + 64 <= page@.len(),
    ensures
        yes == (page@.subrange(from as int, from + 64).subrange(0, 8) == superblock::magic()),
{
    let total: usize = page.len();
    assert(from + 64 <= total);
    let yes: bool = page[from] == 0x44 && page[from + 1] == 0x45 && page[from + 2] == 0x56
        && page[from + 3] == 0x4f && page[from + 4] == 0x4e && page[from + 5] == 0x44
        && page[from + 6] == 0x42 && page[from + 7] == 0;
    proof {
        let head = page@.subrange(from as int, from + 64).subrange(0, 8);
        let want = superblock::magic();
        if yes {
            assert(head =~= want);
        } else if head == want {
            assert(head[0] == want[0] && head[1] == want[1] && head[2] == want[2] && head[3]
                == want[3] && head[4] == want[4] && head[5] == want[5] && head[6] == want[6]
                && head[7] == want[7]);
        }
    }
    yes
}

fn read_superblock_at(image: &Vec<u8>, offset: usize) -> (found: Option<Head>)
    requires
        offset <= 65536,
    ensures
        found == head_at(image@, offset as int),
{
    if image.len() < 64 || offset > image.len() - 64 {
        return None;
    }
    let ghost header = image@.subrange(offset as int, offset + 64);
    if !is_magic(image, offset) {
        return None;
    }
    let head: &[u8] = slice_subrange(image.as_slice(), offset, offset + 64);
    assert(head@ == header);
    let computed: u32 = crc32c(slice_subrange(head, 0, 60));
    if computed as u64 != get_le(head, 60, 4) {
        return None;
    }
    let format_version: u64 = get_le(head, 8, 4);
    let min_reader_version: u64 = get_le(head, 12, 4);
    if min_reader_version > format_version || min_reader_version > 1 {
        return None;
    }
    proof {
        bytes::lemma_radix_values();
    }
    let page_size: u32 = get_le(head, 24, 4) as u32;
    if !valid_page_size(page_size) {
        return None;
    }
    Some(
        Head {
            feature_flags: get_le(head, 16, 8),
            page_size,
            checkpoint_lsn: get_le(head, 44, 8),
            catalog_root: get_le(head, 52, 8),
        },
    )
}

/// What is said of a first slot that holds no superblock.
fn superblock_fault(image: &Vec<u8>) -> (error: StatsError)
    ensures
        error.kind_of() == ErrorKind::Corrupt,
{
    if image.len() < 64 {
        return corrupt("superblock header is truncated");
    }
    if !is_magic(image, 0) {
        return corrupt("invalid superblock magic");
    }
    let head: &[u8] = slice_subrange(image.as_slice(), 0, 64);
    let computed: u32 = crc32c(slice_subrange(head, 0, 60));
    if computed as u64 != get_le(head, 60, 4) {
        return corrupt("superblock CRC-32C does not match");
    }
    let min_reader_version: u64 = get_le(head, 12, 4);
    if min_reader_version > get_le(head, 8, 4) || min_reader_version > 1 {
        return corrupt("unsupported superblock version");
    }
    corrupt("invalid page size")
}

fn read_sized(image: &Vec<u8>, page_size: u32) -> (found: Option<Head>)
    requires
        page_size <= 65536,
    ensures
        found == sized_head(image@, page_size),
{
    match read_superblock_at(image, page_size as usize) {
        Some(head) => if head.page_size == page_size {
            Some(head)
        } else {
            None
        },
        None => None,
    }
}

fn locate_second_superblock(image: &Vec<u8>) -> (found: Option<Head>)
    ensures
        found == second_head(image@),
{
    match read_sized(image, 4096) {
        Some(head) => {
            return Some(head);
        },
        None => {},
    }
    match read_sized(image, 8192) {
        Some(head) => {
            return Some(head);
        },
        None => {},
    }
    match read_sized(image, 16384) {
        Some(head) => {
            return Some(head);
        },
        None => {},
    }
    match read_sized(image, 32768) {
        Some(head) => {
            return Some(head);
        },
        None => {},
    }
    read_sized(image, 65536)
}

/// Finds the superblock that counts, and its slot.
pub fn select_superblock(image: &Vec<u8>) -> (result: Result<(Head, u64), StatsError>)
    ensures
        match (result, selected(image@)) {
            (Ok(found), Some(want)) => found == want,
            (Err(error), None) => error.kind_of() == ErrorKind::Corrupt,
            _ => false,
        },
        result matches Ok(found) ==> superblock::is_page_size(found.0.page_size),
{
    let first: Option<Head> = read_superblock_at(image, 0);
    let second: Option<Head> = match first {
        Some(head) => read_sized(image, head.page_size),
        None => locate_second_superblock(image),
    };
    match (first, second) {
        (Some(a), Some(b)) => if b.checkpoint_lsn > a.checkpoint_lsn {
            Ok((b, 1))
        } else {
            Ok((a, 0))
        },
        (Some(a), None) => Ok((a, 0)),
        (None, Some(b)) => Ok((b, 1)),
        (None, None) => Err(superblock_fault(image)),
    }
}

/// Charges bytes of the memory that looking may take.
pub(crate) fn charge(budget: &mut MemoryBudget, bytes: usize, purpose: &str) -> (result: Result<
    (),
    StatsError,
>)
    ensures
        final(budget).limit_of() == old(budget).limit_of(),
        match result {
            Ok(()) => old(budget).charged_of() + bytes <= old(budget).limit_of() && final(budget).charged_of() == old(budget).charged_of() + bytes,
            Err(error) => old(budget).charged_of() + bytes > old(budget).limit_of()
                && final(budget).charged_of() == old(budget).charged_of() && error.kind_of()
                == ErrorKind::BudgetExceeded,
        },
{
    if budget.try_charge(bytes) {
        Ok(())
    } else {
        let charged: usize = budget.charged();
        if bytes > usize::MAX - charged {
            return Err(
                over_budget(
                    with_name(purpose, " allocation overflows the host size", "").as_str(),
                ),
            );
        }
        let head: String = with_name(purpose, " needs ", "");
        let needed: String = and_number(head, bytes as u64, " bytes with ");
        let held: String = and_number(needed, charged as u64, " of ");
        Err(over_budget(and_number(held, budget.limit() as u64, " bytes already charged").as_str()))
    }
}

/// Whether all bytes are zero.
pub open spec fn all_zero(data: Seq<u8>) -> bool {
    forall|i: int| 0 <= i < data.len() ==> #[trigger] data[i] == 0
}

fn is_zero_from(data: &Vec<u8>, from: usize) -> (yes: bool)
    requires
        from <= data@.len(),
    ensures
        yes == all_zero(data@.skip(from as int)),
{
    let ghost rest = data@.skip(from as int);
    let mut i: usize = from;
    while i < data.len()
        invariant
            from <= i <= data@.len(),
            rest == data@.skip(from as int),
            forall|k: int| 0 <= k < i - from ==> #[trigger] rest[k] == 0,
        decreases data@.len() - i,
    {
        if data[i] != 0 {
            assert(rest[i - from] != 0);
            return false;
        }
        assert(rest[i - from] == data@[i as int]);
        i += 1;
    }
    true
}

/// A catalog that fits its page; the bytes charged for it are its own.
pub open spec fn single_payload(root: Seq<u8>, charged: nat, limit: nat) -> Result<
    Seq<u8>,
    ErrorKind,
> {
    let len = bytes::le_at(root, 0, 4);
    let payload = root.subrange(8, (8 + len) as int);
    if 8 + len > root.len() {
        Err(ErrorKind::Corrupt)
    } else if charged + len > limit {
        Err(ErrorKind::BudgetExceeded)
    } else if checksum::crc32c_of(payload) != bytes::le_at(root, 4, 4) {
        Err(ErrorKind::Corrupt)
    } else {
        Ok(payload)
    }
}

fn load_single_catalog(root: &Vec<u8>, budget: &mut MemoryBudget) -> (result: Result<
    Vec<u8>,
    StatsError,
>)
    requires
        root@.len() >= 16,
    ensures
        final(budget).limit_of() == old(budget).limit_of(),
        match (
            result,
            single_payload(root@, old(budget).charged_of(), old(budget).limit_of()),
        ) {
            (Ok(payload), Ok(want)) => payload@ == want && final(budget).charged_of() == old(
                budget,
            ).charged_of() + want.len(),
            (Err(error), Err(kind)) => error.kind_of() == kind,
            _ => false,
        },
{
    proof {
        bytes::lemma_radix_values();
    }
    let len: u64 = get_le(root.as_slice(), 0, 4);
    if len > (root.len() - 8) as u64 {
        return Err(corrupt("catalog payload exceeds its page"));
    }
    match charge(budget, len as usize, "catalog JSON payload") {
        Ok(()) => {},
        Err(error) => {
            return Err(error);
        },
    }
    let mut payload: Vec<u8> = Vec::new();
    put_bytes(&mut payload, slice_subrange(root.as_slice(), 8, 8 + len as usize));
    assert(payload@ =~= root@.subrange(8, (8 + len) as int));
    if crc32c(payload.as_slice()) as u64 != get_le(root.as_slice(), 4, 4) {
        return Err(corrupt("catalog payload CRC-32C does not match"));
    }
    Ok(payload)
}

/// The bytes of the first `n` pages that a catalog goes on in, and the pages
/// once these have their use.
pub open spec fn continued(
    scene: Scene,
    classes: Seq<PageClass>,
    root: Seq<u8>,
    len: nat,
    n: nat,
) -> Option<(Seq<PageClass>, Seq<u8>)>
    decreases n,
{
    if n == 0 {
        Some((classes, Seq::empty()))
    } else {
        match continued(scene, classes, root, len, (n - 1) as nat) {
            None => None,
            Some((before, payload)) => {
                let id = bytes::le_at(root, 12 + (n - 1) * 8, 8);
                match accounting::marked(before, id, PageClass::Catalog) {
                    None => None,
                    Some(after) => {
                        let left = len - payload.len();
                        let take = if left < scene.page_size {
                            left
                        } else {
                            scene.page_size as int
                        };
                        if all_zero(scene.page(id).skip(take)) {
                            Some((after, payload + scene.page(id).subrange(0, take)))
                        } else {
                            None
                        }
                    },
                }
            },
        }
    }
}

proof fn lemma_continued_fails(
    scene: Scene,
    classes: Seq<PageClass>,
    root: Seq<u8>,
    len: nat,
    at: nat,
    n: nat,
)
    requires
        at <= n,
        continued(scene, classes, root, len, at) is None,
    ensures
        continued(scene, classes, root, len, n) is None,
    decreases n,
{
    if at < n {
        lemma_continued_fails(scene, classes, root, len, at, (n - 1) as nat);
    }
}

/// A catalog that goes on in pages that its root lists.
pub open spec fn multi_payload(
    scene: Scene,
    classes: Seq<PageClass>,
    root: Seq<u8>,
    charged: nat,
) -> Result<(Seq<PageClass>, Seq<u8>), ErrorKind> {
    let len = bytes::le_at(root, 0, 4);
    let count = bytes::le_at(root, 8, 4);
    if count != accounting::pages_for(len, scene.page_size) || 12 + count * 8 > root.len()
        || !all_zero(root.skip((12 + count * 8) as int)) {
        Err(ErrorKind::Corrupt)
    } else if charged + len > scene.limit {
        Err(ErrorKind::BudgetExceeded)
    } else {
        match continued(scene, classes, root, len, count) {
            None => Err(ErrorKind::Corrupt),
            Some((after, payload)) => if checksum::crc32c_of(payload) != bytes::le_at(root, 4, 4) {
                Err(ErrorKind::Corrupt)
            } else {
                Ok((after, payload))
            },
        }
    }
}

fn load_multipage_catalog(
    image: &Vec<u8>,
    root: &Vec<u8>,
    accounting: &mut Accounting,
    budget: &mut MemoryBudget,
    Ghost(scene): Ghost<Scene>,
) -> (result: Result<Vec<u8>, StatsError>)
    requires
        scene.image == image@,
        scene.limit == old(budget).limit_of(),
        accounting::fits(*old(accounting), scene),
        root@.len() == scene.page_size,
    ensures
        accounting::fits(*final(accounting), scene),
        final(budget).limit_of() == old(budget).limit_of(),
        match (
            result,
            multi_payload(scene, old(accounting).classes@, root@, old(budget).charged_of()),
        ) {
            (Ok(payload), Ok((classes, want))) => payload@ == want && classes
                == final(accounting).classes@ && final(budget).charged_of() == old(
                budget,
            ).charged_of() + bytes::le_at(root@, 0, 4),
            (Err(error), Err(kind)) => error.kind_of() == kind,
            _ => false,
        },
{
    proof {
        bytes::lemma_radix_values();
        budget.lemma_limit();
    }
    let page_size: u32 = accounting.page_size;
    let len: u64 = get_le(root.as_slice(), 0, 4);
    let count: u64 = get_le(root.as_slice(), 8, 4);
    if count != (len + page_size as u64 - 1) / page_size as u64 {
        return Err(corrupt("catalog continuation count is inconsistent"));
    }
    if count > ((root.len() - 12) / 8) as u64 {
        return Err(corrupt("catalog continuation directory exceeds its page"));
    }
    let end: usize = 12 + count as usize * 8;
    if !is_zero_from(root, end) {
        return Err(corrupt("catalog directory padding is not zero"));
    }
    let fitting: bool = len <= usize::MAX as u64;
    if !fitting {
        return Err(over_budget("multi-page catalog JSON payload exceeds memory"));
    }
    match charge(budget, len as usize, "multi-page catalog JSON payload") {
        Ok(()) => {},
        Err(error) => {
            return Err(error);
        },
    }
    let ghost first = accounting.classes@;
    let mut payload: Vec<u8> = Vec::new();
    let room: usize = root.len();
    let mut i: usize = 0;
    while i < count as usize
        invariant
            i <= count <= usize::MAX,
            room == root@.len(),
            12 + count * 8 <= root@.len(),
            scene.image == image@,
            page_size == scene.page_size,
            first == old(accounting).classes@,
            accounting::fits(*accounting, scene),
            payload@.len() <= len <= usize::MAX,
            len == bytes::le_at(root@, 0, 4),
            count == bytes::le_at(root@, 8, 4),
            budget.limit_of() == old(budget).limit_of(),
            multi_payload(scene, first, root@, old(budget).charged_of()) is Err ==> multi_payload(
                scene,
                first,
                root@,
                old(budget).charged_of(),
            )->Err_0 == ErrorKind::Corrupt,
            continued(scene, first, root@, len as nat, count as nat) is None ==> multi_payload(
                scene,
                first,
                root@,
                old(budget).charged_of(),
            ) is Err,
            continued(scene, first, root@, len as nat, i as nat) == Some(
                (accounting.classes@, payload@),
            ),
        decreases count - i,
    {
        proof {
            if continued(scene, first, root@, len as nat, (i + 1) as nat) is None {
                lemma_continued_fails(
                    scene,
                    first,
                    root@,
                    len as nat,
                    (i + 1) as nat,
                    count as nat,
                );
            }
        }
        let id: u64 = get_le(root.as_slice(), 12 + i * 8, 8);
        match accounting.mark(id, PageClass::Catalog, "catalog continuation") {
            Ok(()) => {},
            Err(error) => {
                return Err(error);
            },
        }
        let page: Vec<u8> = read_page(image, page_size, id, Ghost(scene));
        let left: usize = len as usize - payload.len();
        let take: usize = if left < page_size as usize {
            left
        } else {
            page_size as usize
        };
        if !is_zero_from(&page, take) {
            return Err(corrupt("catalog continuation padding is not zero"));
        }
        put_bytes(&mut payload, slice_subrange(page.as_slice(), 0, take));
        i += 1;
    }
    if crc32c(payload.as_slice()) as u64 != get_le(root.as_slice(), 4, 4) {
        return Err(corrupt("catalog payload CRC-32C does not match"));
    }
    Ok(payload)
}

/// Where a file's catalog stands.
pub open spec fn catalog_payload(
    scene: Scene,
    head: Head,
    classes: Seq<PageClass>,
    charged: nat,
) -> Result<(Seq<PageClass>, Seq<u8>, nat), ErrorKind> {
    match accounting::marked(classes, head.catalog_root as nat, PageClass::Catalog) {
        None => Err(ErrorKind::Corrupt),
        Some(after) => {
            let root = scene.page(head.catalog_root as nat);
            if head.feature_flags & superblock::MULTIPAGE_CATALOG_FLAG != 0 {
                match multi_payload(scene, after, root, charged) {
                    Err(kind) => Err(kind),
                    Ok((last, payload)) => Ok((last, payload, charged + bytes::le_at(root, 0, 4))),
                }
            } else {
                match single_payload(root, charged, scene.limit) {
                    Err(kind) => Err(kind),
                    Ok(payload) => Ok((after, payload, charged + payload.len())),
                }
            }
        },
    }
}

/// Reads a file's catalog; its bytes stay charged.
pub(crate) fn load_catalog(
    image: &Vec<u8>,
    head: Head,
    accounting: &mut Accounting,
    budget: &mut MemoryBudget,
    Ghost(scene): Ghost<Scene>,
) -> (result: Result<Vec<u8>, StatsError>)
    requires
        scene.image == image@,
        scene.limit == old(budget).limit_of(),
        accounting::fits(*old(accounting), scene),
    ensures
        accounting::fits(*final(accounting), scene),
        final(budget).limit_of() == old(budget).limit_of(),
        match (
            result,
            catalog_payload(scene, head, old(accounting).classes@, old(budget).charged_of()),
        ) {
            (Ok(payload), Ok((classes, want, charged))) => payload@ == want && classes
                == final(accounting).classes@ && charged == final(budget).charged_of(),
            (Err(error), Err(kind)) => error.kind_of() == kind,
            _ => false,
        },
{
    match accounting.mark(head.catalog_root, PageClass::Catalog, "catalog root") {
        Ok(()) => {},
        Err(error) => {
            return Err(error);
        },
    }
    let root: Vec<u8> = read_page(image, accounting.page_size, head.catalog_root, Ghost(scene));
    if head.feature_flags & superblock::MULTIPAGE_CATALOG_FLAG != 0 {
        load_multipage_catalog(image, &root, accounting, budget, Ghost(scene))
    } else {
        load_single_catalog(&root, budget)
    }
}

/// The pages once those that ledger entries list from one on are free.
pub open spec fn freed(
    classes: Seq<PageClass>,
    entries: Seq<LedgerEntry>,
    from: nat,
    n: nat,
) -> Option<Seq<PageClass>>
    decreases n,
{
    if n <= from {
        Some(classes)
    } else {
        match freed(classes, entries, from, (n - 1) as nat) {
            None => None,
            Some(before) => accounting::marked(
                before,
                entries[n - 1].page_id as nat,
                PageClass::Free,
            ),
        }
    }
}

proof fn lemma_freed_fails(
    classes: Seq<PageClass>,
    entries: Seq<LedgerEntry>,
    from: nat,
    at: nat,
    n: nat,
)
    requires
        at <= n,
        freed(classes, entries, from, at) is None,
    ensures
        freed(classes, entries, from, n) is None,
    decreases n,
{
    if at < n {
        lemma_freed_fails(classes, entries, from, at, (n - 1) as nat);
    }
}

/// The pages once a chain of ledger pages has its use, and the pages that it
/// lists are free. A chain has at most `most` pages.
pub open spec fn ledger_walked(
    scene: Scene,
    classes: Seq<PageClass>,
    cursor: nat,
    tail: nat,
    most: nat,
) -> Option<Seq<PageClass>>
    decreases most,
{
    if most == 0 {
        None
    } else {
        match accounting::marked(classes, cursor, PageClass::Ledger) {
            None => None,
            Some(after) => match free_pages::ledger_of(scene.page(cursor)) {
                None => None,
                Some(ledger) => match freed(
                    after,
                    ledger.entries,
                    ledger.consumed as nat,
                    ledger.entries.len(),
                ) {
                    None => None,
                    Some(last) => if cursor == tail {
                        if ledger.next != 0 {
                            None
                        } else {
                            Some(last)
                        }
                    } else if ledger.next == 0 {
                        Some(last)
                    } else {
                        ledger_walked(
                            scene,
                            last,
                            ledger.next as nat,
                            tail,
                            (most - 1) as nat,
                        )
                    },
                },
            },
        }
    }
}

fn mark_free(accounting: &mut Accounting, ledger: &LedgerPage) -> (result: Result<(), StatsError>)
    ensures
        final(accounting).page_size == old(accounting).page_size,
        final(accounting).classes@.len() == old(accounting).classes@.len(),
        match (
            result,
            freed(
                old(accounting).classes@,
                ledger.entries@,
                ledger.consumed_count as nat,
                ledger.entries@.len(),
            ),
        ) {
            (Ok(()), Some(after)) => final(accounting).classes@ == after,
            (Err(error), None) => error.kind_of() == ErrorKind::Corrupt,
            _ => false,
        },
{
    let ghost first = accounting.classes@;
    let from: usize = ledger.consumed_count as usize;
    if from >= ledger.entries.len() {
        return Ok(());
    }
    let mut i: usize = from;
    while i < ledger.entries.len()
        invariant
            from <= i <= ledger.entries@.len(),
            from == ledger.consumed_count,
            first == old(accounting).classes@,
            accounting.page_size == old(accounting).page_size,
            accounting.classes@.len() == old(accounting).classes@.len(),
            freed(first, ledger.entries@, from as nat, i as nat) == Some(accounting.classes@),
        decreases ledger.entries@.len() - i,
    {
        proof {
            if freed(first, ledger.entries@, from as nat, (i + 1) as nat) is None {
                lemma_freed_fails(
                    first,
                    ledger.entries@,
                    from as nat,
                    (i + 1) as nat,
                    ledger.entries@.len(),
                );
            }
        }
        match accounting.mark(ledger.entries[i].page_id, PageClass::Free, "free-page ledger entry") {
            Ok(()) => {},
            Err(error) => {
                return Err(error);
            },
        }
        i += 1;
    }
    Ok(())
}

fn walk_free_ledger(
    image: &Vec<u8>,
    head: u64,
    tail: u64,
    accounting: &mut Accounting,
    Ghost(scene): Ghost<Scene>,
) -> (result: Result<(), StatsError>)
    requires
        scene.image == image@,
        accounting::fits(*old(accounting), scene),
    ensures
        accounting::fits(*final(accounting), scene),
        match (
            result,
            ledger_walked(
                scene,
                old(accounting).classes@,
                head as nat,
                tail as nat,
                old(accounting).classes@.len(),
            ),
        ) {
            (Ok(()), Some(after)) => final(accounting).classes@ == after,
            (Err(error), None) => error.kind_of() == ErrorKind::Corrupt,
            _ => false,
        },
{
    let ghost want = ledger_walked(
        scene,
        accounting.classes@,
        head as nat,
        tail as nat,
        accounting.classes@.len(),
    );
    let mut cursor: u64 = head;
    let mut most: usize = accounting.classes.len();
    while most > 0
        invariant
            scene.image == image@,
            accounting::fits(*accounting, scene),
            want == ledger_walked(
                scene,
                old(accounting).classes@,
                head as nat,
                tail as nat,
                old(accounting).classes@.len(),
            ),
            want == ledger_walked(
                scene,
                accounting.classes@,
                cursor as nat,
                tail as nat,
                most as nat,
            ),
        decreases most,
    {
        match accounting.mark(cursor, PageClass::Ledger, "free-page ledger") {
            Ok(()) => {},
            Err(error) => {
                if cursor >= accounting.classes.len() as u64 {
                    return Err(corrupt("free-page ledger page lies beyond EOF"));
                }
                if accounting.classes[cursor as usize] == PageClass::Ledger {
                    return Err(corrupt("free-page ledger chain contains a cycle"));
                }
                return Err(error);
            },
        }
        let page: Vec<u8> = read_page(image, accounting.page_size, cursor, Ghost(scene));
        let ledger: LedgerPage = match LedgerPage::decode(page.as_slice()) {
            Ok(ledger) => ledger,
            Err(error) => {
                return Err(corrupt(error.text()));
            },
        };
        match mark_free(accounting, &ledger) {
            Ok(()) => {},
            Err(error) => {
                return Err(error);
            },
        }
        if cursor == tail {
            if ledger.next_page != 0 {
                return Err(corrupt("free-page ledger tail names a successor"));
            }
            return Ok(());
        }
        if ledger.next_page == 0 {
            return Ok(());
        }
        cursor = ledger.next_page;
        most -= 1;
    }
    Err(corrupt("free-page ledger chain contains a cycle"))
}

/// What a file's ledger of free pages says of its pages.
pub open spec fn ledger_found(
    scene: Scene,
    head: Head,
    slot: u64,
    classes: Seq<PageClass>,
    charged: nat,
) -> Result<(Seq<PageClass>, FreeLedgerStatus), ErrorKind> {
    if head.feature_flags & superblock::FREE_PAGES_FLAG == 0 {
        Ok((classes, FreeLedgerStatus::NotPresent))
    } else {
        match free_pages::extension_of(scene.page(slot as nat)) {
            None => Ok((classes, FreeLedgerStatus::Degraded)),
            Some(extension) => if extension.retire_ledger_head == 0 {
                Ok((classes, FreeLedgerStatus::NotPresent))
            } else if extension.retire_ledger_tail == 0 {
                Err(ErrorKind::Corrupt)
            } else if charged + classes.len() > scene.limit {
                Err(ErrorKind::BudgetExceeded)
            } else {
                match ledger_walked(
                    scene,
                    classes,
                    extension.retire_ledger_head as nat,
                    extension.retire_ledger_tail as nat,
                    classes.len(),
                ) {
                    None => Err(ErrorKind::Corrupt),
                    Some(after) => Ok((after, FreeLedgerStatus::Active)),
                }
            },
        }
    }
}

/// Finds what the ledger of free pages says.
pub(crate) fn account_free_ledger(
    image: &Vec<u8>,
    head: Head,
    slot: u64,
    accounting: &mut Accounting,
    budget: &mut MemoryBudget,
    Ghost(scene): Ghost<Scene>,
) -> (result: Result<FreeLedgerStatus, StatsError>)
    requires
        scene.image == image@,
        scene.limit == old(budget).limit_of(),
        accounting::fits(*old(accounting), scene),
        slot < scene.page_count(),
    ensures
        accounting::fits(*final(accounting), scene),
        final(budget).limit_of() == old(budget).limit_of(),
        match (
            result,
            ledger_found(scene, head, slot, old(accounting).classes@, old(budget).charged_of()),
        ) {
            (Ok(status), Ok((classes, want))) => status == want && classes
                == final(accounting).classes@ && final(budget).charged_of() == old(
                budget,
            ).charged_of(),
            (Err(error), Err(kind)) => error.kind_of() == kind,
            _ => false,
        },
{
    if head.feature_flags & superblock::FREE_PAGES_FLAG == 0 {
        return Ok(FreeLedgerStatus::NotPresent);
    }
    let page: Vec<u8> = read_page(image, accounting.page_size, slot, Ghost(scene));
    let extension: SuperblockExtension = match SuperblockExtension::decode_from(page.as_slice()) {
        Some(extension) => extension,
        None => {
            return Ok(FreeLedgerStatus::Degraded);
        },
    };
    if extension.retire_ledger_head == 0 {
        return Ok(FreeLedgerStatus::NotPresent);
    }
    if extension.retire_ledger_tail == 0 {
        return Err(corrupt("free-page ledger head is set but tail is zero"));
    }
    let visited: usize = accounting.classes.len();
    match charge(budget, visited, "free-ledger cycle map") {
        Ok(()) => {},
        Err(error) => {
            return Err(error);
        },
    }
    match walk_free_ledger(
        image,
        extension.retire_ledger_head,
        extension.retire_ledger_tail,
        accounting,
        Ghost(scene),
    ) {
        Ok(()) => {},
        Err(error) => {
            return Err(error);
        },
    }
    budget.release(visited);
    Ok(FreeLedgerStatus::Active)
}

/// The pages of the first `n` groups that an index's directory lists.
pub open spec fn cells_taken(scene: Scene, before: Progress, cells: Seq<u8>, n: nat) -> Option<
    Progress,
>
    decreases n,
{
    if n == 0 {
        Some(before)
    } else {
        match cells_taken(scene, before, cells, (n - 1) as nat) {
            None => None,
            Some(after) => {
                let root = bytes::le_at(cells, (n - 1) * 8, 8);
                if root == 0 {
                    Some(after)
                } else {
                    accounting::group_taken(
                        scene,
                        after,
                        root,
                        GroupLayout { columns: 0, entries: 2, nodes: false },
                    )
                }
            },
        }
    }
}

proof fn lemma_cells_fail(scene: Scene, before: Progress, cells: Seq<u8>, at: nat, n: nat)
    requires
        at <= n,
        cells_taken(scene, before, cells, at) is None,
    ensures
        cells_taken(scene, before, cells, n) is None,
    decreases n,
{
    if at < n {
        lemma_cells_fail(scene, before, cells, at, (n - 1) as nat);
    }
}

/// The bytes of a run of pages, with zeros behind them to the end of the
/// last page.
pub open spec fn run_bytes(scene: Scene, first: nat, len: nat) -> Seq<u8> {
    scene.image.subrange(
        (first * scene.page_size) as int,
        (first * scene.page_size + len) as int,
    )
}

/// What stands behind the bytes of a run in its last page.
pub open spec fn run_padding(scene: Scene, first: nat, len: nat) -> Seq<u8> {
    scene.image.subrange(
        (first * scene.page_size + len) as int,
        ((first + accounting::pages_for(len, scene.page_size)) * scene.page_size) as int,
    )
}

/// The pages of an index: its root, its directory and the groups that this
/// lists.
pub open spec fn index_taken(scene: Scene, before: Progress, root: nat, charged: nat) -> Result<
    Progress,
    ErrorKind,
> {
    match accounting::taken(before, root) {
        None => Err(ErrorKind::Corrupt),
        Some(rooted) => {
            let page = scene.page(root);
            let first = bytes::le_at(page, 48, 8);
            let len = bytes::le_at(page, 56, 4);
            if page.subrange(0, 4) != seq![0x48u8, 0x4e, 0x53, 0x57] || page[41] as nat
                * bytes::le_at(page, 44, 4) * 8 != len {
                Err(ErrorKind::Corrupt)
            } else if len == 0 {
                if first != 0 {
                    Err(ErrorKind::Corrupt)
                } else {
                    Ok(rooted)
                }
            } else if charged + len > scene.limit {
                Err(ErrorKind::BudgetExceeded)
            } else {
                match accounting::run_taken(
                    rooted,
                    first,
                    accounting::pages_for(len, scene.page_size),
                ) {
                    None => Err(ErrorKind::Corrupt),
                    Some(listed) => if !all_zero(run_padding(scene, first, len))
                        || checksum::crc32c_of(run_bytes(scene, first, len)) != bytes::le_at(
                        page,
                        60,
                        4,
                    ) {
                        Err(ErrorKind::Corrupt)
                    } else {
                        match cells_taken(
                            scene,
                            listed,
                            run_bytes(scene, first, len),
                            len / 8,
                        ) {
                            None => Err(ErrorKind::Corrupt),
                            Some(after) => Ok(after),
                        }
                    },
                }
            }
        },
    }
}

/// A run whose pages are all there ends in the file.
proof fn lemma_run_inside(scene: Scene, before: Progress, first: nat, n: nat)
    requires
        scene.page_size > 0,
        before.classes.len() == scene.page_count(),
        n > 0,
        accounting::run_taken(before, first, n) is Some,
    ensures
        first + n <= scene.page_count(),
        (first + n) * scene.page_size <= scene.image.len(),
        accounting::run_taken(before, first, n)->Some_0.classes.len() == before.classes.len(),
    decreases n,
{
    lemma_run_len(before, first, (n - 1) as nat);
    let last = (first + n - 1) as nat;
    scene.lemma_page(last);
    assert((first + n) * scene.page_size == last * scene.page_size + scene.page_size)
        by (nonlinear_arith)
        requires
            last == first + n - 1,
    ;
}

proof fn lemma_run_len(before: Progress, first: nat, n: nat)
    ensures
        accounting::run_taken(before, first, n) matches Some(after) ==> after.classes.len()
            == before.classes.len(),
    decreases n,
{
    if n > 0 {
        lemma_run_len(before, first, (n - 1) as nat);
    }
}

fn account_cells(
    image: &Vec<u8>,
    cells: &Vec<u8>,
    accounting: &mut Accounting,
    pages: u64,
    Ghost(scene): Ghost<Scene>,
) -> (result: Result<u64, StatsError>)
    requires
        scene.image == image@,
        accounting::fits(*old(accounting), scene),
    ensures
        accounting::fits(*final(accounting), scene),
        match (
            result,
            cells_taken(
                scene,
                Progress { classes: old(accounting).classes@, pages: pages as nat },
                cells@,
                cells@.len() / 8,
            ),
        ) {
            (Ok(more), Some(after)) => after == (Progress {
                classes: final(accounting).classes@,
                pages: more as nat,
            }),
            (Err(error), None) => error.kind_of() == ErrorKind::Corrupt,
            _ => false,
        },
{
    let ghost start = Progress { classes: accounting.classes@, pages: pages as nat };
    let size: usize = cells.len();
    let total: usize = size / 8;
    let mut seen: u64 = pages;
    let mut i: usize = 0;
    while i < total
        invariant
            i <= total == cells@.len() / 8,
            size == cells@.len(),
            scene.image == image@,
            start.classes == old(accounting).classes@,
            start.pages == pages,
            accounting::fits(*accounting, scene),
            cells_taken(scene, start, cells@, i as nat) == Some(
                (Progress { classes: accounting.classes@, pages: seen as nat }),
            ),
        decreases total - i,
    {
        proof {
            if cells_taken(scene, start, cells@, (i + 1) as nat) is None {
                lemma_cells_fail(scene, start, cells@, (i + 1) as nat, total as nat);
            }
        }
        let root: u64 = get_le(cells.as_slice(), i * 8, 8);
        if root != 0 {
            match account_group(
                image,
                root,
                GroupLayout { columns: 0, entries: 2, nodes: false },
                accounting,
                seen,
                Ghost(scene),
            ) {
                Ok(more) => {
                    seen = more;
                },
                Err(error) => {
                    return Err(error);
                },
            }
        }
        i += 1;
    }
    Ok(seen)
}

/// Counts the pages of an index.
pub(crate) fn account_one_index(
    image: &Vec<u8>,
    root: u64,
    accounting: &mut Accounting,
    budget: &mut MemoryBudget,
    pages: u64,
    Ghost(scene): Ghost<Scene>,
) -> (result: Result<u64, StatsError>)
    requires
        scene.image == image@,
        scene.limit == old(budget).limit_of(),
        accounting::fits(*old(accounting), scene),
    ensures
        accounting::fits(*final(accounting), scene),
        final(budget).limit_of() == old(budget).limit_of(),
        match (
            result,
            index_taken(
                scene,
                Progress { classes: old(accounting).classes@, pages: pages as nat },
                root as nat,
                old(budget).charged_of(),
            ),
        ) {
            (Ok(more), Ok(after)) => after == (Progress {
                classes: final(accounting).classes@,
                pages: more as nat,
            }) && final(budget).charged_of() == old(budget).charged_of(),
            (Err(error), Err(kind)) => error.kind_of() == kind,
            _ => false,
        },
{
    let ghost charged = budget.charged_of();
    let rooted: u64 = match accounting.take(root, pages, "HNSW root") {
        Ok(rooted) => rooted,
        Err(error) => {
            return Err(error);
        },
    };
    let page_size: u32 = accounting.page_size;
    let page: Vec<u8> = read_page(image, page_size, root, Ghost(scene));
    if !begins_with(&page, 0x48, 0x4e, 0x53, 0x57) {
        return Err(corrupt("index root magic is not HNSW"));
    }
    proof {
        bytes::lemma_radix_values();
        budget.lemma_limit();
    }
    let first: u64 = get_le(page.as_slice(), 48, 8);
    let len: u64 = get_le(page.as_slice(), 56, 4);
    let layers: u64 = page[41] as u64;
    let width: u64 = get_le(page.as_slice(), 44, 4);
    assert(layers * width <= 0xff * 0xffff_ffff) by (nonlinear_arith)
        requires
            layers <= 0xff,
            width <= 0xffff_ffff,
    ;
    if layers * width * 8 != len {
        return Err(corrupt("HNSW layer-directory dimensions disagree"));
    }
    if len == 0 {
        if first != 0 {
            return Err(corrupt("empty HNSW layer directory has a page id"));
        }
        return Ok(rooted);
    }
    if len > usize::MAX as u64 {
        return Err(over_budget("HNSW layer directory exceeds memory"));
    }
    match charge(budget, len as usize, "HNSW layer directory") {
        Ok(()) => {},
        Err(error) => {
            return Err(error);
        },
    }
    let count: u64 = (len + page_size as u64 - 1) / page_size as u64;
    let ghost before = Progress { classes: accounting.classes@, pages: rooted as nat };
    let listed: u64 = match accounting.take_run(first, count, rooted, "HNSW layer directory") {
        Ok(listed) => listed,
        Err(error) => {
            return Err(error);
        },
    };
    proof {
        assert(count >= 1) by (nonlinear_arith)
            requires
                count == (len + page_size - 1) / page_size as int,
                len >= 1,
                page_size >= 1,
        ;
        lemma_run_inside(scene, before, first as nat, count as nat);
        assert(len <= count * page_size) by (nonlinear_arith)
            requires
                count == (len + page_size - 1) / page_size as int,
                page_size >= 1,
        ;
        assert((first + count) * page_size == first * page_size + count * page_size)
            by (nonlinear_arith);
        assert(0 <= first * page_size) by (nonlinear_arith);
    }
    let total: usize = image.len();
    let from: usize = first as usize * page_size as usize;
    let to: usize = from + len as usize;
    let end: usize = from + count as usize * page_size as usize;
    let mut payload: Vec<u8> = Vec::new();
    put_bytes(&mut payload, slice_subrange(image.as_slice(), from, to));
    assert(payload@ =~= run_bytes(scene, first as nat, len as nat));
    let mut padding: Vec<u8> = Vec::new();
    put_bytes(&mut padding, slice_subrange(image.as_slice(), to, end));
    assert(padding@ =~= run_padding(scene, first as nat, len as nat));
    assert(padding@.skip(0) =~= padding@);
    if !is_zero_from(&padding, 0) {
        return Err(corrupt("HNSW layer directory padding is not zero"));
    }
    if crc32c(payload.as_slice()) as u64 != get_le(page.as_slice(), 60, 4) {
        return Err(corrupt("HNSW layer-directory CRC-32C does not match"));
    }
    let more: u64 = match account_cells(image, &payload, accounting, listed, Ghost(scene)) {
        Ok(more) => more,
        Err(error) => {
            return Err(error);
        },
    };
    budget.release(len as usize);
    Ok(more)
}

} // verus!
