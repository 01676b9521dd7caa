//! What opening a file gives back of what was written to it.

use vstd::prelude::*;

use crate::bytes;
use crate::error::DevonResult;
use crate::free_pages;
use crate::free_pages::SuperblockExtension;
use crate::pager;
use crate::pager::ledger;
use crate::pager::ledger::SpaceView;
use crate::pager::space;
use crate::pager::space::ActionView;
use crate::pager::Pager;
use crate::saturating;
use crate::superblock;
use crate::superblock::{Superblock, FREE_PAGES_FLAG, READ_SAFE_FLAG_MASK, SUPPORTED_FLAG_MASK};

verus! {

/// Whether two headers have the same fields.
pub open spec fn same_header(a: Superblock, b: Superblock) -> bool {
    &&& a.format_version == b.format_version
    &&& a.min_reader_version == b.min_reader_version
    &&& a.feature_flags == b.feature_flags
    &&& a.page_size == b.page_size
    &&& a.db_id@ == b.db_id@
    &&& a.checkpoint_lsn == b.checkpoint_lsn
    &&& a.catalog_root == b.catalog_root
}

/// Whether a header can be written, and read by this build.
pub open spec fn accepted(header: Superblock) -> bool {
    header.encodable() && header.field_refusal(SUPPORTED_FLAG_MASK, READ_SAFE_FLAG_MASK) is None
}

/// Pages that stand one behind the other in a file are read back.
pub proof fn law_pages_read_back(pages: Seq<Seq<u8>>, page_size: nat)
    requires
        page_size > 0,
        forall|i: int| 0 <= i < pages.len() ==> (#[trigger] pages[i]).len() == page_size,
    ensures
        pager::pages_of(bytes::joined(pages), page_size) == pages,
        bytes::joined(pages).len() == pages.len() * page_size,
        bytes::joined(pages).len() % page_size == 0,
{
    let file = bytes::joined(pages);
    bytes::lemma_joined_len(pages, page_size);
    vstd::arithmetic::div_mod::lemma_div_multiples_vanish(pages.len() as int, page_size as int);
    vstd::arithmetic::div_mod::lemma_mod_multiples_basic(pages.len() as int, page_size as int);
    assert(pages.len() * page_size == page_size * pages.len()) by (nonlinear_arith);
    assert forall|i: int| 0 <= i < pages.len() implies #[trigger] pager::pages_of(
        file,
        page_size,
    )[i] == pages[i] by {
        bytes::lemma_joined_part(pages, page_size, i);
    }
    assert(pager::pages_of(file, page_size) =~= pages);
}

/// A header that starts a page is read for what it is.
proof fn lemma_header_read(
    file: Seq<u8>,
    offset: nat,
    page: Seq<u8>,
    header: Superblock,
    extension: Option<SuperblockExtension>,
    expected: Option<u32>,
    result: DevonResult<Superblock>,
)
    requires
        accepted(header),
        page == pager::slot_page(header, extension),
        offset + page.len() <= file.len(),
        file.subrange(offset as int, (offset + page.len()) as int) == page,
        expected is None || expected == Some(header.page_size),
        pager::slot_reads(file, offset, expected, result),
    ensures
        result matches Ok(found) && same_header(found, header),
{
    let head = file.subrange(offset as int, offset as int + 64);
    pager::law_committed_slot_reads_back(header, extension);
    assert forall|from: int, to: int|
        0 <= from <= to <= 64 implies #[trigger] head.subrange(from, to) == page.subrange(
        from,
        to,
    ) by {
        assert(head.subrange(from, to) =~= page.subrange(from, to));
    }
    assert(!superblock::frame_refused(head));
    assert forall|other: Superblock| #[trigger] other.read_from(head) implies same_header(
        other,
        header,
    ) by {
        assert(other.read_from(page));
    }
    match result {
        Ok(found) => {
            assert(found.read_from(head));
        },
        Err(error) => {
            if exists|found: Superblock| #[trigger] pager::header_holds(head, found) && expected
                is Some && expected != Some(found.page_size) {
                let found = choose|found: Superblock| #[trigger]
                    pager::header_holds(head, found) && expected is Some && expected != Some(
                        found.page_size,
                    );
                assert(found.read_from(head));
            } else {
                let found = choose|found: Superblock| #[trigger]
                    found.read_from(head) && found.field_refusal(
                        SUPPORTED_FLAG_MASK,
                        READ_SAFE_FLAG_MASK,
                    ) == Some(error.kind_of()) && (error is VersionMismatch ==> error
                        == found.version_mismatch());
                assert(same_header(found, header));
            }
        },
    }
}

/// A file whose slots hold two headers opens with the one of the later
/// checkpoint, that of the first slot where both are as late, and with the
/// pages that were written.
pub proof fn law_newer_slot_is_opened(
    pages: Seq<Seq<u8>>,
    first: Superblock,
    second: Superblock,
    first_chain: Option<SuperblockExtension>,
    second_chain: Option<SuperblockExtension>,
    truncates: bool,
    a: DevonResult<Superblock>,
    b: DevonResult<Superblock>,
    result: DevonResult<Pager>,
)
    requires
        accepted(first),
        accepted(second),
        second.page_size == first.page_size,
        pages.len() >= 2,
        pages[0] == pager::slot_page(first, first_chain),
        pages[1] == pager::slot_page(second, second_chain),
        forall|i: int| 0 <= i < pages.len() ==> (#[trigger] pages[i]).len() == first.page_size,
        pager::open_outcome(bytes::joined(pages), truncates, a, b, result),
    ensures
        result matches Ok(pager) && {
            &&& same_header(
                pager.header(),
                if second.checkpoint_lsn > first.checkpoint_lsn {
                    second
                } else {
                    first
                },
            )
            &&& pager.slot_of() == if second.checkpoint_lsn > first.checkpoint_lsn {
                1int
            } else {
                0int
            }
            &&& pager.space_of().pages == pages
        },
{
    let file = bytes::joined(pages);
    let size = first.page_size as nat;
    law_pages_read_back(pages, size);
    bytes::lemma_joined_part(pages, size, 0);
    bytes::lemma_joined_part(pages, size, 1);
    assert(file.subrange(0, size as int) == pages[0]);
    assert(file.subrange(size as int, (size + size) as int) == pages[1]);
    lemma_header_read(file, 0, pages[0], first, first_chain, None, a);
    lemma_header_read(file, size, pages[1], second, second_chain, Some(first.page_size), b);
    assert(file.len() >= 2 * first.page_size) by (nonlinear_arith)
        requires
            file.len() == pages.len() * size,
            pages.len() >= 2,
            size == first.page_size,
    ;
}

/// A new database opens as it was created.
pub proof fn law_created_database_opens(
    created: Pager,
    page_size: u32,
    db_id: [u8; 16],
    truncates: bool,
    a: DevonResult<Superblock>,
    b: DevonResult<Superblock>,
    result: DevonResult<Pager>,
)
    requires
        superblock::is_page_size(page_size),
        pager::is_initial(created.header(), page_size, db_id),
        created.space_of().pages == seq![
            created.header().slot_bytes(page_size as nat),
            created.header().slot_bytes(page_size as nat),
        ],
        pager::open_outcome(bytes::joined(created.space_of().pages), truncates, a, b, result),
    ensures
        result matches Ok(pager) && same_header(pager.header(), created.header())
            && pager.slot_of() == 0 && pager.space_of().pages == created.space_of().pages,
{
    let header = created.header();
    let pages = created.space_of().pages;
    assert(0u64 & !(READ_SAFE_FLAG_MASK | SUPPORTED_FLAG_MASK) == 0) by (bit_vector);
    pager::law_committed_slot_reads_back(header, None);
    assert(pages[0] == pager::slot_page(header, None));
    assert(pages[1] == pager::slot_page(header, None));
    law_newer_slot_is_opened(pages, header, header, None, None, truncates, a, b, result);
}

/// A commit survives reopening: where one slot holds a header and the other
/// one that may follow it, the file opens with the latter.
pub proof fn law_commit_survives_reopening(
    pages: Seq<Seq<u8>>,
    slot: int,
    current: Superblock,
    next: Superblock,
    current_chain: Option<SuperblockExtension>,
    next_chain: Option<SuperblockExtension>,
    truncates: bool,
    a: DevonResult<Superblock>,
    b: DevonResult<Superblock>,
    result: DevonResult<Pager>,
)
    requires
        0 <= slot <= 1,
        accepted(current),
        accepted(next),
        pager::commit_valid(current, next),
        pages.len() >= 2,
        pages[slot] == pager::slot_page(current, current_chain),
        pages[1 - slot] == pager::slot_page(next, next_chain),
        forall|i: int| 0 <= i < pages.len() ==> (#[trigger] pages[i]).len() == current.page_size,
        pager::open_outcome(bytes::joined(pages), truncates, a, b, result),
    ensures
        result matches Ok(pager) && same_header(pager.header(), next) && pager.slot_of() == 1
            - slot && pager.space_of().pages == pages,
{
    if slot == 0 {
        law_newer_slot_is_opened(
            pages,
            current,
            next,
            current_chain,
            next_chain,
            truncates,
            a,
            b,
            result,
        );
    } else {
        law_newer_slot_is_opened(
            pages,
            next,
            current,
            next_chain,
            current_chain,
            truncates,
            a,
            b,
            result,
        );
    }
}

/// Actions that spare the slots leave them as they are.
proof fn lemma_slots_spared(pages: Seq<Seq<u8>>, actions: Seq<ActionView>, page_size: nat)
    requires
        pages.len() >= 2,
        space::spares_slots(actions),
        forall|k: int|
            0 <= k <= actions.len() ==> (#[trigger] space::replayed(
                pages,
                actions.subrange(0, k),
                page_size,
            )).len() >= 2,
        forall|k: int|
            0 <= k < actions.len() ==> space::fits(
                space::replayed(pages, actions.subrange(0, k), page_size),
                #[trigger] actions[k],
            ),
    ensures
        space::replayed(pages, actions, page_size).len() >= 2,
        space::replayed(pages, actions, page_size)[0] == pages[0],
        space::replayed(pages, actions, page_size)[1] == pages[1],
    decreases actions.len(),
{
    assert(actions.subrange(0, actions.len() as int) =~= actions);
    if actions.len() > 0 {
        let rest = actions.drop_last();
        assert forall|k: int| 0 <= k <= rest.len() implies (#[trigger] space::replayed(
            pages,
            rest.subrange(0, k),
            page_size,
        )).len() >= 2 by {
            assert(rest.subrange(0, k) =~= actions.subrange(0, k));
        }
        assert forall|i: int| 0 <= i < rest.len() implies space::is_spared(#[trigger] rest[i]) by {
            assert(rest[i] == actions[i]);
        }
        assert forall|k: int| 0 <= k < rest.len() implies space::fits(
            space::replayed(pages, rest.subrange(0, k), page_size),
            #[trigger] rest[k],
        ) by {
            assert(rest[k] == actions[k]);
            assert(rest.subrange(0, k) =~= actions.subrange(0, k));
        }
        lemma_slots_spared(pages, rest, page_size);
        assert(rest =~= actions.subrange(0, actions.len() - 1));
        assert(space::is_spared(actions[actions.len() - 1]));
    }
}

/// The slots of the pages that a prefix of the pending actions leads to, where the actions spare
/// the slots up to it.
proof fn lemma_prefix_slots(pager: Pager, k: int)
    requires
        pager.wf(),
        pager.on_file().len() >= 2,
        0 <= k <= pager.pending().len(),
        space::spares_slots(pager.pending().subrange(0, k)),
    ensures
        ({
            let pages = space::replayed(
                pager.on_file(),
                pager.pending().subrange(0, k),
                pager.space_of().page_size,
            );
            &&& pages.len() >= 2
            &&& pages[0] == pager.on_file()[0]
            &&& pages[1] == pager.on_file()[1]
        }),
{
    let actions = pager.pending().subrange(0, k);
    assert forall|j: int| 0 <= j <= actions.len() implies (#[trigger] space::replayed(
        pager.on_file(),
        actions.subrange(0, j),
        pager.space_of().page_size,
    )).len() >= 2 by {
        assert(actions.subrange(0, j) =~= pager.pending().subrange(0, j));
        pager.lemma_prefix(j);
    }
    assert forall|j: int| 0 <= j < actions.len() implies space::fits(
        space::replayed(pager.on_file(), actions.subrange(0, j), pager.space_of().page_size),
        #[trigger] actions[j],
    ) by {
        assert(actions.subrange(0, j) =~= pager.pending().subrange(0, j));
        pager.lemma_prefix(j);
    }
    lemma_slots_spared(pager.on_file(), actions, pager.space_of().page_size);
}

/// Whether a slot of a file is authoritative, the other holding a header that is not.
pub open spec fn slots_hold(
    pages: Seq<Seq<u8>>,
    slot: int,
    current: Superblock,
    current_chain: Option<SuperblockExtension>,
    older: Superblock,
    older_chain: Option<SuperblockExtension>,
) -> bool {
    &&& 0 <= slot <= 1
    &&& pages.len() >= 2
    &&& accepted(current)
    &&& accepted(older)
    &&& older.page_size == current.page_size
    &&& pages[slot] == pager::slot_page(current, current_chain)
    &&& pages[1 - slot] == pager::slot_page(older, older_chain)
    &&& if slot == 0 {
        older.checkpoint_lsn <= current.checkpoint_lsn
    } else {
        older.checkpoint_lsn < current.checkpoint_lsn
    }
}

/// A file opens with the header of its authoritative slot.
proof fn lemma_authoritative_opens(
    pages: Seq<Seq<u8>>,
    slot: int,
    current: Superblock,
    current_chain: Option<SuperblockExtension>,
    older: Superblock,
    older_chain: Option<SuperblockExtension>,
    truncates: bool,
    a: DevonResult<Superblock>,
    b: DevonResult<Superblock>,
    result: DevonResult<Pager>,
)
    requires
        slots_hold(pages, slot, current, current_chain, older, older_chain),
        forall|i: int| 0 <= i < pages.len() ==> (#[trigger] pages[i]).len() == current.page_size,
        pager::open_outcome(bytes::joined(pages), truncates, a, b, result),
    ensures
        result matches Ok(pager) && same_header(pager.header(), current),
{
    if slot == 0 {
        law_newer_slot_is_opened(
            pages,
            current,
            older,
            current_chain,
            older_chain,
            truncates,
            a,
            b,
            result,
        );
    } else {
        law_newer_slot_is_opened(
            pages,
            older,
            current,
            older_chain,
            current_chain,
            truncates,
            a,
            b,
            result,
        );
    }
}

/// A commit is atomic: wherever the work on the file stops, the file opens, with the header before
/// the commit or with the committed one. `data` are the actions before the commit, which spare the
/// slots, as those of writes, allocations and retirements do.
pub proof fn law_commit_is_atomic(
    staged: Pager,
    data: Seq<ActionView>,
    k: int,
    slot: int,
    current: Superblock,
    current_chain: Option<SuperblockExtension>,
    older: Superblock,
    older_chain: Option<SuperblockExtension>,
    next: Superblock,
    next_chain: Option<SuperblockExtension>,
    truncates: bool,
    a: DevonResult<Superblock>,
    b: DevonResult<Superblock>,
    result: DevonResult<Pager>,
)
    requires
        staged.wf(),
        staged.space_of().page_size == current.page_size,
        slots_hold(staged.on_file(), slot, current, current_chain, older, older_chain),
        accepted(next),
        pager::commit_valid(current, next),
        space::spares_slots(data),
        staged.pending() == data + seq![
            ActionView::Write {
                page: (1 - slot) as u64,
                data: pager::slot_page(next, next_chain),
            },
            ActionView::Sync,
        ],
        0 <= k <= staged.pending().len(),
        pager::open_outcome(
            bytes::joined(
                space::replayed(
                    staged.on_file(),
                    staged.pending().subrange(0, k),
                    staged.space_of().page_size,
                ),
            ),
            truncates,
            a,
            b,
            result,
        ),
    ensures
        result matches Ok(pager) && same_header(
            pager.header(),
            if k <= data.len() {
                current
            } else {
                next
            },
        ),
{
    let size = staged.space_of().page_size;
    let file = staged.on_file();
    let n = data.len() as int;
    let all = staged.pending();
    let reached = space::replayed(file, all.subrange(0, k), size);
    staged.lemma_prefix(k);
    let whole = all.subrange(0, n);
    assert(whole =~= data);
    lemma_prefix_slots(staged, n);
    if k <= n {
        let part = all.subrange(0, k);
        assert forall|i: int| 0 <= i < part.len() implies space::is_spared(#[trigger] part[i]) by {
            assert(part[i] == data[i]);
        }
        lemma_prefix_slots(staged, k);
        lemma_authoritative_opens(
            reached,
            slot,
            current,
            current_chain,
            older,
            older_chain,
            truncates,
            a,
            b,
            result,
        );
    } else {
        let before = space::replayed(file, whole, size);
        let written = all.subrange(0, n + 1);
        assert(written.drop_last() =~= whole);
        assert(all.subrange(0, n + 2).drop_last() =~= written);
        assert(space::replayed(file, written, size) == before.update(
            1 - slot,
            pager::slot_page(next, next_chain),
        ));
        lemma_authoritative_opens(
            reached,
            1 - slot,
            next,
            next_chain,
            current,
            current_chain,
            truncates,
            a,
            b,
            result,
        );
    }
}

/// Publishing feature flags is atomic: wherever the work on the file stops, the file opens, with
/// the old flags or with the new ones, and nothing else of the header changes.
#[verifier::rlimit(60)]
#[verifier::spinoff_prover]
pub proof fn law_flags_are_atomic(
    staged: Pager,
    data: Seq<ActionView>,
    k: int,
    slot: u8,
    current: Superblock,
    current_chain: Option<SuperblockExtension>,
    older: Superblock,
    older_chain: Option<SuperblockExtension>,
    feature_flags: u64,
    next_chain: Option<SuperblockExtension>,
    truncates: bool,
    a: DevonResult<Superblock>,
    b: DevonResult<Superblock>,
    result: DevonResult<Pager>,
)
    requires
        staged.wf(),
        staged.space_of().page_size == current.page_size,
        slots_hold(staged.on_file(), slot as int, current, current_chain, older, older_chain),
        accepted(Superblock { feature_flags, ..current }),
        space::spares_slots(data),
        staged.pending() == data + pager::flag_actions(
            slot,
            pager::slot_page(Superblock { feature_flags, ..current }, next_chain),
        ),
        0 <= k <= staged.pending().len(),
        pager::open_outcome(
            bytes::joined(
                space::replayed(
                    staged.on_file(),
                    staged.pending().subrange(0, k),
                    staged.space_of().page_size,
                ),
            ),
            truncates,
            a,
            b,
            result,
        ),
    ensures
        result matches Ok(pager) && (same_header(pager.header(), current) || same_header(
            pager.header(),
            Superblock { feature_flags, ..current },
        )),
{
    let next = Superblock { feature_flags, ..current };
    let page = pager::slot_page(next, next_chain);
    let size = staged.space_of().page_size;
    let file = staged.on_file();
    let n = data.len() as int;
    let all = staged.pending();
    let reached = space::replayed(file, all.subrange(0, k), size);
    staged.lemma_prefix(k);
    let whole = all.subrange(0, n);
    assert(whole =~= data);
    lemma_prefix_slots(staged, n);
    if k <= n {
        let part = all.subrange(0, k);
        assert forall|i: int| 0 <= i < part.len() implies space::is_spared(#[trigger] part[i]) by {
            assert(part[i] == data[i]);
        }
        lemma_prefix_slots(staged, k);
        lemma_authoritative_opens(
            reached,
            slot as int,
            current,
            current_chain,
            older,
            older_chain,
            truncates,
            a,
            b,
            result,
        );
    } else {
        let before = space::replayed(file, whole, size);
        let one = all.subrange(0, n + 1);
        let two = all.subrange(0, n + 2);
        let three = all.subrange(0, n + 3);
        assert(one.drop_last() =~= whole);
        assert(two.drop_last() =~= one);
        assert(three.drop_last() =~= two);
        assert(all.subrange(0, n + 4).drop_last() =~= three);
        let half = before.update(1 - slot, page);
        assert(space::replayed(file, one, size) == half);
        assert(space::replayed(file, two, size) == half);
        assert(space::replayed(file, three, size) == half.update(slot as int, page));
        if k <= n + 2 {
            if slot == 0 {
                lemma_authoritative_opens(
                    reached, 0, current, current_chain, next, next_chain, truncates, a, b, result,
                );
            } else {
                lemma_authoritative_opens(
                    reached, 0, next, next_chain, current, current_chain, truncates, a, b, result,
                );
            }
        } else {
            lemma_authoritative_opens(
                reached, 0, next, next_chain, next, next_chain, truncates, a, b, result,
            );
        }
    }
}

/// A retirement that a commit publishes: the session is not degraded any more, its chain names a
/// ledger and counts every page that was retired, and the slot that the commit writes carries that
/// chain.
pub proof fn law_published_retirement(
    space: SpaceView,
    superseded: Set<u64>,
    superblock: Superblock,
)
    requires
        ledger::retire(space, superseded, superblock.checkpoint_lsn).0 is None,
        superseded.finite(),
        !superseded.is_empty(),
        superseded.disjoint(ledger::unlink(ledger::compact(space)).1.free.deferred),
        space.pages.len() >= 2,
        space.free.deferred.finite(),
        space.free.floor <= u64::MAX,
        free_pages::capacity_of(space.page_size) > 0,
        superblock.encodable(),
        superblock.feature_flags & FREE_PAGES_FLAG != 0,
    ensures
        ({
            let staged = ledger::retire(space, superseded, superblock.checkpoint_lsn).1.free;
            let after = space::promoted(staged);
            &&& !after.degraded
            &&& after.pending is None
            &&& after.extension is Some
            &&& after.extension->0.names_ledger()
            &&& after.extension->0.retired_total >= saturating::capped(
                ledger::ever_retired(space.free) + superseded.len(),
            )
            &&& free_pages::extension_of(pager::slot_page(superblock, staged.pending))
                == after.extension
        }),
{
    ledger::law_every_retired_page_counts(space, superseded, superblock.checkpoint_lsn);
    let staged = ledger::retire(space, superseded, superblock.checkpoint_lsn).1.free;
    pager::law_committed_slot_reads_back(superblock, staged.pending);
}

} // verus!
