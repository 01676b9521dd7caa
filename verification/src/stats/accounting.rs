//! What each page of a file is for.

use vstd::prelude::*;
use vstd::slice::slice_subrange;

use crate::bytes;
use crate::bytes::{get_le, put_bytes};
use crate::error::ErrorKind;
use crate::stats::{corrupt, PageCounts, StatsError};
use crate::text::{with_name, with_number};

verus! {

/// The first page that can hold data.
pub const FIRST_DATA_PAGE: u64 = 2;

/// What a page is for.
#[derive(Debug, Clone, Copy, PartialEq, Eq, Structural)]
pub enum PageClass {
    Unknown,
    Superblock,
    Catalog,
    Ledger,
    Live,
    Free,
}

/// The file that is looked at: its bytes, the size of its pages, and the
/// memory that looking may take.
pub struct Scene {
    pub image: Seq<u8>,
    pub page_size: nat,
    pub limit: nat,
}

impl Scene {
    /// How many pages there are.
    pub open spec fn page_count(self) -> nat {
        self.image.len() / self.page_size
    }

    /// The bytes of a page.
    pub open spec fn page(self, id: nat) -> Seq<u8> {
        self.image.subrange((id * self.page_size) as int, (id * self.page_size + self.page_size) as int)
    }

    /// A page's bytes are in the file.
    pub proof fn lemma_page(self, id: nat)
        requires
            self.page_size > 0,
            id < self.page_count(),
        ensures
            id * self.page_size + self.page_size <= self.image.len(),
            self.page(id).len() == self.page_size,
    {
        let size = self.page_size;
        let count = self.page_count();
        assert(id * size + size <= count * size) by (nonlinear_arith)
            requires
                id + 1 <= count,
        ;
        vstd::arithmetic::div_mod::lemma_fundamental_div_mod(self.image.len() as int, size as int);
        assert(count * size == size * count) by (nonlinear_arith);
        assert(0 <= id * size) by (nonlinear_arith);
    }
}

/// The pages once one has a use: it must be there and have none yet.
pub open spec fn marked(classes: Seq<PageClass>, id: nat, class: PageClass) -> Option<
    Seq<PageClass>,
> {
    if id < classes.len() && classes[id as int] == PageClass::Unknown {
        Some(classes.update(id as int, class))
    } else {
        None
    }
}

/// Whether a page of a class is metadata.
pub open spec fn is_metadata(class: PageClass) -> bool {
    class == PageClass::Superblock || class == PageClass::Catalog || class == PageClass::Ledger
}

/// How many pages have a class.
pub open spec fn how_many(classes: Seq<PageClass>, class: PageClass) -> nat
    decreases classes.len(),
{
    if classes.len() == 0 {
        0
    } else {
        how_many(classes.drop_last(), class) + if classes.last() == class {
            1nat
        } else {
            0nat
        }
    }
}

/// How many pages are metadata.
pub open spec fn metadata_pages(classes: Seq<PageClass>) -> nat
    decreases classes.len(),
{
    if classes.len() == 0 {
        0
    } else {
        metadata_pages(classes.drop_last()) + if is_metadata(classes.last()) {
            1nat
        } else {
            0nat
        }
    }
}

/// Every page is counted once: the counts are together all pages.
pub proof fn law_pages_are_counted_once(classes: Seq<PageClass>)
    ensures
        how_many(classes, PageClass::Live) + how_many(classes, PageClass::Free) + metadata_pages(
            classes,
        ) + how_many(classes, PageClass::Unknown) == classes.len(),
    decreases classes.len(),
{
    if classes.len() > 0 {
        law_pages_are_counted_once(classes.drop_last());
    }
}

/// The counts of pages.
pub open spec fn counts_of(classes: Seq<PageClass>) -> PageCounts {
    PageCounts {
        total: classes.len() as u64,
        live: how_many(classes, PageClass::Live) as u64,
        free: how_many(classes, PageClass::Free) as u64,
        metadata: metadata_pages(classes) as u64,
        unaccounted: how_many(classes, PageClass::Unknown) as u64,
    }
}

/// What the pages of a file are for, as far as it is known.
#[derive(Debug)]
pub struct Accounting {
    pub classes: Vec<PageClass>,
    pub page_size: u32,
}

impl Accounting {
    /// Nothing is known of any page.
    pub fn new(page_count: usize, page_size: u32) -> (accounting: Accounting)
        ensures
            accounting.page_size == page_size,
            accounting.classes@ == Seq::new(page_count as nat, |i: int| PageClass::Unknown),
    {
        let mut classes: Vec<PageClass> = Vec::new();
        let mut i: usize = 0;
        while i < page_count
            invariant
                i <= page_count,
                classes@ == Seq::new(i as nat, |i: int| PageClass::Unknown),
            decreases page_count - i,
        {
            classes.push(PageClass::Unknown);
            i += 1;
            assert(classes@ =~= Seq::new(i as nat, |i: int| PageClass::Unknown));
        }
        Accounting { classes, page_size }
    }

    /// Gives a page a use.
    pub fn mark(&mut self, page_id: u64, class: PageClass, context: &str) -> (result: Result<
        (),
        StatsError,
    >)
        ensures
            final(self).page_size == old(self).page_size,
            match (result, marked(old(self).classes@, page_id as nat, class)) {
                (Ok(()), Some(after)) => final(self).classes@ == after,
                (Err(error), None) => error.kind_of() == ErrorKind::Corrupt && *final(self) == *old(
                    self,
                ),
                _ => false,
            },
    {
        if page_id >= self.classes.len() as u64 {
            let head: String = with_name("", context, " names page ");
            return Err(corrupt(with_number(head.as_str(), page_id, " beyond EOF").as_str()));
        }
        if self.classes[page_id as usize] != PageClass::Unknown {
            let head: String = with_name("", context, " page ");
            return Err(
                corrupt(
                    with_number(
                        head.as_str(),
                        page_id,
                        " overlaps another accounting category",
                    ).as_str(),
                ),
            );
        }
        self.classes.set(page_id as usize, class);
        Ok(())
    }

    /// The counts of pages.
    pub fn counts(&self) -> (counts: PageCounts)
        ensures
            counts == counts_of(self.classes@),
            counts.live + counts.free + counts.metadata + counts.unaccounted == counts.total,
    {
        let ghost all = self.classes@;
        let mut live: u64 = 0;
        let mut free: u64 = 0;
        let mut metadata: u64 = 0;
        let mut unaccounted: u64 = 0;
        let total: u64 = self.classes.len() as u64;
        let mut i: usize = 0;
        assert(all.subrange(0, 0) =~= Seq::empty());
        while i < self.classes.len()
            invariant
                i <= self.classes@.len() == total,
                all == self.classes@,
                live == how_many(all.subrange(0, i as int), PageClass::Live),
                free == how_many(all.subrange(0, i as int), PageClass::Free),
                metadata == metadata_pages(all.subrange(0, i as int)),
                unaccounted == how_many(all.subrange(0, i as int), PageClass::Unknown),
            decreases self.classes@.len() - i,
        {
            proof {
                let next = all.subrange(0, i + 1);
                assert(next.drop_last() =~= all.subrange(0, i as int));
                law_pages_are_counted_once(all.subrange(0, i as int));
            }
            match self.classes[i] {
                PageClass::Live => {
                    live += 1;
                },
                PageClass::Free => {
                    free += 1;
                },
                PageClass::Unknown => {
                    unaccounted += 1;
                },
                _ => {
                    metadata += 1;
                },
            }
            i += 1;
        }
        assert(all.subrange(0, all.len() as int) =~= all);
        proof {
            law_pages_are_counted_once(all);
        }
        PageCounts { total, live, free, metadata, unaccounted }
    }
}

/// Whether an accounting is of a scene.
pub open spec fn fits(accounting: Accounting, scene: Scene) -> bool {
    &&& accounting.page_size == scene.page_size
    &&& scene.page_size >= 4096
    &&& accounting.classes@.len() == scene.page_count()
}

pub(crate) fn read_page(image: &Vec<u8>, page_size: u32, page_id: u64, Ghost(scene): Ghost<Scene>) -> (page:
    Vec<u8>)
    requires
        scene.image == image@,
        scene.page_size == page_size,
        page_size > 0,
        page_id < scene.page_count(),
    ensures
        page@ == scene.page(page_id as nat),
        page@.len() == page_size,
{
    proof {
        scene.lemma_page(page_id as nat);
    }
    let total: usize = image.len();
    let from: usize = page_id as usize * page_size as usize;
    let to: usize = from + page_size as usize;
    let mut page: Vec<u8> = Vec::new();
    put_bytes(&mut page, slice_subrange(image.as_slice(), from, to));
    assert(page@ =~= scene.page(page_id as nat));
    page
}

/// How far counting a table's pages has come.
#[verifier::ext_equal]
pub struct Progress {
    pub classes: Seq<PageClass>,
    pub pages: nat,
}

/// One page more that a table has.
pub open spec fn taken(before: Progress, id: nat) -> Option<Progress> {
    match marked(before.classes, id, PageClass::Live) {
        Some(classes) => if before.pages < u64::MAX {
            Some(Progress { classes, pages: before.pages + 1 })
        } else {
            None
        },
        None => None,
    }
}

/// The first `n` pages of a run that a table has.
pub open spec fn run_taken(before: Progress, first: nat, n: nat) -> Option<Progress>
    decreases n,
{
    if n == 0 {
        Some(before)
    } else {
        match run_taken(before, first, (n - 1) as nat) {
            Some(after) => taken(after, (first + n - 1) as nat),
            None => None,
        }
    }
}

/// Once a page of a run is refused, more pages do not change that.
proof fn lemma_run_refused(before: Progress, first: nat, at: nat, n: nat)
    requires
        at <= n,
        run_taken(before, first, at) is None,
    ensures
        run_taken(before, first, n) is None,
    decreases n,
{
    if at < n {
        lemma_run_refused(before, first, at, (n - 1) as nat);
    }
}

/// How many pages so many bytes take.
pub open spec fn pages_for(len: nat, page_size: nat) -> nat {
    ((len + page_size - 1) / page_size as int) as nat
}

/// How many pages a payload takes, at least one.
pub open spec fn payload_pages(len: nat, page_size: nat) -> nat {
    if len == 0 {
        1
    } else {
        pages_for(len, page_size)
    }
}

impl Accounting {
    pub(crate) fn take(&mut self, page_id: u64, pages: u64, context: &str) -> (result: Result<
        u64,
        StatsError,
    >)
        ensures
            final(self).page_size == old(self).page_size,
            final(self).classes@.len() == old(self).classes@.len(),
            match (
                result,
                taken(
                    Progress { classes: old(self).classes@, pages: pages as nat },
                    page_id as nat,
                ),
            ) {
                (Ok(more), Some(after)) => after == (Progress {
                    classes: final(self).classes@,
                    pages: more as nat,
                }),
                (Err(error), None) => error.kind_of() == ErrorKind::Corrupt,
                _ => false,
            },
    {
        match self.mark(page_id, PageClass::Live, context) {
            Ok(()) => {},
            Err(error) => {
                return Err(error);
            },
        }
        match pages.checked_add(1) {
            Some(more) => Ok(more),
            None => Err(corrupt("per-table page count overflows u64")),
        }
    }

    pub(crate) fn take_run(&mut self, first: u64, count: u64, pages: u64, context: &str) -> (result: Result<
        u64,
        StatsError,
    >)
        ensures
            final(self).page_size == old(self).page_size,
            final(self).classes@.len() == old(self).classes@.len(),
            match (
                result,
                run_taken(
                    Progress { classes: old(self).classes@, pages: pages as nat },
                    first as nat,
                    count as nat,
                ),
            ) {
                (Ok(more), Some(after)) => after == (Progress {
                    classes: final(self).classes@,
                    pages: more as nat,
                }),
                (Err(error), None) => error.kind_of() == ErrorKind::Corrupt,
                _ => false,
            },
    {
        let ghost start = Progress { classes: self.classes@, pages: pages as nat };
        let total: usize = self.classes.len();
        let mut seen: u64 = pages;
        let mut i: u64 = 0;
        while i < count
            invariant
                i <= count,
                total == self.classes@.len(),
                start.classes == old(self).classes@,
                start.pages == pages,
                self.page_size == old(self).page_size,
                self.classes@.len() == old(self).classes@.len(),
                run_taken(start, first as nat, i as nat) == Some(
                    (Progress { classes: self.classes@, pages: seen as nat }),
                ),
            decreases count - i,
        {
            proof {
                if run_taken(start, first as nat, (i + 1) as nat) is None {
                    lemma_run_refused(start, first as nat, (i + 1) as nat, count as nat);
                }
            }
            let id: u64 = match first.checked_add(i) {
                Some(id) => id,
                None => {
                    return Err(corrupt("payload page run overflows u64"));
                },
            };
            match self.take(id, seen, context) {
                Ok(more) => {
                    seen = more;
                },
                Err(error) => {
                    return Err(error);
                },
            }
            i += 1;
        }
        Ok(seen)
    }
}

/// The shape of a group's directory: how many columns its schema has, how
/// many entries follow, and whether it is of nodes.
#[derive(Debug, Clone, Copy, PartialEq, Eq, Structural)]
pub struct GroupLayout {
    pub columns: usize,
    pub entries: usize,
    pub nodes: bool,
}

/// The four bytes that a directory begins with.
pub open spec fn directory_magic(nodes: bool) -> Seq<u8> {
    if nodes {
        seq![0x4eu8, 0x47, 0x52, 0x50]
    } else {
        seq![0x52u8, 0x43, 0x53, 0x52]
    }
}

/// Whether a page is a group's directory.
pub open spec fn directory_holds(page: Seq<u8>, layout: GroupLayout) -> bool {
    &&& page.subrange(0, 4) == directory_magic(layout.nodes)
    &&& bytes::le_at(
        page,
        if layout.nodes {
            8
        } else {
            12
        },
        4,
    ) == layout.columns
    &&& 16 + layout.entries * 16 <= page.len()
}

/// The pages of the first `n` entries of a directory.
pub open spec fn entries_taken(
    before: Progress,
    page: Seq<u8>,
    page_size: nat,
    n: nat,
) -> Option<Progress>
    decreases n,
{
    if n == 0 {
        Some(before)
    } else {
        match entries_taken(before, page, page_size, (n - 1) as nat) {
            None => None,
            Some(after) => {
                let first = bytes::le_at(page, n as int * 16, 8);
                let len = bytes::le_at(page, n as int * 16 + 8, 4);
                if first < FIRST_DATA_PAGE {
                    None
                } else {
                    run_taken(after, first, payload_pages(len, page_size))
                }
            },
        }
    }
}

proof fn lemma_entries_refused(
    before: Progress,
    page: Seq<u8>,
    page_size: nat,
    at: nat,
    n: nat,
)
    requires
        at <= n,
        entries_taken(before, page, page_size, at) is None,
    ensures
        entries_taken(before, page, page_size, n) is None,
    decreases n,
{
    if at < n {
        lemma_entries_refused(before, page, page_size, at, (n - 1) as nat);
    }
}

/// The pages of a group: its directory and what that names.
pub open spec fn group_taken(scene: Scene, before: Progress, root: nat, layout: GroupLayout) -> Option<
    Progress,
> {
    match taken(before, root) {
        None => None,
        Some(after) => if directory_holds(scene.page(root), layout) {
            entries_taken(after, scene.page(root), scene.page_size, layout.entries as nat)
        } else {
            None
        },
    }
}

pub(crate) fn begins_with(page: &Vec<u8>, a: u8, b: u8, c: u8, d: u8) -> (yes: bool)
    requires
        page@.len() >= 4,
    ensures
        yes == (page@.subrange(0, 4) == seq![a, b, c, d]),
{
    let yes: bool = page[0] == a && page[1] == b && page[2] == c && page[3] == d;
    proof {
        let head = page@.subrange(0, 4);
        let want = seq![a, b, c, d];
        if yes {
            assert(head =~= want);
        } else if head == want {
            assert(head[0] == want[0] && head[1] == want[1] && head[2] == want[2] && head[3]
                == want[3]);
        }
    }
    yes
}

/// Counts the pages of a group.
pub(crate) fn account_group(
    image: &Vec<u8>,
    root: u64,
    layout: GroupLayout,
    accounting: &mut Accounting,
    pages: u64,
    Ghost(scene): Ghost<Scene>,
) -> (result: Result<u64, StatsError>)
    requires
        scene.image == image@,
        fits(*old(accounting), scene),
    ensures
        fits(*final(accounting), scene),
        match (
            result,
            group_taken(
                scene,
                Progress { classes: old(accounting).classes@, pages: pages as nat },
                root as nat,
                layout,
            ),
        ) {
            (Ok(more), Some(after)) => after == (Progress {
                classes: final(accounting).classes@,
                pages: more as nat,
            }),
            (Err(error), None) => error.kind_of() == ErrorKind::Corrupt,
            _ => false,
        },
{
    let mut seen: u64 = match accounting.take(root, pages, "table directory") {
        Ok(seen) => seen,
        Err(error) => {
            return Err(error);
        },
    };
    let ghost start = Progress { classes: accounting.classes@, pages: seen as nat };
    let page_size: u32 = accounting.page_size;
    let page: Vec<u8> = read_page(image, page_size, root, Ghost(scene));
    let right: bool = if layout.nodes {
        begins_with(&page, 0x4e, 0x47, 0x52, 0x50)
    } else {
        begins_with(&page, 0x52, 0x43, 0x53, 0x52)
    };
    if !right {
        return Err(corrupt("catalog root names the wrong table directory kind"));
    }
    let stored: u64 = get_le(
        page.as_slice(),
        if layout.nodes {
            8
        } else {
            12
        },
        4,
    );
    if stored != layout.columns as u64 {
        return Err(corrupt("table directory column_count disagrees with schema"));
    }
    if layout.entries > (page.len() - 16) / 16 {
        return Err(corrupt("directory entries exceed their page"));
    }
    let mut i: usize = 0;
    while i < layout.entries
        invariant
            i <= layout.entries,
            16 + layout.entries * 16 <= page@.len() == page_size,
            page_size == scene.page_size,
            fits(*accounting, scene),
            entries_taken(start, page@, page_size as nat, i as nat) == Some(
                (Progress { classes: accounting.classes@, pages: seen as nat }),
            ),
            page@ == scene.page(root as nat),
            directory_holds(page@, layout),
            group_taken(
                scene,
                Progress { classes: old(accounting).classes@, pages: pages as nat },
                root as nat,
                layout,
            ) == entries_taken(start, page@, page_size as nat, layout.entries as nat),
        decreases layout.entries - i,
    {
        proof {
            if entries_taken(start, page@, page_size as nat, (i + 1) as nat) is None {
                lemma_entries_refused(
                    start,
                    page@,
                    page_size as nat,
                    (i + 1) as nat,
                    layout.entries as nat,
                );
            }
        }
        let first: u64 = get_le(page.as_slice(), 16 + i * 16, 8);
        let len: u64 = get_le(page.as_slice(), 24 + i * 16, 4);
        proof {
            bytes::lemma_radix_values();
        }
        if first < FIRST_DATA_PAGE {
            return Err(corrupt("payload run names a reserved page"));
        }
        let count: u64 = if len == 0 {
            1
        } else {
            (len + page_size as u64 - 1) / page_size as u64
        };
        match accounting.take_run(first, count, seen, "table payload") {
            Ok(more) => {
                seen = more;
            },
            Err(error) => {
                return Err(error);
            },
        }
        i += 1;
    }
    Ok(seen)
}

} // verus!
