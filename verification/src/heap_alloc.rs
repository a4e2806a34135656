//! Self-describing, append-only bitmap page allocator over a fixed heap
//! range.
//!
//! On construction the allocator computes how many status slots are
//! needed to describe every page of the heap, reserves the leading pages
//! that would hold that status array as metadata, and marks the rest
//! empty. `allocate` performs a first-fit linear scan: the first run of
//! empty pages long enough is marked taken (the first page `is_start`,
//! the last `is_last`) and the address of its first page is returned.
//! There is no deallocation: the allocator is intentionally append-only
//! for the boot-time arenas it serves.

use vstd::prelude::*;

verus! {

/// Byte width of one page-status record as stored in the metadata
/// region at the front of the heap.
pub const PAGE_STATUS_BYTES: usize = 3;

/// Marks kept for one page of a taken run.
#[derive(Clone, Copy, Debug, PartialEq, Eq, Structural)]
pub struct TakenPage {
    pub is_start: bool,
    pub is_last: bool,
}

/// Status of one physical page of the heap.
#[derive(Clone, Copy, Debug, PartialEq, Eq, Structural)]
pub enum PageStatus {
    /// The page holds the status array itself.
    MetaData,
    /// The page is free.
    Empty,
    /// The page belongs to an allocated run.
    Taken(TakenPage),
}

/// Failure of `allocate`: no contiguous run of empty pages is long
/// enough for the request.
#[derive(Clone, Copy, Debug, PartialEq, Eq, Structural)]
pub enum AllocErr {
    NoBigEnoughBlocks,
}

/// Page `i` is taken but does not begin a run.
pub open spec fn taken_non_start(s: Seq<PageStatus>, i: int) -> bool {
    s[i] matches PageStatus::Taken(t) && !t.is_start
}

/// Page `i` is taken but does not end a run.
pub open spec fn taken_non_last(s: Seq<PageStatus>, i: int) -> bool {
    s[i] matches PageStatus::Taken(t) && !t.is_last
}

/// Page `i` is free.
pub open spec fn page_empty(s: Seq<PageStatus>, i: int) -> bool {
    s[i] is Empty
}

/// Page `i` is taken.
pub open spec fn page_taken(s: Seq<PageStatus>, i: int) -> bool {
    s[i] is Taken
}

/// Page `i` begins a taken run.
pub open spec fn taken_start(s: Seq<PageStatus>, i: int) -> bool {
    s[i] matches PageStatus::Taken(t) && t.is_start
}

/// Shape invariant of the status array: the first `meta` slots are
/// metadata and only those; every contiguous taken run begins with
/// exactly one `is_start` page and ends with exactly one `is_last`
/// page, so runs never overlap and never touch the metadata region.
pub open spec fn wf_statuses(s: Seq<PageStatus>, meta: int) -> bool {
    &&& forall|i: int| 0 <= i < s.len() ==> ((s[i] is MetaData) <==> i < meta)
    &&& forall|i: int|
        0 <= i < s.len() && taken_non_start(s, i) ==> 1 <= i && taken_non_last(s, i - 1)
    &&& forall|i: int|
        0 <= i < s.len() && taken_non_last(s, i) ==> i + 1 < s.len() && taken_non_start(s, i + 1)
}

/// Pages `[b, b + n)` are all free.
pub open spec fn range_free(s: Seq<PageStatus>, b: int, n: int) -> bool {
    forall|i: int| b <= i < b + n ==> page_empty(s, i)
}

/// The empty pages form a suffix of the status array: the allocator is
/// append-only, so everything taken sits left of everything free.
pub open spec fn statuses_sorted(s: Seq<PageStatus>, meta: int) -> bool {
    forall|i: int, j: int|
        meta <= i <= j < s.len() && #[trigger] page_empty(s, i) ==> #[trigger] page_empty(s, j)
}

/// Index of the first free page at or after `i` (the array's length
/// when every page from `i` on is occupied).
pub open spec fn first_empty_from(s: Seq<PageStatus>, i: int) -> int
    decreases s.len() - i,
{
    if i < 0 || i >= s.len() {
        s.len() as int
    } else if page_empty(s, i) {
        i
    } else {
        first_empty_from(s, i + 1)
    }
}

/// Basic facts about `first_empty_from`: it stays in bounds, nothing
/// before it is free, and it lands on a free page when one exists.
pub proof fn lemma_first_empty_from(s: Seq<PageStatus>, i: int)
    requires
        i >= 0,
    ensures
        0 <= first_empty_from(s, i) <= s.len(),
        forall|j: int| i <= j < first_empty_from(s, i) ==> !page_empty(s, j),
        first_empty_from(s, i) < s.len() ==> i <= first_empty_from(s, i) && page_empty(
            s,
            first_empty_from(s, i),
        ),
    decreases s.len() - i,
{
    if 0 <= i < s.len() && !page_empty(s, i) {
        lemma_first_empty_from(s, i + 1);
    }
}

/// `first_empty_from` is pinned by any witness `k`: nothing free before
/// `k`, and `k` itself free or past the end.
pub proof fn lemma_first_empty_pinned(s: Seq<PageStatus>, i: int, k: int)
    requires
        0 <= i <= k <= s.len(),
        forall|j: int| i <= j < k ==> !page_empty(s, j),
        k < s.len() ==> page_empty(s, k),
    ensures
        first_empty_from(s, i) == k,
    decreases s.len() - i,
{
    if i < k {
        lemma_first_empty_pinned(s, i + 1, k);
    }
}

/// First-fit scan: the least start `>= b` from which `n` consecutive
/// pages are free, or `None` when no such start exists.
pub open spec fn first_fit_from(s: Seq<PageStatus>, b: int, n: int) -> Option<int>
    decreases s.len() - b,
{
    if b + n > s.len() || n < 0 {
        None
    } else if range_free(s, b, n) {
        Some(b)
    } else {
        first_fit_from(s, b + 1, n)
    }
}

/// A scan may step over a stretch with no fit without changing the
/// first-fit result.
pub proof fn lemma_first_fit_skip(s: Seq<PageStatus>, b: int, next: int, n: int)
    requires
        b <= next,
        forall|c: int| b <= c < next ==> !(c + n <= s.len() && range_free(s, c, n)),
    ensures
        first_fit_from(s, b, n) == first_fit_from(s, next, n),
    decreases next - b,
{
    if b < next {
        assert(!(b + n <= s.len() && range_free(s, b, n)));
        lemma_first_fit_skip(s, b + 1, next, n);
    }
}

/// On a status array whose free pages form a suffix, first fit
/// degenerates to bump allocation: the first free page is chosen
/// whenever the tail is long enough, and nothing fits otherwise.
pub proof fn lemma_sorted_first_fit(s: Seq<PageStatus>, meta: int, n: int)
    requires
        statuses_sorted(s, meta),
        meta >= 1,
        n >= 1,
    ensures
        first_fit_from(s, meta, n) == (if first_empty_from(s, meta) + n <= s.len() {
            Some(first_empty_from(s, meta))
        } else {
            None
        }),
{
    let fe = first_empty_from(s, meta);
    lemma_first_empty_from(s, meta);
    if fe + n <= s.len() {
        assert(page_empty(s, fe));
        assert forall|k: int| fe <= k < fe + n implies page_empty(s, k) by {}
        assert(range_free(s, fe, n));
        assert forall|c: int| meta <= c < fe implies !(c + n <= s.len() && range_free(s, c, n)) by {
            assert(!page_empty(s, c));
        }
        lemma_first_fit_skip(s, meta, fe, n);
    } else {
        lemma_first_fit_sound(s, meta, n);
        if let Some(c) = first_fit_from(s, meta, n) {
            assert(page_empty(s, c));
            assert(!page_empty(s, c));
        }
    }
}

/// The first-fit result, when it exists, really is a fitting start at
/// or after `b`, and the least one.
pub proof fn lemma_first_fit_sound(s: Seq<PageStatus>, b: int, n: int)
    requires
        n >= 0,
    ensures
        match first_fit_from(s, b, n) {
            Some(c) => {
                &&& b <= c
                &&& c + n <= s.len()
                &&& range_free(s, c, n)
                &&& forall|d: int| b <= d < c ==> !range_free(s, d, n)
            },
            None => forall|d: int| b <= d && d + n <= s.len() ==> !range_free(s, d, n),
        },
    decreases s.len() - b,
{
    if b + n > s.len() {
    } else if range_free(s, b, n) {
    } else {
        lemma_first_fit_sound(s, b + 1, n);
    }
}

/// Bitmap page allocator over the heap range `[heap_start, heap_end)`,
/// with pages of `PAGE_SIZE` bytes. The status array that, in the
/// heap itself, occupies the leading metadata pages is held here as a
/// vector, one slot per page.
pub struct AndyAllocator<const PAGE_SIZE: usize> {
    pub heap_start: usize,
    pub heap_end: usize,
    pub statuses: Vec<PageStatus>,
}

impl<const PAGE_SIZE: usize> AndyAllocator<PAGE_SIZE> {
    /// Number of pages the heap range holds.
    pub open spec fn spec_total_pages(&self) -> int {
        (self.heap_end - self.heap_start) / (PAGE_SIZE as int)
    }

    /// One past the last byte of the status array.
    pub open spec fn spec_page_data_end(&self) -> int {
        self.heap_start + self.spec_total_pages() * (PAGE_STATUS_BYTES as int)
    }

    /// First page past the metadata region; allocation scans start here.
    pub open spec fn spec_pages_start(&self) -> int {
        (self.spec_page_data_end() - self.heap_start) / (PAGE_SIZE as int) + 1
    }

    /// Address of page `page_num`.
    pub open spec fn spec_page_addr(&self, page_num: int) -> int {
        self.heap_start + page_num * (PAGE_SIZE as int)
    }

    /// Well-formedness: the range is ordered, the status array describes
    /// every page, address arithmetic cannot overflow, and the statuses
    /// have the run shape of `wf_statuses`.
    pub open spec fn wf(&self) -> bool {
        &&& PAGE_SIZE >= 1
        &&& self.heap_start <= self.heap_end
        &&& self.spec_page_data_end() < usize::MAX
        &&& self.statuses@.len() == self.spec_total_pages()
        &&& wf_statuses(self.statuses@, self.spec_pages_start())
        &&& statuses_sorted(self.statuses@, self.spec_pages_start())
    }

    /// Index of the first page that is still free; the allocator only
    /// ever hands out pages from here on.
    pub open spec fn spec_first_free_page(&self) -> int {
        first_empty_from(self.statuses@, self.spec_pages_start())
    }

    /// How many pages are still free: the whole tail of the heap.
    pub open spec fn spec_free_pages(&self) -> int {
        self.statuses@.len() - self.spec_first_free_page()
    }

    /// Builds the allocator over `[heap_start, heap_end)`: the leading
    /// pages that would hold the status array are marked metadata,
    /// every other page empty.
    pub fn new(heap_start: usize, heap_end: usize) -> (r: Self)
        requires
            PAGE_SIZE >= 1,
            heap_start <= heap_end,
            heap_start + ((heap_end - heap_start) / (PAGE_SIZE as int)) * (PAGE_STATUS_BYTES as int)
                < usize::MAX,
        ensures
            r.wf(),
            r.heap_start == heap_start,
            r.heap_end == heap_end,
            forall|i: int|
                0 <= i < r.statuses@.len() ==> r.statuses@[i] == (if i < r.spec_pages_start() {
                    PageStatus::MetaData
                } else {
                    PageStatus::Empty
                }),
    {
        let mut allocator = AndyAllocator { heap_start, heap_end, statuses: Vec::new() };

        let num_pages: usize = allocator.total_pages();
        let pages_start: usize = allocator.pages_start();

        let mut page_num: usize = 0;
        while page_num < num_pages
            invariant
                allocator.heap_start == heap_start,
                allocator.heap_end == heap_end,
                PAGE_SIZE >= 1,
                heap_start <= heap_end,
                allocator.spec_page_data_end() < usize::MAX,
                num_pages == allocator.spec_total_pages(),
                pages_start == allocator.spec_pages_start(),
                page_num <= num_pages,
                allocator.statuses@.len() == page_num,
                forall|i: int|
                    0 <= i < page_num ==> allocator.statuses@[i] == (if i < pages_start {
                        PageStatus::MetaData
                    } else {
                        PageStatus::Empty
                    }),
            decreases num_pages - page_num,
        {
            if page_num < pages_start {
                allocator.statuses.push(PageStatus::MetaData);
            } else {
                allocator.statuses.push(PageStatus::Empty);
            }
            page_num = page_num + 1;
        }

        allocator
    }

    /// Number of pages the heap range holds.
    pub fn total_pages(&self) -> (r: usize)
        requires
            PAGE_SIZE >= 1,
            self.heap_start <= self.heap_end,
        ensures
            r == self.spec_total_pages(),
    {
        (self.heap_end - self.heap_start) / PAGE_SIZE
    }

    /// One past the last byte of the status array.
    pub fn page_data_end(&self) -> (r: usize)
        requires
            PAGE_SIZE >= 1,
            self.heap_start <= self.heap_end,
            self.spec_page_data_end() <= usize::MAX,
        ensures
            r == self.spec_page_data_end(),
    {
        proof {
            vstd::arithmetic::div_mod::lemma_div_is_ordered_by_denominator(
                (self.heap_end - self.heap_start) as int,
                1,
                PAGE_SIZE as int,
            );
        }
        self.heap_start + (self.total_pages() * PAGE_STATUS_BYTES)
    }

    /// First page past the metadata region.
    pub fn pages_start(&self) -> (r: usize)
        requires
            PAGE_SIZE >= 1,
            self.heap_start <= self.heap_end,
            self.spec_page_data_end() < usize::MAX,
        ensures
            r == self.spec_pages_start(),
    {
        (self.page_data_end() - self.heap_start) / PAGE_SIZE + 1
    }

    /// Address where the status record of page `page_num` lives inside
    /// the metadata region.
    pub fn get_page_status_addr(&self, page_num: usize) -> (r: usize)
        requires
            PAGE_SIZE >= 1,
            self.heap_start <= self.heap_end,
            self.spec_page_data_end() < usize::MAX,
            page_num < self.spec_total_pages(),
        ensures
            r == self.heap_start + page_num * (PAGE_STATUS_BYTES as int),
            self.heap_start <= r < self.spec_page_data_end(),
    {
        proof {
            vstd::arithmetic::mul::lemma_mul_inequality(
                page_num + 1,
                self.spec_total_pages(),
                PAGE_STATUS_BYTES as int,
            );
        }
        let page_addr = self.heap_start + (page_num * PAGE_STATUS_BYTES);
        page_addr
    }

    /// Address of page `page_num` of the heap.
    pub fn get_page_addr(&self, page_num: usize) -> (r: usize)
        requires
            PAGE_SIZE >= 1,
            self.heap_start <= self.heap_end,
            page_num < self.spec_total_pages(),
        ensures
            r == self.spec_page_addr(page_num as int),
            self.heap_start <= r < self.heap_end,
    {
        proof {
            vstd::arithmetic::mul::lemma_mul_inequality(
                page_num + 1,
                self.spec_total_pages(),
                PAGE_SIZE as int,
            );
            vstd::arithmetic::mul::lemma_mul_is_distributive_add_other_way(
                PAGE_SIZE as int,
                page_num as int,
                1,
            );
            vstd::arithmetic::div_mod::lemma_fundamental_div_mod(
                (self.heap_end - self.heap_start) as int,
                PAGE_SIZE as int,
            );
            vstd::arithmetic::div_mod::lemma_mod_bound(
                (self.heap_end - self.heap_start) as int,
                PAGE_SIZE as int,
            );
        }
        let page_addr = self.heap_start + (page_num * PAGE_SIZE);
        page_addr
    }

    /// How many pages are still free: the length of the free tail.
    pub fn free_pages(&self) -> (r: usize)
        requires
            self.wf(),
        ensures
            r == self.spec_free_pages(),
    {
        let total: usize = self.statuses.len();
        let mut page_num: usize = self.pages_start();
        if page_num > total {
            proof {
                assert(first_empty_from(self.statuses@, self.spec_pages_start()) == total as int);
            }
            return 0;
        }
        while page_num < total
            invariant
                self.wf(),
                total == self.statuses@.len(),
                self.spec_pages_start() <= page_num <= total,
                forall|j: int|
                    self.spec_pages_start() <= j < page_num ==> !page_empty(self.statuses@, j),
            decreases total - page_num,
        {
            match self.check_page_num(page_num) {
                PageStatus::Empty => {
                    proof {
                        lemma_first_empty_pinned(
                            self.statuses@,
                            self.spec_pages_start(),
                            page_num as int,
                        );
                    }
                    return total - page_num;
                },
                _ => {},
            }
            page_num = page_num + 1;
        }
        proof {
            lemma_first_empty_pinned(self.statuses@, self.spec_pages_start(), total as int);
        }
        0
    }

    /// Status of page `page_num`.
    pub fn check_page_num(&self, page_num: usize) -> (r: PageStatus)
        requires
            page_num < self.statuses@.len(),
        ensures
            r == self.statuses@[page_num as int],
    {
        self.statuses[page_num]
    }

    /// Walks a taken run from its `is_start` page to its `is_last` page
    /// and returns the page index one past the run's end.
    pub fn find_end_of_block(&self, start_num: usize) -> (r: usize)
        requires
            self.wf(),
            start_num < self.statuses@.len(),
            taken_start(self.statuses@, start_num as int),
        ensures
            start_num < r <= self.statuses@.len(),
            forall|i: int| start_num <= i < r ==> page_taken(self.statuses@, i),
            forall|i: int| start_num <= i < r - 1 ==> taken_non_last(self.statuses@, i),
            !taken_non_last(self.statuses@, r - 1),
    {
        let total: usize = self.statuses.len();
        let mut page_num: usize = start_num;
        while page_num < total
            invariant
                self.wf(),
                total == self.statuses@.len(),
                start_num <= page_num < total,
                page_taken(self.statuses@, page_num as int),
                forall|i: int| start_num <= i < page_num ==> page_taken(self.statuses@, i),
                forall|i: int| start_num <= i < page_num ==> taken_non_last(self.statuses@, i),
            decreases total - page_num,
        {
            match self.check_page_num(page_num) {
                PageStatus::Taken(page) => {
                    if page.is_last {
                        return page_num + 1;
                    }
                    proof {
                        assert(taken_non_last(self.statuses@, page_num as int));
                    }
                }
                _ => {
                    return vstd::pervasive::unreached();
                }
            }
            page_num = page_num + 1;
        }
        vstd::pervasive::unreached()
    }

    /// Scans `[start_num, end_num)`. Returns `None` when every page in
    /// the range is free; otherwise returns the page just past the
    /// taken run that blocks the range, so that the caller's scan can
    /// jump over the whole run instead of stepping page by page.
    pub fn check_if_range_unused(&self, start_num: usize, end_num: usize) -> (r: Option<usize>)
        requires
            self.wf(),
            self.spec_pages_start() <= start_num <= end_num <= self.statuses@.len(),
            start_num < self.statuses@.len() ==> !taken_non_start(self.statuses@, start_num as int),
        ensures
            match r {
                None => forall|i: int| start_num <= i < end_num ==> page_empty(self.statuses@, i),
                Some(next) => {
                    &&& start_num < next <= self.statuses@.len()
                    &&& next < self.statuses@.len() ==> !taken_non_start(
                        self.statuses@,
                        next as int,
                    )
                    &&& forall|c: int|
                        start_num <= c < next ==> !(#[trigger] range_free(
                            self.statuses@,
                            c,
                            end_num - start_num,
                        ))
                    // `next` is exactly one past the first taken run
                    // met: pages before that run's start are free, the
                    // run reaches to `next - 1`, which ends it
                    &&& exists|q: int|
                        start_num <= q < end_num && #[trigger] taken_start(self.statuses@, q) && (
                        forall|i: int| start_num <= i < q ==> page_empty(self.statuses@, i)) && (
                        forall|i: int|
                            q <= i < next - 1 ==> taken_non_last(self.statuses@, i)) && page_taken(
                            self.statuses@,
                            next - 1,
                        ) && !taken_non_last(self.statuses@, next - 1)
                },
            },
    {
        let mut page_num: usize = start_num;
        while page_num < end_num
            invariant
                self.wf(),
                self.spec_pages_start() <= start_num,
                start_num <= page_num <= end_num <= self.statuses@.len(),
                start_num < self.statuses@.len() ==> !taken_non_start(
                    self.statuses@,
                    start_num as int,
                ),
                forall|i: int| start_num <= i < page_num ==> page_empty(self.statuses@, i),
            decreases end_num - page_num,
        {
            match self.check_page_num(page_num) {
                PageStatus::Empty => {}
                PageStatus::Taken(page) => {
                    if page.is_start {
                        let next = self.find_end_of_block(page_num);
                        proof {
                            assert forall|c: int|
                                start_num <= c < next implies !(#[trigger] range_free(
                                self.statuses@,
                                c,
                                end_num - start_num,
                            )) by {
                                if c <= page_num {
                                    assert(!page_empty(self.statuses@, page_num as int));
                                } else {
                                    assert(page_taken(self.statuses@, c));
                                    assert(!page_empty(self.statuses@, c));
                                }
                            }
                            if next < self.statuses@.len() && taken_non_start(
                                self.statuses@,
                                next as int,
                            ) {
                                assert(taken_non_last(self.statuses@, next - 1));
                            }
                            assert(taken_start(self.statuses@, page_num as int) && (forall|i: int|
                                start_num <= i < page_num ==> page_empty(self.statuses@, i)) && (
                            forall|i: int|
                                page_num <= i < next - 1 ==> taken_non_last(self.statuses@, i))
                                && page_taken(self.statuses@, next - 1) && !taken_non_last(
                                self.statuses@,
                                next - 1,
                            ));
                        }
                        return Some(next);
                    }
                    proof {
                        assert(taken_non_start(self.statuses@, page_num as int));
                        if page_num > start_num {
                            assert(page_empty(self.statuses@, page_num - 1));
                        }
                        assert(false);
                    }
                }
                PageStatus::MetaData => {
                    return vstd::pervasive::unreached();
                }
            }
            page_num = page_num + 1;
        }
        None
    }

    /// First-fit allocation of `num_pages` contiguous pages. On success
    /// the chosen run — the lowest fitting one — is marked taken, its
    /// first page `is_start` and its last `is_last`, every other status
    /// is untouched, and the address of the run's first page is
    /// returned. When no contiguous run of empty pages is long enough
    /// the allocator is left unchanged and the request fails. Taken
    /// pages stay taken forever: there is no deallocation.
    pub fn allocate(&mut self, num_pages: usize) -> (r: Result<usize, AllocErr>)
        requires
            old(self).wf(),
            num_pages >= 1,
        ensures
            final(self).wf(),
            final(self).heap_start == old(self).heap_start,
            final(self).heap_end == old(self).heap_end,
            match first_fit_from(
                old(self).statuses@,
                old(self).spec_pages_start(),
                num_pages as int,
            ) {
                Some(b) => {
                    &&& r == Ok::<usize, AllocErr>(old(self).spec_page_addr(b) as usize)
                    &&& range_free(old(self).statuses@, b, num_pages as int)
                    &&& final(self).statuses@.len() == old(self).statuses@.len()
                    &&& forall|i: int|
                        b <= i < b + num_pages ==> final(self).statuses@[i] == (PageStatus::Taken(
                            TakenPage { is_start: i == b, is_last: i == b + num_pages - 1 },
                        ))
                    &&& forall|i: int|
                        0 <= i < old(self).statuses@.len() && !(b <= i < b + num_pages)
                            ==> final(self).statuses@[i] == old(self).statuses@[i]
                },
                None => r == Err::<usize, AllocErr>(AllocErr::NoBigEnoughBlocks) && *final(self)
                    == *old(self),
            },
            // the append-only shape makes first fit a bump allocation
            r matches Ok(addr) ==> {
                &&& old(self).spec_free_pages() >= num_pages
                &&& addr == old(self).spec_page_addr(old(self).spec_first_free_page())
                &&& final(self).spec_first_free_page() == old(self).spec_first_free_page()
                    + num_pages
            },
            r is Err ==> old(self).spec_free_pages() < num_pages,
    {
        let ghost s0 = self.statuses@;
        let ghost meta = self.spec_pages_start();
        let ghost n = num_pages as int;
        let total_pages: usize = self.total_pages();
        if num_pages > total_pages {
            proof {
                lemma_first_fit_sound(s0, meta, n);
                if let Some(b) = first_fit_from(s0, meta, n) {
                    assert(false);
                }
                lemma_first_empty_from(s0, meta);
            }
            return Err(AllocErr::NoBigEnoughBlocks);
        }
        let mut start_page: usize = self.pages_start();
        while start_page <= total_pages - num_pages
            invariant
                self == old(self),
                self.wf(),
                s0 == self.statuses@,
                meta == self.spec_pages_start(),
                n == num_pages as int,
                1 <= num_pages <= total_pages,
                total_pages == self.spec_total_pages(),
                meta <= start_page,
                first_fit_from(s0, meta, n) == first_fit_from(s0, start_page as int, n),
                start_page < s0.len() ==> !taken_non_start(s0, start_page as int),
            decreases total_pages - start_page,
        {
            let end_page: usize = start_page + num_pages;
            match self.check_if_range_unused(start_page, end_page) {
                None => {
                    proof {
                        assert(range_free(s0, start_page as int, n));
                        assert(first_fit_from(s0, start_page as int, n) == Some(
                            start_page as int,
                        ));
                    }
                    let mut page_num: usize = start_page;
                    while page_num < end_page
                        invariant
                            start_page <= page_num <= end_page,
                            end_page == start_page + num_pages,
                            end_page <= s0.len(),
                            s0.len() == total_pages,
                            num_pages >= 1,
                            PAGE_SIZE >= 1,
                            self.heap_start <= self.heap_end,
                            total_pages == self.spec_total_pages(),
                            self.heap_start == old(self).heap_start,
                            self.heap_end == old(self).heap_end,
                            self.statuses@.len() == s0.len(),
                            forall|i: int|
                                start_page <= i < page_num ==> self.statuses@[i] == (
                                PageStatus::Taken(
                                    TakenPage {
                                        is_start: i == start_page,
                                        is_last: i == end_page - 1,
                                    },
                                )),
                            forall|i: int|
                                0 <= i < s0.len() && !(start_page <= i < page_num)
                                    ==> self.statuses@[i] == s0[i],
                        decreases end_page - page_num,
                    {
                        self.statuses[page_num] = PageStatus::Taken(
                            TakenPage {
                                is_start: page_num == start_page,
                                is_last: page_num == end_page - 1,
                            },
                        );
                        page_num = page_num + 1;
                    }
                    proof {
                        lemma_first_fit_sound(s0, meta, n);
                        lemma_mark_run_keeps_wf(s0, self.statuses@, meta, start_page as int, n);
                        lemma_sorted_first_fit(s0, meta, n);
                        lemma_first_empty_from(s0, meta);
                        let b = start_page as int;
                        assert forall|j: int| meta <= j < b + n implies !page_empty(
                            self.statuses@,
                            j,
                        ) by {
                            if j < b {
                                assert(self.statuses@[j] == s0[j]);
                                assert(!page_empty(s0, j));
                            }
                        }
                        if b + n < s0.len() {
                            assert(page_empty(s0, b));
                            assert(page_empty(s0, b + n));
                            assert(page_empty(self.statuses@, b + n));
                        }
                        lemma_first_empty_pinned(self.statuses@, meta, b + n);
                    }
                    return Ok(self.get_page_addr(start_page));
                }
                Some(next_free_page) => {
                    proof {
                        assert forall|c: int| start_page <= c < next_free_page implies !(c + n
                            <= s0.len() && range_free(s0, c, n)) by {
                            assert(!range_free(self.statuses@, c, end_page - start_page));
                            assert(!range_free(s0, c, n));
                        }
                        lemma_first_fit_skip(s0, start_page as int, next_free_page as int, n);
                    }
                    start_page = next_free_page;
                }
            }
        }
        proof {
            lemma_first_fit_sound(s0, start_page as int, n);
            if let Some(b) = first_fit_from(s0, start_page as int, n) {
                assert(false);
            }
            lemma_sorted_first_fit(s0, meta, n);
            lemma_first_empty_from(s0, meta);
        }
        Err(AllocErr::NoBigEnoughBlocks)
    }
}

/// Marking a free run `[b, b + n)` as taken, with `is_start` on its
/// first page and `is_last` on its last, preserves the run shape of the
/// status array; when `b` is the lowest fit, it also keeps the free
/// pages a suffix.
proof fn lemma_mark_run_keeps_wf(s0: Seq<PageStatus>, s1: Seq<PageStatus>, meta: int, b: int, n: int)
    requires
        wf_statuses(s0, meta),
        statuses_sorted(s0, meta),
        forall|d: int| meta <= d < b ==> !range_free(s0, d, n),
        0 <= meta <= b,
        n >= 1,
        b + n <= s0.len(),
        s1.len() == s0.len(),
        range_free(s0, b, n),
        forall|i: int|
            b <= i < b + n ==> s1[i] == (PageStatus::Taken(
                TakenPage { is_start: i == b, is_last: i == b + n - 1 },
            )),
        forall|i: int| 0 <= i < s0.len() && !(b <= i < b + n) ==> s1[i] == s0[i],
    ensures
        wf_statuses(s1, meta),
        statuses_sorted(s1, meta),
{
    assert forall|i: int, j: int|
        meta <= i <= j < s1.len() && #[trigger] page_empty(s1, i) implies #[trigger] page_empty(
        s1,
        j,
    ) by {
        assert(!(b <= i < b + n));
        assert(page_empty(s0, i));
        if i < b {
            assert forall|k: int| i <= k < i + n implies page_empty(s0, k) by {}
            assert(range_free(s0, i, n));
            assert(false);
        }
        assert(i >= b + n);
        assert(page_empty(s0, j));
        assert(s1[j] == s0[j]);
    }
    assert forall|i: int| 0 <= i < s1.len() implies ((s1[i] is MetaData) <==> i < meta) by {
        if b <= i < b + n {
            assert(page_empty(s0, i));
        }
    }
    assert forall|i: int| 0 <= i < s1.len() && taken_non_start(s1, i) implies 1 <= i
        && taken_non_last(s1, i - 1) by {
        if b <= i < b + n {
            assert(s1[i] == (PageStatus::Taken(
                TakenPage { is_start: i == b, is_last: i == b + n - 1 },
            )));
            assert(b < i);
            assert(s1[i - 1] == (PageStatus::Taken(
                TakenPage { is_start: i - 1 == b, is_last: i - 1 == b + n - 1 },
            )));
        } else {
            assert(taken_non_start(s0, i));
            assert(taken_non_last(s0, i - 1));
            if b <= i - 1 < b + n {
                assert(page_empty(s0, i - 1));
                assert(false);
            }
            assert(s1[i - 1] == s0[i - 1]);
        }
    }
    assert forall|i: int| 0 <= i < s1.len() && taken_non_last(s1, i) implies i + 1 < s1.len()
        && taken_non_start(s1, i + 1) by {
        if b <= i < b + n {
            assert(s1[i] == (PageStatus::Taken(
                TakenPage { is_start: i == b, is_last: i == b + n - 1 },
            )));
            assert(i < b + n - 1);
            assert(s1[i + 1] == (PageStatus::Taken(
                TakenPage { is_start: i + 1 == b, is_last: i + 1 == b + n - 1 },
            )));
        } else {
            assert(taken_non_last(s0, i));
            assert(taken_non_start(s0, i + 1));
            if b <= i + 1 < b + n {
                assert(page_empty(s0, i + 1));
                assert(false);
            }
            assert(s1[i + 1] == s0[i + 1]);
        }
    }
}

} // verus!
