//! Physical page allocator: hands out fixed-size physical memory frames.
//!
//! Free pages are kept on a LIFO chain (most-recently-freed reused first);
//! when the chain is empty a fresh page is carved from the unused region by
//! advancing a bump frontier until it reaches the ceiling.  In the running
//! kernel each free page stores the address of the next free page in its own
//! first bytes; here that intrusive chain is kept as an explicit table of
//! nullable `next` fields, one per managed page, which documents the aliasing
//! contract instead of relying on the page contents.

use vstd::prelude::*;

verus! {

/// Size in bytes of one physical page.
pub const PAGE_SIZE: usize = 4096;

/// Handle to a physical page, identified solely by its base address.
/// Holding a handle means owning the page until it is freed again.
#[derive(Clone, Copy, PartialEq, Eq, Structural)]
pub struct Page {
    address: usize,
}

impl Page {
    /// The base address of the page.
    pub closed spec fn addr(self) -> usize {
        self.address
    }

    pub fn address(&self) -> (r: usize)
        ensures
            r == self.addr(),
    {
        self.address
    }

    /// Rebuild the handle of a page whose address the caller recorded; the
    /// page is identified solely by its base address.
    pub(crate) fn at_address(address: usize) -> (r: Page)
        ensures
            r.addr() == address,
    {
        Page { address }
    }
}

/// Allocator state: the fixed managed range, the head of the free-list
/// chain, the bump frontier, and the per-page `next` fields of the chain.
pub struct PageAllocator {
    base_address: usize,
    max_page_address: usize,
    first_free_page: Option<usize>,
    first_unused_page: Option<usize>,
    next_links: Vec<Option<usize>>,
    free_count: usize,
    free_pages: Ghost<Seq<usize>>,
}

impl PageAllocator {
    /// Start of the managed range.
    pub closed spec fn base(self) -> usize {
        self.base_address
    }

    /// Exclusive ceiling of the managed range.
    pub closed spec fn ceiling(self) -> usize {
        self.max_page_address
    }

    /// Addresses on the free list, most recently freed first.
    pub closed spec fn free_list(self) -> Seq<usize> {
        self.free_pages@
    }

    /// First address of the unused region; the ceiling once it is exhausted.
    pub closed spec fn frontier(self) -> int {
        match self.first_unused_page {
            Some(f) => f as int,
            None => self.max_page_address as int,
        }
    }

    /// Index of a page address within the managed range.
    pub closed spec fn index_of(self, address: int) -> int {
        (address - self.base_address) / (PAGE_SIZE as int)
    }

    /// Number of pages in the managed range.
    pub open spec fn total_page_count(self) -> int {
        (self.ceiling() - self.base()) / (PAGE_SIZE as int)
    }

    /// Number of pages on the free list.
    pub open spec fn free_page_count(self) -> int {
        self.free_list().len() as int
    }

    /// Number of pages in the unused region.
    pub open spec fn unused_page_count(self) -> int {
        (self.ceiling() - self.frontier()) / (PAGE_SIZE as int)
    }

    /// The allocated pages: carved out of the range at some point (below the
    /// frontier) and not currently on the free list.
    pub closed spec fn allocated_set(self) -> Set<int> {
        Set::new(
            |i: int|
                0 <= i < self.index_of(self.frontier()) && !self.free_list().map_values(
                    |a: usize| self.index_of(a as int),
                ).contains(i),
        )
    }

    /// Whether a further allocation will succeed: the free list is
    /// non-empty or the unused region still holds a page.
    pub open spec fn can_allocate(self) -> bool {
        self.free_list().len() > 0 || self.frontier() < self.ceiling()
    }

    /// Number of currently allocated pages.
    pub open spec fn allocated_page_count(self) -> int {
        self.allocated_set().len() as int
    }

    /// Whether an address is currently allocated: handed out by `alloc_page`
    /// and not freed since.
    pub open spec fn is_allocated(self, address: usize) -> bool {
        &&& address % PAGE_SIZE == 0
        &&& self.base() <= address < self.frontier()
        &&& !self.free_list().contains(address)
    }

    /// Well-formedness: the range is page-aligned; the frontier lies in it;
    /// the free list holds distinct aligned addresses below the frontier and
    /// the `next` table chains them in order.
    pub closed spec fn wf(self) -> bool {
        let fl = self.free_pages@;
        &&& self.base_address % PAGE_SIZE == 0
        &&& self.max_page_address % PAGE_SIZE == 0
        &&& self.base_address <= self.max_page_address
        &&& match self.first_unused_page {
            Some(f) => self.base_address <= f < self.max_page_address && f % PAGE_SIZE == 0,
            None => true,
        }
        &&& self.next_links@.len() == self.total_page_count()
        &&& self.free_count == fl.len()
        &&& forall|i: int|
            0 <= i < fl.len() ==> (#[trigger] fl[i]) % PAGE_SIZE == 0 && self.base_address <= fl[i]
                && (fl[i] as int) < self.frontier()
        &&& fl.no_duplicates()
        &&& self.first_free_page == (if fl.len() == 0 {
            Option::<usize>::None
        } else {
            Option::<usize>::Some(fl[0])
        })
        &&& forall|i: int|
            #![trigger fl[i]]
            0 <= i < fl.len() ==> self.next_links@[self.index_of(fl[i] as int)] == (if i + 1
                < fl.len() {
                Option::<usize>::Some(fl[i + 1])
            } else {
                Option::<usize>::None
            })
    }

    /// Number of pages currently on the free list.
    pub fn free_list_len(&self) -> (r: usize)
        requires
            self.wf(),
        ensures
            r == self.free_page_count(),
    {
        self.free_count
    }

    /// Number of pages still in the unused region.
    pub fn unused_count(&self) -> (r: usize)
        requires
            self.wf(),
        ensures
            r == self.unused_page_count(),
    {
        match self.first_unused_page {
            Some(front) => (self.max_page_address - front) / PAGE_SIZE,
            None => 0,
        }
    }

    /// A fresh allocator over the page-aligned range
    /// `[base_address, max_page_address)`: empty free list, frontier at the
    /// start of the range.
    pub fn new(base_address: usize, max_page_address: usize) -> (r: PageAllocator)
        requires
            base_address % PAGE_SIZE == 0,
            max_page_address % PAGE_SIZE == 0,
            base_address <= max_page_address,
        ensures
            r.wf(),
            r.base() == base_address,
            r.ceiling() == max_page_address,
            r.free_list() == Seq::<usize>::empty(),
            r.frontier() == base_address,
    {
        let count: usize = (max_page_address - base_address) / PAGE_SIZE;
        let mut next_links: Vec<Option<usize>> = Vec::new();
        for k in 0..count
            invariant
                next_links@.len() == k,
        {
            next_links.push(None);
        }
        let first_unused_page: Option<usize> = if base_address < max_page_address {
            Some(base_address)
        } else {
            None
        };
        PageAllocator {
            base_address,
            max_page_address,
            first_free_page: None,
            first_unused_page,
            next_links,
            free_count: 0,
            free_pages: Ghost(Seq::empty()),
        }
    }

    /// Hand out one page: pop the most recently freed page if the free list
    /// is non-empty, otherwise carve the next unused page, otherwise report
    /// exhaustion with `None`.
    pub fn alloc_page(&mut self) -> (r: Option<Page>)
        requires
            old(self).wf(),
        ensures
            final(self).wf(),
            final(self).base() == old(self).base(),
            final(self).ceiling() == old(self).ceiling(),
            old(self).free_list().len() > 0 ==> {
                &&& r is Some && r->Some_0.addr() == old(self).free_list()[0]
                &&& final(self).free_list() == old(self).free_list().drop_first()
                &&& final(self).frontier() == old(self).frontier()
            },
            old(self).free_list().len() == 0 && old(self).frontier() < old(self).ceiling() ==> {
                &&& r is Some && r->Some_0.addr() == old(self).frontier()
                &&& final(self).free_list() == old(self).free_list()
                &&& final(self).frontier() == old(self).frontier() + PAGE_SIZE
            },
            old(self).free_list().len() == 0 && old(self).frontier() == old(self).ceiling() ==> {
                &&& r is None
                &&& final(self).free_list() == old(self).free_list()
                &&& final(self).frontier() == old(self).frontier()
            },
            r is None ==> old(self).free_list().len() == 0 && old(self).frontier() == old(self).ceiling() && final(self).free_list() == old(self).free_list() && final(self).frontier() == old(self).frontier(),
            r is Some ==> final(self).is_allocated(r->Some_0.addr()),
            forall|a: usize| old(self).is_allocated(a) ==> final(self).is_allocated(a),
            r is Some && old(self).free_list().len() == 0 ==> forall|a: usize|
                old(self).is_allocated(a) ==> a != r->Some_0.addr(),
    {
        if let Some(head) = self.first_free_page {
            let ghost fl = self.free_pages@;
            assert(fl.len() > 0 && fl[0] == head);
            let idx: usize = (head - self.base_address) / PAGE_SIZE;
            assert(self.index_of(head as int) == idx);
            assert(idx < self.next_links@.len()) by {
                lemma_page_index_bounds(
                    self.base_address as int,
                    self.max_page_address as int,
                    self.frontier(),
                    head as int,
                );
            }
            let next = self.next_links[idx];
            self.first_free_page = next;
            self.free_count = self.free_count - 1;
            proof {
                self.free_pages@ = fl.drop_first();
            }
            assert(self.wf()) by {
                let nfl = self.free_pages@;
                assert forall|i: int| 0 <= i < nfl.len() implies self.next_links@[self.index_of(
                    nfl[i] as int,
                )] == (if i + 1 < nfl.len() {
                    Option::<usize>::Some(nfl[i + 1])
                } else {
                    Option::<usize>::None
                }) by {
                    assert(nfl[i] == fl[i + 1]);
                }
            }
            assert(!self.free_pages@.contains(head)) by {
                if self.free_pages@.contains(head) {
                    let j = choose|j: int|
                        0 <= j < self.free_pages@.len() && self.free_pages@[j] == head;
                    assert(fl[j + 1] == fl[0]);
                }
            }
            Some(Page { address: head })
        } else if let Some(front) = self.first_unused_page {
            self.first_unused_page = if front + PAGE_SIZE < self.max_page_address {
                Some(front + PAGE_SIZE)
            } else {
                None
            };
            assert(self.frontier() == front + PAGE_SIZE) by {
                lemma_next_page_in_range(
                    self.base_address as int,
                    self.max_page_address as int,
                    front as int,
                );
            }
            Some(Page { address: front })
        } else {
            None
        }
    }

    /// Return a page to the allocator: push it onto the free-list head.
    /// The caller guarantees that the page was previously returned by
    /// `alloc_page` and has not been freed since.
    pub fn free_page(&mut self, page: Page)
        requires
            old(self).wf(),
            old(self).is_allocated(page.addr()),
        ensures
            final(self).wf(),
            final(self).base() == old(self).base(),
            final(self).ceiling() == old(self).ceiling(),
            final(self).frontier() == old(self).frontier(),
            final(self).free_list() == seq![page.addr()] + old(self).free_list(),
    {
        let ghost fl = self.free_pages@;
        let idx: usize = (page.address - self.base_address) / PAGE_SIZE;
        assert(self.index_of(page.address as int) == idx);
        assert(idx < self.next_links@.len()) by {
            lemma_page_index_bounds(
                self.base_address as int,
                self.max_page_address as int,
                self.frontier(),
                page.address as int,
            );
        }
        proof {
            lemma_free_list_len_bound(*self);
        }
        let ghost old_links = self.next_links@;
        self.next_links[idx] = self.first_free_page;
        self.first_free_page = Some(page.address);
        self.free_count = self.free_count + 1;
        proof {
            self.free_pages@ = seq![page.address] + fl;
        }
        assert(self.wf()) by {
            let nfl = self.free_pages@;
            assert(forall|i: int| 0 <= i < fl.len() ==> #[trigger] fl[i] != page.address);
            assert(nfl[0] == page.address);
            assert(forall|i: int| 1 <= i < nfl.len() ==> #[trigger] nfl[i] == fl[i - 1]);
            assert(nfl.no_duplicates()) by {
                assert forall|i: int, j: int| 0 <= i < j < nfl.len() implies nfl[i] != nfl[j] by {
                    if i > 0 {
                        assert(nfl[i] == fl[i - 1] && nfl[j] == fl[j - 1]);
                    }
                }
            }
            assert forall|i: int| 0 <= i < nfl.len() implies self.next_links@[self.index_of(
                nfl[i] as int,
            )] == (if i + 1 < nfl.len() {
                Option::<usize>::Some(nfl[i + 1])
            } else {
                Option::<usize>::None
            }) by {
                if i == 0 {
                    assert(self.next_links@[idx as int] == (if fl.len() > 0 {
                        Option::<usize>::Some(fl[0])
                    } else {
                        Option::<usize>::None
                    }));
                } else {
                    assert(nfl[i] == fl[i - 1]);
                    assert(self.index_of(nfl[i] as int) != idx) by {
                        lemma_page_index_injective(
                            self.base_address as int,
                            fl[i - 1] as int,
                            page.address as int,
                        );
                    }
                    assert(0 <= self.index_of(nfl[i] as int) < old_links.len()) by {
                        lemma_page_index_bounds(
                            self.base_address as int,
                            self.max_page_address as int,
                            self.frontier(),
                            fl[i - 1] as int,
                        );
                    }
                    assert(self.next_links@[self.index_of(nfl[i] as int)] == old_links[
                        self.index_of(nfl[i] as int)]);
                }
            }
        }
    }
}

impl PageAllocator {
    /// The frontier never leaves the managed range.
    pub proof fn lemma_frontier_in_range(self)
        requires
            self.wf(),
        ensures
            self.base() <= self.frontier() <= self.ceiling(),
    {
    }
}

/// The free list never holds more pages than the managed range.
proof fn lemma_free_list_len_bound(pa: PageAllocator)
    requires
        pa.wf(),
    ensures
        pa.free_list().len() <= pa.total_page_count(),
        pa.total_page_count() < usize::MAX,
{
    let p = PAGE_SIZE as int;
    let b = pa.base() as int;
    let c = pa.ceiling() as int;
    let f = pa.frontier();
    let fl = pa.free_list();
    let front_idx = (f - b) / p;
    assert((f - b) % p == 0) by {
        vstd::arithmetic::div_mod::lemma_sub_mod_noop(f, b, p);
    }
    let to_idx = |a: usize| pa.index_of(a as int);
    let fidx_seq = fl.map_values(to_idx);
    assert(fidx_seq.no_duplicates()) by {
        assert forall|i: int, j: int|
            0 <= i < fidx_seq.len() && 0 <= j < fidx_seq.len() && i != j implies fidx_seq[i]
            != fidx_seq[j] by {
            lemma_page_index_injective(b, fl[i] as int, fl[j] as int);
        }
    }
    let fidx = fidx_seq.to_set();
    fidx_seq.unique_seq_to_set();
    let below = vstd::set_lib::set_int_range(0, front_idx);
    vstd::set_lib::lemma_int_range(0, front_idx);
    assert(fidx.subset_of(below)) by {
        assert forall|x: int| fidx.contains(x) implies below.contains(x) by {
            let k = choose|k: int| 0 <= k < fidx_seq.len() && fidx_seq[k] == x;
            lemma_page_index_bounds(b, f, f, fl[k] as int);
        }
    }
    vstd::set_lib::lemma_len_subset(fidx, below);
    vstd::arithmetic::div_mod::lemma_div_is_ordered(f - b, c - b, p);
    assert(pa.total_page_count() <= c / p) by {
        vstd::arithmetic::div_mod::lemma_div_is_ordered(c - b, c, p);
    }
    assert(c / p < usize::MAX) by {
        vstd::arithmetic::div_mod::lemma_div_is_ordered(c, usize::MAX as int, p);
        vstd::arithmetic::div_mod::lemma_div_is_strictly_smaller(usize::MAX as int, p);
    }
}

/// Conservation: the pages on the free list, the pages of the unused region
/// and the allocated pages together account for every page of the managed
/// range, each exactly once.
pub proof fn lemma_conservation(pa: PageAllocator)
    requires
        pa.wf(),
    ensures
        pa.free_page_count() + pa.unused_page_count() + pa.allocated_page_count()
            == pa.total_page_count(),
{
    let p = PAGE_SIZE as int;
    let b = pa.base() as int;
    let c = pa.ceiling() as int;
    let f = pa.frontier();
    let fl = pa.free_list();
    let front_idx = (f - b) / p;
    // The range splits at the frontier: pages below it plus pages above it.
    assert((f - b) % p == 0 && (c - f) % p == 0 && (c - b) % p == 0) by {
        vstd::arithmetic::div_mod::lemma_sub_mod_noop(f, b, p);
        vstd::arithmetic::div_mod::lemma_sub_mod_noop(c, f, p);
        vstd::arithmetic::div_mod::lemma_sub_mod_noop(c, b, p);
    }
    assert(front_idx + pa.unused_page_count() == pa.total_page_count()) by {
        vstd::arithmetic::div_mod::lemma_fundamental_div_mod(f - b, p);
        vstd::arithmetic::div_mod::lemma_fundamental_div_mod(c - f, p);
        assert(c - b == p * (front_idx + (c - f) / p));
        vstd::arithmetic::div_mod::lemma_div_multiples_vanish(front_idx + (c - f) / p, p);
    }
    // The free-list indices are distinct, so they count one page each.
    let to_idx = |a: usize| pa.index_of(a as int);
    let fidx_seq = fl.map_values(to_idx);
    assert(fidx_seq.no_duplicates()) by {
        assert forall|i: int, j: int|
            0 <= i < fidx_seq.len() && 0 <= j < fidx_seq.len() && i != j implies fidx_seq[i]
            != fidx_seq[j] by {
            lemma_page_index_injective(b, fl[i] as int, fl[j] as int);
        }
    }
    let fidx = fidx_seq.to_set();
    fidx_seq.unique_seq_to_set();
    assert(fidx.len() == fl.len());
    // Free pages all lie below the frontier.
    let below = vstd::set_lib::set_int_range(0, front_idx);
    vstd::set_lib::lemma_int_range(0, front_idx);
    assert(fidx.subset_of(below)) by {
        assert forall|x: int| fidx.contains(x) implies below.contains(x) by {
            let k = choose|k: int| 0 <= k < fidx_seq.len() && fidx_seq[k] == x;
            lemma_page_index_bounds(b, f, f, fl[k] as int);
        }
    }
    // Below the frontier, every page is either free or allocated.
    assert(pa.allocated_set() =~= below.difference(fidx));
    assert(below =~= pa.allocated_set() + fidx);
    assert(pa.allocated_set().disjoint(fidx));
    assert(pa.allocated_set().finite()) by {
        vstd::set_lib::lemma_len_subset(pa.allocated_set(), below);
    }
    vstd::set_lib::lemma_set_disjoint_lens(pa.allocated_set(), fidx);
    assert(pa.allocated_set().len() + fidx.len() == front_idx);
}

/// An aligned address strictly below an aligned ceiling leaves room for a
/// whole page before the ceiling.
proof fn lemma_next_page_in_range(base: int, ceiling: int, address: int)
    requires
        ceiling % (PAGE_SIZE as int) == 0,
        address % (PAGE_SIZE as int) == 0,
        address < ceiling,
    ensures
        address + PAGE_SIZE <= ceiling,
{
    let p = PAGE_SIZE as int;
    assert((ceiling - address) % p == 0) by {
        vstd::arithmetic::div_mod::lemma_sub_mod_noop(ceiling, address, p);
    }
    if ceiling - address < p {
        vstd::arithmetic::div_mod::lemma_small_mod((ceiling - address) as nat, p as nat);
    }
}

/// A page address below the frontier has its index inside the managed range.
proof fn lemma_page_index_bounds(base: int, ceiling: int, frontier: int, address: int)
    requires
        base % (PAGE_SIZE as int) == 0,
        ceiling % (PAGE_SIZE as int) == 0,
        address % (PAGE_SIZE as int) == 0,
        base <= address < frontier <= ceiling,
    ensures
        0 <= (address - base) / (PAGE_SIZE as int) < (ceiling - base) / (PAGE_SIZE as int),
{
    let p = PAGE_SIZE as int;
    assert((address - base) % p == 0) by {
        vstd::arithmetic::div_mod::lemma_sub_mod_noop(address, base, p);
    }
    vstd::arithmetic::div_mod::lemma_div_is_ordered(0, address - base, p);
    lemma_next_page_in_range(base, ceiling, address);
    vstd::arithmetic::div_mod::lemma_div_is_ordered(address - base + p, ceiling - base, p);
    assert((address - base + p) / p == (address - base) / p + 1) by {
        vstd::arithmetic::div_mod::lemma_div_plus_one(address - base, p);
    }
}

/// Two distinct aligned addresses have distinct page indices.
proof fn lemma_page_index_injective(base: int, a: int, b: int)
    requires
        a % (PAGE_SIZE as int) == 0,
        b % (PAGE_SIZE as int) == 0,
        a != b,
    ensures
        (a - base) / (PAGE_SIZE as int) != (b - base) / (PAGE_SIZE as int),
{
    let p = PAGE_SIZE as int;
    if (a - base) / p == (b - base) / p {
        vstd::arithmetic::div_mod::lemma_fundamental_div_mod(a - base, p);
        vstd::arithmetic::div_mod::lemma_fundamental_div_mod(b - base, p);
        assert((a - base) % p == (b - base) % p) by {
            vstd::arithmetic::div_mod::lemma_sub_mod_noop(a, base, p);
            vstd::arithmetic::div_mod::lemma_sub_mod_noop(b, base, p);
        }
    }
}

} // verus!
