//! Tracker for free virtual address space, one instance per address space.
//!
//! The structure is a two-level exponent-tagged binary tree.  A single
//! top-level node array covers 1024 slots (virtual-address bits 26..36),
//! arranged as an implicit binary tree of depth 10 for searching.  Each slot
//! may own one lazily-allocated bottom-level tree, stored in one physical
//! page, which covers 16384 pages (virtual-address bits 12..26).
//!
//! Every tree node carries a 4-bit availability code for the address range
//! it covers: code `0` means no page of the range is free, and code `c` with
//! `c >= 1` means the largest free block that is aligned to its own size has
//! `2^(c - 1)` pages.  The exponents run from 0 (one page) to 14 (a whole
//! bottom-level tree), so the codes fit a nibble exactly.

use vstd::prelude::*;

use vstd::arithmetic::power2::pow2;
use crate::pageallocator::PAGE_SIZE;
use crate::pageallocator::Page;
use crate::pageallocator::PageAllocator;

verus! {

/// Depth of the conceptual bottom-level tree; one leaf is one page.
pub const BOTTOM_LEVEL_DEPTH: u32 = 14;

/// Deepest level whose availability codes are stored as nibbles; codes of
/// deeper nodes are derived from the leaf-availability bitmap.
pub const NIBBLE_TREE_DEPTH: u32 = 11;

/// Pages covered by one bottom-level tree.
pub const BOTTOM_PAGE_COUNT: usize = 16384;

/// Bytes of the packed nibble tree and of the leaf bitmap.
pub const TREE_BYTES: usize = 2048;

/// The availability code of a node whose whole range is free: its size
/// exponent is `14 - depth`, encoded as exponent plus one.
pub open spec fn full_code(depth: int) -> u8 {
    (15 - depth) as u8
}

/// Code of a parent from the codes of its two children.  Two completely free
/// children coalesce into a completely free parent; otherwise the parent
/// reports the larger child code, since an aligned block no bigger than a
/// child lies wholly inside one child.
pub open spec fn combine_codes(depth: int, left: u8, right: u8) -> u8 {
    if left == full_code(depth + 1) && right == full_code(depth + 1) {
        full_code(depth)
    } else if left >= right {
        left
    } else {
        right
    }
}

/// Number of pages covered by one node at the given depth.
pub open spec fn node_span(depth: int) -> int {
    pow2((14 - depth) as nat) as int
}

/// The availability code of the node `(depth, index)` determined by the
/// page-availability sequence (`true` = free).
pub open spec fn tree_code(pages: Seq<bool>, depth: int, index: int) -> u8
    decreases 14 - depth,
{
    if depth >= 14 {
        if pages[index] {
            1
        } else {
            0
        }
    } else {
        combine_codes(
            depth,
            tree_code(pages, depth + 1, 2 * index),
            tree_code(pages, depth + 1, 2 * index + 1),
        )
    }
}

/// One bottom-level tree: the packed nibble tree for depths 0 to 11 and the
/// per-page availability bitmap that stands for depths 12 to 14.  In the
/// running kernel both arrays live in the single physical page that backs
/// the tree.
pub struct AvailableBottomLevelVirtualMemory {
    bottom_tree: Vec<u8>,
    available_pages: Vec<u8>,
}

impl AvailableBottomLevelVirtualMemory {
    /// Availability of each of the 16384 pages (`true` = free), read from
    /// the bitmap: bit `p % 8` of byte `p / 8`.
    pub closed spec fn pages(self) -> Seq<bool> {
        Seq::new(BOTTOM_PAGE_COUNT as nat, |p: int| bitmap_bit(self.available_pages@, p))
    }

    /// The stored nibble of node `(depth, index)`: node `(1 << depth) | index`
    /// of the implicit tree, low nibble for even indices, high for odd.
    pub closed spec fn nib(self, depth: int, index: int) -> u8 {
        let physical_index = pow2(depth as nat) + index;
        let byte = self.bottom_tree@[physical_index as int / 2];
        if index % 2 == 0 {
            byte & 0x0f
        } else {
            byte >> 4
        }
    }

    /// Both arrays have their fixed size.
    pub closed spec fn storage_wf(self) -> bool {
        self.bottom_tree@.len() == TREE_BYTES && self.available_pages@.len() == TREE_BYTES
    }

    /// Every stored nibble equals the availability code determined by the
    /// bitmap.
    pub closed spec fn wf(self) -> bool {
        &&& self.storage_wf()
        &&& forall|d: int, i: int|
            0 <= d <= NIBBLE_TREE_DEPTH && 0 <= i < pow2(d as nat) ==> #[trigger] self.nib(d, i)
                == tree_code(self.pages(), d, i)
    }

    /// The root code: the largest free aligned block of the whole tree,
    /// encoded as exponent plus one, or 0 if nothing is free.
    pub open spec fn root_code(self) -> u8 {
        tree_code(self.pages(), 0, 0)
    }

    /// Read the availability code cached for node `(depth, index)` of the
    /// nibble tree.
    pub fn get_at_coords(&self, depth: u32, index: usize) -> (r: u8)
        requires
            self.storage_wf(),
            depth <= NIBBLE_TREE_DEPTH,
            index < pow2(depth as nat),
        ensures
            r == self.nib(depth as int, index as int),
    {
        proof {
            lemma_physical_index(depth, index as int);
        }
        let physical_index: usize = (1usize << depth) | index;
        let val = self.bottom_tree[physical_index / 2];
        if index % 2 == 0 {
            val & 0x0f
        } else {
            val >> 4
        }
    }

    /// Store an availability code for node `(depth, index)` of the nibble
    /// tree, leaving every other nibble and the bitmap unchanged.
    pub fn _set_at_coords(&mut self, depth: u32, index: usize, value: u8)
        requires
            old(self).storage_wf(),
            depth <= NIBBLE_TREE_DEPTH,
            index < pow2(depth as nat),
            value < 16,
        ensures
            final(self).storage_wf(),
            final(self).nib(depth as int, index as int) == value,
            forall|d: int, i: int|
                0 <= d <= NIBBLE_TREE_DEPTH && 0 <= i < pow2(d as nat) && !(d == depth && i
                    == index) ==> #[trigger] final(self).nib(d, i) == old(self).nib(d, i),
            final(self).pages() == old(self).pages(),
    {
        proof {
            lemma_physical_index(depth, index as int);
        }
        let physical_index: usize = (1usize << depth) | index;
        let byte_index: usize = physical_index / 2;
        let val = self.bottom_tree[byte_index];
        let new_val: u8 = if index % 2 == 0 {
            (val & 0xf0) | value
        } else {
            (val & 0x0f) | (value << 4)
        };
        self.bottom_tree[byte_index] = new_val;
        proof {
            lemma_nibble_pack(val, value);
            assert forall|d: int, i: int|
                0 <= d <= NIBBLE_TREE_DEPTH && 0 <= i < pow2(d as nat) && !(d == depth && i
                    == index) implies #[trigger] self.nib(d, i) == old(self).nib(d, i) by {
                lemma_node_bound(d, i);
                lemma_nibble_coords_distinct(d, i, depth as int, index as int);
            }
            assert(self.pages() =~= old(self).pages());
        }
    }

    /// Test one page's availability bit: `true` means free.
    pub fn page_is_available(&self, page: usize) -> (r: bool)
        requires
            self.storage_wf(),
            page < BOTTOM_PAGE_COUNT,
        ensures
            r == self.pages()[page as int],
    {
        (self.available_pages[page / 8] >> ((page % 8) as u8)) & 1 == 1
    }

    /// Set or clear one page's availability bit, leaving the nibble tree and
    /// every other bit unchanged.
    fn set_page_bit(&mut self, page: usize, free: bool)
        requires
            old(self).storage_wf(),
            page < BOTTOM_PAGE_COUNT,
        ensures
            final(self).storage_wf(),
            final(self).pages() == old(self).pages().update(page as int, free),
            forall|d: int, i: int|
                0 <= d <= NIBBLE_TREE_DEPTH && 0 <= i < pow2(d as nat) ==> #[trigger] final(self).nib(
                    d,
                    i,
                ) == old(self).nib(d, i),
    {
        let byte_index: usize = page / 8;
        let bit: u8 = (page % 8) as u8;
        let val = self.available_pages[byte_index];
        let new_val: u8 = if free {
            val | (1u8 << bit)
        } else {
            val & !(1u8 << bit)
        };
        self.available_pages[byte_index] = new_val;
        proof {
            assert forall|p: int| 0 <= p < BOTTOM_PAGE_COUNT && p != page implies bitmap_bit(
                self.available_pages@,
                p,
            ) == bitmap_bit(old(self).available_pages@, p) by {
                if p / 8 == page as int / 8 {
                    assert(p % 8 != page as int % 8) by {
                        vstd::arithmetic::div_mod::lemma_fundamental_div_mod(p, 8);
                        vstd::arithmetic::div_mod::lemma_fundamental_div_mod(page as int, 8);
                    }
                    lemma_byte_bit_update(val, bit, (p % 8) as u8);
                }
            }
            assert(bitmap_bit(self.available_pages@, page as int) == free) by {
                lemma_byte_bit_update(val, bit, bit);
            }
            assert(self.pages() =~= old(self).pages().update(page as int, free));
        }
    }

    /// A fully free tree: every availability bit set and every nibble
    /// caching the fully-free code of its depth.
    pub fn new() -> (r: Self)
        ensures
            r.wf(),
            forall|p: int| 0 <= p < BOTTOM_PAGE_COUNT ==> r.pages()[p],
            r.root_code() == full_code(0),
    {
        let mut available_pages: Vec<u8> = Vec::new();
        let mut k: usize = 0;
        while k < TREE_BYTES
            invariant
                available_pages@.len() == k,
                k <= TREE_BYTES,
                forall|j: int| 0 <= j < k ==> available_pages@[j] == 0xffu8,
            decreases TREE_BYTES - k,
        {
            available_pages.push(0xff);
            k += 1;
        }
        let mut bottom_tree: Vec<u8> = Vec::new();
        let mut k2: usize = 0;
        while k2 < TREE_BYTES
            invariant
                bottom_tree@.len() == k2,
                k2 <= TREE_BYTES,
            decreases TREE_BYTES - k2,
        {
            bottom_tree.push(0);
            k2 += 1;
        }
        let mut tree = AvailableBottomLevelVirtualMemory { bottom_tree, available_pages };
        assert(forall|p: int| 0 <= p < BOTTOM_PAGE_COUNT ==> tree.pages()[p]) by {
            assert forall|p: int| 0 <= p < BOTTOM_PAGE_COUNT implies tree.pages()[p] by {
                let sh = (p % 8) as u8;
                assert((0xffu8 >> sh) & 1 == 1) by (bit_vector)
                    requires
                        sh < 8,
                ;
            }
        }
        let mut depth: u32 = 0;
        while depth <= NIBBLE_TREE_DEPTH
            invariant
                tree.storage_wf(),
                depth <= NIBBLE_TREE_DEPTH + 1,
                forall|p: int| 0 <= p < BOTTOM_PAGE_COUNT ==> tree.pages()[p],
                forall|dd: int, j: int|
                    0 <= dd < depth && 0 <= j < pow2(dd as nat) ==> #[trigger] tree.nib(dd, j)
                        == full_code(dd),
            decreases NIBBLE_TREE_DEPTH + 1 - depth,
        {
            let count: usize = 1usize << depth;
            proof {
                vstd::arithmetic::power2::lemma2_to64();
                vstd::bits::lemma_usize_shl_is_mul(1usize, depth as usize);
                if depth < 11 {
                    vstd::arithmetic::power2::lemma_pow2_strictly_increases(depth as nat, 11);
                }
            }
            let mut i: usize = 0;
            while i < count
                invariant
                    tree.storage_wf(),
                    depth <= NIBBLE_TREE_DEPTH,
                    i <= count,
                    count == pow2(depth as nat),
                    forall|p: int| 0 <= p < BOTTOM_PAGE_COUNT ==> tree.pages()[p],
                    forall|dd: int, j: int|
                        0 <= dd < depth && 0 <= j < pow2(dd as nat) ==> #[trigger] tree.nib(dd, j)
                            == full_code(dd),
                    forall|j: int|
                        0 <= j < i ==> #[trigger] tree.nib(depth as int, j) == full_code(
                            depth as int,
                        ),
                decreases count - i,
            {
                tree._set_at_coords(depth, i, (15 - depth) as u8);
                i += 1;
            }
            depth += 1;
        }
        proof {
            assert forall|d: int, i: int|
                0 <= d <= NIBBLE_TREE_DEPTH && 0 <= i < pow2(d as nat) implies #[trigger] tree.nib(
                d,
                i,
            ) == tree_code(tree.pages(), d, i) by {
                lemma_node_range_bound(d, i);
                lemma_tree_code_full(tree.pages(), d, i);
            }
            assert(tree.root_code() == full_code(0)) by {
                vstd::arithmetic::power2::lemma2_to64();
                assert(tree.nib(0, 0) == tree_code(tree.pages(), 0, 0));
            }
        }
        tree
    }

    /// Compute the availability code of a node below the nibble tree
    /// directly from the bitmap.
    fn compute_code(&self, depth: u32, index: usize) -> (r: u8)
        requires
            self.storage_wf(),
            NIBBLE_TREE_DEPTH < depth <= BOTTOM_LEVEL_DEPTH,
            index < pow2(depth as nat),
        ensures
            r == tree_code(self.pages(), depth as int, index as int),
        decreases BOTTOM_LEVEL_DEPTH - depth,
    {
        proof {
            vstd::arithmetic::power2::lemma2_to64();
            if depth < 14 {
                vstd::arithmetic::power2::lemma_pow2_adds(depth as nat, 1);
            }
        }
        if depth == BOTTOM_LEVEL_DEPTH {
            if self.page_is_available(index) {
                1
            } else {
                0
            }
        } else {
            let left = self.compute_code(depth + 1, 2 * index);
            let right = self.compute_code(depth + 1, 2 * index + 1);
            let child_full: u8 = (14 - depth) as u8;
            if left == child_full && right == child_full {
                child_full + 1
            } else if left >= right {
                left
            } else {
                right
            }
        }
    }

    /// Find the lowest-addressed free aligned block of `2^size_exponent`
    /// pages, by descending from the root and preferring the left child
    /// whenever its cached code allows the request (this keeps low addresses
    /// allocated first).  Returns the block index at the block's tree level.
    pub fn find_free_memory(&self, size_exponent: u8) -> (r: usize)
        requires
            self.wf(),
            size_exponent <= 14,
            self.root_code() >= size_exponent + 1,
        ensures
            r < pow2((14 - size_exponent) as nat),
            block_free(self.pages(), size_exponent as int, r as int),
            forall|b: int|
                0 <= b < r ==> !(#[trigger] block_free(self.pages(), size_exponent as int, b)),
    {
        let e = size_exponent as u32;
        let target_depth: u32 = 14 - e;
        let ghost pages = self.pages();
        let mut index: usize = 0;
        let mut depth: u32 = 0;
        proof {
            vstd::arithmetic::power2::lemma2_to64();
        }
        while depth < target_depth
            invariant
                self.wf(),
                pages == self.pages(),
                e == size_exponent as u32,
                e <= 14,
                target_depth == 14 - e,
                depth <= target_depth,
                index < pow2(depth as nat),
                tree_code(pages, depth as int, index as int) >= e + 1,
                forall|b: int|
                    0 <= b < (index as int) * (pow2((target_depth - depth) as nat) as int) ==> !(
                    #[trigger] block_free(pages, e as int, b)),
            decreases target_depth - depth,
        {
            let ghost m = (target_depth - depth) as nat;
            let ghost mc = (target_depth - depth - 1) as nat;
            proof {
                vstd::arithmetic::power2::lemma2_to64();
                vstd::arithmetic::power2::lemma_pow2_adds(depth as nat, 1);
                vstd::arithmetic::power2::lemma_pow2_adds(mc, 1);
                vstd::arithmetic::power2::lemma_pow2_pos(mc);
                assert((2 * index) * pow2(mc) == index * pow2(m) && (2 * index + 1) * pow2(mc)
                    == index * pow2(m) + pow2(mc) && (2 * index + 2) * pow2(mc) == (index + 1)
                    * pow2(m)) by (nonlinear_arith)
                    requires
                        pow2(m) == 2 * pow2(mc),
                ;
            }
            let left_code = self.code_of_node(depth + 1, 2 * index);
            if left_code >= size_exponent + 1 {
                index = 2 * index;
            } else {
                proof {
                    // The parent's code came from the right child, so the
                    // right child allows the request and the left child
                    // holds no free block of the requested size.
                    assert(tree_code(pages, depth as int, index as int) == combine_codes(
                        depth as int,
                        tree_code(pages, depth as int + 1, 2 * (index as int)),
                        tree_code(pages, depth as int + 1, 2 * (index as int) + 1),
                    ));
                    assert(full_code(depth as int + 1) >= e + 1);
                    assert(tree_code(pages, depth as int + 1, 2 * (index as int)) < e + 1);
                    assert(tree_code(pages, depth as int + 1, 2 * (index as int) + 1) >= e + 1);
                    lemma_tree_code_block(pages, depth as int + 1, 2 * index as int, e as int);
                    assert forall|b: int|
                        0 <= b < (2 * index as int + 1) * (pow2(mc) as int) implies !(
                    #[trigger] block_free(pages, e as int, b)) by {
                        if b >= (2 * index as int) * (pow2(mc) as int) {
                            assert(!block_free(pages, e as int, b));
                        }
                    }
                }
                index = 2 * index + 1;
            }
            depth = depth + 1;
        }
        proof {
            vstd::arithmetic::power2::lemma2_to64();
            lemma_tree_code_le(pages, target_depth as int, index as int);
            lemma_tree_code_full(pages, target_depth as int, index as int);
            vstd::arithmetic::power2::lemma_pow2_adds(target_depth as nat, e as nat);
            assert(node_span(target_depth as int) == pow2(e as nat));
            assert((index as int) * (pow2(0) as int) == index as int && (index as int + 1) * pow2(
                e as nat,
            ) == (index as int) * pow2(e as nat) + pow2(e as nat)) by (nonlinear_arith)
                requires
                    pow2(0) == 1,
            ;
            assert(tree_code(pages, target_depth as int, index as int) == full_code(
                target_depth as int,
            ));
            assert(block_free(pages, e as int, index as int)) by {
                assert(forall|p: int|
                    node_start(target_depth as int, index as int) <= p < node_start(
                        target_depth as int,
                        index as int,
                    ) + node_span(target_depth as int) ==> pages[p]);
            }
        }
        index
    }

    /// Write one block's availability bits, leaving the nibble tree alone.
    fn write_block_bits(&mut self, index: usize, size_exponent: u8, free: bool)
        requires
            old(self).storage_wf(),
            size_exponent <= 14,
            index < pow2((14 - size_exponent) as nat),
        ensures
            final(self).storage_wf(),
            forall|d: int, i: int|
                0 <= d <= NIBBLE_TREE_DEPTH && 0 <= i < pow2(d as nat) ==> #[trigger] final(self).nib(
                    d,
                    i,
                ) == old(self).nib(d, i),
            forall|p: int|
                0 <= p < BOTTOM_PAGE_COUNT ==> #[trigger] final(self).pages()[p] == (if node_start(
                    14 - size_exponent as int,
                    index as int,
                ) <= p < node_start(14 - size_exponent as int, index as int) + node_span(
                    14 - size_exponent as int,
                ) {
                    free
                } else {
                    old(self).pages()[p]
                }),
    {
        let e = size_exponent as u32;
        let ghost td = 14 - size_exponent as int;
        let span: usize = 1usize << e;
        proof {
            vstd::arithmetic::power2::lemma2_to64();
            vstd::bits::lemma_usize_shl_is_mul(1usize, e as usize);
            lemma_node_range_bound(td, index as int);
            assert(node_span(td) == pow2(e as nat));
            assert(node_start(td, index as int) == (index as int) * (span as int));
        }
        let start: usize = index * span;
        let ghost first = node_start(td, index as int);
        let ghost last = node_start(td, index as int) + node_span(td);
        let mut p: usize = start;
        while p < start + span
            invariant
                self.storage_wf(),
                start <= p <= start + span,
                first == start,
                last == start + span,
                last <= BOTTOM_PAGE_COUNT,
                forall|d: int, i: int|
                    0 <= d <= NIBBLE_TREE_DEPTH && 0 <= i < pow2(d as nat) ==> #[trigger] self.nib(
                        d,
                        i,
                    ) == old(self).nib(d, i),
                forall|q: int|
                    0 <= q < BOTTOM_PAGE_COUNT ==> #[trigger] self.pages()[q] == (if first <= q < p {
                        free
                    } else {
                        old(self).pages()[q]
                    }),
            decreases start + span - p,
        {
            self.set_page_bit(p, free);
            p += 1;
        }
    }

    /// Rewrite the cached codes of every nibble-tree node inside one block's
    /// subtree to the code forced by the block's new state.
    fn write_subtree_nibs(&mut self, index: usize, size_exponent: u8, free: bool)
        requires
            old(self).storage_wf(),
            size_exponent <= 14,
            index < pow2((14 - size_exponent) as nat),
            forall|p: int|
                node_start(14 - size_exponent as int, index as int) <= p < node_start(
                    14 - size_exponent as int,
                    index as int,
                ) + node_span(14 - size_exponent as int) ==> #[trigger] old(self).pages()[p]
                    == free,
        ensures
            final(self).storage_wf(),
            final(self).pages() == old(self).pages(),
            forall|d: int, i: int|
                0 <= d <= NIBBLE_TREE_DEPTH && 0 <= i < pow2(d as nat) && (d >= 14
                    - size_exponent as int && i / (pow2((d - (14 - size_exponent as int)) as nat) as int)
                    == index as int) ==> #[trigger] final(self).nib(d, i) == tree_code(
                    final(self).pages(),
                    d,
                    i,
                ),
            forall|d: int, i: int|
                0 <= d <= NIBBLE_TREE_DEPTH && 0 <= i < pow2(d as nat) && !(d >= 14
                    - size_exponent as int && i / (pow2((d - (14 - size_exponent as int)) as nat) as int)
                    == index as int) ==> #[trigger] final(self).nib(d, i) == old(self).nib(d, i),
    {
        let e = size_exponent as u32;
        let target_depth: u32 = 14 - e;
        let ghost td = target_depth as int;
        if target_depth > NIBBLE_TREE_DEPTH {
            // No nibble lies at or below the block's level.
            return ;
        }
        let mut d: u32 = target_depth;
        while d <= NIBBLE_TREE_DEPTH
            invariant
                self.storage_wf(),
                e == size_exponent as u32,
                e <= 14,
                target_depth == 14 - e,
                td == target_depth as int,
                target_depth <= d <= NIBBLE_TREE_DEPTH + 1,
                index < pow2(td as nat),
                self.pages() == old(self).pages(),
                forall|p: int|
                    node_start(td, index as int) <= p < node_start(td, index as int) + node_span(
                        td,
                    ) ==> #[trigger] self.pages()[p] == free,
                forall|dd: int, i: int|
                    0 <= dd <= NIBBLE_TREE_DEPTH && 0 <= i < pow2(dd as nat) && td <= dd < d && i
                        / (pow2((dd - td) as nat) as int) == index as int
                        ==> #[trigger] self.nib(dd, i) == tree_code(self.pages(), dd, i),
                forall|dd: int, i: int|
                    0 <= dd <= NIBBLE_TREE_DEPTH && 0 <= i < pow2(dd as nat) && !(td <= dd < d && i
                        / (pow2((dd - td) as nat) as int) == index as int)
                        ==> #[trigger] self.nib(dd, i) == old(self).nib(dd, i),
            decreases NIBBLE_TREE_DEPTH + 1 - d,
        {
            let width: usize = 1usize << (d - target_depth);
            proof {
                vstd::arithmetic::power2::lemma2_to64();
                vstd::bits::lemma_usize_shl_is_mul(1usize, (d - target_depth) as usize);
                if (d - target_depth) < 11 {
                    vstd::arithmetic::power2::lemma_pow2_strictly_increases(
                        (d - target_depth) as nat,
                        11,
                    );
                }
                if d < 11 {
                    vstd::arithmetic::power2::lemma_pow2_strictly_increases(d as nat, 11);
                }
                vstd::arithmetic::power2::lemma_pow2_adds(td as nat, (d - td) as nat);
                assert((index as int) * (width as int) + width as int == (index as int + 1) * (
                width as int) && (index as int + 1) * (width as int) <= pow2(td as nat) * (
                width as int)) by (nonlinear_arith)
                    requires
                        0 <= index as int,
                        (index as int) < pow2(td as nat),
                        width as int >= 1,
                ;
                assert(pow2(td as nat) * pow2((d - td) as nat) == pow2(d as nat));
            }
            let row_base: usize = index * width;
            let value: u8 = if free {
                (15 - d) as u8
            } else {
                0
            };
            let mut j: usize = 0;
            while j < width
                invariant
                    self.storage_wf(),
                    e <= 14,
                    target_depth == 14 - e,
                    td == target_depth as int,
                    target_depth <= d <= NIBBLE_TREE_DEPTH,
                    index < pow2(td as nat),
                    width == pow2((d - td) as nat),
                    row_base == index * width,
                    (index as int + 1) * (width as int) <= pow2(d as nat),
                    row_base + width <= pow2(d as nat),
                    pow2(d as nat) <= 2048,
                    j <= width,
                    value == (if free {
                        full_code(d as int)
                    } else {
                        0
                    }),
                    value < 16,
                    self.pages() == old(self).pages(),
                    forall|p: int|
                        node_start(td, index as int) <= p < node_start(td, index as int)
                            + node_span(td) ==> #[trigger] self.pages()[p] == free,
                    forall|dd: int, i: int|
                        0 <= dd <= NIBBLE_TREE_DEPTH && 0 <= i < pow2(dd as nat) && td <= dd < d
                            && i / (pow2((dd - td) as nat) as int) == index as int
                            ==> #[trigger] self.nib(dd, i) == tree_code(self.pages(), dd, i),
                    forall|i: int|
                        row_base <= i < row_base + j ==> #[trigger] self.nib(d as int, i)
                            == tree_code(self.pages(), d as int, i),
                    forall|dd: int, i: int|
                        0 <= dd <= NIBBLE_TREE_DEPTH && 0 <= i < pow2(dd as nat) && !(td <= dd < d
                            && i / (pow2((dd - td) as nat) as int) == index as int) && !(dd
                            == d as int && row_base <= i < row_base + j) ==> #[trigger] self.nib(
                            dd,
                            i,
                        ) == old(self).nib(dd, i),
                decreases width - j,
            {
                let node: usize = row_base + j;
                proof {
                    assert(node < pow2(d as nat));
                    // The node is a descendant of the block node, so its
                    // range is contained in the block's range and its new
                    // code is forced.
                    assert((node as int) / (pow2((d as int - td) as nat) as int) == index as int)
                        by {
                        vstd::arithmetic::div_mod::lemma_fundamental_div_mod_converse(
                            node as int,
                            width as int,
                            index as int,
                            j as int,
                        );
                    }
                    lemma_node_containment(td, index as int, d as int, node as int);
                    if free {
                        lemma_tree_code_full(self.pages(), d as int, node as int);
                    } else {
                        lemma_tree_code_zero(self.pages(), d as int, node as int);
                    }
                }
                let ghost pre = *self;
                self._set_at_coords(d, node, value);
                proof {
                    assert(self.nib(d as int, node as int) == tree_code(self.pages(), d as int, node as int));
                }
                j += 1;
            }
            proof {
                // Membership in the processed row is exactly the division
                // test that the loop invariants use.
                let w = width as int;
                assert(w * (index as int) == (index as int) * w) by (nonlinear_arith);
                assert forall|i: int| 0 <= i < pow2(d as nat) implies ((#[trigger] (i / w))
                    == index as int <==> row_base <= i < row_base + w) by {
                    vstd::arithmetic::div_mod::lemma_fundamental_div_mod(i, w);
                    vstd::arithmetic::div_mod::lemma_mod_bound(i, w);
                    if row_base <= i < row_base + w {
                        vstd::arithmetic::div_mod::lemma_fundamental_div_mod_converse(
                            i,
                            w,
                            index as int,
                            i - row_base,
                        );
                    }
                }
            }
            d += 1;
        }
    }

    /// Recompute the cached codes of the block node's ancestors, bottom up,
    /// restoring the tree invariant after a block's bits have changed.
    fn fix_ancestors(&mut self, index: usize, size_exponent: u8)
        requires
            old(self).storage_wf(),
            size_exponent <= 14,
            index < pow2((14 - size_exponent) as nat),
            forall|d: int, i: int|
                0 <= d <= NIBBLE_TREE_DEPTH && 0 <= i < pow2(d as nat) && !(d < 14
                    - size_exponent as int && i == (index as int) / (pow2(
                    (14 - size_exponent as int - d) as nat,
                ) as int)) ==> #[trigger] old(self).nib(d, i) == tree_code(old(self).pages(), d, i),
        ensures
            final(self).wf(),
            final(self).pages() == old(self).pages(),
    {
        let e = size_exponent as u32;
        let target_depth: u32 = 14 - e;
        let ghost td = target_depth as int;
        let start_depth: u32 = if target_depth > NIBBLE_TREE_DEPTH + 1 {
            NIBBLE_TREE_DEPTH + 1
        } else {
            target_depth
        };
        let mut dplus: u32 = start_depth;
        while dplus > 0
            invariant
                self.storage_wf(),
                e == size_exponent as u32,
                e <= 14,
                target_depth == 14 - e,
                td == target_depth as int,
                dplus <= start_depth,
                start_depth <= target_depth,
                start_depth <= NIBBLE_TREE_DEPTH + 1,
                index < pow2(td as nat),
                self.pages() == old(self).pages(),
                forall|d: int, i: int|
                    0 <= d <= NIBBLE_TREE_DEPTH && 0 <= i < pow2(d as nat) && !(d < dplus && d < td
                        && i == (index as int) / (pow2((td - d) as nat) as int))
                        ==> #[trigger] self.nib(d, i) == tree_code(self.pages(), d, i),
            decreases dplus,
        {
            let d: u32 = dplus - 1;
            let shift: u32 = target_depth - d;
            let anc: usize = index >> shift;
            proof {
                vstd::arithmetic::power2::lemma2_to64();
                vstd::bits::lemma_usize_shr_is_div(index, shift as usize);
                vstd::arithmetic::power2::lemma_pow2_adds((td - d) as nat, d as nat);
                vstd::arithmetic::power2::lemma_pow2_pos((td - d) as nat);
                assert(anc as int == (index as int) / (pow2((td - d) as nat) as int));
                // The ancestor index is in range for its depth.
                assert((index as int) / (pow2((td - d) as nat) as int) < pow2(d as nat)) by {
                    vstd::arithmetic::div_mod::lemma_multiply_divide_lt(
                        index as int,
                        pow2((td - d) as nat) as int,
                        pow2(d as nat) as int,
                    );
                }
                vstd::arithmetic::power2::lemma_pow2_adds((td - d - 1) as nat, (d + 1) as nat);
                vstd::arithmetic::power2::lemma_pow2_pos((td - d - 1) as nat);
                // The parent of the block node's ancestor at the next depth
                // is the ancestor at this depth.
                assert((index as int) / (pow2((td - d - 1) as nat) as int) / 2 == (index as int)
                    / (pow2((td - d) as nat) as int)) by {
                    vstd::arithmetic::div_mod::lemma_div_denominator(
                        index as int,
                        pow2((td - d - 1) as nat) as int,
                        2,
                    );
                    assert(pow2((td - d - 1) as nat) * 2 == pow2((td - d) as nat)) by {
                        vstd::arithmetic::power2::lemma_pow2_adds((td - d - 1) as nat, 1);
                    }
                }
                assert((index as int) / (pow2((td - d - 1) as nat) as int) < pow2((d + 1) as nat))
                    by {
                    vstd::arithmetic::div_mod::lemma_multiply_divide_lt(
                        index as int,
                        pow2((td - d - 1) as nat) as int,
                        pow2((d + 1) as nat) as int,
                    );
                }
                vstd::arithmetic::div_mod::lemma_div_pos_is_pos(
                    index as int,
                    pow2((td - d - 1) as nat) as int,
                );
            }
            let ghost next_anc = (index as int) / (pow2((td - d - 1) as nat) as int);
            proof {
                // The next-depth ancestor is one of the two children, and
                // the other child's nibble is already correct.
                vstd::arithmetic::div_mod::lemma_fundamental_div_mod(next_anc, 2);
                vstd::arithmetic::div_mod::lemma_mod_bound(next_anc, 2);
                assert(next_anc == 2 * (anc as int) || next_anc == 2 * (anc as int) + 1);
                vstd::arithmetic::power2::lemma_pow2_adds(d as nat, 1);
            }
            let left: u8;
            let right: u8;
            if d + 1 <= NIBBLE_TREE_DEPTH {
                left = self.get_at_coords(d + 1, 2 * anc);
                right = self.get_at_coords(d + 1, 2 * anc + 1);
                proof {
                    if td == d + 1 {
                        assert(self.nib(d as int + 1, 2 * (anc as int)) == tree_code(
                            self.pages(),
                            d as int + 1,
                            2 * (anc as int),
                        ));
                    }
                }
            } else {
                left = self.compute_code(d + 1, 2 * anc);
                right = self.compute_code(d + 1, 2 * anc + 1);
            }
            proof {
                assert(left == tree_code(self.pages(), d as int + 1, 2 * (anc as int)));
                assert(right == tree_code(self.pages(), d as int + 1, 2 * (anc as int) + 1));
                lemma_tree_code_le(self.pages(), d as int + 1, 2 * (anc as int));
                lemma_tree_code_le(self.pages(), d as int + 1, 2 * (anc as int) + 1);
            }
            let child_full: u8 = (14 - d) as u8;
            let combined: u8 = if left == child_full && right == child_full {
                child_full + 1
            } else if left >= right {
                left
            } else {
                right
            };
            assert(combined == tree_code(self.pages(), d as int, anc as int));
            self._set_at_coords(d, anc, combined);
            dplus = d;
        }
        proof {
            assert forall|d: int, i: int|
                0 <= d <= NIBBLE_TREE_DEPTH && 0 <= i < pow2(d as nat) implies #[trigger] self.nib(
                d,
                i,
            ) == tree_code(self.pages(), d, i) by {}
        }
    }

    /// Set a whole aligned block free or used: write its bits, rewrite the
    /// cached codes inside its subtree, and recompute its ancestors' codes.
    fn set_block_state(&mut self, index: usize, size_exponent: u8, free: bool)
        requires
            old(self).wf(),
            size_exponent <= 14,
            index < pow2((14 - size_exponent) as nat),
        ensures
            final(self).wf(),
            forall|p: int|
                0 <= p < BOTTOM_PAGE_COUNT ==> #[trigger] final(self).pages()[p] == (if node_start(
                    14 - size_exponent as int,
                    index as int,
                ) <= p < node_start(14 - size_exponent as int, index as int) + node_span(
                    14 - size_exponent as int,
                ) {
                    free
                } else {
                    old(self).pages()[p]
                }),
    {
        let ghost td = 14 - size_exponent as int;
        let ghost before = *self;
        self.write_block_bits(index, size_exponent, free);
        proof {
            lemma_node_range_bound(td, index as int);
        }
        let ghost mid = *self;
        self.write_subtree_nibs(index, size_exponent, free);
        proof {
            // Away from the block's subtree and its ancestors, both the
            // nibbles and the codes they cache are untouched.
            assert forall|d: int, i: int|
                0 <= d <= NIBBLE_TREE_DEPTH && 0 <= i < pow2(d as nat) && !(d < td && i == (
                index as int) / (pow2((td - d) as nat) as int)) implies #[trigger] self.nib(d, i)
                == tree_code(self.pages(), d, i) by {
                if d >= td && i / (pow2((d - td) as nat) as int) == index as int {
                    // Inside the subtree: rewritten to the forced code.
                } else {
                    // Disjoint range: the code did not change.
                    if d >= td {
                        lemma_node_containment(td, index as int, d, i);
                    } else {
                        lemma_node_containment(d, i, td, index as int);
                    }
                    lemma_node_range_bound(d, i);
                    lemma_tree_code_frame(before.pages(), self.pages(), d, i);
                    assert(self.nib(d, i) == before.nib(d, i));
                }
            }
        }
        self.fix_ancestors(index, size_exponent);
    }

    /// Mark a free aligned block of `2^size_exponent` pages as used: clear
    /// its availability bits and recompute every cached code they determine.
    /// The caller guarantees that the block is currently entirely free.
    pub fn reserve(&mut self, index: usize, size_exponent: u8)
        requires
            old(self).wf(),
            size_exponent <= 14,
            index < pow2((14 - size_exponent) as nat),
            block_free(old(self).pages(), size_exponent as int, index as int),
        ensures
            final(self).wf(),
            forall|p: int|
                0 <= p < BOTTOM_PAGE_COUNT ==> #[trigger] final(self).pages()[p] == (if (
                index as int) * pow2(size_exponent as nat) <= p < (index as int + 1) * pow2(
                    size_exponent as nat,
                ) {
                    false
                } else {
                    old(self).pages()[p]
                }),
    {
        proof {
            lemma_block_is_node_range(index as int, size_exponent as int);
        }
        self.set_block_state(index, size_exponent, false);
    }

    /// Mark a used aligned block of `2^size_exponent` pages as free again:
    /// set its availability bits and recompute every cached code they
    /// determine, coalescing buddies along the way.  The caller guarantees
    /// that the block was reserved and is currently entirely used.
    pub fn release(&mut self, index: usize, size_exponent: u8)
        requires
            old(self).wf(),
            size_exponent <= 14,
            index < pow2((14 - size_exponent) as nat),
            forall|p: int|
                (index as int) * pow2(size_exponent as nat) <= p < (index as int + 1) * pow2(
                    size_exponent as nat,
                ) ==> !(#[trigger] old(self).pages()[p]),
        ensures
            final(self).wf(),
            forall|p: int|
                0 <= p < BOTTOM_PAGE_COUNT ==> #[trigger] final(self).pages()[p] == (if (
                index as int) * pow2(size_exponent as nat) <= p < (index as int + 1) * pow2(
                    size_exponent as nat,
                ) {
                    true
                } else {
                    old(self).pages()[p]
                }),
    {
        proof {
            lemma_block_is_node_range(index as int, size_exponent as int);
        }
        self.set_block_state(index, size_exponent, true);
    }

    /// Read the availability code of any node: from its nibble where one is
    /// stored, from the bitmap below that.
    pub fn code_of_node(&self, depth: u32, index: usize) -> (r: u8)
        requires
            self.wf(),
            depth <= BOTTOM_LEVEL_DEPTH,
            index < pow2(depth as nat),
        ensures
            r == tree_code(self.pages(), depth as int, index as int),
    {
        if depth <= NIBBLE_TREE_DEPTH {
            self.get_at_coords(depth, index)
        } else {
            self.compute_code(depth, index)
        }
    }
}

/// First page covered by node `(depth, index)`.
pub open spec fn node_start(depth: int, index: int) -> int {
    index * node_span(depth)
}

/// Whether the aligned block of `2^size_exponent` pages with block index
/// `block` is entirely free.
pub open spec fn block_free(pages: Seq<bool>, size_exponent: int, block: int) -> bool {
    forall|p: int|
        block * pow2(size_exponent as nat) <= p < (block + 1) * pow2(size_exponent as nat)
            ==> pages[p]
}

/// A node's children halve its span and split its page range.
proof fn lemma_node_ranges(depth: int, index: int)
    requires
        0 <= depth < 14,
    ensures
        node_span(depth) == 2 * node_span(depth + 1),
        node_start(depth + 1, 2 * index) == node_start(depth, index),
        node_start(depth + 1, 2 * index + 1) == node_start(depth, index) + node_span(depth + 1),
{
    vstd::arithmetic::power2::lemma_pow2_adds((13 - depth) as nat, 1);
    vstd::arithmetic::power2::lemma2_to64();
    let s = node_span(depth + 1);
    assert((2 * index) * s == index * (2 * s)) by (nonlinear_arith);
    assert((2 * index + 1) * s == index * (2 * s) + s) by (nonlinear_arith);
}

/// A node's page range ends within the range of the whole tree.
proof fn lemma_node_range_bound(depth: int, index: int)
    requires
        0 <= depth <= 14,
        0 <= index < pow2(depth as nat),
    ensures
        0 <= node_start(depth, index),
        node_start(depth, index) + node_span(depth) <= BOTTOM_PAGE_COUNT,
        node_span(depth) >= 1,
{
    vstd::arithmetic::power2::lemma_pow2_adds(depth as nat, (14 - depth) as nat);
    vstd::arithmetic::power2::lemma2_to64();
    vstd::arithmetic::power2::lemma_pow2_pos((14 - depth) as nat);
    let s = node_span(depth);
    assert(pow2(depth as nat) * pow2((14 - depth) as nat) == pow2(14));
    assert(index * s >= 0 && index * s + s == (index + 1) * s && (index + 1) * s <= pow2(
        depth as nat,
    ) * s) by (nonlinear_arith)
        requires
            s >= 1,
            0 <= index < pow2(depth as nat),
    ;
}

/// A leaf node at the bottom depth covers exactly its own page.
proof fn lemma_leaf_node_range(index: int)
    ensures
        node_span(14) == 1,
        node_start(14, index) == index,
{
    vstd::arithmetic::power2::lemma2_to64();
    assert(index * node_span(14) == index) by (nonlinear_arith)
        requires
            node_span(14) == 1,
    ;
}

/// A node's code never exceeds the code of a fully free node of its depth.
proof fn lemma_tree_code_le(pages: Seq<bool>, depth: int, index: int)
    requires
        0 <= depth <= 14,
    ensures
        tree_code(pages, depth, index) <= full_code(depth),
    decreases 14 - depth,
{
    if depth < 14 {
        lemma_tree_code_le(pages, depth + 1, 2 * index);
        lemma_tree_code_le(pages, depth + 1, 2 * index + 1);
    }
}

/// A node carries the fully-free code exactly when every page of its range
/// is free.
proof fn lemma_tree_code_full(pages: Seq<bool>, depth: int, index: int)
    requires
        0 <= depth <= 14,
    ensures
        tree_code(pages, depth, index) == full_code(depth) <==> (forall|p: int|
            node_start(depth, index) <= p < node_start(depth, index) + node_span(depth)
                ==> pages[p]),
    decreases 14 - depth,
{
    vstd::arithmetic::power2::lemma2_to64();
    if depth == 14 {
        lemma_leaf_node_range(index);
    } else {
        lemma_tree_code_full(pages, depth + 1, 2 * index);
        lemma_tree_code_full(pages, depth + 1, 2 * index + 1);
        lemma_tree_code_le(pages, depth + 1, 2 * index);
        lemma_tree_code_le(pages, depth + 1, 2 * index + 1);
        lemma_node_ranges(depth, index);
    }
}

/// A node carries code 0 exactly when no page of its range is free.
proof fn lemma_tree_code_zero(pages: Seq<bool>, depth: int, index: int)
    requires
        0 <= depth <= 14,
    ensures
        tree_code(pages, depth, index) == 0 <==> (forall|p: int|
            node_start(depth, index) <= p < node_start(depth, index) + node_span(depth)
                ==> !pages[p]),
    decreases 14 - depth,
{
    vstd::arithmetic::power2::lemma2_to64();
    if depth == 14 {
        lemma_leaf_node_range(index);
    } else {
        lemma_tree_code_zero(pages, depth + 1, 2 * index);
        lemma_tree_code_zero(pages, depth + 1, 2 * index + 1);
        lemma_node_ranges(depth, index);
    }
}

/// A node's code depends only on the pages of its own range.
proof fn lemma_tree_code_frame(pages1: Seq<bool>, pages2: Seq<bool>, depth: int, index: int)
    requires
        0 <= depth <= 14,
        forall|p: int|
            node_start(depth, index) <= p < node_start(depth, index) + node_span(depth)
                ==> pages1[p] == pages2[p],
    ensures
        tree_code(pages1, depth, index) == tree_code(pages2, depth, index),
    decreases 14 - depth,
{
    if depth == 14 {
        vstd::arithmetic::power2::lemma2_to64();
        lemma_leaf_node_range(index);
        assert(pages1[index] == pages2[index]);
    } else {
        lemma_node_ranges(depth, index);
        lemma_tree_code_frame(pages1, pages2, depth + 1, 2 * index);
        lemma_tree_code_frame(pages1, pages2, depth + 1, 2 * index + 1);
    }
}

/// A node's code reaches `e + 1` exactly when some aligned block of
/// `2^e` pages inside its range is entirely free.
proof fn lemma_tree_code_block(pages: Seq<bool>, depth: int, index: int, e: int)
    requires
        0 <= e,
        0 <= depth,
        depth + e <= 14,
    ensures
        tree_code(pages, depth, index) >= e + 1 <==> (exists|b: int|
            index * pow2((14 - depth - e) as nat) <= b < (index + 1) * pow2(
                (14 - depth - e) as nat,
            ) && #[trigger] block_free(pages, e, b)),
    decreases 14 - depth,
{
    vstd::arithmetic::power2::lemma2_to64();
    let m = (14 - depth - e) as nat;
    if depth == 14 - e {
        // The node is itself one block.
        assert(pow2(m) == 1);
        lemma_tree_code_le(pages, depth, index);
        lemma_tree_code_full(pages, depth, index);
        vstd::arithmetic::power2::lemma_pow2_adds(depth as nat, e as nat);
        assert(node_span(depth) == pow2(e as nat));
        assert(node_start(depth, index) == index * pow2(e as nat));
        assert(index * pow2(m) == index && (index + 1) * pow2(m) == index + 1 && (index + 1)
            * pow2(e as nat) == index * pow2(e as nat) + pow2(e as nat)) by (nonlinear_arith)
            requires
                pow2(m) == 1,
        ;
        assert(tree_code(pages, depth, index) >= e + 1 <==> tree_code(pages, depth, index)
            == full_code(depth));
        if tree_code(pages, depth, index) == full_code(depth) {
            assert(block_free(pages, e, index));
        }
        if exists|b: int|
            index * pow2(m) <= b < (index + 1) * pow2(m) && #[trigger] block_free(pages, e, b) {
            let b = choose|b: int|
                index * pow2(m) <= b < (index + 1) * pow2(m) && #[trigger] block_free(
                    pages,
                    e,
                    b,
                );
            assert(b == index);
            assert forall|p: int|
                node_start(depth, index) <= p < node_start(depth, index) + node_span(
                    depth,
                ) implies pages[p] by {
                assert(block_free(pages, e, index));
            }
        }
    } else {
        lemma_tree_code_block(pages, depth + 1, 2 * index, e);
        lemma_tree_code_block(pages, depth + 1, 2 * index + 1, e);
        let mc = (14 - depth - 1 - e) as nat;
        vstd::arithmetic::power2::lemma_pow2_pos(mc);
        assert(pow2(m) == 2 * pow2(mc)) by {
            vstd::arithmetic::power2::lemma_pow2_adds(mc, 1);
        }
        // Block indices of the children partition those of the parent.
        assert((2 * index) * pow2(mc) == index * pow2(m) && (2 * index + 1) * pow2(mc) == index
            * pow2(m) + pow2(mc) && (2 * index + 2) * pow2(mc) == (index + 1) * pow2(m) && (2
            * index + 1) * pow2(mc) + pow2(mc) == (2 * index + 2) * pow2(mc) && (index + 1) * pow2(
            m,
        ) == index * pow2(m) + pow2(m)) by (nonlinear_arith)
            requires
                pow2(m) == 2 * pow2(mc),
        ;
        let l = tree_code(pages, depth + 1, 2 * index);
        let r = tree_code(pages, depth + 1, 2 * index + 1);
        assert(tree_code(pages, depth, index) >= e + 1 <==> (l >= e + 1 || r >= e + 1)) by {
            lemma_tree_code_le(pages, depth + 1, 2 * index);
            lemma_tree_code_le(pages, depth + 1, 2 * index + 1);
        }
        if l >= e + 1 {
            assert(exists|b: int|
                (2 * index) * pow2((14 - (depth + 1) - e) as nat) <= b < (2 * index + 1) * pow2(
                    (14 - (depth + 1) - e) as nat,
                ) && #[trigger] block_free(pages, e, b));
            let b = choose|b: int|
                (2 * index) * pow2(mc) <= b < (2 * index + 1) * pow2(mc) && #[trigger] block_free(
                    pages,
                    e,
                    b,
                );
            assert((2 * index) * pow2(mc) <= b < (2 * index + 1) * pow2(mc));
            assert(index * pow2(m) <= b);
            assert(b < (index + 1) * pow2(m));
            assert(block_free(pages, e, b));
        } else if r >= e + 1 {
            let b = choose|b: int|
                (2 * index + 1) * pow2(mc) <= b < (2 * index + 2) * pow2(mc)
                    && #[trigger] block_free(pages, e, b);
            assert(index * pow2(m) <= b < (index + 1) * pow2(m) && block_free(pages, e, b));
        }
        if exists|b: int|
            index * pow2(m) <= b < (index + 1) * pow2(m) && #[trigger] block_free(pages, e, b) {
            let b = choose|b: int|
                index * pow2(m) <= b < (index + 1) * pow2(m) && #[trigger] block_free(
                    pages,
                    e,
                    b,
                );
            if b < (2 * index + 1) * pow2(mc) {
                assert(l >= e + 1);
            } else {
                assert(r >= e + 1);
            }
        }
    }
}

/// Maximum of the slot codes below node `(depth, index)` of the top-level
/// tree.  Slots are never merged with each other, since no block spans a
/// slot boundary, so a plain maximum caches the search information.
pub open spec fn top_code(codes: Seq<u8>, depth: int, index: int) -> u8
    decreases 10 - depth,
{
    if depth >= 10 {
        codes[index]
    } else {
        let l = top_code(codes, depth + 1, 2 * index);
        let r = top_code(codes, depth + 1, 2 * index + 1);
        if l >= r {
            l
        } else {
            r
        }
    }
}

/// The availability code stored in a top-level node: bits 4 to 7.
pub open spec fn entry_code(entry: u32) -> u8 {
    ((entry >> 4) & 0xf) as u8
}

/// The backing-page address stored in a top-level node: bits 8 to 31 hold
/// the address shifted right by 4.
pub open spec fn entry_addr(entry: u32) -> usize {
    ((entry >> 8) as usize) << 4
}

/// The top-level node caches the largest slot code of its subtree: both
/// bounds of a maximum.
proof fn lemma_top_code_max(codes: Seq<u8>, depth: int, index: int)
    requires
        0 <= depth <= 10,
        0 <= index,
    ensures
        exists|s: int|
            index * pow2((10 - depth) as nat) <= s < (index + 1) * pow2((10 - depth) as nat) && (
            #[trigger] codes[s]) == top_code(codes, depth, index),
        forall|s: int|
            index * pow2((10 - depth) as nat) <= s < (index + 1) * pow2((10 - depth) as nat) ==> (
            #[trigger] codes[s]) <= top_code(codes, depth, index),
    decreases 10 - depth,
{
    vstd::arithmetic::power2::lemma2_to64();
    let m = (10 - depth) as nat;
    if depth == 10 {
        assert(index * pow2(m) == index && (index + 1) * pow2(m) == index + 1) by (nonlinear_arith)
            requires
                pow2(m) == 1,
        ;
        assert(codes[index] == top_code(codes, depth, index));
    } else {
        lemma_top_code_max(codes, depth + 1, 2 * index);
        lemma_top_code_max(codes, depth + 1, 2 * index + 1);
        let mc = (10 - depth - 1) as nat;
        vstd::arithmetic::power2::lemma_pow2_pos(mc);
        assert(pow2(m) == 2 * pow2(mc)) by {
            vstd::arithmetic::power2::lemma_pow2_adds(mc, 1);
        }
        assert((2 * index) * pow2(mc) == index * pow2(m) && (2 * index + 1) * pow2(mc) == index
            * pow2(m) + pow2(mc) && (2 * index + 2) * pow2(mc) == (index + 1) * pow2(m)) by (nonlinear_arith)
            requires
                pow2(m) == 2 * pow2(mc),
        ;
        let l = top_code(codes, depth + 1, 2 * index);
        let r = top_code(codes, depth + 1, 2 * index + 1);
        if l >= r {
            let s = choose|s: int|
                (2 * index) * pow2(mc) <= s < (2 * index + 1) * pow2(mc) && (#[trigger] codes[s])
                    == l;
            assert(codes[s] == top_code(codes, depth, index));
        } else {
            let s = choose|s: int|
                (2 * index + 1) * pow2(mc) <= s < (2 * index + 2) * pow2(mc) && (
                #[trigger] codes[s]) == r;
            assert(codes[s] == top_code(codes, depth, index));
        }
    }
}

/// When every slot has the same code, every top-level node caches it.
proof fn lemma_top_code_const(codes: Seq<u8>, depth: int, index: int, c: u8)
    requires
        0 <= depth <= 10,
        0 <= index < pow2(depth as nat),
        forall|s: int| 0 <= s < 1024 ==> codes[s] == c,
    ensures
        top_code(codes, depth, index) == c,
    decreases 10 - depth,
{
    vstd::arithmetic::power2::lemma2_to64();
    if depth == 10 {
    } else {
        vstd::arithmetic::power2::lemma_pow2_adds(depth as nat, 1);
        lemma_top_code_const(codes, depth + 1, 2 * index, c);
        lemma_top_code_const(codes, depth + 1, 2 * index + 1, c);
    }
}

/// A global page index decomposes into a slot, an in-slot page index and a
/// block index, all in range, with the block wholly inside the slot.
proof fn lemma_release_decompose(base_index: int, size_exponent: int)
    requires
        0 <= size_exponent <= 14,
        0 <= base_index < TOP_SLOT_COUNT * BOTTOM_PAGE_COUNT,
        base_index % (pow2(size_exponent as nat) as int) == 0,
    ensures
        ({
            let s = base_index / (BOTTOM_PAGE_COUNT as int);
            let b = base_index % (BOTTOM_PAGE_COUNT as int);
            let sp = pow2(size_exponent as nat) as int;
            &&& 0 <= s < TOP_SLOT_COUNT
            &&& 0 <= b < BOTTOM_PAGE_COUNT
            &&& b % sp == 0
            &&& b / sp < pow2((14 - size_exponent) as nat)
            &&& b == (b / sp) * sp
            &&& b + sp <= BOTTOM_PAGE_COUNT
        }),
{
    let n = BOTTOM_PAGE_COUNT as int;
    let s = base_index / n;
    let b = base_index % n;
    let sp = pow2(size_exponent as nat) as int;
    vstd::arithmetic::power2::lemma_pow2_pos(size_exponent as nat);
    vstd::arithmetic::power2::lemma_pow2_adds(size_exponent as nat, (14 - size_exponent) as nat);
    vstd::arithmetic::power2::lemma2_to64();
    vstd::arithmetic::div_mod::lemma_fundamental_div_mod(base_index, n);
    vstd::arithmetic::div_mod::lemma_mod_bound(base_index, n);
    vstd::arithmetic::div_mod::lemma_div_pos_is_pos(base_index, n);
    assert(s < TOP_SLOT_COUNT) by {
        vstd::arithmetic::div_mod::lemma_multiply_divide_lt(
            base_index,
            n,
            TOP_SLOT_COUNT as int,
        );
    }
    // The in-slot index inherits the block alignment, since the slot size
    // is a multiple of the block size.
    assert(n == sp * pow2((14 - size_exponent) as nat));
    assert(b % sp == 0) by {
        vstd::arithmetic::div_mod::lemma_mod_mod(base_index, sp, pow2((14 - size_exponent) as nat) as int);
        vstd::arithmetic::div_mod::lemma_mod_twice(base_index, sp);
    }
    vstd::arithmetic::div_mod::lemma_fundamental_div_mod(b, sp);
    vstd::arithmetic::div_mod::lemma_mod_bound(b, sp);
    vstd::arithmetic::div_mod::lemma_div_pos_is_pos(b, sp);
    assert(b / sp < pow2((14 - size_exponent) as nat)) by {
        vstd::arithmetic::div_mod::lemma_multiply_divide_lt(
            b,
            sp,
            pow2((14 - size_exponent) as nat) as int,
        );
    }
    assert(b + sp <= n) by {
        assert((n - b) % sp == 0) by {
            vstd::arithmetic::div_mod::lemma_small_mod(0, sp as nat);
            vstd::arithmetic::div_mod::lemma_sub_mod_noop(n, b, sp);
            vstd::arithmetic::div_mod::lemma_mod_multiples_basic(
                pow2((14 - size_exponent) as nat) as int,
                sp,
            );
            assert(n % sp == 0) by {
                vstd::arithmetic::div_mod::lemma_mod_multiples_basic(
                    pow2((14 - size_exponent) as nat) as int,
                    sp,
                );
                assert(n == pow2((14 - size_exponent) as nat) * sp) by (nonlinear_arith)
                    requires
                        n == sp * pow2((14 - size_exponent) as nat),
                ;
            }
        }
        if n - b < sp {
            vstd::arithmetic::div_mod::lemma_small_mod((n - b) as nat, sp as nat);
        }
    }
}

/// Coalescing law for one-page buddies: the parent of leaves `2k` and
/// `2k + 1` caches the two-page code exactly when both buddies are free;
/// with only one of them free it stays at the one-page code, and with both
/// used it reports nothing free.
pub proof fn lemma_coalescing(pages: Seq<bool>, index: int)
    ensures
        pages[2 * index] && pages[2 * index + 1] ==> tree_code(pages, 13, index) == 2,
        pages[2 * index] != pages[2 * index + 1] ==> tree_code(pages, 13, index) == 1,
        !pages[2 * index] && !pages[2 * index + 1] ==> tree_code(pages, 13, index) == 0,
{
    assert(tree_code(pages, 14, 2 * index) == (if pages[2 * index] {
        1u8
    } else {
        0u8
    }));
    assert(tree_code(pages, 14, 2 * index + 1) == (if pages[2 * index + 1] {
        1u8
    } else {
        0u8
    }));
}

/// A block's page range is the page range of its tree node.
proof fn lemma_block_is_node_range(index: int, size_exponent: int)
    requires
        0 <= size_exponent <= 14,
    ensures
        node_start(14 - size_exponent, index) == index * pow2(size_exponent as nat),
        node_start(14 - size_exponent, index) + node_span(14 - size_exponent) == (index + 1)
            * pow2(size_exponent as nat),
{
    let s = pow2(size_exponent as nat) as int;
    assert(node_span(14 - size_exponent) == s);
    assert(index * s + s == (index + 1) * s) by (nonlinear_arith);
}

/// Of two nodes, the deeper one's page range is contained in the shallower
/// one's when it is a descendant, and disjoint from it otherwise.
proof fn lemma_node_containment(d1: int, i1: int, d2: int, i2: int)
    requires
        0 <= d1 <= d2 <= 14,
        0 <= i1 < pow2(d1 as nat),
        0 <= i2 < pow2(d2 as nat),
    ensures
        i2 / (pow2((d2 - d1) as nat) as int) == i1 ==> node_start(d1, i1) <= node_start(d2, i2)
            && node_start(d2, i2) + node_span(d2) <= node_start(d1, i1) + node_span(d1),
        i2 / (pow2((d2 - d1) as nat) as int) != i1 ==> (node_start(d2, i2) + node_span(d2)
            <= node_start(d1, i1) || node_start(d1, i1) + node_span(d1) <= node_start(d2, i2)),
{
    let k = pow2((d2 - d1) as nat) as int;
    let s2 = node_span(d2);
    let s1 = node_span(d1);
    let q = i2 / k;
    let r = i2 % k;
    vstd::arithmetic::power2::lemma_pow2_pos((d2 - d1) as nat);
    vstd::arithmetic::power2::lemma_pow2_pos((14 - d2) as nat);
    assert(s1 == k * s2) by {
        vstd::arithmetic::power2::lemma_pow2_adds((d2 - d1) as nat, (14 - d2) as nat);
    }
    vstd::arithmetic::div_mod::lemma_fundamental_div_mod(i2, k);
    vstd::arithmetic::div_mod::lemma_mod_bound(i2, k);
    vstd::arithmetic::div_mod::lemma_div_pos_is_pos(i2, k);
    // The descendant's range sits inside the range of node `(d1, q)`.
    assert(i2 * s2 == q * s1 + r * s2 && q * s1 <= i2 * s2 && i2 * s2 + s2 <= q * s1 + s1 && (q
        + 1) * s1 == q * s1 + s1 && i1 * s1 + s1 == (i1 + 1) * s1) by (nonlinear_arith)
        requires
            i2 == q * k + r,
            s1 == k * s2,
            0 <= r < k,
            s2 >= 1,
            q >= 0,
            i1 >= 0,
    ;
    if q < i1 {
        assert((q + 1) * s1 <= i1 * s1) by (nonlinear_arith)
            requires
                q + 1 <= i1,
                s1 >= 1,
        ;
    } else if q > i1 {
        assert((i1 + 1) * s1 <= q * s1) by (nonlinear_arith)
            requires
                i1 + 1 <= q,
                s1 >= 1,
        ;
    }
}

/// Bit `p % 8` of byte `p / 8` of a bitmap.
pub open spec fn bitmap_bit(bytes: Seq<u8>, p: int) -> bool {
    (bytes[p / 8] >> ((p % 8) as u8)) & 1 == 1
}

/// Setting or clearing bit `k` of a byte leaves every other bit as it was.
proof fn lemma_byte_bit_update(val: u8, k: u8, j: u8)
    by (bit_vector)
    requires
        k < 8,
        j < 8,
    ensures
        ((val | (1u8 << k)) >> k) & 1 == 1,
        ((val & !(1u8 << k)) >> k) & 1 == 0,
        j != k ==> ((val | (1u8 << k)) >> j) & 1 == (val >> j) & 1,
        j != k ==> ((val & !(1u8 << k)) >> j) & 1 == (val >> j) & 1,
{
}

/// Packing a nibble into one half of a byte preserves the other half.
proof fn lemma_nibble_pack(val: u8, value: u8)
    by (bit_vector)
    requires
        value < 16,
    ensures
        ((val & 0xf0) | value) & 0x0f == value,
        ((val & 0xf0) | value) >> 4 == val >> 4,
        ((val & 0x0f) | (value << 4)) >> 4 == value,
        ((val & 0x0f) | (value << 4)) & 0x0f == val & 0x0f,
{
}

/// The physical index `(1 << depth) | index` of a tree node equals
/// `2^depth + index` and lies inside the nibble array.
proof fn lemma_physical_index(depth: u32, index: int)
    requires
        depth <= NIBBLE_TREE_DEPTH,
        0 <= index < pow2(depth as nat),
    ensures
        ((1usize << depth) | (index as usize)) == pow2(depth as nat) + index,
        pow2(depth as nat) + index < 4096,
        ((pow2(depth as nat) + index) as int) / 2 < TREE_BYTES,
{
    vstd::arithmetic::power2::lemma2_to64();
    assert(pow2(depth as nat) <= pow2(11)) by {
        if depth < 11 {
            vstd::arithmetic::power2::lemma_pow2_strictly_increases(depth as nat, 11);
        }
    }
    let p = pow2(depth as nat) as usize;
    assert((1usize << depth) == p) by {
        vstd::bits::lemma_usize_shl_is_mul(1usize, depth as usize);
    }
    assert(p | (index as usize) == p + index) by {
        let i = index as usize;
        let d32 = depth as usize;
        assert(((1usize << d32) | i) == (1usize << d32) + i) by (bit_vector)
            requires
                d32 < 12,
                i < (1usize << d32),
        ;
        assert((1usize << d32) == p) by {
            vstd::bits::lemma_usize_shl_is_mul(1usize, d32);
        }
    }
}

/// Distinct tree coordinates map to distinct physical indices, and two
/// nodes that share a byte of the nibble array are its two halves.
proof fn lemma_nibble_coords_distinct(d1: int, i1: int, d2: int, i2: int)
    requires
        0 <= d1,
        0 <= d2,
        0 <= i1 < pow2(d1 as nat),
        0 <= i2 < pow2(d2 as nat),
        !(d1 == d2 && i1 == i2),
    ensures
        pow2(d1 as nat) + i1 != pow2(d2 as nat) + i2,
        (pow2(d1 as nat) + i1) as int / 2 == (pow2(d2 as nat) + i2) as int / 2 ==> i1 % 2 != i2
            % 2,
{
    let p1 = pow2(d1 as nat) as int + i1;
    let p2 = pow2(d2 as nat) as int + i2;
    if d1 == d2 {
        assert(p1 != p2);
        if p1 / 2 == p2 / 2 {
            assert(d1 >= 1) by {
                vstd::arithmetic::power2::lemma2_to64();
            }
            lemma_node_index_parity(d1, i1);
            lemma_node_index_parity(d2, i2);
            if i1 % 2 == i2 % 2 {
                vstd::arithmetic::div_mod::lemma_fundamental_div_mod(p1, 2);
                vstd::arithmetic::div_mod::lemma_fundamental_div_mod(p2, 2);
            }
        }
    } else {
        let lo = if d1 < d2 { d1 } else { d2 };
        let hi = if d1 < d2 { d2 } else { d1 };
        let plo = if d1 < d2 { p1 } else { p2 };
        let phi = if d1 < d2 { p2 } else { p1 };
        let ihi = if d1 < d2 { i2 } else { i1 };
        // Nodes of a shallower depth have strictly smaller physical indices.
        assert(pow2((lo + 1) as nat) == 2 * pow2(lo as nat)) by {
            vstd::arithmetic::power2::lemma_pow2_adds(lo as nat, 1);
            vstd::arithmetic::power2::lemma2_to64();
        }
        if lo + 1 < hi {
            vstd::arithmetic::power2::lemma_pow2_strictly_increases((lo + 1) as nat, hi as nat);
        }
        assert(plo < pow2(hi as nat) <= phi);
        if p1 / 2 == p2 / 2 {
            // The two indices would have to be 2k and 2k + 1 with the larger
            // one a power of two; powers of two at depth 1 or more are even.
            vstd::arithmetic::div_mod::lemma_fundamental_div_mod(plo, 2);
            vstd::arithmetic::div_mod::lemma_fundamental_div_mod(phi, 2);
            assert(phi == plo + 1 && plo % 2 == 0);
            assert(phi == pow2(hi as nat) && ihi == 0);
            lemma_node_index_parity(hi, ihi);
            assert(phi % 2 == 0);
        }
    }
}

/// A node's physical index lies inside the nibble array.
proof fn lemma_node_bound(d: int, i: int)
    requires
        0 <= d <= NIBBLE_TREE_DEPTH,
        0 <= i < pow2(d as nat),
    ensures
        pow2(d as nat) + i < 4096,
{
    vstd::arithmetic::power2::lemma2_to64();
    if d < 11 {
        vstd::arithmetic::power2::lemma_pow2_strictly_increases(d as nat, 11);
    }
}

/// For depths at least 1, the physical index of a node has the parity of
/// its index, since the leading power of two is even.
proof fn lemma_node_index_parity(d: int, i: int)
    requires
        1 <= d,
        0 <= i,
    ensures
        (pow2(d as nat) + i) % 2 == i % 2,
{
    assert(pow2(d as nat) == 2 * pow2((d - 1) as nat)) by {
        vstd::arithmetic::power2::lemma_pow2_adds((d - 1) as nat, 1);
        vstd::arithmetic::power2::lemma2_to64();
    }
    assert(pow2(d as nat) % 2 == 0) by {
        vstd::arithmetic::div_mod::lemma_mod_multiples_basic(pow2((d - 1) as nat) as int, 2);
    }
    vstd::arithmetic::div_mod::lemma_add_mod_noop(pow2(d as nat) as int, i, 2);
    vstd::arithmetic::div_mod::lemma_mod_twice(i, 2);
}

/// The top-level tree: 2048 packed 32-bit nodes forming an implicit binary
/// tree of depth 10 whose 1024 leaves are the slots, and the contents of the
/// bottom-level tree page that backs each slot.  In the running kernel the
/// slot entry's address field points at that page; here the page contents
/// stand beside the node array, keyed by slot.
pub struct AvailableTopLevelVirtualMemory {
    data_blocks: Vec<u32>,
    trees: Vec<Option<AvailableBottomLevelVirtualMemory>>,
}

impl AvailableTopLevelVirtualMemory {
    /// The raw 32-bit node at tree coordinates `(depth, index)`.
    pub closed spec fn entry_at(self, depth: int, index: int) -> u32 {
        self.data_blocks@[pow2(depth as nat) as int + index]
    }

    /// Whether a slot has a backing bottom-level tree.
    pub closed spec fn backed(self, slot: int) -> bool {
        self.trees@[slot] is Some
    }

    /// The backing page address recorded in a slot (0 when unbacked).
    pub closed spec fn slot_addr(self, slot: int) -> usize {
        entry_addr(self.entry_at(10, slot))
    }

    /// The availability code of a slot: the root code of its backing tree,
    /// or the fully-free code for an unbacked slot, which is lazily a whole
    /// free tree.
    pub closed spec fn slot_code(self, slot: int) -> u8 {
        if self.trees@[slot] is Some {
            self.trees@[slot]->Some_0.root_code()
        } else {
            full_code(0)
        }
    }

    /// The codes of all 1024 slots.
    pub closed spec fn slot_codes(self) -> Seq<u8> {
        Seq::new(1024, |s: int| self.slot_code(s))
    }

    /// Availability of the 16384 pages of one slot; every page of an
    /// unbacked slot is free.
    pub closed spec fn slot_pages(self, slot: int) -> Seq<bool> {
        if self.backed(slot) {
            self.trees@[slot]->Some_0.pages()
        } else {
            Seq::new(BOTTOM_PAGE_COUNT as nat, |p: int| true)
        }
    }

    /// The cached code of the whole address space: the largest free aligned
    /// block anywhere, encoded as exponent plus one.
    pub open spec fn root_exponent_code(self) -> u8 {
        top_code(self.slot_codes(), 0, 0)
    }

    /// Both arrays have their fixed sizes.
    pub closed spec fn storage_wf(self) -> bool {
        self.data_blocks@.len() == 2 * TOP_SLOT_COUNT && self.trees@.len() == TOP_SLOT_COUNT
    }

    /// Well-formedness: the arrays have their fixed sizes; backing trees are
    /// well-formed; backed slots record distinct aligned nonzero addresses;
    /// every node caches the largest slot code of its subtree.
    pub closed spec fn wf(self) -> bool {
        &&& self.storage_wf()
        &&& forall|s: int|
            0 <= s < TOP_SLOT_COUNT && self.backed(s) ==> (#[trigger] self.trees@[s])->Some_0.wf()
        &&& forall|s: int|
            0 <= s < TOP_SLOT_COUNT ==> ((#[trigger] self.slot_addr(s) != 0) <==> self.backed(s))
        &&& forall|s: int|
            0 <= s < TOP_SLOT_COUNT && self.backed(s) ==> (#[trigger] self.slot_addr(s)) % PAGE_SIZE
                == 0
        &&& forall|s1: int, s2: int|
            0 <= s1 < TOP_SLOT_COUNT && 0 <= s2 < TOP_SLOT_COUNT && s1 != s2 && self.backed(s1)
                && self.backed(s2) ==> #[trigger] self.slot_addr(s1) != #[trigger] self.slot_addr(
                s2,
            )
        &&& forall|d: int, i: int|
            0 <= d <= 10 && 0 <= i < pow2(d as nat) ==> entry_code(#[trigger] self.entry_at(d, i))
                == top_code(self.slot_codes(), d, i)
    }

    /// Every backing page is owned by this tracker: allocated in the given
    /// allocator and never handed out again until released.
    pub open spec fn backing_ok(self, pa: PageAllocator) -> bool {
        forall|s: int|
            0 <= s < TOP_SLOT_COUNT && self.backed(s) ==> pa.is_allocated(
                #[trigger] self.slot_addr(s),
            )
    }

    /// Read the cached availability code of a top-level tree node.
    pub fn get_at_tree_coords(&self, depth: u32, index: usize) -> (r: u8)
        requires
            self.wf(),
            depth <= 10,
            index < pow2(depth as nat),
        ensures
            r == top_code(self.slot_codes(), depth as int, index as int),
    {
        proof {
            lemma_top_physical_index(depth as int, index as int);
        }
        let physical_index: usize = (1usize << depth) | index;
        let val = self.data_blocks[physical_index];
        proof {
            assert(val == self.entry_at(depth as int, index as int));
            assert(entry_code(self.entry_at(depth as int, index as int)) == top_code(
                self.slot_codes(),
                depth as int,
                index as int,
            ));
        }
        ((val >> 4) & 0xf) as u8
    }

    /// Store a top-level node, leaving every other node and all backing
    /// trees unchanged.
    fn set_node(&mut self, depth: u32, index: usize, entry: u32)
        requires
            old(self).data_blocks@.len() == 2 * TOP_SLOT_COUNT,
            depth <= 10,
            index < pow2(depth as nat),
        ensures
            final(self).data_blocks@.len() == 2 * TOP_SLOT_COUNT,
            final(self).trees@ == old(self).trees@,
            final(self).entry_at(depth as int, index as int) == entry,
            forall|d: int, i: int|
                0 <= d <= 10 && 0 <= i < pow2(d as nat) && !(d == depth && i == index)
                    ==> #[trigger] final(self).entry_at(d, i) == old(self).entry_at(d, i),
    {
        proof {
            lemma_top_physical_index(depth as int, index as int);
        }
        let physical_index: usize = (1usize << depth) | index;
        self.data_blocks[physical_index] = entry;
        proof {
            assert forall|d: int, i: int|
                0 <= d <= 10 && 0 <= i < pow2(d as nat) && !(d == depth && i
                    == index) implies #[trigger] self.entry_at(d, i) == old(self).entry_at(d, i) by {
                lemma_top_physical_index(d, i);
                lemma_nibble_coords_distinct(d, i, depth as int, index as int);
            }
        }
    }

    /// A fresh tracker: every slot unbacked, every cached code fully free.
    pub fn new() -> (r: Self)
        ensures
            r.wf(),
            forall|s: int| 0 <= s < TOP_SLOT_COUNT ==> !(#[trigger] r.backed(s)),
            r.root_exponent_code() == full_code(0),
    {
        let mut data_blocks: Vec<u32> = Vec::new();
        let mut k: usize = 0;
        while k < 2 * TOP_SLOT_COUNT
            invariant
                data_blocks@.len() == k,
                k <= 2 * TOP_SLOT_COUNT,
                forall|j: int| 0 <= j < k ==> data_blocks@[j] == 0xf0u32,
            decreases 2 * TOP_SLOT_COUNT - k,
        {
            data_blocks.push(0xf0);
            k += 1;
        }
        let mut trees: Vec<Option<AvailableBottomLevelVirtualMemory>> = Vec::new();
        let mut k2: usize = 0;
        while k2 < TOP_SLOT_COUNT
            invariant
                trees@.len() == k2,
                k2 <= TOP_SLOT_COUNT,
                forall|j: int| 0 <= j < k2 ==> trees@[j] is None,
            decreases TOP_SLOT_COUNT - k2,
        {
            trees.push(None);
            k2 += 1;
        }
        let r = AvailableTopLevelVirtualMemory { data_blocks, trees };
        proof {
            assert(entry_code(0xf0u32) == 15 && entry_addr(0xf0u32) == 0) by (bit_vector);
            assert(forall|s: int| 0 <= s < 1024 ==> r.slot_codes()[s] == full_code(0));
            assert forall|s: int| 0 <= s < TOP_SLOT_COUNT implies #[trigger] r.slot_addr(s)
                == 0 by {
                vstd::arithmetic::power2::lemma2_to64();
                lemma_top_physical_index(10, s);
            }
            assert forall|d: int, i: int|
                0 <= d <= 10 && 0 <= i < pow2(d as nat) implies entry_code(
                #[trigger] r.entry_at(d, i),
            ) == top_code(r.slot_codes(), d, i) by {
                lemma_top_physical_index(d, i);
                lemma_top_code_const(r.slot_codes(), d, i, full_code(0));
            }
            assert(r.root_exponent_code() == full_code(0)) by {
                vstd::arithmetic::power2::lemma2_to64();
                lemma_top_code_const(r.slot_codes(), 0, 0, full_code(0));
            }
        }
        r
    }
}

impl AvailableTopLevelVirtualMemory {
    /// The backing-page address recorded in a slot; 0 when the slot has no
    /// backing tree.
    pub fn slot_address(&self, slot: usize) -> (r: usize)
        requires
            self.storage_wf(),
            slot < TOP_SLOT_COUNT,
        ensures
            r == self.slot_addr(slot as int),
    {
        proof {
            vstd::arithmetic::power2::lemma2_to64();
            lemma_top_physical_index(10, slot as int);
        }
        let physical_index: usize = (1usize << 10u32) | slot;
        let val = self.data_blocks[physical_index];
        ((val >> 8) as usize) << 4
    }

    /// The raw cached code of a node, read without assuming the tree
    /// invariant.
    fn get_node_code(&self, depth: u32, index: usize) -> (r: u8)
        requires
            self.data_blocks@.len() == 2 * TOP_SLOT_COUNT,
            depth <= 10,
            index < pow2(depth as nat),
        ensures
            r == entry_code(self.entry_at(depth as int, index as int)),
    {
        proof {
            lemma_top_physical_index(depth as int, index as int);
        }
        let physical_index: usize = (1usize << depth) | index;
        let val = self.data_blocks[physical_index];
        ((val >> 4) & 0xf) as u8
    }

    /// Recompute the cached codes of a slot's ancestors, bottom up,
    /// restoring the top-level tree invariant after the slot's code changed.
    fn fix_top_path(&mut self, slot: usize)
        requires
            old(self).data_blocks@.len() == 2 * TOP_SLOT_COUNT,
            old(self).trees@.len() == TOP_SLOT_COUNT,
            slot < TOP_SLOT_COUNT,
            forall|d: int, i: int|
                0 <= d <= 10 && 0 <= i < pow2(d as nat) && !(d < 10 && i == (slot as int) / (pow2(
                    (10 - d) as nat,
                ) as int)) ==> entry_code(#[trigger] old(self).entry_at(d, i)) == top_code(
                    old(self).slot_codes(),
                    d,
                    i,
                ),
        ensures
            final(self).data_blocks@.len() == 2 * TOP_SLOT_COUNT,
            final(self).trees@ == old(self).trees@,
            forall|s: int|
                0 <= s < TOP_SLOT_COUNT ==> #[trigger] final(self).entry_at(10, s) == old(self).entry_at(10, s),
            forall|d: int, i: int|
                0 <= d <= 10 && 0 <= i < pow2(d as nat) ==> entry_code(
                    #[trigger] final(self).entry_at(d, i),
                ) == top_code(final(self).slot_codes(), d, i),
    {
        proof {
            vstd::arithmetic::power2::lemma2_to64();
        }
        let mut dplus: u32 = 10;
        while dplus > 0
            invariant
                self.data_blocks@.len() == 2 * TOP_SLOT_COUNT,
                self.trees@ == old(self).trees@,
                slot < TOP_SLOT_COUNT,
                dplus <= 10,
                self.slot_codes() == old(self).slot_codes(),
                forall|s: int|
                    0 <= s < TOP_SLOT_COUNT ==> #[trigger] self.entry_at(10, s) == old(self).entry_at(10, s),
                forall|d: int, i: int|
                    0 <= d <= 10 && 0 <= i < pow2(d as nat) && !(d < dplus && i == (slot as int)
                        / (pow2((10 - d) as nat) as int)) ==> entry_code(
                        #[trigger] self.entry_at(d, i),
                    ) == top_code(self.slot_codes(), d, i),
            decreases dplus,
        {
            let d: u32 = dplus - 1;
            let shift: u32 = 10 - d;
            let anc: usize = slot >> shift;
            proof {
                vstd::arithmetic::power2::lemma2_to64();
                vstd::bits::lemma_usize_shr_is_div(slot, shift as usize);
                vstd::arithmetic::power2::lemma_pow2_adds((10 - d) as nat, d as nat);
                vstd::arithmetic::power2::lemma_pow2_pos((10 - d) as nat);
                assert(anc as int == (slot as int) / (pow2((10 - d) as nat) as int));
                assert((slot as int) / (pow2((10 - d) as nat) as int) < pow2(d as nat)) by {
                    vstd::arithmetic::div_mod::lemma_multiply_divide_lt(
                        slot as int,
                        pow2((10 - d) as nat) as int,
                        pow2(d as nat) as int,
                    );
                }
                vstd::arithmetic::power2::lemma_pow2_adds((10 - d - 1) as nat, (d + 1) as nat);
                vstd::arithmetic::power2::lemma_pow2_pos((10 - d - 1) as nat);
                assert((slot as int) / (pow2((10 - d - 1) as nat) as int) / 2 == (slot as int) / (
                pow2((10 - d) as nat) as int)) by {
                    vstd::arithmetic::div_mod::lemma_div_denominator(
                        slot as int,
                        pow2((10 - d - 1) as nat) as int,
                        2,
                    );
                    assert(pow2((10 - d - 1) as nat) * 2 == pow2((10 - d) as nat)) by {
                        vstd::arithmetic::power2::lemma_pow2_adds((10 - d - 1) as nat, 1);
                    }
                }
                assert((slot as int) / (pow2((10 - d - 1) as nat) as int) < pow2((d + 1) as nat))
                    by {
                    vstd::arithmetic::div_mod::lemma_multiply_divide_lt(
                        slot as int,
                        pow2((10 - d - 1) as nat) as int,
                        pow2((d + 1) as nat) as int,
                    );
                }
                vstd::arithmetic::div_mod::lemma_div_pos_is_pos(
                    slot as int,
                    pow2((10 - d - 1) as nat) as int,
                );
                let next_anc = (slot as int) / (pow2((10 - d - 1) as nat) as int);
                vstd::arithmetic::div_mod::lemma_fundamental_div_mod(next_anc, 2);
                vstd::arithmetic::div_mod::lemma_mod_bound(next_anc, 2);
                assert(next_anc == 2 * (anc as int) || next_anc == 2 * (anc as int) + 1);
                vstd::arithmetic::power2::lemma_pow2_adds(d as nat, 1);
            }
            let left = self.get_node_code(d + 1, 2 * anc);
            let right = self.get_node_code(d + 1, 2 * anc + 1);
            let combined: u8 = if left >= right {
                left
            } else {
                right
            };
            proof {
                lemma_entry_code_bound(self.entry_at(d as int + 1, 2 * (anc as int)));
                lemma_entry_code_bound(self.entry_at(d as int + 1, 2 * (anc as int) + 1));
                assert(left == top_code(self.slot_codes(), d as int + 1, 2 * (anc as int)));
                assert(right == top_code(self.slot_codes(), d as int + 1, 2 * (anc as int) + 1));
                assert(combined == top_code(self.slot_codes(), d as int, anc as int));
                lemma_entry_code_pack(combined);
            }
            let ghost mid = *self;
            self.set_node(d, anc, (combined as u32) << 4);
            proof {
                assert(self.slot_codes() =~= mid.slot_codes());
            }
            dplus = d;
        }
    }

    /// Find and reserve a free aligned block of `2^size_exponent` pages
    /// anywhere in the address space: descend the top-level tree to the
    /// lowest slot whose cached code allows the request, back that slot with
    /// a freshly allocated physical page if it has no bottom-level tree yet,
    /// and reserve the lowest free block inside it.  Returns the page index
    /// of the block's first page, or `None` when the cached root code rules
    /// the request out or a needed backing page cannot be allocated.
    pub fn find_and_reserve(
        &mut self,
        page_allocator: &mut PageAllocator,
        size_exponent: u8,
    ) -> (r: Option<usize>)
        requires
            old(self).wf(),
            old(page_allocator).wf(),
            old(self).backing_ok(*old(page_allocator)),
            size_exponent <= 14,
            old(page_allocator).base() >= PAGE_SIZE,
            old(page_allocator).ceiling() <= 0x1000_0000,
        ensures
            final(self).wf(),
            final(page_allocator).wf(),
            final(self).backing_ok(*final(page_allocator)),
            final(page_allocator).base() == old(page_allocator).base(),
            final(page_allocator).ceiling() == old(page_allocator).ceiling(),
            r is Some ==> old(self).root_exponent_code() >= size_exponent + 1,
            forall|s: int|
                0 <= s < TOP_SLOT_COUNT && old(self).slot_codes()[s] >= size_exponent + 1 && (
                forall|t: int| 0 <= t < s ==> old(self).slot_codes()[t] < size_exponent + 1) && (
                old(self).backed(s) || old(page_allocator).can_allocate()) ==> r is Some,
            old(self).root_exponent_code() >= size_exponent + 1 && old(page_allocator).can_allocate() ==> r is Some,
            r is None ==> *final(self) == *old(self) && final(page_allocator).free_list() == old(page_allocator).free_list() && final(page_allocator).frontier() == old(page_allocator).frontier(),
            r matches Some(idx) ==> {
                let s = idx as int / (BOTTOM_PAGE_COUNT as int);
                let b = idx as int % (BOTTOM_PAGE_COUNT as int);
                &&& 0 <= s < TOP_SLOT_COUNT
                &&& b + pow2(size_exponent as nat) <= BOTTOM_PAGE_COUNT
                &&& b % (pow2(size_exponent as nat) as int) == 0
                &&& (forall|p: int|
                    b <= p < b + pow2(size_exponent as nat) ==> old(self).slot_pages(s)[p])
                &&& (forall|p: int|
                    0 <= p < BOTTOM_PAGE_COUNT ==> final(self).slot_pages(s)[p] == (if b <= p < b
                        + pow2(size_exponent as nat) {
                        false
                    } else {
                        old(self).slot_pages(s)[p]
                    }))
                &&& (forall|t: int|
                    0 <= t < TOP_SLOT_COUNT && t != s ==> final(self).slot_pages(t) == old(self).slot_pages(t) && final(self).backed(t) == old(self).backed(t) && final(self).slot_addr(t) == old(self).slot_addr(t))
                &&& (forall|t: int, blk: int|
                    0 <= t < s && 0 <= blk < pow2((14 - size_exponent) as nat) ==> !block_free(
                        old(self).slot_pages(t),
                        size_exponent as int,
                        blk,
                    ))
                &&& (forall|blk: int|
                    0 <= blk < b / (pow2(size_exponent as nat) as int) ==> !block_free(
                        old(self).slot_pages(s),
                        size_exponent as int,
                        blk,
                    ))
                &&& final(self).backed(s)
                &&& old(self).backed(s) ==> final(page_allocator).free_list() == old(page_allocator).free_list() && final(page_allocator).frontier() == old(page_allocator).frontier() && final(self).slot_addr(s) == old(self).slot_addr(s)
                &&& !old(self).backed(s) ==> final(page_allocator).free_page_count() + final(page_allocator).unused_page_count() + 1 == old(page_allocator).free_page_count() + old(page_allocator).unused_page_count()
            },
    {
        let size_code = size_exponent + 1;
        proof {
            vstd::arithmetic::power2::lemma2_to64();
        }
        let root = self.get_at_tree_coords(0, 0);
        if root < size_code {
            proof {
                // No slot can allow the request when the cached root does
                // not: the root is the maximum of all slot codes.
                lemma_top_code_max(self.slot_codes(), 0, 0);
                assert forall|s: int|
                    0 <= s < TOP_SLOT_COUNT implies #[trigger] self.slot_codes()[s]
                    < size_code by {
                    assert((0int) * pow2(10) <= s < (1int) * pow2(10)) by (nonlinear_arith)
                        requires
                            0 <= s < 1024,
                            pow2(10) == 1024,
                    ;
                }
            }
            return None;
        }
        // Descend to the lowest slot whose cached code allows the request.
        let mut index: usize = 0;
        let mut depth: u32 = 0;
        proof {
            vstd::arithmetic::power2::lemma2_to64();
        }
        while depth < 10
            invariant
                *self == *old(self),
                *page_allocator == *old(page_allocator),
                self.wf(),
                size_exponent <= 14,
                size_code == size_exponent + 1,
                depth <= 10,
                index < pow2(depth as nat),
                top_code(self.slot_codes(), depth as int, index as int) >= size_code,
                forall|t: int|
                    0 <= t < (index as int) * (pow2((10 - depth) as nat) as int) ==> (
                    #[trigger] self.slot_codes()[t]) < size_code,
            decreases 10 - depth,
        {
            let ghost m = (10 - depth) as nat;
            let ghost mc = (10 - depth - 1) as nat;
            proof {
                vstd::arithmetic::power2::lemma2_to64();
                vstd::arithmetic::power2::lemma_pow2_adds(depth as nat, 1);
                vstd::arithmetic::power2::lemma_pow2_adds(mc, 1);
                vstd::arithmetic::power2::lemma_pow2_pos(mc);
                assert((2 * index) * pow2(mc) == index * pow2(m) && (2 * index + 1) * pow2(mc)
                    == index * pow2(m) + pow2(mc) && (2 * index + 2) * pow2(mc) == (index + 1)
                    * pow2(m)) by (nonlinear_arith)
                    requires
                        pow2(m) == 2 * pow2(mc),
                ;
            }
            let left_code = self.get_at_tree_coords(depth + 1, 2 * index);
            if left_code >= size_code {
                index = 2 * index;
            } else {
                proof {
                    assert(top_code(self.slot_codes(), depth as int + 1, 2 * (index as int) + 1)
                        >= size_code);
                    lemma_top_code_max(self.slot_codes(), depth as int + 1, 2 * (index as int));
                    assert forall|t: int|
                        0 <= t < (2 * (index as int) + 1) * (pow2(mc) as int) implies (
                    #[trigger] self.slot_codes()[t]) < size_code by {
                        if t >= (2 * (index as int)) * (pow2(mc) as int) {
                            assert(self.slot_codes()[t] <= top_code(
                                self.slot_codes(),
                                depth as int + 1,
                                2 * (index as int),
                            ));
                        }
                    }
                }
                index = 2 * index + 1;
            }
            depth = depth + 1;
        }
        let slot = index;
        proof {
            vstd::arithmetic::power2::lemma2_to64();
            assert((slot as int) * (pow2(0) as int) == slot as int) by (nonlinear_arith)
                requires
                    pow2(0) == 1,
            ;
            assert(self.slot_codes()[slot as int] >= size_code);
        }
        // Back the slot with a fresh bottom-level tree if it has none.
        let ghost orig = *self;
        let ghost orig_pa = *page_allocator;
        let addr0 = self.slot_address(slot);
        if addr0 == 0 {
            let ok = self.back_slot(page_allocator, slot);
            if !ok {
                proof {
                    // The chosen slot is the one eligible slot with nothing
                    // before it; it was unbacked and no page was left.
                    assert forall|s: int|
                        0 <= s < TOP_SLOT_COUNT && orig.slot_codes()[s] >= size_code && (forall|
                            t: int,
                        | 0 <= t < s ==> orig.slot_codes()[t] < size_code) implies s
                        == slot as int && !orig.backed(s) by {
                        if s < slot as int {
                            assert(orig.slot_codes()[s] < size_code);
                        } else if s > slot as int {
                            assert(orig.slot_codes()[slot as int] < size_code);
                        }
                    }
                }
                return None;
            }
        }
        let ghost backed_self = *self;
        // Reserve the lowest free block inside the slot's tree.
        proof {
            assert(backed_self.slot_codes()[slot as int] >= size_code);
        }
        let block = self.reserve_in_slot(slot, size_exponent);
        proof {
            lemma_reserve_result(slot as int, block as int, size_exponent as int);
            vstd::bits::lemma_usize_shl_is_mul(block, size_exponent as usize);
            vstd::arithmetic::power2::lemma2_to64();
        }
        let base = slot * BOTTOM_PAGE_COUNT + (block << size_exponent);
        let ghost b = (block as int) * pow2(size_exponent as nat);
        proof {
            // Relate the result's slot and in-slot page index to the
            // quantities the contract speaks of.
            assert(base as int == (slot as int) * (BOTTOM_PAGE_COUNT as int) + b);
            vstd::arithmetic::div_mod::lemma_fundamental_div_mod_converse(
                base as int,
                BOTTOM_PAGE_COUNT as int,
                slot as int,
                b,
            );
            assert((block as int + 1) * (pow2(size_exponent as nat) as int) == b + pow2(
                size_exponent as nat,
            )) by (nonlinear_arith)
                requires
                    b == (block as int) * pow2(size_exponent as nat),
            ;
            assert(b / (pow2(size_exponent as nat) as int) == block as int) by {
                vstd::arithmetic::div_mod::lemma_fundamental_div_mod_converse(
                    b,
                    pow2(size_exponent as nat) as int,
                    block as int,
                    0,
                );
            }
            // The backing step leaves every slot's pages as they were, so
            // the contract's statements about the state before the call
            // follow.
            assert forall|t: int|
                0 <= t < TOP_SLOT_COUNT implies orig.slot_pages(t) =~= backed_self.slot_pages(t) by {
                if addr0 == 0 {
                    if t == slot as int {
                        assert(!orig.backed(t));
                        assert(forall|p: int|
                            0 <= p < BOTTOM_PAGE_COUNT ==> backed_self.slot_pages(t)[p]);
                        assert(orig.slot_pages(t) =~= backed_self.slot_pages(t));
                    } else {
                        assert(backed_self.slot_pages(t) == orig.slot_pages(t));
                    }
                }
            }
            // Every earlier slot has no free block of the requested size.
            assert forall|t: int, blk: int|
                0 <= t < slot as int && 0 <= blk < pow2(
                    (14 - size_exponent) as nat,
                ) implies !block_free(orig.slot_pages(t), size_exponent as int, blk) by {
                assert(orig.slot_codes()[t] < size_code);
                assert(orig.backed(t));
                let tp = orig.trees@[t]->Some_0.pages();
                lemma_tree_code_block(tp, 0, 0, size_exponent as int);
                vstd::arithmetic::power2::lemma2_to64();
                assert((0int) * (pow2((14 - size_exponent) as nat) as int) == 0 && (1int) * (pow2(
                    (14 - size_exponent) as nat,
                ) as int) == pow2((14 - size_exponent) as nat)) by (nonlinear_arith);
                assert(!block_free(tp, size_exponent as int, blk));
            }
            assert forall|blk: int|
                0 <= blk < block as int implies !block_free(
                orig.slot_pages(slot as int),
                size_exponent as int,
                blk,
            ) by {
                assert(!block_free(backed_self.slot_pages(slot as int), size_exponent as int, blk));
                assert(orig.slot_pages(slot as int) =~= backed_self.slot_pages(slot as int));
            }
        }
        Some(base)
    }

    /// Release a reserved aligned block of `2^size_exponent` pages at the
    /// given page index, coalescing freed buddies in the cached codes.  A
    /// bottom-level tree that becomes entirely free gives its backing page
    /// back to the allocator and leaves its slot unbacked.  The caller
    /// guarantees that the block was reserved by `find_and_reserve` and not
    /// released since.
    pub fn release(
        &mut self,
        page_allocator: &mut PageAllocator,
        base_index: usize,
        size_exponent: u8,
    )
        requires
            old(self).wf(),
            old(page_allocator).wf(),
            old(self).backing_ok(*old(page_allocator)),
            size_exponent <= 14,
            base_index < TOP_SLOT_COUNT * BOTTOM_PAGE_COUNT,
            (base_index as int) % (pow2(size_exponent as nat) as int) == 0,
            forall|p: int|
                (base_index as int) % (BOTTOM_PAGE_COUNT as int) <= p < (base_index as int) % (
                BOTTOM_PAGE_COUNT as int) + pow2(size_exponent as nat) ==> !(#[trigger] old(self).slot_pages((base_index as int) / (BOTTOM_PAGE_COUNT as int))[p]),
        ensures
            final(self).wf(),
            final(page_allocator).wf(),
            final(self).backing_ok(*final(page_allocator)),
            final(page_allocator).base() == old(page_allocator).base(),
            final(page_allocator).ceiling() == old(page_allocator).ceiling(),
            final(page_allocator).frontier() == old(page_allocator).frontier(),
            ({
                let s = (base_index as int) / (BOTTOM_PAGE_COUNT as int);
                let b = (base_index as int) % (BOTTOM_PAGE_COUNT as int);
                &&& (forall|p: int|
                    0 <= p < BOTTOM_PAGE_COUNT ==> final(self).slot_pages(s)[p] == (if b <= p < b
                        + pow2(size_exponent as nat) {
                        true
                    } else {
                        old(self).slot_pages(s)[p]
                    }))
                &&& (forall|t: int|
                    0 <= t < TOP_SLOT_COUNT && t != s ==> final(self).slot_pages(t) == old(self).slot_pages(t) && final(self).backed(t) == old(self).backed(t) && final(self).slot_addr(t) == old(self).slot_addr(t))
                &&& (!final(self).backed(s) <==> (forall|p: int|
                    0 <= p < BOTTOM_PAGE_COUNT ==> final(self).slot_pages(s)[p]))
                &&& (!final(self).backed(s) ==> final(page_allocator).free_list() == seq![
                    old(self).slot_addr(s),
                ] + old(page_allocator).free_list())
                &&& (final(self).backed(s) ==> final(page_allocator).free_list() == old(page_allocator).free_list() && final(self).slot_addr(s) == old(self).slot_addr(s))
            }),
    {
        proof {
            vstd::arithmetic::power2::lemma2_to64();
        }
        let slot = base_index / BOTTOM_PAGE_COUNT;
        let b = base_index % BOTTOM_PAGE_COUNT;
        let ghost orig = *self;
        let ghost orig_pa = *page_allocator;
        proof {
            lemma_release_decompose(base_index as int, size_exponent as int);
            vstd::arithmetic::power2::lemma_pow2_pos(size_exponent as nat);
            assert(!orig.slot_pages(slot as int)[b as int]);
            assert(orig.backed(slot as int));
        }
        let block = b >> size_exponent;
        proof {
            vstd::bits::lemma_usize_shr_is_div(b, size_exponent as usize);
        }
        let slot_ref = &mut self.trees[slot];
        let tree_opt = slot_ref.take();
        let mut tree = tree_opt.unwrap();
        proof {
            assert(tree == orig.trees@[slot as int]->Some_0);
            assert(tree.wf());
            lemma_block_is_node_range(block as int, size_exponent as int);
        }
        tree.release(block, size_exponent);
        let new_code = tree.get_at_coords(0, 0);
        proof {
            lemma_tree_code_le(tree.pages(), 0, 0);
            lemma_tree_code_full(tree.pages(), 0, 0);
            assert(node_start(0, 0) == 0);
            assert(node_span(0) == BOTTOM_PAGE_COUNT);
        }
        let address = self.slot_address(slot);
        proof {
            assert(address == orig.slot_addr(slot as int));
            assert(address % PAGE_SIZE == 0 && address != 0);
            lemma_entry_addr_bound(orig.entry_at(10, slot as int));
        }
        if new_code == 15 {
            // The tree is entirely free again: return its backing page and
            // clear the slot.
            self.trees[slot] = None;
            self.set_node(10, slot, 0xf0);
            proof {
                assert(entry_code(0xf0u32) == 15 && entry_addr(0xf0u32) == 0) by (bit_vector);
                assert(self.slot_addr(slot as int) == 0 && !self.backed(slot as int));
                assert(self.slot_codes() =~= orig.slot_codes().update(slot as int, 15u8));
                assert(orig_pa.is_allocated(address));
            }
            page_allocator.free_page(Page::at_address(address));
        } else {
            self.trees[slot] = Some(tree);
            proof {
                lemma_slot_entry_pack(address, new_code);
            }
            let entry2: u32 = (((address >> 4) as u32) << 8) | ((new_code as u32) << 4);
            self.set_node(10, slot, entry2);
            proof {
                assert(self.backed(slot as int) && self.slot_addr(slot as int) == address);
                assert(self.slot_codes() =~= orig.slot_codes().update(slot as int, new_code));
            }
        }
        proof {
            // Away from the slot the cached codes still hold, since only
            // this slot's code changed.
            assert(forall|t: int|
                0 <= t < TOP_SLOT_COUNT && t != slot as int ==> #[trigger] self.slot_codes()[t]
                    == orig.slot_codes()[t]);
            assert(entry_code(self.entry_at(10, slot as int)) == self.slot_codes()[slot as int]);
            assert forall|d: int, i: int|
                0 <= d <= 10 && 0 <= i < pow2(d as nat) && !(d < 10 && i == (slot as int) / (pow2(
                    (10 - d) as nat,
                ) as int)) implies entry_code(#[trigger] self.entry_at(d, i)) == top_code(
                self.slot_codes(),
                d,
                i,
            ) by {
                if !(d == 10 && i == slot as int) {
                    assert(self.entry_at(d, i) == orig.entry_at(d, i));
                    if d == 10 {
                        assert(self.slot_codes()[i] == orig.slot_codes()[i]);
                    } else {
                        lemma_slot_in_subtree(d, i, slot as int);
                        vstd::arithmetic::power2::lemma_pow2_adds(d as nat, (10 - d) as nat);
                        assert((i + 1) * (pow2((10 - d) as nat) as int) <= pow2(10)) by (nonlinear_arith)
                            requires
                                i + 1 <= pow2(d as nat),
                                pow2(d as nat) * pow2((10 - d) as nat) == pow2(10),
                        ;
                        assert forall|t: int|
                            #![trigger self.slot_codes()[t]]
                            i * pow2((10 - d) as nat) <= t < (i + 1) * pow2(
                                (10 - d) as nat,
                            ) implies self.slot_codes()[t] == orig.slot_codes()[t] by {
                            lemma_top_in_range(d, i, t);
                            assert(0 <= t < 1024);
                            assert(t != slot as int);
                        }
                        lemma_top_code_frame(self.slot_codes(), orig.slot_codes(), d, i);
                    }
                }
            }
        }
        self.fix_top_path(slot);
        proof {
            assert forall|t: int|
                0 <= t < TOP_SLOT_COUNT && t != slot implies #[trigger] self.slot_addr(t)
                == orig.slot_addr(t) && self.backed(t) == orig.backed(t) by {
                assert(self.entry_at(10, t) == orig.entry_at(10, t));
            }
            assert forall|s1: int, s2: int|
                0 <= s1 < TOP_SLOT_COUNT && 0 <= s2 < TOP_SLOT_COUNT && s1 != s2 && self.backed(s1)
                    && self.backed(s2) implies #[trigger] self.slot_addr(s1)
                != #[trigger] self.slot_addr(s2) by {}
            assert(self.wf());
            assert forall|t: int|
                0 <= t < TOP_SLOT_COUNT && self.backed(t) implies page_allocator.is_allocated(
                #[trigger] self.slot_addr(t),
            ) by {
                assert(orig.backed(t) && self.slot_addr(t) == orig.slot_addr(t));
                assert(orig_pa.is_allocated(orig.slot_addr(t)));
                if !self.backed(slot as int) {
                    // The freed backing page differs from every other one.
                    assert(orig.slot_addr(t) != address);
                }
            }
            assert forall|t: int|
                0 <= t < TOP_SLOT_COUNT && t != slot implies final(self).slot_pages(t) == old(self).slot_pages(t) by {
                if !orig.backed(t) {
                    assert(self.slot_pages(t) =~= orig.slot_pages(t));
                }
            }
            // Relate the slot's new page view to the released range.
            let s_i = slot as int;
            let b_i = b as int;
            let sp = pow2(size_exponent as nat) as int;
            assert((block as int) * sp == b_i && (block as int + 1) * sp == b_i + sp);
            assert(orig.slot_pages(s_i) == orig.trees@[s_i]->Some_0.pages());
            assert forall|p: int| 0 <= p < BOTTOM_PAGE_COUNT implies self.slot_pages(s_i)[p] == (
            if b_i <= p < b_i + sp {
                true
            } else {
                orig.slot_pages(s_i)[p]
            }) by {
                if self.backed(s_i) {
                    assert(self.slot_pages(s_i) == tree.pages());
                } else {
                    assert(tree.root_code() == full_code(0));
                    assert(tree.pages()[p]);
                    assert(self.slot_pages(s_i)[p]);
                }
            }
            assert(!self.backed(s_i) <==> (forall|p: int|
                0 <= p < BOTTOM_PAGE_COUNT ==> self.slot_pages(s_i)[p])) by {
                if self.backed(s_i) {
                    assert(tree.root_code() != full_code(0));
                    assert(!(forall|p: int|
                        0 <= p < BOTTOM_PAGE_COUNT ==> #[trigger] tree.pages()[p])) by {
                        if forall|p: int| 0 <= p < BOTTOM_PAGE_COUNT ==> #[trigger] tree.pages()[p] {
                            assert(forall|p: int|
                                node_start(0, 0) <= p < node_start(0, 0) + node_span(0)
                                    ==> tree.pages()[p]);
                        }
                    }
                    let wit = choose|p: int|
                        0 <= p < BOTTOM_PAGE_COUNT && !(#[trigger] tree.pages()[p]);
                    assert(!self.slot_pages(s_i)[wit]);
                }
            }
        }
    }

    /// Number of backed slots among the first `n`.
    pub open spec fn backed_count_below(self, n: int) -> int
        decreases n,
    {
        if n <= 0 {
            0
        } else {
            self.backed_count_below(n - 1) + (if self.backed(n - 1) {
                1int
            } else {
                0
            })
        }
    }

    /// Drop a slot's backing tree and clear its node, leaving every other
    /// slot untouched.  The recorded backing page is the caller's to free.
    fn clear_slot(&mut self, slot: usize)
        requires
            old(self).wf(),
            slot < TOP_SLOT_COUNT,
            old(self).backed(slot as int),
        ensures
            final(self).wf(),
            !final(self).backed(slot as int),
            forall|t: int|
                0 <= t < TOP_SLOT_COUNT && t != slot ==> final(self).backed(t) == old(self).backed(t) && final(self).slot_addr(t) == old(self).slot_addr(t) && final(self).slot_pages(t) == old(self).slot_pages(t),
    {
        proof {
            vstd::arithmetic::power2::lemma2_to64();
        }
        let ghost orig = *self;
        self.trees[slot] = None;
        self.set_node(10, slot, 0xf0);
        proof {
            assert(entry_code(0xf0u32) == 15 && entry_addr(0xf0u32) == 0) by (bit_vector);
            assert(self.slot_addr(slot as int) == 0 && !self.backed(slot as int));
            assert(self.slot_codes() =~= orig.slot_codes().update(slot as int, 15u8));
            assert(forall|t: int|
                0 <= t < TOP_SLOT_COUNT && t != slot as int ==> #[trigger] self.slot_codes()[t]
                    == orig.slot_codes()[t]);
            assert(entry_code(self.entry_at(10, slot as int)) == self.slot_codes()[slot as int]);
            assert forall|d: int, i: int|
                0 <= d <= 10 && 0 <= i < pow2(d as nat) && !(d < 10 && i == (slot as int) / (pow2(
                    (10 - d) as nat,
                ) as int)) implies entry_code(#[trigger] self.entry_at(d, i)) == top_code(
                self.slot_codes(),
                d,
                i,
            ) by {
                if !(d == 10 && i == slot as int) {
                    assert(self.entry_at(d, i) == orig.entry_at(d, i));
                    if d == 10 {
                        assert(self.slot_codes()[i] == orig.slot_codes()[i]);
                    } else {
                        lemma_slot_in_subtree(d, i, slot as int);
                        vstd::arithmetic::power2::lemma_pow2_adds(d as nat, (10 - d) as nat);
                        assert((i + 1) * (pow2((10 - d) as nat) as int) <= pow2(10)) by (nonlinear_arith)
                            requires
                                i + 1 <= pow2(d as nat),
                                pow2(d as nat) * pow2((10 - d) as nat) == pow2(10),
                        ;
                        assert forall|t: int|
                            #![trigger self.slot_codes()[t]]
                            i * pow2((10 - d) as nat) <= t < (i + 1) * pow2(
                                (10 - d) as nat,
                            ) implies self.slot_codes()[t] == orig.slot_codes()[t] by {
                            lemma_top_in_range(d, i, t);
                            assert(0 <= t < 1024);
                            assert(t != slot as int);
                        }
                        lemma_top_code_frame(self.slot_codes(), orig.slot_codes(), d, i);
                    }
                }
            }
        }
        self.fix_top_path(slot);
        proof {
            assert forall|t: int|
                0 <= t < TOP_SLOT_COUNT && t != slot implies #[trigger] self.slot_addr(t)
                == orig.slot_addr(t) && self.backed(t) == orig.backed(t) by {
                assert(self.entry_at(10, t) == orig.entry_at(10, t));
            }
            assert(self.wf());
            assert forall|t: int|
                0 <= t < TOP_SLOT_COUNT && t != slot implies final(self).slot_pages(t) == old(self).slot_pages(t) by {
                if !orig.backed(t) {
                    assert(self.slot_pages(t) =~= orig.slot_pages(t));
                }
            }
        }
    }

    /// Tear down the address space: give every backing page back to the
    /// allocator and clear every slot.  This is an explicit, caller-invoked
    /// cleanup step.
    pub fn teardown(&mut self, page_allocator: &mut PageAllocator)
        requires
            old(self).wf(),
            old(page_allocator).wf(),
            old(self).backing_ok(*old(page_allocator)),
        ensures
            final(self).wf(),
            final(page_allocator).wf(),
            final(self).backing_ok(*final(page_allocator)),
            forall|s: int| 0 <= s < TOP_SLOT_COUNT ==> !(#[trigger] final(self).backed(s)),
            final(page_allocator).free_list().len() == old(page_allocator).free_list().len()
                + old(self).backed_count_below(TOP_SLOT_COUNT as int),
            final(page_allocator).frontier() == old(page_allocator).frontier(),
            final(page_allocator).base() == old(page_allocator).base(),
            final(page_allocator).ceiling() == old(page_allocator).ceiling(),
    {
        let ghost orig = *self;
        let ghost orig_pa = *page_allocator;
        let mut slot: usize = 0;
        while slot < TOP_SLOT_COUNT
            invariant
                self.wf(),
                page_allocator.wf(),
                self.backing_ok(*page_allocator),
                slot <= TOP_SLOT_COUNT,
                page_allocator.base() == orig_pa.base(),
                page_allocator.ceiling() == orig_pa.ceiling(),
                page_allocator.frontier() == orig_pa.frontier(),
                page_allocator.free_list().len() == orig_pa.free_list().len()
                    + orig.backed_count_below(slot as int),
                forall|t: int| 0 <= t < slot ==> !(#[trigger] self.backed(t)),
                forall|t: int|
                    slot <= t < TOP_SLOT_COUNT ==> #[trigger] self.backed(t) == orig.backed(t)
                        && self.slot_addr(t) == orig.slot_addr(t),
            decreases TOP_SLOT_COUNT - slot,
        {
            let address = self.slot_address(slot);
            if address != 0 {
                proof {
                    assert(self.backed(slot as int));
                    assert(page_allocator.is_allocated(address));
                }
                self.clear_slot(slot);
                page_allocator.free_page(Page::at_address(address));
                proof {
                    assert forall|t: int|
                        0 <= t < TOP_SLOT_COUNT && self.backed(t) implies page_allocator.is_allocated(
                        #[trigger] self.slot_addr(t),
                    ) by {
                        assert(t != slot as int);
                    }
                }
            }
            slot += 1;
        }
    }

    /// Give an unbacked slot a bottom-level tree in a freshly allocated
    /// physical page.  Returns false, changing nothing, when the allocator
    /// has no page left.
    fn back_slot(&mut self, page_allocator: &mut PageAllocator, slot: usize) -> (r: bool)
        requires
            old(self).wf(),
            old(page_allocator).wf(),
            old(self).backing_ok(*old(page_allocator)),
            slot < TOP_SLOT_COUNT,
            !old(self).backed(slot as int),
            old(page_allocator).base() >= PAGE_SIZE,
            old(page_allocator).ceiling() <= 0x1000_0000,
        ensures
            final(self).wf(),
            final(page_allocator).wf(),
            final(self).backing_ok(*final(page_allocator)),
            final(page_allocator).base() == old(page_allocator).base(),
            final(page_allocator).ceiling() == old(page_allocator).ceiling(),
            final(self).slot_codes() == old(self).slot_codes(),
            !r ==> *final(self) == *old(self) && final(page_allocator).free_list() == old(page_allocator).free_list() && final(page_allocator).frontier() == old(page_allocator).frontier()
                && !old(page_allocator).can_allocate(),
            r ==> {
                &&& final(self).backed(slot as int)
                &&& forall|t: int|
                    0 <= t < TOP_SLOT_COUNT && t != slot ==> final(self).slot_pages(t) == old(self).slot_pages(t) && final(self).backed(t) == old(self).backed(t) && final(self).slot_addr(t) == old(self).slot_addr(t)
                &&& (forall|p: int| 0 <= p < BOTTOM_PAGE_COUNT ==> final(self).slot_pages(slot as int)[p])
                &&& final(page_allocator).free_page_count() + final(page_allocator).unused_page_count() + 1 == old(page_allocator).free_page_count() + old(page_allocator).unused_page_count()
            },
    {
        let ghost orig = *self;
        let ghost orig_pa = *page_allocator;
        let page = match page_allocator.alloc_page() {
            Some(p) => p,
            None => {
                return false;
            },
        };
        let address = page.address();
        proof {
            vstd::arithmetic::power2::lemma2_to64();
            assert(page_allocator.is_allocated(address));
            page_allocator.lemma_frontier_in_range();
            assert(address >= PAGE_SIZE);
            lemma_slot_entry_pack(address, 15);
            if orig_pa.free_list().len() > 0 {
                assert(orig_pa.free_list().contains(orig_pa.free_list()[0]));
            }
        }
        let fresh = AvailableBottomLevelVirtualMemory::new();
        self.trees[slot] = Some(fresh);
        let entry: u32 = (((address >> 4) as u32) << 8) | ((15u32) << 4);
        self.set_node(10, slot, entry);
        proof {
            assert(entry == (((address >> 4) as u32) << 8) | ((15u8 as u32) << 4));
            assert(self.slot_addr(slot as int) == address);
            assert(self.slot_codes() =~= orig.slot_codes());
            assert forall|t: int|
                0 <= t < TOP_SLOT_COUNT && t != slot implies #[trigger] self.entry_at(10, t)
                == orig.entry_at(10, t) by {}
            // One fresh counted page left the allocator.
            assert(page_allocator.free_page_count() + page_allocator.unused_page_count() + 1
                == orig_pa.free_page_count() + orig_pa.unused_page_count()) by {
                if orig_pa.free_list().len() > 0 {
                } else {
                    orig_pa.lemma_frontier_in_range();
                    vstd::arithmetic::div_mod::lemma_div_plus_one(
                        orig_pa.ceiling() - orig_pa.frontier() - PAGE_SIZE,
                        PAGE_SIZE as int,
                    );
                    vstd::arithmetic::div_mod::lemma_sub_mod_noop(
                        orig_pa.ceiling() as int,
                        orig_pa.frontier(),
                        PAGE_SIZE as int,
                    );
                }
            }
            // The fresh page is distinct from every other backing page.
            assert forall|s1: int, s2: int|
                0 <= s1 < TOP_SLOT_COUNT && 0 <= s2 < TOP_SLOT_COUNT && s1 != s2 && self.backed(s1)
                    && self.backed(s2) implies #[trigger] self.slot_addr(s1)
                != #[trigger] self.slot_addr(s2) by {
                if s1 == slot as int || s2 == slot as int {
                    let t = if s1 == slot as int {
                        s2
                    } else {
                        s1
                    };
                    assert(self.slot_addr(t) == orig.slot_addr(t));
                    assert(orig.backed(t));
                    assert(orig_pa.is_allocated(orig.slot_addr(t)));
                    assert(orig.slot_addr(t) != address);
                } else {
                    assert(self.slot_addr(s1) == orig.slot_addr(s1));
                    assert(self.slot_addr(s2) == orig.slot_addr(s2));
                }
            }
            assert forall|d: int, i: int|
                0 <= d <= 10 && 0 <= i < pow2(d as nat) implies entry_code(
                #[trigger] self.entry_at(d, i),
            ) == top_code(self.slot_codes(), d, i) by {
                if !(d == 10 && i == slot as int) {
                    assert(self.entry_at(d, i) == orig.entry_at(d, i));
                }
            }
            assert forall|t: int|
                0 <= t < TOP_SLOT_COUNT implies ((#[trigger] self.slot_addr(t) != 0)
                <==> self.backed(t)) by {
                if t != slot as int {
                    assert(self.slot_addr(t) == orig.slot_addr(t));
                    assert((orig.slot_addr(t) != 0) <==> orig.backed(t));
                }
            }
            assert forall|t: int|
                0 <= t < TOP_SLOT_COUNT && self.backed(t) implies (#[trigger] self.slot_addr(t))
                % PAGE_SIZE == 0 by {
                if t != slot as int {
                    assert(self.slot_addr(t) == orig.slot_addr(t));
                    assert(orig.slot_addr(t) % PAGE_SIZE == 0);
                }
            }
            assert(self.wf());
            assert forall|t: int|
                0 <= t < TOP_SLOT_COUNT && self.backed(t) implies page_allocator.is_allocated(
                #[trigger] self.slot_addr(t),
            ) by {
                if t != slot as int {
                    assert(self.slot_addr(t) == orig.slot_addr(t));
                    assert(orig_pa.is_allocated(orig.slot_addr(t)));
                }
            }
            assert forall|t: int|
                0 <= t < TOP_SLOT_COUNT && t != slot implies final(self).slot_pages(t) == old(self).slot_pages(t) by {
                if orig.backed(t) {
                } else {
                    assert(self.slot_pages(t) =~= orig.slot_pages(t));
                }
            }
        }
        true
    }

    /// Reserve the lowest free aligned block of `2^size_exponent` pages
    /// inside a backed slot whose cached code allows the request, and
    /// refresh the cached codes up to the top-level root.  Returns the block
    /// index within the slot.
    fn reserve_in_slot(&mut self, slot: usize, size_exponent: u8) -> (block: usize)
        requires
            old(self).wf(),
            slot < TOP_SLOT_COUNT,
            old(self).backed(slot as int),
            size_exponent <= 14,
            old(self).slot_codes()[slot as int] >= size_exponent + 1,
        ensures
            final(self).wf(),
            block < pow2((14 - size_exponent) as nat),
            forall|p: int|
                (block as int) * pow2(size_exponent as nat) <= p < (block as int + 1) * pow2(
                    size_exponent as nat,
                ) ==> old(self).slot_pages(slot as int)[p],
            forall|p: int|
                0 <= p < BOTTOM_PAGE_COUNT ==> final(self).slot_pages(slot as int)[p] == (if (
                block as int) * pow2(size_exponent as nat) <= p < (block as int + 1) * pow2(
                    size_exponent as nat,
                ) {
                    false
                } else {
                    old(self).slot_pages(slot as int)[p]
                }),
            forall|t: int|
                0 <= t < TOP_SLOT_COUNT && t != slot ==> final(self).slot_pages(t) == old(self).slot_pages(t) && final(self).backed(t) == old(self).backed(t) && final(self).slot_addr(t) == old(self).slot_addr(t),
            forall|blk: int|
                0 <= blk < block ==> !block_free(
                    old(self).slot_pages(slot as int),
                    size_exponent as int,
                    blk,
                ),
            final(self).backed(slot as int),
            final(self).slot_addr(slot as int) == old(self).slot_addr(slot as int),
    {
        let ghost orig = *self;
        proof {
            vstd::arithmetic::power2::lemma2_to64();
        }
        let slot_ref = &mut self.trees[slot];
        let tree_opt = slot_ref.take();
        let mut tree = tree_opt.unwrap();
        proof {
            assert(tree == orig.trees@[slot as int]->Some_0);
            assert(tree.wf());
            assert(tree.root_code() == orig.slot_codes()[slot as int]);
        }
        let block = tree.find_free_memory(size_exponent);
        tree.reserve(block, size_exponent);
        let new_code = tree.get_at_coords(0, 0);
        proof {
            lemma_tree_code_le(tree.pages(), 0, 0);
        }
        self.trees[slot] = Some(tree);
        let address = self.slot_address(slot);
        proof {
            assert(address == orig.slot_addr(slot as int));
            assert(address % PAGE_SIZE == 0 && address != 0);
            lemma_entry_addr_bound(orig.entry_at(10, slot as int));
            lemma_slot_entry_pack(address, new_code);
        }
        let entry2: u32 = (((address >> 4) as u32) << 8) | ((new_code as u32) << 4);
        self.set_node(10, slot, entry2);
        proof {
            // Only the chosen slot's code changed, so every node outside the
            // slot's ancestor path still caches the right code.
            assert(self.backed(slot as int) && self.slot_addr(slot as int) == address);
            assert(forall|t: int|
                0 <= t < TOP_SLOT_COUNT && t != slot as int ==> #[trigger] self.slot_codes()[t]
                    == orig.slot_codes()[t]);
            assert(entry_code(self.entry_at(10, slot as int)) == self.slot_codes()[slot as int]);
            assert forall|d: int, i: int|
                0 <= d <= 10 && 0 <= i < pow2(d as nat) && !(d < 10 && i == (slot as int) / (pow2(
                    (10 - d) as nat,
                ) as int)) implies entry_code(#[trigger] self.entry_at(d, i)) == top_code(
                self.slot_codes(),
                d,
                i,
            ) by {
                if !(d == 10 && i == slot as int) {
                    assert(self.entry_at(d, i) == orig.entry_at(d, i));
                    if d == 10 {
                        assert(self.slot_codes()[i] == orig.slot_codes()[i]);
                    } else {
                        lemma_slot_in_subtree(d, i, slot as int);
                        vstd::arithmetic::power2::lemma_pow2_adds(d as nat, (10 - d) as nat);
                        assert((i + 1) * (pow2((10 - d) as nat) as int) <= pow2(10)) by (nonlinear_arith)
                            requires
                                i + 1 <= pow2(d as nat),
                                pow2(d as nat) * pow2((10 - d) as nat) == pow2(10),
                        ;
                        assert forall|t: int|
                            #![trigger self.slot_codes()[t]]
                            i * pow2((10 - d) as nat) <= t < (i + 1) * pow2(
                                (10 - d) as nat,
                            ) implies self.slot_codes()[t] == orig.slot_codes()[t] by {
                            lemma_top_in_range(d, i, t);
                            assert(0 <= t < 1024);
                            assert(t != slot as int);
                        }
                        lemma_top_code_frame(self.slot_codes(), orig.slot_codes(), d, i);
                    }
                }
            }
        }
        self.fix_top_path(slot);
        proof {
            assert forall|t: int|
                0 <= t < TOP_SLOT_COUNT implies #[trigger] self.slot_addr(t) == orig.slot_addr(t) by {
                if t != slot as int {
                    assert(self.entry_at(10, t) == orig.entry_at(10, t));
                }
            }
            assert(self.wf());
        }
        block
    }
}

/// The combined page index of a reserved block stays within the address
/// space and decomposes back into its slot and block.
proof fn lemma_reserve_result(slot: int, block: int, size_exponent: int)
    requires
        0 <= slot < TOP_SLOT_COUNT,
        0 <= size_exponent <= 14,
        0 <= block < pow2((14 - size_exponent) as nat),
    ensures
        0 <= block * pow2(size_exponent as nat),
        block * pow2(size_exponent as nat) + pow2(size_exponent as nat) <= BOTTOM_PAGE_COUNT,
        (block * pow2(size_exponent as nat)) % (pow2(size_exponent as nat) as int) == 0,
        slot * BOTTOM_PAGE_COUNT + block * pow2(size_exponent as nat) < TOP_SLOT_COUNT
            * BOTTOM_PAGE_COUNT,
{
    let sp = pow2(size_exponent as nat) as int;
    vstd::arithmetic::power2::lemma_pow2_pos(size_exponent as nat);
    vstd::arithmetic::power2::lemma_pow2_adds((14 - size_exponent) as nat, size_exponent as nat);
    vstd::arithmetic::power2::lemma2_to64();
    assert(0 <= block * sp && block * sp + sp <= pow2((14 - size_exponent) as nat) * sp) by (nonlinear_arith)
        requires
            0 <= block,
            block < pow2((14 - size_exponent) as nat),
            sp >= 1,
    ;
    vstd::arithmetic::div_mod::lemma_mod_multiples_basic(block, sp);
}

/// A slot of a node's subtree passes the division test.
proof fn lemma_top_in_range(depth: int, index: int, slot: int)
    requires
        0 <= depth <= 10,
        0 <= index < pow2(depth as nat),
        index * pow2((10 - depth) as nat) <= slot < (index + 1) * pow2((10 - depth) as nat),
    ensures
        slot / (pow2((10 - depth) as nat) as int) == index,
{
    let k = pow2((10 - depth) as nat) as int;
    vstd::arithmetic::power2::lemma_pow2_pos((10 - depth) as nat);
    assert(index * k + k == (index + 1) * k) by (nonlinear_arith);
    vstd::arithmetic::div_mod::lemma_fundamental_div_mod_converse(
        slot,
        k,
        index,
        slot - index * k,
    );
}

/// Packing a code into bits 4 to 7 of a fresh node stores exactly that code
/// and a zero address field.
proof fn lemma_entry_code_pack(code: u8)
    by (bit_vector)
    requires
        code < 16,
    ensures
        entry_code((code as u32) << 4) == code,
        entry_addr((code as u32) << 4) == 0,
{
}

/// A stored availability code always fits a nibble.
proof fn lemma_entry_code_bound(entry: u32)
    by (bit_vector)
    ensures
        entry_code(entry) < 16,
{
}

/// A stored backing-page address is 16-aligned and below the reach of the
/// 24-bit field.
proof fn lemma_entry_addr_bound(entry: u32)
    by (bit_vector)
    ensures
        entry_addr(entry) < 0x1000_0000,
        entry_addr(entry) % 16 == 0,
{
}

/// Packing an aligned backing-page address and a code into a slot node
/// stores exactly both fields.
proof fn lemma_slot_entry_pack(addr: usize, code: u8)
    by (bit_vector)
    requires
        addr % 4096 == 0,
        addr < 0x1000_0000,
        code < 16,
    ensures
        entry_code((((addr >> 4) as u32) << 8) | ((code as u32) << 4)) == code,
        entry_addr((((addr >> 4) as u32) << 8) | ((code as u32) << 4)) == addr,
{
}

/// The physical index of a top-level tree node equals `2^depth + index` and
/// lies inside the node array.
proof fn lemma_top_physical_index(depth: int, index: int)
    requires
        0 <= depth <= 10,
        0 <= index < pow2(depth as nat),
    ensures
        ((1usize << (depth as usize)) | (index as usize)) == pow2(depth as nat) + index,
        pow2(depth as nat) + index < 2048,
{
    vstd::arithmetic::power2::lemma2_to64();
    assert(pow2(depth as nat) <= pow2(10)) by {
        if depth < 10 {
            vstd::arithmetic::power2::lemma_pow2_strictly_increases(depth as nat, 10);
        }
    }
    let p = pow2(depth as nat) as usize;
    let i = index as usize;
    let d = depth as usize;
    assert((1usize << d) == p) by {
        vstd::bits::lemma_usize_shl_is_mul(1usize, d);
    }
    assert(((1usize << d) | i) == (1usize << d) + i) by (bit_vector)
        requires
            d < 11,
            i < (1usize << d),
    ;
}

/// A top-level node's cached code depends only on the slots of its subtree.
proof fn lemma_top_code_frame(codes1: Seq<u8>, codes2: Seq<u8>, depth: int, index: int)
    requires
        0 <= depth <= 10,
        forall|s: int|
            #![trigger codes1[s]]
            index * pow2((10 - depth) as nat) <= s < (index + 1) * pow2((10 - depth) as nat)
                ==> codes1[s] == codes2[s],
    ensures
        top_code(codes1, depth, index) == top_code(codes2, depth, index),
    decreases 10 - depth,
{
    vstd::arithmetic::power2::lemma2_to64();
    let m = (10 - depth) as nat;
    if depth == 10 {
        assert(index * pow2(m) == index && (index + 1) * pow2(m) == index + 1) by (nonlinear_arith)
            requires
                pow2(m) == 1,
        ;
        assert(codes1[index] == codes2[index]);
    } else {
        let mc = (10 - depth - 1) as nat;
        vstd::arithmetic::power2::lemma_pow2_pos(mc);
        assert(pow2(m) == 2 * pow2(mc)) by {
            vstd::arithmetic::power2::lemma_pow2_adds(mc, 1);
        }
        assert((2 * index) * pow2(mc) == index * pow2(m) && (2 * index + 1) * pow2(mc) == index
            * pow2(m) + pow2(mc) && (2 * index + 2) * pow2(mc) == (index + 1) * pow2(m) && (index
            + 1) * pow2(m) == index * pow2(m) + pow2(m)) by (nonlinear_arith)
            requires
                pow2(m) == 2 * pow2(mc),
        ;
        assert forall|s: int|
            index * pow2(m) <= s < (index + 1) * pow2(m) implies #[trigger] codes1[s]
            == codes2[s] by {}
        assert forall|s: int|
            (2 * index) * pow2(mc) <= s < (2 * index + 1) * pow2(mc) implies #[trigger] codes1[s]
            == codes2[s] by {}
        assert forall|s: int|
            (2 * index + 1) * pow2(mc) <= s < (2 * index + 2) * pow2(mc) implies #[trigger] codes1[s]
            == codes2[s] by {}
        lemma_top_code_frame(codes1, codes2, depth + 1, 2 * index);
        lemma_top_code_frame(codes1, codes2, depth + 1, 2 * index + 1);
    }
}

/// A slot lies in the subtree of node `(depth, index)` exactly when the
/// division test says so.
proof fn lemma_slot_in_subtree(depth: int, index: int, slot: int)
    requires
        0 <= depth <= 10,
        0 <= index < pow2(depth as nat),
        0 <= slot < 1024,
    ensures
        slot / (pow2((10 - depth) as nat) as int) == index <==> index * pow2((10 - depth) as nat)
            <= slot < (index + 1) * pow2((10 - depth) as nat),
{
    let k = pow2((10 - depth) as nat) as int;
    vstd::arithmetic::power2::lemma_pow2_pos((10 - depth) as nat);
    vstd::arithmetic::div_mod::lemma_fundamental_div_mod(slot, k);
    vstd::arithmetic::div_mod::lemma_mod_bound(slot, k);
    let q = slot / k;
    assert(q * k == k * q && (q + 1) * k == k * q + k && index * k + k == (index + 1) * k) by (nonlinear_arith);
    if q < index {
        assert((q + 1) * k <= index * k) by (nonlinear_arith)
            requires
                q + 1 <= index,
                k >= 1,
        ;
    } else if q > index {
        assert((index + 1) * k <= q * k) by (nonlinear_arith)
            requires
                index + 1 <= q,
                k >= 1,
        ;
    }
}

/// Number of top-level slots.
pub const TOP_SLOT_COUNT: usize = 1024;

} // verus!
