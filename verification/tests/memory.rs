use kernelcore::pageallocator::PageAllocator;
use kernelcore::virtualmemory::AvailableBottomLevelVirtualMemory;
use kernelcore::virtualmemory::AvailableTopLevelVirtualMemory;

const PAGE: usize = 4096;

fn allocator_over(pages: usize) -> PageAllocator {
    PageAllocator::new(PAGE, PAGE + pages * PAGE)
}

fn available(pa: &PageAllocator) -> usize {
    pa.free_list_len() + pa.unused_count()
}

#[test]
fn lifo_reuse() {
    // Three pages P0, P1, P2; allocation hands them out in order, a fourth
    // call reports exhaustion.
    let mut pa = allocator_over(3);
    let p0 = pa.alloc_page().expect("first page");
    let p1 = pa.alloc_page().expect("second page");
    let p2 = pa.alloc_page().expect("third page");
    assert_eq!(p0.address(), PAGE);
    assert_eq!(p1.address(), 2 * PAGE);
    assert_eq!(p2.address(), 3 * PAGE);
    assert!(pa.alloc_page().is_none());
    // Freeing P1 then P0 and allocating twice yields P0 then P1: the most
    // recently freed page is reused first.
    pa.free_page(p1);
    pa.free_page(p0);
    let r0 = pa.alloc_page().expect("reused page");
    let r1 = pa.alloc_page().expect("reused page");
    assert_eq!(r0.address(), PAGE);
    assert_eq!(r1.address(), 2 * PAGE);
    assert!(pa.alloc_page().is_none());
}

#[test]
fn conservation_counts() {
    // Free + unused + allocated always equals the managed page count.
    let total = 4usize;
    let mut pa = allocator_over(total);
    let mut allocated = Vec::new();
    assert_eq!(available(&pa), total);
    allocated.push(pa.alloc_page().unwrap());
    allocated.push(pa.alloc_page().unwrap());
    assert_eq!(available(&pa) + allocated.len(), total);
    pa.free_page(allocated.pop().unwrap());
    assert_eq!(available(&pa) + allocated.len(), total);
    allocated.push(pa.alloc_page().unwrap());
    allocated.push(pa.alloc_page().unwrap());
    allocated.push(pa.alloc_page().unwrap());
    assert_eq!(available(&pa), 0);
    assert_eq!(allocated.len(), total);
}

#[test]
fn fresh_bottom_tree_is_fully_free() {
    let tree = AvailableBottomLevelVirtualMemory::new();
    // Root code 15 encodes a free block of exponent 14: the whole tree.
    assert_eq!(tree.code_of_node(0, 0), 15);
    assert!(tree.page_is_available(0));
    assert!(tree.page_is_available(16383));
    assert_eq!(tree.find_free_memory(0), 0);
    assert_eq!(tree.find_free_memory(14), 0);
}

#[test]
fn bottom_tree_prefers_low_addresses() {
    let mut tree = AvailableBottomLevelVirtualMemory::new();
    tree.reserve(0, 0);
    assert!(!tree.page_is_available(0));
    assert_eq!(tree.find_free_memory(0), 1);
    // A two-page request skips past the half-used buddy pair.
    assert_eq!(tree.find_free_memory(1), 1);
}

#[test]
fn coalescing_of_buddies() {
    // Reserving two adjacent one-page buddies and releasing both restores
    // the parent's cached exponent to 1; releasing only one leaves the
    // parent at the one-page exponent, not merged.
    let mut tree = AvailableBottomLevelVirtualMemory::new();
    tree.reserve(0, 0);
    tree.reserve(1, 0);
    assert_eq!(tree.code_of_node(13, 0), 0);
    tree.release(0, 0);
    assert_eq!(tree.code_of_node(13, 0), 1);
    tree.release(1, 0);
    assert_eq!(tree.code_of_node(13, 0), 2);
    assert_eq!(tree.code_of_node(0, 0), 15);
}

#[test]
fn bottom_tree_full_cycle() {
    let mut tree = AvailableBottomLevelVirtualMemory::new();
    tree.reserve(0, 14);
    assert_eq!(tree.code_of_node(0, 0), 0);
    assert!(!tree.page_is_available(0));
    assert!(!tree.page_is_available(16383));
    tree.release(0, 14);
    assert_eq!(tree.code_of_node(0, 0), 15);
}

#[test]
fn no_false_availability() {
    // Whatever exponent the cached root code reports is immediately
    // reservable.
    let mut pa = allocator_over(8);
    let mut vast = AvailableTopLevelVirtualMemory::new();
    assert!(vast.find_and_reserve(&mut pa, 14).is_some());
    assert!(vast.find_and_reserve(&mut pa, 0).is_some());
    let code = vast.get_at_tree_coords(0, 0);
    assert!(code >= 1);
    let exponent = code - 1;
    assert!(vast.find_and_reserve(&mut pa, exponent).is_some());
}

#[test]
fn reserve_whole_tree_and_release() {
    // Reserving a whole bottom-level tree's capacity and releasing it
    // returns the root to its maximum and gives the backing page back.
    let mut pa = allocator_over(4);
    let before = available(&pa);
    let mut vast = AvailableTopLevelVirtualMemory::new();
    let base = vast.find_and_reserve(&mut pa, 14).expect("whole tree");
    assert_eq!(base, 0);
    assert_ne!(vast.slot_address(0), 0);
    assert_eq!(available(&pa), before - 1);
    vast.release(&mut pa, 0, 14);
    assert_eq!(vast.slot_address(0), 0);
    assert_eq!(available(&pa), before);
    assert_eq!(vast.get_at_tree_coords(0, 0), 15);
}

#[test]
fn lazy_backing() {
    // One-page requests in one slot cost one backing allocation in total;
    // the first request that lands in a second slot costs exactly one more.
    let mut pa = allocator_over(8);
    let before = available(&pa);
    let mut vast = AvailableTopLevelVirtualMemory::new();
    for expected in 0..16384usize {
        let base = vast.find_and_reserve(&mut pa, 0).expect("page in first slot");
        assert_eq!(base, expected);
    }
    assert_eq!(available(&pa), before - 1);
    let base = vast.find_and_reserve(&mut pa, 0).expect("page in second slot");
    assert_eq!(base, 16384);
    assert_ne!(vast.slot_address(1), 0);
    assert_eq!(available(&pa), before - 2);
}

#[test]
fn partial_release_keeps_backing() {
    let mut pa = allocator_over(4);
    let before = available(&pa);
    let mut vast = AvailableTopLevelVirtualMemory::new();
    assert_eq!(vast.find_and_reserve(&mut pa, 0), Some(0));
    assert_eq!(vast.find_and_reserve(&mut pa, 0), Some(1));
    vast.release(&mut pa, 0, 0);
    // The sibling is still used, so the backing page stays.
    assert_ne!(vast.slot_address(0), 0);
    assert_eq!(available(&pa), before - 1);
    vast.release(&mut pa, 1, 0);
    // Now the tree is entirely free again and was returned eagerly.
    assert_eq!(vast.slot_address(0), 0);
    assert_eq!(available(&pa), before);
}

#[test]
fn reserve_fails_without_backing_pages() {
    // An empty allocator cannot back a fresh bottom-level tree.
    let mut pa = allocator_over(0);
    let mut vast = AvailableTopLevelVirtualMemory::new();
    assert_eq!(vast.find_and_reserve(&mut pa, 0), None);
}

#[test]
fn teardown_returns_backing_pages() {
    let mut pa = allocator_over(8);
    let before = available(&pa);
    let mut vast = AvailableTopLevelVirtualMemory::new();
    assert!(vast.find_and_reserve(&mut pa, 14).is_some());
    assert!(vast.find_and_reserve(&mut pa, 3).is_some());
    assert_eq!(available(&pa), before - 2);
    vast.teardown(&mut pa);
    assert_eq!(available(&pa), before);
    assert_eq!(vast.slot_address(0), 0);
    assert_eq!(vast.slot_address(1), 0);
}
