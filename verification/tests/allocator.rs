use slab_allocator::backing::BumpBacking;
use slab_allocator::manager::SlabManager;
use slab_allocator::router::{size_class, SlabAllocator};
use slab_allocator::slab::{objects_per_page, Slab};

#[test]
fn slab_allocate() {
    let mut backing = BumpBacking::new();
    let mut slab = Slab::new_in(64, &mut backing).unwrap();
    assert!(slab.remaining_object_count() == 64);

    let object = slab.next_object().unwrap();
    assert!(slab.remaining_object_count() == 63);

    slab.return_object(object.start);
    assert!(slab.remaining_object_count() == 64);
}

#[test]
fn slab_manager_allocate() {
    let backing = BumpBacking::new();
    let mut slab_manager = SlabManager::new_in(64, backing);
    assert!(slab_manager.remaining_object_count() == 0);

    let object = slab_manager.next_object().unwrap();
    assert!(slab_manager.remaining_object_count == 63);

    slab_manager.return_object(object.start);
    assert!(slab_manager.remaining_object_count == 64);
}

#[test]
fn slab_allocator_allocate_one() {
    let mut slab_allocator = SlabAllocator::new_in(BumpBacking::new());

    let allocate_64 = slab_allocator.allocate(64, 1).unwrap();
    assert!(allocate_64.len() == 64);

    let allocate_128 = slab_allocator.allocate(128, 1).unwrap();
    assert!(allocate_128.len() == 128);

    let allocate_256 = slab_allocator.allocate(256, 1).unwrap();
    assert!(allocate_256.len() == 256);

    let allocate_512 = slab_allocator.allocate(512, 1).unwrap();
    assert!(allocate_512.len() == 512);

    let allocate_1024 = slab_allocator.allocate(1024, 1).unwrap();
    assert!(allocate_1024.len() == 1024);

    let allocate_2048 = slab_allocator.allocate(2048, 1).unwrap();
    assert!(allocate_2048.len() == 2048);

    slab_allocator.deallocate(allocate_64.start, 64, 1);
    slab_allocator.deallocate(allocate_128.start, 128, 1);
    slab_allocator.deallocate(allocate_256.start, 256, 1);
    slab_allocator.deallocate(allocate_512.start, 512, 1);
    slab_allocator.deallocate(allocate_1024.start, 1024, 1);
    slab_allocator.deallocate(allocate_2048.start, 2048, 1);
}

#[test]
fn slab_allocator_allocate_extra() {
    let mut slab_allocator = SlabAllocator::new_in(BumpBacking::new());
    assert!(slab_allocator.remaining_object_count(2048) == 0);

    let allocation_1 = slab_allocator.allocate(2048, 1).unwrap();
    assert!(slab_allocator.remaining_object_count(2048) == 1);
    let allocation_2 = slab_allocator.allocate(2048, 1).unwrap();
    assert!(slab_allocator.remaining_object_count(2048) == 0);
    let allocation_3 = slab_allocator.allocate(2048, 1).unwrap();
    assert!(slab_allocator.remaining_object_count(2048) == 1);
    let allocation_4 = slab_allocator.allocate(2048, 1).unwrap();
    assert!(slab_allocator.remaining_object_count(2048) == 0);
    let allocation_5 = slab_allocator.allocate(2048, 1).unwrap();
    assert!(slab_allocator.remaining_object_count(2048) == 1);

    slab_allocator.deallocate(allocation_1.start, 2048, 1);
    assert!(slab_allocator.remaining_object_count(2048) == 2);
    slab_allocator.deallocate(allocation_2.start, 2048, 1);
    assert!(slab_allocator.remaining_object_count(2048) == 3);
    slab_allocator.deallocate(allocation_3.start, 2048, 1);
    assert!(slab_allocator.remaining_object_count(2048) == 4);
    slab_allocator.deallocate(allocation_4.start, 2048, 1);
    assert!(slab_allocator.remaining_object_count(2048) == 5);
    slab_allocator.deallocate(allocation_5.start, 2048, 1);
    assert!(slab_allocator.remaining_object_count(2048) == 6);
}

#[test]
fn objects_per_page_values() {
    assert_eq!(objects_per_page(64), 64);
    assert_eq!(objects_per_page(128), 32);
    assert_eq!(objects_per_page(256), 16);
    assert_eq!(objects_per_page(512), 8);
    assert_eq!(objects_per_page(1024), 4);
    assert_eq!(objects_per_page(2048), 2);
}

#[test]
fn slab_issues_slots_in_increasing_order() {
    let mut backing = BumpBacking::new();
    let mut slab = Slab::new_in(64, &mut backing).unwrap();
    let base = slab.memory_range().start;
    for i in 0..64 {
        let object = slab.next_object().unwrap();
        assert_eq!(object.start, base + i * 64);
        assert_eq!(object.end, base + i * 64 + 64);
    }
    assert!(slab.is_empty());
    assert!(slab.next_object().is_none());
}

#[test]
fn slab_reuses_lowest_released_slot() {
    let mut backing = BumpBacking::new();
    let mut slab = Slab::new_in(256, &mut backing).unwrap();
    let base = slab.memory_range().start;
    let first = slab.next_object().unwrap();
    let second = slab.next_object().unwrap();
    assert_eq!(first.start, base);
    assert_eq!(second.start, base + 256);
    slab.return_object(first.start);
    let again = slab.next_object().unwrap();
    assert_eq!(again.start, base);
}

#[test]
fn slab_drains_after_capacity_issues() {
    let mut backing = BumpBacking::new();
    let mut slab = Slab::new_in(2048, &mut backing).unwrap();
    assert_eq!(slab.remaining_object_count(), 2);
    assert!(slab.next_object().is_some());
    assert!(slab.next_object().is_some());
    assert_eq!(slab.remaining_object_count(), 0);
    assert!(slab.is_empty());
    assert!(slab.next_object().is_none());
}

#[test]
fn manager_round_trip_restores_free_count() {
    let mut manager = SlabManager::new_in(128, BumpBacking::new());
    let first = manager.next_object().unwrap();
    assert_eq!(manager.remaining_object_count(), 31);
    let second = manager.next_object().unwrap();
    assert_eq!(manager.remaining_object_count(), 30);
    manager.return_object(second.start);
    assert_eq!(manager.remaining_object_count(), 31);
    manager.return_object(first.start);
    assert_eq!(manager.remaining_object_count(), 32);
    assert!(!manager.is_empty());
}

#[test]
fn manager_grows_when_full() {
    let mut manager = SlabManager::new_in(2048, BumpBacking::new());
    let a = manager.next_object().unwrap();
    let b = manager.next_object().unwrap();
    assert_eq!(manager.remaining_object_count(), 0);
    // Both slots of the first page are issued: the next issue creates a
    // second page.
    let c = manager.next_object().unwrap();
    assert_eq!(manager.remaining_object_count(), 1);
    assert_ne!(a.start, b.start);
    assert_ne!(a.start, c.start);
    assert_ne!(b.start, c.start);
}

#[test]
fn size_class_rounds_up() {
    assert_eq!(size_class(64, 1), Some(64));
    assert_eq!(size_class(65, 1), Some(128));
    assert_eq!(size_class(100, 1), Some(128));
    assert_eq!(size_class(2048, 1), Some(2048));
    assert_eq!(size_class(1, 64), Some(64));
    assert_eq!(size_class(100, 256), Some(256));
    assert_eq!(size_class(2049, 1), None);
    assert_eq!(size_class(4096, 1), None);
    assert_eq!(size_class(1, 1), None);
    assert_eq!(size_class(32, 32), None);
    assert_eq!(size_class(100, 4096), None);
}

#[test]
fn router_returns_at_least_requested_size() {
    let mut slab_allocator = SlabAllocator::new_in(BumpBacking::new());
    let a = slab_allocator.allocate(100, 1).unwrap();
    assert_eq!(a.len(), 128);
    let b = slab_allocator.allocate(10, 64).unwrap();
    assert_eq!(b.len(), 64);
    assert_eq!(b.start % 64, 0);
    let c = slab_allocator.allocate(513, 512).unwrap();
    assert_eq!(c.len(), 1024);
    assert_eq!(c.start % 512, 0);
    assert!(a.len() >= 100 && b.len() >= 10 && c.len() >= 513);
}

#[test]
fn router_classes_are_independent() {
    let mut slab_allocator = SlabAllocator::new_in(BumpBacking::new());
    let small = slab_allocator.allocate(64, 1).unwrap();
    let large = slab_allocator.allocate(128, 1).unwrap();
    assert_eq!(large.len(), 128);
    assert_eq!(slab_allocator.remaining_object_count(64), 63);
    assert_eq!(slab_allocator.remaining_object_count(128), 31);
    slab_allocator.deallocate(small.start, 64, 1);
    assert_eq!(slab_allocator.remaining_object_count(64), 64);
    assert_eq!(slab_allocator.remaining_object_count(128), 31);
}

#[test]
fn router_bypasses_pools_for_large_requests() {
    let mut slab_allocator = SlabAllocator::new_in(BumpBacking::new());
    let big = slab_allocator.allocate(4096, 1).unwrap();
    assert_eq!(big.len(), 4096);
    assert_eq!(slab_allocator.remaining_object_count(64), 0);
    assert_eq!(slab_allocator.remaining_object_count(128), 0);
    assert_eq!(slab_allocator.remaining_object_count(256), 0);
    assert_eq!(slab_allocator.remaining_object_count(512), 0);
    assert_eq!(slab_allocator.remaining_object_count(1024), 0);
    assert_eq!(slab_allocator.remaining_object_count(2048), 0);
    slab_allocator.deallocate(big.start, 4096, 1);
}

#[test]
fn router_reports_exhaustion() {
    let mut slab_allocator = SlabAllocator::new_in(BumpBacking::new());
    let r = slab_allocator.allocate(usize::MAX, 1);
    assert!(r.is_err());
}
