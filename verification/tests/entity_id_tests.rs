use sage::entities::entity_id::{EntityId, EntityIdAllocator};

#[test]
fn allocate_hands_out_fresh_indices() {
    let mut alloc: EntityIdAllocator<u32> = EntityIdAllocator::new();
    let a = alloc.allocate(10);
    let b = alloc.allocate(20);
    assert_eq!(a.index(), 0);
    assert_eq!(b.index(), 1);
    assert!(alloc.is_valid(a));
    assert!(alloc.is_valid(b));
    assert_eq!(alloc.get(a), Some(&10));
    assert_eq!(alloc.get(b), Some(&20));
}

#[test]
fn deallocated_slot_is_reused_with_a_new_generation() {
    let mut alloc: EntityIdAllocator<u32> = EntityIdAllocator::new();
    let a = alloc.allocate(1);
    let _b = alloc.allocate(2);
    let old = *alloc.deallocate_unchecked(a.index());
    assert_eq!(old, 1);
    assert!(!alloc.is_valid(a));
    let c = alloc.allocate(3);
    assert_eq!(c.index(), a.index());
    assert_ne!(c, a);
    assert!(alloc.is_valid(c));
    assert!(!alloc.is_valid(a));
    assert_eq!(alloc.get(c), Some(&3));
    assert_eq!(alloc.get(a), None);
}

#[test]
fn allocate_stores_the_metadata_of_reused_slots() {
    let mut alloc: EntityIdAllocator<u32> = EntityIdAllocator::new();
    let a = alloc.allocate(7);
    alloc.deallocate_unchecked(a.index());
    let b = alloc.allocate(8);
    assert_eq!(*alloc.get_unchecked(b.index()), 8);
}

#[test]
fn reserved_identifiers_wait_for_a_flush() {
    let mut alloc: EntityIdAllocator<u32> = EntityIdAllocator::new();
    assert!(!alloc.needs_flush());
    assert_eq!(alloc.reserved_entities(), 0);
    let r1 = alloc.reserve_one();
    let r2 = alloc.reserve_one();
    assert!(alloc.needs_flush());
    assert_eq!(alloc.reserved_entities(), 2);
    assert_eq!(alloc.pending_ids(), vec![r1, r2]);
    assert_eq!(r1.index(), 0);
    assert_eq!(r2.index(), 1);
    alloc.flush(vec![100, 200]);
    assert!(!alloc.needs_flush());
    assert_eq!(alloc.reserved_entities(), 0);
    assert_eq!(alloc.get(r1), Some(&100));
    assert_eq!(alloc.get(r2), Some(&200));
}

#[test]
fn reservations_reuse_freed_slots_first() {
    let mut alloc: EntityIdAllocator<u32> = EntityIdAllocator::new();
    let a = alloc.allocate(1);
    let b = alloc.allocate(2);
    alloc.deallocate_unchecked(a.index());
    let r = alloc.reserve_one();
    assert_eq!(r.index(), a.index());
    assert_ne!(r, a);
    let fresh = alloc.reserve_one();
    assert_eq!(fresh.index(), 2);
    alloc.flush(vec![10, 30]);
    assert_eq!(alloc.get(r), Some(&10));
    assert_eq!(alloc.get(fresh), Some(&30));
    assert_eq!(alloc.get(b), Some(&2));
}

#[test]
fn get_mut_changes_the_metadata() {
    let mut alloc: EntityIdAllocator<u32> = EntityIdAllocator::new();
    let a = alloc.allocate(1);
    if let Some(m) = alloc.get_mut(a) {
        *m = 42;
    }
    assert_eq!(alloc.get(a), Some(&42));
    let stale = alloc.get_id_for_index_unchecked(a.index());
    assert_eq!(stale, a);
    alloc.deallocate_unchecked(a.index());
    assert!(alloc.get_mut(a).is_none());
}

#[test]
fn default_allocator_is_empty() {
    let alloc: EntityIdAllocator<u8> = EntityIdAllocator::default();
    assert!(!alloc.needs_flush());
    assert_eq!(alloc.reserved_entities(), 0);
}

#[test]
fn entity_id_bits_hold_index_then_generation() {
    let mut alloc: EntityIdAllocator<u8> = EntityIdAllocator::new();
    let a = alloc.allocate(0);
    assert_eq!(a.to_bits(), (1u64 << 32) | 0);
    alloc.deallocate_unchecked(a.index());
    let b = alloc.allocate(0);
    assert_eq!(b.to_bits(), (2u64 << 32) | 0);
    assert!(a < b);
    let d = EntityId::dummy();
    assert_eq!(d.index(), u32::MAX);
    assert_eq!(d.to_bits(), u64::MAX);
}

#[test]
fn reservation_possible_on_fresh_allocator() {
    let mut alloc: EntityIdAllocator<u32> = EntityIdAllocator::new();
    assert!(alloc.can_reserve_one());
    alloc.reserve_one();
    alloc.reserve_one();
    assert!(alloc.can_reserve_one());
    assert_eq!(alloc.reserved_entities(), 2);
}
