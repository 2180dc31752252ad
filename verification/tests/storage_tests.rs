use sage::entities::archetype_components::{ArchetypeComponents, StaticArchetypeComponents};
use sage::entities::archetype_storage::ArchetypeStorage;
use sage::entities::component::{ComponentInfo, ComponentLayout, ComponentRegistry};
use sage::entities::component_vec::ComponentVec;
use sage::hierarchy::{Children, Parent};
use sage::uuid::Uuid;

fn info(value: u128, size: usize, align: usize) -> ComponentInfo {
    ComponentInfo { uuid: Uuid::from_u128(value), debug_name: "c", layout: ComponentLayout { size, align } }
}

#[test]
fn from_unsorted_vec_sorts_and_removes_duplicates() {
    let a = ArchetypeComponents::from_unsorted_vec(vec![
        Uuid::from_u128(5),
        Uuid::from_u128(1),
        Uuid::from_u128(5),
        Uuid::from_u128(3),
    ]);
    assert_eq!(a.as_uuids(), &[Uuid::from_u128(1), Uuid::from_u128(3), Uuid::from_u128(5)]);
    assert_eq!(a.len(), 3);
    assert_eq!(a.to_key(), vec![1u128, 3, 5]);
    assert_eq!(a.to_owned().as_uuids(), a.as_uuids());
    assert_eq!(ArchetypeComponents::empty().len(), 0);
}

#[test]
fn static_archetype_components() {
    let s = StaticArchetypeComponents::new_unchecked([Uuid::from_u128(2), Uuid::from_u128(7)]);
    assert_eq!(s.as_uuids(), &[Uuid::from_u128(2), Uuid::from_u128(7)]);
    assert_eq!(s.to_archetype_components().as_uuids(), s.as_uuids());
}

#[test]
fn component_vec_grows_by_doubling() {
    let mut v: ComponentVec<u8> = ComponentVec::new(info(1, 3, 2));
    assert_eq!(v.component_info().layout.size, 4);
    assert_eq!(v.current_layout().size, 0);
    v.reserve_one();
    assert_eq!(v.current_layout().size, 4);
    v.push_assume_capacity(1);
    v.reserve_one();
    assert_eq!(v.current_layout().size, 8);
    v.push_assume_capacity(2);
    v.reserve_one();
    assert_eq!(v.current_layout().size, 16);
    v.push_assume_capacity(3);
    assert_eq!(v.as_ptr(), &[1, 2, 3]);
    assert_eq!(v.swap_remove_unchecked_no_drop(0), 1);
    assert_eq!(v.as_ptr(), &[3, 2]);
    assert_eq!(*v.get_unchecked(1), 2);
    assert_eq!(v.replace_unchecked(1, 9), 2);
    v.swap_remove_unchecked(1);
    assert_eq!(v.len(), 1);
}

#[test]
fn zero_sized_components_take_no_memory() {
    let mut v: ComponentVec<()> = ComponentVec::new(info(1, 0, 1));
    v.reserve_one();
    v.push_assume_capacity(());
    assert_eq!(v.current_layout().size, 0);
    assert_eq!(v.len(), 1);
}

#[test]
fn archetype_storage_rows() {
    let mut s: ArchetypeStorage<i32> = ArchetypeStorage::new(vec![info(1, 4, 4), info(2, 4, 4)]);
    assert!(s.is_empty());
    assert!(s.has_component(Uuid::from_u128(2)));
    assert!(!s.has_component(Uuid::from_u128(3)));
    s.reserve_one();
    s.push_assume_capacity(7, vec![(Uuid::from_u128(2), 20), (Uuid::from_u128(1), 10)]);
    s.reserve_one();
    s.push_assume_capacity(9, vec![(Uuid::from_u128(1), 11), (Uuid::from_u128(2), 21)]);
    assert_eq!(s.len(), 2);
    assert_eq!(s.entity_indices(), &[7, 9]);
    assert_eq!(s.get_raw(0, Uuid::from_u128(1)), Some(&10));
    assert_eq!(s.get_raw(1, Uuid::from_u128(2)), Some(&21));
    assert_eq!(s.get_raw(1, Uuid::from_u128(3)), None);
    assert_eq!(s.replace_component(0, Uuid::from_u128(2), 200), 20);
    let (index, mut values) = s.swap_remove_unchecked_no_drop(0);
    assert_eq!(index, 7);
    values.sort_by_key(|p| p.0);
    assert_eq!(values, vec![(Uuid::from_u128(1), 10), (Uuid::from_u128(2), 200)]);
    assert_eq!(s.entity_indices(), &[9]);
    assert_eq!(s.get_raw(0, Uuid::from_u128(1)), Some(&11));
    assert_eq!(s.swap_remove_unchecked(0), 9);
    assert!(s.is_empty());
    assert_eq!(s.archetype_components().as_uuids(), &[Uuid::from_u128(1), Uuid::from_u128(2)]);
    assert!(s.get_column(Uuid::from_u128(1)).is_some());
}

#[test]
fn registry_keeps_the_first_record() {
    let mut r = ComponentRegistry::new();
    r.register_raw(info(1, 4, 4));
    r.register_raw(ComponentInfo { uuid: Uuid::from_u128(1), debug_name: "other", layout: ComponentLayout { size: 8, align: 8 } });
    assert_eq!(r.get_by_uuid(Uuid::from_u128(1)).unwrap().layout.size, 4);
    assert!(r.get_by_uuid(Uuid::from_u128(2)).is_none());
    let p = r.register::<Parent>();
    assert_eq!(p.uuid.as_u128(), 0x139530b2d77a1ca1ebf060d28b0cd936);
    assert_eq!(p.layout.size, std::mem::size_of::<Parent>());
    let c = ComponentInfo::of::<Children>();
    assert_eq!(c.uuid.as_u128(), 0x4df7aa8a106b12db5d0e3d439760491a);
    assert_eq!(c.layout.align, std::mem::align_of::<Children>());
}

#[test]
fn layout_padding_rounds_up_to_the_alignment() {
    assert_eq!(ComponentLayout { size: 5, align: 4 }.pad_to_align().size, 8);
    assert_eq!(ComponentLayout { size: 8, align: 4 }.pad_to_align().size, 8);
    assert_eq!(ComponentLayout { size: 0, align: 8 }.pad_to_align().size, 0);
}
