use sage::entities::component::{ComponentInfo, ComponentLayout};
use sage::entities::entities::Entities;
use sage::entities::modify_entity::{ComponentSet, Insert};
use sage::uuid::Uuid;

fn info(value: u128, size: usize) -> ComponentInfo {
    ComponentInfo {
        uuid: Uuid::from_u128(value),
        debug_name: "test component",
        layout: ComponentLayout { size, align: 4 },
    }
}

#[test]
fn spawn_then_get_components() {
    let mut entities: Entities<i32> = Entities::new();
    let e = entities.spawn(vec![(info(1, 4), 10), (info(2, 8), 20)]);
    assert_eq!(entities.get_component(e, Uuid::from_u128(1)), Some(&10));
    assert_eq!(entities.get_component(e, Uuid::from_u128(2)), Some(&20));
    assert_eq!(entities.get_component(e, Uuid::from_u128(3)), None);
    let r = entities.get_entity(e).expect("the entity is live");
    assert_eq!(r.id(), e);
    assert!(r.has_component_raw(Uuid::from_u128(1)));
    assert!(!r.has_component_raw(Uuid::from_u128(3)));
    assert_eq!(r.get_raw(Uuid::from_u128(2)), Some(&20));
}

#[test]
fn entities_with_the_same_components_share_an_archetype() {
    let mut entities: Entities<i32> = Entities::new();
    let a = entities.spawn(vec![(info(1, 4), 1), (info(2, 4), 2)]);
    let b = entities.spawn(vec![(info(2, 4), 3), (info(1, 4), 4)]);
    let la = entities.get_entity(a).unwrap().location();
    let lb = entities.get_entity(b).unwrap().location();
    assert_eq!(la.archetype, lb.archetype);
    assert_ne!(la.row, lb.row);
    assert_eq!(entities.get_component(b, Uuid::from_u128(1)), Some(&4));
}

#[test]
fn despawned_entity_is_gone_for_good() {
    let mut entities: Entities<i32> = Entities::new();
    let a = entities.spawn(vec![(info(1, 4), 1)]);
    let b = entities.spawn(vec![(info(1, 4), 2)]);
    assert!(entities.despawn(a));
    assert!(entities.get_entity(a).is_none());
    assert_eq!(entities.get_component(b, Uuid::from_u128(1)), Some(&2));
    assert!(!entities.despawn(a));
    let c = entities.spawn(vec![(info(1, 4), 3)]);
    assert_eq!(c.index(), a.index());
    assert_ne!(c, a);
    assert!(entities.get_entity(a).is_none());
    assert_eq!(entities.get_component(c, Uuid::from_u128(1)), Some(&3));
}

#[test]
fn despawn_moves_the_last_entity_into_the_freed_row() {
    let mut entities: Entities<i32> = Entities::new();
    let a = entities.spawn(vec![(info(1, 4), 1)]);
    let b = entities.spawn(vec![(info(1, 4), 2)]);
    let c = entities.spawn(vec![(info(1, 4), 3)]);
    let row_a = entities.get_entity(a).unwrap().location().row;
    entities.despawn_unchecked(a.index());
    assert_eq!(entities.get_entity(c).unwrap().location().row, row_a);
    assert_eq!(entities.get_component(c, Uuid::from_u128(1)), Some(&3));
    assert_eq!(entities.get_component(b, Uuid::from_u128(1)), Some(&2));
}

#[test]
fn spawn_then_despawn_leaves_the_other_entities() {
    let mut entities: Entities<i32> = Entities::new();
    let a = entities.spawn(vec![(info(1, 4), 1)]);
    let b = entities.spawn(vec![(info(2, 4), 2)]);
    assert!(entities.despawn(b));
    assert_eq!(entities.get_component(a, Uuid::from_u128(1)), Some(&1));
    assert!(entities.get_entity(b).is_none());
}

#[test]
fn reserved_entity_exists_after_flush_without_components() {
    let mut entities: Entities<i32> = Entities::new();
    let r = entities.reserve_one();
    assert!(entities.get_entity(r).is_none());
    entities.flush();
    let e = entities.get_entity(r).expect("flushed");
    assert!(!e.has_component_raw(Uuid::from_u128(1)));
    assert_eq!(entities.archetype_storages()[e.location().archetype].archetype_components().len(), 0);
}

#[test]
fn spawn_flushes_reserved_identifiers_first() {
    let mut entities: Entities<i32> = Entities::new();
    let r = entities.reserve_one();
    let e = entities.spawn(vec![(info(1, 4), 5)]);
    assert_ne!(r, e);
    assert!(entities.get_entity(r).is_some());
    assert!(entities.get_entity(e).is_some());
}

#[test]
fn insert_overwrites_and_adds_components() {
    let mut entities: Entities<i32> = Entities::new();
    let a = entities.spawn(vec![(info(1, 4), 1), (info(2, 4), 2)]);
    let other = entities.spawn(vec![(info(1, 4), 7), (info(2, 4), 8)]);
    let before = entities.get_entity(a).unwrap().location().archetype;
    assert!(entities.insert(a, vec![(info(2, 4), 20), (info(3, 4), 30)]));
    assert_eq!(entities.get_component(a, Uuid::from_u128(1)), Some(&1));
    assert_eq!(entities.get_component(a, Uuid::from_u128(2)), Some(&20));
    assert_eq!(entities.get_component(a, Uuid::from_u128(3)), Some(&30));
    assert_ne!(entities.get_entity(a).unwrap().location().archetype, before);
    assert_eq!(entities.get_component(other, Uuid::from_u128(1)), Some(&7));
    assert_eq!(entities.get_component(other, Uuid::from_u128(2)), Some(&8));
}

#[test]
fn insert_of_existing_components_stays_in_place() {
    let mut entities: Entities<i32> = Entities::new();
    let a = entities.spawn(vec![(info(1, 4), 1), (info(2, 4), 2)]);
    let loc = entities.get_entity(a).unwrap().location();
    entities.modify_unchecked(a.index(), Insert(vec![(info(1, 4), 100)]));
    assert_eq!(entities.get_entity(a).unwrap().location(), loc);
    assert_eq!(entities.get_component(a, Uuid::from_u128(1)), Some(&100));
    assert_eq!(entities.get_component(a, Uuid::from_u128(2)), Some(&2));
}

#[test]
fn insert_into_a_dead_entity_does_nothing() {
    let mut entities: Entities<i32> = Entities::new();
    let a = entities.spawn(vec![(info(1, 4), 1)]);
    entities.despawn(a);
    assert!(!entities.insert(a, vec![(info(2, 4), 2)]));
    assert!(entities.get_entity(a).is_none());
}

#[test]
fn limits_leave_room_in_a_small_collection() {
    let mut entities: Entities<i32> = Entities::new();
    assert!(entities.check_limits());
    entities.spawn(vec![(info(1, 4), 1)]);
    assert!(entities.check_limits());
}

#[test]
fn insert_lists_its_components() {
    let list: Insert<i32> = Insert(vec![(info(1, 4), 1), (info(5, 4), 2)]);
    assert!(list.has_component(Uuid::from_u128(5)));
    assert!(!list.has_component(Uuid::from_u128(2)));
}

#[test]
fn entity_by_identifier() {
    let mut entities: Entities<i32> = Entities::new();
    let a = entities.spawn(vec![(info(9, 4), 90)]);
    let e = entities.entity(a);
    assert_eq!(e.index(), a.index());
    assert_eq!(e.id(), a);
    let u = entities.get_entity_unchecked(a.index());
    assert_eq!(u.get_raw(Uuid::from_u128(9)), Some(&90));
    assert_eq!(entities.id_allocator().get(a), Some(&e.location()));
}

#[test]
fn flush_puts_each_reserved_entity_in_the_empty_archetype() {
    let mut entities: Entities<i32> = Entities::new();
    let r1 = entities.reserve_one();
    let r2 = entities.reserve_one();
    entities.flush();
    let loc = entities.get_entity(r1).expect("flushed").location();
    assert_eq!(entities.get_entity(r2).expect("flushed").location().archetype, loc.archetype);
    assert_eq!(entities.archetype_storages()[loc.archetype].len(), 2);
}

#[test]
fn despawn_moves_the_last_entity_of_the_storage_into_the_freed_row() {
    let mut entities: Entities<i32> = Entities::new();
    let a = entities.spawn(vec![(info(1, 4), 1)]);
    let b = entities.spawn(vec![(info(1, 4), 2)]);
    entities.despawn_unchecked(a.index());
    assert!(entities.get_entity(a).is_none());
    let loc = entities.get_entity(b).expect("live").location();
    assert_eq!(loc.row, 0);
    assert_eq!(entities.archetype_storages()[loc.archetype].len(), 1);
    assert_eq!(entities.get_component(b, Uuid::from_u128(1)), Some(&2));
}

#[test]
fn modify_moves_the_entity_and_fills_its_former_row() {
    let mut entities: Entities<i32> = Entities::new();
    let a = entities.spawn(vec![(info(1, 4), 1)]);
    let b = entities.spawn(vec![(info(1, 4), 2)]);
    let before = entities.get_entity(a).expect("live").location();
    entities.modify_unchecked(a.index(), Insert(vec![(info(2, 4), 3)]));
    let after = entities.get_entity(a).expect("live").location();
    assert_ne!(after.archetype, before.archetype);
    assert_eq!(after.row, 0);
    let loc_b = entities.get_entity(b).expect("live").location();
    assert_eq!(loc_b, before);
    assert_eq!(entities.archetype_storages()[before.archetype].len(), 1);
    assert_eq!(entities.archetype_storages()[after.archetype].len(), 1);
    assert_eq!(entities.get_component(b, Uuid::from_u128(1)), Some(&2));
}
