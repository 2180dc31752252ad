use sage::collections::UuidSet;
use sage::color::Srgba8;
use sage::entities::component::{ComponentInfo, ComponentLayout};
use sage::entities::entities::Entities;
use sage::system::query::{QueryAccess, QueryFilter, QueryState};
use sage::system::system::{Glob, SystemAccess};
use sage::uuid::Uuid;
use sage::window_events::{CloseRequested, Focused};

fn info(value: u128) -> ComponentInfo {
    ComponentInfo { uuid: Uuid::from_u128(value), debug_name: "c", layout: ComponentLayout { size: 4, align: 4 } }
}

fn filter(with: &[u128], without: &[u128]) -> QueryFilter {
    let mut access = QueryAccess { system_access: SystemAccess::new(), filter: QueryFilter::new() };
    for &w in with {
        access.with(Uuid::from_u128(w));
    }
    for &w in without {
        access.without(Uuid::from_u128(w));
    }
    access.filter
}

#[test]
fn query_matches_entities_by_their_components() {
    let mut entities: Entities<i32> = Entities::new();
    let a = entities.spawn(vec![(info(1), 1)]);
    let b = entities.spawn(vec![(info(1), 2), (info(2), 3)]);
    let _c = entities.spawn(vec![(info(2), 4)]);
    let d = entities.spawn(vec![(info(1), 5), (info(3), 6)]);
    let mut state = QueryState::new(filter(&[1], &[3]));
    state.update_matched_archetypes(&entities);
    let mut found = state.matched_entities(&entities);
    found.sort();
    let mut expected = vec![a, b];
    expected.sort();
    assert_eq!(found, expected);
    assert_eq!(state.matched_count(&entities), 2);
    assert!(!state.matched_entities(&entities).contains(&d));
}

#[test]
fn query_state_picks_up_new_archetypes() {
    let mut entities: Entities<i32> = Entities::new();
    let a = entities.spawn(vec![(info(1), 1)]);
    let mut state = QueryState::new(filter(&[1], &[]));
    state.update_matched_archetypes(&entities);
    assert_eq!(state.matched_entities(&entities), vec![a]);
    let b = entities.spawn(vec![(info(1), 2), (info(4), 2)]);
    state.update_matched_archetypes(&entities);
    let found = state.matched_entities(&entities);
    assert_eq!(found.len(), 2);
    assert!(found.contains(&a) && found.contains(&b));
}

#[test]
fn empty_filter_matches_every_archetype() {
    let mut entities: Entities<i32> = Entities::new();
    entities.spawn(vec![(info(1), 1)]);
    entities.spawn(vec![]);
    let storages = entities.archetype_storages();
    let f = QueryFilter::default();
    for s in storages {
        assert!(f.matches_archetype(s));
    }
    let g = filter(&[7], &[]);
    assert!(!g.matches_archetype(&storages[0]));
}

#[test]
fn colors() {
    assert_eq!(Srgba8::rgb(1, 2, 3), Srgba8 { red: 1, green: 2, blue: 3, alpha: 255 });
    assert_eq!(Srgba8::rgba(1, 2, 3, 4).alpha, 4);
    assert!(Srgba8::transparent().is_transparent());
    assert!(!Srgba8::white().is_transparent());
    assert_eq!(Srgba8::black(), Srgba8::rgb(0, 0, 0));
    assert_eq!(Srgba8::red(), Srgba8::rgb(255, 0, 0));
    assert_eq!(Srgba8::green(), Srgba8::rgb(0, 255, 0));
    assert_eq!(Srgba8::blue(), Srgba8::rgb(0, 0, 255));
    assert_eq!(Srgba8::yellow(), Srgba8::rgb(255, 255, 0));
    assert_eq!(Srgba8::cyan(), Srgba8::rgb(0, 255, 255));
    assert_eq!(Srgba8::magenta(), Srgba8::rgb(255, 0, 255));
}

#[test]
fn close_requests_can_be_prevented() {
    let mut c = CloseRequested::default();
    assert!(!c.is_prevented());
    c.prevent();
    assert!(c.is_prevented());
    let f = Focused(true);
    assert!(f.0);
    let g = Glob(&5);
    assert_eq!(*g.0, 5);
}

#[test]
fn uuid_sets_are_built_by_the_filter() {
    let f = filter(&[1, 2], &[3]);
    let _with: &UuidSet = &f.with;
}

#[test]
fn updating_again_without_new_archetype_changes_nothing() {
    let mut entities: Entities<i32> = Entities::new();
    entities.spawn(vec![(info(1), 1)]);
    entities.spawn(vec![(info(2), 2)]);
    let mut state = QueryState::new(filter(&[1], &[]));
    state.update_matched_archetypes(&entities);
    let first = state.matched_entities(&entities);
    state.update_matched_archetypes(&entities);
    assert_eq!(state.matched_entities(&entities), first);
    assert_eq!(state.matched_count(&entities), 1);
}
