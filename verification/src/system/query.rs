//! Queries: the entities whose components match a filter.
use vstd::prelude::*;
use crate::collections::{UuidSet, uuid_set_elements};
use crate::entities::archetype_storage::ArchetypeStorage;
use crate::entities::entities::{ArchetypeId, Entities};
use crate::entities::entity_id::EntityId;
use crate::system::system::SystemAccess;
use crate::uuid::Uuid;

verus! {

/// A parameter of a query: what the query fetches for each entity that it matches.
pub trait QueryParam {}

/// A query parameter that only reads from the application state.
pub trait ReadOnlyQueryParam: QueryParam {}

impl QueryParam for EntityId {}

impl ReadOnlyQueryParam for EntityId {}

/// The filter that a query uses to match entities.
pub struct QueryFilter {
    /// The components that the query wants to match: they are present in all entities that
    /// the query matches.
    pub with: UuidSet,
    /// The components that the query wants to exclude: they are absent from all entities that
    /// the query matches.
    pub without: UuidSet,
}

/// Whether an entity with the components `components` passes the filter: it has each
/// component that the filter wants, and none that it excludes.
pub open spec fn filter_admits(filter: QueryFilter, components: Set<Uuid>) -> bool {
    &&& forall|u: Uuid| #[trigger] uuid_set_elements(filter.with).contains(u.spec_value()) ==> components.contains(u)
    &&& forall|u: Uuid| #[trigger] uuid_set_elements(filter.without).contains(u.spec_value()) ==> !components.contains(u)
}

impl QueryFilter {
    /// Creates a filter that matches every entity.
    pub fn new() -> (r: Self)
        ensures
            uuid_set_elements(r.with) == Set::<u128>::empty(),
            uuid_set_elements(r.without) == Set::<u128>::empty(),
    {
        QueryFilter { with: UuidSet::new(), without: UuidSet::new() }
    }

    /// Returns whether the filter matches the entities of the provided archetype.
    pub fn matches_archetype<V>(&self, archetype: &ArchetypeStorage<V>) -> (r: bool)
        requires
            archetype.wf(),
        ensures
            r == filter_admits(*self, archetype.uuids().to_set()),
    {
        let with = self.with.to_vec();
        let mut k: usize = 0;
        while k < with.len()
            invariant
                archetype.wf(),
                k <= with@.len(),
                with@.to_set() == uuid_set_elements(self.with),
                forall|q: int| 0 <= q < k ==> archetype.uuids().contains(Uuid::spec_from_value(#[trigger] with@[q])),
            decreases with@.len() - k,
        {
            let u = Uuid::from_u128(with[k]);
            if !archetype.has_component(u) {
                proof {
                    assert(uuid_set_elements(self.with).contains(u.spec_value())) by {
                        assert(with@.to_set().contains(with@[k as int]));
                    }
                    assert(!archetype.uuids().to_set().contains(u));
                }
                return false;
            }
            proof {
                Uuid::lemma_from_value(with@[k as int]);
            }
            k = k + 1;
        }
        let without = self.without.to_vec();
        let mut k: usize = 0;
        while k < without.len()
            invariant
                archetype.wf(),
                k <= without@.len(),
                without@.to_set() == uuid_set_elements(self.without),
                forall|q: int| 0 <= q < k ==> !archetype.uuids().contains(Uuid::spec_from_value(#[trigger] without@[q])),
            decreases without@.len() - k,
        {
            let u = Uuid::from_u128(without[k]);
            if archetype.has_component(u) {
                proof {
                    assert(uuid_set_elements(self.without).contains(u.spec_value())) by {
                        assert(without@.to_set().contains(without@[k as int]));
                    }
                    assert(archetype.uuids().to_set().contains(u));
                }
                return false;
            }
            proof {
                Uuid::lemma_from_value(without@[k as int]);
            }
            k = k + 1;
        }
        proof {
            assert forall|u: Uuid| #[trigger] uuid_set_elements(self.with).contains(u.spec_value())
                implies archetype.uuids().to_set().contains(u) by {
                assert(with@.to_set().contains(u.spec_value()));
                let q = choose|q: int| 0 <= q < with@.len() && with@[q] == u.spec_value();
                Uuid::lemma_from_value(with@[q]);
                Uuid::lemma_eq_iff_value(u, Uuid::spec_from_value(with@[q]));
            }
            assert forall|u: Uuid| #[trigger] uuid_set_elements(self.without).contains(u.spec_value())
                implies !archetype.uuids().to_set().contains(u) by {
                assert(without@.to_set().contains(u.spec_value()));
                let q = choose|q: int| 0 <= q < without@.len() && without@[q] == u.spec_value();
                Uuid::lemma_from_value(without@[q]);
                Uuid::lemma_eq_iff_value(u, Uuid::spec_from_value(without@[q]));
            }
        }
        true
    }
}

impl Default for QueryFilter {
    fn default() -> (r: Self)
        ensures
            uuid_set_elements(r.with) == Set::<u128>::empty(),
            uuid_set_elements(r.without) == Set::<u128>::empty(),
    {
        QueryFilter::new()
    }
}

/// Contains cached state for a query: the archetypes whose entities match its filter.
pub struct QueryState {
    /// The archetypes that match the query's filter, increasing.
    matched_archetypes: Vec<ArchetypeId>,
    /// The number of archetypes checked so far: archetypes added afterwards are checked at the
    /// next update.
    largest_checked_archetype_id: ArchetypeId,
    /// The filter that the query uses to match archetypes.
    filter: QueryFilter,
}

impl QueryState {
    /// The archetypes found to match the filter, increasing.
    pub closed spec fn matched(&self) -> Seq<ArchetypeId> {
        self.matched_archetypes@
    }

    /// The number of archetypes checked so far.
    pub closed spec fn checked(&self) -> nat {
        self.largest_checked_archetype_id as nat
    }

    /// The filter of the query.
    pub closed spec fn spec_filter(&self) -> QueryFilter {
        self.filter
    }

    /// Whether the matched archetypes are exactly the archetypes of `entities`, among the
    /// checked ones, whose entities pass the filter.
    pub open spec fn tracks<V>(&self, entities: &Entities<V>) -> bool {
        &&& self.checked() <= entities.archetype_count()
        &&& forall|x: int, y: int| 0 <= x < y < self.matched().len() ==> #[trigger] self.matched()[x] < #[trigger] self.matched()[y]
        &&& forall|k: int| 0 <= k < self.matched().len() ==> #[trigger] self.matched()[k] < self.checked()
        &&& forall|a: int|
            0 <= a < self.checked() ==> (self.matched().contains(a as usize) <==> filter_admits(
                self.spec_filter(),
                #[trigger] entities.storage(a).uuids().to_set(),
            ))
    }

    /// Creates the state of a query with the provided filter; no archetype is checked yet.
    pub fn new(filter: QueryFilter) -> (r: Self)
        ensures
            r.spec_filter() == filter,
            r.checked() == 0,
            r.matched().len() == 0,
    {
        QueryState { matched_archetypes: Vec::new(), largest_checked_archetype_id: 0, filter }
    }

    /// Checks the archetypes of `entities` added since the last update against the filter; with
    /// no new archetype, the state stays as it is.
    pub fn update_matched_archetypes<V>(&mut self, entities: &Entities<V>)
        requires
            entities.wf(),
            old(self).tracks(entities),
        ensures
            final(self).tracks(entities),
            final(self).checked() == entities.archetype_count(),
            final(self).spec_filter() == old(self).spec_filter(),
            old(self).checked() == entities.archetype_count() ==> *final(self) == *old(self),
    {
        let storages = entities.archetype_storages();
        let new_max_id = storages.len();
        let mut a = self.largest_checked_archetype_id;
        while a < new_max_id
            invariant
                entities.wf(),
                storages@.len() == entities.archetype_count(),
                forall|b: int| 0 <= b < storages@.len() ==> #[trigger] storages@[b] == entities.storage(b),
                new_max_id == storages@.len(),
                self.largest_checked_archetype_id <= a <= new_max_id,
                self.largest_checked_archetype_id == old(self).largest_checked_archetype_id,
                old(self).checked() == new_max_id ==> *self == *old(self),
                self.filter == old(self).filter,
                forall|x: int, y: int| 0 <= x < y < self.matched().len() ==> #[trigger] self.matched()[x] < #[trigger] self.matched()[y],
                forall|k: int| 0 <= k < self.matched().len() ==> #[trigger] self.matched()[k] < a,
                forall|b: int|
                    0 <= b < a ==> (self.matched().contains(b as usize) <==> filter_admits(
                        self.spec_filter(),
                        #[trigger] entities.storage(b).uuids().to_set(),
                    )),
            decreases new_max_id - a,
        {
            proof {
                entities.lemma_storage_wf(a as int);
            }
            let ghost before = self.matched();
            if self.filter.matches_archetype(&storages[a]) {
                self.matched_archetypes.push(a);
            }
            proof {
                assert forall|b: int| 0 <= b < a + 1 implies (self.matched().contains(b as usize) <==> filter_admits(
                    self.spec_filter(),
                    #[trigger] entities.storage(b).uuids().to_set(),
                )) by {
                    if b < a {
                        if before.contains(b as usize) {
                            let k = choose|k: int| 0 <= k < before.len() && before[k] == b as usize;
                            assert(self.matched()[k] == b as usize);
                        }
                        if self.matched().contains(b as usize) {
                            let k = choose|k: int| 0 <= k < self.matched().len() && self.matched()[k] == b as usize;
                            if k < before.len() {
                                assert(before[k] == b as usize);
                            }
                        }
                    } else {
                        if self.matched().contains(b as usize) {
                            let k = choose|k: int| 0 <= k < self.matched().len() && self.matched()[k] == b as usize;
                            if k < before.len() {
                                assert(before[k] == b as usize);
                            }
                        }
                        if self.matched().len() > before.len() {
                            assert(self.matched()[before.len() as int] == a);
                        }
                    }
                }
            }
            a = a + 1;
        }
        let ghost m = self.matched();
        proof {
            assert(a == new_max_id);
            assert forall|k: int| 0 <= k < m.len() implies #[trigger] m[k] < new_max_id by {}
        }
        self.largest_checked_archetype_id = new_max_id;
        proof {
            assert(self.matched() == m);
            assert(self.checked() == entities.archetype_count());
            assert forall|k: int| 0 <= k < self.matched().len() implies #[trigger] self.matched()[k] < self.checked() by {}
            assert forall|b: int|
                0 <= b < self.checked() implies (self.matched().contains(b as usize) <==> filter_admits(
                    self.spec_filter(),
                    #[trigger] entities.storage(b).uuids().to_set(),
                )) by {}
        }
    }

    /// Returns the number of entities in the matched archetypes.
    pub fn matched_count<V>(&self, entities: &Entities<V>) -> (r: usize)
        requires
            entities.wf(),
            self.tracks(entities),
            matched_rows(entities, self.matched()) <= usize::MAX,
        ensures
            r == matched_rows(entities, self.matched()),
    {
        let storages = entities.archetype_storages();
        let mut total: usize = 0;
        let mut k: usize = 0;
        while k < self.matched_archetypes.len()
            invariant
                self.tracks(entities),
                storages@.len() == entities.archetype_count(),
                forall|b: int| 0 <= b < storages@.len() ==> #[trigger] storages@[b] == entities.storage(b),
                k <= self.matched().len(),
                total == matched_rows(entities, self.matched().take(k as int)),
                matched_rows(entities, self.matched()) <= usize::MAX,
            decreases self.matched().len() - k,
        {
            proof {
                assert(self.matched().take(k + 1).drop_last() =~= self.matched().take(k as int));
                lemma_matched_rows_prefix(entities, self.matched(), k + 1);
            }
            let a = self.matched_archetypes[k];
            total = total + storages[a].len();
            k = k + 1;
        }
        proof {
            assert(self.matched().take(k as int) =~= self.matched());
        }
        total
    }
}

impl QueryState {
    /// Returns the identifiers of the entities that match the query, archetype by archetype,
    /// once every archetype is checked.
    pub fn matched_entities<V>(&self, entities: &Entities<V>) -> (r: Vec<EntityId>)
        requires
            entities.wf(),
            self.tracks(entities),
            self.checked() == entities.archetype_count(),
        ensures
            r@.no_duplicates(),
            forall|id: EntityId|
                r@.contains(id) <==> (entities.view().contains_key(id) && filter_admits(
                    self.spec_filter(),
                    entities.view()[id].dom(),
                )),
    {
        let storages = entities.archetype_storages();
        let allocator = entities.id_allocator();
        let m = self.matched_archetypes.len();
        let mut out: Vec<EntityId> = Vec::new();
        let ghost mut src: Seq<(int, int)> = Seq::empty();
        let mut k: usize = 0;
        while k < m
            invariant
                entities.wf(),
                self.tracks(entities),
                self.checked() == entities.archetype_count(),
                m == self.matched().len(),
                *allocator == entities.allocator(),
                storages@.len() == entities.archetype_count(),
                forall|b: int| 0 <= b < storages@.len() ==> #[trigger] storages@[b] == entities.storage(b),
                k <= m,
                src.len() == out@.len(),
                forall|p: int|
                    0 <= p < src.len() ==> 0 <= (#[trigger] src[p]).0 < k && 0 <= src[p].1
                        < entities.storage(self.matched()[src[p].0] as int).row_count()
                        && out@[p] == entities.entity_at(self.matched()[src[p].0] as int, src[p].1),
                forall|p: int, q: int|
                    0 <= p < q < src.len() ==> (#[trigger] src[p]).0 < (#[trigger] src[q]).0 || (src[p].0
                        == src[q].0 && src[p].1 < src[q].1),
                forall|kk: int, row: int|
                    0 <= kk < k && 0 <= row < entities.storage(self.matched()[kk] as int).row_count()
                        ==> out@.contains(#[trigger] entities.entity_at(self.matched()[kk] as int, row)),
            decreases m - k,
        {
            let a = self.matched_archetypes[k];
            let ids = storages[a].entity_indices();
            let n = ids.len();
            let mut r: usize = 0;
            while r < n
                invariant
                    entities.wf(),
                    self.tracks(entities),
                    self.checked() == entities.archetype_count(),
                    m == self.matched().len(),
                    k < m,
                    a == self.matched()[k as int],
                    a < entities.archetype_count(),
                    *allocator == entities.allocator(),
                    ids@ == entities.storage(a as int).entity_ids(),
                    n == ids@.len(),
                    r <= n,
                    src.len() == out@.len(),
                    forall|p: int|
                        0 <= p < src.len() ==> 0 <= (#[trigger] src[p]).0 <= k && 0 <= src[p].1
                            < entities.storage(self.matched()[src[p].0] as int).row_count()
                            && out@[p] == entities.entity_at(self.matched()[src[p].0] as int, src[p].1)
                            && (src[p].0 == k ==> src[p].1 < r),
                    forall|p: int, q: int|
                        0 <= p < q < src.len() ==> (#[trigger] src[p]).0 < (#[trigger] src[q]).0 || (src[p].0
                            == src[q].0 && src[p].1 < src[q].1),
                    forall|kk: int, row: int|
                        0 <= kk < k && 0 <= row < entities.storage(self.matched()[kk] as int).row_count()
                            ==> out@.contains(#[trigger] entities.entity_at(self.matched()[kk] as int, row)),
                    forall|row: int|
                        0 <= row < r ==> out@.contains(#[trigger] entities.entity_at(a as int, row)),
                decreases n - r,
            {
                proof {
                    entities.lemma_row_entity(a as int, r as int);
                }
                let id = allocator.get_id_for_index_unchecked(ids[r]);
                let ghost before = out@;
                out.push(id);
                proof {
                    src = src.push((k as int, r as int));
                    assert(out@[before.len() as int] == id);
                    assert forall|kk: int, row: int|
                        0 <= kk < k && 0 <= row < entities.storage(self.matched()[kk] as int).row_count()
                        implies out@.contains(#[trigger] entities.entity_at(self.matched()[kk] as int, row)) by {
                        let w = choose|w: int| 0 <= w < before.len() && before[w] == entities.entity_at(self.matched()[kk] as int, row);
                        assert(out@[w] == before[w]);
                    }
                    assert forall|row: int| 0 <= row < r + 1 implies out@.contains(#[trigger] entities.entity_at(a as int, row)) by {
                        if row < r {
                            let w = choose|w: int| 0 <= w < before.len() && before[w] == entities.entity_at(a as int, row);
                            assert(out@[w] == before[w]);
                        }
                    }
                }
                r = r + 1;
            }
            k = k + 1;
        }
        proof {
            let view = entities.view();
            let f = self.spec_filter();
            // No identifier comes out twice.
            assert forall|p: int, q: int| 0 <= p < out@.len() && 0 <= q < out@.len() && p != q implies out@[p] != out@[q] by {
                let (p1, q1) = if p < q { (p, q) } else { (q, p) };
                let a1 = self.matched()[src[p1].0] as int;
                let a2 = self.matched()[src[q1].0] as int;
                entities.lemma_row_entity(a1, src[p1].1);
                entities.lemma_row_entity(a2, src[q1].1);
                entities.storage(a1).lemma_row_count_bound();
                entities.storage(a2).lemma_row_count_bound();
                assert(storages@.len() == storages.len());
                if out@[p1] == out@[q1] {
                    let i = entities.storage(a1).entity_ids()[src[p1].1];
                    assert(entities.storage(a2).entity_ids()[src[q1].1] == i);
                    assert(entities.location_of(i as int).archetype as int == a1);
                    assert(entities.location_of(i as int).archetype as int == a2);
                    assert(entities.location_of(i as int).row as int == src[p1].1);
                    assert(entities.location_of(i as int).row as int == src[q1].1);
                    if src[p1].0 < src[q1].0 {
                        assert(a1 < a2);
                    }
                }
            }
            // Each identifier is a matching entity, and each matching entity is there.
            assert forall|id: EntityId|
                out@.contains(id) <==> (view.contains_key(id) && filter_admits(f, view[id].dom())) by {
                if out@.contains(id) {
                    let p = choose|p: int| 0 <= p < out@.len() && out@[p] == id;
                    let a1 = self.matched()[src[p].0] as int;
                    entities.lemma_row_entity(a1, src[p].1);
                    assert(self.matched().contains(a1 as usize));
                }
                if view.contains_key(id) && filter_admits(f, view[id].dom()) {
                    entities.lemma_live(id);
                    let i = id.spec_index() as int;
                    entities.lemma_location(i);
                    let loc = entities.location_of(i);
                    entities.lemma_row_entity(loc.archetype as int, loc.row as int);
                    assert(entities.entity_at(loc.archetype as int, loc.row as int) == id);
                    assert(self.matched().contains(loc.archetype));
                    let kk = choose|kk: int| 0 <= kk < self.matched().len() && self.matched()[kk] == loc.archetype;
                    assert(out@.contains(entities.entity_at(self.matched()[kk] as int, loc.row as int)));
                }
            }
        }
        out
    }
}

/// A query state stays up to date with entities whose archetypes are kept: a state that tracks
/// `before` tracks `after` when `after` keeps the archetypes of `before`, as every operation on
/// entities does.
pub proof fn lemma_tracks_extended<V>(state: QueryState, before: &Entities<V>, after: &Entities<V>)
    requires
        state.tracks(before),
        after.extends_archetypes(before),
    ensures
        state.tracks(after),
{
    assert forall|a: int|
        0 <= a < state.checked() implies (state.matched().contains(a as usize) <==> filter_admits(
            state.spec_filter(),
            #[trigger] after.storage(a).uuids().to_set(),
        )) by {
        assert(after.storage(a).uuids() == before.storage(a).uuids());
    }
}

/// The number of entities in the archetypes `archetypes` of `entities`.
pub open spec fn matched_rows<V>(entities: &Entities<V>, archetypes: Seq<ArchetypeId>) -> nat
    decreases archetypes.len(),
{
    if archetypes.len() == 0 {
        0
    } else {
        matched_rows(entities, archetypes.drop_last()) + entities.storage(archetypes.last() as int).row_count()
    }
}

/// A prefix of a list of archetypes holds no more entities than the list.
pub proof fn lemma_matched_rows_prefix<V>(entities: &Entities<V>, archetypes: Seq<ArchetypeId>, k: int)
    requires
        0 <= k <= archetypes.len(),
    ensures
        matched_rows(entities, archetypes.take(k)) <= matched_rows(entities, archetypes),
    decreases archetypes.len() - k,
{
    if k < archetypes.len() {
        lemma_matched_rows_prefix(entities, archetypes, k + 1);
        assert(archetypes.take(k + 1).drop_last() =~= archetypes.take(k));
    } else {
        assert(archetypes.take(k) =~= archetypes);
    }
}

/// The resources that a query accesses and the filter that it is building.
pub struct QueryAccess {
    /// The associated system access.
    pub system_access: SystemAccess,
    /// The query filter being built.
    pub filter: QueryFilter,
}

impl QueryAccess {
    /// Registers a component that the query wants to include.
    pub fn with(&mut self, component: Uuid)
        ensures
            uuid_set_elements(final(self).filter.with) == uuid_set_elements(old(self).filter.with).insert(component.spec_value()),
            final(self).filter.without == old(self).filter.without,
    {
        self.filter.with.insert(component.as_u128());
    }

    /// Registers a component that the query wants to exclude.
    pub fn without(&mut self, component: Uuid)
        ensures
            uuid_set_elements(final(self).filter.without) == uuid_set_elements(old(self).filter.without).insert(component.spec_value()),
            final(self).filter.with == old(self).filter.with,
    {
        self.filter.without.insert(component.as_u128());
    }
}

} // verus!
