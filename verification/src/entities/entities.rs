//! The collection of all entities, grouped by the components that make them up.
use vstd::prelude::*;
use crate::collections::{UuidListIndexMap, uuid_list_index_entries};
use crate::entities::archetype_components::{
    ArchetypeComponents, lemma_uuid_values_injective, sorted_distinct, uuid_values,
};
use crate::entities::archetype_storage::{
    ArchetypeStorage, EntityRow, covers_exactly, distinct_keys, has_key, lemma_pairs_map_at,
    pairs_map,
};
use crate::entities::component::{ComponentInfo, ComponentRegistry};
use crate::entities::entity::EntityRef;
use crate::entities::modify_entity::Insert;
use crate::entities::entity_id::{EntityId, EntityIdAllocator, EntityIndex, index_space};
use crate::uuid::Uuid;

verus! {

/// An identifier for an archetype stored in an [`Entities`] collection.
pub type ArchetypeId = usize;

/// The location of an entity: its archetype storage and its row there.
///
/// Unlike an [`EntityId`], a location changes when the entity's components change.
#[derive(Clone, Copy, PartialEq, Eq, Structural, Debug)]
pub struct EntityLocation {
    /// The archetype of the entity.
    pub archetype: ArchetypeId,
    /// The row of the entity within its archetype storage.
    pub row: EntityRow,
}

/// Whether a component's information can be registered: a non-zero alignment, with room to
/// round the size up to it.
pub open spec fn registrable(info: ComponentInfo) -> bool {
    info.layout.align > 0 && info.layout.size + info.layout.align <= usize::MAX
}

/// The identifiers and values of a list of components.
pub open spec fn info_pairs<V>(components: Seq<(ComponentInfo, V)>) -> Seq<(Uuid, V)> {
    components.map_values(|p: (ComponentInfo, V)| (p.0.uuid, p.1))
}

/// The components that a list of component information and values describes.
pub open spec fn component_map<V>(components: Seq<(ComponentInfo, V)>) -> Map<Uuid, V> {
    pairs_map(info_pairs(components))
}

/// A list of pairs in reverse order describes the same components.
pub proof fn lemma_pairs_map_reversed<V>(p: Seq<(Uuid, V)>, q: Seq<(Uuid, V)>)
    requires
        distinct_keys(p),
        q.len() == p.len(),
        forall|t: int| 0 <= t < q.len() ==> #[trigger] q[t] == p[p.len() - 1 - t],
    ensures
        distinct_keys(q),
        forall|u: Uuid| has_key(q, u) <==> has_key(p, u),
        pairs_map(q) == pairs_map(p),
{
    let n = p.len() as int;
    assert forall|x: int, y: int|
        0 <= x < q.len() && 0 <= y < q.len() && x != y implies (#[trigger] q[x]).0 != (
        #[trigger] q[y]).0 by {
        assert(q[x] == p[n - 1 - x]);
        assert(q[y] == p[n - 1 - y]);
    }
    assert forall|u: Uuid| has_key(q, u) <==> has_key(p, u) by {
        if has_key(q, u) {
            let t = choose|t: int| 0 <= t < q.len() && (#[trigger] q[t]).0 == u;
            assert(p[n - 1 - t] == q[t]);
        }
        if has_key(p, u) {
            let t = choose|t: int| 0 <= t < p.len() && (#[trigger] p[t]).0 == u;
            assert(q[n - 1 - t] == p[n - 1 - (n - 1 - t)]);
        }
    }
    assert forall|u: Uuid| #[trigger] pairs_map(q).contains_key(u) implies pairs_map(q)[u]
        == pairs_map(p)[u] by {
        let t = choose|t: int| 0 <= t < q.len() && (#[trigger] q[t]).0 == u;
        lemma_pairs_map_at(q, t);
        assert(q[t] == p[n - 1 - t]);
        lemma_pairs_map_at(p, n - 1 - t);
    }
    assert(pairs_map(q) =~= pairs_map(p));
}

/// The map of the pairs from position `k` on is the one from position `k + 1` on, with the
/// pair at `k` inserted.
pub proof fn lemma_pairs_map_cons<V>(p: Seq<(Uuid, V)>, k: int)
    requires
        distinct_keys(p),
        0 <= k < p.len(),
    ensures
        pairs_map(p.subrange(k, p.len() as int)) == pairs_map(p.subrange(k + 1, p.len() as int)).insert(
            p[k].0,
            p[k].1,
        ),
{
    let n = p.len() as int;
    let a = p.subrange(k, n);
    let b = p.subrange(k + 1, n);
    assert(distinct_keys(a)) by {
        assert forall|x: int, y: int| 0 <= x < a.len() && 0 <= y < a.len() && x != y implies (#[trigger] a[x]).0 != (#[trigger] a[y]).0 by {
            assert(a[x] == p[k + x]);
            assert(a[y] == p[k + y]);
        }
    }
    assert(distinct_keys(b)) by {
        assert forall|x: int, y: int| 0 <= x < b.len() && 0 <= y < b.len() && x != y implies (#[trigger] b[x]).0 != (#[trigger] b[y]).0 by {
            assert(b[x] == p[k + 1 + x]);
            assert(b[y] == p[k + 1 + y]);
        }
    }
    let target = pairs_map(b).insert(p[k].0, p[k].1);
    assert forall|u: Uuid| #[trigger] pairs_map(a).contains_key(u) <==> target.contains_key(u) by {
        if has_key(a, u) {
            let t = choose|t: int| 0 <= t < a.len() && (#[trigger] a[t]).0 == u;
            if t > 0 {
                assert(b[t - 1] == a[t]);
            }
        }
        if has_key(b, u) {
            let t = choose|t: int| 0 <= t < b.len() && (#[trigger] b[t]).0 == u;
            assert(a[t + 1] == b[t]);
        }
        assert(a[0] == p[k]);
    }
    assert forall|u: Uuid| #[trigger] pairs_map(a).contains_key(u) implies pairs_map(a)[u] == target[u] by {
        let t = choose|t: int| 0 <= t < a.len() && (#[trigger] a[t]).0 == u;
        lemma_pairs_map_at(a, t);
        if t > 0 {
            assert(b[t - 1] == a[t]);
            lemma_pairs_map_at(b, t - 1);
            assert(a[0] == p[k]);
            assert(a[t].0 != a[0].0);
        } else {
            assert(a[0] == p[k]);
        }
    }
    assert(pairs_map(a) =~= target);
}

/// Spawning an entity and then despawning it leaves the entities that there were, once
/// flushed: `spawned` is `before` after a spawn that returned `id`, and `after` is `spawned`
/// after the despawn of `id`.
pub proof fn lemma_spawn_then_despawn<V>(
    before: Entities<V>,
    spawned: Entities<V>,
    after: Entities<V>,
    id: EntityId,
    components: Seq<(ComponentInfo, V)>,
)
    requires
        !before.flushed_view().contains_key(id),
        spawned.view() == before.flushed_view().insert(id, component_map(components)),
        spawned.pending().len() == 0,
        after.view() == spawned.flushed_view().remove(id),
    ensures
        after.view() == before.flushed_view(),
{
    assert(spawned.flushed_view() =~= spawned.view());
    assert(after.view() =~= before.flushed_view());
}

/// After components are inserted into an entity, the entity has each inserted value, and keeps
/// the components that were not inserted: `after` is `before` after an insertion of
/// `components` into `entity` that found it live.
pub proof fn lemma_insert_then_get<V>(
    before: Entities<V>,
    after: Entities<V>,
    entity: EntityId,
    components: Seq<(ComponentInfo, V)>,
)
    requires
        distinct_keys(info_pairs(components)),
        before.flushed_view().contains_key(entity),
        after.view() == before.flushed_view().insert(
            entity,
            before.flushed_view()[entity].union_prefer_right(component_map(components)),
        ),
    ensures
        forall|t: int|
            0 <= t < components.len() ==> after.view()[entity].contains_key((#[trigger] components[t]).0.uuid)
                && after.view()[entity][components[t].0.uuid] == components[t].1,
        forall|u: Uuid|
            #[trigger] before.flushed_view()[entity].contains_key(u) && !component_map(components).contains_key(u)
                ==> after.view()[entity].contains_key(u) && after.view()[entity][u] == before.flushed_view()[entity][u],
        forall|x: EntityId|
            x != entity && #[trigger] before.flushed_view().contains_key(x) ==> after.view().contains_key(x)
                && after.view()[x] == before.flushed_view()[x],
{
    assert forall|t: int| 0 <= t < components.len() implies after.view()[entity].contains_key((#[trigger] components[t]).0.uuid)
        && after.view()[entity][components[t].0.uuid] == components[t].1 by {
        let p = info_pairs(components);
        assert(p[t] == (components[t].0.uuid, components[t].1));
        lemma_pairs_map_at(p, t);
    }
}

/// Returns whether `u` is one of the identifiers of `uuids`.
fn contains_uuid(uuids: &Vec<Uuid>, u: Uuid) -> (r: bool)
    ensures
        r == uuids@.contains(u),
{
    let mut i: usize = 0;
    while i < uuids.len()
        invariant
            i <= uuids@.len(),
            forall|t: int| 0 <= t < i ==> uuids@[t] != u,
        decreases uuids@.len() - i,
    {
        if uuids[i] == u {
            return true;
        }
        i = i + 1;
    }
    false
}

/// Merges two lists of pairs with distinct identifiers: the result holds the pairs of `new`,
/// and those of `old` whose identifier `new` does not hold.
fn merge_pairs<V>(old: Vec<(Uuid, V)>, new: Vec<(Uuid, V)>, new_uuids: &Vec<Uuid>) -> (r: Vec<(Uuid, V)>)
    requires
        distinct_keys(old@),
        distinct_keys(new@),
        new_uuids@.len() == new@.len(),
        forall|t: int| 0 <= t < new@.len() ==> #[trigger] new_uuids@[t] == new@[t].0,
    ensures
        distinct_keys(r@),
        forall|u: Uuid| has_key(r@, u) <==> has_key(old@, u) || has_key(new@, u),
        pairs_map(r@) == pairs_map(old@).union_prefer_right(pairs_map(new@)),
{
    let ghost o = old@;
    let ghost w = new@;
    let mut old = old;
    let mut out: Vec<(Uuid, V)> = Vec::new();
    let ghost mut pos: Seq<int> = Seq::empty();
    proof {
        assert(o.subrange(0, o.len() as int) =~= o);
    }
    while old.len() > 0
        invariant
            old@ == o.subrange(0, old@.len() as int),
            old@.len() <= o.len(),
            distinct_keys(o),
            new_uuids@.len() == w.len(),
            forall|t: int| 0 <= t < w.len() ==> #[trigger] new_uuids@[t] == w[t].0,
            pos.len() == out@.len(),
            forall|t: int|
                0 <= t < out@.len() ==> old@.len() <= #[trigger] pos[t] < o.len() && out@[t] == o[pos[t]]
                    && !has_key(w, out@[t].0),
            forall|s: int|
                old@.len() <= s < o.len() && !has_key(w, (#[trigger] o[s]).0) ==> has_key(out@, o[s].0),
            forall|t1: int, t2: int| 0 <= t1 < t2 < pos.len() ==> #[trigger] pos[t1] > #[trigger] pos[t2],
        decreases old@.len(),
    {
        let ghost k = (old@.len() - 1) as int;
        let ghost before = old@;
        let ghost prev_out = out@;
        match old.pop() {
            Some(p) => {
                proof {
                    assert(before[k] == o[k]);
                    assert(old@ =~= o.subrange(0, old@.len() as int));
                }
                if !contains_uuid(new_uuids, p.0) {
                    proof {
                        assert forall|t: int| 0 <= t < w.len() implies w[t].0 != p.0 by {
                            assert(new_uuids@[t] == w[t].0);
                        }
                    }
                    out.push(p);
                    proof {
                        pos = pos.push(k);
                        assert(out@[out@.len() - 1] == o[k]);
                    }
                } else {
                    proof {
                        let t = choose|t: int| 0 <= t < new_uuids@.len() && new_uuids@[t] == p.0;
                        assert(w[t].0 == p.0);
                    }
                }
                proof {
                    assert forall|s: int|
                        old@.len() <= s < o.len() && !has_key(w, (#[trigger] o[s]).0) implies has_key(out@, o[s].0) by {
                        if s == k {
                            assert(out@[out@.len() - 1] == o[k]);
                        } else {
                            assert(has_key(prev_out, o[s].0));
                            let t = choose|t: int| 0 <= t < prev_out.len() && (#[trigger] prev_out[t]).0 == o[s].0;
                            assert(out@[t] == prev_out[t]);
                        }
                    }
                }
            },
            None => {},
        }
    }
    let ghost out1 = out@;
    let ghost n1 = out1.len() as int;
    let mut new = new;
    proof {
        assert(w.subrange(0, w.len() as int) =~= w);
    }
    while new.len() > 0
        invariant
            new@ == w.subrange(0, new@.len() as int),
            new@.len() <= w.len(),
            n1 == out1.len(),
            out@.len() == n1 + (w.len() - new@.len()),
            forall|t: int| 0 <= t < n1 ==> #[trigger] out@[t] == out1[t],
            forall|t: int| n1 <= t < out@.len() ==> #[trigger] out@[t] == w[w.len() - 1 - (t - n1)],
        decreases new@.len(),
    {
        let ghost before = new@;
        match new.pop() {
            Some(p) => {
                proof {
                    assert(before[before.len() - 1] == w[before.len() - 1]);
                    assert(new@ =~= w.subrange(0, new@.len() as int));
                }
                out.push(p);
            },
            None => {},
        }
    }
    proof {
        let nw = w.len() as int;
        assert forall|a: int, b: int|
            0 <= a < out@.len() && 0 <= b < out@.len() && a != b implies (#[trigger] out@[a]).0 != (
            #[trigger] out@[b]).0 by {
            if a < n1 && b < n1 {
                assert(out@[a] == o[pos[a]]);
                assert(out@[b] == o[pos[b]]);
                if a < b {
                    assert(pos[a] > pos[b]);
                } else {
                    assert(pos[b] > pos[a]);
                }
            } else if a < n1 {
                assert(out@[b] == w[nw - 1 - (b - n1)]);
                assert(!has_key(w, out1[a].0));
            } else if b < n1 {
                assert(out@[a] == w[nw - 1 - (a - n1)]);
                assert(!has_key(w, out1[b].0));
            } else {
                assert(out@[a] == w[nw - 1 - (a - n1)]);
                assert(out@[b] == w[nw - 1 - (b - n1)]);
            }
        }
        assert forall|u: Uuid| has_key(out@, u) <==> has_key(o, u) || has_key(w, u) by {
            if has_key(out@, u) {
                let t = choose|t: int| 0 <= t < out@.len() && (#[trigger] out@[t]).0 == u;
                if t < n1 {
                    assert(out@[t] == o[pos[t]]);
                } else {
                    assert(out@[t] == w[nw - 1 - (t - n1)]);
                }
            }
            if has_key(w, u) {
                let s = choose|s: int| 0 <= s < w.len() && (#[trigger] w[s]).0 == u;
                let t = n1 + (nw - 1 - s);
                assert(out@[t] == w[nw - 1 - (t - n1)]);
            } else if has_key(o, u) {
                let s = choose|s: int| 0 <= s < o.len() && (#[trigger] o[s]).0 == u;
                let t = choose|t: int| 0 <= t < out1.len() && (#[trigger] out1[t]).0 == o[s].0;
                assert(out@[t] == out1[t]);
            }
        }
        let target = pairs_map(o).union_prefer_right(pairs_map(w));
        assert forall|u: Uuid| #[trigger] pairs_map(out@).contains_key(u) implies pairs_map(out@)[u] == target[u] by {
            let t = choose|t: int| 0 <= t < out@.len() && (#[trigger] out@[t]).0 == u;
            lemma_pairs_map_at(out@, t);
            if t < n1 {
                assert(out@[t] == o[pos[t]]);
                lemma_pairs_map_at(o, pos[t]);
            } else {
                assert(out@[t] == w[nw - 1 - (t - n1)]);
                lemma_pairs_map_at(w, nw - 1 - (t - n1));
            }
        }
        assert(pairs_map(out@) =~= target);
    }
    out
}

/// A collection of entities that are stored efficiently in memory and grouped by the
/// components that make them up.
pub struct Entities<V> {
    /// The components that are stored in the collection.
    components: ComponentRegistry,
    /// The allocator responsible for creating entity identifiers; the metadata of an entity is
    /// its location.
    id_allocator: EntityIdAllocator<EntityLocation>,
    /// Maps the components of an archetype, as the values of their identifiers, to its id.
    archetype_ids: UuidListIndexMap,
    /// The archetypes that are responsible for storing entities, indexed by [`ArchetypeId`]s.
    archetypes: Vec<ArchetypeStorage<V>>,
}

impl<V> Entities<V> {
    /// The identifier allocator.
    pub closed spec fn allocator(&self) -> EntityIdAllocator<EntityLocation> {
        self.id_allocator
    }

    /// The component registry.
    pub closed spec fn registry(&self) -> ComponentRegistry {
        self.components
    }

    /// The number of archetypes.
    pub closed spec fn archetype_count(&self) -> nat {
        self.archetypes@.len()
    }

    /// The storage of archetype `a`.
    pub closed spec fn storage(&self, a: int) -> ArchetypeStorage<V> {
        self.archetypes@[a]
    }

    /// The location recorded for slot `i`.
    pub open spec fn location_of(&self, i: int) -> EntityLocation {
        self.allocator().metadata_at(i)
    }

    /// The live entities and their components.
    pub open spec fn view(&self) -> Map<EntityId, Map<Uuid, V>> {
        Map::new(
            |id: EntityId| self.allocator().is_live(id),
            |id: EntityId|
                self.storage(self.location_of(id.spec_index() as int).archetype as int).row(
                    self.location_of(id.spec_index() as int).row as int,
                ),
        )
    }

    /// The identifiers that have been reserved and not flushed yet.
    pub open spec fn pending(&self) -> Seq<EntityId> {
        self.allocator().pending()
    }

    /// The entities once the reserved identifiers are flushed: each of them is an entity with
    /// no components.
    pub open spec fn flushed_view(&self) -> Map<EntityId, Map<Uuid, V>> {
        self.view().union_prefer_right(
            Map::new(|id: EntityId| self.pending().contains(id), |id: EntityId| Map::empty()),
        )
    }

    /// Whether the machine limits leave room for flushing the reserved identifiers and adding
    /// one more entity to any archetype.
    pub open spec fn within_limits(&self) -> bool {
        &&& self.allocator().slot_count() + self.allocator().fresh_reserved() < index_space()
        &&& self.allocator().slot_count() + self.allocator().fresh_reserved() < isize::MAX
        &&& forall|a: int|
            0 <= a < self.archetype_count() ==> (#[trigger] self.storage(a)).can_reserve_one()
    }

    /// Whether `self` keeps the archetypes of `old`, each with its components, possibly with
    /// more archetypes.
    pub open spec fn extends_archetypes(&self, old: &Self) -> bool {
        &&& old.archetype_count() <= self.archetype_count()
        &&& forall|a: int|
            0 <= a < old.archetype_count() ==> #[trigger] self.storage(a).uuids() == old.storage(a).uuids()
    }

    /// The internal consistency of the collection.
    pub closed spec fn wf(&self) -> bool {
        let entries = uuid_list_index_entries(self.archetype_ids);
        &&& self.components.wf()
        &&& self.id_allocator.wf()
        &&& forall|a: int| 0 <= a < self.archetypes@.len() ==> (#[trigger] self.archetypes@[a]).wf()
        &&& forall|key: Seq<u128>|
            #[trigger] entries.contains_key(key) ==> entries[key] < self.archetypes@.len()
                && uuid_values(self.archetypes@[entries[key] as int].uuids()) == key
        &&& forall|a: int|
            0 <= a < self.archetypes@.len() ==> entries.contains_key(
                uuid_values((#[trigger] self.archetypes@[a]).uuids()),
            ) && entries[uuid_values(self.archetypes@[a].uuids())] == a
        &&& forall|a: int, u: Uuid|
            0 <= a < self.archetypes@.len() && (#[trigger] self.archetypes@[a]).uuids().contains(u)
                ==> #[trigger] self.components.view().contains_key(u)
        &&& forall|u: Uuid|
            #[trigger] self.components.view().contains_key(u) ==> registrable(
                self.components.view()[u],
            )
        &&& forall|i: int|
            #[trigger] self.id_allocator.slot_in_use(i) ==> {
                let loc = self.id_allocator.metadata_at(i);
                &&& loc.archetype < self.archetypes@.len()
                &&& loc.row < self.archetypes@[loc.archetype as int].row_count()
                &&& self.archetypes@[loc.archetype as int].entity_ids()[loc.row as int] == i
            }
        &&& forall|a: int, r: int|
            0 <= a < self.archetypes@.len() && 0 <= r < self.archetypes@[a].row_count() ==> {
                let i = (#[trigger] self.archetypes@[a].entity_ids()[r]) as int;
                &&& self.id_allocator.slot_in_use(i)
                &&& self.id_allocator.metadata_at(i) == EntityLocation {
                    archetype: a as usize,
                    row: r as usize,
                }
            }
    }

    /// Creates an empty collection.
    pub fn new() -> (r: Self)
        ensures
            r.wf(),
            r.view() == Map::<EntityId, Map<Uuid, V>>::empty(),
            r.pending().len() == 0,
            r.within_limits(),
            r.archetype_count() == 0,
    {
        let r = Entities {
            components: ComponentRegistry::new(),
            id_allocator: EntityIdAllocator::new(),
            archetype_ids: UuidListIndexMap::new(),
            archetypes: Vec::new(),
        };
        proof {
            assert(r.view() =~= Map::<EntityId, Map<Uuid, V>>::empty());
            assert(r.pending() =~= Seq::<EntityId>::empty());
        }
        r
    }

    /// Returns a shared reference to the allocator used to create new [`EntityId`]s.
    pub fn id_allocator(&self) -> (r: &EntityIdAllocator<EntityLocation>)
        ensures
            *r == self.allocator(),
    {
        &self.id_allocator
    }

    /// Returns the storages of the archetypes, indexed by [`ArchetypeId`].
    pub fn archetype_storages(&self) -> (r: &[ArchetypeStorage<V>])
        ensures
            r@.len() == self.archetype_count(),
            forall|a: int| 0 <= a < r@.len() ==> #[trigger] r@[a] == self.storage(a),
    {
        self.archetypes.as_slice()
    }

    /// Returns the archetype id for the given components, creating an empty archetype storage
    /// for them when there is none yet.
    pub fn get_archetype_id(&mut self, components: ArchetypeComponents) -> (r: ArchetypeId)
        requires
            old(self).wf(),
            sorted_distinct(components@),
            forall|u: Uuid| #[trigger] components@.contains(u) ==> old(self).registry().view().contains_key(u),
        ensures
            final(self).wf(),
            r < final(self).archetype_count(),
            final(self).storage(r as int).uuids() == components@,
            final(self).allocator() == old(self).allocator(),
            final(self).registry() == old(self).registry(),
            old(self).archetype_count() <= final(self).archetype_count() <= old(self).archetype_count() + 1,
            forall|a: int| 0 <= a < old(self).archetype_count() ==> #[trigger] final(self).storage(a) == old(self).storage(a),
            r >= old(self).archetype_count() ==> final(self).storage(r as int).row_count() == 0,
            old(self).within_limits() ==> final(self).within_limits(),
            final(self).view() == old(self).view(),
            (exists|a: int| 0 <= a < old(self).archetype_count() && #[trigger] old(self).storage(a).uuids() == components@)
                ==> r < old(self).archetype_count() && final(self).archetype_count() == old(self).archetype_count(),
            (forall|a: int| 0 <= a < old(self).archetype_count() ==> #[trigger] old(self).storage(a).uuids() != components@)
                ==> r == old(self).archetype_count() && final(self).archetype_count() == old(self).archetype_count() + 1,
    {
        let key = components.to_key();
        match self.archetype_ids.get(key.as_slice()) {
            Some(a) => {
                proof {
                    lemma_uuid_values_injective(self.archetypes@[a as int].uuids(), components@);
                    assert(old(self).storage(a as int).uuids() == components@);
                }
                a
            },
            None => {
                let ghost o = *self;
                proof {
                    assert forall|b: int| 0 <= b < o.archetype_count() implies #[trigger] o.storage(b).uuids() != components@ by {
                        if o.storage(b).uuids() == components@ {
                            assert(uuid_list_index_entries(o.archetype_ids).contains_key(uuid_values(o.archetypes@[b].uuids())));
                        }
                    }
                }
                let uuids = components.as_uuids();
                let mut infos: Vec<ComponentInfo> = Vec::new();
                let mut k: usize = 0;
                while k < uuids.len()
                    invariant
                        o.components.wf(),
                        self.components == o.components,
                        uuids@ == components@,
                        forall|u: Uuid| #[trigger] components@.contains(u) ==> o.components.view().contains_key(u),
                        forall|u: Uuid|
                            #[trigger] o.components.view().contains_key(u) ==> registrable(
                                o.components.view()[u],
                            ),
                        k <= uuids@.len(),
                        infos@.len() == k,
                        forall|t: int| 0 <= t < k ==> #[trigger] infos@[t] == o.components.view()[components@[t]],
                        forall|t: int| 0 <= t < k ==> (#[trigger] infos@[t]).uuid == components@[t],
                    decreases uuids@.len() - k,
                {
                    let u = uuids[k];
                    proof {
                        assert(components@.contains(u)) by {
                            assert(components@[k as int] == u);
                        }
                        o.components.lemma_record_uuid(u);
                    }
                    match self.components.get_by_uuid(u) {
                        Some(info) => infos.push(info),
                        None => {},
                    }
                    k = k + 1;
                }
                proof {
                    assert(infos@.map_values(|i: ComponentInfo| i.uuid) =~= components@);
                    assert forall|t: int| 0 <= t < infos@.len() implies (#[trigger] infos@[t]).layout.align > 0
                        && infos@[t].layout.size + infos@[t].layout.align <= usize::MAX by {
                        assert(components@.contains(components@[t]));
                    }
                }
                let storage = ArchetypeStorage::new(infos);
                let a = self.archetypes.len();
                self.archetypes.push(storage);
                self.archetype_ids.insert(key, a);
                proof {
                    let e0 = uuid_list_index_entries(o.archetype_ids);
                    let e1 = uuid_list_index_entries(self.archetype_ids);
                    assert(self.archetypes@[a as int].uuids() == components@);
                    assert forall|b: int| 0 <= b < self.archetypes@.len() implies e1.contains_key(
                        uuid_values((#[trigger] self.archetypes@[b]).uuids()),
                    ) && e1[uuid_values(self.archetypes@[b].uuids())] == b by {
                        if b < a {
                            assert(self.archetypes@[b] == o.archetypes@[b]);
                            assert(uuid_values(o.archetypes@[b].uuids()) != key@);
                        }
                    }
                    assert forall|kk: Seq<u128>| #[trigger] e1.contains_key(kk) implies e1[kk] < self.archetypes@.len()
                        && uuid_values(self.archetypes@[e1[kk] as int].uuids()) == kk by {
                        if kk != key@ {
                            assert(self.archetypes@[e0[kk] as int] == o.archetypes@[e0[kk] as int]);
                        }
                    }
                    assert forall|b: int, u: Uuid|
                        0 <= b < self.archetypes@.len() && (#[trigger] self.archetypes@[b]).uuids().contains(u)
                        implies #[trigger] self.components.view().contains_key(u) by {
                        if b < a {
                            assert(self.archetypes@[b] == o.archetypes@[b]);
                        }
                    }
                    assert forall|i: int| #[trigger] self.id_allocator.slot_in_use(i) implies {
                        let loc = self.id_allocator.metadata_at(i);
                        &&& loc.archetype < self.archetypes@.len()
                        &&& loc.row < self.archetypes@[loc.archetype as int].row_count()
                        &&& self.archetypes@[loc.archetype as int].entity_ids()[loc.row as int] == i
                    } by {
                        let loc = self.id_allocator.metadata_at(i);
                        assert(self.archetypes@[loc.archetype as int] == o.archetypes@[loc.archetype as int]);
                    }
                    assert forall|b: int, r: int|
                        0 <= b < self.archetypes@.len() && 0 <= r < self.archetypes@[b].row_count() implies {
                        let i = (#[trigger] self.archetypes@[b].entity_ids()[r]) as int;
                        &&& self.id_allocator.slot_in_use(i)
                        &&& self.id_allocator.metadata_at(i) == EntityLocation {
                            archetype: b as usize,
                            row: r as usize,
                        }
                    } by {
                        assert(b < a);
                        assert(self.archetypes@[b] == o.archetypes@[b]);
                    }
                    assert(self.view() =~= o.view()) by {
                        assert forall|id: EntityId| #[trigger] self.view().contains_key(id) implies self.view()[id] == o.view()[id] by {
                            let loc = o.location_of(id.spec_index() as int);
                            assert(o.id_allocator.slot_in_use(id.spec_index() as int));
                            assert(self.archetypes@[loc.archetype as int] == o.archetypes@[loc.archetype as int]);
                        }
                    }
                    assert forall|b: int| 0 <= b < self.archetype_count() && o.within_limits() implies (#[trigger] self.storage(b)).can_reserve_one() by {
                        if b < a {
                            assert(self.storage(b) == o.storage(b));
                        }
                    }
                }
                a
            },
        }
    }

    /// Flushes the reserved identifiers: each becomes an entity with no components.
    pub fn flush(&mut self)
        requires
            old(self).wf(),
            old(self).within_limits(),
        ensures
            final(self).wf(),
            final(self).within_limits(),
            final(self).view() == old(self).flushed_view(),
            final(self).pending().len() == 0,
            final(self).allocator().is_flushed(),
            final(self).registry() == old(self).registry(),
            final(self).allocator().slot_count() == old(self).allocator().slot_count()
                + old(self).allocator().fresh_reserved(),
            forall|x: EntityId|
                #[trigger] old(self).allocator().is_stale(x) ==> final(self).allocator().is_stale(x),
            final(self).extends_archetypes(old(self)),
            final(self).archetype_count() <= old(self).archetype_count() + 1,
            forall|i: int|
                #[trigger] old(self).allocator().slot_in_use(i) ==> final(self).allocator().slot_in_use(i)
                    && final(self).location_of(i) == old(self).location_of(i),
            old(self).pending().len() == 0 ==> forall|i: int|
                #[trigger] final(self).allocator().slot_in_use(i) ==> old(self).allocator().slot_in_use(i),
            forall|b: int|
                0 <= b < old(self).archetype_count() ==> #[trigger] final(self).storage(b).entity_ids().subrange(
                    0,
                    old(self).storage(b).row_count() as int,
                ) == old(self).storage(b).entity_ids(),
            forall|b: int|
                0 <= b < final(self).archetype_count() ==> #[trigger] final(self).storage(b).row_count() == (if b
                    < old(self).archetype_count() {
                    old(self).storage(b).row_count()
                } else {
                    0
                }) + (if final(self).storage(b).uuids() == Seq::<Uuid>::empty() {
                    old(self).pending().len()
                } else {
                    0
                }),
    {
        let ghost o = *self;
        let a = self.get_archetype_id(ArchetypeComponents::empty());
        let ghost mid = *self;
        proof {
            mid.id_allocator.lemma_pending_fresh();
        }
        let ids = self.id_allocator.pending_ids();
        let ghost base = mid.archetypes@[a as int].row_count();
        let mut metadata: Vec<EntityLocation> = Vec::new();
        let mut k: usize = 0;
        while k < ids.len()
            invariant
                mid.wf(),
                a < mid.archetypes@.len(),
                mid.archetypes@[a as int].uuids() == Seq::<Uuid>::empty(),
                base == mid.archetypes@[a as int].row_count(),
                ids@ == mid.id_allocator.pending(),
                k <= ids@.len(),
                self.id_allocator == mid.id_allocator,
                self.components == mid.components,
                self.archetype_ids == mid.archetype_ids,
                self.archetypes@.len() == mid.archetypes@.len(),
                forall|b: int| 0 <= b < self.archetypes@.len() && b != a ==> #[trigger] self.archetypes@[b] == mid.archetypes@[b],
                self.archetypes@[a as int].wf(),
                self.archetypes@[a as int].uuids() == Seq::<Uuid>::empty(),
                self.archetypes@[a as int].entity_ids().len() == base + k,
                forall|r: int| 0 <= r < base ==> #[trigger] self.archetypes@[a as int].entity_ids()[r] == mid.archetypes@[a as int].entity_ids()[r],
                forall|t: int| 0 <= t < k ==> #[trigger] self.archetypes@[a as int].entity_ids()[base + t] == ids@[t].spec_index(),
                metadata@.len() == k,
                forall|t: int| 0 <= t < k ==> (#[trigger] metadata@[t]).archetype == a && metadata@[t].row == base + t,
            decreases ids@.len() - k,
        {
            let row = self.archetypes[a].len();
            let index = ids[k].index();
            let ghost before = self.archetypes@[a as int];
            proof {
                assert(covers_exactly(Seq::<(Uuid, V)>::empty(), before.uuids())) by {
                    assert forall|u: Uuid| has_key(Seq::<(Uuid, V)>::empty(), u) <==> #[trigger] before.uuids().contains(u) by {}
                }
            }
            self.archetypes[a].push_assume_capacity(index, Vec::new());
            metadata.push(EntityLocation { archetype: a, row });
            proof {
                assert forall|t: int| 0 <= t < k + 1 implies #[trigger] self.archetypes@[a as int].entity_ids()[base + t] == ids@[t].spec_index() by {
                    if t < k {
                        assert(self.archetypes@[a as int].entity_ids()[base + t] == before.entity_ids()[base + t]);
                    }
                }
                assert forall|r: int| 0 <= r < base implies #[trigger] self.archetypes@[a as int].entity_ids()[r] == mid.archetypes@[a as int].entity_ids()[r] by {
                    assert(self.archetypes@[a as int].entity_ids()[r] == before.entity_ids()[r]);
                }
            }
            k = k + 1;
        }
        let ghost before_flush = *self;
        self.id_allocator.flush(metadata);
        proof {
            let pend = mid.id_allocator.pending();
            let al0 = mid.id_allocator;
            let al1 = self.id_allocator;
            al0.lemma_wf();
            // Locations of slots in use.
            assert forall|i: int| #[trigger] al1.slot_in_use(i) implies {
                let loc = al1.metadata_at(i);
                &&& loc.archetype < self.archetypes@.len()
                &&& loc.row < self.archetypes@[loc.archetype as int].row_count()
                &&& self.archetypes@[loc.archetype as int].entity_ids()[loc.row as int] == i
            } by {
                if al0.slot_in_use(i) {
                    assert(!al0.free_slots().contains(i as u32));
                    assert(!al0.free_slots().subrange(al0.drain_start(), al0.free_slots().len() as int).contains(i as u32)) by {
                        if al0.free_slots().subrange(al0.drain_start(), al0.free_slots().len() as int).contains(i as u32) {
                            let w = al0.free_slots().subrange(al0.drain_start(), al0.free_slots().len() as int);
                            let t = choose|t: int| 0 <= t < w.len() && w[t] == i as u32;
                            assert(al0.free_slots()[al0.drain_start() + t] == i as u32);
                        }
                    }
                    assert(al1.metadata_at(i) == al0.metadata_at(i));
                    let loc = al0.metadata_at(i);
                    if loc.archetype != a {
                        assert(self.archetypes@[loc.archetype as int] == mid.archetypes@[loc.archetype as int]);
                    }
                } else {
                    let t = choose|t: int| 0 <= t < pend.len() && (#[trigger] pend[t]).spec_index() == i;
                    assert(al1.metadata_at(pend[t].spec_index() as int) == metadata@[t]);
                    assert(self.archetypes@[a as int].entity_ids()[base + t] == ids@[t].spec_index());
                }
            }
            assert forall|b: int, r: int|
                0 <= b < self.archetypes@.len() && 0 <= r < self.archetypes@[b].row_count() implies {
                let i = (#[trigger] self.archetypes@[b].entity_ids()[r]) as int;
                &&& al1.slot_in_use(i)
                &&& al1.metadata_at(i) == EntityLocation { archetype: b as usize, row: r as usize }
            } by {
                let i = self.archetypes@[b].entity_ids()[r] as int;
                if b != a || r < base {
                    if b != a {
                        assert(self.archetypes@[b] == mid.archetypes@[b]);
                    } else {
                        assert(self.archetypes@[a as int].entity_ids()[r] == mid.archetypes@[a as int].entity_ids()[r]);
                    }
                    assert(mid.archetypes@[b].entity_ids()[r] == i);
                    assert(al0.slot_in_use(i));
                    assert(!al0.free_slots().subrange(al0.drain_start(), al0.free_slots().len() as int).contains(i as u32)) by {
                        if al0.free_slots().subrange(al0.drain_start(), al0.free_slots().len() as int).contains(i as u32) {
                            let w = al0.free_slots().subrange(al0.drain_start(), al0.free_slots().len() as int);
                            let t = choose|t: int| 0 <= t < w.len() && w[t] == i as u32;
                            assert(al0.free_slots()[al0.drain_start() + t] == i as u32);
                        }
                    }
                } else {
                    let t = r - base;
                    assert(self.archetypes@[a as int].entity_ids()[base + t] == ids@[t].spec_index());
                    assert(al1.is_live(pend[t]));
                    assert(al1.metadata_at(pend[t].spec_index() as int) == metadata@[t]);
                }
            }
            assert forall|b: int| 0 <= b < self.archetypes@.len() implies (#[trigger] self.archetypes@[b]).wf() by {
                if b != a {
                    assert(self.archetypes@[b] == mid.archetypes@[b]);
                }
            }
            assert forall|b: int, u: Uuid|
                0 <= b < self.archetypes@.len() && (#[trigger] self.archetypes@[b]).uuids().contains(u)
                implies #[trigger] self.components.view().contains_key(u) by {
                if b != a {
                    assert(self.archetypes@[b] == mid.archetypes@[b]);
                }
            }
            assert forall|b: int| 0 <= b < self.archetype_count() implies (#[trigger] self.storage(b)).can_reserve_one() by {
                if b != a {
                    assert(self.storage(b) == mid.storage(b));
                }
            }
            // The entities.
            let target = o.flushed_view();
            assert(mid.pending() == o.pending());
            assert forall|id: EntityId| #[trigger] self.view().contains_key(id) <==> target.contains_key(id) by {
                if self.view().contains_key(id) {
                    assert(al0.is_live(id) || pend.contains(id));
                }
                if pend.contains(id) {
                    let t = choose|t: int| 0 <= t < pend.len() && pend[t] == id;
                    assert(al1.is_live(pend[t]));
                }
            }
            assert forall|id: EntityId| #[trigger] self.view().contains_key(id) implies self.view()[id] == target[id] by {
                let i = id.spec_index() as int;
                let loc = al1.metadata_at(i);
                if pend.contains(id) {
                    let t = choose|t: int| 0 <= t < pend.len() && pend[t] == id;
                    assert(loc == metadata@[t]);
                    assert(self.view()[id] =~= Map::<Uuid, V>::empty());
                } else {
                    assert(al0.is_live(id));
                    assert(!al0.free_slots().subrange(al0.drain_start(), al0.free_slots().len() as int).contains(i as u32)) by {
                        if al0.free_slots().subrange(al0.drain_start(), al0.free_slots().len() as int).contains(i as u32) {
                            let w = al0.free_slots().subrange(al0.drain_start(), al0.free_slots().len() as int);
                            let t = choose|t: int| 0 <= t < w.len() && w[t] == i as u32;
                            assert(al0.free_slots()[al0.drain_start() + t] == i as u32);
                        }
                    }
                    assert(loc == al0.metadata_at(i));
                    if loc.archetype != a {
                        assert(self.archetypes@[loc.archetype as int] == mid.archetypes@[loc.archetype as int]);
                    } else {
                        assert(self.view()[id] =~= Map::<Uuid, V>::empty());
                        assert(mid.view()[id] =~= Map::<Uuid, V>::empty());
                    }
                    assert(mid.view().contains_key(id));
                    assert(mid.view()[id] == o.view()[id]);
                }
            }
            assert(self.view() =~= target);
            assert(self.pending() =~= Seq::<EntityId>::empty());
            assert forall|b: int| 0 <= b < o.archetype_count() implies #[trigger] self.storage(b).uuids() == o.storage(b).uuids() by {
                assert(mid.storage(b) == o.storage(b));
                if b != a {
                    assert(self.archetypes@[b] == mid.archetypes@[b]);
                }
            }
            assert(ids@.len() == o.pending().len());
            assert forall|b: int| 0 <= b < self.archetype_count() implies #[trigger] self.storage(b).row_count() == (if b
                < o.archetype_count() {
                o.storage(b).row_count()
            } else {
                0
            }) + (if self.storage(b).uuids() == Seq::<Uuid>::empty() {
                o.pending().len()
            } else {
                0
            }) by {
                if b != a {
                    assert(self.archetypes@[b] == mid.archetypes@[b]);
                    self.lemma_distinct_archetypes(a as int, b);
                    if b >= o.archetype_count() {
                        // Only the archetype without components can have been added.
                        if !exists|c: int| 0 <= c < o.archetype_count() && #[trigger] o.storage(c).uuids() == Seq::<Uuid>::empty() {
                            assert(a == o.archetype_count());
                        }
                    } else {
                        assert(mid.storage(b) == o.storage(b));
                    }
                } else {
                    if a < o.archetype_count() {
                        assert(mid.storage(a as int) == o.storage(a as int));
                    }
                }
            }
            assert forall|b: int| 0 <= b < o.archetype_count() implies #[trigger] self.storage(b).entity_ids().subrange(
                0,
                o.storage(b).row_count() as int,
            ) == o.storage(b).entity_ids() by {
                assert(mid.storage(b) == o.storage(b));
                if b != a {
                    assert(self.archetypes@[b] == mid.archetypes@[b]);
                } else {
                    assert(self.storage(b).entity_ids().subrange(0, base as int) =~= mid.storage(b).entity_ids());
                }
            }
        }
    }

    /// Spawns a new entity with the provided components, registering them; the reserved
    /// identifiers are flushed first.
    ///
    /// Returns the identifier of the new entity.
    pub fn spawn(&mut self, components: Vec<(ComponentInfo, V)>) -> (id: EntityId)
        requires
            old(self).wf(),
            old(self).within_limits(),
            distinct_keys(info_pairs(components@)),
            forall|t: int| 0 <= t < components@.len() ==> registrable(#[trigger] components@[t].0),
        ensures
            final(self).wf(),
            final(self).pending().len() == 0,
            !old(self).flushed_view().contains_key(id),
            final(self).view() == old(self).flushed_view().insert(id, component_map(components@)),
            forall|t: int|
                0 <= t < components@.len() ==> final(self).registry().view().contains_key(
                    (#[trigger] components@[t]).0.uuid,
                ),
            forall|u: Uuid|
                #[trigger] old(self).registry().view().contains_key(u)
                    ==> final(self).registry().view().contains_key(u),
            forall|x: EntityId|
                #[trigger] old(self).allocator().is_stale(x) ==> final(self).allocator().is_stale(x),
            final(self).extends_archetypes(old(self)),
    {
        self.flush();
        let ghost f = *self;
        let ghost cs = components@;
        let ghost n = cs.len() as int;
        let (uuids, pairs) = self.collect_components(components);
        let ac = ArchetypeComponents::from_unsorted_vec(uuids);
        let ghost uuids_seq = ac@;
        proof {
            assert forall|u: Uuid| #[trigger] ac@.contains(u) implies self.registry().view().contains_key(u) by {
                let t = choose|t: int| 0 <= t < uuids@.len() && uuids@[t] == u;
                assert(pairs@[t].0 == u);
            }
            assert forall|b: int| 0 <= b < self.archetype_count() implies (#[trigger] self.storage(b)).can_reserve_one() by {
                assert(self.storage(b) == f.storage(b));
            }
        }
        let a = self.get_archetype_id(ac);
        proof {
            lemma_pairs_map_reversed(info_pairs(cs), pairs@);
            assert forall|u: Uuid| has_key(pairs@, u) <==> #[trigger] self.storage(a as int).uuids().contains(u) by {
                if has_key(pairs@, u) {
                    let t = choose|t: int| 0 <= t < pairs@.len() && (#[trigger] pairs@[t]).0 == u;
                    assert(uuids@[t] == u);
                    assert(uuids@.contains(u));
                }
                if uuids_seq.contains(u) {
                    let t = choose|t: int| 0 <= t < uuids@.len() && uuids@[t] == u;
                    assert(pairs@[t].0 == u);
                }
            }
        }
        let ghost reg = self.registry();
        let id = self.spawn_in(a, pairs);
        proof {
            assert forall|t: int| 0 <= t < n implies self.registry().view().contains_key(
                (#[trigger] cs[t]).0.uuid,
            ) by {
                assert(pairs@[n - 1 - t] == info_pairs(cs)[n - 1 - (n - 1 - t)]);
                assert(reg.view().contains_key(pairs@[n - 1 - t].0));
            }
        }
        id
    }

    /// Despawns the entity at index `index`, which must be live once the reserved identifiers
    /// are flushed; they are flushed first. The last entity of its storage takes its row.
    pub fn despawn_unchecked(&mut self, index: EntityIndex)
        requires
            old(self).wf(),
            old(self).within_limits(),
            exists|id: EntityId|
                id.spec_index() == index && #[trigger] old(self).flushed_view().contains_key(id)
                    && id.spec_generation() < u32::MAX,
        ensures
            final(self).wf(),
            final(self).within_limits(),
            final(self).pending().len() == 0,
            forall|id: EntityId|
                #[trigger] old(self).flushed_view().contains_key(id) && id.spec_index() == index
                    ==> final(self).view() == old(self).flushed_view().remove(id)
                    && final(self).allocator().is_stale(id),
            final(self).registry() == old(self).registry(),
            forall|x: EntityId|
                #[trigger] old(self).allocator().is_stale(x) ==> final(self).allocator().is_stale(x),
            final(self).extends_archetypes(old(self)),
            old(self).pending().len() == 0 ==> {
                let loc = old(self).location_of(index as int);
                let moved = old(self).storage(loc.archetype as int).entity_ids().last();
                &&& forall|b: int|
                    0 <= b < final(self).archetype_count() ==> #[trigger] final(self).storage(b).row_count() == (if b
                        < old(self).archetype_count() {
                        old(self).storage(b).row_count() as int
                    } else {
                        0
                    }) - (if b == loc.archetype {
                        1int
                    } else {
                        0
                    })
                &&& forall|i: int|
                    #[trigger] final(self).allocator().slot_in_use(i) ==> final(self).location_of(i) == if i
                        == moved as int {
                        loc
                    } else {
                        old(self).location_of(i)
                    }
            },
    {
        self.flush();
        let ghost f = *self;
        proof {
            let id = choose|id: EntityId|
                id.spec_index() == index && #[trigger] old(self).flushed_view().contains_key(id)
                    && id.spec_generation() < u32::MAX;
            assert(f.view().contains_key(id));
        }
        let loc = *self.id_allocator.deallocate_unchecked(index);
        let ghost s1 = *self;
        let a = loc.archetype;
        let row = loc.row;
        proof {
            assert(f.storage(a as int).can_reserve_one());
        }
        let _removed = self.archetypes[a].swap_remove_unchecked(row);
        if row < self.archetypes[a].len() {
            let moved = self.archetypes[a].entity_indices()[row];
            proof {
                let last = f.archetypes@[a as int].row_count() - 1;
                assert(moved == f.archetypes@[a as int].entity_ids()[last]);
                assert(f.id_allocator.slot_in_use(moved as int));
            }
            *self.id_allocator.get_unchecked_mut(moved) = loc;
        }
        proof {
            assert forall|i: int| #[trigger] self.id_allocator.slot_in_use(i) <==> (f.id_allocator.slot_in_use(i) && i != index) by {
                assert(s1.id_allocator.slot_in_use(i) <==> (f.id_allocator.slot_in_use(i) && i != index));
            }
            self.lemma_despawned(&f, index, loc);
            assert forall|b: int| 0 <= b < old(self).archetype_count() implies #[trigger] self.storage(b).uuids() == old(self).storage(b).uuids() by {
                assert(f.storage(b).uuids() == old(self).storage(b).uuids());
            }
            if old(self).pending().len() == 0 {
                let o = *old(self);
                assert(o.flushed_view() =~= o.view());
                assert(o.allocator().slot_in_use(index as int));
                let la = loc.archetype as int;
                assert(f.storage(la).entity_ids() =~= f.storage(la).entity_ids().subrange(0, o.storage(la).row_count() as int));
                assert forall|i: int| #[trigger] self.allocator().slot_in_use(i) implies self.location_of(i) == if i
                    == o.storage(la).entity_ids().last() as int {
                    loc
                } else {
                    o.location_of(i)
                } by {
                    assert(f.allocator().slot_in_use(i));
                    assert(o.allocator().slot_in_use(i));
                }
            }
        }
    }

    /// What despawning the entity at `index`, located at `loc`, leaves: `self` is `f` with the
    /// row of the entity swap-removed from its storage, the slot of the entity freed, and the
    /// location of the entity moved into its row updated.
    proof fn lemma_despawned(&self, f: &Self, index: EntityIndex, loc: EntityLocation)
        requires
            f.wf(),
            f.within_limits(),
            f.id_allocator.is_flushed(),
            f.id_allocator.slot_in_use(index as int),
            loc == f.id_allocator.metadata_at(index as int),
            self.components == f.components,
            self.archetype_ids == f.archetype_ids,
            self.archetypes@.len() == f.archetypes@.len(),
            forall|b: int|
                0 <= b < f.archetypes@.len() && b != loc.archetype ==> #[trigger] self.archetypes@[b]
                    == f.archetypes@[b],
            self.archetypes@[loc.archetype as int].wf(),
            self.archetypes@[loc.archetype as int].swap_removed_rows(
                &f.archetypes@[loc.archetype as int],
                loc.row as int,
            ),
            self.archetypes@[loc.archetype as int].can_reserve_one(),
            self.id_allocator.wf(),
            self.id_allocator.is_flushed(),
            self.id_allocator.slot_count() == f.id_allocator.slot_count(),
            forall|i: int|
                #[trigger] self.id_allocator.slot_in_use(i) <==> (f.id_allocator.slot_in_use(i) && i
                    != index),
            self.id_allocator.generation_at(index as int) == f.id_allocator.generation_at(
                index as int,
            ) + 1,
            forall|i: int|
                0 <= i < f.id_allocator.slot_count() && i != index ==> #[trigger] self.id_allocator.generation_at(i)
                    == f.id_allocator.generation_at(i),
            forall|i: int|
                0 <= i < f.id_allocator.slot_count() && i != index ==> #[trigger] self.id_allocator.metadata_at(i)
                    == if loc.row < self.archetypes@[loc.archetype as int].row_count() && i
                    == f.archetypes@[loc.archetype as int].entity_ids()[self.archetypes@[loc.archetype as int].row_count() as int] {
                    loc
                } else {
                    f.id_allocator.metadata_at(i)
                },
        ensures
            self.wf(),
            self.within_limits(),
            self.pending().len() == 0,
            forall|id: EntityId|
                #[trigger] f.view().contains_key(id) && id.spec_index() == index ==> self.view()
                    == f.view().remove(id) && self.allocator().is_stale(id),
            forall|x: EntityId| #[trigger] f.allocator().is_stale(x) ==> self.allocator().is_stale(x),
            self.extends_archetypes(f),
            self.archetype_count() == f.archetype_count(),
            forall|b: int|
                0 <= b < f.archetype_count() ==> #[trigger] self.storage(b).row_count() == f.storage(b).row_count() - (if b
                    == loc.archetype {
                    1int
                } else {
                    0
                }),
            forall|i: int|
                #[trigger] self.allocator().slot_in_use(i) ==> f.allocator().slot_in_use(i) && self.location_of(i) == if i
                    == f.storage(loc.archetype as int).entity_ids().last() as int {
                    loc
                } else {
                    f.location_of(i)
                },
    {
        let al0 = f.id_allocator;
        let al2 = self.id_allocator;
        let a = loc.archetype as int;
        assert forall|b: int| 0 <= b < f.archetype_count() implies #[trigger] self.storage(b).uuids() == f.storage(b).uuids() by {
            if b != a {
                assert(self.archetypes@[b] == f.archetypes@[b]);
            }
        }
        let row = loc.row as int;
        let st0 = f.archetypes@[a];
        let st2 = self.archetypes@[a];
        let last = st0.row_count() - 1;
        let moved = st0.entity_ids()[last] as int;
        st0.lemma_row_count_bound();
        assert(a < f.archetypes@.len() && row < st0.row_count() && st0.entity_ids()[row] == index);
        assert(st2.row_count() == last);
        assert forall|r: int| 0 <= r < st2.row_count() implies #[trigger] st2.entity_ids()[r] == if r == row {
            st0.entity_ids()[last]
        } else {
            st0.entity_ids()[r]
        } by {}
        assert(al0.slot_in_use(moved) && al0.metadata_at(moved) == EntityLocation { archetype: a as usize, row: last as usize });
        assert(al0.metadata_at(index as int) == EntityLocation { archetype: a as usize, row: row as usize });
        assert(row < last ==> moved != index) by {
            if row < last && moved == index {
                assert(al0.metadata_at(moved).row == last);
                assert(al0.metadata_at(index as int).row == row);
            }
        }
        // Locations of slots in use.
        assert forall|i: int| #[trigger] al2.slot_in_use(i) implies {
            let l = al2.metadata_at(i);
            &&& l.archetype < self.archetypes@.len()
            &&& l.row < self.archetypes@[l.archetype as int].row_count()
            &&& self.archetypes@[l.archetype as int].entity_ids()[l.row as int] == i
        } by {
            assert(al0.slot_in_use(i) && i != index);
            if row < last && i == moved {
                assert(al2.metadata_at(i) == loc);
                assert(st2.entity_ids()[row] == st0.entity_ids()[last]);
            } else {
                let l = al0.metadata_at(i);
                assert(al2.metadata_at(i) == l);
                if l.archetype as int != a {
                    assert(self.archetypes@[l.archetype as int] == f.archetypes@[l.archetype as int]);
                } else {
                    assert(l.row as int != row);
                    assert(l.row as int != last);
                    assert(st2.entity_ids()[l.row as int] == st0.entity_ids()[l.row as int]);
                }
            }
        }
        assert forall|b: int, r: int|
            0 <= b < self.archetypes@.len() && 0 <= r < self.archetypes@[b].row_count() implies {
            let i = (#[trigger] self.archetypes@[b].entity_ids()[r]) as int;
            &&& al2.slot_in_use(i)
            &&& al2.metadata_at(i) == EntityLocation { archetype: b as usize, row: r as usize }
        } by {
            if b != a {
                let i = f.archetypes@[b].entity_ids()[r] as int;
                assert(self.archetypes@[b] == f.archetypes@[b]);
                assert(al0.slot_in_use(i));
                assert(al0.metadata_at(i) == EntityLocation { archetype: b as usize, row: r as usize });
                assert(i != index);
                assert(!(row < last && i == moved));
            } else if r == row {
                assert(st2.entity_ids()[r] == moved);
                assert(al2.metadata_at(moved) == loc);
            } else {
                let i = st0.entity_ids()[r] as int;
                assert(st2.entity_ids()[r] == i);
                assert(al0.metadata_at(i) == EntityLocation { archetype: b as usize, row: r as usize });
                assert(i != index);
                assert(i != moved) by {
                    if i == moved {
                        assert(al0.metadata_at(moved).row == last);
                        assert(al0.metadata_at(i).row == r);
                    }
                }
            }
        }
        assert forall|b: int| 0 <= b < self.archetypes@.len() implies (#[trigger] self.archetypes@[b]).wf() by {
            if b != a {
                assert(self.archetypes@[b] == f.archetypes@[b]);
            }
        }
        assert forall|b: int, u: Uuid|
            0 <= b < self.archetypes@.len() && (#[trigger] self.archetypes@[b]).uuids().contains(u)
            implies #[trigger] self.components.view().contains_key(u) by {
            assert(f.archetypes@[b].uuids().contains(u));
        }
        assert forall|b: int| 0 <= b < self.archetype_count() implies (#[trigger] self.storage(b)).can_reserve_one() by {
            if b != a {
                assert(self.storage(b) == f.storage(b));
            }
        }
        assert(self.pending() =~= Seq::<EntityId>::empty());
        // The entities.
        assert forall|id: EntityId| #[trigger] f.view().contains_key(id) && id.spec_index() == index implies self.view()
            == f.view().remove(id) && self.allocator().is_stale(id) by {
            let target = f.view().remove(id);
            assert forall|x: EntityId| #[trigger] self.view().contains_key(x) <==> target.contains_key(x) by {
                EntityId::lemma_parts(x, id);
                if x.spec_index() == index {
                    assert(!al2.slot_in_use(index as int));
                }
            }
            assert forall|x: EntityId| #[trigger] self.view().contains_key(x) implies self.view()[x] == target[x] by {
                let i = x.spec_index() as int;
                assert(al0.slot_in_use(i) && i != index);
                if row < last && i == moved {
                    assert(al2.metadata_at(i) == loc);
                    assert(st2.row(row) == st0.row(last));
                } else {
                    let l = al0.metadata_at(i);
                    assert(al2.metadata_at(i) == l);
                    if l.archetype as int != a {
                        assert(self.archetypes@[l.archetype as int] == f.archetypes@[l.archetype as int]);
                    } else {
                        assert(l.row as int != row);
                        assert(l.row as int != last);
                        assert(st2.row(l.row as int) == st0.row(l.row as int));
                    }
                }
            }
            assert(self.view() =~= target);
        }
        assert forall|x: EntityId| #[trigger] f.allocator().is_stale(x) implies self.allocator().is_stale(x) by {
            if x.spec_index() != index {
                assert(al2.generation_at(x.spec_index() as int) == al0.generation_at(x.spec_index() as int));
            }
        }
    }

    /// What the consistency of the collection says of a slot in use: the location that it
    /// records holds its entity, whose components are the row there.
    pub proof fn lemma_location(&self, i: int)
        requires
            self.wf(),
            self.allocator().slot_in_use(i),
        ensures
            self.location_of(i).archetype < self.archetype_count(),
            self.location_of(i).row < self.storage(self.location_of(i).archetype as int).row_count(),
            self.storage(self.location_of(i).archetype as int).wf(),
            self.storage(self.location_of(i).archetype as int).entity_ids()[self.location_of(i).row as int] == i,
            self.view().contains_key(EntityId::spec_new(i as u32, self.allocator().generation_at(i))),
            self.view()[EntityId::spec_new(i as u32, self.allocator().generation_at(i))]
                == self.storage(self.location_of(i).archetype as int).row(self.location_of(i).row as int),
    {
        EntityId::lemma_new_parts(i as u32, self.allocator().generation_at(i));
    }

    /// The identifier of the entity in row `row` of archetype `a`.
    pub open spec fn entity_at(&self, a: int, row: int) -> EntityId {
        let i = self.storage(a).entity_ids()[row];
        EntityId::spec_new(i, self.allocator().generation_at(i as int))
    }

    /// The entity in a row of an archetype is live, located there, and its components are the
    /// row.
    pub proof fn lemma_row_entity(&self, a: int, row: int)
        requires
            self.wf(),
            0 <= a < self.archetype_count(),
            0 <= row < self.storage(a).row_count(),
        ensures
            self.allocator().slot_in_use(self.storage(a).entity_ids()[row] as int),
            self.location_of(self.storage(a).entity_ids()[row] as int) == (EntityLocation {
                archetype: a as usize,
                row: row as usize,
            }),
            self.entity_at(a, row).spec_index() == self.storage(a).entity_ids()[row],
            self.view().contains_key(self.entity_at(a, row)),
            self.view()[self.entity_at(a, row)] == self.storage(a).row(row),
            self.view()[self.entity_at(a, row)].dom() == self.storage(a).uuids().to_set(),
    {
        let i = self.storage(a).entity_ids()[row];
        assert(self.archetypes@[a].entity_ids()[row] == i);
        assert(self.archetypes@.len() == self.archetypes.len());
        self.storage(a).lemma_row_count_bound();
        self.lemma_location(i as int);
        assert(self.location_of(i as int).archetype as int == a);
        assert(self.location_of(i as int).row as int == row);
        EntityId::lemma_new_parts(i, self.allocator().generation_at(i as int));
        assert(self.storage(a).row(row).dom() =~= self.storage(a).uuids().to_set());
    }

    /// The storages of a consistent collection are consistent.
    pub proof fn lemma_storage_wf(&self, a: int)
        requires
            self.wf(),
            0 <= a < self.archetype_count(),
        ensures
            self.storage(a).wf(),
    {
    }

    /// The live entities are those whose slot is in use, at the current generation.
    pub proof fn lemma_live(&self, id: EntityId)
        ensures
            self.view().contains_key(id) <==> (self.allocator().slot_in_use(id.spec_index() as int)
                && id == EntityId::spec_new(id.spec_index(), self.allocator().generation_at(id.spec_index() as int))),
    {
        EntityId::lemma_new_parts(id.spec_index(), self.allocator().generation_at(id.spec_index() as int));
        EntityId::lemma_parts(id, EntityId::spec_new(id.spec_index(), self.allocator().generation_at(id.spec_index() as int)));
    }

    /// Returns whether the slot at `index` holds a live entity.
    fn live_index(&self, index: EntityIndex) -> (r: bool)
        requires
            self.wf(),
        ensures
            r == self.allocator().slot_in_use(index as int),
    {
        if (index as usize) < self.id_allocator.slot_len() {
            let loc = *self.id_allocator.get_unchecked(index);
            if loc.archetype < self.archetypes.len() && loc.row < self.archetypes[loc.archetype].len() {
                let found = self.archetypes[loc.archetype].entity_indices()[loc.row];
                proof {
                    if found == index {
                        assert(self.archetypes@[loc.archetype as int].entity_ids()[loc.row as int] == index);
                    }
                }
                found == index
            } else {
                false
            }
        } else {
            false
        }
    }

    /// Returns a reference to the entity at `index`, which must be live.
    pub fn get_entity_unchecked(&self, index: EntityIndex) -> (r: EntityRef<'_, V>)
        requires
            self.wf(),
            self.allocator().slot_in_use(index as int),
        ensures
            r.wf(),
            r.owner() == *self,
            r.spec_index() == index,
    {
        EntityRef::from_raw_parts(self, index)
    }

    /// Returns a reference to the entity `entity`, or `None` when it is not live.
    pub fn get_entity(&self, entity: EntityId) -> (r: Option<EntityRef<'_, V>>)
        requires
            self.wf(),
        ensures
            r is Some <==> self.view().contains_key(entity),
            r matches Some(e) ==> e.wf() && e.owner() == *self && e.spec_id() == entity,
    {
        proof {
            self.lemma_live(entity);
        }
        if self.id_allocator.is_valid(entity) && self.live_index(entity.index()) {
            Some(EntityRef::from_raw_parts(self, entity.index()))
        } else {
            None
        }
    }

    /// Returns a reference to the entity `entity`, which must be live.
    pub fn entity(&self, entity: EntityId) -> (r: EntityRef<'_, V>)
        requires
            self.wf(),
            self.view().contains_key(entity),
        ensures
            r.wf(),
            r.owner() == *self,
            r.spec_id() == entity,
    {
        proof {
            self.lemma_live(entity);
        }
        EntityRef::from_raw_parts(self, entity.index())
    }

    /// Returns the component `uuid` of the entity `entity`, or `None` when the entity is not
    /// live or does not have it.
    pub fn get_component(&self, entity: EntityId, uuid: Uuid) -> (r: Option<&V>)
        requires
            self.wf(),
        ensures
            r is Some <==> self.view().contains_key(entity) && self.view()[entity].contains_key(uuid),
            r matches Some(v) ==> *v == self.view()[entity][uuid],
    {
        match self.get_entity(entity) {
            Some(e) => e.get_raw(uuid),
            None => None,
        }
    }

    /// Registers the components of a list and splits it into their identifiers and the pairs
    /// of identifiers and values, both in reverse order.
    fn collect_components(&mut self, components: Vec<(ComponentInfo, V)>) -> (r: (Vec<Uuid>, Vec<(Uuid, V)>))
        requires
            old(self).wf(),
            forall|t: int| 0 <= t < components@.len() ==> registrable(#[trigger] components@[t].0),
        ensures
            final(self).wf(),
            final(self).allocator() == old(self).allocator(),
            final(self).archetype_count() == old(self).archetype_count(),
            forall|a: int|
                0 <= a < old(self).archetype_count() ==> #[trigger] final(self).storage(a)
                    == old(self).storage(a),
            final(self).view() == old(self).view(),
            old(self).within_limits() ==> final(self).within_limits(),
            r.1@.len() == components@.len(),
            r.0@.len() == components@.len(),
            forall|t: int|
                0 <= t < r.1@.len() ==> #[trigger] r.1@[t] == info_pairs(components@)[components@.len() - 1 - t],
            forall|t: int| 0 <= t < r.0@.len() ==> #[trigger] r.0@[t] == r.1@[t].0,
            forall|t: int|
                0 <= t < r.1@.len() ==> final(self).registry().view().contains_key((#[trigger] r.1@[t]).0),
            forall|u: Uuid|
                #[trigger] old(self).registry().view().contains_key(u)
                    ==> final(self).registry().view().contains_key(u),
    {
        let ghost f = *self;
        let ghost cs = components@;
        let ghost n = cs.len() as int;
        let mut components = components;
        let mut uuids: Vec<Uuid> = Vec::new();
        let mut pairs: Vec<(Uuid, V)> = Vec::new();
        proof {
            assert(cs.subrange(0, n) =~= cs);
        }
        while components.len() > 0
            invariant
                self.wf(),
                self.allocator() == f.allocator(),
                self.archetype_count() == f.archetype_count(),
                forall|a: int|
                    0 <= a < f.archetype_count() ==> #[trigger] self.storage(a) == f.storage(a),
                self.view() == f.view(),
                n == cs.len(),
                components@ == cs.subrange(0, components@.len() as int),
                pairs@.len() + components@.len() == n,
                uuids@.len() == pairs@.len(),
                forall|t: int| 0 <= t < pairs@.len() ==> #[trigger] pairs@[t] == info_pairs(cs)[n - 1 - t],
                forall|t: int| 0 <= t < uuids@.len() ==> #[trigger] uuids@[t] == pairs@[t].0,
                forall|t: int|
                    0 <= t < pairs@.len() ==> self.registry().view().contains_key(
                        (#[trigger] pairs@[t]).0,
                    ),
                forall|t: int| 0 <= t < n ==> registrable(#[trigger] cs[t].0),
                forall|u: Uuid|
                    #[trigger] f.registry().view().contains_key(u)
                        ==> self.registry().view().contains_key(u),
            decreases components@.len(),
        {
            let ghost before = components@;
            match components.pop() {
                Some(c) => {
                    let (info, value) = c;
                    proof {
                        assert(before[before.len() - 1] == cs[before.len() - 1]);
                        assert(c == cs[before.len() - 1]);
                        assert(registrable(cs[before.len() - 1].0));
                    }
                    self.register_info(info);
                    uuids.push(info.uuid);
                    pairs.push((info.uuid, value));
                    proof {
                        assert(components@ =~= cs.subrange(0, components@.len() as int));
                        assert(pairs@[pairs@.len() - 1] == info_pairs(cs)[n - 1 - (pairs@.len() - 1)]);
                    }
                },
                None => {},
            }
        }
        proof {
            assert forall|b: int| 0 <= b < self.archetype_count() && f.within_limits() implies (#[trigger] self.storage(b)).can_reserve_one() by {
                assert(self.storage(b) == f.storage(b));
            }
        }
        (uuids, pairs)
    }

    /// Replaces, in the entity at `loc`, the components that `pairs` gives, which the archetype
    /// of the entity must all have.
    fn replace_components(&mut self, loc: EntityLocation, pairs: Vec<(Uuid, V)>)
        requires
            old(self).wf(),
            loc.archetype < old(self).archetype_count(),
            loc.row < old(self).storage(loc.archetype as int).row_count(),
            distinct_keys(pairs@),
            forall|u: Uuid|
                has_key(pairs@, u) ==> #[trigger] old(self).storage(loc.archetype as int).uuids().contains(u),
        ensures
            final(self).components == old(self).components,
            final(self).id_allocator == old(self).id_allocator,
            final(self).archetype_ids == old(self).archetype_ids,
            final(self).archetypes@.len() == old(self).archetypes@.len(),
            forall|b: int|
                0 <= b < old(self).archetypes@.len() && b != loc.archetype ==> #[trigger] final(self).archetypes@[b]
                    == old(self).archetypes@[b],
            final(self).archetypes@[loc.archetype as int].wf(),
            final(self).archetypes@[loc.archetype as int].uuids() == old(self).archetypes@[loc.archetype as int].uuids(),
            final(self).archetypes@[loc.archetype as int].entity_ids() == old(self).archetypes@[loc.archetype as int].entity_ids(),
            forall|x: int|
                0 <= x < old(self).archetypes@[loc.archetype as int].row_count() && x != loc.row
                    ==> #[trigger] final(self).archetypes@[loc.archetype as int].row(x)
                    == old(self).archetypes@[loc.archetype as int].row(x),
            final(self).archetypes@[loc.archetype as int].row(loc.row as int) == old(self).archetypes@[loc.archetype as int].row(
                loc.row as int,
            ).union_prefer_right(pairs_map(pairs@)),
            old(self).archetypes@[loc.archetype as int].can_reserve_one()
                ==> final(self).archetypes@[loc.archetype as int].can_reserve_one(),
    {
        let ghost s0 = *self;
        let ghost p = pairs@;
        let ghost n = p.len() as int;
        let a = loc.archetype;
        let row = loc.row;
        let mut pairs = pairs;
        proof {
            assert(p.subrange(0, n) =~= p);
            assert(pairs_map(p.subrange(n, n)) =~= Map::<Uuid, V>::empty());
            assert(s0.archetypes@[a as int].row(row as int).union_prefer_right(pairs_map(p.subrange(n, n)))
                =~= s0.archetypes@[a as int].row(row as int));
        }
        while pairs.len() > 0
            invariant
                s0.wf(),
                a < s0.archetypes@.len(),
                row < s0.archetypes@[a as int].row_count(),
                distinct_keys(p),
                n == p.len(),
                forall|u: Uuid| has_key(p, u) ==> #[trigger] s0.archetypes@[a as int].uuids().contains(u),
                pairs@.len() <= n,
                pairs@ == p.subrange(0, pairs@.len() as int),
                self.components == s0.components,
                self.id_allocator == s0.id_allocator,
                self.archetype_ids == s0.archetype_ids,
                self.archetypes@.len() == s0.archetypes@.len(),
                forall|b: int|
                    0 <= b < s0.archetypes@.len() && b != a ==> #[trigger] self.archetypes@[b]
                        == s0.archetypes@[b],
                self.archetypes@[a as int].wf(),
                self.archetypes@[a as int].uuids() == s0.archetypes@[a as int].uuids(),
                self.archetypes@[a as int].entity_ids() == s0.archetypes@[a as int].entity_ids(),
                forall|x: int|
                    0 <= x < s0.archetypes@[a as int].row_count() && x != row
                        ==> #[trigger] self.archetypes@[a as int].row(x) == s0.archetypes@[a as int].row(x),
                self.archetypes@[a as int].row(row as int) == s0.archetypes@[a as int].row(
                    row as int,
                ).union_prefer_right(pairs_map(p.subrange(pairs@.len() as int, n))),
                s0.archetypes@[a as int].can_reserve_one() ==> self.archetypes@[a as int].can_reserve_one(),
            decreases pairs@.len(),
        {
            let ghost k = (pairs@.len() - 1) as int;
            let ghost before = pairs@;
            let ghost st = self.archetypes@[a as int];
            match pairs.pop() {
                Some(q) => {
                    proof {
                        assert(before[k] == p[k]);
                        assert(q == p[k]);
                        assert(has_key(p, q.0));
                        assert(pairs@ =~= p.subrange(0, pairs@.len() as int));
                        lemma_pairs_map_cons(p, k);
                    }
                    let (u, v) = q;
                    let _previous = self.archetypes[a].replace_component(row, u, v);
                    proof {
                        let orig = s0.archetypes@[a as int].row(row as int);
                        assert(orig.union_prefer_right(pairs_map(p.subrange(k + 1, n))).insert(u, v)
                            =~= orig.union_prefer_right(pairs_map(p.subrange(k + 1, n)).insert(u, v)));
                    }
                },
                None => {},
            }
        }
        proof {
            assert(p.subrange(0, n) =~= p);
        }
    }

    /// Inserts components into the live entity at `entity`, overwriting those that it already
    /// has; the entity moves to the archetype of its new set of components.
    pub fn modify_unchecked(&mut self, entity: EntityIndex, modify: Insert<V>)
        requires
            old(self).wf(),
            old(self).within_limits(),
            old(self).allocator().slot_in_use(entity as int),
            distinct_keys(info_pairs(modify.0@)),
            forall|t: int| 0 <= t < modify.0@.len() ==> registrable(#[trigger] modify.0@[t].0),
        ensures
            final(self).wf(),
            final(self).view() == old(self).view().insert(
                EntityId::spec_new(entity, old(self).allocator().generation_at(entity as int)),
                old(self).view()[EntityId::spec_new(
                    entity,
                    old(self).allocator().generation_at(entity as int),
                )].union_prefer_right(component_map(modify.0@)),
            ),
            final(self).pending() == old(self).pending(),
            forall|x: EntityId|
                #[trigger] old(self).allocator().is_stale(x) ==> final(self).allocator().is_stale(x),
            forall|t: int|
                0 <= t < modify.0@.len() ==> final(self).registry().view().contains_key(
                    (#[trigger] modify.0@[t]).0.uuid,
                ),
            forall|u: Uuid|
                #[trigger] old(self).registry().view().contains_key(u)
                    ==> final(self).registry().view().contains_key(u),
            final(self).extends_archetypes(old(self)),
            final(self).relocated(old(self), entity as int),
    {
        let ghost s0 = *self;
        let ghost cs = modify.0@;
        let ghost n = cs.len() as int;
        let ghost id = EntityId::spec_new(entity, s0.allocator().generation_at(entity as int));
        proof {
            s0.lemma_location(entity as int);
        }
        let loc = *self.id_allocator.get_unchecked(entity);
        let a = loc.archetype;
        let row = loc.row;
        let Insert(list) = modify;
        let (new_uuids, new_pairs) = self.collect_components(list);
        let ghost s1 = *self;
        let ghost cur = self.archetypes@[a as int].uuids();
        let mut all: Vec<Uuid> = Vec::new();
        let current = self.archetypes[a].archetype_components().as_uuids();
        let mut i: usize = 0;
        while i < current.len()
            invariant
                i <= current@.len(),
                all@ == current@.subrange(0, i as int),
            decreases current@.len() - i,
        {
            all.push(current[i]);
            i = i + 1;
            proof {
                assert(all@ =~= current@.subrange(0, i as int));
            }
        }
        proof {
            assert(current@.subrange(0, current@.len() as int) =~= current@);
        }
        let mut j: usize = 0;
        while j < new_uuids.len()
            invariant
                j <= new_uuids@.len(),
                all@ == cur + new_uuids@.subrange(0, j as int),
            decreases new_uuids@.len() - j,
        {
            all.push(new_uuids[j]);
            j = j + 1;
            proof {
                assert(all@ =~= cur + new_uuids@.subrange(0, j as int));
            }
        }
        proof {
            assert(new_uuids@.subrange(0, new_uuids@.len() as int) =~= new_uuids@);
            assert forall|u: Uuid| #[trigger] all@.contains(u) <==> cur.contains(u) || new_uuids@.contains(u) by {
                if all@.contains(u) {
                    let t = choose|t: int| 0 <= t < all@.len() && all@[t] == u;
                    if t >= cur.len() {
                        assert(new_uuids@[t - cur.len()] == u);
                    }
                }
                if cur.contains(u) {
                    let t = choose|t: int| 0 <= t < cur.len() && cur[t] == u;
                    assert(all@[t] == u);
                }
                if new_uuids@.contains(u) {
                    let t = choose|t: int| 0 <= t < new_uuids@.len() && new_uuids@[t] == u;
                    assert(all@[cur.len() + t] == u);
                }
            }
        }
        let ghost all_seq = all@;
        let ac = ArchetypeComponents::from_unsorted_vec(all);
        proof {
            assert forall|u: Uuid| #[trigger] ac@.contains(u) implies self.registry().view().contains_key(u) by {
                assert(all_seq.contains(u));
                if new_uuids@.contains(u) {
                    let t = choose|t: int| 0 <= t < new_uuids@.len() && new_uuids@[t] == u;
                    assert(new_pairs@[t].0 == u);
                } else {
                    assert(self.archetypes@[a as int].uuids().contains(u));
                }
            }
        }
        let new_a = self.get_archetype_id(ac);
        let ghost s2 = *self;
        proof {
            lemma_pairs_map_reversed(info_pairs(cs), new_pairs@);
            assert forall|u: Uuid| has_key(new_pairs@, u) <==> #[trigger] new_uuids@.contains(u) by {
                if has_key(new_pairs@, u) {
                    let t = choose|t: int| 0 <= t < new_pairs@.len() && (#[trigger] new_pairs@[t]).0 == u;
                    assert(new_uuids@[t] == u);
                }
                if new_uuids@.contains(u) {
                    let t = choose|t: int| 0 <= t < new_uuids@.len() && new_uuids@[t] == u;
                    assert(new_pairs@[t].0 == u);
                }
            }
            assert(s2.storage(a as int) == s0.storage(a as int));
            assert forall|t: int| 0 <= t < n implies self.registry().view().contains_key(
                (#[trigger] cs[t]).0.uuid,
            ) by {
                assert(new_pairs@[n - 1 - t] == info_pairs(cs)[n - 1 - (n - 1 - t)]);
                assert(s1.registry().view().contains_key(new_pairs@[n - 1 - t].0));
            }
        }
        if new_a == a {
            self.replace_components(loc, new_pairs);
            proof {
                self.lemma_row_replaced(&s2, entity);
                assert(s2.archetype_count() == s0.archetype_count());
                assert forall|b: int| 0 <= b < self.archetype_count() implies #[trigger] self.storage(b).row_count()
                    == s0.storage(b).row_count() by {
                    assert(s2.storage(b) == s0.storage(b));
                }
            }
        } else {
            self.reserve_in(new_a);
            let ghost s3 = *self;
            let (_removed, old_pairs) = self.archetypes[a].swap_remove_unchecked_no_drop(row);
            let ghost s4 = *self;
            if row < self.archetypes[a].len() {
                let moved = self.archetypes[a].entity_indices()[row];
                proof {
                    let last = s3.archetypes@[a as int].row_count() - 1;
                    assert(moved == s3.archetypes@[a as int].entity_ids()[last]);
                    s3.archetypes@[a as int].lemma_row_count_bound();
                    assert(s3.id_allocator.slot_in_use(moved as int));
                }
                *self.id_allocator.get_unchecked_mut(moved) = loc;
            }
            let ghost s5 = *self;
            let merged = merge_pairs(old_pairs, new_pairs, &new_uuids);
            let new_row = self.archetypes[new_a].len();
            proof {
                assert forall|u: Uuid| has_key(merged@, u) <==> #[trigger] self.archetypes@[new_a as int].uuids().contains(u) by {
                    assert(all_seq.contains(u) <==> cur.contains(u) || new_uuids@.contains(u));
                }
            }
            self.archetypes[new_a].push_assume_capacity(entity, merged);
            proof {
                assert(s5.id_allocator.slot_count() == s0.id_allocator.slot_count());
            }
            *self.id_allocator.get_unchecked_mut(entity) = EntityLocation { archetype: new_a, row: new_row };
            proof {
                let st2 = self.archetypes@[a as int];
                assert forall|k: int| 0 <= k < s3.id_allocator.slot_count() implies #[trigger] self.id_allocator.metadata_at(k)
                    == Self::moved_location(&s3, entity, new_a, k, st2.row_count()) by {
                    if k != entity {
                        assert(self.id_allocator.metadata_at(k) == s5.id_allocator.metadata_at(k));
                    }
                }
                self.lemma_moved(&s3, entity, new_a);
                assert(s3.view() == s0.view());
                let la = a as int;
                assert(s3.storage(la) == s0.storage(la));
                assert forall|b: int| 0 <= b < self.archetype_count() implies #[trigger] self.storage(b).row_count()
                    == (if b < s0.archetype_count() {
                    s0.storage(b).row_count() as int
                } else {
                    0
                }) + (if b == new_a {
                    1int
                } else {
                    0
                }) - (if b == la {
                    1int
                } else {
                    0
                }) by {
                    if b != la && b != new_a {
                        assert(self.archetypes@[b] == s3.archetypes@[b]);
                        if b < s0.archetype_count() {
                            assert(s2.storage(b) == s0.storage(b));
                        }
                    } else if b == new_a {
                        if b < s0.archetype_count() {
                            assert(s2.storage(b) == s0.storage(b));
                        }
                    }
                }
                assert forall|i: int| #[trigger] self.allocator().slot_in_use(i) && i != entity implies self.location_of(i)
                    == if i == s0.storage(la).entity_ids().last() as int {
                    loc
                } else {
                    s0.location_of(i)
                } by {
                    assert(self.id_allocator.metadata_at(i) == Self::moved_location(&s3, entity, new_a, i, self.archetypes@[la].row_count()));
                }
            }
        }
        proof {
            let al0 = s0.id_allocator;
            let al1 = self.id_allocator;
            al0.lemma_wf();
            assert(al1.free_slots() == al0.free_slots());
            assert(al1.cursor() == al0.cursor());
            assert(al1.slot_count() == al0.slot_count());
            assert forall|k: int| 0 <= k < al0.slot_count() implies #[trigger] al1.generation_at(k) == al0.generation_at(k) by {}
            let reused = al0.free_slots().subrange(al0.drain_start(), al0.free_slots().len() as int);
            assert forall|k: int| 0 <= k < reused.len() implies #[trigger] al1.generation_at(reused[k] as int) == al0.generation_at(reused[k] as int) by {
                assert(reused[k] == al0.free_slots()[al0.drain_start() + k]);
            }
            assert(self.pending() =~= s0.pending());
            assert forall|b: int| 0 <= b < s0.archetype_count() implies #[trigger] self.storage(b).uuids() == s0.storage(b).uuids() by {
                assert(s2.storage(b) == s0.storage(b));
            }
        }
    }

    /// Returns whether the machine limits leave room for flushing the reserved identifiers and
    /// adding one more entity to any archetype.
    pub fn check_limits(&self) -> (r: bool)
        requires
            self.wf(),
        ensures
            r == self.within_limits(),
    {
        let slots = self.id_allocator.slot_len() as u64;
        let fresh = self.id_allocator.fresh_len() as u64;
        proof {
            self.id_allocator.lemma_wf();
        }
        if fresh > 0x1_0000_0000u64 {
            return false;
        }
        let total = slots + fresh;
        if total >= 0x1_0000_0000u64 || total >= isize::MAX as u64 {
            return false;
        }
        let mut a: usize = 0;
        while a < self.archetypes.len()
            invariant
                self.wf(),
                a <= self.archetypes@.len(),
                forall|b: int| 0 <= b < a ==> (#[trigger] self.storage(b)).can_reserve_one(),
            decreases self.archetypes@.len() - a,
        {
            if !self.archetypes[a].check_reserve_one() {
                proof {
                    assert(!self.storage(a as int).can_reserve_one());
                }
                return false;
            }
            a = a + 1;
        }
        true
    }

    /// Reserves an identifier for an entity that comes to exist, with no components, when the
    /// collection is flushed.
    pub fn reserve_one(&mut self) -> (id: EntityId)
        requires
            old(self).wf(),
            old(self).allocator().can_reserve(),
        ensures
            final(self).wf(),
            final(self).view() == old(self).view(),
            final(self).flushed_view() == old(self).flushed_view().insert(id, Map::empty()),
            !old(self).flushed_view().contains_key(id),
            final(self).pending().contains(id),
            final(self).registry() == old(self).registry(),
            forall|x: EntityId|
                #[trigger] old(self).allocator().is_stale(x) ==> final(self).allocator().is_stale(x),
            final(self).extends_archetypes(old(self)),
    {
        let ghost s0 = *self;
        let id = self.id_allocator.reserve_one();
        proof {
            let al0 = s0.id_allocator;
            let al1 = self.id_allocator;
            assert forall|i: int| #[trigger] al1.slot_in_use(i) <==> al0.slot_in_use(i) by {}
            assert forall|i: int| al1.slot_in_use(i) implies #[trigger] al1.metadata_at(i) == al0.metadata_at(i) by {}
            assert forall|x: EntityId| #[trigger] al1.is_live(x) <==> al0.is_live(x) by {}
            assert(self.view() =~= s0.view());
            if s0.id_allocator.cursor() > 0 {
                assert(self.pending()[0] == id);
            } else {
                assert(self.pending()[self.pending().len() - 1] == id);
            }
            assert forall|x: EntityId| #[trigger] self.pending().contains(x) <==> (s0.pending().contains(x) || x == id) by {
                if s0.id_allocator.cursor() > 0 {
                    if self.pending().contains(x) && x != id {
                        let t = choose|t: int| 0 <= t < self.pending().len() && self.pending()[t] == x;
                        assert(s0.pending()[t - 1] == x);
                    }
                    if s0.pending().contains(x) {
                        let t = choose|t: int| 0 <= t < s0.pending().len() && s0.pending()[t] == x;
                        assert(self.pending()[t + 1] == x);
                    }
                } else {
                    if self.pending().contains(x) && x != id {
                        let t = choose|t: int| 0 <= t < self.pending().len() && self.pending()[t] == x;
                        assert(s0.pending()[t] == x);
                    }
                    if s0.pending().contains(x) {
                        let t = choose|t: int| 0 <= t < s0.pending().len() && s0.pending()[t] == x;
                        assert(self.pending()[t] == x);
                    }
                }
            }
            assert(self.flushed_view() =~= s0.flushed_view().insert(id, Map::empty()));
            assert forall|x: EntityId| #[trigger] al0.is_stale(x) implies al1.is_stale(x) by {}
        }
        id
    }

    /// Despawns the entity `entity` if it is live once the reserved identifiers are flushed;
    /// they are flushed first.
    ///
    /// Returns whether the entity was despawned.
    pub fn despawn(&mut self, entity: EntityId) -> (r: bool)
        requires
            old(self).wf(),
            old(self).within_limits(),
            old(self).flushed_view().contains_key(entity) ==> entity.spec_generation() < u32::MAX,
        ensures
            final(self).wf(),
            final(self).within_limits(),
            final(self).pending().len() == 0,
            r == old(self).flushed_view().contains_key(entity),
            final(self).view() == old(self).flushed_view().remove(entity),
            r ==> final(self).allocator().is_stale(entity),
            final(self).registry() == old(self).registry(),
            forall|x: EntityId|
                #[trigger] old(self).allocator().is_stale(x) ==> final(self).allocator().is_stale(x),
            final(self).extends_archetypes(old(self)),
    {
        self.flush();
        proof {
            assert(self.flushed_view() =~= self.view());
        }
        let live = self.get_entity(entity).is_some();
        if live {
            proof {
                assert(self.flushed_view().contains_key(entity));
            }
            self.despawn_unchecked(entity.index());
            true
        } else {
            proof {
                assert(self.view() =~= old(self).flushed_view().remove(entity));
            }
            false
        }
    }

    /// Inserts components into the entity `entity` if it is live once the reserved identifiers
    /// are flushed, overwriting those that it already has; they are flushed first.
    ///
    /// Returns whether the entity was live.
    pub fn insert(&mut self, entity: EntityId, components: Vec<(ComponentInfo, V)>) -> (r: bool)
        requires
            old(self).wf(),
            old(self).within_limits(),
            distinct_keys(info_pairs(components@)),
            forall|t: int| 0 <= t < components@.len() ==> registrable(#[trigger] components@[t].0),
        ensures
            final(self).wf(),
            final(self).pending().len() == 0,
            r == old(self).flushed_view().contains_key(entity),
            r ==> final(self).view() == old(self).flushed_view().insert(
                entity,
                old(self).flushed_view()[entity].union_prefer_right(component_map(components@)),
            ),
            !r ==> final(self).view() == old(self).flushed_view(),
            forall|x: EntityId|
                #[trigger] old(self).allocator().is_stale(x) ==> final(self).allocator().is_stale(x),
            final(self).extends_archetypes(old(self)),
    {
        self.flush();
        let live = self.get_entity(entity).is_some();
        if live {
            proof {
                self.lemma_live(entity);
            }
            self.modify_unchecked(entity.index(), Insert(components));
            true
        } else {
            false
        }
    }

    /// Distinct archetypes have distinct lists of components.
    pub proof fn lemma_distinct_archetypes(&self, a: int, b: int)
        requires
            self.wf(),
            0 <= a < self.archetype_count(),
            0 <= b < self.archetype_count(),
            a != b,
        ensures
            self.storage(a).uuids() != self.storage(b).uuids(),
    {
        let entries = uuid_list_index_entries(self.archetype_ids);
        assert(entries[uuid_values(self.archetypes@[a].uuids())] == a);
        assert(entries[uuid_values(self.archetypes@[b].uuids())] == b);
    }

    /// Flushing keeps every live entity as it is: no reserved identifier is live.
    pub proof fn lemma_flush_keeps_live(&self)
        requires
            self.wf(),
            self.within_limits(),
        ensures
            forall|x: EntityId|
                #[trigger] self.view().contains_key(x) ==> !self.pending().contains(x)
                    && self.flushed_view().contains_key(x) && self.flushed_view()[x] == self.view()[x],
    {
        self.allocator().lemma_pending_fresh();
        assert forall|x: EntityId| #[trigger] self.view().contains_key(x) implies !self.pending().contains(x)
            && self.flushed_view().contains_key(x) && self.flushed_view()[x] == self.view()[x] by {
            if self.pending().contains(x) {
                let k = choose|k: int| 0 <= k < self.pending().len() && self.pending()[k] == x;
                assert(!self.allocator().is_live(self.pending()[k]));
            }
        }
    }

    /// A reserved identifier is never the identifier of a live entity, nor shares its index
    /// with one.
    pub proof fn lemma_pending_not_live(&self, p: EntityId)
        requires
            self.wf(),
            self.within_limits(),
            self.pending().contains(p),
        ensures
            !self.view().contains_key(p),
            forall|x: EntityId| #[trigger] self.view().contains_key(x) ==> x.spec_index() != p.spec_index(),
    {
        self.allocator().lemma_pending_fresh();
        let k = choose|k: int| 0 <= k < self.pending().len() && self.pending()[k] == p;
        assert(!self.allocator().slot_in_use(self.pending()[k].spec_index() as int));
    }

    /// A stale identifier designates no entity, now or once the collection is flushed.
    pub proof fn lemma_stale_never_live(&self, x: EntityId)
        requires
            self.wf(),
            self.allocator().is_stale(x),
            self.allocator().slot_count() + self.allocator().fresh_reserved() <= index_space(),
        ensures
            !self.view().contains_key(x),
            !self.flushed_view().contains_key(x),
    {
        let al = self.id_allocator;
        if self.pending().contains(x) {
            let k = choose|k: int| 0 <= k < self.pending().len() && self.pending()[k] == x;
            let start = al.drain_start();
            let reused = al.free_slots().subrange(start, al.free_slots().len() as int);
            if k < reused.len() {
                assert(self.pending()[k] == EntityId::spec_new(reused[k], al.generation_at(reused[k] as int)));
                EntityId::lemma_new_parts(reused[k], al.generation_at(reused[k] as int));
            } else {
                let j = k - reused.len();
                assert(self.pending()[k] == EntityId::spec_new((al.slot_count() + j) as u32, 1));
                EntityId::lemma_new_parts((al.slot_count() + j) as u32, 1);
                assert(al.slot_count() + j < index_space());
            }
        }
    }

    /// What replacing components in place leaves: `self` is `f` with the row of the entity at
    /// `index` changed.
    proof fn lemma_row_replaced(&self, f: &Self, index: EntityIndex)
        requires
            f.wf(),
            f.id_allocator.slot_in_use(index as int),
            self.components == f.components,
            self.id_allocator == f.id_allocator,
            self.archetype_ids == f.archetype_ids,
            self.archetypes@.len() == f.archetypes@.len(),
            forall|b: int|
                0 <= b < f.archetypes@.len() && b != f.id_allocator.metadata_at(index as int).archetype
                    ==> #[trigger] self.archetypes@[b] == f.archetypes@[b],
            self.archetypes@[f.id_allocator.metadata_at(index as int).archetype as int].wf(),
            self.archetypes@[f.id_allocator.metadata_at(index as int).archetype as int].uuids()
                == f.archetypes@[f.id_allocator.metadata_at(index as int).archetype as int].uuids(),
            self.archetypes@[f.id_allocator.metadata_at(index as int).archetype as int].entity_ids()
                == f.archetypes@[f.id_allocator.metadata_at(index as int).archetype as int].entity_ids(),
            forall|x: int|
                0 <= x < f.archetypes@[f.id_allocator.metadata_at(index as int).archetype as int].row_count()
                    && x != f.id_allocator.metadata_at(index as int).row
                    ==> #[trigger] self.archetypes@[f.id_allocator.metadata_at(index as int).archetype as int].row(x)
                    == f.archetypes@[f.id_allocator.metadata_at(index as int).archetype as int].row(x),
        ensures
            self.wf(),
            self.view() == f.view().insert(
                EntityId::spec_new(index, f.id_allocator.generation_at(index as int)),
                self.archetypes@[f.id_allocator.metadata_at(index as int).archetype as int].row(
                    f.id_allocator.metadata_at(index as int).row as int,
                ),
            ),
            f.within_limits() && self.archetypes@[f.id_allocator.metadata_at(index as int).archetype as int].can_reserve_one()
                ==> self.within_limits(),
            self.extends_archetypes(f),
    {
        assert forall|b: int| 0 <= b < f.archetype_count() implies #[trigger] self.storage(b).uuids() == f.storage(b).uuids() by {
            if b != f.id_allocator.metadata_at(index as int).archetype {
                assert(self.archetypes@[b] == f.archetypes@[b]);
            }
        }
        let loc = f.id_allocator.metadata_at(index as int);
        let a = loc.archetype as int;
        let row = loc.row as int;
        let al = f.id_allocator;
        let id = EntityId::spec_new(index, al.generation_at(index as int));
        f.lemma_location(index as int);
        assert forall|b: int| 0 <= b < self.archetypes@.len() implies (#[trigger] self.archetypes@[b]).wf() by {
            if b != a {
                assert(self.archetypes@[b] == f.archetypes@[b]);
            }
        }
        assert forall|b: int, u: Uuid|
            0 <= b < self.archetypes@.len() && (#[trigger] self.archetypes@[b]).uuids().contains(u)
            implies #[trigger] self.components.view().contains_key(u) by {
            assert(f.archetypes@[b].uuids().contains(u));
        }
        assert forall|i: int| #[trigger] al.slot_in_use(i) implies {
            let l = al.metadata_at(i);
            &&& l.archetype < self.archetypes@.len()
            &&& l.row < self.archetypes@[l.archetype as int].row_count()
            &&& self.archetypes@[l.archetype as int].entity_ids()[l.row as int] == i
        } by {
            let l = al.metadata_at(i);
            if l.archetype as int != a {
                assert(self.archetypes@[l.archetype as int] == f.archetypes@[l.archetype as int]);
            }
        }
        assert forall|b: int, r: int|
            0 <= b < self.archetypes@.len() && 0 <= r < self.archetypes@[b].row_count() implies {
            let i = (#[trigger] self.archetypes@[b].entity_ids()[r]) as int;
            &&& al.slot_in_use(i)
            &&& al.metadata_at(i) == EntityLocation { archetype: b as usize, row: r as usize }
        } by {
            if b != a {
                assert(self.archetypes@[b] == f.archetypes@[b]);
            }
            assert(f.archetypes@[b].entity_ids()[r] == self.archetypes@[b].entity_ids()[r]);
        }
        assert forall|b: int|
            0 <= b < self.archetype_count() && f.within_limits() && self.archetypes@[a].can_reserve_one()
            implies (#[trigger] self.storage(b)).can_reserve_one() by {
            if b != a {
                assert(self.storage(b) == f.storage(b));
            }
        }
        let target = f.view().insert(id, self.archetypes@[a].row(row));
        assert forall|x: EntityId| #[trigger] self.view().contains_key(x) <==> target.contains_key(x) by {}
        EntityId::lemma_new_parts(index, al.generation_at(index as int));
        assert forall|x: EntityId| #[trigger] self.view().contains_key(x) implies self.view()[x] == target[x] by {
            EntityId::lemma_parts(x, id);
            let i = x.spec_index() as int;
            let l = al.metadata_at(i);
            if x != id {
                assert(i != index);
                if l.archetype as int != a {
                    assert(self.archetypes@[l.archetype as int] == f.archetypes@[l.archetype as int]);
                } else {
                    assert(f.archetypes@[a].entity_ids()[l.row as int] == i);
                    assert(l.row as int != row);
                }
            }
        }
        assert(self.view() =~= target);
    }

    /// How the rows of `self` relate to those of `old` once the entity at `index` got new
    /// components: where its archetype stays, every entity keeps its location and every storage
    /// its length; where it changes, the entity goes to the end of its new storage, the last
    /// entity of its former storage takes its row there, and the two storages change length by
    /// one. An archetype created for the entity starts empty.
    pub open spec fn relocated(&self, old: &Self, index: int) -> bool {
        let loc = old.location_of(index);
        let nl = self.location_of(index);
        let moved = old.storage(loc.archetype as int).entity_ids().last();
        let changed = nl.archetype != loc.archetype;
        &&& old.archetype_count() <= self.archetype_count() <= old.archetype_count() + 1
        &&& !changed ==> nl == loc
        &&& changed ==> nl.row == (if nl.archetype < old.archetype_count() {
            old.storage(nl.archetype as int).row_count()
        } else {
            0
        })
        &&& forall|b: int|
            0 <= b < self.archetype_count() ==> #[trigger] self.storage(b).row_count() == (if b
                < old.archetype_count() {
                old.storage(b).row_count() as int
            } else {
                0
            }) + (if changed && b == nl.archetype {
                1int
            } else {
                0
            }) - (if changed && b == loc.archetype {
                1int
            } else {
                0
            })
        &&& forall|i: int|
            #[trigger] self.allocator().slot_in_use(i) && i != index ==> self.location_of(i) == if changed
                && i == moved as int {
                loc
            } else {
                old.location_of(i)
            }
    }

    /// Where moving the entity at `index` to the end of archetype `b` puts each entity of `f`:
    /// the moved entity goes to the end of `b`, and the entity that takes its row keeps its own
    /// archetype.
    pub open spec fn moved_location(f: &Self, index: EntityIndex, b: ArchetypeId, i: int, remaining: nat) -> EntityLocation {
        let loc = f.allocator().metadata_at(index as int);
        if i == index {
            EntityLocation { archetype: b, row: f.storage(b as int).row_count() as usize }
        } else if loc.row < remaining && i == f.storage(loc.archetype as int).entity_ids()[remaining as int] {
            loc
        } else {
            f.allocator().metadata_at(i)
        }
    }

    /// What moving an entity leaves: `self` is `f` with the entity at `index` swap-removed from
    /// its archetype and pushed to the end of archetype `b`, and the locations updated.
    proof fn lemma_moved(&self, f: &Self, index: EntityIndex, b: ArchetypeId)
        requires
            f.wf(),
            f.id_allocator.slot_in_use(index as int),
            b < f.archetypes@.len(),
            b != f.id_allocator.metadata_at(index as int).archetype,
            self.components == f.components,
            self.archetype_ids == f.archetype_ids,
            self.archetypes@.len() == f.archetypes@.len(),
            forall|c: int|
                0 <= c < f.archetypes@.len() && c != f.id_allocator.metadata_at(index as int).archetype
                    && c != b ==> #[trigger] self.archetypes@[c] == f.archetypes@[c],
            self.archetypes@[f.id_allocator.metadata_at(index as int).archetype as int].wf(),
            self.archetypes@[f.id_allocator.metadata_at(index as int).archetype as int].swap_removed_rows(
                &f.archetypes@[f.id_allocator.metadata_at(index as int).archetype as int],
                f.id_allocator.metadata_at(index as int).row as int,
            ),
            self.archetypes@[b as int].wf(),
            self.archetypes@[b as int].uuids() == f.archetypes@[b as int].uuids(),
            self.archetypes@[b as int].entity_ids() == f.archetypes@[b as int].entity_ids().push(index),
            forall|r: int|
                0 <= r < f.archetypes@[b as int].row_count() ==> #[trigger] self.archetypes@[b as int].row(r)
                    == f.archetypes@[b as int].row(r),
            self.id_allocator.wf(),
            self.id_allocator.slot_count() == f.id_allocator.slot_count(),
            self.id_allocator.free_slots() == f.id_allocator.free_slots(),
            forall|i: int|
                0 <= i < f.id_allocator.slot_count() ==> #[trigger] self.id_allocator.generation_at(i)
                    == f.id_allocator.generation_at(i),
            forall|i: int|
                0 <= i < f.id_allocator.slot_count() ==> #[trigger] self.id_allocator.metadata_at(i)
                    == Self::moved_location(
                    f,
                    index,
                    b,
                    i,
                    self.archetypes@[f.id_allocator.metadata_at(index as int).archetype as int].row_count(),
                ),
        ensures
            self.wf(),
            self.view() == f.view().insert(
                EntityId::spec_new(index, f.id_allocator.generation_at(index as int)),
                self.archetypes@[b as int].row(f.archetypes@[b as int].row_count() as int),
            ),
            self.extends_archetypes(f),
    {
        assert forall|c: int| 0 <= c < f.archetype_count() implies #[trigger] self.storage(c).uuids() == f.storage(c).uuids() by {
            if c != f.id_allocator.metadata_at(index as int).archetype && c != b {
                assert(self.archetypes@[c] == f.archetypes@[c]);
            }
        }
        let al0 = f.id_allocator;
        let al2 = self.id_allocator;
        let loc = al0.metadata_at(index as int);
        let a = loc.archetype as int;
        let row = loc.row as int;
        let st0 = f.archetypes@[a];
        let st2 = self.archetypes@[a];
        let last = st0.row_count() - 1;
        let moved = st0.entity_ids()[last] as int;
        let sb0 = f.archetypes@[b as int];
        let sb2 = self.archetypes@[b as int];
        let nb = sb0.row_count() as int;
        let id = EntityId::spec_new(index, al0.generation_at(index as int));
        st0.lemma_row_count_bound();
        sb0.lemma_row_count_bound();
        f.lemma_location(index as int);
        EntityId::lemma_new_parts(index, al0.generation_at(index as int));
        assert(a < f.archetypes@.len() && row < st0.row_count() && st0.entity_ids()[row] == index);
        assert(st2.row_count() == last);
        assert forall|r: int| 0 <= r < st2.row_count() implies #[trigger] st2.entity_ids()[r] == if r == row {
            st0.entity_ids()[last]
        } else {
            st0.entity_ids()[r]
        } by {}
        assert(al0.slot_in_use(moved) && al0.metadata_at(moved) == EntityLocation { archetype: a as usize, row: last as usize });
        assert(al0.metadata_at(index as int) == EntityLocation { archetype: a as usize, row: row as usize });
        assert(row < last ==> moved != index) by {
            if row < last && moved == index {
                assert(al0.metadata_at(moved).row == last);
            }
        }
        assert forall|i: int| #[trigger] al2.slot_in_use(i) <==> al0.slot_in_use(i) by {}
        assert(sb2.entity_ids()[nb] == index);
        // Locations of slots in use.
        assert forall|i: int| #[trigger] al2.slot_in_use(i) implies {
            let l = al2.metadata_at(i);
            &&& l.archetype < self.archetypes@.len()
            &&& l.row < self.archetypes@[l.archetype as int].row_count()
            &&& self.archetypes@[l.archetype as int].entity_ids()[l.row as int] == i
        } by {
            assert(al0.slot_in_use(i));
            if i == index {
                assert(al2.metadata_at(i) == EntityLocation { archetype: b, row: nb as usize });
            } else if row < last && i == moved {
                assert(al2.metadata_at(i) == loc);
                assert(st2.entity_ids()[row] == st0.entity_ids()[last]);
            } else {
                let l = al0.metadata_at(i);
                assert(al2.metadata_at(i) == l);
                if l.archetype as int != a && l.archetype != b {
                    assert(self.archetypes@[l.archetype as int] == f.archetypes@[l.archetype as int]);
                } else if l.archetype == b {
                    assert(sb2.entity_ids()[l.row as int] == sb0.entity_ids()[l.row as int]);
                } else {
                    assert(l.row as int != row);
                    assert(l.row as int != last);
                    assert(st2.entity_ids()[l.row as int] == st0.entity_ids()[l.row as int]);
                }
            }
        }
        assert forall|c: int, r: int|
            0 <= c < self.archetypes@.len() && 0 <= r < self.archetypes@[c].row_count() implies {
            let i = (#[trigger] self.archetypes@[c].entity_ids()[r]) as int;
            &&& al2.slot_in_use(i)
            &&& al2.metadata_at(i) == EntityLocation { archetype: c as usize, row: r as usize }
        } by {
            if c != a && c != b {
                let i = f.archetypes@[c].entity_ids()[r] as int;
                assert(self.archetypes@[c] == f.archetypes@[c]);
                assert(al0.slot_in_use(i));
                assert(al0.metadata_at(i) == EntityLocation { archetype: c as usize, row: r as usize });
                assert(i != index);
                assert(!(row < last && i == moved));
            } else if c == b {
                if r < nb {
                    let i = sb0.entity_ids()[r] as int;
                    assert(sb2.entity_ids()[r] == i);
                    assert(al0.metadata_at(i) == EntityLocation { archetype: c as usize, row: r as usize });
                    assert(i != index);
                    assert(i != moved) by {
                        if i == moved {
                            assert(al0.metadata_at(moved).archetype as int == a);
                        }
                    }
                } else {
                    assert(r == nb);
                    assert(sb2.entity_ids()[r] == index);
                }
            } else if r == row {
                assert(st2.entity_ids()[r] == moved);
                assert(al2.metadata_at(moved) == loc);
            } else {
                let i = st0.entity_ids()[r] as int;
                assert(st2.entity_ids()[r] == i);
                assert(al0.metadata_at(i) == EntityLocation { archetype: c as usize, row: r as usize });
                assert(i != index);
                assert(i != moved) by {
                    if i == moved {
                        assert(al0.metadata_at(moved).row == last);
                        assert(al0.metadata_at(i).row == r);
                    }
                }
            }
        }
        assert forall|c: int| 0 <= c < self.archetypes@.len() implies (#[trigger] self.archetypes@[c]).wf() by {
            if c != a && c != b {
                assert(self.archetypes@[c] == f.archetypes@[c]);
            }
        }
        assert forall|c: int, u: Uuid|
            0 <= c < self.archetypes@.len() && (#[trigger] self.archetypes@[c]).uuids().contains(u)
            implies #[trigger] self.components.view().contains_key(u) by {
            assert(f.archetypes@[c].uuids().contains(u));
        }
        // The entities.
        let target = f.view().insert(id, sb2.row(nb));
        assert forall|x: EntityId| #[trigger] self.view().contains_key(x) <==> target.contains_key(x) by {
            EntityId::lemma_parts(x, id);
        }
        assert forall|x: EntityId| #[trigger] self.view().contains_key(x) implies self.view()[x] == target[x] by {
            EntityId::lemma_parts(x, id);
            let i = x.spec_index() as int;
            if x == id {
                assert(al2.metadata_at(i) == EntityLocation { archetype: b, row: nb as usize });
            } else {
                assert(i != index);
                if row < last && i == moved {
                    assert(al2.metadata_at(i) == loc);
                    assert(st2.row(row) == st0.row(last));
                } else {
                    let l = al0.metadata_at(i);
                    assert(al2.metadata_at(i) == l);
                    if l.archetype as int != a && l.archetype != b {
                        assert(self.archetypes@[l.archetype as int] == f.archetypes@[l.archetype as int]);
                    } else if l.archetype == b {
                        assert(sb2.row(l.row as int) == sb0.row(l.row as int));
                    } else {
                        assert(l.row as int != row);
                        assert(l.row as int != last);
                        assert(st2.row(l.row as int) == st0.row(l.row as int));
                    }
                }
            }
        }
        assert(self.view() =~= target);
    }

    /// Reserves room for one more entity in archetype `a`.
    fn reserve_in(&mut self, a: ArchetypeId)
        requires
            old(self).wf(),
            a < old(self).archetype_count(),
            old(self).storage(a as int).can_reserve_one(),
        ensures
            final(self).wf(),
            final(self).components == old(self).components,
            final(self).id_allocator == old(self).id_allocator,
            final(self).archetype_ids == old(self).archetype_ids,
            final(self).archetypes@.len() == old(self).archetypes@.len(),
            forall|b: int|
                0 <= b < old(self).archetypes@.len() && b != a ==> #[trigger] final(self).archetypes@[b]
                    == old(self).archetypes@[b],
            final(self).archetypes@[a as int].has_room(),
            final(self).archetypes@[a as int].uuids() == old(self).archetypes@[a as int].uuids(),
            final(self).archetypes@[a as int].entity_ids() == old(self).archetypes@[a as int].entity_ids(),
            forall|x: int| #[trigger] final(self).archetypes@[a as int].row(x) == old(self).archetypes@[a as int].row(x),
            final(self).view() == old(self).view(),
    {
        let ghost s0 = *self;
        self.archetypes[a].reserve_one();
        proof {
            self.archetypes@[a as int].lemma_same_contents_rows(&s0.archetypes@[a as int]);
            assert forall|b: int| 0 <= b < self.archetypes@.len() implies (#[trigger] self.archetypes@[b]).wf() by {
                if b != a {
                    assert(self.archetypes@[b] == s0.archetypes@[b]);
                }
            }
            assert forall|b: int, u: Uuid|
                0 <= b < self.archetypes@.len() && (#[trigger] self.archetypes@[b]).uuids().contains(u)
                implies #[trigger] self.components.view().contains_key(u) by {
                assert(s0.archetypes@[b].uuids().contains(u));
            }
            assert forall|i: int| #[trigger] self.id_allocator.slot_in_use(i) implies {
                let l = self.id_allocator.metadata_at(i);
                &&& l.archetype < self.archetypes@.len()
                &&& l.row < self.archetypes@[l.archetype as int].row_count()
                &&& self.archetypes@[l.archetype as int].entity_ids()[l.row as int] == i
            } by {
                let l = self.id_allocator.metadata_at(i);
                if l.archetype != a {
                    assert(self.archetypes@[l.archetype as int] == s0.archetypes@[l.archetype as int]);
                }
            }
            assert forall|b: int, r: int|
                0 <= b < self.archetypes@.len() && 0 <= r < self.archetypes@[b].row_count() implies {
                let i = (#[trigger] self.archetypes@[b].entity_ids()[r]) as int;
                &&& self.id_allocator.slot_in_use(i)
                &&& self.id_allocator.metadata_at(i) == EntityLocation { archetype: b as usize, row: r as usize }
            } by {
                if b != a {
                    assert(self.archetypes@[b] == s0.archetypes@[b]);
                }
                assert(s0.archetypes@[b].entity_ids()[r] == self.archetypes@[b].entity_ids()[r]);
            }
            assert forall|x: EntityId| #[trigger] self.view().contains_key(x) implies self.view()[x] == s0.view()[x] by {
                let l = self.id_allocator.metadata_at(x.spec_index() as int);
                if l.archetype != a {
                    assert(self.archetypes@[l.archetype as int] == s0.archetypes@[l.archetype as int]);
                }
            }
            assert(self.view() =~= s0.view());
        }
    }

    /// Registers the information of a component; an identifier that is already registered
    /// keeps its first record.
    fn register_info(&mut self, info: ComponentInfo)
        requires
            old(self).wf(),
            registrable(info),
        ensures
            final(self).wf(),
            final(self).allocator() == old(self).allocator(),
            final(self).archetype_count() == old(self).archetype_count(),
            forall|a: int|
                0 <= a < old(self).archetype_count() ==> #[trigger] final(self).storage(a)
                    == old(self).storage(a),
            final(self).registry().view().contains_key(info.uuid),
            forall|u: Uuid|
                #[trigger] old(self).registry().view().contains_key(u)
                    ==> final(self).registry().view().contains_key(u),
            final(self).view() == old(self).view(),
            old(self).within_limits() ==> final(self).within_limits(),
    {
        let ghost o = *self;
        self.components.register_raw(info);
        proof {
            assert forall|u: Uuid|
                #[trigger] self.components.view().contains_key(u) implies registrable(
                    self.components.view()[u],
                ) by {
                if o.components.view().contains_key(u) {
                    assert(self.components.view()[u] == o.components.view()[u]);
                }
            }
            assert forall|b: int, u: Uuid|
                0 <= b < self.archetypes@.len() && (#[trigger] self.archetypes@[b]).uuids().contains(u)
                implies #[trigger] self.components.view().contains_key(u) by {
                assert(o.components.view().contains_key(u));
            }
            assert(self.view() =~= o.view());
            assert forall|b: int| 0 <= b < self.archetype_count() && o.within_limits() implies (#[trigger] self.storage(b)).can_reserve_one() by {
                assert(self.storage(b) == o.storage(b));
            }
        }
    }

    /// Adds an entity to archetype `a` with the provided components, which must be exactly
    /// the components of the archetype.
    fn spawn_in(&mut self, a: ArchetypeId, pairs: Vec<(Uuid, V)>) -> (id: EntityId)
        requires
            old(self).wf(),
            old(self).allocator().is_flushed(),
            old(self).allocator().free_slots().len() == 0 ==> old(self).allocator().can_grow(),
            a < old(self).archetype_count(),
            old(self).storage(a as int).can_reserve_one(),
            covers_exactly(pairs@, old(self).storage(a as int).uuids()),
        ensures
            final(self).wf(),
            final(self).allocator().is_flushed(),
            final(self).registry() == old(self).registry(),
            !old(self).view().contains_key(id),
            !old(self).allocator().is_stale(id),
            final(self).view() == old(self).view().insert(id, pairs_map(pairs@)),
            final(self).allocator().generations_advance(&old(self).allocator()),
            forall|x: EntityId|
                #[trigger] old(self).allocator().is_stale(x) ==> final(self).allocator().is_stale(x),
            final(self).archetype_count() == old(self).archetype_count(),
            forall|b: int|
                0 <= b < old(self).archetype_count() && b != a ==> #[trigger] final(self).storage(b)
                    == old(self).storage(b),
            final(self).extends_archetypes(old(self)),
    {
        let ghost s0 = *self;
        self.archetypes[a].reserve_one();
        let ghost s1 = *self;
        let row = self.archetypes[a].len();
        let id = self.id_allocator.allocate(EntityLocation { archetype: a, row });
        self.archetypes[a].push_assume_capacity(id.index(), pairs);
        proof {
            let al0 = s0.id_allocator;
            let al1 = self.id_allocator;
            let idx = id.spec_index() as int;
            let st0 = s0.archetypes@[a as int];
            let mid = s1.archetypes@[a as int];
            let st1 = self.archetypes@[a as int];
            let n = st0.row_count() as int;
            assert(mid.same_contents(&st0));
            mid.lemma_same_contents_rows(&st0);
            assert forall|r: int| 0 <= r < n implies #[trigger] st1.row(r) == st0.row(r) by {
                assert(st1.row(r) == mid.row(r));
            }
            assert(st1.entity_ids() == st0.entity_ids().push(id.spec_index()));
            assert forall|b: int| 0 <= b < self.archetypes@.len() && b != a implies #[trigger] self.archetypes@[b] == s0.archetypes@[b] by {}
            // Locations of slots in use.
            assert forall|i: int| #[trigger] al1.slot_in_use(i) implies {
                let loc = al1.metadata_at(i);
                &&& loc.archetype < self.archetypes@.len()
                &&& loc.row < self.archetypes@[loc.archetype as int].row_count()
                &&& self.archetypes@[loc.archetype as int].entity_ids()[loc.row as int] == i
            } by {
                if i != idx {
                    assert(al0.slot_in_use(i));
                    assert(al1.metadata_at(i) == al0.metadata_at(i));
                    let loc = al0.metadata_at(i);
                    if loc.archetype != a {
                        assert(self.archetypes@[loc.archetype as int] == s0.archetypes@[loc.archetype as int]);
                    }
                }
            }
            assert forall|b: int, r: int|
                0 <= b < self.archetypes@.len() && 0 <= r < self.archetypes@[b].row_count() implies {
                let i = (#[trigger] self.archetypes@[b].entity_ids()[r]) as int;
                &&& al1.slot_in_use(i)
                &&& al1.metadata_at(i) == EntityLocation { archetype: b as usize, row: r as usize }
            } by {
                if b != a || r < n {
                    let i = s0.archetypes@[b].entity_ids()[r] as int;
                    assert(self.archetypes@[b].entity_ids()[r] == i);
                    assert(al0.slot_in_use(i));
                    assert(i != idx);
                    assert(al1.metadata_at(i) == al0.metadata_at(i));
                }
            }
            assert forall|b: int| 0 <= b < self.archetypes@.len() implies (#[trigger] self.archetypes@[b]).wf() by {
                if b != a {
                    assert(self.archetypes@[b] == s0.archetypes@[b]);
                }
            }
            assert forall|b: int, u: Uuid|
                0 <= b < self.archetypes@.len() && (#[trigger] self.archetypes@[b]).uuids().contains(u)
                implies #[trigger] self.components.view().contains_key(u) by {
                assert(s0.archetypes@[b].uuids().contains(u));
            }
            // The entities.
            let target = s0.view().insert(id, pairs_map(pairs@));
            assert forall|x: EntityId| #[trigger] self.view().contains_key(x) <==> target.contains_key(x) by {
                EntityId::lemma_parts(x, id);
                if x.spec_index() != id.spec_index() && al1.is_live(x) {
                    assert(al0.slot_in_use(x.spec_index() as int));
                }
            }
            assert forall|x: EntityId| #[trigger] self.view().contains_key(x) implies self.view()[x] == target[x] by {
                EntityId::lemma_parts(x, id);
                let i = x.spec_index() as int;
                if x != id {
                    assert(al0.slot_in_use(i));
                    assert(al1.metadata_at(i) == al0.metadata_at(i));
                    let loc = al0.metadata_at(i);
                    if loc.archetype != a {
                        assert(self.archetypes@[loc.archetype as int] == s0.archetypes@[loc.archetype as int]);
                    }
                }
            }
            assert(self.view() =~= target);
        }
        id
    }
}

} // verus!
