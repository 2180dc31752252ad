//! The storage of the entities that share one set of components.
use vstd::prelude::*;
use crate::collections::{UuidIndexMap, uuid_index_entries};
use crate::entities::archetype_components::{ArchetypeComponents, sorted_distinct};
use crate::entities::component::ComponentInfo;
use crate::entities::component_vec::{ComponentVec, valid_info};
use crate::entities::entity_id::EntityIndex;
use crate::uuid::Uuid;

verus! {

/// The row of an entity within an [`ArchetypeStorage`].
pub type EntityRow = usize;

/// Whether the identifiers of `pairs` are distinct.
pub open spec fn distinct_keys<V>(pairs: Seq<(Uuid, V)>) -> bool {
    forall|a: int, b: int|
        0 <= a < pairs.len() && 0 <= b < pairs.len() && a != b ==> (#[trigger] pairs[a]).0 != (
        #[trigger] pairs[b]).0
}

/// Whether some pair of `pairs` has identifier `u`.
pub open spec fn has_key<V>(pairs: Seq<(Uuid, V)>, u: Uuid) -> bool {
    exists|t: int| 0 <= t < pairs.len() && (#[trigger] pairs[t]).0 == u
}

/// Whether `pairs` gives each identifier of `uuids` exactly once, and nothing else.
pub open spec fn covers_exactly<V>(pairs: Seq<(Uuid, V)>, uuids: Seq<Uuid>) -> bool {
    &&& distinct_keys(pairs)
    &&& forall|u: Uuid| has_key(pairs, u) <==> #[trigger] uuids.contains(u)
}

/// The map from identifiers to values that a list of pairs with distinct identifiers describes.
pub open spec fn pairs_map<V>(pairs: Seq<(Uuid, V)>) -> Map<Uuid, V> {
    Map::new(
        |u: Uuid| has_key(pairs, u),
        |u: Uuid| pairs[choose|t: int| 0 <= t < pairs.len() && (#[trigger] pairs[t]).0 == u].1,
    )
}

/// The value that [`pairs_map`] gives an identifier is the one of the pair that holds it.
pub proof fn lemma_pairs_map_at<V>(pairs: Seq<(Uuid, V)>, t: int)
    requires
        distinct_keys(pairs),
        0 <= t < pairs.len(),
    ensures
        pairs_map(pairs).contains_key(pairs[t].0),
        pairs_map(pairs)[pairs[t].0] == pairs[t].1,
{
    let u = pairs[t].0;
    assert(has_key(pairs, u));
    let c = choose|c: int| 0 <= c < pairs.len() && (#[trigger] pairs[c]).0 == u;
    assert(c == t);
}

/// A collection of entities that all share the same set of components.
pub struct ArchetypeStorage<V> {
    /// The archetype of the entities stored in this collection.
    components: ArchetypeComponents,
    /// The indices of the entities stored in this collection, by row.
    ids: Vec<EntityIndex>,
    /// The columns: `columns[k]` stores the components identified by the `k`-th identifier of
    /// the archetype.
    columns: Vec<ComponentVec<V>>,
    /// Maps the value of a component identifier to its column.
    column_index: UuidIndexMap,
}

impl<V> ArchetypeStorage<V> {
    /// The identifiers of the stored components, increasing.
    pub closed spec fn uuids(&self) -> Seq<Uuid> {
        self.components@
    }

    /// The indices of the stored entities, by row.
    pub closed spec fn entity_ids(&self) -> Seq<EntityIndex> {
        self.ids@
    }

    /// The number of stored entities.
    pub open spec fn row_count(&self) -> nat {
        self.entity_ids().len()
    }

    /// The column of the `k`-th component.
    pub closed spec fn column(&self, k: int) -> ComponentVec<V> {
        self.columns@[k]
    }

    /// The value of the `k`-th component of the entity in row `r`.
    pub open spec fn value(&self, k: int, r: int) -> V {
        self.column(k)@[r]
    }

    /// The position of component `u` among the components.
    pub closed spec fn column_of(&self, u: Uuid) -> int {
        uuid_index_entries(self.column_index)[u.spec_value()] as int
    }

    /// The components of the entity in row `r`.
    pub open spec fn row(&self, r: int) -> Map<Uuid, V> {
        Map::new(|u: Uuid| self.uuids().contains(u), |u: Uuid| self.value(self.column_of(u), r))
    }

    /// The internal consistency of the storage.
    pub closed spec fn wf(&self) -> bool {
        let entries = uuid_index_entries(self.column_index);
        &&& sorted_distinct(self.components@)
        &&& self.columns@.len() == self.components@.len()
        &&& forall|k: int|
            0 <= k < self.columns@.len() ==> (#[trigger] self.columns@[k]).wf()
                && self.columns@[k]@.len() == self.ids@.len()
                && self.columns@[k].info().uuid == self.components@[k]
        &&& forall|key: u128|
            #[trigger] entries.contains_key(key) ==> entries[key] < self.components@.len()
                && self.components@[entries[key] as int].spec_value() == key
        &&& forall|k: int|
            0 <= k < self.components@.len() ==> entries.contains_key(
                (#[trigger] self.components@[k]).spec_value(),
            ) && entries[self.components@[k].spec_value()] == k
    }

    /// The components of a storage are sorted by identifier, each once.
    pub proof fn lemma_uuids_sorted(&self)
        requires
            self.wf(),
        ensures
            sorted_distinct(self.uuids()),
    {
    }

    /// The position of a stored component is where the component stands.
    pub proof fn lemma_column_of(&self, u: Uuid)
        requires
            self.wf(),
            self.uuids().contains(u),
        ensures
            0 <= self.column_of(u) < self.uuids().len(),
            self.uuids()[self.column_of(u)] == u,
    {
        let k = choose|k: int| 0 <= k < self.uuids().len() && self.uuids()[k] == u;
        assert(self.components@[k] == u);
        Uuid::lemma_eq_iff_value(self.components@[self.column_of(u)], u);
    }

    /// Whether each column can take one more element, growing if needed.
    pub open spec fn can_reserve_one(&self) -> bool {
        forall|k: int| 0 <= k < self.uuids().len() ==> (#[trigger] self.column(k)).can_reserve_one()
    }

    /// Returns whether each column can take one more element, growing if needed.
    pub(crate) fn check_reserve_one(&self) -> (r: bool)
        requires
            self.wf(),
        ensures
            r == self.can_reserve_one(),
    {
        let mut k: usize = 0;
        while k < self.columns.len()
            invariant
                self.wf(),
                k <= self.columns@.len(),
                forall|t: int| 0 <= t < k ==> (#[trigger] self.column(t)).can_reserve_one(),
            decreases self.columns@.len() - k,
        {
            if !self.columns[k].check_reserve_one() {
                proof {
                    assert(self.columns@[k as int] == self.column(k as int));
                    assert(!self.column(k as int).can_reserve_one());
                }
                return false;
            }
            k = k + 1;
        }
        true
    }

    /// Creates a new, empty storage for the provided components, which must be sorted by
    /// identifier, without duplicates.
    pub fn new(infos: Vec<ComponentInfo>) -> (r: Self)
        requires
            sorted_distinct(infos@.map_values(|i: ComponentInfo| i.uuid)),
            forall|k: int|
                0 <= k < infos@.len() ==> (#[trigger] infos@[k]).layout.align > 0
                    && infos@[k].layout.size + infos@[k].layout.align <= usize::MAX,
        ensures
            r.wf(),
            r.uuids() == infos@.map_values(|i: ComponentInfo| i.uuid),
            r.row_count() == 0,
            r.can_reserve_one(),
    {
        let ghost target = infos@.map_values(|i: ComponentInfo| i.uuid);
        let mut columns: Vec<ComponentVec<V>> = Vec::new();
        let mut uuids: Vec<Uuid> = Vec::new();
        let mut column_index = UuidIndexMap::new();
        let mut k: usize = 0;
        while k < infos.len()
            invariant
                k <= infos@.len(),
                target == infos@.map_values(|i: ComponentInfo| i.uuid),
                sorted_distinct(target),
                forall|t: int|
                    0 <= t < infos@.len() ==> (#[trigger] infos@[t]).layout.align > 0
                        && infos@[t].layout.size + infos@[t].layout.align <= usize::MAX,
                uuids@ == target.subrange(0, k as int),
                columns@.len() == k,
                forall|t: int|
                    0 <= t < k ==> (#[trigger] columns@[t]).wf() && columns@[t]@.len() == 0
                        && columns@[t].info().uuid == target[t] && columns@[t].can_reserve_one(),
                forall|key: u128|
                    #[trigger] uuid_index_entries(column_index).contains_key(key) ==> uuid_index_entries(
                        column_index,
                    )[key] < k && target[uuid_index_entries(column_index)[key] as int].spec_value()
                        == key,
                forall|t: int|
                    0 <= t < k ==> uuid_index_entries(column_index).contains_key(
                        (#[trigger] target[t]).spec_value(),
                    ) && uuid_index_entries(column_index)[target[t].spec_value()] == t,
            decreases infos@.len() - k,
        {
            let info = infos[k];
            let ghost before = uuid_index_entries(column_index);
            columns.push(ComponentVec::new(info));
            uuids.push(info.uuid);
            column_index.insert(info.uuid.as_u128(), k);
            proof {
                assert(target[k as int] == info.uuid);
                assert(uuids@ =~= target.subrange(0, k + 1));
                assert forall|t: int| 0 <= t < k + 1 implies uuid_index_entries(column_index).contains_key(
                    (#[trigger] target[t]).spec_value(),
                ) && uuid_index_entries(column_index)[target[t].spec_value()] == t by {
                    if t < k {
                        assert(target[t].spec_value() < target[k as int].spec_value());
                    }
                }
            }
            k = k + 1;
        }
        proof {
            assert(uuids@ =~= target);
        }
        let components = ArchetypeComponents::from_vec_unchecked(uuids);
        ArchetypeStorage { components, ids: Vec::new(), columns, column_index }
    }

    /// Returns the total number of entities stored in this collection.
    pub fn len(&self) -> (r: usize)
        ensures
            r == self.row_count(),
    {
        self.ids.len()
    }

    /// Returns whether the collection stores no entity.
    pub fn is_empty(&self) -> (r: bool)
        ensures
            r == (self.row_count() == 0),
    {
        self.ids.len() == 0
    }

    /// Returns the [`ArchetypeComponents`] associated with the entities stored in this
    /// collection.
    pub fn archetype_components(&self) -> (r: &ArchetypeComponents)
        ensures
            r@ == self.uuids(),
    {
        &self.components
    }

    /// Returns the indices of the entities stored in this collection, by row.
    pub fn entity_indices(&self) -> (r: &[EntityIndex])
        ensures
            r@ == self.entity_ids(),
    {
        self.ids.as_slice()
    }

    /// Returns whether this collection stores the components with the provided UUID or not.
    pub fn has_component(&self, uuid: Uuid) -> (r: bool)
        requires
            self.wf(),
        ensures
            r == self.uuids().contains(uuid),
    {
        match self.column_index.get(uuid.as_u128()) {
            Some(k) => {
                proof {
                    Uuid::lemma_eq_iff_value(self.components@[k as int], uuid);
                }
                true
            },
            None => {
                proof {
                    if self.uuids().contains(uuid) {
                        let k = choose|k: int| 0 <= k < self.uuids().len() && self.uuids()[k] == uuid;
                        assert(self.components@[k] == uuid);
                    }
                }
                false
            },
        }
    }

    /// Returns the column responsible for storing the components with the provided UUID.
    pub fn get_column(&self, uuid: Uuid) -> (r: Option<&ComponentVec<V>>)
        requires
            self.wf(),
        ensures
            r is Some <==> self.uuids().contains(uuid),
            r matches Some(c) ==> *c == self.column(self.column_of(uuid)),
    {
        match self.column_index.get(uuid.as_u128()) {
            Some(k) => {
                proof {
                    Uuid::lemma_eq_iff_value(self.components@[k as int], uuid);
                }
                Some(&self.columns[k])
            },
            None => {
                proof {
                    if self.uuids().contains(uuid) {
                        let k = choose|k: int| 0 <= k < self.uuids().len() && self.uuids()[k] == uuid;
                        assert(self.components@[k] == uuid);
                    }
                }
                None
            },
        }
    }

    /// Returns the component `uuid` of the entity in row `row`, if the archetype has it.
    pub fn get_raw(&self, row: EntityRow, uuid: Uuid) -> (r: Option<&V>)
        requires
            self.wf(),
            row < self.row_count(),
        ensures
            r is Some <==> self.row(row as int).contains_key(uuid),
            r matches Some(v) ==> *v == self.row(row as int)[uuid],
    {
        match self.get_column(uuid) {
            Some(column) => {
                proof {
                    self.lemma_column_of(uuid);
                }
                Some(column.get_unchecked(row))
            },
            None => None,
        }
    }

    /// Reserves the memory to push one more entity into this collection.
    pub fn reserve_one(&mut self)
        requires
            old(self).wf(),
            old(self).can_reserve_one(),
        ensures
            final(self).wf(),
            final(self).same_contents(old(self)),
            final(self).has_room(),
    {
        let ghost o = *self;
        let mut k: usize = 0;
        let n = self.columns.len();
        while k < n
            invariant
                o.wf(),
                o.can_reserve_one(),
                n == o.columns@.len(),
                k <= n,
                self.components == o.components,
                self.ids == o.ids,
                self.column_index == o.column_index,
                self.columns@.len() == n,
                forall|t: int|
                    0 <= t < n ==> (#[trigger] self.columns@[t]).wf() && self.columns@[t]@
                        == o.columns@[t]@ && self.columns@[t].info() == o.columns@[t].info(),
                forall|t: int| 0 <= t < k ==> (#[trigger] self.columns@[t])@.len() < self.columns@[t].capacity(),
                forall|t: int| k <= t < n ==> #[trigger] self.columns@[t] == o.columns@[t],
            decreases n - k,
        {
            assert(self.columns@[k as int] == o.column(k as int));
            self.columns[k].reserve_one();
            k = k + 1;
        }
    }

    /// Whether every column has room for one more element.
    pub open spec fn has_room(&self) -> bool {
        forall|k: int|
            0 <= k < self.uuids().len() ==> (#[trigger] self.column(k))@.len() < self.column(
                k,
            ).capacity()
    }

    /// Whether `self` stores the same components and entities as `other`.
    pub open spec fn same_contents(&self, other: &Self) -> bool {
        &&& self.uuids() == other.uuids()
        &&& self.entity_ids() == other.entity_ids()
        &&& forall|k: int| 0 <= k < self.uuids().len() ==> (#[trigger] self.column(k))@ == other.column(k)@
        &&& forall|u: Uuid| #[trigger] self.column_of(u) == other.column_of(u)
    }

    /// The number of rows fits in a `usize`.
    pub proof fn lemma_row_count_bound(&self)
        ensures
            self.row_count() <= usize::MAX,
    {
        assert(self.ids@.len() == self.ids.len());
    }

    /// Two storages with the same contents have the same rows.
    pub proof fn lemma_same_contents_rows(&self, other: &Self)
        requires
            other.wf(),
            self.same_contents(other),
        ensures
            forall|r: int| #[trigger] self.row(r) == other.row(r),
    {
        assert forall|r: int| #[trigger] self.row(r) == other.row(r) by {
            assert forall|u: Uuid| #[trigger] self.row(r).contains_key(u) implies self.row(r)[u]
                == other.row(r)[u] by {
                other.lemma_column_of(u);
            }
            assert(self.row(r) =~= other.row(r));
        }
    }

    /// Pushes a new entity into this collection, with one value for each stored component.
    pub fn push_assume_capacity(&mut self, entity_index: EntityIndex, components: Vec<(Uuid, V)>)
        requires
            old(self).wf(),
            old(self).has_room(),
            covers_exactly(components@, old(self).uuids()),
        ensures
            final(self).wf(),
            final(self).uuids() == old(self).uuids(),
            final(self).entity_ids() == old(self).entity_ids().push(entity_index),
            forall|r: int|
                0 <= r < old(self).row_count() ==> #[trigger] final(self).row(r) == old(self).row(r),
            final(self).row(old(self).row_count() as int) == pairs_map(components@),
            forall|u: Uuid| #[trigger] final(self).column_of(u) == old(self).column_of(u),
    {
        let ghost o = *self;
        let ghost pairs = components@;
        let ghost n = o.row_count();
        let total = components.len();
        let mut components = components;
        let mut rev: Vec<(Uuid, V)> = Vec::new();
        // Reverse the list so that popping visits the pairs in order.
        while components.len() > 0
            invariant
                rev@.len() + components@.len() == pairs.len(),
                components@ == pairs.subrange(0, components@.len() as int),
                forall|t: int|
                    0 <= t < rev@.len() ==> #[trigger] rev@[t] == pairs[pairs.len() - 1 - t],
            decreases components@.len(),
        {
            let ghost before = components@;
            match components.pop() {
                Some(p) => {
                    proof {
                        assert(before == pairs.subrange(0, before.len() as int));
                        assert(before[before.len() - 1] == pairs[before.len() - 1]);
                    }
                    rev.push(p);
                    proof {
                        assert(components@ =~= pairs.subrange(0, components@.len() as int));
                    }
                },
                None => {},
            }
        }
        self.ids.push(entity_index);
        let mut done: usize = 0;
        while rev.len() > 0
            invariant
                o.wf(),
                o.has_room(),
                covers_exactly(pairs, o.uuids()),
                n == o.ids@.len(),
                total == pairs.len(),
                done + rev@.len() == pairs.len(),
                forall|t: int|
                    0 <= t < rev@.len() ==> #[trigger] rev@[t] == pairs[pairs.len() - 1 - t],
                self.components == o.components,
                self.column_index == o.column_index,
                self.ids@ == o.ids@.push(entity_index),
                self.columns@.len() == o.columns@.len(),
                forall|k: int|
                    0 <= k < self.columns@.len() ==> (#[trigger] self.columns@[k]).wf()
                        && self.columns@[k].info() == o.columns@[k].info()
                        && self.columns@[k].capacity() == o.columns@[k].capacity()
                        && self.columns@[k]@.subrange(0, n as int) == o.columns@[k]@,
                forall|k: int|
                    0 <= k < self.columns@.len() ==> (#[trigger] self.columns@[k])@.len() == if has_key(
                        pairs.subrange(0, done as int),
                        o.components@[k],
                    ) {
                        n + 1
                    } else {
                        n
                    },
                forall|t: int|
                    0 <= t < done ==> #[trigger] self.columns@[o.column_of(pairs[t].0)]@[n as int]
                        == pairs[t].1,
            decreases rev@.len(),
        {
            let ghost before = *self;
            let ghost prefix = pairs.subrange(0, done as int);
            let ghost prefix2 = pairs.subrange(0, done + 1);
            match rev.pop() {
                Some(p) => {
                    let (u, v) = p;
                    proof {
                        assert(pairs[done as int] == (u, v));
                        assert(has_key(pairs, u)) by {
                            assert(pairs[done as int].0 == u);
                        }
                        o.lemma_column_of(u);
                    }
                    let k = match self.column_index.get(u.as_u128()) {
                        Some(k) => k,
                        None => {
                            proof {
                                assert(o.components@[o.column_of(u)] == u);
                            }
                            0
                        },
                    };
                    proof {
                        assert(k as int == o.column_of(u));
                        assert(!has_key(prefix, u)) by {
                            if has_key(prefix, u) {
                                let t = choose|t: int| 0 <= t < prefix.len() && (#[trigger] prefix[t]).0 == u;
                                assert(pairs[t].0 == pairs[done as int].0);
                            }
                        }
                        assert(o.components@[k as int] == u);
                        assert(self.columns@[k as int]@.len() == n);
                        assert(o.column(k as int)@.len() < o.column(k as int).capacity());
                    }
                    self.columns[k].push_assume_capacity(v);
                    proof {
                        assert forall|k2: int| 0 <= k2 < self.columns@.len() implies (#[trigger] self.columns@[k2])@.len() == if has_key(prefix2, o.components@[k2]) {
                            n + 1
                        } else {
                            n
                        } by {
                            if k2 == k {
                                assert(prefix2[done as int].0 == u);
                            } else {
                                assert(self.columns@[k2] == before.columns@[k2]);
                                assert(o.components@[k2] != u) by {
                                    assert(o.components@[k2] != o.components@[k as int] || k2 == k);
                                    if o.components@[k2] == o.components@[k as int] {
                                        assert(o.components@[k2].spec_value() == o.components@[k as int].spec_value());
                                        if k2 < k {
                                            assert(o.components@[k2].spec_value() < o.components@[k as int].spec_value());
                                        } else {
                                            assert(o.components@[k as int].spec_value() < o.components@[k2].spec_value());
                                        }
                                    }
                                }
                                if has_key(prefix2, o.components@[k2]) {
                                    let t = choose|t: int| 0 <= t < prefix2.len() && (#[trigger] prefix2[t]).0 == o.components@[k2];
                                    assert(t != done);
                                    assert(prefix[t] == prefix2[t]);
                                }
                                if has_key(prefix, o.components@[k2]) {
                                    let t = choose|t: int| 0 <= t < prefix.len() && (#[trigger] prefix[t]).0 == o.components@[k2];
                                    assert(prefix2[t] == prefix[t]);
                                }
                            }
                        }
                        assert forall|t: int| 0 <= t < done + 1 implies #[trigger] self.columns@[o.column_of(pairs[t].0)]@[n as int] == pairs[t].1 by {
                            if t < done {
                                o.lemma_column_of(pairs[t].0);
                                assert(has_key(pairs, pairs[t].0)) by {
                                    assert(pairs[t].0 == pairs[t].0);
                                }
                                if o.column_of(pairs[t].0) == k {
                                    assert(pairs[t].0 == u);
                                }
                            }
                        }
                        assert forall|k2: int| 0 <= k2 < self.columns@.len() implies (#[trigger] self.columns@[k2]).wf()
                            && self.columns@[k2].info() == o.columns@[k2].info()
                            && self.columns@[k2].capacity() == o.columns@[k2].capacity()
                            && self.columns@[k2]@.subrange(0, n as int) == o.columns@[k2]@ by {
                            if k2 == k {
                                assert(self.columns@[k2]@.subrange(0, n as int) =~= before.columns@[k2]@.subrange(0, n as int));
                            }
                        }
                    }
                },
                None => {},
            }
            done = done + 1;
        }
        proof {
            assert(pairs.subrange(0, pairs.len() as int) =~= pairs);
            assert forall|k: int| 0 <= k < self.columns@.len() implies #[trigger] self.columns@[k]@.len() == self.ids@.len() by {
                assert(o.uuids().contains(o.components@[k]));
            }
            assert forall|r: int| 0 <= r < n implies #[trigger] self.row(r) == o.row(r) by {
                assert forall|u: Uuid| #[trigger] self.row(r).contains_key(u) implies self.row(r)[u] == o.row(r)[u] by {
                    o.lemma_column_of(u);
                    let k = o.column_of(u);
                    assert(self.columns@[k]@.subrange(0, n as int)[r] == self.columns@[k]@[r]);
                }
                assert(self.row(r) =~= o.row(r));
            }
            assert forall|u: Uuid| #[trigger] self.row(n as int).contains_key(u) <==> pairs_map(pairs).contains_key(u) by {}
            assert forall|u: Uuid| #[trigger] self.row(n as int).contains_key(u) implies self.row(n as int)[u] == pairs_map(pairs)[u] by {
                assert(has_key(pairs, u));
                let t = choose|t: int| 0 <= t < pairs.len() && (#[trigger] pairs[t]).0 == u;
                lemma_pairs_map_at(pairs, t);
                assert(self.columns@[o.column_of(pairs[t].0)]@[n as int] == pairs[t].1);
                assert(self.column_of(u) == o.column_of(u));
            }
            assert(self.row(n as int) =~= pairs_map(pairs));
        }
    }

    /// The rows that remain after swap-removing row `row` of `old`: the last row takes its place.
    pub open spec fn swap_removed_rows(&self, old: &Self, row: int) -> bool {
        &&& self.uuids() == old.uuids()
        &&& self.entity_ids() == old.entity_ids().update(row, old.entity_ids().last()).drop_last()
        &&& forall|r: int|
            0 <= r < self.row_count() ==> #[trigger] self.row(r) == if r == row {
                old.row(old.row_count() - 1)
            } else {
                old.row(r)
            }
        &&& forall|u: Uuid| #[trigger] self.column_of(u) == old.column_of(u)
    }

    /// Swap-removes the entity in row `row`, handing its components back instead of dropping
    /// them, and returns its index along with them.
    pub fn swap_remove_unchecked_no_drop(&mut self, row: EntityRow) -> (r: (EntityIndex, Vec<(Uuid, V)>))
        requires
            old(self).wf(),
            row < old(self).row_count(),
        ensures
            final(self).wf(),
            final(self).swap_removed_rows(old(self), row as int),
            r.0 == old(self).entity_ids()[row as int],
            covers_exactly(r.1@, old(self).uuids()),
            pairs_map(r.1@) == old(self).row(row as int),
            old(self).has_room() ==> final(self).has_room(),
            old(self).can_reserve_one() ==> final(self).can_reserve_one(),
    {
        let ghost o = *self;
        let ghost last = (o.row_count() - 1) as int;
        let index = self.ids.swap_remove(row);
        let mut out: Vec<(Uuid, V)> = Vec::new();
        let n = self.columns.len();
        let mut k: usize = 0;
        while k < n
            invariant
                o.wf(),
                row < o.row_count(),
                last == o.row_count() - 1,
                n == o.columns@.len(),
                k <= n,
                self.components == o.components,
                self.column_index == o.column_index,
                self.ids@ == o.ids@.update(row as int, o.ids@.last()).drop_last(),
                self.columns@.len() == n,
                forall|t: int|
                    0 <= t < n ==> (#[trigger] self.columns@[t]).wf() && self.columns@[t].info()
                        == o.columns@[t].info() && self.columns@[t].capacity()
                        == o.columns@[t].capacity(),
                forall|t: int|
                    0 <= t < k ==> (#[trigger] self.columns@[t])@ == o.columns@[t]@.update(
                        row as int,
                        o.columns@[t]@.last(),
                    ).drop_last(),
                forall|t: int| k <= t < n ==> #[trigger] self.columns@[t] == o.columns@[t],
                out@.len() == k,
                forall|t: int|
                    0 <= t < k ==> #[trigger] out@[t] == (o.components@[t], o.columns@[t]@[row as int]),
            decreases n - k,
        {
            let u = self.components.as_uuids()[k];
            assert(self.columns@[k as int] == o.columns@[k as int]);
            let v = self.columns[k].swap_remove_unchecked_no_drop(row);
            out.push((u, v));
            k = k + 1;
        }
        proof {
            assert forall|a: int, b: int|
                0 <= a < out@.len() && 0 <= b < out@.len() && a != b implies (#[trigger] out@[a]).0 != (#[trigger] out@[b]).0 by {
                if a < b {
                    assert(o.components@[a].spec_value() < o.components@[b].spec_value());
                } else {
                    assert(o.components@[b].spec_value() < o.components@[a].spec_value());
                }
            }
            assert forall|u: Uuid| has_key(out@, u) <==> #[trigger] o.uuids().contains(u) by {
                if has_key(out@, u) {
                    let t = choose|t: int| 0 <= t < out@.len() && (#[trigger] out@[t]).0 == u;
                    assert(o.components@[t] == u);
                }
                if o.uuids().contains(u) {
                    let t = choose|t: int| 0 <= t < o.uuids().len() && o.uuids()[t] == u;
                    assert(out@[t].0 == u);
                }
            }
            assert forall|u: Uuid| #[trigger] pairs_map(out@).contains_key(u) implies pairs_map(out@)[u] == o.row(row as int)[u] by {
                o.lemma_column_of(u);
                let t = o.column_of(u);
                assert(out@[t].0 == u);
                lemma_pairs_map_at(out@, t);
            }
            assert(pairs_map(out@) =~= o.row(row as int));
            assert forall|r: int| 0 <= r < self.row_count() implies #[trigger] self.row(r) == if r == row {
                o.row(last)
            } else {
                o.row(r)
            } by {
                let target = if r == row { o.row(last) } else { o.row(r) };
                assert forall|u: Uuid| #[trigger] self.row(r).contains_key(u) implies self.row(r)[u] == target[u] by {
                    o.lemma_column_of(u);
                }
                assert(self.row(r) =~= target);
            }
            assert forall|t: int| 0 <= t < n implies #[trigger] self.columns@[t]@.len() == self.ids@.len() by {}
            assert forall|t: int| 0 <= t < self.uuids().len() && o.has_room() implies #[trigger] self.column(t)@.len() < self.column(t).capacity() by {
                assert(o.column(t)@.len() < o.column(t).capacity());
            }
            assert forall|t: int| 0 <= t < self.uuids().len() implies (#[trigger] self.column(t)).can_reserve_one() by {
                assert(o.column(t).wf());
                o.column(t).lemma_wf();
            }
        }
        (index, out)
    }

    /// Swap-removes the entity in row `row`, dropping its components, and returns its index.
    pub fn swap_remove_unchecked(&mut self, row: EntityRow) -> (r: EntityIndex)
        requires
            old(self).wf(),
            row < old(self).row_count(),
        ensures
            final(self).wf(),
            final(self).swap_removed_rows(old(self), row as int),
            r == old(self).entity_ids()[row as int],
            old(self).has_room() ==> final(self).has_room(),
            old(self).can_reserve_one() ==> final(self).can_reserve_one(),
    {
        let (index, _components) = self.swap_remove_unchecked_no_drop(row);
        index
    }

    /// Replaces the component `uuid` of the entity in row `row`, returning the previous value.
    pub fn replace_component(&mut self, row: EntityRow, uuid: Uuid, value: V) -> (r: V)
        requires
            old(self).wf(),
            row < old(self).row_count(),
            old(self).uuids().contains(uuid),
        ensures
            final(self).wf(),
            final(self).uuids() == old(self).uuids(),
            final(self).entity_ids() == old(self).entity_ids(),
            r == old(self).row(row as int)[uuid],
            final(self).row(row as int) == old(self).row(row as int).insert(uuid, value),
            forall|x: int|
                0 <= x < old(self).row_count() && x != row ==> #[trigger] final(self).row(x)
                    == old(self).row(x),
            forall|u: Uuid| #[trigger] final(self).column_of(u) == old(self).column_of(u),
            old(self).has_room() ==> final(self).has_room(),
            old(self).can_reserve_one() ==> final(self).can_reserve_one(),
    {
        let ghost o = *self;
        proof {
            o.lemma_column_of(uuid);
        }
        let k = match self.column_index.get(uuid.as_u128()) {
            Some(k) => k,
            None => 0,
        };
        let r = self.columns[k].replace_unchecked(row, value);
        proof {
            assert forall|x: int| 0 <= x < o.row_count() implies #[trigger] self.row(x) == if x == row {
                o.row(x).insert(uuid, value)
            } else {
                o.row(x)
            } by {
                let target = if x == row { o.row(x).insert(uuid, value) } else { o.row(x) };
                assert forall|u: Uuid| #[trigger] self.row(x).contains_key(u) implies self.row(x)[u] == target[u] by {
                    o.lemma_column_of(u);
                    if u != uuid {
                        assert(self.column_of(u) != k) by {
                            assert(o.components@[o.column_of(u)] == u);
                        }
                    }
                }
                assert forall|u: Uuid| #[trigger] target.contains_key(u) implies self.row(x).contains_key(u) by {}
                assert(self.row(x) =~= target);
            }
            assert forall|t: int| 0 <= t < self.columns@.len() implies #[trigger] self.column(t)@.len() < self.column(t).capacity() || !o.has_room() by {
                if o.has_room() {
                    assert(o.column(t)@.len() < o.column(t).capacity());
                }
            }
            assert forall|t: int| 0 <= t < self.uuids().len() && o.can_reserve_one() implies (#[trigger] self.column(t)).can_reserve_one() by {
                assert(o.column(t).can_reserve_one());
                if t != k {
                    assert(self.column(t) == o.column(t));
                }
            }
        }
        r
    }
}

} // verus!
