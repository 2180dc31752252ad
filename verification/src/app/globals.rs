//! Global resources shared by all parts of an application.
use vstd::prelude::*;
use crate::collections::{UuidIndexMap, uuid_index_entries};
use crate::uuid::{TypeUuid, Uuid};

verus! {

/// A trait to represent a global resource: a Rust type that can be registered into a
/// [`Globals`] collection.
pub trait Global: TypeUuid {
    /// A debug name for the global resource, used exclusively for debugging purposes.
    fn debug_name() -> &'static str;
}

/// A global resource stored in a [`Globals`] collection, with its debug name.
pub struct RawGlobal<G> {
    /// The data itself.
    data: G,
    /// A debug name for the global resource, used exclusively for debugging purposes.
    debug_name: &'static str,
}

impl<G> RawGlobal<G> {
    /// The data of the resource.
    pub closed spec fn spec_data(&self) -> G {
        self.data
    }

    /// The debug name of the resource.
    pub closed spec fn spec_debug_name(&self) -> &'static str {
        self.debug_name
    }

    /// Creates a new global resource from its data and debug name.
    pub fn from_parts(data: G, debug_name: &'static str) -> (r: Self)
        ensures
            r.spec_data() == data,
            r.spec_debug_name() == debug_name,
    {
        RawGlobal { data, debug_name }
    }

    /// Creates a new global resource holding `data`, named after the global type `T`.
    pub fn new<T: Global>(data: G) -> (r: Self)
        ensures
            r.spec_data() == data,
    {
        RawGlobal { data, debug_name: T::debug_name() }
    }

    /// Returns the debug name of the global resource.
    pub fn debug_name(&self) -> (r: &'static str)
        ensures
            r == self.spec_debug_name(),
    {
        self.debug_name
    }

    /// Returns the data of the global resource.
    pub fn data(&self) -> (r: &G)
        ensures
            *r == self.spec_data(),
    {
        &self.data
    }

    /// Returns the data of the global resource, for modification.
    pub fn data_mut(&mut self) -> (r: &mut G)
        ensures
            *r == old(self).spec_data(),
            final(self).spec_data() == *final(r),
            final(self).spec_debug_name() == old(self).spec_debug_name(),
    {
        &mut self.data
    }
}

/// A collection of global resources, at most one per identifier.
pub struct Globals<G> {
    /// Maps the value of an identifier to the position of its resource in `entries`.
    index: UuidIndexMap,
    /// The registered resources, with their identifiers.
    entries: Vec<(Uuid, RawGlobal<G>)>,
}

impl<G> Globals<G> {
    /// The internal consistency of the collection.
    pub closed spec fn wf(&self) -> bool {
        let index = uuid_index_entries(self.index);
        &&& forall|key: u128|
            #[trigger] index.contains_key(key) ==> index[key] < self.entries@.len()
                && self.entries@[index[key] as int].0.spec_value() == key
        &&& forall|k: int|
            0 <= k < self.entries@.len() ==> index.contains_key(
                (#[trigger] self.entries@[k]).0.spec_value(),
            ) && index[self.entries@[k].0.spec_value()] == k
    }

    /// The registered resources, by identifier.
    pub closed spec fn view(&self) -> Map<Uuid, RawGlobal<G>> {
        let index = uuid_index_entries(self.index);
        Map::new(
            |u: Uuid| index.contains_key(u.spec_value()),
            |u: Uuid| self.entries@[index[u.spec_value()] as int].1,
        )
    }

    /// Creates an empty collection.
    pub fn new() -> (r: Self)
        ensures
            r.wf(),
            r.view().dom() == Set::<Uuid>::empty(),
    {
        let r = Globals { index: UuidIndexMap::new(), entries: Vec::new() };
        proof {
            assert(r.view().dom() =~= Set::<Uuid>::empty());
        }
        r
    }

    /// Returns the position of the resource with the provided identifier.
    fn position(&self, uuid: Uuid) -> (r: Option<usize>)
        requires
            self.wf(),
        ensures
            r is Some <==> self.view().contains_key(uuid),
            r matches Some(k) ==> k < self.entries@.len() && self.entries@[k as int].0 == uuid
                && self.view()[uuid] == self.entries@[k as int].1,
    {
        let r = self.index.get(uuid.as_u128());
        proof {
            if let Some(k) = r {
                Uuid::lemma_eq_iff_value(self.entries@[k as int].0, uuid);
            }
        }
        r
    }

    /// Registers a new global resource with the provided identifier, which must not be
    /// registered yet.
    pub fn register_raw(&mut self, uuid: Uuid, value: RawGlobal<G>)
        requires
            old(self).wf(),
            !old(self).view().contains_key(uuid),
        ensures
            final(self).wf(),
            final(self).view() == old(self).view().insert(uuid, value),
    {
        let ghost o = *self;
        let pos = self.entries.len();
        self.entries.push((uuid, value));
        self.index.insert(uuid.as_u128(), pos);
        proof {
            let e0 = uuid_index_entries(o.index);
            let e1 = uuid_index_entries(self.index);
            assert(!e0.contains_key(uuid.spec_value()));
            assert forall|k: int| 0 <= k < self.entries@.len() implies e1.contains_key(
                (#[trigger] self.entries@[k]).0.spec_value(),
            ) && e1[self.entries@[k].0.spec_value()] == k by {
                if k < pos {
                    assert(self.entries@[k] == o.entries@[k]);
                    assert(e0.contains_key(o.entries@[k].0.spec_value()));
                }
            }
            let target = o.view().insert(uuid, value);
            assert forall|u: Uuid| #[trigger] self.view().contains_key(u) <==> target.contains_key(u) by {
                Uuid::lemma_eq_iff_value(u, uuid);
            }
            assert forall|u: Uuid| #[trigger] self.view().contains_key(u) implies self.view()[u] == target[u] by {
                Uuid::lemma_eq_iff_value(u, uuid);
                if u != uuid {
                    assert(e1[u.spec_value()] == e0[u.spec_value()]);
                    assert(self.entries@[e0[u.spec_value()] as int] == o.entries@[e0[u.spec_value()] as int]);
                }
            }
            assert(self.view() =~= target);
        }
    }

    /// Ensures that a global resource is registered with the provided identifier: when there is
    /// none yet, `f` is called to create it.
    pub fn register_raw_with<F: FnOnce() -> RawGlobal<G>>(&mut self, uuid: Uuid, f: F)
        requires
            old(self).wf(),
            f.requires(()),
        ensures
            final(self).wf(),
            old(self).view().contains_key(uuid) ==> final(self).view() == old(self).view(),
            !old(self).view().contains_key(uuid) ==> exists|v: RawGlobal<G>|
                f.ensures((), v) && final(self).view() == old(self).view().insert(uuid, v),
    {
        match self.position(uuid) {
            Some(_) => {},
            None => {
                let value = f();
                self.register_raw(uuid, value);
            },
        }
    }

    /// Registers the global resource `T`, which must not be registered yet.
    pub fn register<T: Global>(&mut self, value: G)
        requires
            old(self).wf(),
            !old(self).view().contains_key(T::spec_uuid()),
        ensures
            final(self).wf(),
            final(self).view().dom() == old(self).view().dom().insert(T::spec_uuid()),
            final(self).view()[T::spec_uuid()].spec_data() == value,
            forall|u: Uuid|
                u != T::spec_uuid() && #[trigger] old(self).view().contains_key(u)
                    ==> final(self).view()[u] == old(self).view()[u],
    {
        self.register_raw(T::uuid(), RawGlobal::new::<T>(value));
    }

    /// Ensures that the global resource `T` is registered: when it is not yet, `f` is called
    /// to create its data.
    pub fn register_with<T: Global, F: FnOnce() -> G>(&mut self, f: F)
        requires
            old(self).wf(),
            f.requires(()),
        ensures
            final(self).wf(),
            old(self).view().contains_key(T::spec_uuid()) ==> final(self).view() == old(self).view(),
            !old(self).view().contains_key(T::spec_uuid()) ==> {
                &&& final(self).view().dom() == old(self).view().dom().insert(T::spec_uuid())
                &&& f.ensures((), final(self).view()[T::spec_uuid()].spec_data())
                &&& forall|u: Uuid|
                    u != T::spec_uuid() && #[trigger] old(self).view().contains_key(u)
                        ==> final(self).view()[u] == old(self).view()[u]
            },
    {
        let uuid = T::uuid();
        match self.position(uuid) {
            Some(_) => {},
            None => {
                let data = f();
                self.register_raw(uuid, RawGlobal::new::<T>(data));
            },
        }
    }

    /// Returns the global resource with the provided identifier, or `None` when there is none.
    pub fn get_raw(&self, uuid: Uuid) -> (r: Option<&RawGlobal<G>>)
        requires
            self.wf(),
        ensures
            r is Some <==> self.view().contains_key(uuid),
            r matches Some(g) ==> *g == self.view()[uuid],
    {
        match self.position(uuid) {
            Some(k) => Some(&self.entries[k].1),
            None => None,
        }
    }

    /// Returns the global resource with the provided identifier for modification, or `None`
    /// when there is none.
    pub fn get_raw_mut(&mut self, uuid: Uuid) -> (r: Option<&mut RawGlobal<G>>)
        requires
            old(self).wf(),
        ensures
            r is Some <==> old(self).view().contains_key(uuid),
            r matches Some(g) ==> {
                &&& *g == old(self).view()[uuid]
                &&& final(self).wf()
                &&& forall|u: Uuid| #[trigger] final(self).view().contains_key(u) == old(self).view().contains_key(u)
                &&& final(self).view()[uuid] == *final(g)
                &&& forall|u: Uuid|
                    u != uuid && #[trigger] old(self).view().contains_key(u)
                        ==> final(self).view()[u] == old(self).view()[u]
            },
            r is None ==> *final(self) == *old(self),
    {
        match self.position(uuid) {
            Some(k) => {
                proof {
                    assert forall|u: Uuid| u != uuid && #[trigger] self.view().contains_key(u)
                        implies uuid_index_entries(self.index)[u.spec_value()] != k by {
                        Uuid::lemma_eq_iff_value(u, uuid);
                    }
                }
                let entry = &mut self.entries[k];
                Some(&mut entry.1)
            },
            None => None,
        }
    }

    /// Returns the data of the global resource `T`, or `None` when it is not registered.
    pub fn try_get<T: Global>(&self) -> (r: Option<&G>)
        requires
            self.wf(),
        ensures
            r is Some <==> self.view().contains_key(T::spec_uuid()),
            r matches Some(d) ==> *d == self.view()[T::spec_uuid()].spec_data(),
    {
        match self.get_raw(T::uuid()) {
            Some(g) => Some(g.data()),
            None => None,
        }
    }

    /// Returns the data of the global resource `T` for modification, or `None` when it is not
    /// registered.
    pub fn try_get_mut<T: Global>(&mut self) -> (r: Option<&mut G>)
        requires
            old(self).wf(),
        ensures
            r is Some <==> old(self).view().contains_key(T::spec_uuid()),
            r matches Some(d) ==> {
                &&& *d == old(self).view()[T::spec_uuid()].spec_data()
                &&& final(self).wf()
                &&& forall|u: Uuid| #[trigger] final(self).view().contains_key(u) == old(self).view().contains_key(u)
                &&& final(self).view()[T::spec_uuid()].spec_data() == *final(d)
                &&& final(self).view()[T::spec_uuid()].spec_debug_name() == old(self).view()[T::spec_uuid()].spec_debug_name()
                &&& forall|u: Uuid|
                    u != T::spec_uuid() && #[trigger] old(self).view().contains_key(u)
                        ==> final(self).view()[u] == old(self).view()[u]
            },
            r is None ==> *final(self) == *old(self),
    {
        match self.get_raw_mut(T::uuid()) {
            Some(g) => Some(g.data_mut()),
            None => None,
        }
    }

    /// Returns the data of the global resource `T` for modification; it must be registered.
    pub fn get_mut<T: Global>(&mut self) -> (r: &mut G)
        requires
            old(self).wf(),
            old(self).view().contains_key(T::spec_uuid()),
        ensures
            *r == old(self).view()[T::spec_uuid()].spec_data(),
            final(self).wf(),
            forall|u: Uuid| #[trigger] final(self).view().contains_key(u) == old(self).view().contains_key(u),
            final(self).view()[T::spec_uuid()].spec_data() == *final(r),
            forall|u: Uuid|
                u != T::spec_uuid() && #[trigger] old(self).view().contains_key(u)
                    ==> final(self).view()[u] == old(self).view()[u],
    {
        match self.try_get_mut::<T>() {
            Some(d) => d,
            None => vstd::pervasive::unreached(),
        }
    }

    /// Returns the data of the global resource `T`, which must be registered.
    pub fn get<T: Global>(&self) -> (r: &G)
        requires
            self.wf(),
            self.view().contains_key(T::spec_uuid()),
        ensures
            *r == self.view()[T::spec_uuid()].spec_data(),
    {
        match self.try_get::<T>() {
            Some(d) => d,
            None => vstd::pervasive::unreached(),
        }
    }
}

} // verus!
