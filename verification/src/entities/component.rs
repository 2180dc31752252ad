//! Information about components and the registry that records it.
use vstd::prelude::*;
use crate::collections::{UuidIndexMap, uuid_index_entries};
use crate::uuid::{TypeUuid, Uuid};

verus! {

/// The memory layout of a component: its size and its alignment, in bytes.
#[derive(Clone, Copy, PartialEq, Eq, Structural, Debug)]
pub struct ComponentLayout {
    /// The size of the component.
    pub size: usize,
    /// The alignment of the component, a power of two.
    pub align: usize,
}

/// `size` rounded up to the next multiple of `align`.
pub open spec fn round_up(size: int, align: int) -> int {
    if size % align == 0 {
        size
    } else {
        size + (align - size % align)
    }
}

impl ComponentLayout {
    /// Returns the layout with its size rounded up to a multiple of its alignment, so that the
    /// size is the stride of an array of such components.
    pub fn pad_to_align(self) -> (r: ComponentLayout)
        requires
            self.align > 0,
            self.size + self.align <= usize::MAX,
        ensures
            r.align == self.align,
            r.size == round_up(self.size as int, self.align as int),
            r.size % r.align == 0,
            self.size <= r.size < self.size + self.align,
    {
        let rem = self.size % self.align;
        proof {
            vstd::arithmetic::div_mod::lemma_fundamental_div_mod(self.size as int, self.align as int);
            let q = self.size as int / self.align as int;
            assert(self.size + (self.align - rem) == (q + 1) * self.align) by (nonlinear_arith)
                requires
                    self.size == self.align * q + rem,
            ;
            vstd::arithmetic::div_mod::lemma_mod_multiples_basic(q + 1, self.align as int);
        }
        if rem == 0 {
            self
        } else {
            ComponentLayout { size: self.size + (self.align - rem), align: self.align }
        }
    }
}

/// Stores information about a component: its identifier, a name for debugging and its memory
/// layout.
#[derive(Clone, Copy)]
pub struct ComponentInfo {
    /// The UUID of the component.
    pub uuid: Uuid,
    /// A debug name for the component.
    pub debug_name: &'static str,
    /// The memory layout of the component, whose size is a multiple of its alignment.
    pub layout: ComponentLayout,
}

/// A trait that describes components in the Rust type system.
pub trait Component: TypeUuid + Sized {
    /// The debug name of the component.
    fn debug_name() -> &'static str;
}

impl ComponentInfo {
    /// Creates the [`ComponentInfo`] of the Rust type `T`.
    pub fn of<T: Component>() -> (r: ComponentInfo)
        ensures
            r.uuid == T::spec_uuid(),
            r.layout.size == vstd::layout::size_of::<T>(),
            r.layout.align == vstd::layout::align_of::<T>(),
            r.layout.size % r.layout.align == 0,
    {
        vstd::layout::layout_for_type_is_valid::<T>();
        let size = std::mem::size_of::<T>();
        let align = std::mem::align_of::<T>();
        ComponentInfo {
            uuid: T::uuid(),
            debug_name: T::debug_name(),
            layout: ComponentLayout { size, align },
        }
    }
}

/// A registry responsible for storing information about available components, at most one
/// record per component identifier.
pub struct ComponentRegistry {
    /// Maps the value of a component identifier to the position of its record in `infos`.
    index: UuidIndexMap,
    /// The recorded component information.
    infos: Vec<ComponentInfo>,
}

impl ComponentRegistry {
    /// The internal consistency of the registry.
    pub closed spec fn wf(&self) -> bool {
        let entries = uuid_index_entries(self.index);
        &&& forall|key: u128|
            #[trigger] entries.contains_key(key) ==> entries[key] < self.infos@.len()
                && self.infos@[entries[key] as int].uuid.spec_value() == key
        &&& forall|k: int|
            0 <= k < self.infos@.len() ==> entries.contains_key(
                (#[trigger] self.infos@[k]).uuid.spec_value(),
            ) && entries[self.infos@[k].uuid.spec_value()] == k
    }

    /// The recorded information, by component identifier.
    pub closed spec fn view(&self) -> Map<Uuid, ComponentInfo> {
        let entries = uuid_index_entries(self.index);
        Map::new(
            |u: Uuid| entries.contains_key(u.spec_value()),
            |u: Uuid| self.infos@[entries[u.spec_value()] as int],
        )
    }

    /// Records are indexed by the identifier they describe.
    pub proof fn lemma_record_uuid(&self, u: Uuid)
        requires
            self.wf(),
            self.view().contains_key(u),
        ensures
            self.view()[u].uuid == u,
    {
        let entries = uuid_index_entries(self.index);
        Uuid::lemma_eq_iff_value(self.infos@[entries[u.spec_value()] as int].uuid, u);
    }

    /// Creates an empty registry.
    pub fn new() -> (r: Self)
        ensures
            r.wf(),
            r.view() == Map::<Uuid, ComponentInfo>::empty(),
    {
        let r = ComponentRegistry { index: UuidIndexMap::new(), infos: Vec::new() };
        proof {
            assert(r.view() =~= Map::<Uuid, ComponentInfo>::empty());
        }
        r
    }

    /// Registers a component with the registry without using the Rust type system.
    ///
    /// A component whose identifier is already registered keeps its first record.
    pub fn register_raw(&mut self, info: ComponentInfo)
        requires
            old(self).wf(),
        ensures
            final(self).wf(),
            old(self).view().contains_key(info.uuid) ==> final(self).view() == old(self).view(),
            !old(self).view().contains_key(info.uuid) ==> final(self).view() == old(
                self,
            ).view().insert(info.uuid, info),
    {
        let key = info.uuid.as_u128();
        match self.index.get(key) {
            Some(_) => {},
            None => {
                let ghost o = *self;
                let pos = self.infos.len();
                self.infos.push(info);
                self.index.insert(key, pos);
                proof {
                    let e0 = uuid_index_entries(o.index);
                    let e1 = uuid_index_entries(self.index);
                    assert forall|k: int| 0 <= k < self.infos@.len() implies e1.contains_key(
                        (#[trigger] self.infos@[k]).uuid.spec_value(),
                    ) && e1[self.infos@[k].uuid.spec_value()] == k by {
                        if k < pos {
                            assert(self.infos@[k] == o.infos@[k]);
                            assert(e0.contains_key(o.infos@[k].uuid.spec_value()));
                        }
                    }
                    let target = o.view().insert(info.uuid, info);
                    assert forall|u: Uuid| #[trigger] self.view().contains_key(u) <==> target.contains_key(u) by {
                        Uuid::lemma_eq_iff_value(u, info.uuid);
                    }
                    assert forall|u: Uuid| #[trigger] self.view().contains_key(u) implies self.view()[u] == target[u] by {
                        Uuid::lemma_eq_iff_value(u, info.uuid);
                        if u.spec_value() != key {
                            assert(e0.contains_key(u.spec_value()));
                            assert(e1[u.spec_value()] == e0[u.spec_value()]);
                            assert(e0[u.spec_value()] < pos);
                            assert(self.infos@[e0[u.spec_value()] as int] == o.infos@[e0[u.spec_value()] as int]);
                        } else {
                            assert(e1[key] == pos);
                        }
                    }
                    assert(self.view() =~= target);
                }
            },
        }
    }

    /// Registers the component `T` with the registry, returning its information.
    pub fn register<T: Component>(&mut self) -> (r: ComponentInfo)
        requires
            old(self).wf(),
        ensures
            final(self).wf(),
            r.uuid == T::spec_uuid(),
            old(self).view().contains_key(r.uuid) ==> final(self).view() == old(self).view(),
            !old(self).view().contains_key(r.uuid) ==> final(self).view() == old(
                self,
            ).view().insert(r.uuid, r),
    {
        let info = ComponentInfo::of::<T>();
        self.register_raw(info);
        info
    }

    /// Gets information about a particular component based on its UUID.
    pub fn get_by_uuid(&self, uuid: Uuid) -> (r: Option<ComponentInfo>)
        requires
            self.wf(),
        ensures
            r is Some <==> self.view().contains_key(uuid),
            r matches Some(info) ==> info == self.view()[uuid],
    {
        match self.index.get(uuid.as_u128()) {
            Some(pos) => Some(self.infos[pos]),
            None => None,
        }
    }

    /// The number of records.
    pub closed spec fn record_count(&self) -> nat {
        self.infos@.len()
    }
}

} // verus!
