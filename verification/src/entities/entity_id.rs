//! Entity identifiers and the allocator that hands them out.
use vstd::prelude::*;

verus! {

/// The raw entity index part of an [`EntityId`].
pub type EntityIndex = u32;

/// A cheaply-clonable identifier for an entity.
///
/// The fields are declared generation first so that the derived ordering is the ordering of
/// [`EntityId::to_bits`].
#[derive(Clone, Copy, PartialEq, Eq, Structural, PartialOrd, Ord, Hash, Debug)]
pub struct EntityId {
    /// The generation number of the entity's ID.
    generation: u32,
    /// The index of the entity's slot.
    index: EntityIndex,
}

impl EntityId {
    /// The index part of the identifier.
    pub closed spec fn spec_index(self) -> EntityIndex {
        self.index
    }

    /// The generation part of the identifier.
    pub closed spec fn spec_generation(self) -> u32 {
        self.generation
    }

    /// The identifier made of the given index and generation.
    pub closed spec fn spec_new(index: EntityIndex, generation: u32) -> EntityId {
        EntityId { generation, index }
    }

    /// An identifier is determined by its index and its generation.
    pub proof fn lemma_parts(a: EntityId, b: EntityId)
        ensures
            (a == b) <==> (a.spec_index() == b.spec_index() && a.spec_generation()
                == b.spec_generation()),
    {
    }

    /// The parts of a built identifier are the ones it was built from.
    pub proof fn lemma_new_parts(index: EntityIndex, generation: u32)
        ensures
            EntityId::spec_new(index, generation).spec_index() == index,
            EntityId::spec_new(index, generation).spec_generation() == generation,
    {
    }

    /// An [`EntityId`] that is unlikely to be valid, usable as a placeholder.
    pub fn dummy() -> (r: EntityId)
        ensures
            r.spec_index() == u32::MAX,
            r.spec_generation() == u32::MAX,
    {
        EntityId { generation: u32::MAX, index: u32::MAX }
    }

    /// Turns this [`EntityId`] instance into its bit representation: the index in the low 32
    /// bits and the generation in the high 32 bits.
    pub fn to_bits(self) -> (r: u64)
        ensures
            r == self.spec_index() + self.spec_generation() * 0x1_0000_0000,
    {
        let g = self.generation as u64;
        let i = self.index as u64;
        assert((g << 32u64) | i == i + g * 0x1_0000_0000) by (bit_vector)
            requires
                g < 0x1_0000_0000,
                i < 0x1_0000_0000,
        ;
        (g << 32u64) | i
    }

    /// Returns the raw [`EntityIndex`] associated with this [`EntityId`] instance.
    pub fn index(self) -> (r: EntityIndex)
        ensures
            r == self.spec_index(),
    {
        self.index
    }
}

/// A sequence of distinct indices below `n` that misses one index below `n` is shorter than `n`.
pub proof fn lemma_distinct_below(s: Seq<u32>, n: int, extra: u32)
    requires
        s.no_duplicates(),
        forall|k: int| 0 <= k < s.len() ==> #[trigger] s[k] < n,
        extra < n,
        !s.contains(extra),
    ensures
        s.len() < n,
{
    broadcast use vstd::set::group_set_axioms, vstd::seq_lib::group_seq_properties;

    s.unique_seq_to_set();
    let set = s.to_set().insert(extra);
    let f = |x: u32| x as int;
    let image = set.map(f);
    assert(image.subset_of(vstd::set_lib::set_int_range(0, n))) by {
        assert forall|v: int| #[trigger] image.contains(v) implies 0 <= v < n by {
            let x = choose|x: u32| set.contains(x) && f(x) == v;
            if x != extra {
                let k = choose|k: int| 0 <= k < s.len() && s[k] == x;
            }
        }
    }
    vstd::set_lib::lemma_int_range(0, n);
    vstd::set_lib::lemma_map_size(set, image, f);
    vstd::set_lib::lemma_len_subset(image, vstd::set_lib::set_int_range(0, n));
}

/// Stores metadata about an entity that has been allocated.
struct Slot<M> {
    /// The current generation of this slot.
    generation: u32,
    /// The metadata stored in this slot.
    metadata: M,
}

impl<M> Slot<M> {
    /// Bumps the generation number of this slot.
    fn bump_generation(&mut self)
        requires
            old(self).generation < u32::MAX,
        ensures
            final(self).generation == old(self).generation + 1,
            final(self).metadata == old(self).metadata,
    {
        self.generation = self.generation + 1;
    }
}

/// The number of distinct entity indices.
pub open spec fn index_space() -> nat {
    0x1_0000_0000
}

/// A collection responsible for creating new [`EntityId`]s and storing metadata about them.
///
/// Identifiers may be reserved ahead of time with [`EntityIdAllocator::reserve_one`]; they get
/// their metadata, and become live, when the allocator is flushed.
pub struct EntityIdAllocator<M> {
    /// The slots that store metadata about entities.
    slots: Vec<Slot<M>>,
    /// The slots that have been deallocated so far, reused in priority.
    free_list: Vec<u32>,
    /// When non-negative, the number of entries at the front of `free_list` that are not
    /// reserved. When negative, every entry of `free_list` is reserved, as are `-reserved`
    /// fresh indices past the end of `slots`.
    reserved: isize,
}

impl<M> EntityIdAllocator<M> {
    /// The number of slots.
    pub closed spec fn slot_count(&self) -> nat {
        self.slots@.len()
    }

    /// The generation stored in slot `i`.
    pub closed spec fn generation_at(&self, i: int) -> u32 {
        self.slots@[i].generation
    }

    /// The metadata stored in slot `i`.
    pub closed spec fn metadata_at(&self, i: int) -> M {
        self.slots@[i].metadata
    }

    /// The deallocated slots, in the order in which they will be reused (last first).
    pub closed spec fn free_slots(&self) -> Seq<u32> {
        self.free_list@
    }

    /// The reservation cursor.
    pub closed spec fn cursor(&self) -> int {
        self.reserved as int
    }

    /// The internal consistency of the allocator.
    pub closed spec fn wf(&self) -> bool {
        &&& self.slots@.len() <= index_space()
        &&& forall|i: int| 0 <= i < self.slots@.len() ==> #[trigger] self.slots@[i].generation >= 1
        &&& forall|k: int|
            0 <= k < self.free_list@.len() ==> #[trigger] self.free_list@[k] < self.slots@.len()
        &&& self.free_list@.no_duplicates()
        &&& self.free_list@.len() <= isize::MAX
        &&& self.slots@.len() <= isize::MAX
        &&& self.reserved <= self.free_list@.len()
        &&& self.reserved > isize::MIN
    }

    /// Whether `id` refers to the current generation of one of the slots.
    pub open spec fn spec_is_valid(&self, id: EntityId) -> bool {
        &&& id.spec_index() < self.slot_count()
        &&& self.generation_at(id.spec_index() as int) == id.spec_generation()
    }

    /// Whether slot `i` is allocated (not on the free list).
    pub open spec fn slot_in_use(&self, i: int) -> bool {
        0 <= i < self.slot_count() && !self.free_slots().contains(i as u32)
    }

    /// Whether `id` refers to a live entity: a valid identifier whose slot is in use.
    pub open spec fn is_live(&self, id: EntityId) -> bool {
        self.spec_is_valid(id) && self.slot_in_use(id.spec_index() as int)
    }

    /// The index where flushing starts draining the free list.
    pub open spec fn drain_start(&self) -> int {
        if self.cursor() >= 0 {
            self.cursor()
        } else {
            0
        }
    }

    /// The number of fresh indices reserved past the end of the slots.
    pub open spec fn fresh_reserved(&self) -> nat {
        if self.cursor() < 0 {
            (-self.cursor()) as nat
        } else {
            0
        }
    }

    /// The identifiers that have been reserved and not flushed yet, in the order in which a
    /// flush gives them their metadata.
    pub open spec fn pending(&self) -> Seq<EntityId> {
        let reused = self.free_slots().subrange(self.drain_start(), self.free_slots().len() as int);
        Seq::new(
            reused.len(),
            |k: int| EntityId::spec_new(reused[k], self.generation_at(reused[k] as int)),
        ) + Seq::new(
            self.fresh_reserved(),
            |k: int| EntityId::spec_new((self.slot_count() + k) as u32, 1),
        )
    }

    /// Whether no identifier is waiting for a flush.
    pub open spec fn is_flushed(&self) -> bool {
        self.cursor() == self.free_slots().len()
    }

    /// Whether `id` is stale: its slot exists and has moved on to a later generation, so that
    /// the identifier can never be valid again.
    pub open spec fn is_stale(&self, id: EntityId) -> bool {
        id.spec_index() < self.slot_count() && self.generation_at(id.spec_index() as int)
            > id.spec_generation()
    }

    /// Whether one more slot can be added.
    pub open spec fn can_grow(&self) -> bool {
        self.slot_count() < index_space() && self.slot_count() < isize::MAX
    }

    /// Whether one more identifier can be reserved without running out of indices.
    pub open spec fn can_reserve(&self) -> bool {
        &&& self.cursor() > isize::MIN + 1
        &&& self.cursor() <= 0 ==> self.slot_count() + self.fresh_reserved() < u32::MAX
    }

    /// Whether every slot of `old` keeps its generation or moves it forward in `self`.
    pub open spec fn generations_advance(&self, old: &Self) -> bool {
        &&& old.slot_count() <= self.slot_count()
        &&& forall|i: int|
            0 <= i < old.slot_count() ==> old.generation_at(i) <= #[trigger] self.generation_at(i)
    }

    /// Whether `self` and `other` have the same slots, with the same generations and metadata.
    pub open spec fn same_slots(&self, other: &Self) -> bool {
        &&& self.slot_count() == other.slot_count()
        &&& forall|i: int|
            0 <= i < self.slot_count() ==> #[trigger] self.generation_at(i) == other.generation_at(i)
        &&& forall|i: int|
            0 <= i < self.slot_count() ==> #[trigger] self.metadata_at(i) == other.metadata_at(i)
    }

    /// What the consistency of the allocator says of its free list.
    pub proof fn lemma_wf(&self)
        requires
            self.wf(),
        ensures
            0 <= self.drain_start() <= self.free_slots().len(),
            self.free_slots().no_duplicates(),
            forall|k: int|
                0 <= k < self.free_slots().len() ==> #[trigger] self.free_slots()[k]
                    < self.slot_count(),
            self.slot_count() <= index_space(),
            forall|i: int| 0 <= i < self.slot_count() ==> #[trigger] self.generation_at(i) >= 1,
    {
    }

    /// Reserved identifiers do not refer to slots in use, and their indices are distinct.
    pub proof fn lemma_pending_fresh(&self)
        requires
            self.wf(),
            self.slot_count() + self.fresh_reserved() <= index_space(),
        ensures
            forall|k: int|
                0 <= k < self.pending().len() ==> !self.slot_in_use(
                    (#[trigger] self.pending()[k]).spec_index() as int,
                ),
            forall|k: int|
                0 <= k < self.pending().len() ==> !self.is_live(#[trigger] self.pending()[k]),
            forall|a: int, b: int|
                0 <= a < self.pending().len() && 0 <= b < self.pending().len() && a != b
                    ==> (#[trigger] self.pending()[a]).spec_index() != (
                #[trigger] self.pending()[b]).spec_index(),
    {
        let start = self.drain_start();
        let reused = self.free_slots().subrange(start, self.free_slots().len() as int);
        let nr = reused.len() as int;
        assert forall|k: int| 0 <= k < self.pending().len() implies !self.slot_in_use(
            (#[trigger] self.pending()[k]).spec_index() as int,
        ) by {
            if k < nr {
                assert(self.pending()[k] == EntityId::spec_new(reused[k], self.generation_at(reused[k] as int)));
                assert(self.free_slots()[start + k] == reused[k]);
            } else {
                assert(self.pending()[k] == EntityId::spec_new((self.slot_count() + (k - nr)) as u32, 1));
            }
        }
        assert forall|a: int, b: int|
            0 <= a < self.pending().len() && 0 <= b < self.pending().len() && a != b
                implies (#[trigger] self.pending()[a]).spec_index() != (#[trigger] self.pending()[b]).spec_index() by {
            if a < nr {
                assert(self.pending()[a] == EntityId::spec_new(reused[a], self.generation_at(reused[a] as int)));
                assert(self.free_slots()[start + a] == reused[a]);
            } else {
                assert(self.pending()[a] == EntityId::spec_new((self.slot_count() + (a - nr)) as u32, 1));
            }
            if b < nr {
                assert(self.pending()[b] == EntityId::spec_new(reused[b], self.generation_at(reused[b] as int)));
                assert(self.free_slots()[start + b] == reused[b]);
            } else {
                assert(self.pending()[b] == EntityId::spec_new((self.slot_count() + (b - nr)) as u32, 1));
            }
        }
    }

    /// Creates an empty allocator.
    pub fn new() -> (r: Self)
        ensures
            r.wf(),
            r.slot_count() == 0,
            r.free_slots().len() == 0,
            r.is_flushed(),
    {
        EntityIdAllocator { slots: Vec::new(), free_list: Vec::new(), reserved: 0 }
    }

    /// Returns whether one more identifier can be reserved without running out of indices.
    pub fn can_reserve_one(&self) -> (r: bool)
        requires
            self.wf(),
        ensures
            r == self.can_reserve(),
    {
        if self.reserved <= isize::MIN + 1 {
            return false;
        }
        if self.reserved > 0 {
            return true;
        }
        let slots = self.slot_len() as u64;
        let fresh = self.fresh_len() as u64;
        assert(slots <= 0x1_0000_0000) by {
            assert(self.slots@.len() <= index_space());
        }
        slots + fresh < 0xffff_ffffu64
    }

    /// Returns the number of entities that were reserved but not yet allocated properly.
    pub fn reserved_entities(&self) -> (r: usize)
        requires
            self.wf(),
            self.fresh_reserved() + self.free_slots().len() <= usize::MAX,
        ensures
            r == self.pending().len(),
    {
        let r = self.reserved;
        if r < 0 {
            let n = (0isize - r) as usize;
            n + self.free_list.len()
        } else {
            self.free_list.len() - r as usize
        }
    }

    /// Returns whether the allocator needs to be flushed, that is, whether some identifiers
    /// have been reserved and not flushed yet.
    pub fn needs_flush(&self) -> (r: bool)
        requires
            self.wf(),
        ensures
            r == !self.is_flushed(),
            r == (self.pending().len() > 0),
    {
        self.reserved != self.free_list.len() as isize
    }

    /// Reserves a single entity ID.
    ///
    /// The identifier becomes live with the next flush.
    pub fn reserve_one(&mut self) -> (id: EntityId)
        requires
            old(self).wf(),
            old(self).can_reserve(),
        ensures
            final(self).wf(),
            final(self).same_slots(old(self)),
            final(self).free_slots() == old(self).free_slots(),
            final(self).cursor() == old(self).cursor() - 1,
            old(self).cursor() > 0 ==> final(self).pending() == seq![id] + old(self).pending(),
            old(self).cursor() <= 0 ==> final(self).pending() == old(self).pending().push(id),
            !old(self).pending().contains(id),
            !old(self).is_live(id),
            !old(self).is_stale(id),
    {
        let reserved = self.reserved - 1;
        self.reserved = reserved;
        let ghost o = *old(self);
        if reserved >= 0 {
            let index = self.free_list[reserved as usize];
            let id = EntityId { generation: self.slots[index as usize].generation, index };
            proof {
                let reused = o.free_slots().subrange(o.drain_start(), o.free_slots().len() as int);
                let reused2 = self.free_slots().subrange(
                    self.drain_start(),
                    self.free_slots().len() as int,
                );
                assert(reused2 =~= seq![index] + reused);
                assert(self.fresh_reserved() == 0 && o.fresh_reserved() == 0);
                assert(self.pending() =~= seq![id] + o.pending());
                assert(o.free_slots().contains(index)) by {
                    assert(o.free_slots()[reserved as int] == index);
                }
                if o.pending().contains(id) {
                    let k = choose|k: int| 0 <= k < o.pending().len() && o.pending()[k] == id;
                    assert(o.pending()[k] == EntityId::spec_new(
                        reused[k],
                        o.generation_at(reused[k] as int),
                    ));
                    assert(reused[k] == o.free_slots()[o.drain_start() + k]);
                    assert(o.free_slots()[reserved as int] == o.free_slots()[o.drain_start() + k]);
                }
            }
            id
        } else {
            let added = (0isize - reserved - 1) as usize;
            let index = (self.slots.len() + added) as u32;
            let id = EntityId { generation: 1, index };
            proof {
                let reused = o.free_slots().subrange(o.drain_start(), o.free_slots().len() as int);
                let reused2 = self.free_slots().subrange(
                    self.drain_start(),
                    self.free_slots().len() as int,
                );
                assert(reused2 =~= reused);
                assert(self.fresh_reserved() == o.fresh_reserved() + 1);
                assert(self.pending() =~= o.pending().push(id));
                if o.pending().contains(id) {
                    let k = choose|k: int| 0 <= k < o.pending().len() && o.pending()[k] == id;
                    if k < reused.len() {
                        assert(reused[k] < o.slot_count());
                    } else {
                        let j = k - reused.len();
                        assert(o.pending()[k] == EntityId::spec_new(
                            (o.slot_count() + j) as u32,
                            1,
                        ));
                    }
                }
            }
            id
        }
    }

    /// Whether `self` differs from `old` at most in slot `i`, whose generation is kept.
    pub open spec fn same_except(&self, old: &Self, i: int) -> bool {
        &&& forall|j: int|
            0 <= j < old.slot_count() ==> #[trigger] self.generation_at(j) == old.generation_at(j)
        &&& forall|j: int|
            0 <= j < old.slot_count() && j != i ==> #[trigger] self.metadata_at(j)
                == old.metadata_at(j)
    }

    /// Allocates a new entity with the provided metadata.
    ///
    /// A deallocated slot is reused in priority; otherwise a new slot is added.
    pub fn allocate(&mut self, metadata: M) -> (id: EntityId)
        requires
            old(self).wf(),
            old(self).is_flushed(),
            old(self).free_slots().len() == 0 ==> old(self).can_grow(),
        ensures
            final(self).wf(),
            final(self).is_flushed(),
            final(self).is_live(id),
            final(self).metadata_at(id.spec_index() as int) == metadata,
            !old(self).is_live(id),
            !old(self).is_stale(id),
            old(self).free_slots().len() > 0 ==> {
                &&& id == EntityId::spec_new(
                    old(self).free_slots().last(),
                    old(self).generation_at(old(self).free_slots().last() as int),
                )
                &&& final(self).free_slots() == old(self).free_slots().drop_last()
                &&& final(self).slot_count() == old(self).slot_count()
            },
            old(self).free_slots().len() == 0 ==> {
                &&& id == EntityId::spec_new(old(self).slot_count() as u32, 1)
                &&& final(self).free_slots() == old(self).free_slots()
                &&& final(self).slot_count() == old(self).slot_count() + 1
            },
            final(self).same_except(old(self), id.spec_index() as int),
            final(self).generations_advance(old(self)),
            !old(self).slot_in_use(id.spec_index() as int),
            forall|i: int|
                #[trigger] final(self).slot_in_use(i) <==> (old(self).slot_in_use(i) || i
                    == id.spec_index()),
            forall|x: EntityId| #[trigger] old(self).is_live(x) ==> final(self).is_live(x),
            forall|x: EntityId| #[trigger] old(self).is_stale(x) ==> final(self).is_stale(x),
    {
        let ghost o = *old(self);
        match self.free_list.pop() {
            Some(index) => {
                let slot = &mut self.slots[index as usize];
                slot.metadata = metadata;
                let generation = slot.generation;
                self.reserved = self.free_list.len() as isize;
                let id = EntityId { generation, index };
                proof {
                    assert(o.free_slots()[o.free_slots().len() - 1] == index);
                    assert forall|k: int| 0 <= k < self.free_list@.len() implies #[trigger] self.free_list@[k] != index by {
                        assert(o.free_slots()[k] == self.free_list@[k]);
                    }
                    assert(!self.free_slots().contains(index));
                    assert(o.free_slots().contains(index));
                    assert forall|x: EntityId| #[trigger] o.is_live(x) implies self.is_live(x) by {
                        if self.free_slots().contains(x.spec_index()) {
                            let k = choose|k: int| 0 <= k < self.free_slots().len() && self.free_slots()[k] == x.spec_index();
                            assert(o.free_slots()[k] == x.spec_index());
                        }
                    }
                    assert forall|i: int| #[trigger] self.slot_in_use(i) <==> (o.slot_in_use(i) || i == index) by {
                        if self.free_slots().contains(i as u32) {
                            let k = choose|k: int| 0 <= k < self.free_slots().len() && self.free_slots()[k] == i as u32;
                            assert(o.free_slots()[k] == i as u32);
                        }
                        if 0 <= i < o.slot_count() && o.free_slots().contains(i as u32) && i != index {
                            let k = choose|k: int| 0 <= k < o.free_slots().len() && o.free_slots()[k] == i as u32;
                            assert(k != o.free_slots().len() - 1);
                            assert(self.free_slots()[k] == i as u32);
                        }
                    }
                }
                id
            },
            None => {
                let index = self.slots.len() as u32;
                self.slots.push(Slot { generation: 1, metadata });
                let id = EntityId { generation: 1, index };
                proof {
                    assert(self.slots@[index as int].generation == 1);
                    assert forall|x: EntityId| #[trigger] o.is_live(x) implies self.is_live(x) by {
                        assert(self.slots@[x.spec_index() as int] == o.slots@[x.spec_index() as int]);
                    }
                    assert forall|x: EntityId| #[trigger] o.is_stale(x) implies self.is_stale(x) by {
                        assert(self.slots@[x.spec_index() as int] == o.slots@[x.spec_index() as int]);
                    }
                    assert forall|i: int| #[trigger] self.slot_in_use(i) <==> (o.slot_in_use(i) || i == index) by {
                        if 0 <= i < o.slot_count() && o.free_slots().contains(i as u32) {
                            let k = choose|k: int| 0 <= k < o.free_slots().len() && o.free_slots()[k] == i as u32;
                            assert(o.free_list@[k] < o.slot_count());
                        }
                    }
                }
                id
            },
        }
    }

    /// Deallocates the live entity at index `entity`, moving its slot to the next generation.
    ///
    /// Returns the metadata of the entity.
    pub fn deallocate_unchecked(&mut self, entity: EntityIndex) -> (r: &mut M)
        requires
            old(self).wf(),
            old(self).is_flushed(),
            old(self).slot_in_use(entity as int),
            old(self).generation_at(entity as int) < u32::MAX,
        ensures
            final(self).wf(),
            final(self).is_flushed(),
            *r == old(self).metadata_at(entity as int),
            final(self).metadata_at(entity as int) == *final(r),
            final(self).slot_count() == old(self).slot_count(),
            final(self).free_slots() == old(self).free_slots().push(entity),
            final(self).generation_at(entity as int) == old(self).generation_at(entity as int) + 1,
            forall|j: int|
                0 <= j < old(self).slot_count() && j != entity ==> #[trigger] final(self).generation_at(j)
                    == old(self).generation_at(j),
            forall|j: int|
                0 <= j < old(self).slot_count() && j != entity ==> #[trigger] final(self).metadata_at(j)
                    == old(self).metadata_at(j),
            final(self).generations_advance(old(self)),
            forall|x: EntityId| #[trigger] old(self).is_stale(x) ==> final(self).is_stale(x),
            forall|x: EntityId|
                #[trigger] old(self).is_live(x) && x.spec_index() != entity ==> final(self).is_live(x),
            forall|x: EntityId| x.spec_index() == entity ==> !#[trigger] final(self).is_live(x),
            forall|i: int|
                #[trigger] final(self).slot_in_use(i) <==> (old(self).slot_in_use(i) && i
                    != entity),
    {
        let ghost o = *old(self);
        proof {
            lemma_distinct_below(o.free_slots(), o.slot_count() as int, entity);
        }
        self.free_list.push(entity);
        self.reserved = self.free_list.len() as isize;
        proof {
            assert(self.free_list@.last() == entity);
            assert(self.free_list@.no_duplicates()) by {
                assert forall|a: int, b: int| 0 <= a < b < self.free_list@.len() implies self.free_list@[a] != self.free_list@[b] by {
                    if b == self.free_list@.len() - 1 {
                        assert(o.free_slots()[a] == self.free_list@[a]);
                    } else {
                        assert(o.free_slots()[a] == self.free_list@[a]);
                        assert(o.free_slots()[b] == self.free_list@[b]);
                    }
                }
            }
            assert forall|x: EntityId| #[trigger] o.is_live(x) && x.spec_index() != entity implies self.is_live(x) by {
                if self.free_slots().contains(x.spec_index()) {
                    let k = choose|k: int| 0 <= k < self.free_slots().len() && self.free_slots()[k] == x.spec_index();
                    assert(o.free_slots()[k] == x.spec_index());
                }
            }
            assert forall|x: EntityId| x.spec_index() == entity implies !#[trigger] self.is_live(x) by {
                assert(self.free_slots()[self.free_slots().len() - 1] == entity);
            }
            assert forall|i: int| #[trigger] self.slot_in_use(i) <==> (o.slot_in_use(i) && i != entity) by {
                assert(self.free_slots()[self.free_slots().len() - 1] == entity);
                assert(self.slot_count() == o.slot_count());
                if 0 <= i < o.slot_count() && self.free_slots().contains(i as u32) && i != entity {
                    let k = choose|k: int| 0 <= k < self.free_slots().len() && self.free_slots()[k] == i as u32;
                    assert(k != self.free_slots().len() - 1);
                    assert(o.free_slots()[k] == i as u32);
                }
                if 0 <= i < o.slot_count() && o.free_slots().contains(i as u32) {
                    let k = choose|k: int| 0 <= k < o.free_slots().len() && o.free_slots()[k] == i as u32;
                    assert(self.free_slots()[k] == i as u32);
                    assert(self.free_slots().contains(i as u32));
                }
                if i == entity {
                    assert(self.free_slots().contains(entity));
                }
            }
        }
        let ghost mid = *self;
        self.slots[entity as usize].bump_generation();
        proof {
            assert(self.slot_count() == mid.slot_count());
            assert forall|i: int| self.slot_in_use(i) <==> (#[trigger] o.slot_in_use(i) && i != entity) by {
                assert(mid.slot_in_use(i) <==> (o.slot_in_use(i) && i != entity));
            }
        }
        &mut self.slots[entity as usize].metadata
    }

    /// Flushes the allocator's reserved entities, giving them their metadata.
    ///
    /// `metadata[k]` goes to the `k`-th identifier of [`EntityIdAllocator::pending`].
    pub fn flush(&mut self, metadata: Vec<M>)
        requires
            old(self).wf(),
            metadata@.len() == old(self).pending().len(),
            old(self).slot_count() + old(self).fresh_reserved() <= index_space(),
            old(self).slot_count() + old(self).fresh_reserved() <= isize::MAX,
        ensures
            final(self).wf(),
            final(self).is_flushed(),
            final(self).slot_count() == old(self).slot_count() + old(self).fresh_reserved(),
            final(self).free_slots() == old(self).free_slots().subrange(0, old(self).drain_start()),
            forall|k: int|
                0 <= k < old(self).pending().len() ==> final(self).is_live(
                    #[trigger] old(self).pending()[k],
                ),
            forall|k: int|
                0 <= k < old(self).pending().len() ==> final(self).metadata_at(
                    #[trigger] old(self).pending()[k].spec_index() as int,
                ) == metadata@[k],
            forall|i: int|
                0 <= i < old(self).slot_count() ==> #[trigger] final(self).generation_at(i)
                    == old(self).generation_at(i),
            forall|i: int|
                0 <= i < old(self).slot_count() && !old(self).free_slots().subrange(
                    old(self).drain_start(),
                    old(self).free_slots().len() as int,
                ).contains(i as u32) ==> #[trigger] final(self).metadata_at(i) == old(
                    self,
                ).metadata_at(i),
            final(self).generations_advance(old(self)),
            forall|x: EntityId| #[trigger] old(self).is_live(x) ==> final(self).is_live(x),
            forall|x: EntityId| #[trigger] old(self).is_stale(x) ==> final(self).is_stale(x),
            forall|x: EntityId|
                #[trigger] final(self).is_live(x) ==> old(self).is_live(x) || old(
                    self,
                ).pending().contains(x),
            forall|i: int| #[trigger] old(self).slot_in_use(i) ==> final(self).slot_in_use(i),
            forall|i: int|
                #[trigger] final(self).slot_in_use(i) ==> old(self).slot_in_use(i) || exists|k: int|
                    0 <= k < old(self).pending().len() && (#[trigger] old(self).pending()[k]).spec_index()
                        == i,
    {
        let ghost o = *old(self);
        let ghost md = metadata@;
        let ghost n = md.len() as int;
        let ghost reused = o.free_slots().subrange(o.drain_start(), o.free_slots().len() as int);
        let ghost nr = reused.len() as int;
        let mut metadata = metadata;
        let mut rev: Vec<M> = Vec::new();
        while metadata.len() > 0
            invariant
                n == md.len(),
                rev@.len() + metadata@.len() == n,
                metadata@ == md.subrange(0, metadata@.len() as int),
                forall|t: int| 0 <= t < rev@.len() ==> #[trigger] rev@[t] == md[n - 1 - t],
            decreases metadata@.len(),
        {
            let ghost before = metadata@;
            match metadata.pop() {
                Some(m) => {
                    proof {
                        assert(before == md.subrange(0, before.len() as int));
                        assert(before[before.len() - 1] == md[before.len() - 1]);
                    }
                    rev.push(m);
                    proof {
                        assert(metadata@ =~= md.subrange(0, metadata@.len() as int));
                    }
                },
                None => {},
            }
        }
        let reserved = self.reserved;
        let start: usize = if reserved > 0 {
            reserved as usize
        } else {
            0
        };
        let len = self.free_list.len();
        let mut k = start;
        while k < len
            invariant
                o.wf(),
                start == o.drain_start(),
                len == o.free_slots().len(),
                start <= k <= len,
                self.free_list@ == o.free_list@,
                self.reserved == o.reserved,
                self.slots@.len() == o.slots@.len(),
                n == nr + o.fresh_reserved(),
                n == md.len(),
                nr == len - start,
                reused == o.free_slots().subrange(start as int, len as int),
                forall|i: int|
                    0 <= i < self.slots@.len() ==> #[trigger] self.slots@[i].generation
                        == o.slots@[i].generation,
                rev@.len() == n - (k - start),
                forall|t: int| 0 <= t < rev@.len() ==> #[trigger] rev@[t] == md[n - 1 - t],
                forall|t: int|
                    start <= t < k ==> #[trigger] self.slots@[o.free_list@[t] as int].metadata
                        == md[t - start],
                forall|i: int|
                    0 <= i < self.slots@.len() && !o.free_list@.subrange(
                        start as int,
                        k as int,
                    ).contains(i as u32) ==> #[trigger] self.slots@[i].metadata
                        == o.slots@[i].metadata,
            decreases len - k,
        {
            let index = self.free_list[k];
            let ghost before = *self;
            match rev.pop() {
                Some(m) => {
                    let slot = &mut self.slots[index as usize];
                    slot.metadata = m;
                },
                None => {},
            }
            proof {
                assert(md[n - 1 - (n - 1 - (k - start))] == md[k - start]);
                assert forall|t: int| start <= t < k + 1 implies #[trigger] self.slots@[o.free_list@[t] as int].metadata == md[t - start] by {
                    if t < k {
                        assert(o.free_list@[t] != o.free_list@[k as int]);
                    }
                }
                assert forall|i: int| 0 <= i < self.slots@.len() && !o.free_list@.subrange(start as int, k + 1).contains(i as u32)
                    implies #[trigger] self.slots@[i].metadata == o.slots@[i].metadata by {
                    assert(o.free_list@.subrange(start as int, k + 1)[k - start] == index);
                    if o.free_list@.subrange(start as int, k as int).contains(i as u32) {
                        let t = choose|t: int| 0 <= t < k - start && o.free_list@.subrange(start as int, k as int)[t] == i as u32;
                        assert(o.free_list@.subrange(start as int, k + 1)[t] == i as u32);
                    }
                }
            }
            k = k + 1;
        }
        self.free_list.truncate(start);
        let ghost mid = *self;
        if reserved < 0 {
            let fresh = (0isize - reserved) as usize;
            let mut j: usize = 0;
            while j < fresh
                invariant
                    o.wf(),
                    reserved == o.reserved,
                    reserved < 0,
                    fresh == o.fresh_reserved(),
                    o.slots@.len() + fresh <= index_space(),
                    o.slots@.len() + fresh <= isize::MAX,
                    j <= fresh,
                    n == nr + fresh,
                    n == md.len(),
                    nr >= 0,
                    self.free_list@ == mid.free_list@,
                    self.slots@.len() == o.slots@.len() + j,
                    forall|i: int| 0 <= i < o.slots@.len() ==> #[trigger] self.slots@[i] == mid.slots@[i],
                    forall|t: int|
                        0 <= t < j ==> #[trigger] self.slots@[o.slots@.len() + t].generation == 1,
                    forall|t: int|
                        0 <= t < j ==> #[trigger] self.slots@[o.slots@.len() + t].metadata
                            == md[nr + t],
                    rev@.len() == n - nr - j,
                    forall|t: int| 0 <= t < rev@.len() ==> #[trigger] rev@[t] == md[n - 1 - t],
                decreases fresh - j,
            {
                match rev.pop() {
                    Some(m) => {
                        self.slots.push(Slot { generation: 1, metadata: m });
                    },
                    None => {},
                }
                proof {
                    assert(md[n - 1 - (n - nr - j - 1)] == md[nr + j]);
                }
                j = j + 1;
            }
        }
        self.reserved = self.free_list.len() as isize;
        proof {
            let fr = o.fresh_reserved();
            assert(self.free_list@ =~= o.free_slots().subrange(0, o.drain_start()));
            assert(self.slots@.len() == o.slots@.len() + fr);
            assert forall|k: int| 0 <= k < self.free_list@.len() implies #[trigger] self.free_list@[k] < self.slots@.len() by {
                assert(self.free_list@[k] == o.free_list@[k]);
            }
            assert forall|i: int| 0 <= i < self.slots@.len() implies #[trigger] self.slots@[i].generation >= 1 by {
                if i < o.slots@.len() {
                    assert(self.slots@[i] == mid.slots@[i]);
                } else {
                    assert(self.slots@[o.slots@.len() + (i - o.slots@.len())].generation == 1);
                }
            }
            assert(self.free_list@.no_duplicates()) by {
                assert forall|a: int, b: int| 0 <= a < b < self.free_list@.len() implies self.free_list@[a] != self.free_list@[b] by {
                    assert(self.free_list@[a] == o.free_list@[a]);
                    assert(self.free_list@[b] == o.free_list@[b]);
                }
            }
            // Facts about each pending identifier.
            assert forall|k: int| 0 <= k < o.pending().len() implies {
                &&& self.is_live(#[trigger] o.pending()[k])
                &&& self.metadata_at(o.pending()[k].spec_index() as int) == md[k]
            } by {
                if k < nr {
                    let idx = reused[k];
                    assert(idx == o.free_list@[start + k]);
                    assert(o.pending()[k] == EntityId::spec_new(idx, o.generation_at(idx as int)));
                    assert(self.slots@[idx as int] == mid.slots@[idx as int]);
                    assert(mid.slots@[o.free_list@[start + k] as int].metadata == md[k]);
                    if self.free_slots().contains(idx) {
                        let a = choose|a: int| 0 <= a < self.free_slots().len() && self.free_slots()[a] == idx;
                        assert(o.free_list@[a] == o.free_list@[start + k]);
                    }
                } else {
                    let t = k - nr;
                    assert(o.pending()[k] == EntityId::spec_new((o.slot_count() + t) as u32, 1));
                    assert(self.slots@[o.slots@.len() + t].generation == 1);
                    if self.free_slots().contains((o.slot_count() + t) as u32) {
                        let a = choose|a: int| 0 <= a < self.free_slots().len() && self.free_slots()[a] == (o.slot_count() + t) as u32;
                        assert(o.free_list@[a] < o.slots@.len());
                    }
                }
            }
            assert forall|i: int|
                0 <= i < o.slot_count() && !o.free_slots().subrange(o.drain_start(), o.free_slots().len() as int).contains(i as u32)
                implies #[trigger] self.metadata_at(i) == o.metadata_at(i) by {
                assert(self.slots@[i] == mid.slots@[i]);
                if o.free_list@.subrange(start as int, len as int).contains(i as u32) {
                }
            }
            assert forall|x: EntityId| #[trigger] o.is_live(x) implies self.is_live(x) by {
                assert(self.slots@[x.spec_index() as int] == mid.slots@[x.spec_index() as int]);
                if self.free_slots().contains(x.spec_index()) {
                    let a = choose|a: int| 0 <= a < self.free_slots().len() && self.free_slots()[a] == x.spec_index();
                    assert(o.free_list@[a] == x.spec_index());
                }
            }
            assert forall|x: EntityId| #[trigger] o.is_stale(x) implies self.is_stale(x) by {
                assert(self.slots@[x.spec_index() as int] == mid.slots@[x.spec_index() as int]);
            }
            assert forall|i: int| #[trigger] o.slot_in_use(i) implies self.slot_in_use(i) by {
                if self.free_slots().contains(i as u32) {
                    let a = choose|a: int| 0 <= a < self.free_slots().len() && self.free_slots()[a] == i as u32;
                    assert(o.free_list@[a] == i as u32);
                }
            }
            assert forall|i: int| #[trigger] self.slot_in_use(i) implies o.slot_in_use(i) || exists|k: int|
                0 <= k < o.pending().len() && (#[trigger] o.pending()[k]).spec_index() == i by {
                if i < o.slot_count() {
                    if o.free_slots().contains(i as u32) {
                        let a = choose|a: int| 0 <= a < o.free_slots().len() && o.free_slots()[a] == i as u32;
                        if a < start {
                            assert(self.free_slots()[a] == i as u32);
                        } else {
                            let k = a - start;
                            assert(reused[k] == i as u32);
                            assert(o.pending()[k] == EntityId::spec_new(reused[k], o.generation_at(reused[k] as int)));
                            assert(o.pending()[k].spec_index() == i);
                        }
                    }
                } else {
                    let t = i - o.slot_count();
                    assert(o.pending()[nr + t] == EntityId::spec_new((o.slot_count() + t) as u32, 1));
                    assert(o.pending()[nr + t].spec_index() == i);
                }
            }
            assert forall|x: EntityId| #[trigger] self.is_live(x) implies o.is_live(x) || o.pending().contains(x) by {
                let i = x.spec_index() as int;
                if i < o.slot_count() {
                    assert(self.slots@[i] == mid.slots@[i]);
                    if o.free_slots().contains(x.spec_index()) {
                        let a = choose|a: int| 0 <= a < o.free_slots().len() && o.free_slots()[a] == x.spec_index();
                        if a < start {
                            assert(self.free_slots()[a] == x.spec_index());
                        } else {
                            let k = a - start;
                            assert(reused[k] == x.spec_index());
                            assert(o.pending()[k] == EntityId::spec_new(reused[k], o.generation_at(reused[k] as int)));
                            EntityId::lemma_parts(o.pending()[k], x);
                            assert(o.pending()[k] == x);
                        }
                    }
                } else {
                    let t = i - o.slot_count();
                    assert(self.slots@[o.slots@.len() + t].generation == 1);
                    assert(o.pending()[nr + t] == EntityId::spec_new((o.slot_count() + t) as u32, 1));
                    EntityId::lemma_parts(o.pending()[nr + t], x);
                    assert(o.pending()[nr + t] == x);
                }
            }
        }
    }

    /// Returns the identifiers that have been reserved and not flushed yet, in the order in
    /// which [`EntityIdAllocator::flush`] expects their metadata.
    pub fn pending_ids(&self) -> (r: Vec<EntityId>)
        requires
            self.wf(),
            self.slot_count() + self.fresh_reserved() <= index_space(),
        ensures
            r@ == self.pending(),
    {
        let reserved = self.reserved;
        let start: usize = if reserved > 0 {
            reserved as usize
        } else {
            0
        };
        let len = self.free_list.len();
        let ghost reused = self.free_slots().subrange(start as int, len as int);
        let mut out: Vec<EntityId> = Vec::new();
        let mut k = start;
        while k < len
            invariant
                self.wf(),
                start == self.drain_start(),
                len == self.free_slots().len(),
                reused == self.free_slots().subrange(start as int, len as int),
                start <= k <= len,
                out@.len() == k - start,
                forall|t: int|
                    0 <= t < out@.len() ==> #[trigger] out@[t] == EntityId::spec_new(
                        reused[t],
                        self.generation_at(reused[t] as int),
                    ),
            decreases len - k,
        {
            let index = self.free_list[k];
            out.push(EntityId { generation: self.slots[index as usize].generation, index });
            k = k + 1;
        }
        if reserved < 0 {
            let fresh = (0isize - reserved) as usize;
            let base = self.slots.len();
            let mut j: usize = 0;
            while j < fresh
                invariant
                    self.wf(),
                    reserved == self.cursor(),
                    fresh == self.fresh_reserved(),
                    base == self.slot_count(),
                    base + fresh <= index_space(),
                    j <= fresh,
                    out@.len() == reused.len() + j,
                    forall|t: int|
                        0 <= t < reused.len() ==> #[trigger] out@[t] == EntityId::spec_new(
                            reused[t],
                            self.generation_at(reused[t] as int),
                        ),
                    forall|t: int|
                        0 <= t < j ==> #[trigger] out@[reused.len() + t] == EntityId::spec_new(
                            (base + t) as u32,
                            1,
                        ),
                decreases fresh - j,
            {
                out.push(EntityId { generation: 1, index: (base + j) as u32 });
                j = j + 1;
            }
            proof {
                assert forall|t: int| 0 <= t < out@.len() implies #[trigger] out@[t] == self.pending()[t] by {
                    if t >= reused.len() {
                        assert(out@[reused.len() + (t - reused.len())] == EntityId::spec_new(
                            (base + (t - reused.len())) as u32,
                            1,
                        ));
                    }
                }
            }
        }
        proof {
            assert(out@ =~= self.pending());
        }
        out
    }

    /// Returns whether the entity with the provided identifier is valid or not.
    pub fn is_valid(&self, entity: EntityId) -> (r: bool)
        ensures
            r == self.spec_is_valid(entity),
    {
        let i = entity.index as usize;
        i < self.slots.len() && self.slots[i].generation == entity.generation
    }

    /// Returns the number of fresh indices reserved past the end of the slots.
    pub(crate) fn fresh_len(&self) -> (r: usize)
        requires
            self.wf(),
        ensures
            r == self.fresh_reserved(),
    {
        if self.reserved < 0 {
            (0isize - self.reserved) as usize
        } else {
            0
        }
    }

    /// Returns the number of slots.
    pub(crate) fn slot_len(&self) -> (r: usize)
        ensures
            r == self.slot_count(),
    {
        self.slots.len()
    }

    /// Returns the [`EntityId`] associated with the provided index without checking whether
    /// it is live or not.
    pub fn get_id_for_index_unchecked(&self, index: EntityIndex) -> (r: EntityId)
        requires
            index < self.slot_count(),
        ensures
            r == EntityId::spec_new(index, self.generation_at(index as int)),
    {
        EntityId { generation: self.slots[index as usize].generation, index }
    }

    /// Returns the metadata associated with the provided entity index.
    pub fn get_unchecked(&self, entity: EntityIndex) -> (r: &M)
        requires
            entity < self.slot_count(),
        ensures
            *r == self.metadata_at(entity as int),
    {
        &self.slots[entity as usize].metadata
    }

    /// Returns the mutable metadata associated with the provided entity index.
    pub fn get_unchecked_mut(&mut self, entity: EntityIndex) -> (r: &mut M)
        requires
            entity < old(self).slot_count(),
        ensures
            *r == old(self).metadata_at(entity as int),
            final(self).slot_count() == old(self).slot_count(),
            final(self).free_slots() == old(self).free_slots(),
            final(self).cursor() == old(self).cursor(),
            forall|i: int|
                0 <= i < old(self).slot_count() ==> #[trigger] final(self).generation_at(i)
                    == old(self).generation_at(i),
            forall|i: int|
                0 <= i < old(self).slot_count() && i != entity ==> #[trigger] final(self).metadata_at(i) == old(self).metadata_at(i),
            final(self).metadata_at(entity as int) == *final(r),
            old(self).wf() ==> final(self).wf(),
    {
        let slot = &mut self.slots[entity as usize];
        &mut slot.metadata
    }

    /// Returns the metadata associated with the provided entity, or `None` when the identifier
    /// is not valid.
    pub fn get(&self, entity: EntityId) -> (r: Option<&M>)
        ensures
            r is Some <==> self.spec_is_valid(entity),
            r matches Some(m) ==> *m == self.metadata_at(entity.spec_index() as int),
    {
        let i = entity.index as usize;
        if i < self.slots.len() && self.slots[i].generation == entity.generation {
            Some(&self.slots[i].metadata)
        } else {
            None
        }
    }

    /// Returns the mutable metadata associated with the provided entity, or `None` when the
    /// identifier is not valid.
    pub fn get_mut(&mut self, entity: EntityId) -> (r: Option<&mut M>)
        ensures
            r is Some <==> old(self).spec_is_valid(entity),
            r matches Some(m) ==> {
                &&& *m == old(self).metadata_at(entity.spec_index() as int)
                &&& final(self).slot_count() == old(self).slot_count()
                &&& final(self).free_slots() == old(self).free_slots()
                &&& final(self).cursor() == old(self).cursor()
                &&& forall|i: int|
                    0 <= i < old(self).slot_count() ==> #[trigger] final(self).generation_at(i)
                        == old(self).generation_at(i)
                &&& forall|i: int|
                    0 <= i < old(self).slot_count() && i != entity.spec_index() ==> #[trigger] final(self).metadata_at(i) == old(self).metadata_at(i)
                &&& final(self).metadata_at(entity.spec_index() as int) == *final(m)
            },
            r is None ==> *final(self) == *old(self),
    {
        let i = entity.index as usize;
        if i < self.slots.len() && self.slots[i].generation == entity.generation {
            let slot = &mut self.slots[i];
            Some(&mut slot.metadata)
        } else {
            None
        }
    }
}

impl<M> Default for EntityIdAllocator<M> {
    fn default() -> (r: Self)
        ensures
            r.wf(),
            r.slot_count() == 0,
            r.free_slots().len() == 0,
            r.is_flushed(),
    {
        Self::new()
    }
}

} // verus!
