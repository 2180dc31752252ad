//! A column of components of one kind.
use vstd::prelude::*;
use crate::entities::component::{ComponentInfo, ComponentLayout};

verus! {

/// Whether a component's information describes a column's elements: a non-zero alignment and a
/// size that is a multiple of it.
pub open spec fn valid_info(info: ComponentInfo) -> bool {
    &&& info.layout.align > 0
    &&& info.layout.size % info.layout.align == 0
}

/// A vector of components of one kind.
///
/// Next to its elements, it keeps the capacity that its memory accounting grants, in elements:
/// components of size zero take no memory and have an unbounded capacity.
pub struct ComponentVec<V> {
    /// The elements.
    data: Vec<V>,
    /// The number of elements that the column can accommodate.
    cap: usize,
    /// The component stored in the column, whose size is padded to its alignment.
    info: ComponentInfo,
}

impl<V> View for ComponentVec<V> {
    type V = Seq<V>;

    closed spec fn view(&self) -> Seq<V> {
        self.data@
    }
}

impl<V> ComponentVec<V> {
    /// The number of elements that the column can accommodate.
    pub closed spec fn capacity(&self) -> nat {
        self.cap as nat
    }

    /// The component stored in the column.
    pub closed spec fn info(&self) -> ComponentInfo {
        self.info
    }

    /// The internal consistency of the column.
    pub closed spec fn wf(&self) -> bool {
        &&& self.data@.len() <= self.cap
        &&& valid_info(self.info)
        &&& self.cap * self.info.layout.size <= usize::MAX
    }

    /// A consistent column holds at most its capacity, and describes its elements.
    pub proof fn lemma_wf(&self)
        requires
            self.wf(),
        ensures
            self@.len() <= self.capacity(),
            valid_info(self.info()),
    {
    }

    /// Whether the column can take one more element, growing if needed, without its size in
    /// bytes overflowing.
    pub open spec fn can_reserve_one(&self) -> bool {
        self@.len() == self.capacity() ==> {
            if self.capacity() == 0 {
                self.info().layout.size <= usize::MAX
            } else {
                self.capacity() * 2 <= usize::MAX && self.capacity() * 2 * self.info().layout.size
                    <= usize::MAX
            }
        }
    }

    /// Returns whether the column can take one more element, growing if needed.
    pub(crate) fn check_reserve_one(&self) -> (r: bool)
        requires
            self.wf(),
        ensures
            r == self.can_reserve_one(),
    {
        if self.data.len() < self.cap {
            true
        } else if self.cap == 0 {
            true
        } else {
            match self.cap.checked_mul(2) {
                Some(doubled) => doubled.checked_mul(self.info.layout.size).is_some(),
                None => false,
            }
        }
    }

    /// Creates a new, empty column for the provided component.
    pub fn new(info: ComponentInfo) -> (r: Self)
        requires
            info.layout.align > 0,
            info.layout.size + info.layout.align <= usize::MAX,
        ensures
            r.wf(),
            r@ == Seq::<V>::empty(),
            r.info().uuid == info.uuid,
            r.info().debug_name == info.debug_name,
            r.info().layout.align == info.layout.align,
            r.info().layout.size == crate::entities::component::round_up(
                info.layout.size as int,
                info.layout.align as int,
            ),
            r.capacity() == if r.info().layout.size == 0 {
                usize::MAX as nat
            } else {
                0
            },
    {
        let layout = info.layout.pad_to_align();
        let info = ComponentInfo { uuid: info.uuid, debug_name: info.debug_name, layout };
        let cap = if layout.size == 0 {
            usize::MAX
        } else {
            0
        };
        ComponentVec { data: Vec::new(), cap, info }
    }

    /// Returns the number of elements in the column.
    pub fn len(&self) -> (r: usize)
        ensures
            r == self@.len(),
    {
        self.data.len()
    }

    /// Returns the information of the component stored in the column.
    pub fn component_info(&self) -> (r: ComponentInfo)
        ensures
            r == self.info(),
    {
        self.info
    }

    /// Returns the element at `index`.
    pub fn get_unchecked(&self, index: usize) -> (r: &V)
        requires
            index < self@.len(),
        ensures
            *r == self@[index as int],
    {
        &self.data[index]
    }

    /// Replaces the element at `index`, returning the previous one.
    pub fn replace_unchecked(&mut self, index: usize, value: V) -> (r: V)
        requires
            index < old(self)@.len(),
        ensures
            r == old(self)@[index as int],
            final(self)@ == old(self)@.update(index as int, value),
            final(self).capacity() == old(self).capacity(),
            final(self).info() == old(self).info(),
            old(self).wf() ==> final(self).wf(),
    {
        let mut v = value;
        std::mem::swap(&mut self.data[index], &mut v);
        v
    }

    /// Returns the elements of the column.
    pub fn as_ptr(&self) -> (r: &[V])
        ensures
            r@ == self@,
    {
        self.data.as_slice()
    }

    /// Returns the current memory layout of the column's storage: room for `capacity`
    /// components.
    pub fn current_layout(&self) -> (r: ComponentLayout)
        requires
            self.wf(),
        ensures
            r.size == self.capacity() * self.info().layout.size,
            r.align == self.info().layout.align,
    {
        ComponentLayout { size: self.cap * self.info.layout.size, align: self.info.layout.align }
    }

    /// Grows the column's capacity to `new_capacity`.
    pub fn grow_unchecked(&mut self, new_capacity: usize)
        requires
            old(self).wf(),
            new_capacity > old(self).capacity(),
            new_capacity * old(self).info().layout.size <= usize::MAX,
        ensures
            final(self).wf(),
            final(self)@ == old(self)@,
            final(self).info() == old(self).info(),
            final(self).capacity() == new_capacity,
    {
        let additional = new_capacity - self.data.len();
        self.data.reserve(additional);
        self.cap = new_capacity;
    }

    /// Grows the capacity of the column using the default growth policy: one element at first,
    /// then doubling.
    pub fn grow_once(&mut self)
        requires
            old(self).wf(),
            old(self).capacity() == 0 ==> old(self).info().layout.size <= usize::MAX,
            old(self).capacity() > 0 ==> old(self).capacity() * 2 <= usize::MAX
                && old(self).capacity() * 2 * old(self).info().layout.size <= usize::MAX,
        ensures
            final(self).wf(),
            final(self)@ == old(self)@,
            final(self).info() == old(self).info(),
            final(self).capacity() == if old(self).capacity() == 0 {
                1
            } else {
                old(self).capacity() * 2
            },
    {
        let new_cap = if self.cap == 0 {
            1
        } else {
            self.cap * 2
        };
        self.grow_unchecked(new_cap);
    }

    /// Reserves space for at least one additional element in the column.
    pub fn reserve_one(&mut self)
        requires
            old(self).wf(),
            old(self).can_reserve_one(),
        ensures
            final(self).wf(),
            final(self)@ == old(self)@,
            final(self).info() == old(self).info(),
            final(self)@.len() < final(self).capacity(),
            old(self)@.len() < old(self).capacity() ==> final(self).capacity() == old(
                self,
            ).capacity(),
            old(self)@.len() == old(self).capacity() ==> final(self).capacity() == if old(
                self,
            ).capacity() == 0 {
                1
            } else {
                old(self).capacity() * 2
            },
    {
        if self.data.len() == self.cap {
            self.grow_once();
        }
    }

    /// Pushes a new element into the column, which must have room for it.
    pub fn push_assume_capacity(&mut self, value: V)
        requires
            old(self).wf(),
            old(self)@.len() < old(self).capacity(),
        ensures
            final(self).wf(),
            final(self)@ == old(self)@.push(value),
            final(self).info() == old(self).info(),
            final(self).capacity() == old(self).capacity(),
    {
        self.data.push(value);
    }

    /// Removes the element at `index`, replacing it with the last element, and returns it.
    pub fn swap_remove_unchecked_no_drop(&mut self, index: usize) -> (r: V)
        requires
            old(self).wf(),
            index < old(self)@.len(),
        ensures
            final(self).wf(),
            r == old(self)@[index as int],
            final(self)@ == old(self)@.update(index as int, old(self)@.last()).drop_last(),
            final(self).info() == old(self).info(),
            final(self).capacity() == old(self).capacity(),
    {
        self.data.swap_remove(index)
    }

    /// Removes the element at `index`, replacing it with the last element; the removed element
    /// is dropped.
    pub fn swap_remove_unchecked(&mut self, index: usize)
        requires
            old(self).wf(),
            index < old(self)@.len(),
        ensures
            final(self).wf(),
            final(self)@ == old(self)@.update(index as int, old(self)@.last()).drop_last(),
            final(self).info() == old(self).info(),
            final(self).capacity() == old(self).capacity(),
    {
        let _removed = self.data.swap_remove(index);
    }
}

} // verus!
