//! Sorted sets of component identifiers.
use vstd::prelude::*;
use crate::uuid::Uuid;

verus! {

/// Whether the identifiers of `s` are strictly increasing, hence distinct.
pub open spec fn sorted_distinct(s: Seq<Uuid>) -> bool {
    forall|i: int, j: int|
        0 <= i < j < s.len() ==> (#[trigger] s[i]).spec_value() < (#[trigger] s[j]).spec_value()
}

/// The 128-bit values of a list of identifiers.
pub open spec fn uuid_values(s: Seq<Uuid>) -> Seq<u128> {
    s.map_values(|u: Uuid| u.spec_value())
}

/// A sorted list of distinct [`Uuid`]s representing the components that are part of an
/// archetype storage.
pub struct ArchetypeComponents {
    uuids: Vec<Uuid>,
}

impl View for ArchetypeComponents {
    type V = Seq<Uuid>;

    closed spec fn view(&self) -> Seq<Uuid> {
        self.uuids@
    }
}

impl ArchetypeComponents {
    /// The empty set of components.
    pub fn empty() -> (r: Self)
        ensures
            r@ == Seq::<Uuid>::empty(),
    {
        ArchetypeComponents { uuids: Vec::new() }
    }

    /// Creates a new [`ArchetypeComponents`] from a list of [`Uuid`]s that is already sorted
    /// and free of duplicates.
    pub fn from_vec_unchecked(uuids: Vec<Uuid>) -> (r: Self)
        requires
            sorted_distinct(uuids@),
        ensures
            r@ == uuids@,
    {
        ArchetypeComponents { uuids }
    }

    /// Creates a new [`ArchetypeComponents`] from a list of [`Uuid`]s in any order, possibly
    /// with duplicates: the result holds each of them once, in increasing order.
    pub fn from_unsorted_vec(vec: Vec<Uuid>) -> (r: Self)
        ensures
            sorted_distinct(r@),
            forall|u: Uuid| r@.contains(u) <==> vec@.contains(u),
    {
        let mut out: Vec<Uuid> = Vec::new();
        let mut i: usize = 0;
        while i < vec.len()
            invariant
                i <= vec@.len(),
                sorted_distinct(out@),
                forall|u: Uuid| out@.contains(u) <==> vec@.subrange(0, i as int).contains(u),
            decreases vec@.len() - i,
        {
            let v = vec[i];
            let key = v.as_u128();
            let mut pos: usize = 0;
            while pos < out.len() && out[pos].as_u128() < key
                invariant
                    pos <= out@.len(),
                    key == v.spec_value(),
                    forall|t: int| 0 <= t < pos ==> (#[trigger] out@[t]).spec_value() < key,
                decreases out@.len() - pos,
            {
                pos = pos + 1;
            }
            let ghost before = out@;
            let present = pos < out.len() && out[pos].as_u128() == key;
            if !present {
                out.insert(pos, v);
                proof {
                    assert forall|a: int, b: int| 0 <= a < b < out@.len() implies (#[trigger] out@[a]).spec_value() < (#[trigger] out@[b]).spec_value() by {
                        if a < pos && b < pos {
                            assert(out@[a] == before[a] && out@[b] == before[b]);
                        } else if a < pos && b == pos {
                            assert(out@[a] == before[a]);
                        } else if a < pos {
                            assert(out@[a] == before[a] && out@[b] == before[b - 1]);
                            assert(before[pos as int].spec_value() > key);
                            if pos < b - 1 {
                                assert(before[pos as int].spec_value() < before[b - 1].spec_value());
                            }
                        } else if a == pos {
                            assert(out@[b] == before[b - 1]);
                            assert(before[pos as int].spec_value() > key);
                            if pos < b - 1 {
                                assert(before[pos as int].spec_value() < before[b - 1].spec_value());
                            }
                        } else {
                            assert(out@[a] == before[a - 1] && out@[b] == before[b - 1]);
                        }
                    }
                }
            }
            proof {
                let w = vec@.subrange(0, i + 1);
                let w0 = vec@.subrange(0, i as int);
                assert(w[i as int] == v);
                assert forall|u: Uuid| out@.contains(u) implies w.contains(u) by {
                    let t = choose|t: int| 0 <= t < out@.len() && out@[t] == u;
                    if u == v {
                        assert(w[i as int] == u);
                    } else {
                        if !present {
                            if t < pos {
                                assert(before[t] == u);
                            } else {
                                assert(t != pos);
                                assert(before[t - 1] == u);
                            }
                        }
                        assert(before.contains(u));
                        assert(w0.contains(u));
                        let t2 = choose|t2: int| 0 <= t2 < w0.len() && w0[t2] == u;
                        assert(w[t2] == u);
                    }
                }
                assert forall|u: Uuid| w.contains(u) implies out@.contains(u) by {
                    let t = choose|t: int| 0 <= t < w.len() && w[t] == u;
                    if t == i {
                        assert(u == v);
                        if present {
                            Uuid::lemma_eq_iff_value(out@[pos as int], v);
                            assert(out@[pos as int] == v);
                        } else {
                            assert(out@[pos as int] == v);
                        }
                    } else {
                        assert(w0[t] == u);
                        assert(w0.contains(u));
                        assert(before.contains(u));
                        let t2 = choose|t2: int| 0 <= t2 < before.len() && before[t2] == u;
                        if !present {
                            if t2 < pos {
                                assert(out@[t2] == u);
                            } else {
                                assert(out@[t2 + 1] == u);
                            }
                        } else {
                            assert(out@[t2] == u);
                        }
                    }
                }
            }
            i = i + 1;
        }
        proof {
            assert(vec@.subrange(0, vec@.len() as int) =~= vec@);
        }
        ArchetypeComponents { uuids: out }
    }

    /// Returns the list of [`Uuid`]s stored in this [`ArchetypeComponents`] instance.
    pub fn as_uuids(&self) -> (r: &[Uuid])
        ensures
            r@ == self@,
    {
        self.uuids.as_slice()
    }

    /// Returns the number of components.
    pub fn len(&self) -> (r: usize)
        ensures
            r == self@.len(),
    {
        self.uuids.len()
    }

    /// Returns the 128-bit values of the identifiers, the key of the archetype in lookups.
    pub fn to_key(&self) -> (r: Vec<u128>)
        ensures
            r@ == uuid_values(self@),
    {
        let mut out: Vec<u128> = Vec::new();
        let mut i: usize = 0;
        while i < self.uuids.len()
            invariant
                i <= self@.len(),
                out@.len() == i,
                forall|t: int| 0 <= t < i ==> #[trigger] out@[t] == self@[t].spec_value(),
            decreases self@.len() - i,
        {
            out.push(self.uuids[i].as_u128());
            i = i + 1;
        }
        proof {
            assert(out@ =~= uuid_values(self@));
        }
        out
    }

    /// Returns a copy of this set of components.
    pub fn to_owned(&self) -> (r: Self)
        ensures
            r@ == self@,
    {
        let mut out: Vec<Uuid> = Vec::new();
        let mut i: usize = 0;
        while i < self.uuids.len()
            invariant
                i <= self@.len(),
                out@ == self@.subrange(0, i as int),
            decreases self@.len() - i,
        {
            out.push(self.uuids[i]);
            proof {
                assert(out@ =~= self@.subrange(0, i + 1));
            }
            i = i + 1;
        }
        proof {
            assert(self@.subrange(0, self@.len() as int) =~= self@);
        }
        ArchetypeComponents { uuids: out }
    }
}

/// A sorted list of distinct [`Uuid`]s of a fixed length, representing the components that
/// are part of an archetype storage.
#[derive(Clone, Copy)]
pub struct StaticArchetypeComponents<const N: usize>([Uuid; N]);

impl<const N: usize> View for StaticArchetypeComponents<N> {
    type V = Seq<Uuid>;

    closed spec fn view(&self) -> Seq<Uuid> {
        self.0@
    }
}

impl<const N: usize> StaticArchetypeComponents<N> {
    /// Creates a new [`StaticArchetypeComponents`] from an array of [`Uuid`]s that is already
    /// sorted and free of duplicates.
    pub fn new_unchecked(array: [Uuid; N]) -> (r: Self)
        requires
            sorted_distinct(array@),
        ensures
            r@ == array@,
    {
        StaticArchetypeComponents(array)
    }

    /// Returns the list of [`Uuid`]s stored in this [`StaticArchetypeComponents`] instance.
    pub fn as_uuids(&self) -> (r: &[Uuid])
        ensures
            r@ == self@,
    {
        self.0.as_slice()
    }

    /// Returns the same components as an [`ArchetypeComponents`].
    pub fn to_archetype_components(&self) -> (r: ArchetypeComponents)
        requires
            sorted_distinct(self@),
        ensures
            r@ == self@,
    {
        let mut out: Vec<Uuid> = Vec::new();
        let mut i: usize = 0;
        while i < N
            invariant
                i <= N,
                self@.len() == N,
                out@ == self@.subrange(0, i as int),
            decreases N - i,
        {
            out.push(self.0[i]);
            i = i + 1;
            proof {
                assert(out@ =~= self@.subrange(0, i as int));
            }
        }
        proof {
            assert(self@.subrange(0, N as int) =~= self@);
        }
        ArchetypeComponents::from_vec_unchecked(out)
    }
}

/// Two sorted lists of distinct identifiers with the same elements are the same list.
pub proof fn lemma_sorted_distinct_unique(a: Seq<Uuid>, b: Seq<Uuid>)
    requires
        sorted_distinct(a),
        sorted_distinct(b),
        forall|u: Uuid| a.contains(u) <==> b.contains(u),
    ensures
        a == b,
    decreases a.len(),
{
    if a.len() == 0 {
        if b.len() > 0 {
            assert(b.contains(b[0]));
        }
        assert(a =~= b);
    } else if b.len() == 0 {
        assert(a.contains(a[0]));
    } else {
        // The first elements are the smallest of each list, hence equal.
        assert(a.contains(a[0]) && b.contains(b[0]));
        let ia = choose|i: int| 0 <= i < b.len() && b[i] == a[0];
        let ib = choose|i: int| 0 <= i < a.len() && a[i] == b[0];
        if ia > 0 {
            assert(b[0].spec_value() < b[ia].spec_value());
            if ib > 0 {
                assert(a[0].spec_value() < a[ib].spec_value());
            }
        }
        if ib > 0 {
            assert(a[0].spec_value() < a[ib].spec_value());
        }
        assert(a[0] == b[0]);
        let ra = a.drop_first();
        let rb = b.drop_first();
        assert forall|u: Uuid| ra.contains(u) <==> rb.contains(u) by {
            if ra.contains(u) {
                let i = choose|i: int| 0 <= i < ra.len() && ra[i] == u;
                assert(a[i + 1] == u);
                assert(a[0].spec_value() < a[i + 1].spec_value());
                assert(b.contains(u));
                let j = choose|j: int| 0 <= j < b.len() && b[j] == u;
                assert(j != 0);
                assert(rb[j - 1] == u);
            }
            if rb.contains(u) {
                let i = choose|i: int| 0 <= i < rb.len() && rb[i] == u;
                assert(b[i + 1] == u);
                assert(b[0].spec_value() < b[i + 1].spec_value());
                assert(a.contains(u));
                let j = choose|j: int| 0 <= j < a.len() && a[j] == u;
                assert(j != 0);
                assert(ra[j - 1] == u);
            }
        }
        lemma_sorted_distinct_unique(ra, rb);
        assert(a =~= seq![a[0]] + ra);
        assert(b =~= seq![b[0]] + rb);
    }
}

/// Lists of identifiers with the same 128-bit values are the same list.
pub proof fn lemma_uuid_values_injective(a: Seq<Uuid>, b: Seq<Uuid>)
    requires
        uuid_values(a) == uuid_values(b),
    ensures
        a == b,
{
    assert(a.len() == uuid_values(a).len());
    assert(b.len() == uuid_values(b).len());
    assert forall|i: int| 0 <= i < a.len() implies a[i] == b[i] by {
        assert(uuid_values(a)[i] == uuid_values(b)[i]);
        assert(uuid_values(a)[i] == a[i].spec_value());
        assert(uuid_values(b)[i] == b[i].spec_value());
        Uuid::lemma_eq_iff_value(a[i], b[i]);
    }
    assert(a =~= b);
}

} // verus!
