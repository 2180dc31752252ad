//! A growable atlas that packs glyph images and evicts the least recently used ones.
use vstd::prelude::*;
use crate::collections::{UuidIndexMap, uuid_index_entries};
use crate::text::packing::{
    AtlasRect, CachedGlyph, GlyphContent, GlyphInfo, Placement, cache_entries, cache_has_key,
    distinct_cache_keys, packer_allocations, packer_fresh, packer_size, cache_new, cache_contains, cache_put,
    cache_peek_lru, cache_pop_lru, cache_get_mut, packer_new, packer_allocate,
    packer_deallocate, packer_grow,
};

verus! {

/// The side of a new atlas, in pixels.
pub const INITIAL_ATLAS_SIZE: u32 = 128;

/// The largest side of an atlas: the packer is kept to sides of at most `2^15`.
pub const ATLAS_SIZE_LIMIT: u32 = 32768;

/// Why a glyph could not be stored.
#[derive(Clone, Copy, Debug, PartialEq, Eq, Structural)]
pub enum GlyphError {
    /// The atlas cannot grow any further and has no room left for the glyph.
    AtlasFull,
}

/// Whether no entry before position `k` is protected from eviction.
pub open spec fn all_unused(entries: Seq<(u128, CachedGlyph)>, k: int) -> bool {
    forall|i: int| 0 <= i < k ==> !(#[trigger] entries[i]).1.used
}

/// The entries with every glyph marked as unused.
pub open spec fn trimmed(entries: Seq<(u128, CachedGlyph)>) -> Seq<(u128, CachedGlyph)> {
    entries.map_values(
        |p: (u128, CachedGlyph)|
            (p.0, CachedGlyph { info: p.1.info, used: false, alloc_id: p.1.alloc_id }),
    )
}

/// The glyph, protected from eviction.
pub open spec fn protected(g: CachedGlyph) -> CachedGlyph {
    CachedGlyph { info: g.info, used: true, alloc_id: g.alloc_id }
}

/// Moving an entry to the back, with its protection changed, keeps keys and allocations
/// consistent.
proof fn lemma_moved_to_back_wf(
    e0: Seq<(u128, CachedGlyph)>,
    e: Seq<(u128, CachedGlyph)>,
    t: int,
    a: Map<u32, AtlasRect>,
)
    requires
        0 <= t < e0.len(),
        e == e0.remove(t).push((e0[t].0, protected(e0[t].1))),
        distinct_cache_keys(e0),
        forall|i: int, j: int|
            0 <= i < e0.len() && 0 <= j < e0.len() && i != j ==> (#[trigger] e0[i]).1.alloc_id
                != (#[trigger] e0[j]).1.alloc_id,
        forall|i: int|
            0 <= i < e0.len() ==> a.contains_key((#[trigger] e0[i]).1.alloc_id) && a[e0[i].1.alloc_id]
                == e0[i].1.info.atlas_rect,
        forall|id: u32|
            a.contains_key(id) ==> exists|i: int| 0 <= i < e0.len() && (#[trigger] e0[i]).1.alloc_id == id,
    ensures
        e.len() == e0.len(),
        distinct_cache_keys(e),
        forall|i: int, j: int|
            0 <= i < e.len() && 0 <= j < e.len() && i != j ==> (#[trigger] e[i]).1.alloc_id
                != (#[trigger] e[j]).1.alloc_id,
        forall|i: int|
            0 <= i < e.len() ==> a.contains_key((#[trigger] e[i]).1.alloc_id) && a[e[i].1.alloc_id]
                == e[i].1.info.atlas_rect,
        forall|id: u32|
            a.contains_key(id) ==> exists|i: int| 0 <= i < e.len() && (#[trigger] e[i]).1.alloc_id == id,
{
    let n = e0.len() - 1;
    // The position in `e0` of the entry at position `i` of `e`.
    assert forall|i: int| 0 <= i < e.len() implies (#[trigger] e[i]).0 == e0[if i == n { t } else if i < t { i } else { i + 1 }].0
        && e[i].1.alloc_id == e0[if i == n { t } else if i < t { i } else { i + 1 }].1.alloc_id
        && e[i].1.info == e0[if i == n { t } else if i < t { i } else { i + 1 }].1.info by {}
    assert forall|i: int, j: int|
        0 <= i < e.len() && 0 <= j < e.len() && i != j implies (#[trigger] e[i]).0 != (
        #[trigger] e[j]).0 by {
        let si = if i == n { t } else if i < t { i } else { i + 1 };
        let sj = if j == n { t } else if j < t { j } else { j + 1 };
        assert(e0[si].0 != e0[sj].0);
    }
    assert forall|i: int, j: int|
        0 <= i < e.len() && 0 <= j < e.len() && i != j implies (#[trigger] e[i]).1.alloc_id != (
        #[trigger] e[j]).1.alloc_id by {
        let si = if i == n { t } else if i < t { i } else { i + 1 };
        let sj = if j == n { t } else if j < t { j } else { j + 1 };
        assert(e0[si].1.alloc_id != e0[sj].1.alloc_id);
    }
    assert forall|i: int| 0 <= i < e.len() implies a.contains_key((#[trigger] e[i]).1.alloc_id)
        && a[e[i].1.alloc_id] == e[i].1.info.atlas_rect by {
        let si = if i == n { t } else if i < t { i } else { i + 1 };
        assert(a.contains_key(e0[si].1.alloc_id));
    }
    assert forall|id: u32| a.contains_key(id) implies exists|i: int|
        0 <= i < e.len() && (#[trigger] e[i]).1.alloc_id == id by {
        let s = choose|s: int| 0 <= s < e0.len() && (#[trigger] e0[s]).1.alloc_id == id;
        let i = if s == t { n } else if s < t { s } else { s - 1 };
        assert(e[i].1.alloc_id == id);
    }
}

/// What [`Atlas::allocate`] does: `before` and `after` are the atlas before and after the call,
/// and `r` its result. An atlas whose packer has never handed out a rectangle stores an image
/// with pixels exactly when the image fits in the side that the atlas reaches by doubling.
pub open spec fn allocated(
    before: Atlas,
    after: Atlas,
    key: u128,
    placement: Placement,
    content: GlyphContent,
    max_dimension: u32,
    r: Result<(bool, GlyphInfo), GlyphError>,
) -> bool {
    &&& (exists|k: int|
        0 <= k <= before.entries().len() && #[trigger] all_unused(before.entries(), k)
            && match r {
            Ok((false, _)) => {
                &&& k == 0 || k == before.entries().len()
                &&& after.side() == before.side()
                &&& after.entries() == before.entries().skip(k).push(
                    (key, after.entries().last().1),
                )
            },
            Ok((true, _)) => {
                &&& k == before.entries().len() || before.entries()[k].1.used
                &&& before.side() < after.side() <= max_dimension
                &&& after.entries() == before.entries().skip(k).push(
                    (key, after.entries().last().1),
                )
            },
            Err(_) => {
                &&& k == before.entries().len() || before.entries()[k].1.used
                &&& before.side() <= after.side()
                &&& !(after.side() * 2 <= max_dimension && after.side() * 2 < i32::MAX)
                &&& after.entries() == before.entries().skip(k)
            },
        })
    &&& (r matches Ok((_, info)) ==> {
        &&& info.placement == placement
        &&& info.content == content
        &&& rect_holds(info.atlas_rect, placement)
        &&& rect_within(info.atlas_rect, after.side())
        &&& after.entries().last().1.info == info
        &&& after.entries().last().1.used
    })
    &&& (r matches Err(e) ==> e == GlyphError::AtlasFull)
    &&& (before.fresh() && placement.width > 0 && placement.height > 0 ==> (r is Ok <==> fits(
        placement,
        reachable_side(before.side() as nat, max_dimension as nat) as int,
    )))
}

/// What [`Atlas::lookup`] does: the glyph of `key`, where there is one, becomes the most
/// recently used one and is protected from eviction.
pub open spec fn looked_up(before: Atlas, after: Atlas, key: u128, r: Option<GlyphInfo>) -> bool {
    &&& after.side() == before.side()
    &&& (r is Some <==> cache_has_key(before.entries(), key))
    &&& (r is None ==> after.entries() == before.entries())
    &&& (r matches Some(info) ==> exists|t: int|
        0 <= t < before.entries().len() && (#[trigger] before.entries()[t]).0 == key && info
            == before.entries()[t].1.info && after.entries() == before.entries().remove(t).push(
            (key, protected(before.entries()[t].1)),
        ))
}

/// Whether a rectangle lies inside a square atlas of the given side.
pub open spec fn rect_within(rect: AtlasRect, side: u32) -> bool {
    &&& 0 <= rect.min_x && rect.max_x <= side
    &&& 0 <= rect.min_y && rect.max_y <= side
}

/// Whether a rectangle is large enough to hold an image with the given placement.
pub open spec fn rect_holds(rect: AtlasRect, placement: Placement) -> bool {
    &&& rect.max_x - rect.min_x >= placement.width
    &&& rect.max_y - rect.min_y >= placement.height
}

/// Whether an image with the given placement has pixels and fits in a square of the given side.
pub open spec fn fits(placement: Placement, side: int) -> bool {
    &&& 0 < placement.width <= side
    &&& 0 < placement.height <= side
}

/// The side that an atlas of side `side` reaches by doubling for as long as the doubled side
/// stays within `max_dimension`.
pub open spec fn reachable_side(side: nat, max_dimension: nat) -> nat
    decreases max_dimension - side,
{
    if 0 < side && side * 2 <= max_dimension {
        reachable_side(side * 2, max_dimension)
    } else {
        side
    }
}

/// Doubling never makes a side smaller.
proof fn lemma_reachable_side_grows(side: nat, max_dimension: nat)
    ensures
        side <= reachable_side(side, max_dimension),
    decreases max_dimension - side,
{
    if 0 < side && side * 2 <= max_dimension {
        lemma_reachable_side_grows(side * 2, max_dimension);
    }
}

/// A value of at most `2^15` is unchanged by the cast to a signed 32-bit integer.
proof fn lemma_small_cast(w: u32)
    ensures
        w <= 32768 ==> (w as i32) as int == w as int,
{
    assert(w <= 32768 ==> (w as i32) as int == w as int) by (bit_vector);
}

/// A 32-bit unsigned value that reads as a positive signed one is unchanged by the cast.
proof fn lemma_positive_cast(w: u32)
    ensures
        (w as i32) > 0 ==> (w as i32) as int == w as int,
{
    assert((w as i32) > 0 ==> (w as i32) as int == w as int) by (bit_vector);
}

/// A growable atlas that stores glyph images: a square packed by a rectangle packer, and a
/// cache of the glyphs it holds, from the least recently used to the most recently used.
pub struct Atlas {
    size: u32,
    packer: etagere::BucketedAtlasAllocator,
    content: lru::LruCache<u128, CachedGlyph, foldhash::fast::FixedState>,
}

impl Atlas {
    /// The glyphs of the atlas with their keys, from the least recently used to the most
    /// recently used.
    pub closed spec fn entries(&self) -> Seq<(u128, CachedGlyph)> {
        cache_entries(self.content)
    }

    /// The side of the atlas, in pixels.
    pub closed spec fn side(&self) -> u32 {
        self.size
    }

    /// The rectangles that the packer holds for the atlas, by allocation.
    pub closed spec fn allocations(&self) -> Map<u32, AtlasRect> {
        packer_allocations(self.packer)
    }

    /// Whether the packer of the atlas has never handed out a rectangle.
    pub closed spec fn fresh(&self) -> bool {
        packer_fresh(self.packer)
    }

    /// The atlas is consistent: its keys are distinct, and the packer holds exactly one
    /// rectangle for each glyph, the one recorded in the glyph.
    pub closed spec fn wf(&self) -> bool {
        let e = cache_entries(self.content);
        let a = packer_allocations(self.packer);
        &&& 0 < self.size <= ATLAS_SIZE_LIMIT
        &&& packer_size(self.packer) == (self.size as i32, self.size as i32)
        &&& packer_fresh(self.packer) ==> a.dom() == Set::<u32>::empty()
        &&& distinct_cache_keys(e)
        &&& forall|i: int, j: int|
            0 <= i < e.len() && 0 <= j < e.len() && i != j ==> (#[trigger] e[i]).1.alloc_id
                != (#[trigger] e[j]).1.alloc_id
        &&& forall|i: int|
            0 <= i < e.len() ==> a.contains_key((#[trigger] e[i]).1.alloc_id) && a[e[i].1.alloc_id]
                == e[i].1.info.atlas_rect
        &&& forall|id: u32|
            a.contains_key(id) ==> exists|i: int| 0 <= i < e.len() && (#[trigger] e[i]).1.alloc_id == id
    }

    /// Creates an empty atlas of the initial side.
    pub fn new() -> (r: Atlas)
        ensures
            r.wf(),
            r.entries() == Seq::<(u128, CachedGlyph)>::empty(),
            r.side() == INITIAL_ATLAS_SIZE,
            r.fresh(),
    {
        let packer = packer_new(128);
        let content = cache_new();
        Atlas { size: INITIAL_ATLAS_SIZE, packer, content }
    }

    /// Returns the side of the atlas, in pixels.
    pub fn size(&self) -> (r: u32)
        ensures
            r == self.side(),
    {
        self.size
    }

    /// Returns whether the atlas holds a glyph for `key`.
    pub fn contains(&self, key: u128) -> (r: bool)
        ensures
            r == cache_has_key(self.entries(), key),
    {
        cache_contains(&self.content, key)
    }

    /// Asks the packer for a rectangle and, where it finds one, records the glyph in it as the
    /// most recently used one, protected from eviction.
    fn place(&mut self, key: u128, placement: Placement, content: GlyphContent) -> (r: Option<GlyphInfo>)
        requires
            old(self).wf(),
            !cache_has_key(old(self).entries(), key),
            old(self).entries().len() < usize::MAX,
        ensures
            final(self).wf(),
            final(self).side() == old(self).side(),
            old(self).fresh() ==> (r is Some <==> fits(placement, old(self).side() as int)),
            r is None ==> final(self).entries() == old(self).entries(),
            r is None ==> final(self).fresh() == old(self).fresh(),
            r is Some ==> !final(self).fresh(),
            r matches Some(info) ==> {
                &&& info.placement == placement
                &&& info.content == content
                &&& rect_holds(info.atlas_rect, placement)
                &&& rect_within(info.atlas_rect, old(self).side())
                &&& final(self).entries() == old(self).entries().push(
                    (key, final(self).entries().last().1),
                )
                &&& final(self).entries().last().1.info == info
                &&& final(self).entries().last().1.used
            },
    {
        let ghost e = cache_entries(self.content);
        let ghost a = packer_allocations(self.packer);
        #[verifier::truncate]
        let width = placement.width as i32;
        #[verifier::truncate]
        let height = placement.height as i32;
        proof {
            lemma_small_cast(placement.width);
            lemma_small_cast(placement.height);
        }
        let allocation = packer_allocate(&mut self.packer, width, height);
        match allocation {
            None => None,
            Some((id, rect)) => {
                proof {
                    lemma_positive_cast(placement.width);
                    lemma_positive_cast(placement.height);
                }
                let info = GlyphInfo { atlas_rect: rect, placement, content };
                let glyph = CachedGlyph { info, used: true, alloc_id: id };
                cache_put(&mut self.content, key, glyph);
                proof {
                    let e2 = cache_entries(self.content);
                    let a2 = packer_allocations(self.packer);
                    assert(e2 == e.push((key, glyph)));
                    assert forall|i: int| 0 <= i < e2.len() implies a2.contains_key(
                        (#[trigger] e2[i]).1.alloc_id,
                    ) && a2[e2[i].1.alloc_id] == e2[i].1.info.atlas_rect by {
                        if i < e.len() {
                            assert(e2[i] == e[i]);
                        }
                    }
                    assert forall|x: u32| a2.contains_key(x) implies exists|i: int|
                        0 <= i < e2.len() && (#[trigger] e2[i]).1.alloc_id == x by {
                        if x == id {
                            assert(e2[e.len() as int].1.alloc_id == x);
                        } else {
                            let i = choose|i: int| 0 <= i < e.len() && (#[trigger] e[i]).1.alloc_id == x;
                            assert(e2[i] == e[i]);
                        }
                    }
                    assert forall|i: int, j: int|
                        0 <= i < e2.len() && 0 <= j < e2.len() && i != j implies (
                        #[trigger] e2[i]).1.alloc_id != (#[trigger] e2[j]).1.alloc_id by {
                        if i < e.len() {
                            assert(e2[i] == e[i]);
                        }
                        if j < e.len() {
                            assert(e2[j] == e[j]);
                        }
                    }
                    assert forall|i: int, j: int|
                        0 <= i < e2.len() && 0 <= j < e2.len() && i != j implies (
                        #[trigger] e2[i]).0 != (#[trigger] e2[j]).0 by {
                        if i < e.len() {
                            assert(e2[i] == e[i]);
                        }
                        if j < e.len() {
                            assert(e2[j] == e[j]);
                        }
                        if i == e.len() {
                            assert(e[j].0 != key);
                        }
                        if j == e.len() {
                            assert(e[i].0 != key);
                        }
                    }
                }
                Some(info)
            },
        }
    }

    /// Evicts glyphs from the least recently used one on, for as long as they are not
    /// protected, and returns whether the atlas is empty afterwards.
    fn evict_unused(&mut self) -> (emptied: bool)
        requires
            old(self).wf(),
        ensures
            final(self).wf(),
            final(self).side() == old(self).side(),
            exists|k: int|
                0 <= k <= old(self).entries().len() && all_unused(old(self).entries(), k) && (k
                    == old(self).entries().len() || old(self).entries()[k].1.used) && #[trigger] old(
                    self,
                ).entries().skip(k) == final(self).entries(),
            emptied <==> final(self).entries().len() == 0,
            final(self).fresh() == old(self).fresh(),
    {
        let ghost e0 = cache_entries(self.content);
        let ghost mut k: int = 0;
        assert(e0.skip(0) == e0);
        loop
            invariant
                self.wf(),
                self.size == old(self).size,
                self.fresh() == old(self).fresh(),
                e0 == old(self).entries(),
                0 <= k <= e0.len(),
                all_unused(e0, k),
                cache_entries(self.content) == e0.skip(k),
            ensures
                self.wf(),
                self.size == old(self).size,
                self.fresh() == old(self).fresh(),
                0 <= k <= e0.len(),
                all_unused(e0, k),
                k == e0.len() || e0[k].1.used,
                cache_entries(self.content) == e0.skip(k),
            decreases e0.len() - k,
        {
            let front = cache_peek_lru(&self.content);
            match front {
                None => {
                    break;
                },
                Some((_, glyph)) => {
                    if glyph.used {
                        break;
                    }
                    let ghost e = cache_entries(self.content);
                    let ghost a = packer_allocations(self.packer);
                    assert(e[0] == e0[k]);
                    assert(a.contains_key(glyph.alloc_id));
                    packer_deallocate(&mut self.packer, glyph.alloc_id);
                    let _ = cache_pop_lru(&mut self.content);
                    proof {
                        let e2 = cache_entries(self.content);
                        let a2 = packer_allocations(self.packer);
                        let id = glyph.alloc_id;
                        assert(e2 == e.drop_first());
                        assert(e0.skip(k + 1) == e0.skip(k).drop_first());
                        k = k + 1;
                        assert forall|i: int| 0 <= i < e2.len() implies a2.contains_key(
                            (#[trigger] e2[i]).1.alloc_id,
                        ) && a2[e2[i].1.alloc_id] == e2[i].1.info.atlas_rect by {
                            assert(e2[i] == e[i + 1]);
                            assert(e[i + 1].1.alloc_id != e[0].1.alloc_id);
                        }
                        assert forall|x: u32| a2.contains_key(x) implies exists|i: int|
                            0 <= i < e2.len() && (#[trigger] e2[i]).1.alloc_id == x by {
                            let i = choose|i: int| 0 <= i < e.len() && (#[trigger] e[i]).1.alloc_id == x;
                            assert(i != 0);
                            assert(e2[i - 1] == e[i]);
                        }
                        assert forall|i: int, j: int|
                            0 <= i < e2.len() && 0 <= j < e2.len() && i != j implies (
                            #[trigger] e2[i]).1.alloc_id != (#[trigger] e2[j]).1.alloc_id by {
                            assert(e2[i] == e[i + 1]);
                            assert(e2[j] == e[j + 1]);
                        }
                        assert forall|i: int, j: int|
                            0 <= i < e2.len() && 0 <= j < e2.len() && i != j implies (
                            #[trigger] e2[i]).0 != (#[trigger] e2[j]).0 by {
                            assert(e2[i] == e[i + 1]);
                            assert(e2[j] == e[j + 1]);
                        }
                        assert forall|i: int| 0 <= i < k implies !(#[trigger] e0[i]).1.used by {
                            if i == k - 1 {
                                assert(e0[i] == e[0]);
                            }
                        }
                    }
                },
            }
        }
        let emptied = cache_peek_lru(&self.content).is_none();
        emptied
    }

    /// Allocates a region of the atlas for the glyph of `key`, without growing the atlas.
    ///
    /// Where the packer finds no room, the glyphs that are not protected are evicted from the
    /// least recently used one on, up to the first protected one, and the allocation is tried
    /// once more if that emptied the atlas. The new glyph is protected from eviction. An atlas
    /// whose packer has never handed out a rectangle places any image with pixels that fits
    /// its side.
    pub fn allocate_no_grow(&mut self, key: u128, placement: Placement, content: GlyphContent) -> (r: Option<GlyphInfo>)
        requires
            old(self).wf(),
            !cache_has_key(old(self).entries(), key),
            old(self).entries().len() < usize::MAX,
        ensures
            final(self).wf(),
            final(self).side() == old(self).side(),
            exists|k: int|
                0 <= k <= old(self).entries().len() && all_unused(old(self).entries(), k) && match r {
                    None => {
                        &&& k == old(self).entries().len() || old(self).entries()[k].1.used
                        &&& final(self).entries() == #[trigger] old(self).entries().skip(k)
                    },
                    Some(info) => {
                        &&& k == 0 || k == old(self).entries().len()
                        &&& final(self).entries() == old(self).entries().skip(k).push(
                            (key, final(self).entries().last().1),
                        )
                    },
                },
            placement.width > old(self).side() || placement.height > old(self).side() ==> r is None,
            old(self).fresh() && fits(placement, old(self).side() as int) ==> r is Some,
            r is None ==> final(self).fresh() == old(self).fresh(),
            r is Some ==> !final(self).fresh(),
            r matches Some(info) ==> {
                &&& info.placement == placement
                &&& info.content == content
                &&& rect_holds(info.atlas_rect, placement)
                &&& rect_within(info.atlas_rect, old(self).side())
                &&& final(self).entries().last().1.info == info
                &&& final(self).entries().last().1.used
            },
    {
        let ghost e0 = cache_entries(self.content);
        let first = self.place(key, placement, content);
        if first.is_some() {
            assert(e0.skip(0) == e0);
            return first;
        }
        let emptied = self.evict_unused();
        if !emptied {
            return None;
        }
        let ghost e1 = cache_entries(self.content);
        proof {
            let k = choose|k: int|
                0 <= k <= e0.len() && all_unused(e0, k) && (k == e0.len() || e0[k].1.used)
                    && #[trigger] e0.skip(k) == e1;
            assert(k == e0.len());
            assert forall|x: u128| !cache_has_key(e1, x) by {}
        }
        let second = self.place(key, placement, content);
        proof {
            assert(e0.skip(e0.len() as int) == e1);
        }
        second
    }

    /// Grows the atlas once, doubling its side, to make room for more glyphs.
    ///
    /// Returns `false`, leaving the atlas as it is, where the atlas cannot grow any further:
    /// where the doubled side would exceed `max_dimension` (the largest texture side that the
    /// device takes) or not stay below `i32::MAX`. The packer is kept to sides of at most
    /// [`ATLAS_SIZE_LIMIT`], so a doubled side that the device takes must stay within that.
    pub fn grow(&mut self, max_dimension: u32) -> (r: bool)
        requires
            old(self).wf(),
            old(self).side() * 2 > max_dimension || old(self).side() * 2 <= ATLAS_SIZE_LIMIT,
        ensures
            final(self).wf(),
            final(self).entries() == old(self).entries(),
            final(self).fresh() == old(self).fresh(),
            r == (old(self).side() * 2 <= max_dimension && old(self).side() * 2 < i32::MAX),
            r ==> final(self).side() == old(self).side() * 2,
            !r ==> *final(self) == *old(self),
    {
        let doubled = self.size.checked_mul(2);
        let new_size = match doubled {
            Some(x) => x,
            None => {
                return false;
            },
        };
        if !(new_size <= max_dimension && new_size < i32::MAX as u32) {
            return false;
        }
        packer_grow(&mut self.packer, new_size as i32);
        self.size = new_size;
        true
    }

    /// Allocates a region of the atlas for the glyph of `key`, growing the atlas as often as
    /// it takes.
    ///
    /// The glyph is first placed as [`Atlas::allocate_no_grow`] does; where that fails,
    /// the atlas grows, one doubling at a time, until the glyph fits or the atlas can grow no
    /// further. Returns the glyph and whether the atlas grew.
    pub fn allocate(
        &mut self,
        key: u128,
        placement: Placement,
        content: GlyphContent,
        max_dimension: u32,
    ) -> (r: Result<(bool, GlyphInfo), GlyphError>)
        requires
            old(self).wf(),
            !cache_has_key(old(self).entries(), key),
            old(self).entries().len() < usize::MAX,
            max_dimension <= ATLAS_SIZE_LIMIT,
        ensures
            final(self).wf(),
            allocated(*old(self), *final(self), key, placement, content, max_dimension, r),
    {
        let ghost e0 = cache_entries(self.content);
        let ghost side0 = self.size;
        let first = self.allocate_no_grow(key, placement, content);
        if let Some(glyph) = first {
            proof {
                lemma_reachable_side_grows(side0 as nat, max_dimension as nat);
            }
            let ghost k0 = choose|k: int|
                0 <= k <= e0.len() && all_unused(e0, k) && (k == 0 || k == e0.len())
                    && cache_entries(self.content) == #[trigger] e0.skip(k).push(
                    (key, cache_entries(self.content).last().1),
                );
            assert(all_unused(e0, k0));
            return Ok((false, glyph));
        }
        let ghost k = choose|k: int|
            0 <= k <= e0.len() && all_unused(e0, k) && (k == e0.len() || e0[k].1.used)
                && cache_entries(self.content) == #[trigger] e0.skip(k);
        loop
            invariant
                self.wf(),
                0 <= k <= e0.len(),
                all_unused(e0, k),
                k == e0.len() || e0[k].1.used,
                cache_entries(self.content) == e0.skip(k),
                !cache_has_key(e0, key),
                e0.len() < usize::MAX,
                side0 <= self.size,
                e0 == old(self).entries(),
                side0 == old(self).side(),
                max_dimension <= ATLAS_SIZE_LIMIT,
                old(self).fresh() ==> self.fresh() && !fits(placement, self.size as int),
                reachable_side(self.size as nat, max_dimension as nat) == reachable_side(
                    side0 as nat,
                    max_dimension as nat,
                ),
            decreases ATLAS_SIZE_LIMIT - self.size,
        {
            let ghost cur = cache_entries(self.content);
            assert(cur.len() > 0 ==> cur[0] == e0[k]);
            assert(!cache_has_key(cur, key)) by {
                if cache_has_key(cur, key) {
                    let t = choose|t: int| 0 <= t < cur.len() && (#[trigger] cur[t]).0 == key;
                    assert(cur[t] == e0[k + t]);
                }
            }
            if !self.grow(max_dimension) {
                assert(all_unused(e0, k));
                return Err(GlyphError::AtlasFull);
            }
            let attempt = self.allocate_no_grow(key, placement, content);
            proof {
                lemma_reachable_side_grows(self.size as nat, max_dimension as nat);
                let k2 = choose|k2: int|
                    0 <= k2 <= cur.len() && all_unused(cur, k2) && match attempt {
                        None => {
                            &&& k2 == cur.len() || cur[k2].1.used
                            &&& cache_entries(self.content) == #[trigger] cur.skip(k2)
                        },
                        Some(info) => {
                            &&& k2 == 0 || k2 == cur.len()
                            &&& cache_entries(self.content) == cur.skip(k2).push(
                                (key, cache_entries(self.content).last().1),
                            )
                        },
                    };
                if k2 > 0 {
                    assert(!cur[0].1.used);
                }
                assert(k2 == 0);
                assert(cur.skip(0) == cur);
            }
            if let Some(glyph) = attempt {
                assert(all_unused(e0, k));
                return Ok((true, glyph));
            }
        }
    }

    /// Marks all glyphs as unused, making them eligible for eviction; their order stays.
    pub fn trim(&mut self)
        requires
            old(self).wf(),
        ensures
            final(self).wf(),
            final(self).side() == old(self).side(),
            final(self).entries() == trimmed(old(self).entries()),
    {
        let ghost e0 = cache_entries(self.content);
        let mut taken: Vec<(u128, CachedGlyph)> = Vec::new();
        assert(e0.skip(0) == e0);
        loop
            invariant
                e0 == old(self).entries(),
                old(self).wf(),
                self.packer == old(self).packer,
                self.size == old(self).size,
                taken@.len() <= e0.len(),
                taken@ == e0.take(taken@.len() as int),
                cache_entries(self.content) == e0.skip(taken@.len() as int),
            ensures
                taken@ == e0,
                cache_entries(self.content).len() == 0,
            decreases e0.len() - taken@.len(),
        {
            let ghost before = cache_entries(self.content);
            match cache_pop_lru(&mut self.content) {
                None => {
                    assert(e0.take(e0.len() as int) == e0);
                    break;
                },
                Some(entry) => {
                    proof {
                        let n = taken@.len() as int;
                        assert(before[0] == e0[n]);
                        assert(e0.skip(n).drop_first() == e0.skip(n + 1));
                        assert(e0.take(n).push(e0[n]) == e0.take(n + 1));
                    }
                    taken.push(entry);
                },
            }
        }
        let mut i: usize = 0;
        while i < taken.len()
            invariant
                taken@ == e0,
                i <= taken@.len(),
                cache_entries(self.content) == trimmed(e0.take(i as int)),
                distinct_cache_keys(e0),
                e0 == old(self).entries(),
                old(self).wf(),
                self.packer == old(self).packer,
                self.size == old(self).size,
            decreases taken@.len() - i,
        {
            let (key, glyph) = taken[i];
            let ghost before = cache_entries(self.content);
            assert(!cache_has_key(before, key)) by {
                if cache_has_key(before, key) {
                    let t = choose|t: int| 0 <= t < before.len() && (#[trigger] before[t]).0 == key;
                    assert(before[t].0 == e0[t].0);
                }
            }
            cache_put(
                &mut self.content,
                key,
                CachedGlyph { info: glyph.info, used: false, alloc_id: glyph.alloc_id },
            );
            assert(e0.take(i as int).push(e0[i as int]) == e0.take(i + 1));
            assert(trimmed(e0.take(i + 1)) == trimmed(e0.take(i as int)).push(
                (key, CachedGlyph { info: glyph.info, used: false, alloc_id: glyph.alloc_id }),
            ));
            i = i + 1;
        }
        proof {
            let e = cache_entries(self.content);
            assert(e0.take(e0.len() as int) == e0);
            assert(e == trimmed(e0));
            assert forall|t: int| 0 <= t < e.len() implies (#[trigger] e[t]).0 == e0[t].0
                && e[t].1.alloc_id == e0[t].1.alloc_id && e[t].1.info == e0[t].1.info by {}
            assert forall|x: u32| packer_allocations(self.packer).contains_key(x) implies exists|t: int|
                0 <= t < e.len() && (#[trigger] e[t]).1.alloc_id == x by {
                let t = choose|t: int| 0 <= t < e0.len() && (#[trigger] e0[t]).1.alloc_id == x;
                assert(e[t].1.alloc_id == x);
            }
            assert forall|a: int, b: int|
                0 <= a < e.len() && 0 <= b < e.len() && a != b implies (#[trigger] e[a]).0 != (
                #[trigger] e[b]).0 by {
                assert(e0[a].0 != e0[b].0);
            }
            assert forall|a: int, b: int|
                0 <= a < e.len() && 0 <= b < e.len() && a != b implies (#[trigger] e[a]).1.alloc_id
                != (#[trigger] e[b]).1.alloc_id by {
                assert(e0[a].1.alloc_id != e0[b].1.alloc_id);
            }
            assert forall|a: int| 0 <= a < e.len() implies packer_allocations(self.packer).contains_key(
                (#[trigger] e[a]).1.alloc_id,
            ) && packer_allocations(self.packer)[e[a].1.alloc_id] == e[a].1.info.atlas_rect by {
                assert(packer_allocations(self.packer).contains_key(e0[a].1.alloc_id));
            }
        }
    }

    /// Looks the glyph of `key` up, makes it the most recently used one and protects it from
    /// eviction.
    pub fn lookup(&mut self, key: u128) -> (r: Option<GlyphInfo>)
        requires
            old(self).wf(),
        ensures
            final(self).wf(),
            looked_up(*old(self), *final(self), key, r),
    {
        let ghost e0 = cache_entries(self.content);
        let found = cache_get_mut(&mut self.content, key);
        match found {
            None => None,
            Some(glyph) => {
                glyph.used = true;
                let info = glyph.info;
                proof {
                    let e = cache_entries(self.content);
                    let t = choose|t: int|
                        0 <= t < e0.len() && (#[trigger] e0[t]).0 == key && e == e0.remove(t).push(
                            (key, protected(e0[t].1)),
                        );
                    lemma_moved_to_back_wf(e0, e, t, packer_allocations(self.packer));
                }
                Some(info)
            },
        }
    }
}

/// Whether glyphs with this content are stored in the mask atlas; the others are stored in the
/// color atlas.
pub open spec fn uses_mask(content: GlyphContent) -> bool {
    content is Mask || content is SubpixelMask
}

/// What an empty image is stored as: an empty rectangle at the origin.
pub open spec fn empty_glyph(placement: Placement, content: GlyphContent) -> GlyphInfo {
    GlyphInfo { atlas_rect: AtlasRect { min_x: 0, min_y: 0, max_x: 0, max_y: 0 }, placement, content }
}

/// The result of [`Atlas::allocate`] once whether the atlas grew is dropped.
pub open spec fn without_growth(r: Result<(bool, GlyphInfo), GlyphError>) -> Result<GlyphInfo, GlyphError> {
    match r {
        Ok((_, info)) => Ok(info),
        Err(e) => Err(e),
    }
}

/// What [`TextAtlas::insert_image`] does: an empty image is recorded without a place in an
/// atlas; another one is allocated in the atlas of its content, and the other atlas stays.
pub open spec fn image_inserted(
    before: TextAtlas,
    after: TextAtlas,
    key: u128,
    placement: Placement,
    content: GlyphContent,
    max_dimension: u32,
    r: Result<GlyphInfo, GlyphError>,
) -> bool {
    if placement.width == 0 || placement.height == 0 {
        &&& r == Ok::<GlyphInfo, GlyphError>(empty_glyph(placement, content))
        &&& after.empty_glyphs() == before.empty_glyphs().insert(key, empty_glyph(placement, content))
        &&& after.color_atlas() == before.color_atlas()
        &&& after.mask_atlas() == before.mask_atlas()
    } else if uses_mask(content) {
        &&& after.empty_glyphs() == before.empty_glyphs()
        &&& after.color_atlas() == before.color_atlas()
        &&& exists|grew: Result<(bool, GlyphInfo), GlyphError>|
            #[trigger] without_growth(grew) == r && allocated(
                before.mask_atlas(),
                after.mask_atlas(),
                key,
                placement,
                content,
                max_dimension,
                grew,
            )
    } else {
        &&& after.empty_glyphs() == before.empty_glyphs()
        &&& after.mask_atlas() == before.mask_atlas()
        &&& exists|grew: Result<(bool, GlyphInfo), GlyphError>|
            #[trigger] without_growth(grew) == r && allocated(
                before.color_atlas(),
                after.color_atlas(),
                key,
                placement,
                content,
                max_dimension,
                grew,
            )
    }
}

/// Whether the glyph of `key` is cached: as an empty image or in one of the atlases.
pub open spec fn cached(atlas: TextAtlas, key: u128) -> bool {
    ||| atlas.empty_glyphs().contains_key(key)
    ||| cache_has_key(atlas.color_atlas().entries(), key)
    ||| cache_has_key(atlas.mask_atlas().entries(), key)
}

/// What [`TextAtlas::get`] does: the empty images are searched first, then the color atlas,
/// then the mask atlas, as [`Atlas::lookup`] does.
pub open spec fn found(before: TextAtlas, after: TextAtlas, key: u128, r: Option<GlyphInfo>) -> bool {
    &&& after.empty_glyphs() == before.empty_glyphs()
    &&& (r is Some <==> cached(before, key))
    &&& if before.empty_glyphs().contains_key(key) {
        &&& r == Some(before.empty_glyphs()[key])
        &&& after.color_atlas() == before.color_atlas()
        &&& after.mask_atlas() == before.mask_atlas()
    } else if cache_has_key(before.color_atlas().entries(), key) {
        &&& looked_up(before.color_atlas(), after.color_atlas(), key, r)
        &&& after.mask_atlas() == before.mask_atlas()
    } else if cache_has_key(before.mask_atlas().entries(), key) {
        &&& after.color_atlas() == before.color_atlas()
        &&& looked_up(before.mask_atlas(), after.mask_atlas(), key, r)
    } else {
        &&& after.color_atlas() == before.color_atlas()
        &&& after.mask_atlas() == before.mask_atlas()
    }
}

/// Caches the placement of glyph images: empty images apart, the others in two growable
/// atlases, one for masks and one for colors.
pub struct TextAtlas {
    empty_index: UuidIndexMap,
    empty_glyphs: Vec<GlyphInfo>,
    color_atlas: Atlas,
    mask_atlas: Atlas,
}

impl TextAtlas {
    /// The glyphs of empty images, by key.
    pub closed spec fn empty_glyphs(&self) -> Map<u128, GlyphInfo> {
        let index = uuid_index_entries(self.empty_index);
        Map::new(|k: u128| index.contains_key(k), |k: u128| self.empty_glyphs@[index[k] as int])
    }

    /// The atlas of color images.
    pub closed spec fn color_atlas(&self) -> Atlas {
        self.color_atlas
    }

    /// The atlas of mask images.
    pub closed spec fn mask_atlas(&self) -> Atlas {
        self.mask_atlas
    }

    /// Both atlases are consistent, and every key of an empty image has its glyph.
    pub closed spec fn wf(&self) -> bool {
        &&& self.color_atlas.wf()
        &&& self.mask_atlas.wf()
        &&& forall|k: u128|
            #[trigger] uuid_index_entries(self.empty_index).contains_key(k) ==> uuid_index_entries(
                self.empty_index,
            )[k] < self.empty_glyphs@.len()
        &&& forall|k1: u128, k2: u128|
            #[trigger] uuid_index_entries(self.empty_index).contains_key(k1)
                && #[trigger] uuid_index_entries(self.empty_index).contains_key(k2) && k1 != k2
                ==> uuid_index_entries(self.empty_index)[k1] != uuid_index_entries(
                self.empty_index,
            )[k2]
    }

    /// Creates an empty cache whose two atlases have the initial side.
    pub fn new() -> (r: TextAtlas)
        ensures
            r.wf(),
            r.empty_glyphs() == Map::<u128, GlyphInfo>::empty(),
            r.color_atlas().entries().len() == 0,
            r.color_atlas().side() == INITIAL_ATLAS_SIZE,
            r.mask_atlas().entries().len() == 0,
            r.mask_atlas().side() == INITIAL_ATLAS_SIZE,
            r.color_atlas().fresh(),
            r.mask_atlas().fresh(),
    {
        let r = TextAtlas {
            empty_index: UuidIndexMap::new(),
            empty_glyphs: Vec::new(),
            color_atlas: Atlas::new(),
            mask_atlas: Atlas::new(),
        };
        assert(r.empty_glyphs() == Map::<u128, GlyphInfo>::empty());
        r
    }

    /// Returns the side of the color atlas, in pixels.
    pub fn color_size(&self) -> (r: u32)
        ensures
            r == self.color_atlas().side(),
    {
        self.color_atlas.size()
    }

    /// Returns the side of the mask atlas, in pixels.
    pub fn mask_size(&self) -> (r: u32)
        ensures
            r == self.mask_atlas().side(),
    {
        self.mask_atlas.size()
    }

    /// Returns whether the glyph of `key` is cached, as an empty image or in one of the
    /// atlases.
    pub fn is_cached(&self, key: u128) -> (r: bool)
        requires
            self.wf(),
        ensures
            r == cached(*self, key),
    {
        self.empty_index.get(key).is_some() || self.color_atlas.contains(key) || self.mask_atlas.contains(key)
    }

    /// Records the glyph of an empty image.
    fn insert_empty(&mut self, key: u128, info: GlyphInfo)
        requires
            old(self).wf(),
        ensures
            final(self).wf(),
            final(self).empty_glyphs() == old(self).empty_glyphs().insert(key, info),
            final(self).color_atlas() == old(self).color_atlas(),
            final(self).mask_atlas() == old(self).mask_atlas(),
    {
        let ghost before = self.empty_glyphs();
        match self.empty_index.get(key) {
            Some(i) => {
                self.empty_glyphs.set(i, info);
            },
            None => {
                let i = self.empty_glyphs.len();
                self.empty_glyphs.push(info);
                self.empty_index.insert(key, i);
            },
        }
        assert(self.empty_glyphs() =~= before.insert(key, info));
    }

    /// Stores the image of the glyph of `key`, with the given placement and content, and
    /// returns where it is stored.
    ///
    /// An image with no pixel gets an empty rectangle and no place in an atlas; another one
    /// is allocated in the mask atlas or in the color atlas, after its content, which grows as
    /// [`Atlas::allocate`] does up to the side `max_dimension`.
    pub fn insert_image(
        &mut self,
        key: u128,
        placement: Placement,
        content: GlyphContent,
        max_dimension: u32,
    ) -> (r: Result<GlyphInfo, GlyphError>)
        requires
            old(self).wf(),
            max_dimension <= ATLAS_SIZE_LIMIT,
            placement.width != 0 && placement.height != 0 && uses_mask(content) ==> {
                &&& !cache_has_key(old(self).mask_atlas().entries(), key)
                &&& old(self).mask_atlas().entries().len() < usize::MAX
            },
            placement.width != 0 && placement.height != 0 && !uses_mask(content) ==> {
                &&& !cache_has_key(old(self).color_atlas().entries(), key)
                &&& old(self).color_atlas().entries().len() < usize::MAX
            },
        ensures
            final(self).wf(),
            image_inserted(*old(self), *final(self), key, placement, content, max_dimension, r),
    {
        if placement.width == 0 || placement.height == 0 {
            let info = GlyphInfo {
                atlas_rect: AtlasRect { min_x: 0, min_y: 0, max_x: 0, max_y: 0 },
                placement,
                content,
            };
            self.insert_empty(key, info);
            return Ok(info);
        }
        let grew = match content {
            GlyphContent::Mask | GlyphContent::SubpixelMask => self.mask_atlas.allocate(
                key,
                placement,
                content,
                max_dimension,
            ),
            GlyphContent::Color => self.color_atlas.allocate(key, placement, content, max_dimension),
        };
        let r = match grew {
            Ok((_, info)) => Ok(info),
            Err(e) => Err(e),
        };
        assert(without_growth(grew) == r);
        r
    }

    /// Looks the glyph of `key` up: among the empty images first, then in the color atlas,
    /// then in the mask atlas, where the glyph found is protected from eviction.
    pub fn get(&mut self, key: u128) -> (r: Option<GlyphInfo>)
        requires
            old(self).wf(),
        ensures
            final(self).wf(),
            found(*old(self), *final(self), key, r),
    {
        if let Some(i) = self.empty_index.get(key) {
            return Some(self.empty_glyphs[i]);
        }
        if self.color_atlas.contains(key) {
            return self.color_atlas.lookup(key);
        }
        if self.mask_atlas.contains(key) {
            return self.mask_atlas.lookup(key);
        }
        None
    }

    /// Returns the glyph of `key`, or, where it is not cached, rasterizes its image with
    /// `rasterize` and stores it as [`TextAtlas::insert_image`] does.
    pub fn get_or_insert<F: FnOnce() -> Result<(Placement, GlyphContent), GlyphError>>(
        &mut self,
        key: u128,
        max_dimension: u32,
        rasterize: F,
    ) -> (r: Result<GlyphInfo, GlyphError>)
        requires
            old(self).wf(),
            call_requires(rasterize, ()),
            max_dimension <= ATLAS_SIZE_LIMIT,
            old(self).mask_atlas().entries().len() < usize::MAX,
            old(self).color_atlas().entries().len() < usize::MAX,
        ensures
            final(self).wf(),
            cached(*old(self), key) ==> exists|info: GlyphInfo|
                r == Ok::<GlyphInfo, GlyphError>(info) && #[trigger] found(
                    *old(self),
                    *final(self),
                    key,
                    Some(info),
                ),
            !cached(*old(self), key) ==> exists|image: Result<(Placement, GlyphContent), GlyphError>|
                #[trigger] call_ensures(rasterize, (), image) && match image {
                    Err(e) => {
                        &&& r == Err::<GlyphInfo, GlyphError>(e)
                        &&& final(self).empty_glyphs() == old(self).empty_glyphs()
                        &&& final(self).color_atlas() == old(self).color_atlas()
                        &&& final(self).mask_atlas() == old(self).mask_atlas()
                    },
                    Ok((placement, content)) => image_inserted(
                        *old(self),
                        *final(self),
                        key,
                        placement,
                        content,
                        max_dimension,
                        r,
                    ),
                },
    {
        let hit = self.get(key);
        if let Some(info) = hit {
            return Ok(info);
        }
        let image = rasterize();
        match image {
            Err(e) => Err(e),
            Ok((placement, content)) => self.insert_image(key, placement, content, max_dimension),
        }
    }

    /// Marks all glyphs of both atlases as unused, making them eligible for eviction.
    pub fn trim(&mut self)
        requires
            old(self).wf(),
        ensures
            final(self).wf(),
            final(self).empty_glyphs() == old(self).empty_glyphs(),
            final(self).color_atlas().side() == old(self).color_atlas().side(),
            final(self).color_atlas().entries() == trimmed(old(self).color_atlas().entries()),
            final(self).mask_atlas().side() == old(self).mask_atlas().side(),
            final(self).mask_atlas().entries() == trimmed(old(self).mask_atlas().entries()),
    {
        self.color_atlas.trim();
        self.mask_atlas.trim();
    }
}

/// A glyph that is protected from eviction stays in the atlas through
/// [`Atlas::allocate`], whatever the allocation gives.
pub proof fn lemma_protected_glyph_stays(
    before: Atlas,
    after: Atlas,
    key: u128,
    placement: Placement,
    content: GlyphContent,
    max_dimension: u32,
    r: Result<(bool, GlyphInfo), GlyphError>,
    t: int,
)
    requires
        allocated(before, after, key, placement, content, max_dimension, r),
        0 <= t < before.entries().len(),
        before.entries()[t].1.used,
    ensures
        exists|u: int| 0 <= u < after.entries().len() && after.entries()[u] == before.entries()[t],
{
    let e = before.entries();
    let k = choose|k: int|
        0 <= k <= e.len() && #[trigger] all_unused(e, k) && match r {
            Ok((false, _)) => {
                &&& k == 0 || k == e.len()
                &&& after.side() == before.side()
                &&& after.entries() == e.skip(k).push((key, after.entries().last().1))
            },
            Ok((true, _)) => {
                &&& k == e.len() || e[k].1.used
                &&& before.side() < after.side() <= max_dimension
                &&& after.entries() == e.skip(k).push((key, after.entries().last().1))
            },
            Err(_) => {
                &&& k == e.len() || e[k].1.used
                &&& before.side() <= after.side()
                &&& !(after.side() * 2 <= max_dimension && after.side() * 2 < i32::MAX)
                &&& after.entries() == e.skip(k)
            },
        };
    assert(!(t < k)) by {
        if t < k {
            assert(!e[t].1.used);
        }
    }
    assert(after.entries()[t - k] == e[t]);
}

/// A glyph that is not cached, once stored by [`TextAtlas::insert_image`], is what
/// [`TextAtlas::get`] gives back for its key.
pub proof fn lemma_insert_then_get(
    before: TextAtlas,
    mid: TextAtlas,
    after: TextAtlas,
    key: u128,
    placement: Placement,
    content: GlyphContent,
    max_dimension: u32,
    info: GlyphInfo,
    hit: Option<GlyphInfo>,
)
    requires
        before.wf(),
        mid.wf(),
        !cached(before, key),
        image_inserted(before, mid, key, placement, content, max_dimension, Ok(info)),
        found(mid, after, key, hit),
    ensures
        hit == Some(info),
{
    if placement.width == 0 || placement.height == 0 {
        assert(mid.empty_glyphs().contains_key(key));
    } else {
        let grew = choose|grew: Result<(bool, GlyphInfo), GlyphError>|
            #[trigger] without_growth(grew) == Ok::<GlyphInfo, GlyphError>(info) && allocated(
                if uses_mask(content) { before.mask_atlas() } else { before.color_atlas() },
                if uses_mask(content) { mid.mask_atlas() } else { mid.color_atlas() },
                key,
                placement,
                content,
                max_dimension,
                grew,
            );
        let target = if uses_mask(content) { mid.mask_atlas() } else { mid.color_atlas() };
        let e = target.entries();
        let last = e.len() - 1;
        assert(e[last].0 == key);
        assert(cache_has_key(e, key));
        assert(!mid.empty_glyphs().contains_key(key));
        if uses_mask(content) {
            assert(!cache_has_key(mid.color_atlas().entries(), key));
        }
        let t = choose|t: int|
            0 <= t < e.len() && (#[trigger] e[t]).0 == key && hit.unwrap() == e[t].1.info && (if uses_mask(content) {
                after.mask_atlas()
            } else {
                after.color_atlas()
            }).entries() == e.remove(t).push((key, protected(e[t].1)));
        assert(distinct_cache_keys(e));
        assert(t == last);
    }
}

} // verus!
