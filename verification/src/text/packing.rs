//! The rectangle packer of the `etagere` crate and the LRU cache of the `lru` crate, behind
//! contracts.
use vstd::prelude::*;

verus! {

/// A rectangle of an atlas, from its minimum corner (included) to its maximum corner
/// (excluded).
#[derive(Clone, Copy, Debug, PartialEq, Eq, Structural)]
pub struct AtlasRect {
    /// The smallest horizontal coordinate.
    pub min_x: i32,
    /// The smallest vertical coordinate.
    pub min_y: i32,
    /// The horizontal coordinate past the rectangle.
    pub max_x: i32,
    /// The vertical coordinate past the rectangle.
    pub max_y: i32,
}

/// The placement of a glyph image: its offset from the pen position, and its size.
#[derive(Clone, Copy, Debug, PartialEq, Eq, Structural)]
pub struct Placement {
    /// The horizontal offset of the image.
    pub left: i32,
    /// The vertical offset of the image.
    pub top: i32,
    /// The width of the image.
    pub width: u32,
    /// The height of the image.
    pub height: u32,
}

/// The kind of content of a glyph image.
#[derive(Clone, Copy, Debug, PartialEq, Eq, Structural)]
pub enum GlyphContent {
    /// A coverage mask.
    Mask,
    /// A coverage mask with one value per subpixel.
    SubpixelMask,
    /// A color image.
    Color,
}

/// Stores cached information about a glyph.
#[derive(Clone, Copy, Debug, PartialEq, Eq, Structural)]
pub struct GlyphInfo {
    /// The rectangle in which the glyph is stored.
    pub atlas_rect: AtlasRect,
    /// The placement of the glyph.
    pub placement: Placement,
    /// The content type of the glyph.
    pub content: GlyphContent,
}

/// Information about a glyph that is cached in an atlas.
#[derive(Clone, Copy, Debug, PartialEq, Eq, Structural)]
pub struct CachedGlyph {
    /// Where and how the glyph is stored.
    pub info: GlyphInfo,
    /// Whether the glyph is protected from eviction.
    pub used: bool,
    /// The allocation of the glyph in the packer.
    pub alloc_id: u32,
}

#[verifier::external_type_specification]
#[verifier::external_body]
pub struct ExBucketedAtlasAllocator(etagere::BucketedAtlasAllocator);

#[verifier::external_type_specification]
#[verifier::external_body]
pub struct ExFixedState(foldhash::fast::FixedState);

#[verifier::external_type_specification]
#[verifier::external_body]
#[verifier::reject_recursive_types(K)]
#[verifier::reject_recursive_types(V)]
#[verifier::reject_recursive_types(S)]
pub struct ExLruCache<K, V, S>(lru::LruCache<K, V, S>);

/// The rectangles that a packer has handed out and that are not deallocated yet, by allocation.
pub uninterp spec fn packer_allocations(p: etagere::BucketedAtlasAllocator) -> Map<u32, AtlasRect>;

/// Whether a packer has no bucket yet, as when it was made: it has never handed out a
/// rectangle.
pub uninterp spec fn packer_fresh(p: etagere::BucketedAtlasAllocator) -> bool;

/// The width and height of the area of a packer.
pub uninterp spec fn packer_size(p: etagere::BucketedAtlasAllocator) -> (i32, i32);

/// The entries of a glyph cache, from the least recently used to the most recently used.
pub uninterp spec fn cache_entries(c: lru::LruCache<u128, CachedGlyph, foldhash::fast::FixedState>) -> Seq<(u128, CachedGlyph)>;

/// Whether the keys of cache entries are distinct.
pub open spec fn distinct_cache_keys(entries: Seq<(u128, CachedGlyph)>) -> bool {
    forall|a: int, b: int|
        0 <= a < entries.len() && 0 <= b < entries.len() && a != b ==> (#[trigger] entries[a]).0 != (
        #[trigger] entries[b]).0
}

/// Whether some cache entry has key `key`.
pub open spec fn cache_has_key(entries: Seq<(u128, CachedGlyph)>, key: u128) -> bool {
    exists|t: int| 0 <= t < entries.len() && (#[trigger] entries[t]).0 == key
}

/// Creates a packer of a square area with `etagere::BucketedAtlasAllocator::new`; it has no
/// allocation and no shelf yet. The constructor asserts that the side is below `u16::MAX`, and
/// an allocation rounds the height of a new shelf up to a multiple of 64 in 16 bits, so the
/// side is kept to at most `2^15`, where that rounding cannot overflow.
#[verifier::external_body]
pub(crate) fn packer_new(side: i32) -> (r: etagere::BucketedAtlasAllocator)
    requires
        0 < side <= 32768,
    ensures
        packer_allocations(r).dom() == Set::<u32>::empty(),
        packer_size(r) == (side, side),
        packer_fresh(r),
{
    etagere::BucketedAtlasAllocator::new(etagere::size2(side, side))
}

/// Allocates a rectangle of at least `width` by `height` with
/// `etagere::BucketedAtlasAllocator::allocate`, which refuses a size that is not positive. An
/// allocation gets an identifier that no other live allocation has, and a rectangle that is at
/// least as large as requested and lies inside the area of the packer. A packer that has not
/// allocated yet refuses only a size larger than its area: it has no bucket, so it adds a
/// shelf at least as high as the request whose first bucket spans at least its width. Whether
/// any other packer finds room is not stated: it depends on its shelves and buckets, which
/// nothing here models, and even a packer without live allocation refuses every request once
/// its table of buckets has filled up.
#[verifier::external_body]
pub(crate) fn packer_allocate(p: &mut etagere::BucketedAtlasAllocator, width: i32, height: i32) -> (r: Option<(u32, AtlasRect)>)
    requires
        packer_size(*old(p)).0 <= 32768,
        packer_size(*old(p)).1 <= 32768,
    ensures
        packer_size(*final(p)) == packer_size(*old(p)),
        packer_fresh(*old(p)) ==> (r is Some <==> 0 < width <= packer_size(*old(p)).0 && 0 < height
            <= packer_size(*old(p)).1),
        r is None ==> packer_fresh(*final(p)) == packer_fresh(*old(p)),
        r is Some ==> !packer_fresh(*final(p)),
        r is None ==> packer_allocations(*final(p)) == packer_allocations(*old(p)),
        r matches Some(a) ==> {
            &&& width > 0 && height > 0
            &&& 0 <= a.1.min_x && a.1.max_x <= packer_size(*old(p)).0
            &&& 0 <= a.1.min_y && a.1.max_y <= packer_size(*old(p)).1
            &&& !packer_allocations(*old(p)).contains_key(a.0)
            &&& packer_allocations(*final(p)) == packer_allocations(*old(p)).insert(a.0, a.1)
            &&& a.1.max_x - a.1.min_x >= width
            &&& a.1.max_y - a.1.min_y >= height
        },
{
    p.allocate(etagere::size2(width, height)).map(
        |a|
            (
                a.id.serialize(),
                AtlasRect {
                    min_x: a.rectangle.min.x,
                    min_y: a.rectangle.min.y,
                    max_x: a.rectangle.max.x,
                    max_y: a.rectangle.max.y,
                },
            ),
    )
}

/// Deallocates a live allocation with `etagere::BucketedAtlasAllocator::deallocate`, which
/// asserts that the allocation is live. The buckets of the packer go back to its free list and
/// are never dropped, so the packer does not return to the state it was made in.
#[verifier::external_body]
pub(crate) fn packer_deallocate(p: &mut etagere::BucketedAtlasAllocator, id: u32)
    requires
        packer_allocations(*old(p)).contains_key(id),
    ensures
        packer_allocations(*final(p)) == packer_allocations(*old(p)).remove(id),
        packer_size(*final(p)) == packer_size(*old(p)),
        !packer_fresh(*final(p)),
{
    p.deallocate(etagere::AllocId::deserialize(id))
}

/// Grows the area of a packer to a larger square with `etagere::BucketedAtlasAllocator::grow`,
/// which asserts that the side does not shrink and stays below `u16::MAX` (kept to at most
/// `2^15` as for [`packer_new`]); allocations stay, and a packer that has not allocated yet
/// adds no bucket.
#[verifier::external_body]
pub(crate) fn packer_grow(p: &mut etagere::BucketedAtlasAllocator, side: i32)
    requires
        packer_size(*old(p)).0 <= side,
        packer_size(*old(p)).1 <= side,
        side <= 32768,
    ensures
        packer_allocations(*final(p)) == packer_allocations(*old(p)),
        packer_size(*final(p)) == (side, side),
        packer_fresh(*final(p)) == packer_fresh(*old(p)),
{
    p.grow(etagere::size2(side, side))
}

/// Creates an empty cache that never evicts by itself, with
/// `lru::LruCache::unbounded_with_hasher` and the fixed hasher of `foldhash`.
#[verifier::external_body]
pub(crate) fn cache_new() -> (r: lru::LruCache<u128, CachedGlyph, foldhash::fast::FixedState>)
    ensures
        cache_entries(r) == Seq::<(u128, CachedGlyph)>::empty(),
{
    lru::LruCache::unbounded_with_hasher(foldhash::fast::FixedState::default())
}

/// Tests whether a key is cached with `lru::LruCache::contains`, which leaves the order of the
/// entries as it is.
#[verifier::external_body]
pub(crate) fn cache_contains(c: &lru::LruCache<u128, CachedGlyph, foldhash::fast::FixedState>, key: u128) -> (r: bool)
    ensures
        r == cache_has_key(cache_entries(*c), key),
{
    c.contains(&key)
}

/// Adds an entry for a key that the cache does not hold with `lru::LruCache::put`: it becomes
/// the most recently used entry.
#[verifier::external_body]
pub(crate) fn cache_put(c: &mut lru::LruCache<u128, CachedGlyph, foldhash::fast::FixedState>, key: u128, value: CachedGlyph)
    requires
        !cache_has_key(cache_entries(*old(c)), key),
        cache_entries(*old(c)).len() < usize::MAX,
    ensures
        cache_entries(*final(c)) == cache_entries(*old(c)).push((key, value)),
{
    c.put(key, value);
}

/// Returns the entry of the least recently used key with `lru::LruCache::peek_lru`, which
/// leaves the order of the entries as it is.
#[verifier::external_body]
pub(crate) fn cache_peek_lru(c: &lru::LruCache<u128, CachedGlyph, foldhash::fast::FixedState>) -> (r: Option<(u128, CachedGlyph)>)
    ensures
        r is None <==> cache_entries(*c).len() == 0,
        r matches Some(e) ==> e == cache_entries(*c)[0],
{
    c.peek_lru().map(|(k, v)| (*k, *v))
}

/// Removes the entry of the least recently used key with `lru::LruCache::pop_lru`.
#[verifier::external_body]
pub(crate) fn cache_pop_lru(c: &mut lru::LruCache<u128, CachedGlyph, foldhash::fast::FixedState>) -> (r: Option<(u128, CachedGlyph)>)
    ensures
        r is None <==> cache_entries(*old(c)).len() == 0,
        r is None ==> cache_entries(*final(c)) == cache_entries(*old(c)),
        r matches Some(e) ==> e == cache_entries(*old(c))[0] && cache_entries(*final(c)) == cache_entries(*old(c)).drop_first(),
{
    c.pop_lru()
}

/// Returns the value of a key with `lru::LruCache::get_mut`, which makes the key the most
/// recently used one.
#[verifier::external_body]
pub(crate) fn cache_get_mut(c: &mut lru::LruCache<u128, CachedGlyph, foldhash::fast::FixedState>, key: u128) -> (r: Option<&mut CachedGlyph>)
    requires
        distinct_cache_keys(cache_entries(*old(c))),
    ensures
        r is Some <==> cache_has_key(cache_entries(*old(c)), key),
        r is None ==> cache_entries(*final(c)) == cache_entries(*old(c)),
        r matches Some(v) ==> exists|t: int|
            0 <= t < cache_entries(*old(c)).len() && (#[trigger] cache_entries(*old(c))[t]).0 == key
                && *v == cache_entries(*old(c))[t].1 && cache_entries(*final(c)) == cache_entries(
                *old(c),
            ).remove(t).push((key, *final(v))),
{
    c.get_mut(&key)
}

} // verus!
