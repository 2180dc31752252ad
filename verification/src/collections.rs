//! Hash maps and sets of the `hashbrown` crate, with the `foldhash` fixed hasher, and the
//! topological sort of the `petgraph` crate, behind contracts.
use vstd::prelude::*;

verus! {

/// A `hashbrown` hash map from 128-bit identifiers to positions.
#[verifier::external_body]
pub struct UuidIndexMap {
    map: hashbrown::HashMap<u128, usize, foldhash::fast::FixedState>,
}

/// The entries of a [`UuidIndexMap`].
pub uninterp spec fn uuid_index_entries(m: UuidIndexMap) -> Map<u128, usize>;

/// A `hashbrown` hash map from lists of 128-bit identifiers to positions.
#[verifier::external_body]
pub struct UuidListIndexMap {
    map: hashbrown::HashMap<Vec<u128>, usize, foldhash::fast::FixedState>,
}

/// The entries of a [`UuidListIndexMap`].
pub uninterp spec fn uuid_list_index_entries(m: UuidListIndexMap) -> Map<Seq<u128>, usize>;

/// A `hashbrown` hash set of 128-bit identifiers.
#[verifier::external_body]
pub struct UuidSet {
    set: hashbrown::HashSet<u128, foldhash::fast::FixedState>,
}

/// The elements of a [`UuidSet`].
pub uninterp spec fn uuid_set_elements(s: UuidSet) -> Set<u128>;

impl UuidIndexMap {
    /// Creates an empty map with `hashbrown::HashMap::default`.
    #[verifier::external_body]
    pub(crate) fn new() -> (res: UuidIndexMap)
        ensures
            uuid_index_entries(res).dom() == Set::<u128>::empty(),
    {
        UuidIndexMap { map: hashbrown::HashMap::default() }
    }

    /// Looks a key up with `hashbrown::HashMap::get`, which returns the value stored for the key.
    #[verifier::external_body]
    pub(crate) fn get(&self, key: u128) -> (res: Option<usize>)
        ensures
            res is Some <==> uuid_index_entries(*self).contains_key(key),
            res matches Some(v) ==> v == uuid_index_entries(*self)[key],
    {
        self.map.get(&key).copied()
    }

    /// Stores a value for a key with `hashbrown::HashMap::insert`, which replaces any value
    /// stored for the key before.
    #[verifier::external_body]
    pub(crate) fn insert(&mut self, key: u128, value: usize)
        ensures
            uuid_index_entries(*final(self)) == uuid_index_entries(*old(self)).insert(key, value),
    {
        self.map.insert(key, value);
    }
}

impl UuidListIndexMap {
    /// Creates an empty map with `hashbrown::HashMap::default`.
    #[verifier::external_body]
    pub(crate) fn new() -> (res: UuidListIndexMap)
        ensures
            uuid_list_index_entries(res).dom() == Set::<Seq<u128>>::empty(),
    {
        UuidListIndexMap { map: hashbrown::HashMap::default() }
    }

    /// Looks a key up with `hashbrown::HashMap::get`, which returns the value stored for the key.
    #[verifier::external_body]
    pub(crate) fn get(&self, key: &[u128]) -> (res: Option<usize>)
        ensures
            res is Some <==> uuid_list_index_entries(*self).contains_key(key@),
            res matches Some(v) ==> v == uuid_list_index_entries(*self)[key@],
    {
        self.map.get(key).copied()
    }

    /// Stores a value for a key with `hashbrown::HashMap::insert`, which replaces any value
    /// stored for the key before.
    #[verifier::external_body]
    pub(crate) fn insert(&mut self, key: Vec<u128>, value: usize)
        ensures
            uuid_list_index_entries(*final(self)) == uuid_list_index_entries(*old(self)).insert(
                key@,
                value,
            ),
    {
        self.map.insert(key, value);
    }
}

impl UuidSet {
    /// Creates an empty set with `hashbrown::HashSet::default`.
    #[verifier::external_body]
    pub(crate) fn new() -> (res: UuidSet)
        ensures
            uuid_set_elements(res) == Set::<u128>::empty(),
    {
        UuidSet { set: hashbrown::HashSet::default() }
    }

    /// Adds an element with `hashbrown::HashSet::insert`, which returns whether the element
    /// was absent.
    #[verifier::external_body]
    pub(crate) fn insert(&mut self, value: u128) -> (res: bool)
        ensures
            uuid_set_elements(*final(self)) == uuid_set_elements(*old(self)).insert(value),
            res == !uuid_set_elements(*old(self)).contains(value),
    {
        self.set.insert(value)
    }

    /// Tests membership with `hashbrown::HashSet::contains`.
    #[verifier::external_body]
    pub(crate) fn contains(&self, value: u128) -> (res: bool)
        ensures
            res == uuid_set_elements(*self).contains(value),
    {
        self.set.contains(&value)
    }

    /// Collects the elements with `hashbrown::HashSet::iter`, in the set's iteration order,
    /// which this contract leaves open: each element comes out once.
    #[verifier::external_body]
    pub(crate) fn to_vec(&self) -> (res: Vec<u128>)
        ensures
            res@.to_set() == uuid_set_elements(*self),
            res@.no_duplicates(),
    {
        self.set.iter().copied().collect()
    }
}

/// A `hashbrown` hash map from pairs of a 64-bit and a 128-bit identifier to positions.
#[verifier::external_body]
pub struct PairIndexMap {
    map: hashbrown::HashMap<(u64, u128), usize, foldhash::fast::FixedState>,
}

/// The entries of a [`PairIndexMap`].
pub uninterp spec fn pair_index_entries(m: PairIndexMap) -> Map<(u64, u128), usize>;

impl PairIndexMap {
    /// Creates an empty map with `hashbrown::HashMap::default`.
    #[verifier::external_body]
    pub(crate) fn new() -> (res: PairIndexMap)
        ensures
            pair_index_entries(res).dom() == Set::<(u64, u128)>::empty(),
    {
        PairIndexMap { map: hashbrown::HashMap::default() }
    }

    /// Looks a key up with `hashbrown::HashMap::get`, which returns the value stored for the key.
    #[verifier::external_body]
    pub(crate) fn get(&self, key: (u64, u128)) -> (res: Option<usize>)
        ensures
            res is Some <==> pair_index_entries(*self).contains_key(key),
            res matches Some(v) ==> v == pair_index_entries(*self)[key],
    {
        self.map.get(&key).copied()
    }

    /// Stores a value for a key with `hashbrown::HashMap::insert`, which replaces any value
    /// stored for the key before.
    #[verifier::external_body]
    pub(crate) fn insert(&mut self, key: (u64, u128), value: usize)
        ensures
            pair_index_entries(*final(self)) == pair_index_entries(*old(self)).insert(key, value),
    {
        self.map.insert(key, value);
    }
}

/// A `hashbrown` hash map from 128-bit identifiers to lists of node indices.
#[verifier::external_body]
pub struct UuidMultiMap {
    map: hashbrown::HashMap<u128, Vec<u32>, foldhash::fast::FixedState>,
}

/// The entries of a [`UuidMultiMap`].
pub uninterp spec fn uuid_multi_entries(m: UuidMultiMap) -> Map<u128, Seq<u32>>;

impl UuidMultiMap {
    /// Creates an empty map with `hashbrown::HashMap::default`.
    #[verifier::external_body]
    pub(crate) fn new() -> (res: UuidMultiMap)
        ensures
            uuid_multi_entries(res).dom() == Set::<u128>::empty(),
    {
        UuidMultiMap { map: hashbrown::HashMap::default() }
    }

    /// Appends a value to the list of a key with `hashbrown::HashMap::entry`, `or_default` and
    /// `Vec::push`: a key without a list gets an empty one first.
    #[verifier::external_body]
    pub(crate) fn push(&mut self, key: u128, value: u32)
        ensures
            uuid_multi_entries(*final(self)) == uuid_multi_entries(*old(self)).insert(
                key,
                (if uuid_multi_entries(*old(self)).contains_key(key) {
                    uuid_multi_entries(*old(self))[key]
                } else {
                    Seq::<u32>::empty()
                }).push(value),
            ),
    {
        self.map.entry(key).or_default().push(value);
    }

    /// Returns a copy of the list of a key with `hashbrown::HashMap::get`, or an empty list
    /// when the key has none.
    #[verifier::external_body]
    pub(crate) fn get(&self, key: u128) -> (res: Vec<u32>)
        ensures
            res@ == if uuid_multi_entries(*self).contains_key(key) {
                uuid_multi_entries(*self)[key]
            } else {
                Seq::<u32>::empty()
            },
    {
        self.map.get(&key).cloned().unwrap_or_default()
    }
}

/// Whether `order` lists each of the nodes `0..node_count` once, each source of an edge before
/// its target.
pub open spec fn is_topological_order(node_count: nat, edges: Seq<(u32, u32)>, order: Seq<u32>) -> bool {
    &&& order.len() == node_count
    &&& order.no_duplicates()
    &&& forall|k: int| 0 <= k < order.len() ==> #[trigger] order[k] < node_count
    &&& forall|e: int, a: int, b: int|
        #![trigger edges[e], order[a], order[b]]
        0 <= e < edges.len() && 0 <= a < order.len() && 0 <= b < order.len() && order[a]
            == edges[e].0 && order[b] == edges[e].1 ==> a < b
}

/// The order that `petgraph::algo::toposort` gives the nodes `0..node_count` of a graph with
/// the given edges.
pub uninterp spec fn toposort_order(node_count: usize, edges: Seq<(u32, u32)>) -> Option<Seq<u32>>;

/// Sorts the nodes `0..node_count` of a directed graph topologically with
/// `petgraph::algo::toposort`. Its documentation promises a topological order of all nodes
/// when the graph is acyclic, and a cycle error otherwise, a graph having a topological order
/// exactly when it is acyclic. Which order is given among the valid ones is left to the name
/// [`toposort_order`]. The graph that it is built into asserts that its node and edge indices
/// stay below `u32::MAX`, hence the bounds on both counts.
#[verifier::external_body]
pub(crate) fn toposort(node_count: usize, edges: &Vec<(u32, u32)>) -> (res: Option<Vec<u32>>)
    requires
        node_count <= u32::MAX,
        edges@.len() <= u32::MAX,
        forall|e: int|
            0 <= e < edges@.len() ==> #[trigger] edges@[e].0 < node_count && edges@[e].1
                < node_count,
    ensures
        res matches Some(order) ==> is_topological_order(node_count as nat, edges@, order@),
        res is None ==> forall|order: Seq<u32>|
            !#[trigger] is_topological_order(node_count as nat, edges@, order),
        res matches Some(order) ==> toposort_order(node_count, edges@) == Some(order@),
        res is None ==> toposort_order(node_count, edges@) is None,
{
    let mut graph = petgraph::Graph::<(), ()>::with_capacity(node_count, edges.len());
    for _ in 0..node_count {
        graph.add_node(());
    }
    graph.extend_with_edges(edges.iter().copied());
    petgraph::algo::toposort(&graph, None)
        .ok()
        .map(|order| order.into_iter().map(|n| n.index() as u32).collect())
}

} // verus!
