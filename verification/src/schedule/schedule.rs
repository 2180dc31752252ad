//! A schedule: systems that run in an order respecting their constraints.
use vstd::prelude::*;
use crate::collections::{
    UuidMultiMap, UuidSet, is_topological_order, toposort, uuid_multi_entries, uuid_set_elements,
};
use crate::schedule::system_config::{SystemConfig, runs_before};

verus! {

/// Whether `order` runs each of the systems configured by `configs` once, each system before
/// the systems that it must run before.
pub open spec fn is_run_order(configs: Seq<SystemConfig>, order: Seq<usize>) -> bool {
    &&& order.len() == configs.len()
    &&& order.no_duplicates()
    &&& forall|k: int| 0 <= k < order.len() ==> #[trigger] order[k] < configs.len()
    &&& forall|a: int, b: int|
        0 <= a < order.len() && 0 <= b < order.len() && runs_before(
            configs[#[trigger] order[a] as int],
            configs[#[trigger] order[b] as int],
        ) ==> a < b
}

/// Whether the systems configured by `configs` can be run in an order that respects their
/// constraints: the constraints have no cycle.
pub open spec fn schedulable(configs: Seq<SystemConfig>) -> bool {
    exists|order: Seq<usize>| is_run_order(configs, order)
}

/// Whether `edges` is the constraint graph of the systems configured by `configs`: an edge
/// from each system to each system that it must run before, and no other edge.
pub open spec fn is_constraint_graph(configs: Seq<SystemConfig>, edges: Seq<(u32, u32)>) -> bool {
    &&& forall|e: int|
        0 <= e < edges.len() ==> (#[trigger] edges[e]).0 < configs.len() && edges[e].1 < configs.len()
            && runs_before(configs[edges[e].0 as int], configs[edges[e].1 as int])
    &&& forall|x: int, y: int|
        0 <= x < configs.len() && 0 <= y < configs.len() && runs_before(
            #[trigger] configs[x],
            #[trigger] configs[y],
        ) ==> edges.contains((x as u32, y as u32))
}

/// The pairs of positions `(x, y)` of systems such that the system at `x` must run before the
/// system at `y`: the edges of the constraint graph.
pub open spec fn constraint_pairs(configs: Seq<SystemConfig>) -> Set<(u32, u32)> {
    Set::new(
        |p: (u32, u32)|
            p.0 < configs.len() && p.1 < configs.len() && runs_before(
                configs[p.0 as int],
                configs[p.1 as int],
            ),
    )
}

/// The key under which an edge is recorded in the set of edges already added.
spec fn edge_key(edge: (u32, u32)) -> u128 {
    (edge.0 as int * 0x1_0000_0000 + edge.1 as int) as u128
}

/// Distinct edges have distinct keys.
proof fn lemma_edge_key_injective(a: (u32, u32), b: (u32, u32))
    ensures
        edge_key(a) == edge_key(b) ==> a == b,
{
}

/// Whether `seen` holds exactly the keys of `edges`, which are distinct.
spec fn records_edges(seen: Set<u128>, edges: Seq<(u32, u32)>) -> bool {
    &&& edges.no_duplicates()
    &&& forall|e: int| 0 <= e < edges.len() ==> seen.contains(edge_key(#[trigger] edges[e]))
    &&& forall|k: u128| #[trigger] seen.contains(k) ==> exists|e: int| 0 <= e < edges.len() && edge_key(edges[e]) == k
}

/// Adds the edge `(x, y)` to `edges` unless it is there already.
fn add_edge(edges: &mut Vec<(u32, u32)>, seen: &mut UuidSet, x: u32, y: u32)
    requires
        records_edges(uuid_set_elements(*old(seen)), old(edges)@),
    ensures
        records_edges(uuid_set_elements(*final(seen)), final(edges)@),
        final(edges)@ == (if old(edges)@.contains((x, y)) {
            old(edges)@
        } else {
            old(edges)@.push((x, y))
        }),
        final(edges)@.contains((x, y)),
{
    let key = (x as u128) * 0x1_0000_0000u128 + (y as u128);
    let ghost e0 = edges@;
    let ghost s0 = uuid_set_elements(*seen);
    assert(key == edge_key((x, y)));
    if seen.insert(key) {
        proof {
            if e0.contains((x, y)) {
                let e = choose|e: int| 0 <= e < e0.len() && e0[e] == (x, y);
                assert(s0.contains(edge_key(e0[e])));
            }
        }
        edges.push((x, y));
        proof {
            let e1 = edges@;
            assert(e1[e0.len() as int] == (x, y));
            assert forall|a: int, b: int| 0 <= a < e1.len() && 0 <= b < e1.len() && a != b implies e1[a] != e1[b] by {
                if a == e0.len() && b < e0.len() {
                    assert(s0.contains(edge_key(e0[b])));
                } else if b == e0.len() && a < e0.len() {
                    assert(s0.contains(edge_key(e0[a])));
                }
            }
            assert forall|k: u128| #[trigger] uuid_set_elements(*seen).contains(k) implies exists|e: int|
                0 <= e < e1.len() && edge_key(e1[e]) == k by {
                if k == key {
                    assert(edge_key(e1[e0.len() as int]) == k);
                } else {
                    let e = choose|e: int| 0 <= e < e0.len() && edge_key(e0[e]) == k;
                    assert(e1[e] == e0[e]);
                }
            }
        }
    } else {
        proof {
            let e = choose|e: int| 0 <= e < e0.len() && edge_key(e0[e]) == key;
            lemma_edge_key_injective(e0[e], (x, y));
            assert(e0.contains((x, y)));
        }
    }
}

/// A constraint graph without repeated edge has one edge for each constraint pair.
proof fn lemma_constraint_edge_count(configs: Seq<SystemConfig>, edges: Seq<(u32, u32)>)
    requires
        is_constraint_graph(configs, edges),
        edges.no_duplicates(),
    ensures
        edges.len() == constraint_pairs(configs).len(),
        constraint_pairs(configs).finite(),
{
    assert forall|p: (u32, u32)| #[trigger] constraint_pairs(configs).contains(p) implies edges.to_set().contains(p) by {
        assert(runs_before(configs[p.0 as int], configs[p.1 as int]));
        assert(edges.contains((p.0 as int as u32, p.1 as int as u32)));
    }
    assert(edges.to_set() =~= constraint_pairs(configs));
    edges.unique_seq_to_set();
}

/// Systems without tags or constraints have no constraint pair.
pub proof fn lemma_unconstrained_no_pairs(configs: Seq<SystemConfig>)
    requires
        unconstrained(configs),
    ensures
        constraint_pairs(configs) == Set::<(u32, u32)>::empty(),
{
    assert forall|p: (u32, u32)| !#[trigger] constraint_pairs(configs).contains(p) by {
        if constraint_pairs(configs).contains(p) {
            let a = configs[p.0 as int];
            let b = configs[p.1 as int];
            let t = choose|t: u128|
                #![trigger a.before_set().contains(t)]
                #![trigger b.after_set().contains(t)]
                (a.before_set().contains(t) && b.tag_set().contains(t)) || (b.after_set().contains(t)
                    && a.tag_set().contains(t));
            assert(a.tag_set() == Set::<u128>::empty());
            assert(b.tag_set() == Set::<u128>::empty());
        }
    }
    assert(constraint_pairs(configs) =~= Set::<(u32, u32)>::empty());
}

/// The configurations of a list of systems.
spec fn node_configs<S>(systems: Seq<ScheduleNode<S>>) -> Seq<SystemConfig> {
    systems.map_values(|n: ScheduleNode<S>| n.config)
}

/// A list that extends another keeps its elements.
proof fn lemma_prefix_contains<T>(a: Seq<T>, b: Seq<T>, x: T)
    requires
        a.len() <= b.len(),
        forall|w: int| 0 <= w < a.len() ==> #[trigger] b[w] == a[w],
        a.contains(x),
    ensures
        b.contains(x),
{
    let w = choose|w: int| 0 <= w < a.len() && a[w] == x;
    assert(b[w] == x);
}

/// Whether no system of the configurations has a tag or a constraint.
pub open spec fn unconstrained(configs: Seq<SystemConfig>) -> bool {
    forall|k: int|
        0 <= k < configs.len() ==> (#[trigger] configs[k]).tag_set() == Set::<u128>::empty()
            && configs[k].before_set() == Set::<u128>::empty() && configs[k].after_set() == Set::<
            u128,
        >::empty()
}

/// Systems without tags or constraints can run in any order, so they are schedulable.
pub proof fn lemma_unconstrained_schedulable(configs: Seq<SystemConfig>)
    requires
        unconstrained(configs),
        configs.len() <= u32::MAX,
    ensures
        schedulable(configs),
{
    let order = Seq::new(configs.len(), |i: int| i as usize);
    assert forall|a: int, b: int|
        0 <= a < order.len() && 0 <= b < order.len() && runs_before(
            configs[#[trigger] order[a] as int],
            configs[#[trigger] order[b] as int],
        ) implies a < b by {
        let t = choose|t: u128|
            #![trigger configs[order[a] as int].before_set().contains(t)]
            #![trigger configs[order[b] as int].after_set().contains(t)]
            (configs[order[a] as int].before_set().contains(t) && configs[order[b] as int].tag_set().contains(t))
                || (configs[order[b] as int].after_set().contains(t) && configs[order[a] as int].tag_set().contains(t));
        assert(configs[order[a] as int].tag_set() == Set::<u128>::empty());
        assert(configs[order[b] as int].tag_set() == Set::<u128>::empty());
    }
    assert(is_run_order(configs, order));
}

/// Systems without tags or constraints have no constraint edge.
proof fn lemma_unconstrained_no_edges(configs: Seq<SystemConfig>, edges: Seq<(u32, u32)>)
    requires
        unconstrained(configs),
        is_constraint_graph(configs, edges),
    ensures
        edges.len() == 0,
{
    if edges.len() > 0 {
        let a = configs[edges[0].0 as int];
        let b = configs[edges[0].1 as int];
        assert(runs_before(a, b));
        let t = choose|t: u128|
            #![trigger a.before_set().contains(t)]
            #![trigger b.after_set().contains(t)]
            (a.before_set().contains(t) && b.tag_set().contains(t)) || (b.after_set().contains(t)
                && a.tag_set().contains(t));
        assert(a.tag_set() == Set::<u128>::empty());
        assert(b.tag_set() == Set::<u128>::empty());
    }
}


/// A system that a schedule runs on an input of type `I` and an application state of type
/// `A`, then lets apply what it deferred. Each implementation says, by its two step relations,
/// what a call can do; the calls promise to stay within them.
pub trait ScheduleSystem<I, A>: Sized {
    /// Whether running the system can take it from `self` to `after`, the input from `input`
    /// to `input_after` and the state from `app` to `app_after`.
    spec fn run_step(self, input: I, app: A, after: Self, input_after: I, app_after: A) -> bool;

    /// Whether applying what the system deferred can take it from `self` to `after` and the
    /// state from `app` to `app_after`.
    spec fn apply_step(self, app: A, after: Self, app_after: A) -> bool;

    /// Runs the system; the input is shared by the systems of a run, which may change it.
    fn run(&mut self, input: &mut I, app: &mut A)
        ensures
            Self::run_step(*old(self), *old(input), *old(app), *final(self), *final(input), *final(app)),
    ;

    /// Applies the changes that the system deferred while it ran.
    fn apply_deferred(&mut self, app: &mut A)
        ensures
            Self::apply_step(*old(self), *old(app), *final(self), *final(app)),
    ;
}

/// Whether the systems ran in `order` and then applied what they deferred in the same order:
/// `before` are the systems at the start, `mid` once they all ran and `after` at the end;
/// `inputs` are the successive inputs of the runs, and `apps` the successive states, through
/// the runs and then through the applications.
pub open spec fn runs_in_order<I, A, S: ScheduleSystem<I, A>>(
    order: Seq<usize>,
    before: Seq<S>,
    mid: Seq<S>,
    after: Seq<S>,
    inputs: Seq<I>,
    apps: Seq<A>,
) -> bool {
    let n = order.len() as int;
    &&& inputs.len() == n + 1
    &&& apps.len() == 2 * n + 1
    &&& forall|k: int|
        #![trigger order[k]]
        0 <= k < n ==> S::run_step(
            before[order[k] as int],
            inputs[k],
            apps[k],
            mid[order[k] as int],
            inputs[k + 1],
            apps[k + 1],
        )
    &&& forall|k: int|
        #![trigger order[k]]
        0 <= k < n ==> S::apply_step(mid[order[k] as int], apps[n + k], after[order[k] as int], apps[n + k + 1])
}

/// What [`Schedule::run`] does when the order of the schedule is up to date afterwards: every
/// system runs once, in that order, which respects the constraints, on the input and the
/// state as the previous system left them, from `input`/`app` to `input_after`/`app_after`;
/// then every system applies what it deferred, in the same order.
pub open spec fn schedule_ran<I, A, S: ScheduleSystem<I, A>>(
    before: Schedule<S>,
    after: Schedule<S>,
    input: I,
    input_after: I,
    app: A,
    app_after: A,
) -> bool {
    &&& after.wf()
    &&& after.is_built()
    &&& after.configs() == before.configs()
    &&& after.systems().len() == before.systems().len()
    &&& before.is_built() ==> after.run_order() == before.run_order()
    &&& exists|mid: Seq<S>, inputs: Seq<I>, apps: Seq<A>|
        #[trigger] runs_in_order(after.run_order(), before.systems(), mid, after.systems(), inputs, apps)
            && inputs[0] == input && inputs.last() == input_after && apps[0] == app && apps.last() == app_after
}

/// A system of a schedule with its configuration.
struct ScheduleNode<S> {
    /// The system itself.
    system: S,
    /// The configuration of the system.
    config: SystemConfig,
}

/// A directed acyclic graph of systems to run.
pub struct Schedule<S> {
    /// The systems that have been inserted so far.
    systems: Vec<ScheduleNode<S>>,
    /// The order in which the systems run, by position.
    order: Vec<usize>,
    /// Whether the order needs to be computed again.
    needs_rebuild: bool,
}

/// A topological order of the constraint graph is a run order, and the graph has one whenever
/// the systems are schedulable.
proof fn lemma_topological_run_order(configs: Seq<SystemConfig>, edges: Seq<(u32, u32)>, order: Seq<u32>)
    requires
        is_constraint_graph(configs, edges),
        configs.len() <= u32::MAX,
    ensures
        is_topological_order(configs.len(), edges, order) ==> is_run_order(
            configs,
            order.map_values(|x: u32| x as usize),
        ),
        schedulable(configs) ==> exists|o: Seq<u32>| is_topological_order(configs.len(), edges, o),
{
    let n = configs.len();
    let p = order.map_values(|x: u32| x as usize);
    if is_topological_order(n, edges, order) {
        assert(p.no_duplicates()) by {
            assert forall|a: int, b: int| 0 <= a < p.len() && 0 <= b < p.len() && a != b implies p[a] != p[b] by {
                assert(order[a] != order[b]);
            }
        }
        assert forall|a: int, b: int|
            0 <= a < p.len() && 0 <= b < p.len() && runs_before(
                configs[#[trigger] p[a] as int],
                configs[#[trigger] p[b] as int],
            ) implies a < b by {
            assert(edges.contains((p[a] as u32, p[b] as u32)));
            let e = choose|e: int| 0 <= e < edges.len() && edges[e] == (p[a] as u32, p[b] as u32);
            assert(order[a] == edges[e].0 && order[b] == edges[e].1);
        }
    }
    if schedulable(configs) {
        let r = choose|r: Seq<usize>| is_run_order(configs, r);
        let o = r.map_values(|x: usize| x as u32);
        assert(o.no_duplicates()) by {
            assert forall|a: int, b: int| 0 <= a < o.len() && 0 <= b < o.len() && a != b implies o[a] != o[b] by {
                assert(r[a] != r[b]);
                assert(r[a] < n && r[b] < n);
            }
        }
        assert forall|e: int, a: int, b: int|
            #![trigger edges[e], o[a], o[b]]
            0 <= e < edges.len() && 0 <= a < o.len() && 0 <= b < o.len() && o[a] == edges[e].0 && o[b]
                == edges[e].1 implies a < b by {
            assert(r[a] < n && r[b] < n);
            assert(r[a] as int == edges[e].0 as int);
            assert(r[b] as int == edges[e].1 as int);
            assert(runs_before(configs[r[a] as int], configs[r[b] as int]));
        }
        assert(is_topological_order(n, edges, o));
    }
}

/// Builds the map from each tag to the positions of the systems that have it.
fn build_tag_map<S>(systems: &Vec<ScheduleNode<S>>) -> (r: UuidMultiMap)
    requires
        systems@.len() <= u32::MAX,
    ensures
        forall|t: u128, x: u32|
            uuid_multi_entries(r).contains_key(t) && #[trigger] uuid_multi_entries(r)[t].contains(x)
                ==> x < systems@.len() && systems@[x as int].config.tag_set().contains(t),
        forall|t: u128, j: int|
            0 <= j < systems@.len() && #[trigger] systems@[j].config.tag_set().contains(t)
                ==> uuid_multi_entries(r).contains_key(t) && uuid_multi_entries(r)[t].contains(j as u32),
{
    let mut map = UuidMultiMap::new();
    let n = systems.len();
    let mut i: usize = 0;
    while i < n
        invariant
            n == systems@.len(),
            n <= u32::MAX,
            i <= n,
            forall|t: u128, x: u32|
                uuid_multi_entries(map).contains_key(t) && #[trigger] uuid_multi_entries(map)[t].contains(x)
                    ==> x < n && systems@[x as int].config.tag_set().contains(t),
            forall|t: u128, j: int|
                0 <= j < i && #[trigger] systems@[j].config.tag_set().contains(t)
                    ==> uuid_multi_entries(map).contains_key(t) && uuid_multi_entries(map)[t].contains(j as u32),
        decreases n - i,
    {
        let tags = systems[i].config.tags.to_vec();
        let mut k: usize = 0;
        while k < tags.len()
            invariant
                n == systems@.len(),
                n <= u32::MAX,
                i < n,
                k <= tags@.len(),
                tags@.to_set() == systems@[i as int].config.tag_set(),
                forall|t: u128, x: u32|
                    uuid_multi_entries(map).contains_key(t) && #[trigger] uuid_multi_entries(map)[t].contains(x)
                        ==> x < n && systems@[x as int].config.tag_set().contains(t),
                forall|t: u128, j: int|
                    0 <= j < i && #[trigger] systems@[j].config.tag_set().contains(t)
                        ==> uuid_multi_entries(map).contains_key(t) && uuid_multi_entries(map)[t].contains(j as u32),
                forall|q: int|
                    0 <= q < k ==> uuid_multi_entries(map).contains_key(#[trigger] tags@[q])
                        && uuid_multi_entries(map)[tags@[q]].contains(i as u32),
            decreases tags@.len() - k,
        {
            let t = tags[k];
            let ghost before = uuid_multi_entries(map);
            proof {
                assert(tags@.to_set().contains(t));
            }
            map.push(t, i as u32);
            proof {
                let after = uuid_multi_entries(map);
                let old_list = if before.contains_key(t) { before[t] } else { Seq::<u32>::empty() };
                assert(after[t] == old_list.push(i as u32));
                assert(after[t][old_list.len() as int] == i as u32);
                assert forall|u: u128, x: u32| after.contains_key(u) && #[trigger] after[u].contains(x)
                    implies x < n && systems@[x as int].config.tag_set().contains(u) by {
                    if u == t && x != i as u32 {
                        let w = choose|w: int| 0 <= w < after[u].len() && after[u][w] == x;
                        assert(old_list[w] == x);
                        assert(before[u].contains(x));
                    } else if u == t {
                        assert(systems@[i as int].config.tag_set().contains(t));
                    } else {
                        assert(after[u] == before[u]);
                    }
                }
                assert forall|u: u128, j: int|
                    0 <= j < i && #[trigger] systems@[j].config.tag_set().contains(u) implies after.contains_key(u)
                        && after[u].contains(j as u32) by {
                    if u == t {
                        let w = choose|w: int| 0 <= w < before[u].len() && before[u][w] == j as u32;
                        assert(after[u][w] == j as u32);
                    }
                }
                assert forall|q: int| 0 <= q < k + 1 implies after.contains_key(#[trigger] tags@[q])
                    && after[tags@[q]].contains(i as u32) by {
                    if tags@[q] != t {
                        let w = choose|w: int| 0 <= w < before[tags@[q]].len() && before[tags@[q]][w] == i as u32;
                        assert(after[tags@[q]][w] == i as u32);
                    }
                }
            }
            k = k + 1;
        }
        proof {
            assert forall|t: u128, j: int|
                0 <= j < i + 1 && #[trigger] systems@[j].config.tag_set().contains(t)
                implies uuid_multi_entries(map).contains_key(t) && uuid_multi_entries(map)[t].contains(j as u32) by {
                if j == i {
                    assert(tags@.to_set().contains(t));
                    let q = choose|q: int| 0 <= q < tags@.len() && tags@[q] == t;
                }
            }
        }
        i = i + 1;
    }
    map
}

/// Builds the constraint graph of the systems: an edge from each system to each system that it
/// must run before.
fn build_edges<S>(systems: &Vec<ScheduleNode<S>>, map: &UuidMultiMap) -> (r: Vec<(u32, u32)>)
    requires
        systems@.len() <= u32::MAX,
        forall|t: u128, x: u32|
            uuid_multi_entries(*map).contains_key(t) && #[trigger] uuid_multi_entries(*map)[t].contains(x)
                ==> x < systems@.len() && systems@[x as int].config.tag_set().contains(t),
        forall|t: u128, j: int|
            0 <= j < systems@.len() && #[trigger] systems@[j].config.tag_set().contains(t)
                ==> uuid_multi_entries(*map).contains_key(t) && uuid_multi_entries(*map)[t].contains(j as u32),
    ensures
        is_constraint_graph(node_configs(systems@), r@),
        r@.no_duplicates(),
{
    let ghost configs = node_configs(systems@);
    let ghost entries = uuid_multi_entries(*map);
    let n = systems.len();
    let mut edges: Vec<(u32, u32)> = Vec::new();
    let mut seen = UuidSet::new();
    let mut i: usize = 0;
    while i < n
        invariant
            n == systems@.len(),
            n <= u32::MAX,
            i <= n,
            configs == node_configs(systems@),
            entries == uuid_multi_entries(*map),
            records_edges(uuid_set_elements(seen), edges@),
            forall|t: u128, x: u32|
                entries.contains_key(t) && #[trigger] entries[t].contains(x)
                    ==> x < n && systems@[x as int].config.tag_set().contains(t),
            forall|t: u128, j: int|
                0 <= j < n && #[trigger] systems@[j].config.tag_set().contains(t)
                    ==> entries.contains_key(t) && entries[t].contains(j as u32),
            forall|e: int|
                0 <= e < edges@.len() ==> (#[trigger] edges@[e]).0 < n && edges@[e].1 < n
                    && runs_before(configs[edges@[e].0 as int], configs[edges@[e].1 as int]),
            forall|x: int, y: int, t: u128|
                0 <= x < i && 0 <= y < n && #[trigger] configs[x].before_set().contains(t)
                    && #[trigger] configs[y].tag_set().contains(t) ==> edges@.contains((x as u32, y as u32)),
            forall|x: int, y: int, t: u128|
                0 <= x < n && 0 <= y < i && #[trigger] configs[y].after_set().contains(t)
                    && #[trigger] configs[x].tag_set().contains(t) ==> edges@.contains((x as u32, y as u32)),
        decreases n - i,
    {
        let ghost e0 = edges@;
        let before_tags = systems[i].config.run_before.to_vec();
        let mut k: usize = 0;
        while k < before_tags.len()
            invariant
                n == systems@.len(),
                n <= u32::MAX,
                i < n,
                configs == node_configs(systems@),
                entries == uuid_multi_entries(*map),
                records_edges(uuid_set_elements(seen), edges@),
                k <= before_tags@.len(),
                before_tags@.to_set() == configs[i as int].before_set(),
                forall|t: u128, x: u32|
                    entries.contains_key(t) && #[trigger] entries[t].contains(x)
                        ==> x < n && systems@[x as int].config.tag_set().contains(t),
                forall|t: u128, j: int|
                    0 <= j < n && #[trigger] systems@[j].config.tag_set().contains(t)
                        ==> entries.contains_key(t) && entries[t].contains(j as u32),
                e0.len() <= edges@.len(),
                forall|w: int| 0 <= w < e0.len() ==> #[trigger] edges@[w] == e0[w],
                forall|e: int|
                    0 <= e < edges@.len() ==> (#[trigger] edges@[e]).0 < n && edges@[e].1 < n
                        && runs_before(configs[edges@[e].0 as int], configs[edges@[e].1 as int]),
                forall|q: int, y: int|
                    0 <= q < k && 0 <= y < n && #[trigger] configs[y].tag_set().contains(#[trigger] before_tags@[q])
                        ==> edges@.contains((i as u32, y as u32)),
            decreases before_tags@.len() - k,
        {
            let t = before_tags[k];
            let targets = map.get(t);
            let ghost e1 = edges@;
            proof {
                assert(before_tags@.to_set().contains(t));
            }
            let mut q: usize = 0;
            while q < targets.len()
                invariant
                    n == systems@.len(),
                    n <= u32::MAX,
                    i < n,
                    configs == node_configs(systems@),
                    configs[i as int].before_set().contains(t),
                    targets@ == (if entries.contains_key(t) { entries[t] } else { Seq::<u32>::empty() }),
                    forall|u: u128, x: u32|
                        entries.contains_key(u) && #[trigger] entries[u].contains(x)
                            ==> x < n && systems@[x as int].config.tag_set().contains(u),
                    q <= targets@.len(),
                    e1.len() <= edges@.len(),
                    records_edges(uuid_set_elements(seen), edges@),
                    forall|w: int| 0 <= w < e1.len() ==> #[trigger] edges@[w] == e1[w],
                    forall|e: int|
                        0 <= e < edges@.len() ==> (#[trigger] edges@[e]).0 < n && edges@[e].1 < n
                            && runs_before(configs[edges@[e].0 as int], configs[edges@[e].1 as int]),
                    forall|p: int| 0 <= p < q ==> edges@.contains((i as u32, #[trigger] targets@[p])),
                decreases targets@.len() - q,
            {
                let j = targets[q];
                proof {
                    assert(entries[t].contains(j)) by {
                        assert(entries[t][q as int] == j);
                    }
                    assert(systems@[j as int].config.tag_set().contains(t));
                    assert(configs[j as int] == systems@[j as int].config);
                    assert(configs[j as int].tag_set().contains(t));
                    assert(runs_before(configs[i as int], configs[j as int]));
                }
                let ghost e2 = edges@;
                add_edge(&mut edges, &mut seen, i as u32, j);
                proof {
                    assert forall|p: int| 0 <= p < q + 1 implies edges@.contains((i as u32, #[trigger] targets@[p])) by {
                        if p < q {
                            lemma_prefix_contains(e2, edges@, (i as u32, targets@[p]));
                        } else {
                            assert(edges@.contains((i as u32, j)));
                        }
                    }
                }
                q = q + 1;
            }
            proof {
                assert forall|qq: int, y: int|
                    0 <= qq < k + 1 && 0 <= y < n && #[trigger] configs[y].tag_set().contains(#[trigger] before_tags@[qq])
                    implies edges@.contains((i as u32, y as u32)) by {
                    if qq < k {
                        lemma_prefix_contains(e1, edges@, (i as u32, y as u32));
                    } else {
                        assert(configs[y] == systems@[y].config);
                        assert(entries[t].contains(y as u32));
                        let p = choose|p: int| 0 <= p < entries[t].len() && entries[t][p] == y as u32;
                        assert(targets@[p] == y as u32);
                    }
                }
            }
            k = k + 1;
        }
        let ghost e3 = edges@;
        let after_tags = systems[i].config.run_after.to_vec();
        let mut k: usize = 0;
        while k < after_tags.len()
            invariant
                n == systems@.len(),
                n <= u32::MAX,
                i < n,
                configs == node_configs(systems@),
                entries == uuid_multi_entries(*map),
                records_edges(uuid_set_elements(seen), edges@),
                k <= after_tags@.len(),
                after_tags@.to_set() == configs[i as int].after_set(),
                forall|t: u128, x: u32|
                    entries.contains_key(t) && #[trigger] entries[t].contains(x)
                        ==> x < n && systems@[x as int].config.tag_set().contains(t),
                forall|t: u128, j: int|
                    0 <= j < n && #[trigger] systems@[j].config.tag_set().contains(t)
                        ==> entries.contains_key(t) && entries[t].contains(j as u32),
                e3.len() <= edges@.len(),
                forall|w: int| 0 <= w < e3.len() ==> #[trigger] edges@[w] == e3[w],
                forall|e: int|
                    0 <= e < edges@.len() ==> (#[trigger] edges@[e]).0 < n && edges@[e].1 < n
                        && runs_before(configs[edges@[e].0 as int], configs[edges@[e].1 as int]),
                forall|q: int, x: int|
                    0 <= q < k && 0 <= x < n && #[trigger] configs[x].tag_set().contains(#[trigger] after_tags@[q])
                        ==> edges@.contains((x as u32, i as u32)),
            decreases after_tags@.len() - k,
        {
            let t = after_tags[k];
            let sources = map.get(t);
            let ghost e1 = edges@;
            proof {
                assert(after_tags@.to_set().contains(t));
            }
            let mut q: usize = 0;
            while q < sources.len()
                invariant
                    n == systems@.len(),
                    n <= u32::MAX,
                    i < n,
                    configs == node_configs(systems@),
                    configs[i as int].after_set().contains(t),
                    sources@ == (if entries.contains_key(t) { entries[t] } else { Seq::<u32>::empty() }),
                    forall|u: u128, x: u32|
                        entries.contains_key(u) && #[trigger] entries[u].contains(x)
                            ==> x < n && systems@[x as int].config.tag_set().contains(u),
                    q <= sources@.len(),
                    e1.len() <= edges@.len(),
                    records_edges(uuid_set_elements(seen), edges@),
                    forall|w: int| 0 <= w < e1.len() ==> #[trigger] edges@[w] == e1[w],
                    forall|e: int|
                        0 <= e < edges@.len() ==> (#[trigger] edges@[e]).0 < n && edges@[e].1 < n
                            && runs_before(configs[edges@[e].0 as int], configs[edges@[e].1 as int]),
                    forall|p: int| 0 <= p < q ==> edges@.contains((#[trigger] sources@[p], i as u32)),
                decreases sources@.len() - q,
            {
                let j = sources[q];
                proof {
                    assert(entries[t].contains(j)) by {
                        assert(entries[t][q as int] == j);
                    }
                    assert(systems@[j as int].config.tag_set().contains(t));
                    assert(configs[j as int] == systems@[j as int].config);
                    assert(configs[j as int].tag_set().contains(t));
                    assert(runs_before(configs[j as int], configs[i as int]));
                }
                let ghost e2 = edges@;
                add_edge(&mut edges, &mut seen, j, i as u32);
                proof {
                    assert forall|p: int| 0 <= p < q + 1 implies edges@.contains((#[trigger] sources@[p], i as u32)) by {
                        if p < q {
                            lemma_prefix_contains(e2, edges@, (sources@[p], i as u32));
                        } else {
                            assert(edges@.contains((j, i as u32)));
                        }
                    }
                }
                q = q + 1;
            }
            proof {
                assert forall|qq: int, x: int|
                    0 <= qq < k + 1 && 0 <= x < n && #[trigger] configs[x].tag_set().contains(#[trigger] after_tags@[qq])
                    implies edges@.contains((x as u32, i as u32)) by {
                    if qq < k {
                        lemma_prefix_contains(e1, edges@, (x as u32, i as u32));
                    } else {
                        assert(configs[x] == systems@[x].config);
                        assert(entries[t].contains(x as u32));
                        let p = choose|p: int| 0 <= p < entries[t].len() && entries[t][p] == x as u32;
                        assert(sources@[p] == x as u32);
                    }
                }
            }
            k = k + 1;
        }
        proof {
            assert forall|x: int, y: int, t: u128|
                0 <= x < i + 1 && 0 <= y < n && #[trigger] configs[x].before_set().contains(t)
                    && #[trigger] configs[y].tag_set().contains(t) implies edges@.contains((x as u32, y as u32)) by {
                if x < i {
                    lemma_prefix_contains(e0, e3, (x as u32, y as u32));
                    lemma_prefix_contains(e3, edges@, (x as u32, y as u32));
                } else {
                    assert(before_tags@.to_set().contains(t));
                    let qq = choose|qq: int| 0 <= qq < before_tags@.len() && before_tags@[qq] == t;
                    assert(configs[y].tag_set().contains(before_tags@[qq]));
                    lemma_prefix_contains(e3, edges@, (x as u32, y as u32));
                }
            }
            assert forall|x: int, y: int, t: u128|
                0 <= x < n && 0 <= y < i + 1 && #[trigger] configs[y].after_set().contains(t)
                    && #[trigger] configs[x].tag_set().contains(t) implies edges@.contains((x as u32, y as u32)) by {
                if y < i {
                    lemma_prefix_contains(e0, e3, (x as u32, y as u32));
                    lemma_prefix_contains(e3, edges@, (x as u32, y as u32));
                } else {
                    assert(after_tags@.to_set().contains(t));
                    let qq = choose|qq: int| 0 <= qq < after_tags@.len() && after_tags@[qq] == t;
                    assert(configs[x].tag_set().contains(after_tags@[qq]));
                }
            }
        }
        i = i + 1;
    }
    proof {
        assert forall|x: int, y: int|
            0 <= x < configs.len() && 0 <= y < configs.len() && runs_before(#[trigger] configs[x], #[trigger] configs[y])
            implies edges@.contains((x as u32, y as u32)) by {
            let t = choose|t: u128|
                #![trigger configs[x].before_set().contains(t)]
                #![trigger configs[y].after_set().contains(t)]
                (configs[x].before_set().contains(t) && configs[y].tag_set().contains(t))
                    || (configs[y].after_set().contains(t) && configs[x].tag_set().contains(t));
        }
    }
    edges
}

impl<S> Schedule<S> {
    /// The configurations of the systems, by position.
    pub closed spec fn configs(&self) -> Seq<SystemConfig> {
        node_configs(self.systems@)
    }

    /// The systems, by position.
    pub closed spec fn systems(&self) -> Seq<S> {
        self.systems@.map_values(|n: ScheduleNode<S>| n.system)
    }

    /// The order in which the systems run, by position.
    pub closed spec fn run_order(&self) -> Seq<usize> {
        self.order@
    }

    /// Whether the order is up to date with the systems.
    pub closed spec fn is_built(&self) -> bool {
        !self.needs_rebuild
    }

    /// The internal consistency of the schedule: an up-to-date order respects the constraints.
    pub open spec fn wf(&self) -> bool {
        self.is_built() ==> is_run_order(self.configs(), self.run_order())
    }

    /// Creates an empty schedule.
    pub fn new() -> (r: Self)
        ensures
            r.wf(),
            r.is_built(),
            r.configs().len() == 0,
            r.systems().len() == 0,
    {
        let r = Schedule { systems: Vec::new(), order: Vec::new(), needs_rebuild: false };
        proof {
            assert(r.run_order() =~= Seq::<usize>::empty());
        }
        r
    }

    /// There is one configuration for each system.
    pub proof fn lemma_len(&self)
        ensures
            self.configs().len() == self.systems().len(),
    {
    }

    /// Returns the number of systems.
    pub fn len(&self) -> (r: usize)
        ensures
            r == self.configs().len(),
            r == self.systems().len(),
    {
        self.systems.len()
    }

    /// Adds a system to the schedule, with its configuration.
    pub fn add_system_raw(&mut self, config: SystemConfig, system: S)
        ensures
            final(self).wf(),
            !final(self).is_built(),
            final(self).configs() == old(self).configs().push(config),
            final(self).systems() == old(self).systems().push(system),
    {
        self.systems.push(ScheduleNode { system, config });
        self.needs_rebuild = true;
        proof {
            assert(self.configs() =~= old(self).configs().push(config));
            assert(self.systems() =~= old(self).systems().push(system));
        }
    }

    /// Computes the order in which the systems run, if it is not up to date.
    ///
    /// Returns whether an order could be computed: never when the constraints of the systems
    /// have a cycle, and always otherwise unless the constraints make more than `u32::MAX`
    /// distinct edges, more than the graph of the sorting crate holds. When it returns
    /// `false`, the schedule is left as it was.
    pub fn try_rebuild(&mut self) -> (r: bool)
        requires
            old(self).wf(),
            old(self).configs().len() <= u32::MAX,
        ensures
            final(self).wf(),
            final(self).configs() == old(self).configs(),
            final(self).systems() == old(self).systems(),
            r ==> schedulable(old(self).configs()) && final(self).is_built(),
            !schedulable(old(self).configs()) ==> !r,
            !r ==> *final(self) == *old(self),
            old(self).is_built() ==> r && *final(self) == *old(self),
            schedulable(old(self).configs()) && constraint_pairs(old(self).configs()).len()
                <= u32::MAX ==> r,
            unconstrained(old(self).configs()) ==> r,
    {
        if !self.needs_rebuild {
            return true;
        }
        let map = build_tag_map(&self.systems);
        let edges = build_edges(&self.systems, &map);
        proof {
            lemma_constraint_edge_count(self.configs(), edges@);
        }
        if edges.len() > 0xffff_ffffusize {
            proof {
                if unconstrained(self.configs()) {
                    lemma_unconstrained_no_edges(self.configs(), edges@);
                }
            }
            return false;
        }
        proof {
            assert forall|e: int|
                0 <= e < edges@.len() implies #[trigger] edges@[e].0 < self.systems@.len() && edges@[e].1
                    < self.systems@.len() by {}
        }
        match toposort(self.systems.len(), &edges) {
            Some(sorted) => {
                let mut order: Vec<usize> = Vec::new();
                let mut k: usize = 0;
                while k < sorted.len()
                    invariant
                        k <= sorted@.len(),
                        order@ == sorted@.subrange(0, k as int).map_values(|x: u32| x as usize),
                    decreases sorted@.len() - k,
                {
                    order.push(sorted[k] as usize);
                    k = k + 1;
                    proof {
                        assert(order@ =~= sorted@.subrange(0, k as int).map_values(|x: u32| x as usize));
                    }
                }
                proof {
                    assert(sorted@.subrange(0, sorted@.len() as int) =~= sorted@);
                    lemma_topological_run_order(self.configs(), edges@, sorted@);
                }
                self.order = order;
                self.needs_rebuild = false;
                true
            },
            None => {
                proof {
                    lemma_topological_run_order(self.configs(), edges@, Seq::empty());
                    if unconstrained(self.configs()) {
                        lemma_unconstrained_schedulable(self.configs());
                    }
                }
                false
            },
        }
    }

    /// Computes the order in which the systems run, if it is not up to date; the constraints
    /// of the systems must admit one and, where the order is to be computed, make at most
    /// `u32::MAX` distinct edges, as many as the graph of the sorting crate holds.
    pub fn rebuild(&mut self)
        requires
            old(self).wf(),
            old(self).configs().len() <= u32::MAX,
            schedulable(old(self).configs()),
            old(self).is_built() || constraint_pairs(old(self).configs()).len() <= u32::MAX,
        ensures
            final(self).wf(),
            final(self).is_built(),
            final(self).configs() == old(self).configs(),
            final(self).systems() == old(self).systems(),
            old(self).is_built() ==> *final(self) == *old(self),
    {
        self.try_rebuild();
    }

    /// Returns the order in which the systems run, by position.
    pub fn order(&self) -> (r: &[usize])
        ensures
            r@ == self.run_order(),
    {
        self.order.as_slice()
    }

    /// Runs the schedule: its order is computed if it is not up to date, then every system
    /// runs on `input` and `app`, in that order, and then every system applies what it
    /// deferred, in the same order. The constraints of the systems must admit an order, as
    /// [`Schedule::rebuild`] asks.
    pub fn run<I, A>(&mut self, input: &mut I, app: &mut A)
        where S: ScheduleSystem<I, A>
        requires
            old(self).wf(),
            old(self).configs().len() <= u32::MAX,
            schedulable(old(self).configs()),
            old(self).is_built() || constraint_pairs(old(self).configs()).len() <= u32::MAX,
        ensures
            schedule_ran(*old(self), *final(self), *old(input), *final(input), *old(app), *final(app)),
    {
        self.rebuild();
        let ghost configs = self.configs();
        let ghost order = self.run_order();
        let ghost before = self.systems();
        let ghost n = order.len() as int;
        let ghost input0 = *input;
        let ghost app0 = *app;
        let ghost mut inputs: Seq<I> = seq![*input];
        let ghost mut apps: Seq<A> = seq![*app];
        proof {
            assert(is_run_order(configs, order));
        }
        let mut k: usize = 0;
        while k < self.order.len()
            invariant
                self.wf(),
                self.is_built(),
                self.configs() == configs,
                self.run_order() == order,
                is_run_order(configs, order),
                n == order.len(),
                self.systems@.len() == configs.len(),
                k <= n,
                before.len() == configs.len(),
                inputs.len() == k + 1,
                apps.len() == k + 1,
                inputs[0] == input0,
                apps[0] == app0,
                inputs.last() == *input,
                apps.last() == *app,
                forall|j: int|
                    #![trigger order[j]]
                    0 <= j < k ==> S::run_step(
                        before[order[j] as int],
                        inputs[j],
                        apps[j],
                        self.systems()[order[j] as int],
                        inputs[j + 1],
                        apps[j + 1],
                    ),
                forall|j: int| #![trigger order[j]] k <= j < n ==> self.systems()[order[j] as int] == before[order[j] as int],
            decreases n - k,
        {
            let index = self.order[k];
            assert(index < self.systems@.len());
            let ghost nodes = self.systems@;
            let ghost s0 = self.systems()[index as int];
            let ghost i0 = *input;
            let ghost a0 = *app;
            self.systems[index].system.run(input, app);
            proof {
                assert(self.systems@ == nodes.update(index as int, self.systems@[index as int]));
                assert(self.configs() =~= node_configs(nodes));
                assert(s0 == before[order[k as int] as int]);
                inputs = inputs.push(*input);
                apps = apps.push(*app);
                assert forall|j: int| #![trigger order[j]] 0 <= j < k + 1 implies S::run_step(
                    before[order[j] as int],
                    inputs[j],
                    apps[j],
                    self.systems()[order[j] as int],
                    inputs[j + 1],
                    apps[j + 1],
                ) by {
                    if j < k {
                        assert(order[j] != order[k as int]);
                    }
                }
                assert forall|j: int| #![trigger order[j]] k + 1 <= j < n implies self.systems()[order[j] as int]
                    == before[order[j] as int] by {
                    assert(order[j] != order[k as int]);
                }
            }
            k = k + 1;
        }
        let ghost mid = self.systems();
        let mut k: usize = 0;
        while k < self.order.len()
            invariant
                self.wf(),
                self.is_built(),
                self.configs() == configs,
                self.run_order() == order,
                is_run_order(configs, order),
                n == order.len(),
                self.systems@.len() == configs.len(),
                mid.len() == configs.len(),
                k <= n,
                inputs.len() == n + 1,
                apps.len() == n + k + 1,
                inputs[0] == input0,
                apps[0] == app0,
                inputs.last() == *input,
                apps.last() == *app,
                forall|j: int|
                    #![trigger order[j]]
                    0 <= j < n ==> S::run_step(
                        before[order[j] as int],
                        inputs[j],
                        apps[j],
                        mid[order[j] as int],
                        inputs[j + 1],
                        apps[j + 1],
                    ),
                forall|j: int|
                    #![trigger order[j]]
                    0 <= j < k ==> S::apply_step(
                        mid[order[j] as int],
                        apps[n + j],
                        self.systems()[order[j] as int],
                        apps[n + j + 1],
                    ),
                forall|j: int| #![trigger order[j]] k <= j < n ==> self.systems()[order[j] as int] == mid[order[j] as int],
            decreases n - k,
        {
            let index = self.order[k];
            assert(index < self.systems@.len());
            let ghost nodes = self.systems@;
            let ghost s0 = self.systems()[index as int];
            let ghost a0 = *app;
            self.systems[index].system.apply_deferred(app);
            proof {
                assert(self.systems@ == nodes.update(index as int, self.systems@[index as int]));
                assert(self.configs() =~= node_configs(nodes));
                assert(s0 == mid[order[k as int] as int]);
                apps = apps.push(*app);
                assert forall|j: int| #![trigger order[j]] 0 <= j < k + 1 implies S::apply_step(
                    mid[order[j] as int],
                    apps[n + j],
                    self.systems()[order[j] as int],
                    apps[n + j + 1],
                ) by {
                    if j < k {
                        assert(order[j] != order[k as int]);
                    }
                }
                assert forall|j: int| #![trigger order[j]] k + 1 <= j < n implies self.systems()[order[j] as int]
                    == mid[order[j] as int] by {
                    assert(order[j] != order[k as int]);
                }
            }
            k = k + 1;
        }
        proof {
            assert(runs_in_order(order, before, mid, self.systems(), inputs, apps));
            assert(inputs[0] == *old(input) && apps[0] == *old(app));
            assert(inputs.last() == *input && apps.last() == *app);
        }
    }

    /// Returns the system at position `index`.
    pub fn system_mut(&mut self, index: usize) -> (r: &mut S)
        requires
            index < old(self).systems().len(),
        ensures
            *r == old(self).systems()[index as int],
            final(self).systems() == old(self).systems().update(index as int, *final(r)),
            final(self).configs() == old(self).configs(),
            final(self).run_order() == old(self).run_order(),
            final(self).is_built() == old(self).is_built(),
    {
        let node = &mut self.systems[index];
        &mut node.system
    }
}

impl<S> Default for Schedule<S> {
    fn default() -> (r: Self)
        ensures
            r.wf(),
            r.is_built(),
            r.configs().len() == 0,
            r.systems().len() == 0,
    {
        Schedule::new()
    }
}

} // verus!
