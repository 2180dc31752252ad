//! The ordering decisions of the UI pass: in which order rectangles are drawn, and when their
//! instance buffer must be recreated.
use vstd::prelude::*;

verus! {

/// The marker of the UI pass, used to tag its systems.
pub struct UiPassMarker;

/// Whether an order of the rectangles is a permutation of their positions that puts the
/// higher Z-indices first.
pub open spec fn is_draw_order(z_indices: Seq<i32>, order: Seq<usize>) -> bool {
    &&& order.len() == z_indices.len()
    &&& forall|k: int| 0 <= k < order.len() ==> (#[trigger] order[k]) < z_indices.len()
    &&& order.no_duplicates()
    &&& forall|a: int, b: int|
        0 <= a < b < order.len() ==> z_indices[#[trigger] order[a] as int] >= z_indices[#[trigger] order[b] as int]
}

/// Returns the order in which rectangles with the given Z-indices are drawn: each position
/// once, from the highest Z-index to the lowest.
pub fn draw_order(z_indices: &Vec<i32>) -> (order: Vec<usize>)
    ensures
        is_draw_order(z_indices@, order@),
{
    let mut order: Vec<usize> = Vec::new();
    let mut i: usize = 0;
    while i < z_indices.len()
        invariant
            i <= z_indices.len(),
            order@.len() == i,
            forall|k: int| 0 <= k < order@.len() ==> (#[trigger] order@[k]) < i,
            order@.no_duplicates(),
            forall|a: int, b: int|
                0 <= a < b < order@.len() ==> z_indices@[#[trigger] order@[a] as int]
                    >= z_indices@[#[trigger] order@[b] as int],
        decreases z_indices.len() - i,
    {
        let z = z_indices[i];
        let mut p: usize = 0;
        while p < order.len() && z_indices[order[p]] >= z
            invariant
                p <= order@.len(),
                order@.len() == i,
                i < z_indices@.len(),
                z == z_indices@[i as int],
                forall|k: int| 0 <= k < order@.len() ==> (#[trigger] order@[k]) < i,
                forall|k: int| 0 <= k < p ==> z_indices@[#[trigger] order@[k] as int] >= z,
            decreases order@.len() - p,
        {
            p = p + 1;
        }
        let ghost before = order@;
        order.insert(p, i);
        proof {
            assert(order@ == before.subrange(0, p as int).push(i).add(before.subrange(p as int, before.len() as int)));
            assert forall|k: int| 0 <= k < order@.len() implies (#[trigger] order@[k]) < i + 1 by {
                if k < p {
                    assert(order@[k] == before[k]);
                } else if k > p {
                    assert(order@[k] == before[k - 1]);
                }
            }
            assert forall|a: int, b: int| 0 <= a < b < order@.len() implies order@[a] != order@[b] by {
                if a < p && b < p {
                    assert(order@[a] == before[a] && order@[b] == before[b]);
                } else if a < p && b == p {
                    assert(order@[a] == before[a]);
                } else if a < p {
                    assert(order@[a] == before[a] && order@[b] == before[b - 1]);
                } else if a == p {
                    assert(order@[b] == before[b - 1]);
                } else {
                    assert(order@[a] == before[a - 1] && order@[b] == before[b - 1]);
                }
            }
            assert forall|a: int, b: int|
                0 <= a < b < order@.len() implies z_indices@[#[trigger] order@[a] as int]
                >= z_indices@[#[trigger] order@[b] as int] by {
                if b < p {
                    assert(order@[a] == before[a] && order@[b] == before[b]);
                } else if b == p {
                    assert(order@[a] == before[a]);
                } else if a < p {
                    assert(order@[a] == before[a] && order@[b] == before[b - 1]);
                    assert(z_indices@[before[a] as int] >= z);
                    assert(z_indices@[before[p as int] as int] < z);
                    if b - 1 > p {
                        assert(z_indices@[before[p as int] as int] >= z_indices@[before[b - 1] as int]);
                    }
                } else if a == p {
                    assert(order@[b] == before[b - 1]);
                    assert(z_indices@[before[p as int] as int] < z);
                    if b - 1 > p {
                        assert(z_indices@[before[p as int] as int] >= z_indices@[before[b - 1] as int]);
                    }
                } else {
                    assert(order@[a] == before[a - 1] && order@[b] == before[b - 1]);
                }
            }
        }
        i = i + 1;
    }
    order
}

/// Whether the instance buffer of the rectangles must be recreated to hold `needed` bytes:
/// when there is none, or when the current one, of `current_size` bytes, is too small.
pub fn buffer_needs_recreation(current_size: Option<u64>, needed: u64) -> (r: bool)
    ensures
        r == match current_size {
            None => true,
            Some(size) => size < needed,
        },
{
    match current_size {
        None => true,
        Some(size) => size < needed,
    }
}

} // verus!
