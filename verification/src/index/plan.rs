//! The orders in which the parts of a bucket are visited: nearest bound first.
use vstd::prelude::*;

use crate::index::geometry::{cell_gap, ivf_sub_lower_bound, sector_gap,
    sector_lower_bound, subcell_gap};
use crate::index::{DIMS, IVF_CELLS, IVF_SUBCELLS, IVF_SUB_BUCKETS, SECTORS, SECTOR_BUCKETS};

verus! {

/// Items in ascending order of their keys.
pub open spec fn ascending<T>(items: Seq<(i64, T)>) -> bool {
    forall|i: int, j: int| 0 <= i <= j < items.len() ==> items[i].0 <= items[j].0
}

/// An ordering of a list by key; items with equal keys stand in any order.
pub open spec fn is_ordering<T>(ordered: Seq<(i64, T)>, listing: Seq<(i64, T)>) -> bool {
    &&& ordered.to_multiset() == listing.to_multiset()
    &&& ascending(ordered)
}

/// Every sector with its bound.
pub open spec fn sector_listing(query: Seq<i16>) -> Seq<(i64, usize)> {
    Seq::new(SECTORS as nat, |p: int| (sector_gap(query, p) as i64, p as usize))
}

/// Every subcell with its bound.
pub open spec fn subcell_listing(query: Seq<i16>, dims: (usize, usize)) -> Seq<(i64, usize)> {
    Seq::new(IVF_SUBCELLS as nat, |p: int| (subcell_gap(query, dims, p) as i64, p as usize))
}

/// Every cell with its bound.
pub open spec fn cell_listing(query: Seq<i16>, dims: (usize, usize)) -> Seq<(i64, usize)> {
    Seq::new(IVF_CELLS as nat, |p: int| (cell_gap(query, dims, p) as i64, p as usize))
}

/// A list of numbered parts, each at its own position.
pub open spec fn numbered(listing: Seq<(i64, usize)>) -> bool {
    forall|p: int| 0 <= p < listing.len() ==> #[trigger] listing[p].1 == p
}

/// Parts in range with bounds of ordinary size.
pub open spec fn plan_fits(plan: Seq<(i64, usize)>, parts: int) -> bool {
    forall|k: int|
        0 <= k < plan.len() ==> (#[trigger] plan[k]).1 < parts && 0 <= plan[k].0 <= 8_589_582_400
}

/// No part stands twice in a plan.
pub open spec fn plan_distinct(plan: Seq<(i64, usize)>) -> bool {
    forall|j: int, k: int|
        0 <= j < plan.len() && 0 <= k < plan.len() && j != k ==> plan[j].1 != plan[k].1
}

/// An ordering has the items of the list, each as often.
pub proof fn lemma_ordering<T>(ordered: Seq<(i64, T)>, listing: Seq<(i64, T)>)
    requires
        is_ordering(ordered, listing),
    ensures
        ordered.len() == listing.len(),
        forall|k: int| 0 <= k < ordered.len() ==> listing.contains(#[trigger] ordered[k]),
        forall|k: int| 0 <= k < listing.len() ==> ordered.contains(#[trigger] listing[k]),
        listing.no_duplicates() ==> ordered.no_duplicates(),
{
    ordered.to_multiset_ensures();
    listing.to_multiset_ensures();
    assert forall|k: int| 0 <= k < ordered.len() implies listing.contains(#[trigger] ordered[k]) by {
        assert(ordered.contains(ordered[k]));
        assert(ordered.to_multiset().count(ordered[k]) > 0);
    }
    assert forall|k: int| 0 <= k < listing.len() implies ordered.contains(#[trigger] listing[k]) by {
        assert(listing.contains(listing[k]));
        assert(listing.to_multiset().count(listing[k]) > 0);
    }
    if listing.no_duplicates() {
        listing.lemma_multiset_has_no_duplicates();
        ordered.lemma_multiset_has_no_duplicates_conv();
    }
}

/// An ordering of numbered parts visits every part once, with its own bound.
pub proof fn lemma_plan(plan: Seq<(i64, usize)>, listing: Seq<(i64, usize)>)
    requires
        is_ordering(plan, listing),
        numbered(listing),
    ensures
        plan.len() == listing.len(),
        forall|k: int| 0 <= k < plan.len() ==> (#[trigger] plan[k]).1 < listing.len(),
        forall|k: int| 0 <= k < plan.len() ==> #[trigger] plan[k] == listing[plan[k].1 as int],
        plan_distinct(plan),
        plan_fits(listing, listing.len() as int) ==> plan_fits(plan, listing.len() as int),
        forall|p: int| 0 <= p < listing.len() ==> plan.contains(#[trigger] listing[p]),
{
    assert(listing.no_duplicates()) by {
        assert forall|i: int, j: int| 0 <= i < listing.len() && 0 <= j < listing.len() && i != j implies listing[i]
            != listing[j] by {
            assert(listing[i].1 == i);
            assert(listing[j].1 == j);
        }
    }
    lemma_ordering(plan, listing);
    assert forall|k: int| 0 <= k < plan.len() implies #[trigger] plan[k] == listing[plan[k].1 as int]
        && plan[k].1 < listing.len() by {
        assert(listing.contains(plan[k]));
        let p = choose|p: int| 0 <= p < listing.len() && listing[p] == plan[k];
        assert(listing[p].1 == p);
    }
    assert forall|j: int, k: int|
        0 <= j < plan.len() && 0 <= k < plan.len() && j != k implies plan[j].1 != plan[k].1 by {
        assert(plan[j] == listing[plan[j].1 as int]);
        assert(plan[k] == listing[plan[k].1 as int]);
    }
}

/// Sorts items by their keys with `slice::sort_unstable_by_key`: the items stay the same, their
/// keys ascend, and the order of items with equal keys is left open.
#[verifier::external_body]
pub(crate) fn sort_by_first<T>(items: &mut Vec<(i64, T)>)
    ensures
        is_ordering(final(items)@, old(items)@),
{
    items.sort_unstable_by_key(|item| item.0);
}

/// The sectors, nearest bound first.
pub fn sector_scan_plan(query: &[i16; DIMS]) -> (plan: Vec<(i64, usize)>)
    ensures
        is_ordering(plan@, sector_listing(query@)),
        plan@.len() == SECTORS,
        plan_fits(plan@, SECTORS as int),
        plan_distinct(plan@),
{
    let mut plan: Vec<(i64, usize)> = Vec::new();
    let mut sector: usize = 0;
    while sector < SECTORS
        invariant
            sector <= SECTORS,
            plan@ == sector_listing(query@).take(sector as int),
            plan_fits(plan@, SECTORS as int),
        decreases SECTORS - sector,
    {
        let first: usize = sector / SECTOR_BUCKETS;
        let second: usize = sector % SECTOR_BUCKETS;
        let bound: i64 = sector_lower_bound(query[0], first) + sector_lower_bound(query[1], second);
        plan.push((bound, sector));
        assert(sector_listing(query@).take(sector + 1) =~= sector_listing(query@).take(
            sector as int,
        ).push((bound, sector)));
        sector = sector + 1;
    }
    assert(sector_listing(query@).take(sector as int) =~= sector_listing(query@));
    sort_by_first(&mut plan);
    proof {
        lemma_plan(plan@, sector_listing(query@));
    }
    plan
}

/// The subcells, nearest bound first.
pub fn ivf_sub_scan_plan(query: &[i16; DIMS], dims: (usize, usize)) -> (plan: Vec<(i64, usize)>)
    requires
        dims.0 < DIMS,
        dims.1 < DIMS,
    ensures
        is_ordering(plan@, subcell_listing(query@, dims)),
        plan@.len() == IVF_SUBCELLS,
        plan_fits(plan@, IVF_SUBCELLS as int),
        plan_distinct(plan@),
{
    let mut plan: Vec<(i64, usize)> = Vec::new();
    let mut subcell: usize = 0;
    while subcell < IVF_SUBCELLS
        invariant
            dims.0 < DIMS,
            dims.1 < DIMS,
            subcell <= IVF_SUBCELLS,
            plan@ == subcell_listing(query@, dims).take(subcell as int),
            plan_fits(plan@, IVF_SUBCELLS as int),
        decreases IVF_SUBCELLS - subcell,
    {
        let first: usize = subcell / IVF_SUB_BUCKETS;
        let second: usize = subcell % IVF_SUB_BUCKETS;
        let bound: i64 = ivf_sub_lower_bound(query[dims.0], first) + ivf_sub_lower_bound(
            query[dims.1],
            second,
        );
        plan.push((bound, subcell));
        assert(subcell_listing(query@, dims).take(subcell + 1) =~= subcell_listing(
            query@,
            dims,
        ).take(subcell as int).push((bound, subcell)));
        subcell = subcell + 1;
    }
    assert(subcell_listing(query@, dims).take(subcell as int) =~= subcell_listing(query@, dims));
    sort_by_first(&mut plan);
    proof {
        lemma_plan(plan@, subcell_listing(query@, dims));
    }
    plan
}

/// The cells, nearest bound first.
pub fn ivf_cell_scan_plan(query: &[i16; DIMS], dims: (usize, usize)) -> (plan: Vec<(i64, usize)>)
    requires
        dims.0 < DIMS,
        dims.1 < DIMS,
    ensures
        is_ordering(plan@, cell_listing(query@, dims)),
        plan@.len() == IVF_CELLS,
        plan_fits(plan@, IVF_CELLS as int),
        plan_distinct(plan@),
{
    let mut plan: Vec<(i64, usize)> = Vec::new();
    let mut cell: usize = 0;
    while cell < IVF_CELLS
        invariant
            dims.0 < DIMS,
            dims.1 < DIMS,
            cell <= IVF_CELLS,
            plan@ == cell_listing(query@, dims).take(cell as int),
            plan_fits(plan@, IVF_CELLS as int),
        decreases IVF_CELLS - cell,
    {
        let sector: usize = cell / IVF_SUBCELLS;
        let subcell: usize = cell % IVF_SUBCELLS;
        let bound: i64 = sector_lower_bound(query[0], sector / SECTOR_BUCKETS) + sector_lower_bound(
            query[1],
            sector % SECTOR_BUCKETS,
        ) + ivf_sub_lower_bound(query[dims.0], subcell / IVF_SUB_BUCKETS) + ivf_sub_lower_bound(
            query[dims.1],
            subcell % IVF_SUB_BUCKETS,
        );
        plan.push((bound, cell));
        assert(cell_listing(query@, dims).take(cell + 1) =~= cell_listing(query@, dims).take(
            cell as int,
        ).push((bound, cell)));
        cell = cell + 1;
    }
    assert(cell_listing(query@, dims).take(cell as int) =~= cell_listing(query@, dims));
    sort_by_first(&mut plan);
    proof {
        lemma_plan(plan@, cell_listing(query@, dims));
    }
    plan
}

} // verus!
