//! Choosing a point's enclosing locality, region and country names.
//!
//! The geometry (point-in-polygon tests, polygon areas, great-circle
//! distances) is evaluated outside the library and reaches it as plain
//! values: for every candidate admin area, whether it contains the point and
//! the rank of its area among all areas (equal areas share a rank); for
//! every qualifying place node, whether it lies within the fallback radius
//! and the rank of its distance.  The choice itself is made here:
//!
//! - country: `admin_level` 2;
//! - region: the first of levels 4, 3, 5 that has a containing area;
//! - locality: the first of levels 8, 7, 9, 10 that has a containing area,
//!   else the nearest qualifying place node within the radius.
//!
//! Within a level the smallest area wins (the most specific polygon); among
//! equal areas the earliest candidate wins.  Among place nodes the nearest
//! wins, the earliest among equally near ones.

use vstd::prelude::*;
use crate::taxonomy::str_eq;

verus! {

/// The enclosing locality/region/country names of a point, each `None` when
/// nothing at that tier could be resolved.
#[derive(Debug, Clone, Default, PartialEq, Eq)]
pub struct Parents {
    pub locality: Option<String>,
    pub region: Option<String>,
    pub country: Option<String>,
}

/// One admin area considered for a point.
pub struct AreaCandidate {
    pub admin_level: u8,
    pub name: String,
    /// Rank of the area's polygon area among all areas (smaller area,
    /// smaller rank; equal areas, equal rank).
    pub area_rank: u64,
    /// Whether one of the area's rings contains the point.
    pub contains: bool,
}

/// One qualifying place node considered for the locality fallback.
pub struct PlaceCandidate {
    pub name: String,
    /// Whether the node lies within the fallback radius of the point.
    pub within_radius: bool,
    /// Rank of its distance to the point (nearer, smaller).
    pub distance_rank: u64,
}

pub open spec fn area_qualifies(c: AreaCandidate, level: u8) -> bool {
    c.admin_level == level && c.contains
}

/// `i` is the winner at `level`: it qualifies, no qualifying candidate has a
/// smaller area rank, and no earlier qualifying candidate has the same rank.
pub open spec fn is_best_area(cands: Seq<AreaCandidate>, level: u8, i: int) -> bool {
    &&& 0 <= i < cands.len()
    &&& area_qualifies(cands[i], level)
    &&& forall|j: int|
        0 <= j < cands.len() && area_qualifies(#[trigger] cands[j], level) ==> cands[i].area_rank
            <= cands[j].area_rank
    &&& forall|j: int|
        0 <= j < i && area_qualifies(#[trigger] cands[j], level) ==> cands[j].area_rank
            > cands[i].area_rank
}

pub open spec fn any_area_qualifies(cands: Seq<AreaCandidate>, level: u8) -> bool {
    exists|j: int| 0 <= j < cands.len() && area_qualifies(#[trigger] cands[j], level)
}

/// The name chosen at `level` is that of the winner, if any candidate
/// qualifies.
pub open spec fn best_at_level_ok(cands: Seq<AreaCandidate>, level: u8, r: Option<Seq<char>>) -> bool {
    match r {
        Some(n) => exists|i: int| is_best_area(cands, level, i) && cands[i].name@ == n,
        None => !any_area_qualifies(cands, level),
    }
}

/// The name chosen over `tiers`: that of the first tier with a qualifying
/// candidate.
pub open spec fn best_at_levels_ok(
    cands: Seq<AreaCandidate>,
    tiers: Seq<u8>,
    r: Option<Seq<char>>,
) -> bool
    decreases tiers.len(),
{
    if tiers.len() == 0 {
        r is None
    } else if any_area_qualifies(cands, tiers[0]) {
        best_at_level_ok(cands, tiers[0], r)
    } else {
        best_at_levels_ok(cands, tiers.drop_first(), r)
    }
}

pub open spec fn opt_string_view(o: Option<String>) -> Option<Seq<char>> {
    match o {
        Some(s) => Some(s@),
        None => None,
    }
}

fn best_at_level(cands: &[AreaCandidate], level: u8) -> (r: Option<String>)
    ensures
        best_at_level_ok(cands@, level, opt_string_view(r)),
{
    let mut best: Option<usize> = None;
    let mut i: usize = 0;
    while i < cands.len()
        invariant
            i <= cands@.len(),
            match best {
                Some(b) => {
                    &&& b < i
                    &&& area_qualifies(cands@[b as int], level)
                    &&& forall|j: int|
                        0 <= j < i && area_qualifies(#[trigger] cands@[j], level)
                            ==> cands@[b as int].area_rank <= cands@[j].area_rank
                    &&& forall|j: int|
                        0 <= j < b && area_qualifies(#[trigger] cands@[j], level)
                            ==> cands@[j].area_rank > cands@[b as int].area_rank
                },
                None => forall|j: int| 0 <= j < i ==> !area_qualifies(#[trigger] cands@[j], level),
            },
        decreases cands@.len() - i,
    {
        let c = &cands[i];
        if c.admin_level == level && c.contains {
            match best {
                Some(b) => {
                    if c.area_rank < cands[b].area_rank {
                        best = Some(i);
                    }
                },
                None => {
                    best = Some(i);
                },
            }
        }
        i = i + 1;
    }
    match best {
        Some(b) => {
            assert(is_best_area(cands@, level, b as int));
            Some(cands[b].name.clone())
        },
        None => None,
    }
}

fn best_at_levels(cands: &[AreaCandidate], tiers: &[u8]) -> (r: Option<String>)
    ensures
        best_at_levels_ok(cands@, tiers@, opt_string_view(r)),
{
    let mut t: usize = 0;
    assert(tiers@.skip(0) == tiers@);
    while t < tiers.len()
        invariant
            t <= tiers@.len(),
            forall|r: Option<Seq<char>>|
                best_at_levels_ok(cands@, tiers@.skip(t as int), r) ==> best_at_levels_ok(
                    cands@,
                    tiers@,
                    r,
                ),
        decreases tiers@.len() - t,
    {
        let r = best_at_level(cands, tiers[t]);
        let ghost rest = tiers@.skip(t as int);
        proof {
            assert(rest[0] == tiers@[t as int]);
            assert(rest.drop_first() == tiers@.skip(t as int + 1));
        }
        if r.is_some() {
            return r;
        }
        proof {
            assert(!any_area_qualifies(cands@, tiers@[t as int]));
            assert forall|r: Option<Seq<char>>|
                best_at_levels_ok(cands@, tiers@.skip(t as int + 1), r) implies best_at_levels_ok(
                    cands@,
                    tiers@,
                    r,
                ) by {
                assert(best_at_levels_ok(cands@, rest, r));
            }
        }
        t = t + 1;
    }
    proof {
        assert(tiers@.skip(tiers@.len() as int).len() == 0);
    }
    None
}

/// `i` is the nearest place within the radius, earliest among equals.
pub open spec fn is_nearest_place(places: Seq<PlaceCandidate>, i: int) -> bool {
    &&& 0 <= i < places.len()
    &&& places[i].within_radius
    &&& forall|j: int|
        0 <= j < places.len() && (#[trigger] places[j]).within_radius ==> places[i].distance_rank
            <= places[j].distance_rank
    &&& forall|j: int|
        0 <= j < i && (#[trigger] places[j]).within_radius ==> places[j].distance_rank
            > places[i].distance_rank
}

pub open spec fn nearest_place_ok(places: Seq<PlaceCandidate>, r: Option<Seq<char>>) -> bool {
    match r {
        Some(n) => exists|i: int| is_nearest_place(places, i) && places[i].name@ == n,
        None => forall|j: int| 0 <= j < places.len() ==> !(#[trigger] places[j]).within_radius,
    }
}

fn nearest_place_within(places: &[PlaceCandidate]) -> (r: Option<String>)
    ensures
        nearest_place_ok(places@, opt_string_view(r)),
{
    let mut best: Option<usize> = None;
    let mut i: usize = 0;
    while i < places.len()
        invariant
            i <= places@.len(),
            match best {
                Some(b) => {
                    &&& b < i
                    &&& places@[b as int].within_radius
                    &&& forall|j: int|
                        0 <= j < i && (#[trigger] places@[j]).within_radius
                            ==> places@[b as int].distance_rank <= places@[j].distance_rank
                    &&& forall|j: int|
                        0 <= j < b && (#[trigger] places@[j]).within_radius
                            ==> places@[j].distance_rank > places@[b as int].distance_rank
                },
                None => forall|j: int| 0 <= j < i ==> !(#[trigger] places@[j]).within_radius,
            },
        decreases places@.len() - i,
    {
        if places[i].within_radius {
            match best {
                Some(b) => {
                    if places[i].distance_rank < places[b].distance_rank {
                        best = Some(i);
                    }
                },
                None => {
                    best = Some(i);
                },
            }
        }
        i = i + 1;
    }
    match best {
        Some(b) => {
            assert(is_nearest_place(places@, b as int));
            Some(places[b].name.clone())
        },
        None => None,
    }
}

pub open spec fn region_tiers() -> Seq<u8> {
    seq![4u8, 3u8, 5u8]
}

pub open spec fn locality_tiers() -> Seq<u8> {
    seq![8u8, 7u8, 9u8, 10u8]
}

/// The resolved parents of a point from its area and place candidates.
pub open spec fn parents_ok(
    areas: Seq<AreaCandidate>,
    places: Seq<PlaceCandidate>,
    p: Parents,
) -> bool {
    &&& best_at_level_ok(areas, 2, opt_string_view(p.country))
    &&& best_at_levels_ok(areas, region_tiers(), opt_string_view(p.region))
    &&& if exists|l: u8| locality_tiers().contains(l) && any_area_qualifies(areas, l) {
        best_at_levels_ok(areas, locality_tiers(), opt_string_view(p.locality))
    } else {
        nearest_place_ok(places, opt_string_view(p.locality))
    }
}

/// Resolve a point's locality/region/country names from its candidates
/// (see the module documentation).
pub fn resolve_parents(areas: &[AreaCandidate], places: &[PlaceCandidate]) -> (p: Parents)
    ensures
        parents_ok(areas@, places@, p),
{
    let country = best_at_level(areas, 2);
    let region_levels: [u8; 3] = [4, 3, 5];
    let locality_levels: [u8; 4] = [8, 7, 9, 10];
    assert(region_levels@ == region_tiers());
    assert(locality_levels@ == locality_tiers());
    let region = best_at_levels(areas, region_levels.as_slice());
    let mut locality = best_at_levels(areas, locality_levels.as_slice());
    proof {
        let lt = locality_tiers();
        reveal_with_fuel(best_at_levels_ok, 5);
        assert(lt.drop_first() =~= seq![7u8, 9u8, 10u8]);
        assert(lt.drop_first().drop_first() =~= seq![9u8, 10u8]);
        assert(lt.drop_first().drop_first().drop_first() =~= seq![10u8]);
        assert(lt.drop_first().drop_first().drop_first().drop_first() =~= Seq::<u8>::empty());
        if exists|l: u8| lt.contains(l) && any_area_qualifies(areas@, l) {
            let l = choose|l: u8| lt.contains(l) && any_area_qualifies(areas@, l);
            assert(l == 8 || l == 7 || l == 9 || l == 10);
        } else {
            assert(lt.contains(8u8) && lt.contains(7u8) && lt.contains(9u8) && lt.contains(10u8)) by {
                assert(lt[0] == 8u8 && lt[1] == 7u8 && lt[2] == 9u8 && lt[3] == 10u8);
            }
        }
    }
    if locality.is_none() {
        locality = nearest_place_within(places);
    }
    Parents { locality, region, country }
}

/// At a level, the chosen name is that of a containing area of that level
/// whose area rank is the smallest among the containing areas of the level;
/// nothing is chosen only when no area of the level contains the point.
pub proof fn lemma_best_area_smallest(cands: Seq<AreaCandidate>, level: u8, r: Option<Seq<char>>)
    requires
        best_at_level_ok(cands, level, r),
    ensures
        r matches Some(n) ==> exists|i: int|
            0 <= i < cands.len() && (#[trigger] cands[i]).admin_level == level && cands[i].contains
                && cands[i].name@ == n && forall|j: int|
                0 <= j < cands.len() && (#[trigger] cands[j]).admin_level == level && cands[j].contains
                    ==> cands[i].area_rank <= cands[j].area_rank,
        r is None ==> forall|j: int|
            0 <= j < cands.len() ==> !((#[trigger] cands[j]).admin_level == level && cands[j].contains),
{
    if let Some(n) = r {
        let i = choose|i: int| is_best_area(cands, level, i) && cands[i].name@ == n;
        assert forall|j: int|
            0 <= j < cands.len() && (#[trigger] cands[j]).admin_level == level && cands[j].contains implies cands[i].area_rank
            <= cands[j].area_rank by {
            assert(area_qualifies(cands[j], level));
        }
    } else {
        assert forall|j: int| 0 <= j < cands.len() implies !((#[trigger] cands[j]).admin_level == level
            && cands[j].contains) by {
            if cands[j].admin_level == level && cands[j].contains {
                assert(area_qualifies(cands[j], level));
            }
        }
    }
}

/// The tiers by level: the country is the best containing area of level 2;
/// the region the best containing area of level 4, else 3, else 5, else
/// none; the locality the best containing area of level 8, else 7, else 9,
/// else 10, else the nearest place node within the radius.
pub proof fn lemma_parents_tiers(areas: Seq<AreaCandidate>, places: Seq<PlaceCandidate>, p: Parents)
    requires
        parents_ok(areas, places, p),
    ensures
        best_at_level_ok(areas, 2, opt_string_view(p.country)),
        any_area_qualifies(areas, 4) ==> best_at_level_ok(areas, 4, opt_string_view(p.region)),
        !any_area_qualifies(areas, 4) && any_area_qualifies(areas, 3) ==> best_at_level_ok(
            areas,
            3,
            opt_string_view(p.region),
        ),
        !any_area_qualifies(areas, 4) && !any_area_qualifies(areas, 3) && any_area_qualifies(areas, 5)
            ==> best_at_level_ok(areas, 5, opt_string_view(p.region)),
        !any_area_qualifies(areas, 4) && !any_area_qualifies(areas, 3) && !any_area_qualifies(areas, 5)
            ==> p.region is None,
        any_area_qualifies(areas, 8) ==> best_at_level_ok(areas, 8, opt_string_view(p.locality)),
        !any_area_qualifies(areas, 8) && any_area_qualifies(areas, 7) ==> best_at_level_ok(
            areas,
            7,
            opt_string_view(p.locality),
        ),
        !any_area_qualifies(areas, 8) && !any_area_qualifies(areas, 7) && any_area_qualifies(areas, 9)
            ==> best_at_level_ok(areas, 9, opt_string_view(p.locality)),
        !any_area_qualifies(areas, 8) && !any_area_qualifies(areas, 7) && !any_area_qualifies(areas, 9)
            && any_area_qualifies(areas, 10) ==> best_at_level_ok(areas, 10, opt_string_view(p.locality)),
        !any_area_qualifies(areas, 8) && !any_area_qualifies(areas, 7) && !any_area_qualifies(areas, 9)
            && !any_area_qualifies(areas, 10) ==> nearest_place_ok(places, opt_string_view(p.locality)),
{
    reveal_with_fuel(best_at_levels_ok, 5);
    let rt = region_tiers();
    assert(rt.drop_first() =~= seq![3u8, 5u8]);
    assert(rt.drop_first().drop_first() =~= seq![5u8]);
    assert(rt.drop_first().drop_first().drop_first() =~= Seq::<u8>::empty());
    let lt = locality_tiers();
    assert(lt.drop_first() =~= seq![7u8, 9u8, 10u8]);
    assert(lt.drop_first().drop_first() =~= seq![9u8, 10u8]);
    assert(lt.drop_first().drop_first().drop_first() =~= seq![10u8]);
    assert(lt.drop_first().drop_first().drop_first().drop_first() =~= Seq::<u8>::empty());
    assert(lt[0] == 8u8 && lt[1] == 7u8 && lt[2] == 9u8 && lt[3] == 10u8);
    if exists|l: u8| lt.contains(l) && any_area_qualifies(areas, l) {
        let l = choose|l: u8| lt.contains(l) && any_area_qualifies(areas, l);
        assert(l == 8 || l == 7 || l == 9 || l == 10);
    } else {
        assert(lt.contains(8u8) && lt.contains(7u8) && lt.contains(9u8) && lt.contains(10u8));
    }
}

/// Place types that can stand in as a locality.
pub open spec fn is_qualifying_locality_place_spec(place: Seq<char>) -> bool {
    place == "city"@ || place == "town"@ || place == "village"@ || place == "hamlet"@
}

/// Whether a place node's `place` value qualifies for the locality fallback.
pub fn is_qualifying_locality_place(place: &str) -> (b: bool)
    ensures
        b == is_qualifying_locality_place_spec(place@),
        b <==> (place@ == "city"@ || place@ == "town"@ || place@ == "village"@ || place@ == "hamlet"@),
{
    str_eq(place, "city") || str_eq(place, "town") || str_eq(place, "village") || str_eq(
        place,
        "hamlet",
    )
}

/// The place types that stand in as a locality are exactly city, town,
/// village and hamlet; in particular a hamlet node qualifies.
pub proof fn lemma_locality_place_types(place: Seq<char>)
    ensures
        is_qualifying_locality_place_spec(place) <==> (place == "city"@ || place == "town"@ || place
            == "village"@ || place == "hamlet"@),
        is_qualifying_locality_place_spec("hamlet"@),
{
}

} // verus!
