use atlas_extract::hierarchy::{is_qualifying_locality_place, resolve_parents, AreaCandidate, Parents, PlaceCandidate};

fn area(name: &str, level: u8, area_rank: u64, contains: bool) -> AreaCandidate {
    AreaCandidate { admin_level: level, name: name.into(), area_rank, contains }
}

fn place(name: &str, within_radius: bool, distance_rank: u64) -> PlaceCandidate {
    PlaceCandidate { name: name.into(), within_radius, distance_rank }
}

#[test]
fn resolve_uses_pip_then_place_fallback() {
    // Testland and Mid are the unit square, Town the square (0.2,0.2)-(0.4,0.4);
    // the village node lies at (0.9, 0.9).
    let inside = resolve_parents(
        &[area("Testland", 2, 1, true), area("Mid", 4, 1, true), area("Town", 8, 0, true)],
        &[place("FallbackVille", false, 0)],
    );
    assert_eq!(inside.locality.as_deref(), Some("Town"));
    assert_eq!(inside.region.as_deref(), Some("Mid"));
    assert_eq!(inside.country.as_deref(), Some("Testland"));
    let fallback = resolve_parents(
        &[area("Testland", 2, 1, true), area("Mid", 4, 1, true), area("Town", 8, 0, false)],
        &[place("FallbackVille", true, 0)],
    );
    assert_eq!(fallback.locality.as_deref(), Some("FallbackVille"));
}

#[test]
fn resolve_outside_everything_returns_all_none() {
    let outside = resolve_parents(&[area("Testland", 2, 0, false)], &[]);
    assert_eq!(outside, Parents::default());
}

#[test]
fn region_falls_through_level_tiers_in_order() {
    let r = resolve_parents(&[area("Testland", 2, 0, true), area("Level3Region", 3, 0, true)], &[]);
    assert_eq!(r.region.as_deref(), Some("Level3Region"));
}

#[test]
fn region_prefers_level_4_over_level_3_and_5() {
    let r = resolve_parents(
        &[area("Level3Region", 3, 0, true), area("Level4Region", 4, 0, true), area("Level5Region", 5, 0, true)],
        &[],
    );
    assert_eq!(r.region.as_deref(), Some("Level4Region"));
}

#[test]
fn best_at_level_picks_smallest_area_among_same_tier_candidates() {
    let r = resolve_parents(&[area("BigTown", 8, 1, true), area("SmallTown", 8, 0, true)], &[]);
    assert_eq!(r.locality.as_deref(), Some("SmallTown"));
}

#[test]
fn equal_areas_keep_the_first_candidate() {
    let r = resolve_parents(&[area("First", 7, 3, true), area("Second", 7, 3, true)], &[]);
    assert_eq!(r.locality.as_deref(), Some("First"));
}

#[test]
fn place_fallback_ignores_non_qualifying_place_types() {
    assert!(!is_qualifying_locality_place("suburb"));
    // A suburb never becomes a candidate, so nothing is offered.
    let r = resolve_parents(&[area("Testland", 2, 0, true)], &[]);
    assert_eq!(r.locality, None);
    assert!(is_qualifying_locality_place("village"));
}

#[test]
fn place_fallback_respects_10km_radius() {
    let r = resolve_parents(&[], &[place("FarAway", false, 0)]);
    assert_eq!(r.locality, None);
}

#[test]
fn place_fallback_picks_nearest_of_multiple_candidates() {
    let r = resolve_parents(&[], &[place("Farther", true, 1), place("Nearer", true, 0)]);
    assert_eq!(r.locality.as_deref(), Some("Nearer"));
}

#[test]
fn a_containing_locality_polygon_beats_a_nearer_place() {
    let r = resolve_parents(&[area("Commune", 10, 0, true)], &[place("Village", true, 0)]);
    assert_eq!(r.locality.as_deref(), Some("Commune"));
}
