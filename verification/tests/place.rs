use atlas_extract::boundaries::PlaceInfo;
use atlas_extract::ids::hid;
use atlas_extract::layers::place::{
    clean_text, extract_countries, extract_places, extract_regions, place_score_from_pop, AreaInfo,
};
use atlas_extract::text::dedup_join;

fn place(id: i64, name: &str, place: &str, population: u64, intl: &[&str]) -> PlaceInfo {
    PlaceInfo {
        id,
        name: name.into(),
        place: place.into(),
        population,
        intl_names: intl.iter().map(|s| s.to_string()).collect(),
    }
}

fn area(name: &str, level: u8) -> AreaInfo {
    AreaInfo { name: name.into(), admin_level: level, has_centroid: true }
}

#[test]
fn place_score_from_pop_matches_python_formula() {
    assert_eq!(place_score_from_pop(0), 0);
    assert_eq!(place_score_from_pop(38_300), 92);
}

#[test]
fn place_score_from_pop_caps_at_250() {
    assert_eq!(place_score_from_pop(10_000_000_000_000), 250);
}

#[test]
fn place_score_matches_rounded_log_on_sample_values() {
    for pop in [1u64, 9, 99, 1_000, 545_838, 2_000_000, u64::MAX - 1] {
        let expected = (20.0 * ((pop as f64) + 1.0).log10()).round().min(250.0) as i64;
        assert_eq!(place_score_from_pop(pop), expected, "pop={pop}");
    }
}

#[test]
fn dedup_join_places_name_first_then_intl_names() {
    let parts = vec!["Den Haag".to_string(), "The Hague".to_string()];
    assert_eq!(dedup_join(&parts), "Den Haag,The Hague");
}

#[test]
fn dedup_join_places_dedupes_case_insensitively() {
    let parts = vec!["Monaco".to_string(), "monaco".to_string(), "Monaco City".to_string()];
    assert_eq!(dedup_join(&parts), "Monaco,Monaco City");
}

#[test]
fn dedup_join_places_skips_empty_entries() {
    let parts = vec!["Name".to_string(), "".to_string(), "Alias".to_string()];
    assert_eq!(dedup_join(&parts), "Name,Alias");
}

#[test]
fn clean_text_strips_commas() {
    assert_eq!(clean_text(" Saint-Roman,  Monaco "), "Saint-Roman Monaco");
}

#[test]
fn extract_places_appends_intl_names_to_carmen_text() {
    let fs = extract_places(&[place(1, "Den Haag", "city", 545_838, &["The Hague"])]);
    assert_eq!(fs.len(), 1);
    assert_eq!(fs[0].text, "Den Haag,The Hague");
    assert_eq!(fs[0].id, hid("n1"));
    assert_eq!(fs[0].population, Some(545_838));
}

#[test]
fn extract_places_carmen_text_is_just_name_when_no_intl_names() {
    let fs = extract_places(&[place(1, "Plainville", "village", 0, &[])]);
    assert_eq!(fs.len(), 1);
    assert_eq!(fs[0].text, "Plainville");
    assert_eq!(fs[0].population, None);
    assert_eq!(fs[0].score, Some(0));
}

#[test]
fn extract_places_filters_by_place_type() {
    let fs = extract_places(&[place(1, "Townsville", "town", 1000, &[]), place(2, "NotAPlaceType", "suburb_but_typo", 0, &[])]);
    assert_eq!(fs.len(), 1, "only the qualifying place_type should be emitted");
    assert_eq!(fs[0].index, 0);
}

#[test]
fn extract_regions_combines_admin_level_4_and_place_nodes() {
    let areas = [area("RegionArea", 4), area("NotRegion", 8)];
    let places = [place(1, "StateNode", "state", 0, &[]), place(2, "NotRegionPlace", "city", 0, &[])];
    let fs = extract_regions(&areas, &places);
    assert_eq!(fs.len(), 2, "one admin_level=4 area + one region place node");
    assert!(fs[0].from_area);
    assert_eq!(fs[0].id, hid("region-area|RegionArea"));
    assert!(!fs[1].from_area);
    assert_eq!(fs[1].id, hid("n1"));
}

#[test]
fn extract_regions_skips_areas_without_centroid() {
    let areas = [AreaInfo { name: "Ringless".into(), admin_level: 4, has_centroid: false }];
    assert!(extract_regions(&areas, &[]).is_empty());
}

#[test]
fn extract_countries_only_admin_level_2() {
    let fs = extract_countries(&[area("Countryland", 2), area("NotCountry", 4)]);
    assert_eq!(fs.len(), 1);
    assert_eq!(fs[0].text, "Countryland");
    assert_eq!(fs[0].id, hid("country-area|Countryland"));
    assert_eq!(fs[0].score, None);
}

#[test]
fn place_score_never_drops_with_population() {
    let mut last = 0;
    for pop in [0u64, 1, 5, 50, 500, 5_000, 50_000, 500_000, 5_000_000, u64::MAX] {
        let s = place_score_from_pop(pop);
        assert!(s >= last, "pop={pop}");
        last = s;
    }
}
