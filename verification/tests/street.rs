use atlas_extract::layers::street::{carmen_text, is_named_street, street_score};
use atlas_extract::taxonomy::TagMap;
use atlas_extract::ids::hid;
use atlas_extract::layers::street::{extract, StreetCandidate};

fn tags(pairs: &[(&str, &str)]) -> TagMap {
    TagMap::from_pairs(pairs)
}

#[test]
fn street_score_matches_python_table() {
    assert_eq!(street_score("motorway"), 100);
    assert_eq!(street_score("trunk"), 70);
    assert_eq!(street_score("primary"), 50);
    assert_eq!(street_score("secondary"), 30);
    assert_eq!(street_score("tertiary"), 15);
    assert_eq!(street_score("unclassified"), 5);
    assert_eq!(street_score("pedestrian"), 3);
    assert_eq!(street_score("residential"), 2);
}

#[test]
fn street_score_defaults_to_one_for_unlisted_class() {
    assert_eq!(street_score("service"), 1);
    assert_eq!(street_score("living_street"), 1);
    assert_eq!(street_score("track"), 1);
}

#[test]
fn is_named_street_accepts_any_highway_class_when_named() {
    for hc in &[
        "motorway", "trunk", "primary", "secondary", "tertiary", "residential",
        "pedestrian", "living_street", "unclassified", "service", "track", "footway",
        "unknown_class", "path", "bridleway",
    ] {
        assert!(
            is_named_street(&tags(&[("highway", hc), ("name", "X")])),
            "expected {hc} with name to qualify"
        );
    }
}

#[test]
fn is_named_street_requires_both_highway_and_name() {
    assert!(!is_named_street(&tags(&[("name", "Nameless")])));
    assert!(!is_named_street(&tags(&[("highway", "residential")])));
    assert!(!is_named_street(&tags(&[("highway", ""), ("name", "X")])));
    assert!(!is_named_street(&tags(&[("highway", "residential"), ("name", "")])));
}

#[test]
fn street_carmen_text_with_locality() {
    assert_eq!(carmen_text("Main St", Some("Monaco")), "Main St,Main St Monaco");
}

#[test]
fn carmen_text_without_locality_is_just_name() {
    assert_eq!(carmen_text("Main St", None), "Main St");
}

#[test]
fn carmen_text_empty_locality_is_deduped_away() {
    assert_eq!(carmen_text("Main St", Some("")), "Main St");
}

#[test]
fn street_extract_plans_one_feature_per_named_way() {
    let cands = vec![
        StreetCandidate { id: 7, name: "Rue Grimaldi".into(), highway: "primary".into(), locality: Some("Monaco".into()) },
        StreetCandidate { id: 8, name: " , ".into(), highway: "residential".into(), locality: None },
        StreetCandidate { id: 9, name: "Boulevard".into(), highway: "".into(), locality: Some("".into()) },
    ];
    let fs = extract(&cands);
    assert_eq!(fs.len(), 2);
    assert_eq!(fs[0].index, 0);
    assert_eq!(fs[0].id, hid("w7"));
    assert_eq!(fs[0].text, "Rue Grimaldi,Rue Grimaldi Monaco");
    assert_eq!(fs[0].score, street_score("primary"));
    assert_eq!(fs[0].locality.as_deref(), Some("Monaco"));
    assert_eq!(fs[0].highway_class.as_deref(), Some("primary"));
    assert_eq!(fs[1].index, 2);
    assert_eq!(fs[1].text, "Boulevard");
    assert_eq!(fs[1].locality, None);
    assert_eq!(fs[1].highway_class, None);
}
