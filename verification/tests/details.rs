use atlas_extract::ids::{hid, osm_sid};
use atlas_extract::layers::details::{
    address_from_tags, details_record, first_tag, phones_from_tags, socials_from_tags,
};
use atlas_extract::taxonomy::{is_poi, TagMap};
use atlas_extract::layers::poi::{extract, PoiCandidate};
use atlas_extract::layers::details;

fn tags(pairs: &[(&str, &str)]) -> TagMap {
    TagMap::from_pairs(pairs)
}

fn social<'a>(s: &'a [(String, String)], label: &str) -> Option<&'a str> {
    s.iter().find(|(k, _)| k == label).map(|(_, v)| v.as_str())
}

#[test]
fn first_tag_prefers_first_present_nonempty() {
    let t = tags(&[("contact:website", "https://b.example")]);
    assert_eq!(first_tag(&t, &["website", "contact:website"]), Some("https://b.example"));
}

#[test]
fn first_tag_skips_empty_value() {
    let t = tags(&[("website", ""), ("contact:website", "https://b.example")]);
    assert_eq!(first_tag(&t, &["website", "contact:website"]), Some("https://b.example"));
}

#[test]
fn first_tag_takes_the_earlier_key() {
    let t = tags(&[("contact:website", "https://b.example"), ("website", "https://a.example")]);
    assert_eq!(first_tag(&t, &["website", "contact:website"]), Some("https://a.example"));
    assert_eq!(first_tag(&t, &["email"]), None);
}

#[test]
fn phones_from_tags_dedupes_preserving_order() {
    let t = tags(&[("phone", "+1"), ("contact:phone", "+1")]);
    assert_eq!(phones_from_tags(&t), vec!["+1".to_string()]);
}

#[test]
fn phones_from_tags_keeps_both_when_distinct() {
    let t = tags(&[("phone", "+1"), ("contact:phone", "+2")]);
    assert_eq!(phones_from_tags(&t), vec!["+1".to_string(), "+2".to_string()]);
}

#[test]
fn phones_from_tags_skips_empty_values() {
    let t = tags(&[("phone", ""), ("contact:phone", "+2")]);
    assert_eq!(phones_from_tags(&t), vec!["+2".to_string()]);
}

#[test]
fn socials_from_tags_collects_known_keys_only() {
    let t = tags(&[
        ("contact:instagram", "https://instagram.com/x"),
        ("contact:facebook", "https://facebook.com/x"),
        ("contact:youtube", "https://youtube.com/x"),
    ]);
    let socials = socials_from_tags(&t);
    assert_eq!(socials.len(), 2);
    assert_eq!(social(&socials, "instagram"), Some("https://instagram.com/x"));
    assert_eq!(social(&socials, "facebook"), Some("https://facebook.com/x"));
    assert!(social(&socials, "youtube").is_none());
}

#[test]
fn address_from_tags_assembles_expected_shape() {
    let t = tags(&[
        ("addr:housenumber", "4"),
        ("addr:street", "Avenue de la Madone"),
        ("addr:city", "Monaco"),
        ("addr:postcode", "98000"),
        ("addr:country", "MC"),
    ]);
    assert_eq!(address_from_tags(&t, None), "4 Avenue de la Madone, Monaco 98000, MC");
}

#[test]
fn address_from_tags_falls_back_to_locality_for_city() {
    let t = tags(&[("addr:street", "Main St")]);
    assert_eq!(address_from_tags(&t, Some("Fallback City")), "Main St, Fallback City");
}

#[test]
fn address_from_tags_empty_when_no_alnum_content() {
    let t = TagMap::new();
    assert_eq!(address_from_tags(&t, None), "");
}

#[test]
fn address_from_tags_collapses_inner_white_space() {
    let t = tags(&[("addr:street", "  Rue   Grimaldi "), ("addr:country", "MC")]);
    assert_eq!(address_from_tags(&t, None), "Rue Grimaldi , , MC");
}

#[test]
fn address_from_tags_counts_non_ascii_letters() {
    let t = tags(&[("addr:street", "é")]);
    assert_eq!(address_from_tags(&t, None), "é");
}

#[test]
fn is_poi_gate_excludes_non_poi_elements_with_detail_tags() {
    let t = tags(&[("highway", "crossing"), ("phone", "+123")]);
    assert!(!is_poi(&t), "sanity: taxonomy must reject this as a POI");
    assert!(details_record('n', 1, &t).is_none());
}

#[test]
fn details_record_requires_a_detail_field() {
    let t = tags(&[("amenity", "cafe"), ("name", "Chez Nous")]);
    assert!(is_poi(&t));
    assert!(details_record('n', 7, &t).is_none());
}

#[test]
fn details_record_carries_fields_and_poi_id() {
    let t = tags(&[
        ("amenity", "cafe"),
        ("name", "Chez Nous"),
        ("opening_hours", "Mo-Fr 08:00-18:00"),
        ("contact:email", "hi@example.com"),
    ]);
    let d = details_record('w', 42, &t).unwrap();
    assert_eq!(d.id, hid(&osm_sid('w', 42)));
    assert_eq!(d.name, "Chez Nous");
    assert_eq!(d.hours, "Mo-Fr 08:00-18:00");
    assert_eq!(d.email, "hi@example.com");
    assert_eq!(d.website, "");
    assert!(d.phones.is_empty());
    assert!(d.socials.is_empty());
    assert_eq!(d.address, "");
}

#[test]
fn details_id_is_the_poi_feature_id() {
    let t = tags(&[("amenity", "cafe"), ("name", "Chez Nous"), ("phone", "+377 1")]);
    let d = details_record('n', 99, &t).unwrap();
    let fs = extract(&[PoiCandidate { kind: 'n', id: 99, tags: t, locality: None, intl_names: Vec::new() }]);
    assert_eq!(fs.len(), 1);
    assert_eq!(fs[0].id, d.id);
}

#[test]
fn plan_details_keeps_only_poi_candidates_with_details() {
    let cands = vec![
        PoiCandidate { kind: 'n', id: 1, tags: tags(&[("amenity", "cafe"), ("name", "A"), ("phone", "+1")]), locality: None, intl_names: Vec::new() },
        PoiCandidate { kind: 'w', id: 2, tags: tags(&[("amenity", "cafe"), ("name", "B")]), locality: None, intl_names: Vec::new() },
        PoiCandidate { kind: 'n', id: 3, tags: tags(&[("highway", "crossing"), ("phone", "+2")]), locality: None, intl_names: Vec::new() },
        PoiCandidate { kind: 'w', id: 4, tags: tags(&[("shop", "bakery"), ("brand", "C"), ("website", "https://c.example")]), locality: None, intl_names: Vec::new() },
    ];
    let ds = details::extract(&cands);
    let fs = extract(&cands);
    assert_eq!(ds.len(), 2);
    assert_eq!(ds[0].id, hid(&osm_sid('n', 1)));
    assert_eq!(ds[1].id, hid(&osm_sid('w', 4)));
    for d in &ds {
        assert!(fs.iter().any(|f| f.id == d.id));
    }
}

#[test]
fn address_from_tags_ascii_without_letters_or_digits_is_empty() {
    let t = tags(&[("addr:street", "- / -")]);
    assert_eq!(address_from_tags(&t, None), "");
}
