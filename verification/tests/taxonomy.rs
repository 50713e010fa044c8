use atlas_extract::taxonomy::{categorize, is_poi, TagMap};

fn tags(pairs: &[(&str, &str)]) -> TagMap {
    TagMap::from_pairs(pairs)
}

#[test]
fn amenity_restaurant() {
    assert_eq!(categorize(&tags(&[("amenity", "restaurant")])), Some("restaurant"));
}

#[test]
fn shop_wildcard_falls_back_to_generic() {
    assert_eq!(categorize(&tags(&[("shop", "zibzab")])), Some("shop"));
}

#[test]
fn precedence_matches_lua_order() {
    let t = tags(&[("amenity", "cafe"), ("shop", "bakery")]);
    assert_eq!(categorize(&t), Some("cafe"));
}

#[test]
fn non_poi_returns_none() {
    assert_eq!(categorize(&tags(&[("highway", "residential")])), None);
}

#[test]
fn unmapped_tag_returns_none() {
    assert_eq!(categorize(&tags(&[("foo", "bar")])), None);
}

#[test]
fn is_poi_requires_name_or_brand_plus_category() {
    assert_eq!(is_poi(&tags(&[("amenity", "cafe")])), false);
    assert_eq!(is_poi(&tags(&[("amenity", "cafe"), ("name", "Joe's")])), true);
    assert_eq!(is_poi(&tags(&[("amenity", "cafe"), ("brand", "Starbucks")])), true);
    assert_eq!(is_poi(&tags(&[("foo", "bar"), ("name", "Nothing")])), false);
}

#[test]
fn later_insert_replaces_earlier_value() {
    let mut t = TagMap::new();
    t.insert("amenity".to_string(), "bank".to_string());
    t.insert("amenity".to_string(), "cafe".to_string());
    assert_eq!(t.get("amenity").map(String::as_str), Some("cafe"));
    assert_eq!(categorize(&t), Some("cafe"));
}

#[test]
fn shop_row_before_wildcard_wins() {
    assert_eq!(categorize(&tags(&[("shop", "bakery")])), Some("bakery"));
    assert_eq!(categorize(&tags(&[("railway", "station")])), Some("train_station"));
    assert_eq!(categorize(&tags(&[("leisure", "picnic_table")])), Some("picnic_area"));
}

#[test]
fn tags_to_map_collects_pairs() {
    let map = TagMap::from_pairs(&[("amenity", "cafe"), ("name", "Joe's")]);
    assert_eq!(map.get("amenity").map(String::as_str), Some("cafe"));
    assert_eq!(map.get("name").map(String::as_str), Some("Joe's"));
}

#[test]
fn tag_map_later_value_wins() {
    let map = TagMap::from_pairs(&[("name", "Old"), ("name", "New")]);
    assert_eq!(map.get("name").map(String::as_str), Some("New"));
    assert!(!map.contains_key("brand"));
}
