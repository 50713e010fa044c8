use atlas_extract::ids::hid;
use atlas_extract::layers::postcode::{clean_alias, extract, postcode_from_tags};
use atlas_extract::taxonomy::TagMap;

#[test]
fn clean_alias_strips_commas_and_collapses_whitespace() {
    assert_eq!(clean_alias("98,000"), "98 000");
    assert_eq!(clean_alias("  98000  "), "98000");
}

#[test]
fn postcode_from_tags_none_when_missing_or_empty() {
    let mut t = TagMap::new();
    assert!(postcode_from_tags(&t).is_none());
    t.insert("addr:postcode".into(), "".into());
    assert!(postcode_from_tags(&t).is_none());
    t.insert("addr:postcode".into(), "98000".into());
    assert_eq!(postcode_from_tags(&t), Some("98000".to_string()));
}

#[test]
fn grouping_key_normalized_before_lookup() {
    let codes = vec!["98000".to_string(), "98000 ".to_string(), " 98000".to_string()];
    let groups = extract(&codes);
    assert_eq!(groups.len(), 1, "all variants clean to '98000'");
    assert_eq!(groups[0].code, "98000", "stored code must be the cleaned key");
    assert_eq!(groups[0].members, vec![0, 1, 2], "group must have 3 members");
}

#[test]
fn groups_keep_first_seen_order_and_skip_blank_codes() {
    let codes = vec!["98000".to_string(), " , ".to_string(), "06240".to_string(), "98,000".to_string(), "98000".to_string()];
    let groups = extract(&codes);
    assert_eq!(groups.len(), 3);
    assert_eq!(groups[0].code, "98000");
    assert_eq!(groups[0].members, vec![0, 4]);
    assert_eq!(groups[1].code, "06240");
    assert_eq!(groups[1].members, vec![2]);
    assert_eq!(groups[2].code, "98 000");
    assert_eq!(groups[0].id, hid("postcode|98000"));
    assert_ne!(groups[0].id, groups[1].id);
}

#[test]
fn cleaning_twice_changes_nothing() {
    for s in ["98,000", "  a ,, b\tc  ", "", " , ", "Monaco-Ville"] {
        let once = clean_alias(s);
        assert_eq!(clean_alias(&once), once);
    }
}
