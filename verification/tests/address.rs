use atlas_extract::ids::hid;
use atlas_extract::layers::address::{
    candidate_from_tags, carmen_text, extract, has_address_tags, segment_group, AddressCandidate,
};
use atlas_extract::taxonomy::TagMap;

fn cand(street: &str, hn: &str, postcode: Option<&str>, locality: &str) -> AddressCandidate {
    AddressCandidate {
        street: street.to_string(),
        housenumber: hn.to_string(),
        postcode: postcode.map(|p| p.to_string()),
        locality: locality.to_string(),
    }
}

#[test]
fn address_carmen_text_with_locality() {
    assert_eq!(carmen_text("Main St", "Monaco"), "Main St,Main St Monaco");
}

#[test]
fn carmen_text_without_locality_is_just_street() {
    assert_eq!(carmen_text("Main St", ""), "Main St");
}

#[test]
fn has_address_tags_requires_both() {
    let mut t = TagMap::new();
    assert!(!has_address_tags(&t));
    t.insert("addr:housenumber".into(), "12".into());
    assert!(!has_address_tags(&t));
    t.insert("addr:street".into(), "Main St".into());
    assert!(has_address_tags(&t));
}

#[test]
fn has_address_tags_rejects_empty_values() {
    let mut t = TagMap::new();
    t.insert("addr:housenumber".into(), "".into());
    t.insert("addr:street".into(), "Main St".into());
    assert!(!has_address_tags(&t));
}

#[test]
fn candidate_from_tags_none_when_missing_street() {
    let mut t = TagMap::new();
    t.insert("addr:housenumber".into(), "12".into());
    assert!(candidate_from_tags(&t).is_none());
}

#[test]
fn candidate_from_tags_drops_empty_postcode() {
    let t = TagMap::from_pairs(&[
        ("addr:housenumber", "3"),
        ("addr:street", "Rue Grimaldi"),
        ("addr:postcode", ""),
    ]);
    let a = candidate_from_tags(&t).unwrap();
    assert_eq!(a.street, "Rue Grimaldi");
    assert_eq!(a.housenumber, "3");
    assert_eq!(a.postcode, None);
}

#[test]
fn emit_group_emits_postcode_when_any_member_has_it() {
    let cands = vec![
        cand("Postcode St", "1", Some("98000"), "Monaco"),
        cand("Postcode St", "2", None, "Monaco"),
        cand("Postcode St", "3", Some("98000"), "Monaco"),
    ];
    let ms = vec![0usize, 1, 2];
    let segs = segment_group(&cands, "Postcode St", "Monaco", &ms);
    assert_eq!(segs.len(), 1, "Must emit exactly one feature");
    assert_eq!(segs[0].postcode.as_deref(), Some("98000"));
}

#[test]
fn emit_group_omits_postcode_when_no_members_have_it() {
    let cands = vec![cand("No Postcode St", "1", None, "Nowhere"), cand("No Postcode St", "2", None, "Nowhere")];
    let segs = segment_group(&cands, "No Postcode St", "Nowhere", &vec![0usize, 1]);
    assert_eq!(segs.len(), 1);
    assert!(segs[0].postcode.is_none());
}

#[test]
fn emit_group_splits_4001_members_into_2000_2000_1() {
    let cands: Vec<AddressCandidate> =
        (0..4001).map(|i| cand("Synthetic St", &format!("{i}"), None, "Testville")).collect();
    let ms: Vec<usize> = (0..4001).collect();
    let segs = segment_group(&cands, "Synthetic St", "Testville", &ms);
    assert_eq!(segs.len(), 3, "4001 members must split into exactly 3 segments");
    let sizes: Vec<usize> = segs
        .iter()
        .map(|s| {
            assert_eq!(s.members.len(), s.numbers.len());
            s.members.len()
        })
        .collect();
    assert_eq!(sizes, vec![2000, 2000, 1]);
    assert_eq!(segs[0].id, hid("addr:Synthetic St:Testville:0"));
    assert_eq!(segs[1].id, hid("addr:Synthetic St:Testville:1"));
    assert_eq!(segs[2].id, hid("addr:Synthetic St:Testville:2"));
    assert_ne!(segs[0].id, segs[1].id);
    assert_ne!(segs[1].id, segs[2].id);
    assert_eq!(segs[2].members, vec![4000]);
    assert_eq!(segs[2].numbers, vec!["4000".to_string()]);
}

#[test]
fn emit_group_empty_members_emits_nothing() {
    let cands: Vec<AddressCandidate> = Vec::new();
    let segs = segment_group(&cands, "Empty St", "Nowhere", &Vec::new());
    assert_eq!(segs.len(), 0);
}

#[test]
fn segment_fields_follow_the_group() {
    let cands = vec![cand("Main St", "7", None, "")];
    let segs = segment_group(&cands, "Main St", "", &vec![0usize]);
    assert_eq!(segs[0].text, "Main St");
    assert_eq!(segs[0].city, None);
    assert_eq!(segs[0].id, hid("addr:Main St::0"));
}

#[test]
fn group_addresses_groups_by_street_and_locality_in_first_seen_order() {
    let cands = vec![
        cand("B St", "2", None, "Town"),
        cand("A St", "10", Some("1000"), "Town"),
        cand("B St", "1", Some("2000"), "Town"),
        cand("A St", "9", None, "Town"),
        cand("B St", "3", None, "Village"),
    ];
    let gs = extract(&cands);
    assert_eq!(gs.len(), 3);
    assert_eq!((gs[0].street.as_str(), gs[0].locality.as_str()), ("B St", "Town"));
    assert_eq!((gs[1].street.as_str(), gs[1].locality.as_str()), ("A St", "Town"));
    assert_eq!((gs[2].street.as_str(), gs[2].locality.as_str()), ("B St", "Village"));
    // House numbers sort as strings: "1" < "2", and "10" < "9".
    assert_eq!(gs[0].segments[0].members, vec![2, 0]);
    assert_eq!(gs[0].segments[0].numbers, vec!["1".to_string(), "2".to_string()]);
    assert_eq!(gs[0].segments[0].postcode.as_deref(), Some("2000"));
    assert_eq!(gs[1].segments[0].numbers, vec!["10".to_string(), "9".to_string()]);
    assert_eq!(gs[1].segments[0].postcode.as_deref(), Some("1000"));
    assert_eq!(gs[2].segments[0].members, vec![4]);
    assert_eq!(gs[2].segments[0].city.as_deref(), Some("Village"));
    assert_eq!(gs[0].segments[0].text, "B St,B St Town");
}

#[test]
fn group_addresses_sort_is_stable_for_equal_numbers() {
    let cands = vec![
        cand("C St", "5", Some("A"), "X"),
        cand("C St", "5", Some("B"), "X"),
        cand("C St", "4", None, "X"),
    ];
    let gs = extract(&cands);
    assert_eq!(gs[0].segments[0].members, vec![2, 0, 1]);
    assert_eq!(gs[0].segments[0].postcode.as_deref(), Some("A"));
}
