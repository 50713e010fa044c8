use atlas_extract::layers::common::is_intl_name_key;

#[test]
fn is_intl_name_key_accepts_two_letter_lang() {
    assert!(is_intl_name_key("name:en"));
    assert!(is_intl_name_key("name:ja"));
    assert!(is_intl_name_key("name:zh"));
}

#[test]
fn is_intl_name_key_accepts_three_letter_lang() {
    assert!(is_intl_name_key("name:fil"));
}

#[test]
fn is_intl_name_key_rejects_etymology() {
    assert!(!is_intl_name_key("name:etymology"));
    assert!(!is_intl_name_key("name:etymology:wikidata"));
}

#[test]
fn is_intl_name_key_rejects_pronunciation() {
    assert!(!is_intl_name_key("name:pronunciation"));
}

#[test]
fn is_intl_name_key_rejects_carriageway_side_variants() {
    assert!(!is_intl_name_key("name:left"));
    assert!(!is_intl_name_key("name:right"));
}

#[test]
fn is_intl_name_key_rejects_script_variant_suffixes() {
    assert!(!is_intl_name_key("name:zh-Hans"));
    assert!(!is_intl_name_key("name:zh-Hant"));
    assert!(!is_intl_name_key("name:sr-Latn"));
}

#[test]
fn is_intl_name_key_rejects_non_name_keys() {
    assert!(!is_intl_name_key("brand"));
    assert!(!is_intl_name_key("official_name"));
    assert!(!is_intl_name_key("int_name"));
}

#[test]
fn is_intl_name_key_rejects_uppercase_or_wrong_length() {
    assert!(!is_intl_name_key("name:EN"));
    assert!(!is_intl_name_key("name:e"));
    assert!(!is_intl_name_key("name:english"));
}

#[test]
fn is_intl_name_key_rejects_non_ascii_letters() {
    assert!(!is_intl_name_key("name:é"));
    assert!(!is_intl_name_key("Name:en"));
    assert!(!is_intl_name_key("name:"));
}
