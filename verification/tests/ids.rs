use atlas_extract::ids::{hid, hid_from_digest, osm_sid};

#[test]
fn hid_matches_python_blake2b7() {
    assert_eq!(hid("n1"), 52385471604144979);
    assert_eq!(hid("w42"), 54027233708865090);
    assert_eq!(hid("r7444"), 15141391783958377);
    assert_eq!(hid("n123456789"), 52076732293777007);
    assert_eq!(hid("abc"), 60012850110631570);
    assert!(hid("n1") < (1u64 << 56));
}

#[test]
fn sid_format() {
    assert_eq!(osm_sid('n', 123), "n123");
}

#[test]
fn sid_format_negative_and_extreme_ids() {
    assert_eq!(osm_sid('w', -42), "w-42");
    assert_eq!(osm_sid('r', 0), "r0");
    assert_eq!(osm_sid('n', i64::MIN), "n-9223372036854775808");
    assert_eq!(osm_sid('n', i64::MAX), "n9223372036854775807");
}

#[test]
fn hid_from_digest_is_big_endian() {
    assert_eq!(hid_from_digest(&[0, 0, 0, 0, 0, 1, 2]), 258);
    assert_eq!(hid_from_digest(&[255; 7]), (1u64 << 56) - 1);
}
