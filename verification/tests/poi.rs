use atlas_extract::layers::poi::{brand_branch_bonus, carmen_text, poi_score};
use atlas_extract::taxonomy::TagMap;
use atlas_extract::text::dedup_join;
use atlas_extract::ids::{hid, osm_sid};
use atlas_extract::layers::poi::{extract, PoiCandidate};
use atlas_extract::boundaries::intl_names_of;

fn tags(pairs: &[(&str, &str)]) -> TagMap {
    TagMap::from_pairs(pairs)
}

#[test]
fn poi_score_base_only() {
    assert_eq!(poi_score(&tags(&[("amenity", "cafe")]), 1), 0);
}

#[test]
fn poi_score_wikidata_bonus() {
    assert_eq!(poi_score(&tags(&[("wikidata", "Q123")]), 1), 90);
}

#[test]
fn poi_score_wikipedia_bonus() {
    assert_eq!(poi_score(&tags(&[("wikipedia", "en:Foo")]), 1), 90);
}

#[test]
fn poi_score_brand_bonus() {
    assert_eq!(poi_score(&tags(&[("brand", "Starbucks")]), 1), 40);
}

#[test]
fn poi_score_wiki_and_brand_stack() {
    assert_eq!(poi_score(&tags(&[("wikidata", "Q1"), ("brand", "Starbucks")]), 1), 130);
}

#[test]
fn poi_score_empty_wikidata_value_does_not_count() {
    assert_eq!(poi_score(&tags(&[("wikidata", "")]), 1), 0);
}

#[test]
fn poi_score_brand_single_branch_stays_at_forty() {
    assert_eq!(poi_score(&tags(&[("brand", "Joe's Cafe")]), 1), 40);
}

#[test]
fn poi_score_brand_two_branches_stays_near_forty() {
    let score = poi_score(&tags(&[("brand", "Joe's Cafe")]), 2);
    assert_eq!(score, 49);
}

#[test]
fn poi_score_brand_ten_branches_lands_sixty_to_eighty() {
    let score = poi_score(&tags(&[("brand", "Local Chain")]), 10);
    assert!((60..=80).contains(&score), "10-branch bonus={score} must land in 60-80");
    assert_eq!(score, 70);
}

#[test]
fn poi_score_brand_backwerk_thirty_branches() {
    let score = poi_score(&tags(&[("brand", "BackWerk")]), 30);
    assert_eq!(score, 84);
}

#[test]
fn poi_score_brand_greenpoint_twentythree_branches() {
    let score = poi_score(&tags(&[("brand", "Greenpoint")]), 23);
    assert_eq!(score, 81);
}

#[test]
fn poi_score_brand_kruidvat_988_branches_lands_hundred_to_hundredfifty() {
    let score = poi_score(&tags(&[("brand", "Kruidvat")]), 988);
    assert!((100..=150).contains(&score), "988-branch bonus={score} must land in 100-150");
    assert_eq!(score, 130);
}

#[test]
fn poi_score_brand_albert_heijn_1252_branches_lands_hundred_to_hundredfifty() {
    let score = poi_score(&tags(&[("brand", "Albert Heijn")]), 1252);
    assert!((100..=150).contains(&score), "1252-branch bonus={score} must land in 100-150");
    assert_eq!(score, 133);
}

#[test]
fn poi_score_brand_thousand_branches_matches_curve() {
    let score = poi_score(&tags(&[("brand", "Mega Chain")]), 1000);
    assert_eq!(score, 130);
}

#[test]
fn poi_score_brand_zero_branch_count_treated_as_one() {
    assert_eq!(poi_score(&tags(&[("brand", "Solo")]), 0), 40);
}

#[test]
fn poi_score_brand_and_wiki_stack_with_branch_count() {
    let score = poi_score(&tags(&[("wikidata", "Q1"), ("brand", "Kruidvat")]), 988);
    assert_eq!(score, 90 + 130);
}

#[test]
fn poi_score_ordering_matches_production_relationships() {
    fn place_score_from_pop(pop: u64) -> i64 {
        if pop == 0 {
            return 0;
        }
        let score = 20.0 * (pop as f64 + 1.0).log10();
        score.round().min(250.0) as i64
    }

    let plain = poi_score(&tags(&[("amenity", "cafe")]), 1);
    let brand_solo = poi_score(&tags(&[("brand", "Starbucks")]), 1);
    let wiki = poi_score(&tags(&[("wikidata", "Q123")]), 1);
    let city_800k = place_score_from_pop(800_000);
    let village_500 = place_score_from_pop(500);
    let small_town_5000 = place_score_from_pop(5000);

    assert!(city_800k > wiki, "city(800k)={city_800k} must beat wiki-POI={wiki}");
    assert!(wiki > brand_solo, "wiki-POI={wiki} must beat solo brand-POI={brand_solo}");
    assert!(brand_solo > plain, "solo brand-POI={brand_solo} must beat plain-POI={plain}");
    assert!(wiki > village_500, "wiki-POI={wiki} must still beat village(500)={village_500}");

    let brand_10 = poi_score(&tags(&[("brand", "Local Chain")]), 10);
    assert!(
        brand_10 < small_town_5000,
        "10-branch brand-POI={brand_10} must stay below small town(5000)={small_town_5000}"
    );

    let brand_kruidvat = poi_score(&tags(&[("brand", "Kruidvat")]), 988);
    assert!(
        brand_kruidvat > city_800k,
        "988-branch brand-POI={brand_kruidvat} must beat city(800k)={city_800k} (large-chain exception)"
    );
}

#[test]
fn brand_branch_bonus_matches_float_curve() {
    for n in [2u64, 3, 7, 9, 10, 11, 23, 30, 99, 100, 101, 316, 317, 988, 1000, 1252, 10_000, 123_456] {
        let expected = (40.0 + 30.0 * (n as f64).log10()).round() as i64;
        assert_eq!(brand_branch_bonus(n), expected, "n={n}");
    }
    assert_eq!(brand_branch_bonus(u64::MAX), 40 + 578);
}

#[test]
fn dedup_join_strips_commas_and_dedupes_case_insensitively() {
    let parts = vec!["Joe's, Cafe".to_string(), "joe's cafe".to_string(), "Cafe".to_string()];
    assert_eq!(dedup_join(&parts), "Joe's Cafe,Cafe");
}

#[test]
fn carmen_text_builds_name_first_alias_order() {
    let text = carmen_text("Joe's", "Acme", Some("Monaco"), Some("cafe"), &[]);
    assert_eq!(text, "Joe's,Joe's Monaco,Acme,Acme Monaco,cafe");
}

#[test]
fn carmen_text_omits_empty_slots() {
    let text = carmen_text("Joe's", "", None, Some("cafe"), &[]);
    assert_eq!(text, "Joe's,cafe");
}

#[test]
fn carmen_text_includes_name_variants_after_name_before_brand() {
    let text = carmen_text(
        "Centraal Station",
        "NS",
        None,
        Some("railway_station"),
        &["Amsterdam Centraal", "", "Amsterdam Centraal Station"],
    );
    assert_eq!(
        text,
        "Centraal Station,Amsterdam Centraal,Amsterdam Centraal Station,NS,railway_station"
    );
}

#[test]
fn carmen_text_amsterdam_centraal_alt_name_case() {
    let text = carmen_text(
        "Centraal Station",
        "",
        None,
        Some("railway_station"),
        &["Amsterdam Centraal", "", ""],
    );
    assert!(text.contains("Centraal Station"));
    assert!(text.contains("Amsterdam Centraal"));
}

#[test]
fn carmen_text_dedupes_name_variant_equal_to_name() {
    let text = carmen_text("Joe's", "", None, None, &["joe's", "", ""]);
    assert_eq!(text, "Joe's");
}

#[test]
fn poi_extract_scores_brands_by_branch_count() {
    let cands = vec![
        PoiCandidate { kind: 'n', id: 1, tags: tags(&[("amenity", "cafe"), ("brand", "Chain ")]), locality: None, intl_names: Vec::new() },
        PoiCandidate { kind: 'w', id: 2, tags: tags(&[("amenity", "cafe"), ("brand", "chain")]), locality: Some("Town".into()), intl_names: Vec::new() },
        PoiCandidate { kind: 'n', id: 3, tags: tags(&[("amenity", "cafe"), ("name", "Solo"), ("addr:housenumber", "4")]), locality: None, intl_names: Vec::new() },
    ];
    let fs = extract(&cands);
    assert_eq!(fs.len(), 3);
    assert_eq!(fs[0].score, brand_branch_bonus(2));
    assert_eq!(fs[1].score, brand_branch_bonus(2));
    assert_eq!(fs[2].score, 0);
    assert_eq!(fs[1].id, hid(&osm_sid('w', 2)));
    assert_eq!(fs[1].locality.as_deref(), Some("Town"));
    assert_eq!(fs[0].brand.as_deref(), Some("Chain "));
    assert_eq!(fs[2].housenumber.as_deref(), Some("4"));
    assert_eq!(fs[2].category, Some("cafe"));
}

#[test]
fn brand_bonus_never_drops_with_branches() {
    let mut last = 0;
    for n in [0u64, 1, 2, 3, 10, 30, 100, 988, 1252, 100_000, u64::MAX] {
        let b = brand_branch_bonus(n);
        assert!(b >= last && b >= 40, "n={n}");
        last = b;
    }
}

#[test]
fn carmen_text_includes_cross_language_names() {
    let pairs = [
        ("amenity", "casino"),
        ("name", "Casino de Monte Carlo"),
        ("name:en", "Monte-Carlo Casino and Opera House"),
        ("name:de", "Spielbank Monte Carlo"),
        ("name:etymology", "ignored"),
    ];
    let c = PoiCandidate { kind: 'n', id: 5, tags: tags(&pairs), locality: None, intl_names: intl_names_of(&pairs) };
    let fs = extract(&[c]);
    assert_eq!(
        fs[0].text,
        "Casino de Monte Carlo,Spielbank Monte Carlo,Monte-Carlo Casino and Opera House,casino"
    );
}

#[test]
fn intl_names_are_sorted_by_key_and_capped() {
    let mut pairs: Vec<(String, String)> = Vec::new();
    for (i, lang) in ["zu", "ab", "en", "fr", "de", "it", "es", "pt", "nl", "pl", "ru", "ja", "ko", "zh", "ar", "he", "el", "tr"].iter().enumerate() {
        pairs.push((format!("name:{lang}"), format!("N{i}")));
    }
    pairs.push(("int_name".to_string(), "Intl".to_string()));
    let borrowed: Vec<(&str, &str)> = pairs.iter().map(|(k, v)| (k.as_str(), v.as_str())).collect();
    let names = intl_names_of(&borrowed);
    assert_eq!(names.len(), 16);
    assert_eq!(names[0], "Intl");
    assert_eq!(names[1], "N1");
}
