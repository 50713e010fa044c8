//! POI layer: scores, search text and the feature plan for POI candidates.
//!
//! Scores are calibrated against the place scores of `place`: a plain POI
//! scores 0, a brand-tagged POI gets a bonus that grows with the number of
//! branches of its brand in the extract, and an encyclopedic reference
//! (`wikidata`/`wikipedia`) adds 90.

use vstd::prelude::*;
use crate::log_round::{half_steps, half_steps_exec};
use crate::taxonomy::{TagMap, has_nonempty};
use crate::text::{dedup_join, dedup_join_spec, join_space, views, str_is_empty};

verus! {

/// Brand bonus by branch count: 40 for at most one branch, otherwise
/// `round(40 + 30·log10(n))`, evaluated exactly as `40 + half_steps(n, 60)`.
pub open spec fn brand_branch_bonus_spec(n: nat) -> int {
    if n <= 1 {
        40
    } else {
        40 + half_steps(n, 60) as int
    }
}

/// A brand with more branches never gets a smaller bonus, and the bonus is
/// never below 40.
pub proof fn lemma_brand_bonus_monotone(n1: nat, n2: nat)
    requires
        n1 <= n2,
    ensures
        40 <= brand_branch_bonus_spec(n1) <= brand_branch_bonus_spec(n2),
{
    if n1 > 1 {
        crate::log_round::lemma_half_steps_mono(n1, n2, 60);
    }
}

/// Branch-count-aware brand bonus (see [`brand_branch_bonus_spec`]).
pub fn brand_branch_bonus(branch_count: u64) -> (b: i64)
    ensures
        b as int == brand_branch_bonus_spec(branch_count as nat),
        40 <= b <= 640,
{
    if branch_count <= 1 {
        return 40;
    }
    let k = half_steps_exec(branch_count as u128, 60);
    40 + k as i64
}

/// An encyclopedic reference: non-empty `wikidata` or `wikipedia`.
pub open spec fn has_wiki(tags: Map<Seq<char>, Seq<char>>) -> bool {
    has_nonempty(tags, "wikidata"@) || has_nonempty(tags, "wikipedia"@)
}

/// POI score: 90 for an encyclopedic reference, plus the brand bonus when a
/// non-empty `brand` is present; 0 otherwise.
pub open spec fn poi_score_spec(tags: Map<Seq<char>, Seq<char>>, branch_count: nat) -> int {
    (if has_wiki(tags) {
        90int
    } else {
        0int
    }) + (if has_nonempty(tags, "brand"@) {
        brand_branch_bonus_spec(branch_count)
    } else {
        0int
    })
}

/// `carmen:score` / `popularity` of a POI (see [`poi_score_spec`]).
pub fn poi_score(tags: &TagMap, branch_count: u64) -> (s: i64)
    ensures
        s as int == poi_score_spec(tags@, branch_count as nat),
{
    let mut score: i64 = 0;
    let has_wiki = tags.has_nonempty("wikidata") || tags.has_nonempty("wikipedia");
    if has_wiki {
        score = score + 90;
    }
    if tags.has_nonempty("brand") {
        score = score + brand_branch_bonus(branch_count);
    }
    score
}

/// The non-empty entries of `v`, in order.
pub open spec fn nonempty_only(v: Seq<Seq<char>>) -> Seq<Seq<char>>
    decreases v.len(),
{
    if v.len() == 0 {
        seq![]
    } else {
        let p = nonempty_only(v.drop_last());
        if v.last().len() > 0 {
            p.push(v.last())
        } else {
            p
        }
    }
}

/// A locality that counts: present and non-empty.
pub open spec fn useful_locality(locality: Option<Seq<char>>) -> Option<Seq<char>> {
    match locality {
        Some(l) => if l.len() > 0 {
            Some(l)
        } else {
            None
        },
        None => None,
    }
}

/// `base` and, with a useful locality, `"base locality"`; nothing for an
/// empty `base`.
pub open spec fn with_locality(base: Seq<char>, locality: Option<Seq<char>>) -> Seq<Seq<char>> {
    if base.len() == 0 {
        seq![]
    } else {
        match useful_locality(locality) {
            Some(l) => seq![base, base + seq![' '] + l],
            None => seq![base],
        }
    }
}

/// POI aliases, name first: name and "name locality", the non-empty name
/// variants (`alt_name`, `short_name`, `official_name`), brand and "brand
/// locality", then the category.
pub open spec fn poi_aliases(
    name: Seq<char>,
    brand: Seq<char>,
    locality: Option<Seq<char>>,
    category: Option<Seq<char>>,
    variants: Seq<Seq<char>>,
) -> Seq<Seq<char>> {
    with_locality(name, locality) + nonempty_only(variants) + with_locality(brand, locality) + (
    match category {
        Some(c) => seq![c],
        None => seq![],
    })
}

/// Views of string slices.
pub open spec fn str_views(v: Seq<&str>) -> Seq<Seq<char>> {
    v.map_values(|s: &str| s@)
}

fn push_with_locality(aliases: &mut Vec<String>, base: &str, locality: Option<&str>)
    ensures
        views(final(aliases)@) == views(old(aliases)@) + with_locality(
            base@,
            crate::taxonomy::opt_str_view(locality),
        ),
{
    let ghost before = views(aliases@);
    if !str_is_empty(base) {
        aliases.push(base.to_owned());
        assert(views(aliases@) == before.push(base@));
        if let Some(loc) = locality {
            if !str_is_empty(loc) {
                aliases.push(join_space(base, loc));
                assert(views(aliases@) == before + seq![base@, base@ + seq![' '] + loc@]);
                return;
            }
        }
        assert(views(aliases@) == before + seq![base@]);
    } else {
        assert(views(aliases@) == before + Seq::<Seq<char>>::empty());
    }
}

/// POI `carmen:text`: the de-duplicated, comma-joined [`poi_aliases`].
pub fn carmen_text(
    name: &str,
    brand: &str,
    locality: Option<&str>,
    category: Option<&str>,
    name_variants: &[&str],
) -> (t: String)
    ensures
        t@ == dedup_join_spec(
            poi_aliases(
                name@,
                brand@,
                crate::taxonomy::opt_str_view(locality),
                crate::taxonomy::opt_str_view(category),
                str_views(name_variants@),
            ),
        ),
{
    let mut aliases: Vec<String> = Vec::new();
    assert(views(aliases@) == Seq::<Seq<char>>::empty());
    push_with_locality(&mut aliases, name, locality);
    let ghost after_name = views(aliases@);
    let ghost vv = str_views(name_variants@);
    let mut i: usize = 0;
    while i < name_variants.len()
        invariant
            i <= name_variants@.len(),
            vv == str_views(name_variants@),
            views(aliases@) == after_name + nonempty_only(vv.take(i as int)),
        decreases name_variants@.len() - i,
    {
        let v = name_variants[i];
        let ghost before = views(aliases@);
        proof {
            assert(vv.take(i as int + 1).drop_last() == vv.take(i as int));
            assert(vv.take(i as int + 1).last() == v@);
        }
        if !str_is_empty(v) {
            aliases.push(v.to_owned());
            assert(views(aliases@) == before.push(v@));
        }
        i = i + 1;
    }
    assert(vv.take(name_variants@.len() as int) == vv);
    push_with_locality(&mut aliases, brand, locality);
    let ghost before_cat = views(aliases@);
    if let Some(cat) = category {
        aliases.push(cat.to_owned());
        assert(views(aliases@) == before_cat + seq![cat@]);
    } else {
        assert(views(aliases@) == before_cat + Seq::<Seq<char>>::empty());
    }
    dedup_join(aliases.as_slice())
}

} // verus!

verus! {

/// One POI candidate: the object's kind letter (`n`/`w`), OSM id, tags and
/// the locality resolved for its position.
pub struct PoiCandidate {
    pub kind: char,
    pub id: i64,
    pub tags: TagMap,
    pub locality: Option<String>,
    /// Its cross-language names: the `name:<lang>` and `int_name` values of
    /// its tag list, sorted by key, at most 16 (see
    /// [`crate::boundaries::intl_names_of`]).
    pub intl_names: Vec<String>,
}

/// A planned POI feature; `index` is the candidate it comes from.
pub struct PoiFeature {
    pub index: usize,
    pub id: u64,
    pub text: String,
    pub score: i64,
    pub category: Option<&'static str>,
    pub locality: Option<String>,
    pub brand: Option<String>,
    pub housenumber: Option<String>,
}

/// The normalised brand of a tag set: trimmed, lower-cased, non-empty.
pub open spec fn brand_key(tags: Map<Seq<char>, Seq<char>>) -> Option<Seq<char>> {
    if tags.contains_key("brand"@) {
        let k = crate::text::lowercase(crate::text::trim_spec(tags["brand"@]));
        if k.len() > 0 {
            Some(k)
        } else {
            None
        }
    } else {
        None
    }
}

/// Number of candidates whose normalised brand is `k`.
pub open spec fn brand_count(cands: Seq<PoiCandidate>, k: Seq<char>) -> nat
    decreases cands.len(),
{
    if cands.len() == 0 {
        0
    } else {
        brand_count(cands.drop_last(), k) + if brand_key(cands.last().tags@) == Some(k) {
            1nat
        } else {
            0nat
        }
    }
}

/// Branch count of a candidate: the number of candidates sharing its
/// normalised brand; 0 without a brand.
pub open spec fn branch_count_spec(cands: Seq<PoiCandidate>, c: PoiCandidate) -> nat {
    let brand = crate::taxonomy::tag_or_empty(c.tags@, "brand"@);
    if brand.len() == 0 {
        0
    } else {
        brand_count(cands, crate::text::lowercase(crate::text::trim_spec(brand)))
    }
}

pub open spec fn name_variants_of(tags: Map<Seq<char>, Seq<char>>) -> Seq<Seq<char>> {
    seq![
        crate::taxonomy::tag_or_empty(tags, "alt_name"@),
        crate::taxonomy::tag_or_empty(tags, "short_name"@),
        crate::taxonomy::tag_or_empty(tags, "official_name"@),
    ]
}

/// `carmen:text` of a candidate: its aliases (see [`poi_aliases`]), with the
/// cross-language names (`name:<lang>`, `int_name`, sorted by key, at most
/// 16) after `alt_name`, `short_name` and `official_name`.
pub open spec fn poi_text_spec(c: PoiCandidate) -> Seq<char> {
    let tags = c.tags@;
    dedup_join_spec(
        poi_aliases(
            crate::taxonomy::tag_or_empty(tags, "name"@),
            crate::taxonomy::tag_or_empty(tags, "brand"@),
            crate::hierarchy::opt_string_view(c.locality),
            crate::taxonomy::category_spec(tags),
            name_variants_of(tags) + views(c.intl_names@),
        ),
    )
}

pub open spec fn nonempty_tag(tags: Map<Seq<char>, Seq<char>>, key: Seq<char>) -> Option<Seq<char>> {
    if has_nonempty(tags, key) {
        Some(tags[key])
    } else {
        None
    }
}

/// The feature planned for candidate `c` (at `index`), given its branch
/// count.
pub open spec fn poi_feature_ok(c: PoiCandidate, branch_count: nat, index: int, f: PoiFeature) -> bool {
    let tags = c.tags@;
    &&& f.index == index
    &&& f.id as nat == crate::ids::hid_spec(seq![c.kind] + crate::text::int_decimal(c.id as int))
    &&& f.text@ == poi_text_spec(c)
    &&& f.score as int == poi_score_spec(tags, branch_count)
    &&& crate::taxonomy::opt_str_view(f.category) == crate::taxonomy::category_spec(tags)
    &&& crate::hierarchy::opt_string_view(f.locality) == useful_locality(
        crate::hierarchy::opt_string_view(c.locality),
    )
    &&& crate::hierarchy::opt_string_view(f.brand) == nonempty_tag(tags, "brand"@)
    &&& crate::hierarchy::opt_string_view(f.housenumber) == nonempty_tag(tags, "addr:housenumber"@)
}

/// The POI layer plan: one feature per candidate with non-empty text, in
/// candidate order, each scored with its brand's branch count over all
/// candidates.
pub open spec fn poi_plan_ok(cands: Seq<PoiCandidate>, fs: Seq<PoiFeature>) -> bool {
    let kept = crate::layers::place::kept_indices(
        |i: int| poi_text_spec(cands[i]).len() > 0,
        cands.len() as int,
    );
    &&& fs.len() == kept.len()
    &&& forall|k: int|
        0 <= k < fs.len() ==> poi_feature_ok(
            cands[kept[k]],
            branch_count_spec(cands, cands[kept[k]]),
            kept[k],
            #[trigger] fs[k],
        )
}

fn opt_nonempty(tags: &TagMap, key: &str) -> (r: Option<String>)
    ensures
        crate::hierarchy::opt_string_view(r) == nonempty_tag(tags@, key@),
{
    match tags.get(key) {
        Some(v) => {
            if str_is_empty(v.as_str()) {
                None
            } else {
                Some(v.clone())
            }
        },
        None => None,
    }
}

fn tag_str<'a>(tags: &'a TagMap, key: &str) -> (r: &'a str)
    ensures
        r@ == crate::taxonomy::tag_or_empty(tags@, key@),
{
    proof {
        reveal_strlit("");
    }
    match tags.get(key) {
        Some(v) => v.as_str(),
        None => "",
    }
}

/// `carmen:text` of a POI candidate (see [`poi_text_spec`]).
pub fn poi_text(c: &PoiCandidate) -> (t: String)
    ensures
        t@ == poi_text_spec(*c),
{
    let name = tag_str(&c.tags, "name");
    let brand = tag_str(&c.tags, "brand");
    let category = crate::taxonomy::categorize(&c.tags);
    let locality: Option<&str> = match &c.locality {
        Some(l) => Some(l.as_str()),
        None => None,
    };
    let intl = &c.intl_names;
    let mut variants: Vec<&str> = Vec::new();
    variants.push(tag_str(&c.tags, "alt_name"));
    variants.push(tag_str(&c.tags, "short_name"));
    variants.push(tag_str(&c.tags, "official_name"));
    assert(str_views(variants@) == name_variants_of(c.tags@));
    let mut t: usize = 0;
    while t < intl.len()
        invariant
            t <= intl@.len(),
            str_views(variants@) == name_variants_of(c.tags@) + views(intl@).take(t as int),
        decreases intl@.len() - t,
    {
        let ghost before = str_views(variants@);
        variants.push(intl[t].as_str());
        assert(str_views(variants@) == before.push(intl@[t as int]@));
        assert(views(intl@).take(t as int + 1) == views(intl@).take(t as int).push(intl@[t as int]@));
        t = t + 1;
    }
    assert(views(intl@).take(intl@.len() as int) == views(intl@));
    carmen_text(name, brand, locality, category, variants.as_slice())
}

/// Plans the POI layer (see [`poi_plan_ok`]).
pub fn extract(cands: &[PoiCandidate]) -> (fs: Vec<PoiFeature>)
    ensures
        poi_plan_ok(cands@, fs@),
{
    // Branch counts per normalised brand, over all candidates.
    let mut counts: vstd::hash_map::StringHashMap<u64> = vstd::hash_map::StringHashMap::new();
    let mut i: usize = 0;
    while i < cands.len()
        invariant
            i <= cands@.len(),
            forall|k: Seq<char>|
                #![trigger counts@.contains_key(k)]
                counts@.contains_key(k) ==> counts@[k] as nat == brand_count(cands@.take(i as int), k),
            forall|k: Seq<char>|
                #![trigger counts@.contains_key(k)]
                !counts@.contains_key(k) ==> brand_count(cands@.take(i as int), k) == 0,
            forall|k: Seq<char>| #![trigger brand_count(cands@.take(i as int), k)] brand_count(cands@.take(i as int), k) <= i,
        decreases cands@.len() - i,
    {
        let c = &cands[i];
        let ghost pre = cands@.take(i as int);
        proof {
            assert(cands@.take(i as int + 1).drop_last() == pre);
            assert(cands@.take(i as int + 1).last() == cands@[i as int]);
        }
        match c.tags.get("brand") {
            Some(brand) => {
                let trimmed = crate::text::trim(brand.as_str());
                let key = crate::text::to_lowercase(trimmed.as_str());
                if !str_is_empty(key.as_str()) {
                    let old = match counts.get(key.as_str()) {
                        Some(n) => *n,
                        None => 0,
                    };
                    proof {
                        assert(brand_count(pre, key@) <= i);
                    }
                    counts.insert(key, old + 1);
                }
            },
            None => {},
        }
        proof {
            assert forall|k: Seq<char>| #![trigger brand_count(cands@.take(i as int + 1), k)]
                brand_count(cands@.take(i as int + 1), k) <= i + 1 by {
                assert(brand_count(pre, k) <= i);
            }
        }
        i = i + 1;
    }
    assert(cands@.take(cands@.len() as int) == cands@);
    let ghost q = |i: int| poi_text_spec(cands@[i]).len() > 0;
    let mut fs: Vec<PoiFeature> = Vec::new();
    let mut i: usize = 0;
    while i < cands.len()
        invariant
            i <= cands@.len(),
            q == (|i: int| poi_text_spec(cands@[i]).len() > 0),
            forall|k: Seq<char>|
                #![trigger counts@.contains_key(k)]
                counts@.contains_key(k) ==> counts@[k] as nat == brand_count(cands@, k),
            forall|k: Seq<char>|
                #![trigger counts@.contains_key(k)]
                !counts@.contains_key(k) ==> brand_count(cands@, k) == 0,
            fs@.len() == crate::layers::place::kept_indices(q, i as int).len(),
            forall|k: int|
                0 <= k < fs@.len() ==> poi_feature_ok(
                    cands@[crate::layers::place::kept_indices(q, i as int)[k]],
                    branch_count_spec(cands@, cands@[crate::layers::place::kept_indices(q, i as int)[k]]),
                    crate::layers::place::kept_indices(q, i as int)[k],
                    #[trigger] fs@[k],
                ),
        decreases cands@.len() - i,
    {
        let c = &cands[i];
        let brand = tag_str(&c.tags, "brand");
        let category = crate::taxonomy::categorize(&c.tags);
        let locality: Option<&str> = match &c.locality {
            Some(l) => Some(l.as_str()),
            None => None,
        };
        let text = poi_text(c);
        let ghost before = fs@;
        let mut pushed = false;
        if !str_is_empty(text.as_str()) {
            let branch_count: u64 = if str_is_empty(brand) {
                0
            } else {
                let trimmed = crate::text::trim(brand);
                let key = crate::text::to_lowercase(trimmed.as_str());
                match counts.get(key.as_str()) {
                    Some(n) => *n,
                    None => 0,
                }
            };
            let score = poi_score(&c.tags, branch_count);
            let loc_out = match locality {
                Some(l) => if str_is_empty(l) {
                    None
                } else {
                    Some(l.to_owned())
                },
                None => None,
            };
            let brand_out = opt_nonempty(&c.tags, "brand");
            let housenumber = opt_nonempty(&c.tags, "addr:housenumber");
            let sid = crate::ids::osm_sid(c.kind, c.id);
            let id = crate::ids::hid(sid.as_str());
            fs.push(
                PoiFeature {
                    index: i,
                    id,
                    text,
                    score,
                    category,
                    locality: loc_out,
                    brand: brand_out,
                    housenumber,
                },
            );
            pushed = true;
        }
        proof {
            assert(pushed == q(i as int));
            let kn = crate::layers::place::kept_indices(q, i as int + 1);
            let ko = crate::layers::place::kept_indices(q, i as int);
            if pushed {
                assert(kn == ko.push(i as int));
                assert forall|k: int| 0 <= k < fs@.len() implies poi_feature_ok(
                    cands@[kn[k]],
                    branch_count_spec(cands@, cands@[kn[k]]),
                    kn[k],
                    #[trigger] fs@[k],
                ) by {
                    if k < before.len() {
                        assert(fs@[k] == before[k]);
                        assert(kn[k] == ko[k]);
                    }
                }
            } else {
                assert(kn == ko);
            }
        }
        i = i + 1;
    }
    fs
}

/// A non-empty entry of `v` is kept by [`nonempty_only`].
proof fn lemma_nonempty_only_has(v: Seq<Seq<char>>, m: int)
    requires
        0 <= m < v.len(),
        v[m].len() > 0,
    ensures
        exists|t: int| 0 <= t < nonempty_only(v).len() && #[trigger] nonempty_only(v)[t] == v[m],
    decreases v.len(),
{
    let prev = nonempty_only(v.drop_last());
    if m == v.len() - 1 {
        assert(nonempty_only(v)[prev.len() as int] == v[m]);
    } else {
        assert(v.drop_last()[m] == v[m]);
        lemma_nonempty_only_has(v.drop_last(), m);
        let t = choose|t: int| 0 <= t < prev.len() && #[trigger] prev[t] == v[m];
        if v.last().len() > 0 {
            assert(nonempty_only(v) == prev.push(v.last()));
            assert(nonempty_only(v)[t] == prev[t]);
        } else {
            assert(nonempty_only(v) == prev);
        }
        assert(nonempty_only(v)[t] == v[m]);
    }
}

/// The search text of a POI holds each of its `name`, `alt_name`,
/// `short_name`, `official_name` and `brand` values that cleans to
/// something non-empty: cleaned, as one of its comma-separated fields (up
/// to letter case, where an earlier alias already stands for it).
pub proof fn lemma_poi_text_names(c: PoiCandidate, key: Seq<char>)
    requires
        key == "name"@ || key == "alt_name"@ || key == "short_name"@ || key == "official_name"@ || key
            == "brand"@,
        c.tags@.contains_key(key),
        crate::text::clean_alias_spec(c.tags@[key]).len() > 0,
    ensures
        exists|f: Seq<char>|
            #[trigger] crate::text::is_comma_field(poi_text_spec(c), f) && f.len() > 0
                && crate::text::lowercase(f) == crate::text::lowercase(
                crate::text::clean_alias_spec(c.tags@[key]),
            ),
{
    let tags = c.tags@;
    let value = tags[key];
    crate::text::lemma_clean_alias_nonempty(value);
    let name = crate::taxonomy::tag_or_empty(tags, "name"@);
    let brand = crate::taxonomy::tag_or_empty(tags, "brand"@);
    let loc = crate::hierarchy::opt_string_view(c.locality);
    let vars = name_variants_of(tags) + views(c.intl_names@);
    let w = with_locality(name, loc);
    let v = nonempty_only(vars);
    let b = with_locality(brand, loc);
    let aliases = poi_aliases(name, brand, loc, crate::taxonomy::category_spec(tags), vars);
    let idx: int = if key == "name"@ {
        assert(w[0] == name);
        0
    } else if key == "brand"@ {
        assert(b[0] == brand);
        (w.len() + v.len()) as int
    } else {
        let m: int = if key == "alt_name"@ {
            0
        } else if key == "short_name"@ {
            1
        } else {
            2
        };
        assert(vars[m] == value);
        lemma_nonempty_only_has(vars, m);
        let t = choose|t: int| 0 <= t < v.len() && #[trigger] v[t] == vars[m];
        w.len() + t
    };
    assert(0 <= idx < aliases.len() && aliases[idx] == value);
    crate::text::lemma_dedup_join_field(aliases, idx);
    assert(poi_text_spec(c) == dedup_join_spec(aliases));
    let f = choose|f: Seq<char>|
        #[trigger] crate::text::is_comma_field(dedup_join_spec(aliases), f) && f.len() > 0
            && crate::text::lowercase(f) == crate::text::lowercase(crate::text::clean_alias_spec(aliases[idx]));
    assert(crate::text::is_comma_field(poi_text_spec(c), f));
}

/// The search text of a POI holds each of its cross-language names that
/// cleans to something non-empty: cleaned, as one of its comma-separated
/// fields (up to letter case, where an earlier alias already stands for it).
pub proof fn lemma_poi_text_intl_names(c: PoiCandidate, j: int)
    requires
        0 <= j < c.intl_names@.len(),
        crate::text::clean_alias_spec(c.intl_names@[j]@).len() > 0,
    ensures
        exists|f: Seq<char>|
            #[trigger] crate::text::is_comma_field(poi_text_spec(c), f) && crate::text::lowercase(f)
                == crate::text::lowercase(crate::text::clean_alias_spec(c.intl_names@[j]@)),
{
    let tags = c.tags@;
    let value = c.intl_names@[j]@;
    crate::text::lemma_clean_alias_nonempty(value);
    let name = crate::taxonomy::tag_or_empty(tags, "name"@);
    let brand = crate::taxonomy::tag_or_empty(tags, "brand"@);
    let loc = crate::hierarchy::opt_string_view(c.locality);
    let vars = name_variants_of(tags) + views(c.intl_names@);
    let w = with_locality(name, loc);
    let v = nonempty_only(vars);
    let aliases = poi_aliases(name, brand, loc, crate::taxonomy::category_spec(tags), vars);
    assert(vars[3 + j] == value);
    lemma_nonempty_only_has(vars, 3 + j);
    let t = choose|t: int| 0 <= t < v.len() && #[trigger] v[t] == vars[3 + j];
    let idx = w.len() + t;
    assert(0 <= idx < aliases.len() && aliases[idx] == value);
    crate::text::lemma_dedup_join_field(aliases, idx);
    assert(poi_text_spec(c) == dedup_join_spec(aliases));
    let f = choose|f: Seq<char>|
        #[trigger] crate::text::is_comma_field(dedup_join_spec(aliases), f) && f.len() > 0
            && crate::text::lowercase(f) == crate::text::lowercase(crate::text::clean_alias_spec(aliases[idx]));
    assert(crate::text::is_comma_field(poi_text_spec(c), f));
}

/// POI scores by tag: a non-empty `wikidata` or `wikipedia` adds 90, a
/// non-empty `brand` adds the branch bonus (at least 40, never less for more
/// branches), and a POI with neither scores 0.
pub proof fn lemma_poi_score_tags(tags: Map<Seq<char>, Seq<char>>, n1: nat, n2: nat)
    ensures
        (has_nonempty(tags, "wikidata"@) || has_nonempty(tags, "wikipedia"@)) && !has_nonempty(tags, "brand"@)
            ==> poi_score_spec(tags, n1) == 90,
        !has_nonempty(tags, "wikidata"@) && !has_nonempty(tags, "wikipedia"@) && !has_nonempty(tags, "brand"@)
            ==> poi_score_spec(tags, n1) == 0,
        !has_nonempty(tags, "wikidata"@) && !has_nonempty(tags, "wikipedia"@) && has_nonempty(tags, "brand"@)
            ==> poi_score_spec(tags, n1) == brand_branch_bonus_spec(n1),
        (has_nonempty(tags, "wikidata"@) || has_nonempty(tags, "wikipedia"@)) && has_nonempty(tags, "brand"@)
            ==> poi_score_spec(tags, n1) == 90 + brand_branch_bonus_spec(n1),
        has_nonempty(tags, "brand"@) && n1 <= n2 ==> 40 <= poi_score_spec(tags, n1) <= poi_score_spec(tags, n2),
        brand_branch_bonus_spec(0) == 40 && brand_branch_bonus_spec(1) == 40,
{
    if n1 <= n2 {
        lemma_brand_bonus_monotone(n1, n2);
    }
}

} // verus!

