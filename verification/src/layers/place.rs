//! Place, region and country layers.
//!
//! - places: one feature per place node whose `place` is a populated-place
//!   type ([`is_place_type`]); text is the name plus its cross-language
//!   aliases; score from population ([`place_score_from_pop`]).
//! - regions: admin areas with `admin_level` 4, plus place nodes whose
//!   `place` is `state` or `region`; fixed score 180.
//! - countries: admin areas with `admin_level` 2; no score.
//!
//! Coordinates (node positions, ring centroids, the four-decimal rounding of
//! country centres) are computed outside the library; here each input says
//! whether it has a centre, and the plan refers back to it by index.

use vstd::prelude::*;
use crate::boundaries::PlaceInfo;
use crate::ids::{hid, hid_spec, osm_sid};
use crate::log_round::{half_steps, half_steps_exec};
use crate::taxonomy::str_eq;
use crate::text::{clean_alias, clean_alias_spec, dedup_join, dedup_join_spec, int_decimal, views};

verus! {

/// Fixed region `carmen:score`.
pub const REGION_SCORE: i64 = 180;

/// `carmen:score` from population: 0 for no population, otherwise
/// `round(20·log10(pop + 1))` capped at 250, evaluated exactly as
/// `half_steps(pop + 1, 40)` (see [`crate::log_round`]).
pub open spec fn place_score_spec(pop: nat) -> int {
    if pop == 0 {
        0
    } else {
        let s = half_steps(pop + 1, 40);
        if s > 250 {
            250
        } else {
            s as int
        }
    }
}

/// A larger population never scores lower.
pub proof fn lemma_place_score_monotone(pop1: nat, pop2: nat)
    requires
        pop1 <= pop2,
    ensures
        place_score_spec(pop1) <= place_score_spec(pop2),
{
    crate::log_round::lemma_half_steps_mono(pop1 + 1, pop2 + 1, 40);
}

/// Population -> place `carmen:score` (see [`place_score_spec`]).
pub fn place_score_from_pop(pop: u64) -> (s: i64)
    ensures
        s as int == place_score_spec(pop as nat),
        0 <= s <= 250,
{
    if pop == 0 {
        return 0;
    }
    let k = half_steps_exec(pop as u128 + 1, 40);
    if k > 250 {
        250
    } else {
        k as i64
    }
}

/// Region/country search text: the name with commas stripped and white space
/// collapsed.
pub fn clean_text(name: &str) -> (t: String)
    ensures
        t@ == clean_alias_spec(name@),
{
    clean_alias(name)
}

/// Populated-place `place=*` values that go to the place layer.
pub open spec fn is_place_type(place: Seq<char>) -> bool {
    ||| place == "city"@
    ||| place == "town"@
    ||| place == "village"@
    ||| place == "hamlet"@
    ||| place == "suburb"@
    ||| place == "quarter"@
    ||| place == "neighbourhood"@
}

/// `place=*` values that mean a region or state.
pub open spec fn is_region_place_type(place: Seq<char>) -> bool {
    place == "state"@ || place == "region"@
}

fn place_type(place: &str) -> (b: bool)
    ensures
        b == is_place_type(place@),
{
    str_eq(place, "city") || str_eq(place, "town") || str_eq(place, "village") || str_eq(
        place,
        "hamlet",
    ) || str_eq(place, "suburb") || str_eq(place, "quarter") || str_eq(place, "neighbourhood")
}

fn region_place_type(place: &str) -> (b: bool)
    ensures
        b == is_region_place_type(place@),
{
    str_eq(place, "state") || str_eq(place, "region")
}

/// A planned point feature: which input it comes from, its id, text and
/// optional score and population.
pub struct PointFeature {
    /// Whether `index` refers to an admin area (else to a place node).
    pub from_area: bool,
    pub index: usize,
    pub id: u64,
    pub text: String,
    pub score: Option<i64>,
    pub population: Option<u64>,
}

/// An admin area as the region/country layers see it.
pub struct AreaInfo {
    pub name: String,
    pub admin_level: u8,
    /// Whether the area has a centre (a first ring with at least one
    /// coordinate).
    pub has_centroid: bool,
}

pub open spec fn node_sid(id: i64) -> Seq<char> {
    seq!['n'] + int_decimal(id as int)
}

/// The place feature of place node `p` (at `index`), if any.
pub open spec fn place_feature_ok(p: PlaceInfo, index: int, f: PointFeature) -> bool {
    &&& !f.from_area
    &&& f.index == index
    &&& f.id as nat == hid_spec(node_sid(p.id))
    &&& f.text@ == dedup_join_spec(seq![p.name@] + views(p.intl_names@))
    &&& f.score == Some(place_score_spec(p.population as nat) as i64)
    &&& f.population == if p.population > 0 {
        Some(p.population)
    } else {
        None
    }
}

/// Whether place node `p` yields a place feature.
pub open spec fn place_qualifies(p: PlaceInfo) -> bool {
    is_place_type(p.place@) && p.name@.len() > 0 && dedup_join_spec(
        seq![p.name@] + views(p.intl_names@),
    ).len() > 0
}

/// Input indices `< n` that yield a feature under `q`, in order.
pub open spec fn kept_indices(q: spec_fn(int) -> bool, n: int) -> Seq<int>
    decreases n,
{
    if n <= 0 {
        seq![]
    } else if q(n - 1) {
        kept_indices(q, n - 1).push(n - 1)
    } else {
        kept_indices(q, n - 1)
    }
}

/// Every index below `n` that qualifies under `q` is kept.
pub proof fn lemma_kept_indices_contains(q: spec_fn(int) -> bool, n: int, i: int)
    requires
        0 <= i < n,
        q(i),
    ensures
        kept_indices(q, n).contains(i),
    decreases n,
{
    if i < n - 1 {
        lemma_kept_indices_contains(q, n - 1, i);
        let prev = kept_indices(q, n - 1);
        let t = choose|t: int| 0 <= t < prev.len() && prev[t] == i;
        if q(n - 1) {
            assert(kept_indices(q, n)[t] == i);
        }
    } else {
        let cur = kept_indices(q, n);
        assert(cur[cur.len() - 1] == i);
    }
}

/// Every kept index is below `n` and qualifies under `q`.
pub proof fn lemma_kept_indices_range(q: spec_fn(int) -> bool, n: int)
    requires
        0 <= n,
    ensures
        forall|k: int|
            0 <= k < kept_indices(q, n).len() ==> {
                &&& 0 <= #[trigger] kept_indices(q, n)[k] < n
                &&& q(kept_indices(q, n)[k])
            },
    decreases n,
{
    if n > 0 {
        lemma_kept_indices_range(q, n - 1);
        let prev = kept_indices(q, n - 1);
        let cur = kept_indices(q, n);
        assert forall|k: int| 0 <= k < cur.len() implies {
            &&& 0 <= #[trigger] cur[k] < n
            &&& q(cur[k])
        } by {
            if k < prev.len() {
                assert(cur[k] == prev[k]);
            }
        }
    }
}

/// The place layer plan: one feature per qualifying place node, in input
/// order.
pub open spec fn places_plan_ok(places: Seq<PlaceInfo>, fs: Seq<PointFeature>) -> bool {
    let kept = kept_indices(|i: int| place_qualifies(places[i]), places.len() as int);
    &&& fs.len() == kept.len()
    &&& forall|k: int| 0 <= k < fs.len() ==> place_feature_ok(places[kept[k]], kept[k], #[trigger] fs[k])
}

fn place_text(p: &PlaceInfo) -> (t: String)
    ensures
        t@ == dedup_join_spec(seq![p.name@] + views(p.intl_names@)),
{
    let mut aliases: Vec<String> = Vec::new();
    aliases.push(p.name.clone());
    let mut j: usize = 0;
    while j < p.intl_names.len()
        invariant
            j <= p.intl_names@.len(),
            views(aliases@) == seq![p.name@] + views(p.intl_names@).take(j as int),
        decreases p.intl_names@.len() - j,
    {
        let ghost before = views(aliases@);
        let ghost before_aliases = aliases@;
        let name = p.intl_names[j].clone();
        aliases.push(name);
        assert(aliases@ == before_aliases.push(name));
        assert(views(aliases@) == before.push(p.intl_names@[j as int]@));
        assert(views(p.intl_names@).take(j as int + 1) == views(p.intl_names@).take(j as int).push(
            p.intl_names@[j as int]@,
        ));
        assert(seq![p.name@] + views(p.intl_names@).take(j as int + 1) == (seq![p.name@] + views(
            p.intl_names@,
        ).take(j as int)).push(p.intl_names@[j as int]@));
        j = j + 1;
    }
    assert(views(p.intl_names@).take(p.intl_names@.len() as int) == views(p.intl_names@));
    dedup_join(aliases.as_slice())
}

fn node_id(id: i64) -> (h: u64)
    ensures
        h as nat == hid_spec(node_sid(id)),
{
    let sid = osm_sid('n', id);
    hid(sid.as_str())
}

/// Plans the place layer (see [`places_plan_ok`]).
pub fn extract_places(places: &[PlaceInfo]) -> (fs: Vec<PointFeature>)
    ensures
        places_plan_ok(places@, fs@),
{
    let ghost q = |i: int| place_qualifies(places@[i]);
    let mut fs: Vec<PointFeature> = Vec::new();
    let mut i: usize = 0;
    while i < places.len()
        invariant
            i <= places@.len(),
            q == (|i: int| place_qualifies(places@[i])),
            fs@.len() == kept_indices(q, i as int).len(),
            forall|k: int|
                0 <= k < fs@.len() ==> place_feature_ok(
                    places@[kept_indices(q, i as int)[k]],
                    kept_indices(q, i as int)[k],
                    #[trigger] fs@[k],
                ),
        decreases places@.len() - i,
    {
        let p = &places[i];
        let ghost before = fs@;
        let mut pushed = false;
        if place_type(p.place.as_str()) && !crate::text::str_is_empty(p.name.as_str()) {
            let text = place_text(p);
            if !crate::text::str_is_empty(text.as_str()) {
                let score = place_score_from_pop(p.population);
                let population = if p.population > 0 {
                    Some(p.population)
                } else {
                    None
                };
                let id = node_id(p.id);
                fs.push(PointFeature { from_area: false, index: i, id, text, score: Some(score), population });
                pushed = true;
            }
        }
        proof {
            assert(pushed == q(i as int));
            let kn = kept_indices(q, i as int + 1);
            let ko = kept_indices(q, i as int);
            if pushed {
                assert(kn == ko.push(i as int));
                assert forall|k: int| 0 <= k < fs@.len() implies place_feature_ok(
                    places@[kn[k]],
                    kn[k],
                    #[trigger] fs@[k],
                ) by {
                    if k < before.len() {
                        assert(fs@[k] == before[k]);
                        assert(kn[k] == ko[k]);
                    }
                }
            } else {
                assert(kn == ko);
            }
        }
        i = i + 1;
    }
    fs
}

/// The text of a place feature holds the node's name and each of its
/// cross-language names that clean to something non-empty: cleaned, as
/// comma-separated fields (up to letter case, where an earlier alias already
/// stands for it).
pub proof fn lemma_place_text_names(places: Seq<PlaceInfo>, fs: Seq<PointFeature>, k: int, j: int)
    requires
        places_plan_ok(places, fs),
        0 <= k < fs.len(),
    ensures
        clean_alias_spec(places[fs[k].index as int].name@).len() > 0 ==> exists|f: Seq<char>|
            #[trigger] crate::text::is_comma_field(fs[k].text@, f) && crate::text::lowercase(f)
                == crate::text::lowercase(clean_alias_spec(places[fs[k].index as int].name@)),
        0 <= j < places[fs[k].index as int].intl_names@.len() && clean_alias_spec(
            places[fs[k].index as int].intl_names@[j]@,
        ).len() > 0 ==> exists|f: Seq<char>|
            #[trigger] crate::text::is_comma_field(fs[k].text@, f) && crate::text::lowercase(f)
                == crate::text::lowercase(clean_alias_spec(places[fs[k].index as int].intl_names@[j]@)),
{
    let q = |i: int| place_qualifies(places[i]);
    let kept = kept_indices(q, places.len() as int);
    assert(place_feature_ok(places[kept[k]], kept[k], fs[k]));
    let p = places[kept[k]];
    let parts = seq![p.name@] + views(p.intl_names@);
    if clean_alias_spec(p.name@).len() > 0 {
        assert(parts[0] == p.name@);
        crate::text::lemma_dedup_join_field(parts, 0);
    }
    if 0 <= j < p.intl_names@.len() && clean_alias_spec(p.intl_names@[j]@).len() > 0 {
        assert(parts[j + 1] == p.intl_names@[j]@);
        crate::text::lemma_dedup_join_field(parts, j + 1);
    }
}

/// The `place=*` values of the place layer: city, town, village, hamlet,
/// suburb, quarter and neighbourhood.  A place node with one of them and a
/// name that cleans to something non-empty gets a place feature, with the
/// node's id; a place node with any other value gets none.
pub proof fn lemma_place_layer_types(places: Seq<PlaceInfo>, fs: Seq<PointFeature>, i: int)
    requires
        places_plan_ok(places, fs),
        0 <= i < places.len(),
    ensures
        ({
            let t = places[i].place@;
            t == "city"@ || t == "town"@ || t == "village"@ || t == "hamlet"@ || t == "suburb"@ || t
                == "quarter"@ || t == "neighbourhood"@
        }) && clean_alias_spec(places[i].name@).len() > 0 ==> exists|k: int|
            0 <= k < fs.len() && #[trigger] fs[k].index == i && !fs[k].from_area && fs[k].id as nat
                == hid_spec(node_sid(places[i].id)),
        (exists|k: int| 0 <= k < fs.len() && #[trigger] fs[k].index == i) ==> ({
            let t = places[i].place@;
            t == "city"@ || t == "town"@ || t == "village"@ || t == "hamlet"@ || t == "suburb"@ || t
                == "quarter"@ || t == "neighbourhood"@
        }),
{
    let q = |j: int| place_qualifies(places[j]);
    let kept = kept_indices(q, places.len() as int);
    lemma_kept_indices_range(q, places.len() as int);
    let p = places[i];
    let t = p.place@;
    if (t == "city"@ || t == "town"@ || t == "village"@ || t == "hamlet"@ || t == "suburb"@ || t
        == "quarter"@ || t == "neighbourhood"@) && clean_alias_spec(p.name@).len() > 0 {
        crate::text::lemma_clean_alias_nonempty(p.name@);
        let parts = seq![p.name@] + views(p.intl_names@);
        assert(parts[0] == p.name@);
        crate::text::lemma_dedup_join_field(parts, 0);
        let f = choose|f: Seq<char>| #[trigger] crate::text::is_comma_field(dedup_join_spec(parts), f)
            && f.len() > 0 && crate::text::lowercase(f) == crate::text::lowercase(clean_alias_spec(parts[0]));
        assert(dedup_join_spec(parts).len() > 0) by {
            let (a, b) = choose|a: int, b: int|
                0 <= a <= b <= dedup_join_spec(parts).len() && #[trigger] dedup_join_spec(parts).subrange(a, b)
                    == f && (a == 0 || dedup_join_spec(parts)[a - 1] == ',') && (b == dedup_join_spec(parts).len()
                    || dedup_join_spec(parts)[b] == ',');
        }
        assert(q(i));
        lemma_kept_indices_contains(q, places.len() as int, i);
        let t2 = choose|t2: int| 0 <= t2 < kept.len() && kept[t2] == i;
        assert(place_feature_ok(places[kept[t2]], kept[t2], fs[t2]));
        assert(fs[t2].index == i);
    }
    if exists|k: int| 0 <= k < fs.len() && #[trigger] fs[k].index == i {
        let k = choose|k: int| 0 <= k < fs.len() && #[trigger] fs[k].index == i;
        assert(place_feature_ok(places[kept[k]], kept[k], fs[k]));
        assert(q(kept[k]));
    }
}

} // verus!

verus! {

/// The region feature of area `a` (at `index`), if it qualifies.
pub open spec fn region_area_qualifies(a: AreaInfo) -> bool {
    a.admin_level == 4 && a.name@.len() > 0 && a.has_centroid && clean_alias_spec(a.name@).len() > 0
}

pub open spec fn region_area_feature_ok(a: AreaInfo, index: int, f: PointFeature) -> bool {
    &&& f.from_area
    &&& f.index == index
    &&& f.id as nat == hid_spec("region-area|"@ + a.name@)
    &&& f.text@ == clean_alias_spec(a.name@)
    &&& f.score == Some(REGION_SCORE)
    &&& f.population is None
}

pub open spec fn region_place_qualifies(p: PlaceInfo) -> bool {
    is_region_place_type(p.place@) && p.name@.len() > 0 && clean_alias_spec(p.name@).len() > 0
}

pub open spec fn region_place_feature_ok(p: PlaceInfo, index: int, f: PointFeature) -> bool {
    &&& !f.from_area
    &&& f.index == index
    &&& f.id as nat == hid_spec(node_sid(p.id))
    &&& f.text@ == clean_alias_spec(p.name@)
    &&& f.score == Some(REGION_SCORE)
    &&& f.population is None
}

/// The region layer plan: qualifying level-4 areas in order, then
/// qualifying `state`/`region` place nodes in order.
pub open spec fn regions_plan_ok(areas: Seq<AreaInfo>, places: Seq<PlaceInfo>, fs: Seq<PointFeature>) -> bool {
    let ka = kept_indices(|i: int| region_area_qualifies(areas[i]), areas.len() as int);
    let kp = kept_indices(|i: int| region_place_qualifies(places[i]), places.len() as int);
    &&& fs.len() == ka.len() + kp.len()
    &&& forall|k: int| 0 <= k < ka.len() ==> region_area_feature_ok(areas[ka[k]], ka[k], #[trigger] fs[k])
    &&& forall|k: int| ka.len() <= k < fs.len() ==> region_place_feature_ok(
        places[kp[k - ka.len()]],
        kp[k - ka.len()],
        #[trigger] fs[k],
    )
}

/// Plans the region layer (see [`regions_plan_ok`]).
pub fn extract_regions(areas: &[AreaInfo], places: &[PlaceInfo]) -> (fs: Vec<PointFeature>)
    ensures
        regions_plan_ok(areas@, places@, fs@),
{
    let ghost qa = |i: int| region_area_qualifies(areas@[i]);
    let ghost qp = |i: int| region_place_qualifies(places@[i]);
    let mut fs: Vec<PointFeature> = Vec::new();
    let mut i: usize = 0;
    while i < areas.len()
        invariant
            i <= areas@.len(),
            qa == (|i: int| region_area_qualifies(areas@[i])),
            fs@.len() == kept_indices(qa, i as int).len(),
            forall|k: int|
                0 <= k < fs@.len() ==> region_area_feature_ok(
                    areas@[kept_indices(qa, i as int)[k]],
                    kept_indices(qa, i as int)[k],
                    #[trigger] fs@[k],
                ),
        decreases areas@.len() - i,
    {
        let a = &areas[i];
        let ghost before = fs@;
        let mut pushed = false;
        if a.admin_level == 4 && !crate::text::str_is_empty(a.name.as_str()) && a.has_centroid {
            let text = clean_text(a.name.as_str());
            if !crate::text::str_is_empty(text.as_str()) {
                let key = crate::text::concat("region-area|", a.name.as_str());
                let id = hid(key.as_str());
                fs.push(PointFeature { from_area: true, index: i, id, text, score: Some(REGION_SCORE), population: None });
                pushed = true;
            }
        }
        proof {
            assert(pushed == qa(i as int));
            let kn = kept_indices(qa, i as int + 1);
            let ko = kept_indices(qa, i as int);
            if pushed {
                assert(kn == ko.push(i as int));
                assert forall|k: int| 0 <= k < fs@.len() implies region_area_feature_ok(
                    areas@[kn[k]],
                    kn[k],
                    #[trigger] fs@[k],
                ) by {
                    if k < before.len() {
                        assert(fs@[k] == before[k]);
                        assert(kn[k] == ko[k]);
                    }
                }
            } else {
                assert(kn == ko);
            }
        }
        i = i + 1;
    }
    let ghost ka = kept_indices(qa, areas@.len() as int);
    let na = fs.len();
    let mut j: usize = 0;
    while j < places.len()
        invariant
            j <= places@.len(),
            qp == (|i: int| region_place_qualifies(places@[i])),
            ka == kept_indices(qa, areas@.len() as int),
            qa == (|i: int| region_area_qualifies(areas@[i])),
            na == ka.len(),
            fs@.len() == na + kept_indices(qp, j as int).len(),
            forall|k: int| 0 <= k < na ==> region_area_feature_ok(areas@[ka[k]], ka[k], #[trigger] fs@[k]),
            forall|k: int|
                na <= k < fs@.len() ==> region_place_feature_ok(
                    places@[kept_indices(qp, j as int)[k - na]],
                    kept_indices(qp, j as int)[k - na],
                    #[trigger] fs@[k],
                ),
        decreases places@.len() - j,
    {
        let p = &places[j];
        let ghost before = fs@;
        let mut pushed = false;
        if region_place_type(p.place.as_str()) && !crate::text::str_is_empty(p.name.as_str()) {
            let text = clean_text(p.name.as_str());
            if !crate::text::str_is_empty(text.as_str()) {
                let id = node_id(p.id);
                fs.push(PointFeature { from_area: false, index: j, id, text, score: Some(REGION_SCORE), population: None });
                pushed = true;
            }
        }
        proof {
            assert(pushed == qp(j as int));
            let kn = kept_indices(qp, j as int + 1);
            let ko = kept_indices(qp, j as int);
            if pushed {
                assert(kn == ko.push(j as int));
                assert forall|k: int| na <= k < fs@.len() implies region_place_feature_ok(
                    places@[kn[k - na]],
                    kn[k - na],
                    #[trigger] fs@[k],
                ) by {
                    if k < before.len() {
                        assert(fs@[k] == before[k]);
                        assert(kn[k - na] == ko[k - na]);
                    }
                }
                assert forall|k: int| 0 <= k < na implies region_area_feature_ok(areas@[ka[k]], ka[k], #[trigger] fs@[k]) by {
                    assert(fs@[k] == before[k]);
                }
            } else {
                assert(kn == ko);
            }
        }
        j = j + 1;
    }
    fs
}

/// The `place=*` values of the region layer: state and region.  A place
/// node with either of them and a name that cleans to something non-empty
/// gets a region feature with the node's id and the fixed region score; a
/// place node with any other value gets none.
pub proof fn lemma_region_place_types(
    areas: Seq<AreaInfo>,
    places: Seq<PlaceInfo>,
    fs: Seq<PointFeature>,
    i: int,
)
    requires
        regions_plan_ok(areas, places, fs),
        0 <= i < places.len(),
    ensures
        (places[i].place@ == "state"@ || places[i].place@ == "region"@) && clean_alias_spec(places[i].name@).len()
            > 0 ==> exists|k: int|
            0 <= k < fs.len() && #[trigger] fs[k].index == i && !fs[k].from_area && fs[k].id as nat == hid_spec(
                node_sid(places[i].id),
            ) && fs[k].score == Some(180i64),
        (exists|k: int| 0 <= k < fs.len() && #[trigger] fs[k].index == i && !fs[k].from_area) ==> (
        places[i].place@ == "state"@ || places[i].place@ == "region"@),
{
    let qa = |j: int| region_area_qualifies(areas[j]);
    let qp = |j: int| region_place_qualifies(places[j]);
    let ka = kept_indices(qa, areas.len() as int);
    let kp = kept_indices(qp, places.len() as int);
    lemma_kept_indices_range(qp, places.len() as int);
    let p = places[i];
    if (p.place@ == "state"@ || p.place@ == "region"@) && clean_alias_spec(p.name@).len() > 0 {
        crate::text::lemma_clean_alias_nonempty(p.name@);
        assert(qp(i));
        lemma_kept_indices_contains(qp, places.len() as int, i);
        let t = choose|t: int| 0 <= t < kp.len() && kp[t] == i;
        let k = ka.len() + t;
        assert(region_place_feature_ok(places[kp[k - ka.len()]], kp[k - ka.len()], fs[k]));
        assert(fs[k].index == i);
    }
    if exists|k: int| 0 <= k < fs.len() && #[trigger] fs[k].index == i && !fs[k].from_area {
        let k = choose|k: int| 0 <= k < fs.len() && #[trigger] fs[k].index == i && !fs[k].from_area;
        if k < ka.len() {
            assert(region_area_feature_ok(areas[ka[k]], ka[k], fs[k]));
        } else {
            assert(region_place_feature_ok(places[kp[k - ka.len()]], kp[k - ka.len()], fs[k]));
            assert(qp(kp[k - ka.len()]));
        }
    }
}

/// A region area is an admin area of level 4: one with a centre and a name
/// that cleans to something non-empty gets a region feature with the fixed
/// region score, and an area of any other level gets none.
pub proof fn lemma_region_area_level(areas: Seq<AreaInfo>, places: Seq<PlaceInfo>, fs: Seq<PointFeature>, i: int)
    requires
        regions_plan_ok(areas, places, fs),
        0 <= i < areas.len(),
    ensures
        areas[i].admin_level == 4 && areas[i].has_centroid && clean_alias_spec(areas[i].name@).len() > 0
            ==> exists|k: int|
            0 <= k < fs.len() && #[trigger] fs[k].index == i && fs[k].from_area && fs[k].score == Some(180i64),
        (exists|k: int| 0 <= k < fs.len() && #[trigger] fs[k].index == i && fs[k].from_area) ==> areas[i].admin_level
            == 4,
{
    let qa = |j: int| region_area_qualifies(areas[j]);
    let qp = |j: int| region_place_qualifies(places[j]);
    let ka = kept_indices(qa, areas.len() as int);
    let kp = kept_indices(qp, places.len() as int);
    lemma_kept_indices_range(qa, areas.len() as int);
    let a = areas[i];
    if a.admin_level == 4 && a.has_centroid && clean_alias_spec(a.name@).len() > 0 {
        crate::text::lemma_clean_alias_nonempty(a.name@);
        assert(qa(i));
        lemma_kept_indices_contains(qa, areas.len() as int, i);
        let t = choose|t: int| 0 <= t < ka.len() && ka[t] == i;
        assert(region_area_feature_ok(areas[ka[t]], ka[t], fs[t]));
    }
    if exists|k: int| 0 <= k < fs.len() && #[trigger] fs[k].index == i && fs[k].from_area {
        let k = choose|k: int| 0 <= k < fs.len() && #[trigger] fs[k].index == i && fs[k].from_area;
        if k < ka.len() {
            assert(region_area_feature_ok(areas[ka[k]], ka[k], fs[k]));
            assert(qa(ka[k]));
        } else {
            assert(region_place_feature_ok(places[kp[k - ka.len()]], kp[k - ka.len()], fs[k]));
        }
    }
}

pub open spec fn country_qualifies(a: AreaInfo) -> bool {
    a.admin_level == 2 && a.name@.len() > 0 && a.has_centroid && clean_alias_spec(a.name@).len() > 0
}

pub open spec fn country_feature_ok(a: AreaInfo, index: int, f: PointFeature) -> bool {
    &&& f.from_area
    &&& f.index == index
    &&& f.id as nat == hid_spec("country-area|"@ + a.name@)
    &&& f.text@ == clean_alias_spec(a.name@)
    &&& f.score is None
    &&& f.population is None
}

/// The country layer plan: one feature per qualifying level-2 area, in
/// order.
pub open spec fn countries_plan_ok(areas: Seq<AreaInfo>, fs: Seq<PointFeature>) -> bool {
    let ka = kept_indices(|i: int| country_qualifies(areas[i]), areas.len() as int);
    &&& fs.len() == ka.len()
    &&& forall|k: int| 0 <= k < fs.len() ==> country_feature_ok(areas[ka[k]], ka[k], #[trigger] fs[k])
}

/// Plans the country layer (see [`countries_plan_ok`]).
pub fn extract_countries(areas: &[AreaInfo]) -> (fs: Vec<PointFeature>)
    ensures
        countries_plan_ok(areas@, fs@),
{
    let ghost qa = |i: int| country_qualifies(areas@[i]);
    let mut fs: Vec<PointFeature> = Vec::new();
    let mut i: usize = 0;
    while i < areas.len()
        invariant
            i <= areas@.len(),
            qa == (|i: int| country_qualifies(areas@[i])),
            fs@.len() == kept_indices(qa, i as int).len(),
            forall|k: int|
                0 <= k < fs@.len() ==> country_feature_ok(
                    areas@[kept_indices(qa, i as int)[k]],
                    kept_indices(qa, i as int)[k],
                    #[trigger] fs@[k],
                ),
        decreases areas@.len() - i,
    {
        let a = &areas[i];
        let ghost before = fs@;
        let mut pushed = false;
        if a.admin_level == 2 && !crate::text::str_is_empty(a.name.as_str()) && a.has_centroid {
            let text = clean_text(a.name.as_str());
            if !crate::text::str_is_empty(text.as_str()) {
                let key = crate::text::concat("country-area|", a.name.as_str());
                let id = hid(key.as_str());
                fs.push(PointFeature { from_area: true, index: i, id, text, score: None, population: None });
                pushed = true;
            }
        }
        proof {
            assert(pushed == qa(i as int));
            let kn = kept_indices(qa, i as int + 1);
            let ko = kept_indices(qa, i as int);
            if pushed {
                assert(kn == ko.push(i as int));
                assert forall|k: int| 0 <= k < fs@.len() implies country_feature_ok(
                    areas@[kn[k]],
                    kn[k],
                    #[trigger] fs@[k],
                ) by {
                    if k < before.len() {
                        assert(fs@[k] == before[k]);
                        assert(kn[k] == ko[k]);
                    }
                }
            } else {
                assert(kn == ko);
            }
        }
        i = i + 1;
    }
    fs
}

/// A country is an admin area of level 2: one with a centre and a name that
/// cleans to something non-empty gets a country feature without a score,
/// and an area of any other level gets none.
pub proof fn lemma_country_level(areas: Seq<AreaInfo>, fs: Seq<PointFeature>, i: int)
    requires
        countries_plan_ok(areas, fs),
        0 <= i < areas.len(),
    ensures
        areas[i].admin_level == 2 && areas[i].has_centroid && clean_alias_spec(areas[i].name@).len() > 0
            ==> exists|k: int| 0 <= k < fs.len() && #[trigger] fs[k].index == i && fs[k].score is None,
        (exists|k: int| 0 <= k < fs.len() && #[trigger] fs[k].index == i) ==> areas[i].admin_level == 2,
{
    let qa = |j: int| country_qualifies(areas[j]);
    let ka = kept_indices(qa, areas.len() as int);
    lemma_kept_indices_range(qa, areas.len() as int);
    let a = areas[i];
    if a.admin_level == 2 && a.has_centroid && clean_alias_spec(a.name@).len() > 0 {
        crate::text::lemma_clean_alias_nonempty(a.name@);
        assert(qa(i));
        lemma_kept_indices_contains(qa, areas.len() as int, i);
        let t = choose|t: int| 0 <= t < ka.len() && ka[t] == i;
        assert(country_feature_ok(areas[ka[t]], ka[t], fs[t]));
    }
    if exists|k: int| 0 <= k < fs.len() && #[trigger] fs[k].index == i {
        let k = choose|k: int| 0 <= k < fs.len() && #[trigger] fs[k].index == i;
        assert(country_feature_ok(areas[ka[k]], ka[k], fs[k]));
        assert(qa(ka[k]));
    }
}

} // verus!
