//! Street layer: one feature per named highway way.

use vstd::prelude::*;
use crate::taxonomy::{TagMap, str_eq, has_nonempty};
use crate::text::{dedup_join, dedup_join_spec, join_space, views};

verus! {

/// Street `carmen:score` by highway class; any class not listed scores 1.
pub open spec fn street_score_spec(highway_class: Seq<char>) -> i64 {
    if highway_class == "motorway"@ {
        100
    } else if highway_class == "trunk"@ {
        70
    } else if highway_class == "primary"@ {
        50
    } else if highway_class == "secondary"@ {
        30
    } else if highway_class == "tertiary"@ {
        15
    } else if highway_class == "unclassified"@ {
        5
    } else if highway_class == "pedestrian"@ {
        3
    } else if highway_class == "residential"@ {
        2
    } else {
        1
    }
}

/// Highway class -> street `carmen:score` (see [`street_score_spec`]).
pub fn street_score(highway_class: &str) -> (s: i64)
    ensures
        s == street_score_spec(highway_class@),
{
    if str_eq(highway_class, "motorway") {
        100
    } else if str_eq(highway_class, "trunk") {
        70
    } else if str_eq(highway_class, "primary") {
        50
    } else if str_eq(highway_class, "secondary") {
        30
    } else if str_eq(highway_class, "tertiary") {
        15
    } else if str_eq(highway_class, "unclassified") {
        5
    } else if str_eq(highway_class, "pedestrian") {
        3
    } else if str_eq(highway_class, "residential") {
        2
    } else {
        1
    }
}

/// A named street: non-empty `highway` and non-empty `name`, any class.
pub open spec fn is_named_street_spec(tags: Map<Seq<char>, Seq<char>>) -> bool {
    has_nonempty(tags, "name"@) && has_nonempty(tags, "highway"@)
}

/// Whether `tags` qualifies as a named street (see [`is_named_street_spec`]).
pub fn is_named_street(tags: &TagMap) -> (b: bool)
    ensures
        b == is_named_street_spec(tags@),
{
    let has_name = tags.has_nonempty("name");
    let has_highway = tags.has_nonempty("highway");
    has_name && has_highway
}

/// Street aliases: the name, then "name locality" when a non-empty locality
/// is known.
pub open spec fn street_aliases(name: Seq<char>, locality: Option<Seq<char>>) -> Seq<Seq<char>> {
    match locality {
        Some(loc) if loc.len() > 0 => seq![name, name + seq![' '] + loc],
        _ => seq![name],
    }
}

/// Street `carmen:text`: the de-duplicated, comma-joined
/// [`street_aliases`].
pub fn carmen_text(name: &str, locality: Option<&str>) -> (t: String)
    ensures
        t@ == dedup_join_spec(street_aliases(name@, crate::taxonomy::opt_str_view(locality))),
{
    let mut aliases: Vec<String> = Vec::new();
    aliases.push(name.to_owned());
    if let Some(loc) = locality {
        if !crate::text::str_is_empty(loc) {
            aliases.push(join_space(name, loc));
        }
    }
    proof {
        assert(views(aliases@) =~= street_aliases(name@, crate::taxonomy::opt_str_view(locality)));
    }
    dedup_join(aliases.as_slice())
}

} // verus!

verus! {

/// One named street way: its OSM way id, `name`, `highway` class and the
/// locality resolved for its centre.
pub struct StreetCandidate {
    pub id: i64,
    pub name: String,
    pub highway: String,
    pub locality: Option<String>,
}

/// A planned street feature; `index` is the candidate it comes from.
pub struct StreetFeature {
    pub index: usize,
    pub id: u64,
    pub text: String,
    pub score: i64,
    pub locality: Option<String>,
    pub highway_class: Option<String>,
}

pub open spec fn street_text_spec(c: StreetCandidate) -> Seq<char> {
    dedup_join_spec(street_aliases(c.name@, crate::hierarchy::opt_string_view(c.locality)))
}

/// The feature planned for street candidate `c` at `index`.
pub open spec fn street_feature_ok(c: StreetCandidate, index: int, f: StreetFeature) -> bool {
    &&& f.index == index
    &&& f.id as nat == crate::ids::hid_spec(seq!['w'] + crate::text::int_decimal(c.id as int))
    &&& f.text@ == street_text_spec(c)
    &&& f.score == street_score_spec(c.highway@)
    &&& crate::hierarchy::opt_string_view(f.locality) == crate::layers::poi::useful_locality(
        crate::hierarchy::opt_string_view(c.locality),
    )
    &&& crate::hierarchy::opt_string_view(f.highway_class) == if c.highway@.len() > 0 {
        Some(c.highway@)
    } else {
        None
    }
}

/// The street layer plan: one feature per candidate with non-empty text, in
/// order.
pub open spec fn street_plan_ok(cands: Seq<StreetCandidate>, fs: Seq<StreetFeature>) -> bool {
    let kept = crate::layers::place::kept_indices(
        |i: int| street_text_spec(cands[i]).len() > 0,
        cands.len() as int,
    );
    &&& fs.len() == kept.len()
    &&& forall|k: int| 0 <= k < fs.len() ==> street_feature_ok(cands[kept[k]], kept[k], #[trigger] fs[k])
}

/// Plans the street layer (see [`street_plan_ok`]).
pub fn extract(cands: &[StreetCandidate]) -> (fs: Vec<StreetFeature>)
    ensures
        street_plan_ok(cands@, fs@),
{
    let ghost q = |i: int| street_text_spec(cands@[i]).len() > 0;
    let mut fs: Vec<StreetFeature> = Vec::new();
    let mut i: usize = 0;
    while i < cands.len()
        invariant
            i <= cands@.len(),
            q == (|i: int| street_text_spec(cands@[i]).len() > 0),
            fs@.len() == crate::layers::place::kept_indices(q, i as int).len(),
            forall|k: int|
                0 <= k < fs@.len() ==> street_feature_ok(
                    cands@[crate::layers::place::kept_indices(q, i as int)[k]],
                    crate::layers::place::kept_indices(q, i as int)[k],
                    #[trigger] fs@[k],
                ),
        decreases cands@.len() - i,
    {
        let c = &cands[i];
        let locality: Option<&str> = match &c.locality {
            Some(l) => Some(l.as_str()),
            None => None,
        };
        let text = carmen_text(c.name.as_str(), locality);
        let ghost before = fs@;
        let mut pushed = false;
        if !crate::text::str_is_empty(text.as_str()) {
            let score = street_score(c.highway.as_str());
            let loc_out = match locality {
                Some(l) => if crate::text::str_is_empty(l) {
                    None
                } else {
                    Some(l.to_owned())
                },
                None => None,
            };
            let highway_class = if crate::text::str_is_empty(c.highway.as_str()) {
                None
            } else {
                Some(c.highway.clone())
            };
            let sid = crate::ids::osm_sid('w', c.id);
            let id = crate::ids::hid(sid.as_str());
            fs.push(StreetFeature { index: i, id, text, score, locality: loc_out, highway_class });
            pushed = true;
        }
        proof {
            assert(pushed == q(i as int));
            let kn = crate::layers::place::kept_indices(q, i as int + 1);
            let ko = crate::layers::place::kept_indices(q, i as int);
            if pushed {
                assert(kn == ko.push(i as int));
                assert forall|k: int| 0 <= k < fs@.len() implies street_feature_ok(
                    cands@[kn[k]],
                    kn[k],
                    #[trigger] fs@[k],
                ) by {
                    if k < before.len() {
                        assert(fs@[k] == before[k]);
                        assert(kn[k] == ko[k]);
                    }
                }
            } else {
                assert(kn == ko);
            }
        }
        i = i + 1;
    }
    fs
}

/// Street scores by class: motorway 100, trunk 70, primary 50, secondary
/// 30, tertiary 15, unclassified 5, pedestrian 3, residential 2, any other
/// class 1; no class scores outside 1 to 100.
pub proof fn lemma_street_scores(highway_class: Seq<char>)
    ensures
        street_score_spec("motorway"@) == 100,
        street_score_spec("trunk"@) == 70,
        street_score_spec("primary"@) == 50,
        street_score_spec("secondary"@) == 30,
        street_score_spec("tertiary"@) == 15,
        street_score_spec("unclassified"@) == 5,
        street_score_spec("pedestrian"@) == 3,
        street_score_spec("residential"@) == 2,
        highway_class != "motorway"@ && highway_class != "trunk"@ && highway_class != "primary"@
            && highway_class != "secondary"@ && highway_class != "tertiary"@ && highway_class
            != "unclassified"@ && highway_class != "pedestrian"@ && highway_class != "residential"@
            ==> street_score_spec(highway_class) == 1,
        1 <= street_score_spec(highway_class) <= 100,
{
    reveal_strlit("motorway");
    reveal_strlit("trunk");
    reveal_strlit("primary");
    reveal_strlit("secondary");
    reveal_strlit("tertiary");
    reveal_strlit("unclassified");
    reveal_strlit("pedestrian");
    reveal_strlit("residential");
    assert("trunk"@ != "motorway"@) by { assert("trunk"@.len() != "motorway"@.len()); }
    assert("primary"@ != "motorway"@) by { assert("primary"@.len() != "motorway"@.len()); }
    assert("primary"@ != "trunk"@) by { assert("primary"@.len() != "trunk"@.len()); }
    assert("secondary"@ != "motorway"@) by { assert("secondary"@.len() != "motorway"@.len()); }
    assert("secondary"@ != "trunk"@) by { assert("secondary"@.len() != "trunk"@.len()); }
    assert("secondary"@ != "primary"@) by { assert("secondary"@.len() != "primary"@.len()); }
    assert("tertiary"@ != "motorway"@) by { assert("tertiary"@[0] != "motorway"@[0]); }
    assert("tertiary"@ != "trunk"@) by { assert("tertiary"@.len() != "trunk"@.len()); }
    assert("tertiary"@ != "primary"@) by { assert("tertiary"@.len() != "primary"@.len()); }
    assert("tertiary"@ != "secondary"@) by { assert("tertiary"@.len() != "secondary"@.len()); }
    assert("unclassified"@ != "motorway"@) by { assert("unclassified"@.len() != "motorway"@.len()); }
    assert("unclassified"@ != "trunk"@) by { assert("unclassified"@.len() != "trunk"@.len()); }
    assert("unclassified"@ != "primary"@) by { assert("unclassified"@.len() != "primary"@.len()); }
    assert("unclassified"@ != "secondary"@) by { assert("unclassified"@.len() != "secondary"@.len()); }
    assert("unclassified"@ != "tertiary"@) by { assert("unclassified"@.len() != "tertiary"@.len()); }
    assert("pedestrian"@ != "motorway"@) by { assert("pedestrian"@.len() != "motorway"@.len()); }
    assert("pedestrian"@ != "trunk"@) by { assert("pedestrian"@.len() != "trunk"@.len()); }
    assert("pedestrian"@ != "primary"@) by { assert("pedestrian"@.len() != "primary"@.len()); }
    assert("pedestrian"@ != "secondary"@) by { assert("pedestrian"@.len() != "secondary"@.len()); }
    assert("pedestrian"@ != "tertiary"@) by { assert("pedestrian"@.len() != "tertiary"@.len()); }
    assert("pedestrian"@ != "unclassified"@) by { assert("pedestrian"@.len() != "unclassified"@.len()); }
    assert("residential"@ != "motorway"@) by { assert("residential"@.len() != "motorway"@.len()); }
    assert("residential"@ != "trunk"@) by { assert("residential"@.len() != "trunk"@.len()); }
    assert("residential"@ != "primary"@) by { assert("residential"@.len() != "primary"@.len()); }
    assert("residential"@ != "secondary"@) by { assert("residential"@.len() != "secondary"@.len()); }
    assert("residential"@ != "tertiary"@) by { assert("residential"@.len() != "tertiary"@.len()); }
    assert("residential"@ != "unclassified"@) by { assert("residential"@.len() != "unclassified"@.len()); }
    assert("residential"@ != "pedestrian"@) by { assert("residential"@.len() != "pedestrian"@.len()); }
}

/// A street is a way with a non-empty `name` and a non-empty `highway`,
/// whatever the class.
pub proof fn lemma_named_street_tags(tags: Map<Seq<char>, Seq<char>>)
    ensures
        is_named_street_spec(tags) <==> (tags.contains_key("name"@) && tags["name"@].len() > 0
            && tags.contains_key("highway"@) && tags["highway"@].len() > 0),
{
}

} // verus!
