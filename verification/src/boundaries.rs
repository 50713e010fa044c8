//! Admin boundary relations and `place=*` nodes.
//!
//! Two things come out of the boundary pass: admin areas
//! (`boundary=administrative` relations with a name and a parseable
//! `admin_level`, whose `outer` member ways are stitched into rings, see
//! [`crate::rings`]) and place nodes (nodes tagged `place=*` with a
//! non-empty `name`).  This module holds the tag rules of that pass and,
//! in [`AdminScan`], its bookkeeping: which relations are kept, which of
//! their member ways are read, and the assembly of each kept relation.

use vstd::prelude::*;
use crate::layers::common::{is_intl_name_key, is_intl_name_key_spec};
use crate::order::{sort_by_key, sort_pairs_by_key, pairs_view};
use crate::taxonomy::{TagMap, str_eq, tag_of};
use crate::text::{chars_of, parse_unsigned, parse_unsigned_chars, views};

verus! {

/// Most `name:<lang>`/`int_name` aliases kept per place node.
pub const MAX_INTL_NAMES: usize = 16;

/// The map of a tag list (a later pair wins over an earlier one with the
/// same key).
pub open spec fn tag_list_map(tags: Seq<(&str, &str)>) -> Map<Seq<char>, Seq<char>>
    decreases tags.len(),
{
    if tags.len() == 0 {
        Map::empty()
    } else {
        tag_list_map(tags.drop_last()).insert(tags.last().0@, tags.last().1@)
    }
}

/// `s` without spaces, commas and dots.
pub open spec fn strip_separators(s: Seq<char>) -> Seq<char>
    decreases s.len(),
{
    if s.len() == 0 {
        seq![]
    } else {
        let p = strip_separators(s.drop_last());
        let c = s.last();
        if c == ' ' || c == ',' || c == '.' {
            p
        } else {
            p.push(c)
        }
    }
}

/// Lenient population: spaces, commas and dots are dropped, then the rest
/// must parse as a `u64`; anything missing or unparseable is 0.
pub open spec fn population_spec(raw: Option<Seq<char>>) -> nat {
    match raw {
        Some(r) => match parse_unsigned(strip_separators(r), u64::MAX as nat) {
            Some(v) => v,
            None => 0,
        },
        None => 0,
    }
}

/// Whether a tag key is a cross-language name alias: `name:<lang>` or
/// `int_name`.
pub open spec fn is_alias_key(key: Seq<char>) -> bool {
    is_intl_name_key_spec(key) || key == "int_name"@
}

/// The alias tags of a tag list, in order.
pub open spec fn alias_pairs(tags: Seq<(&str, &str)>) -> Seq<(Seq<char>, Seq<char>)>
    decreases tags.len(),
{
    if tags.len() == 0 {
        seq![]
    } else {
        let p = alias_pairs(tags.drop_last());
        if is_alias_key(tags.last().0@) {
            p.push((tags.last().0@, tags.last().1@))
        } else {
            p
        }
    }
}

/// Alias names of a place node: the values of its alias tags sorted by tag
/// key, at most [`MAX_INTL_NAMES`].
pub open spec fn intl_names_spec(tags: Seq<(&str, &str)>) -> Seq<Seq<char>> {
    let sorted = sort_by_key(alias_pairs(tags));
    let kept = if sorted.len() > 16 {
        sorted.take(16)
    } else {
        sorted
    };
    kept.map_values(|p: (Seq<char>, Seq<char>)| p.1)
}

/// The tag-derived part of a place node.
pub struct PlaceInfo {
    pub id: i64,
    pub name: String,
    pub place: String,
    pub population: u64,
    /// Cross-language aliases (`name:<lang>` values and `int_name`).
    pub intl_names: Vec<String>,
}

/// A place node qualifies when it carries `place` and a non-empty `name`.
pub open spec fn is_place_node(m: Map<Seq<char>, Seq<char>>) -> bool {
    m.contains_key("place"@) && m.contains_key("name"@) && m["name"@].len() > 0
}

/// The place node built from `id` and `tags`, when it qualifies.
pub open spec fn place_info_ok(id: i64, tags: Seq<(&str, &str)>, r: Option<PlaceInfo>) -> bool {
    let m = tag_list_map(tags);
    match r {
        None => !is_place_node(m),
        Some(p) => {
            &&& is_place_node(m)
            &&& p.id == id
            &&& p.name@ == m["name"@]
            &&& p.place@ == m["place"@]
            &&& p.population as nat == population_spec(tag_of(m, "population"@))
            &&& views(p.intl_names@) == intl_names_spec(tags)
        },
    }
}

fn strip_separator_chars(s: &[char]) -> (r: Vec<char>)
    ensures
        r@ == strip_separators(s@),
{
    let mut out: Vec<char> = Vec::new();
    let mut i: usize = 0;
    while i < s.len()
        invariant
            i <= s@.len(),
            out@ == strip_separators(s@.take(i as int)),
        decreases s@.len() - i,
    {
        let c = s[i];
        assert(s@.take(i as int + 1).drop_last() == s@.take(i as int));
        assert(s@.take(i as int + 1).last() == c);
        if !(c == ' ' || c == ',' || c == '.') {
            out.push(c);
        }
        i = i + 1;
    }
    assert(s@.take(s@.len() as int) == s@);
    out
}

/// Parses a population value leniently (see [`population_spec`]).
pub fn parse_population(raw: Option<&str>) -> (p: u64)
    ensures
        p as nat == population_spec(crate::taxonomy::opt_str_view(raw)),
{
    match raw {
        Some(r) => {
            let cs = chars_of(r);
            let cleaned = strip_separator_chars(cs.as_slice());
            match parse_unsigned_chars(cleaned.as_slice(), u64::MAX) {
                Some(v) => v,
                None => 0,
            }
        },
        None => 0,
    }
}

/// Builds a place node from a node's id and tags if it carries `place=*`
/// and a non-empty `name`.  Population is parsed leniently (see
/// [`population_spec`]); `name:<lang>` and `int_name` values become the
/// node's cross-language aliases (see [`intl_names_spec`]).
pub fn place_node_from_tags(id: i64, tags: &[(&str, &str)]) -> (r: Option<PlaceInfo>)
    ensures
        place_info_ok(id, tags@, r),
{
    let mut place: Option<&str> = None;
    let mut name: Option<&str> = None;
    let mut population_raw: Option<&str> = None;
    let mut aliases: Vec<(String, String)> = Vec::new();
    let mut i: usize = 0;
    while i < tags.len()
        invariant
            i <= tags@.len(),
            crate::taxonomy::opt_str_view(place) == tag_of(tag_list_map(tags@.take(i as int)), "place"@),
            crate::taxonomy::opt_str_view(name) == tag_of(tag_list_map(tags@.take(i as int)), "name"@),
            crate::taxonomy::opt_str_view(population_raw) == tag_of(
                tag_list_map(tags@.take(i as int)),
                "population"@,
            ),
            pairs_view(aliases@) == alias_pairs(tags@.take(i as int)),
        decreases tags@.len() - i,
    {
        let (k, v) = tags[i];
        proof {
            assert(tags@.take(i as int + 1).drop_last() == tags@.take(i as int));
            assert(tags@.take(i as int + 1).last() == tags@[i as int]);
            reveal_strlit("place");
            reveal_strlit("name");
            reveal_strlit("population");
        }
        if str_eq(k, "place") {
            place = Some(v);
        } else if str_eq(k, "name") {
            name = Some(v);
        } else if str_eq(k, "population") {
            population_raw = Some(v);
        }
        if is_intl_name_key(k) || str_eq(k, "int_name") {
            let ghost before = pairs_view(aliases@);
            aliases.push((k.to_owned(), v.to_owned()));
            assert(pairs_view(aliases@) == before.push((k@, v@)));
        }
        i = i + 1;
    }
    assert(tags@.take(tags@.len() as int) == tags@);
    let (place, name) = match (place, name) {
        (Some(p), Some(n)) => (p, n),
        _ => return None,
    };
    if crate::text::str_is_empty(name) {
        return None;
    }
    let population = parse_population(population_raw);
    let sorted = sort_pairs_by_key(aliases);
    let mut intl_names: Vec<String> = Vec::new();
    let mut j: usize = 0;
    let ghost sv = pairs_view(sorted@);
    let limit: usize = if sorted.len() > MAX_INTL_NAMES { MAX_INTL_NAMES } else { sorted.len() };
    while j < limit
        invariant
            j <= limit,
            limit <= sorted@.len(),
            sv == pairs_view(sorted@),
            views(intl_names@) == sv.take(j as int).map_values(|p: (Seq<char>, Seq<char>)| p.1),
        decreases limit - j,
    {
        let ghost before = views(intl_names@);
        intl_names.push(sorted[j].1.clone());
        proof {
            assert(views(intl_names@) == before.push(sv[j as int].1));
            assert(sv.take(j as int + 1) == sv.take(j as int).push(sv[j as int]));
            assert(sv.take(j as int + 1).map_values(|p: (Seq<char>, Seq<char>)| p.1) == sv.take(
                j as int,
            ).map_values(|p: (Seq<char>, Seq<char>)| p.1).push(sv[j as int].1));
        }
        j = j + 1;
    }
    proof {
        if sv.len() <= 16 {
            assert(sv.take(limit as int) == sv);
        }
    }
    Some(
        PlaceInfo {
            id,
            name: name.to_owned(),
            place: place.to_owned(),
            population,
            intl_names,
        },
    )
}

/// The cross-language names of a tag list (see [`intl_names_spec`]).
pub fn intl_names_of(tags: &[(&str, &str)]) -> (r: Vec<String>)
    ensures
        views(r@) == intl_names_spec(tags@),
{
    let mut aliases: Vec<(String, String)> = Vec::new();
    let mut i: usize = 0;
    while i < tags.len()
        invariant
            i <= tags@.len(),
            pairs_view(aliases@) == alias_pairs(tags@.take(i as int)),
        decreases tags@.len() - i,
    {
        let (k, v) = tags[i];
        proof {
            assert(tags@.take(i as int + 1).drop_last() == tags@.take(i as int));
            assert(tags@.take(i as int + 1).last() == tags@[i as int]);
        }
        if is_intl_name_key(k) || str_eq(k, "int_name") {
            let ghost before = pairs_view(aliases@);
            aliases.push((k.to_owned(), v.to_owned()));
            assert(pairs_view(aliases@) == before.push((k@, v@)));
        }
        i = i + 1;
    }
    assert(tags@.take(tags@.len() as int) == tags@);
    let sorted = sort_pairs_by_key(aliases);
    let mut names: Vec<String> = Vec::new();
    let mut j: usize = 0;
    let ghost sv = pairs_view(sorted@);
    let limit: usize = if sorted.len() > MAX_INTL_NAMES { MAX_INTL_NAMES } else { sorted.len() };
    while j < limit
        invariant
            j <= limit,
            limit <= sorted@.len(),
            sv == pairs_view(sorted@),
            views(names@) == sv.take(j as int).map_values(|p: (Seq<char>, Seq<char>)| p.1),
        decreases limit - j,
    {
        let ghost before = views(names@);
        names.push(sorted[j].1.clone());
        proof {
            assert(views(names@) == before.push(sv[j as int].1));
            assert(sv.take(j as int + 1) == sv.take(j as int).push(sv[j as int]));
            assert(sv.take(j as int + 1).map_values(|p: (Seq<char>, Seq<char>)| p.1) == sv.take(
                j as int,
            ).map_values(|p: (Seq<char>, Seq<char>)| p.1).push(sv[j as int].1));
        }
        j = j + 1;
    }
    proof {
        if sv.len() <= 16 {
            assert(sv.take(limit as int) == sv);
        }
    }
    names
}

/// `admin_level` of an admin boundary: `None` unless `boundary` is
/// `administrative` and `admin_level` parses as a `u8`.
pub open spec fn admin_level_spec(m: Map<Seq<char>, Seq<char>>) -> Option<nat> {
    if tag_of(m, "boundary"@) != Some("administrative"@) {
        None
    } else {
        match tag_of(m, "admin_level"@) {
            Some(v) => parse_unsigned(v, 255),
            None => None,
        }
    }
}

/// Gate for whether a relation's tags qualify it as an admin boundary, and
/// if so its parsed `admin_level`.  A missing or unparseable `admin_level`
/// has no safe default (levels start at 2; a synthesised 0 would outrank
/// every country), so such relations are skipped.
pub fn admin_relation_gate(tags: &TagMap) -> (r: Option<u8>)
    ensures
        match r {
            Some(l) => admin_level_spec(tags@) == Some(l as nat),
            None => admin_level_spec(tags@) is None,
        },
{
    match tags.get("boundary") {
        Some(b) => {
            if !str_eq(b.as_str(), "administrative") {
                return None;
            }
        },
        None => return None,
    }
    match tags.get("admin_level") {
        Some(level) => {
            let cs = chars_of(level.as_str());
            match parse_unsigned_chars(cs.as_slice(), 255) {
                Some(v) => Some(v as u8),
                None => None,
            }
        },
        None => None,
    }
}

/// One member of a relation.
pub struct RelationMember {
    pub is_way: bool,
    pub role: String,
    pub id: i64,
}

/// An admin relation kept by the boundary pass, before its ways are read.
pub struct RelationRecord {
    pub name: String,
    pub admin_level: u8,
    /// Member way ids with role `outer` (or an empty role, which old data
    /// uses for outer), in member order.
    pub outer_way_ids: Vec<i64>,
}

/// A member that contributes an outer ring way.
pub open spec fn is_outer_way(m: RelationMember) -> bool {
    m.is_way && (m.role@ == "outer"@ || m.role@.len() == 0)
}

/// Ids of the outer way members, in member order.
pub open spec fn outer_ids(members: Seq<RelationMember>) -> Seq<i64>
    decreases members.len(),
{
    if members.len() == 0 {
        seq![]
    } else {
        let p = outer_ids(members.drop_last());
        if is_outer_way(members.last()) {
            p.push(members.last().id)
        } else {
            p
        }
    }
}

/// The relation record kept for `tags`/`members`: a named admin boundary
/// with a parseable level and at least one outer way.
pub open spec fn relation_record_ok(
    m: Map<Seq<char>, Seq<char>>,
    members: Seq<RelationMember>,
    r: Option<RelationRecord>,
) -> bool {
    let named = m.contains_key("name"@) && m["name"@].len() > 0;
    match r {
        None => !named || admin_level_spec(m) is None || outer_ids(members).len() == 0,
        Some(rec) => {
            &&& named
            &&& rec.name@ == m["name"@]
            &&& admin_level_spec(m) == Some(rec.admin_level as nat)
            &&& rec.outer_way_ids@ == outer_ids(members)
            &&& rec.outer_way_ids@.len() > 0
        },
    }
}

/// Keeps a `boundary=administrative` relation with a non-empty name, a
/// parseable `admin_level` and at least one outer way member.
pub fn relation_record(tags: &TagMap, members: &[RelationMember]) -> (r: Option<RelationRecord>)
    ensures
        relation_record_ok(tags@, members@, r),
{
    let name = match tags.get("name") {
        Some(n) => n,
        None => return None,
    };
    if crate::text::str_is_empty(name.as_str()) {
        return None;
    }
    let admin_level = match admin_relation_gate(tags) {
        Some(level) => level,
        None => return None,
    };
    let mut outer_way_ids: Vec<i64> = Vec::new();
    let mut i: usize = 0;
    while i < members.len()
        invariant
            i <= members@.len(),
            outer_way_ids@ == outer_ids(members@.take(i as int)),
        decreases members@.len() - i,
    {
        let m = &members[i];
        assert(members@.take(i as int + 1).drop_last() == members@.take(i as int));
        assert(members@.take(i as int + 1).last() == members@[i as int]);
        if m.is_way && (str_eq(m.role.as_str(), "outer") || crate::text::str_is_empty(m.role.as_str())) {
            outer_way_ids.push(m.id);
        }
        i = i + 1;
    }
    assert(members@.take(members@.len() as int) == members@);
    if outer_way_ids.len() == 0 {
        return None;
    }
    Some(RelationRecord { name: name.clone(), admin_level, outer_way_ids })
}

} // verus!

verus! {

/// The node-id lists of the ways `ids` that were read (those in `ways`), in
/// the order of `ids`.
pub open spec fn read_way_lists(ids: Seq<i64>, ways: Map<i64, Vec<i64>>) -> Seq<Seq<i64>>
    decreases ids.len(),
{
    if ids.len() == 0 {
        seq![]
    } else {
        let prev = read_way_lists(ids.drop_last(), ways);
        if ways.contains_key(ids.last()) {
            prev.push(ways[ids.last()]@)
        } else {
            prev
        }
    }
}

/// The node-id lists of the ways among `ids` that were read, skipping the
/// ones missing from the input.
pub fn outer_way_lists<'a>(ids: &[i64], ways: &'a std::collections::HashMap<i64, Vec<i64>>) -> (r: Vec<
    &'a Vec<i64>,
>)
    ensures
        crate::rings::ways_view(r@) == read_way_lists(ids@, ways@),
{
    broadcast use vstd::std_specs::hash::group_hash_axioms;

    let mut out: Vec<&'a Vec<i64>> = Vec::new();
    let mut i: usize = 0;
    while i < ids.len()
        invariant
            i <= ids@.len(),
            crate::rings::ways_view(out@) == read_way_lists(ids@.take(i as int), ways@),
        decreases ids@.len() - i,
    {
        let id = ids[i];
        proof {
            assert(ids@.take(i as int + 1).drop_last() == ids@.take(i as int));
            assert(ids@.take(i as int + 1).last() == id);
        }
        let ghost before = crate::rings::ways_view(out@);
        match ways.get(&id) {
            Some(w) => {
                out.push(w);
                assert(crate::rings::ways_view(out@) == before.push(w@));
            },
            None => {},
        }
        i = i + 1;
    }
    assert(ids@.take(ids@.len() as int) == ids@);
    out
}

/// Every node of `ring` has a stored location.
pub open spec fn ring_resolvable(ring: Seq<i64>, entries: Map<i64, (u32, u32)>) -> bool {
    forall|k: int| 0 <= k < ring.len() ==> entries.contains_key(#[trigger] ring[k])
}

/// The stored locations of the nodes of `ring`, in order.
pub open spec fn ring_coords(ring: Seq<i64>, entries: Map<i64, (u32, u32)>) -> Seq<(u32, u32)> {
    ring.map_values(|id: i64| entries[id])
}

/// The locations of a ring's nodes, or `None` when some node has no stored
/// location (the ring is then dropped rather than guessed at).
pub fn resolve_ring(ring: &[i64], nodes: &crate::nodes::NodeTable) -> (r: Option<Vec<(u32, u32)>>)
    ensures
        match r {
            Some(c) => ring_resolvable(ring@, nodes.entries()) && c@ == ring_coords(ring@, nodes.entries()),
            None => !ring_resolvable(ring@, nodes.entries()),
        },
{
    let mut coords: Vec<(u32, u32)> = Vec::new();
    let mut i: usize = 0;
    while i < ring.len()
        invariant
            i <= ring@.len(),
            coords@ == ring_coords(ring@.take(i as int), nodes.entries()),
            forall|k: int| 0 <= k < i ==> nodes.entries().contains_key(#[trigger] ring@[k]),
        decreases ring@.len() - i,
    {
        match nodes.get(ring[i]) {
            Some(c) => {
                coords.push(c);
                assert(ring_coords(ring@.take(i as int + 1), nodes.entries()) == ring_coords(
                    ring@.take(i as int),
                    nodes.entries(),
                ).push(c));
            },
            None => {
                return None;
            },
        }
        i = i + 1;
    }
    assert(ring@.take(ring@.len() as int) == ring@);
    Some(coords)
}

/// The locations of the resolvable rings among `rings`, in order.
pub open spec fn resolved_rings(rings: Seq<Seq<i64>>, entries: Map<i64, (u32, u32)>) -> Seq<Seq<(u32, u32)>>
    decreases rings.len(),
{
    if rings.len() == 0 {
        seq![]
    } else {
        let prev = resolved_rings(rings.drop_last(), entries);
        if ring_resolvable(rings.last(), entries) {
            prev.push(ring_coords(rings.last(), entries))
        } else {
            prev
        }
    }
}

/// An admin area with its rings' node locations.
pub struct AssembledArea {
    pub name: String,
    pub admin_level: u8,
    pub rings: Vec<Vec<(u32, u32)>>,
}

/// What assembling one relation gives: the area, if any ring survived, the
/// number of chains that did not close and the number of closed rings
/// dropped for a node without a location.
pub struct Assembly {
    pub area: Option<AssembledArea>,
    pub unclosed: u64,
    pub unresolved: u64,
}

/// Views of a list of location lists.
pub open spec fn coords_view(v: Seq<Vec<(u32, u32)>>) -> Seq<Seq<(u32, u32)>> {
    v.map_values(|c: Vec<(u32, u32)>| c@)
}

/// The assembly of `rel` from the read ways `ways` and the stored node
/// locations `entries`: the read outer ways are stitched into rings (see
/// [`crate::rings::stitch_outcome`]), each ring is resolved to locations,
/// and the area keeps the resolvable rings; a relation with no read outer
/// way, or whose rings all fail, gives no area.
pub open spec fn assembly_ok(
    rel: RelationRecord,
    ways: Map<i64, Vec<i64>>,
    entries: Map<i64, (u32, u32)>,
    a: Assembly,
) -> bool {
    let lists = read_way_lists(rel.outer_way_ids@, ways);
    if lists.len() == 0 {
        a.area is None && a.unclosed == 0 && a.unresolved == 0
    } else {
        exists|closed: Seq<Seq<i64>>|
            #![trigger resolved_rings(closed, entries)]
            {
                let kept = resolved_rings(closed, entries);
                &&& crate::rings::stitch_outcome(crate::rings::canonical_ways(lists), closed, a.unclosed as nat)
                &&& (closed, a.unclosed as nat) == crate::rings::stitch_result(lists)
                &&& a.unresolved + kept.len() == closed.len()
                &&& match a.area {
                    Some(area) => {
                        &&& kept.len() > 0
                        &&& area.name@ == rel.name@
                        &&& area.admin_level == rel.admin_level
                        &&& coords_view(area.rings@) == kept
                    },
                    None => kept.len() == 0,
                }
            }
    }
}

proof fn lemma_resolved_rings_len(rings: Seq<Seq<i64>>, entries: Map<i64, (u32, u32)>)
    ensures
        resolved_rings(rings, entries).len() <= rings.len(),
    decreases rings.len(),
{
    if rings.len() > 0 {
        lemma_resolved_rings_len(rings.drop_last(), entries);
    }
}

/// Assembles one admin relation's area (see [`assembly_ok`]).
pub fn assemble_area(
    rel: &RelationRecord,
    ways: &std::collections::HashMap<i64, Vec<i64>>,
    nodes: &crate::nodes::NodeTable,
) -> (a: Assembly)
    ensures
        assembly_ok(*rel, ways@, nodes.entries(), a),
{
    let lists = outer_way_lists(rel.outer_way_ids.as_slice(), ways);
    if lists.len() == 0 {
        return Assembly { area: None, unclosed: 0, unresolved: 0 };
    }
    let (closed, unclosed) = crate::rings::stitch_rings(lists.as_slice());
    let ghost cv = crate::rings::lists_view(closed@);
    let mut rings: Vec<Vec<(u32, u32)>> = Vec::new();
    let mut unresolved: u64 = 0;
    let mut i: usize = 0;
    while i < closed.len()
        invariant
            i <= closed@.len(),
            cv == crate::rings::lists_view(closed@),
            coords_view(rings@) == resolved_rings(cv.take(i as int), nodes.entries()),
            unresolved + rings@.len() == i,
        decreases closed@.len() - i,
    {
        proof {
            assert(cv.take(i as int + 1).drop_last() == cv.take(i as int));
            assert(cv.take(i as int + 1).last() == closed@[i as int]@);
            lemma_resolved_rings_len(cv.take(i as int), nodes.entries());
        }
        let ghost before = coords_view(rings@);
        match resolve_ring(closed[i].as_slice(), nodes) {
            Some(c) => {
                rings.push(c);
                assert(coords_view(rings@) == before.push(c@));
            },
            None => {
                unresolved = unresolved + 1;
            },
        }
        i = i + 1;
    }
    assert(cv.take(cv.len() as int) == cv);
    let area = if rings.len() == 0 {
        None
    } else {
        Some(AssembledArea { name: rel.name.clone(), admin_level: rel.admin_level, rings })
    };
    let a = Assembly { area, unclosed, unresolved };
    assert(resolved_rings(cv, nodes.entries()).len() + a.unresolved == cv.len());
    a
}

proof fn lemma_resolved_rings_closed(rings: Seq<Seq<i64>>, entries: Map<i64, (u32, u32)>)
    requires
        forall|r: int| 0 <= r < rings.len() ==> crate::rings::is_ring(#[trigger] rings[r]),
    ensures
        forall|r: int|
            0 <= r < resolved_rings(rings, entries).len() ==> {
                &&& (#[trigger] resolved_rings(rings, entries)[r]).len() >= 4
                &&& resolved_rings(rings, entries)[r][0] == resolved_rings(rings, entries)[r].last()
            },
    decreases rings.len(),
{
    if rings.len() > 0 {
        let pre = rings.drop_last();
        assert forall|r: int| 0 <= r < pre.len() implies crate::rings::is_ring(#[trigger] pre[r]) by {
            assert(pre[r] == rings[r]);
        }
        lemma_resolved_rings_closed(pre, entries);
        let prev = resolved_rings(pre, entries);
        let cur = resolved_rings(rings, entries);
        let last = rings.last();
        assert(crate::rings::is_ring(rings[rings.len() - 1]));
        assert forall|r: int| 0 <= r < cur.len() implies {
            &&& (#[trigger] cur[r]).len() >= 4
            &&& cur[r][0] == cur[r].last()
        } by {
            if r < prev.len() {
                assert(cur[r] == prev[r]);
            } else {
                let c = ring_coords(last, entries);
                assert(cur[r] == c);
                assert(c[0] == entries[last[0]]);
                assert(c[c.len() - 1] == entries[last[last.len() - 1]]);
            }
        }
    }
}

/// Every ring of an assembled area is closed: at least four locations, the
/// first equal to the last.
pub proof fn lemma_assembled_rings_closed(
    rel: RelationRecord,
    ways: Map<i64, Vec<i64>>,
    entries: Map<i64, (u32, u32)>,
    a: Assembly,
)
    requires
        assembly_ok(rel, ways, entries, a),
    ensures
        a.area matches Some(area) ==> forall|r: int|
            0 <= r < area.rings@.len() ==> {
                &&& (#[trigger] area.rings@[r])@.len() >= 4
                &&& area.rings@[r]@[0] == area.rings@[r]@.last()
            },
{
    if let Some(area) = a.area {
        let lists = read_way_lists(rel.outer_way_ids@, ways);
        let closed = choose|closed: Seq<Seq<i64>>|
            #![trigger resolved_rings(closed, entries)]
            {
                let kept = resolved_rings(closed, entries);
                &&& crate::rings::stitch_outcome(crate::rings::canonical_ways(lists), closed, a.unclosed as nat)
                &&& (closed, a.unclosed as nat) == crate::rings::stitch_result(lists)
                &&& a.unresolved + kept.len() == closed.len()
                &&& match a.area {
                    Some(area) => {
                        &&& kept.len() > 0
                        &&& area.name@ == rel.name@
                        &&& area.admin_level == rel.admin_level
                        &&& coords_view(area.rings@) == kept
                    },
                    None => kept.len() == 0,
                }
            };
        crate::rings::lemma_stitched_rings_closed(crate::rings::canonical_ways(lists), closed, a.unclosed as nat);
        lemma_resolved_rings_closed(closed, entries);
        assert forall|r: int| 0 <= r < area.rings@.len() implies {
            &&& (#[trigger] area.rings@[r])@.len() >= 4
            &&& area.rings@[r]@[0] == area.rings@[r]@.last()
        } by {
            assert(coords_view(area.rings@)[r] == area.rings@[r]@);
        }
    }
}

/// An admin area comes from a kept relation: it carries the relation's
/// non-empty `name` and its parsed `admin_level`, and has at least one ring,
/// each closed.
pub proof fn lemma_admin_area(
    m: Map<Seq<char>, Seq<char>>,
    members: Seq<RelationMember>,
    rel: RelationRecord,
    ways: Map<i64, Vec<i64>>,
    entries: Map<i64, (u32, u32)>,
    a: Assembly,
)
    requires
        relation_record_ok(m, members, Some(rel)),
        assembly_ok(rel, ways, entries, a),
    ensures
        a.area matches Some(area) ==> {
            &&& area.name@ == m["name"@]
            &&& area.name@.len() > 0
            &&& admin_level_spec(m) == Some(area.admin_level as nat)
            &&& area.rings@.len() > 0
            &&& forall|r: int|
                0 <= r < area.rings@.len() ==> {
                    &&& (#[trigger] area.rings@[r])@.len() >= 4
                    &&& area.rings@[r]@[0] == area.rings@[r]@.last()
                }
        },
{
    lemma_assembled_rings_closed(rel, ways, entries, a);
    if let Some(area) = a.area {
        let lists = read_way_lists(rel.outer_way_ids@, ways);
        let closed = choose|closed: Seq<Seq<i64>>|
            #![trigger resolved_rings(closed, entries)]
            {
                let kept = resolved_rings(closed, entries);
                &&& crate::rings::stitch_outcome(crate::rings::canonical_ways(lists), closed, a.unclosed as nat)
                &&& (closed, a.unclosed as nat) == crate::rings::stitch_result(lists)
                &&& a.unresolved + kept.len() == closed.len()
                &&& match a.area {
                    Some(area) => {
                        &&& kept.len() > 0
                        &&& area.name@ == rel.name@
                        &&& area.admin_level == rel.admin_level
                        &&& coords_view(area.rings@) == kept
                    },
                    None => kept.len() == 0,
                }
            };
        assert(coords_view(area.rings@).len() == area.rings@.len());
    }
}

/// Every outer way id of the relations `rels`.
pub open spec fn outer_way_set(rels: Seq<RelationRecord>) -> Set<i64> {
    Set::new(
        |id: i64|
            exists|i: int, j: int|
                0 <= i < rels.len() && 0 <= j < rels[i].outer_way_ids@.len() && #[trigger] rels[i].outer_way_ids@[j]
                    == id,
    )
}

/// The admin pass over the input: the admin relations kept on the first
/// read, then the member ways they name, read on the second, then the
/// assembly of each kept relation.
pub struct AdminScan {
    relations: Vec<RelationRecord>,
    wanted: std::collections::HashSet<i64>,
    ways: std::collections::HashMap<i64, Vec<i64>>,
}

impl AdminScan {
    /// The kept relations, in the order they were kept.
    pub closed spec fn kept(&self) -> Seq<RelationRecord> {
        self.relations@
    }

    /// The ways read so far, by id.
    pub closed spec fn read_ways(&self) -> Map<i64, Vec<i64>> {
        self.ways@
    }

    closed spec fn wanted_ids(&self) -> Set<i64> {
        self.wanted@
    }

    /// The wanted ways are the outer ways of the kept relations, and only
    /// wanted ways are read.
    pub closed spec fn wf(&self) -> bool {
        &&& self.wanted_ids() == outer_way_set(self.kept())
        &&& self.read_ways().dom().subset_of(outer_way_set(self.kept()))
    }

    /// A pass with nothing kept or read yet.
    pub fn new() -> (s: AdminScan)
        ensures
            s.wf(),
            s.kept() == Seq::<RelationRecord>::empty(),
            s.read_ways() == Map::<i64, Vec<i64>>::empty(),
    {
        broadcast use vstd::std_specs::hash::group_hash_axioms;

        let s = AdminScan {
            relations: Vec::new(),
            wanted: std::collections::HashSet::new(),
            ways: std::collections::HashMap::new(),
        };
        assert(s.wanted_ids() =~= outer_way_set(s.kept()));
        s
    }

    /// Keeps an admin relation: its outer ways become wanted.
    pub fn keep_relation(&mut self, rel: RelationRecord)
        requires
            old(self).wf(),
        ensures
            final(self).wf(),
            final(self).kept() == old(self).kept().push(rel),
            final(self).read_ways() == old(self).read_ways(),
    {
        broadcast use vstd::std_specs::hash::group_hash_axioms;

        let ghost before = self.relations@;
        let ghost ids = rel.outer_way_ids@;
        let mut i: usize = 0;
        while i < rel.outer_way_ids.len()
            invariant
                i <= ids.len(),
                ids == rel.outer_way_ids@,
                self.relations@ == before,
                self.ways@ == old(self).ways@,
                self.wanted@ == outer_way_set(before).union(Set::new(
                    |id: i64| exists|j: int| 0 <= j < i && #[trigger] ids[j] == id,
                )),
            decreases ids.len() - i,
        {
            let id = rel.outer_way_ids[i];
            self.wanted.insert(id);
            i = i + 1;
            assert(self.wanted@ =~= outer_way_set(before).union(Set::new(
                |x: i64| exists|j: int| 0 <= j < i && #[trigger] ids[j] == x,
            ))) by {
                assert forall|x: i64| #[trigger] self.wanted@.contains(x) implies outer_way_set(before).union(
                    Set::new(|y: i64| exists|j: int| 0 <= j < i && #[trigger] ids[j] == y),
                ).contains(x) by {
                    if x == id {
                        assert(ids[i - 1] == x);
                    }
                }
            }
        }
        self.relations.push(rel);
        proof {
            let after = self.relations@;
            assert(after.len() == before.len() + 1);
            assert(after[before.len() as int] == rel);
            assert forall|x: i64| #[trigger] self.wanted@.contains(x) == outer_way_set(after).contains(x) by {
                if outer_way_set(before).contains(x) {
                    let (a, b) = choose|a: int, b: int|
                        0 <= a < before.len() && 0 <= b < before[a].outer_way_ids@.len()
                            && #[trigger] before[a].outer_way_ids@[b] == x;
                    assert(after[a] == before[a]);
                    assert(after[a].outer_way_ids@[b] == x);
                }
                if outer_way_set(after).contains(x) {
                    let (a, b) = choose|a: int, b: int|
                        0 <= a < after.len() && 0 <= b < after[a].outer_way_ids@.len()
                            && #[trigger] after[a].outer_way_ids@[b] == x;
                    if a < before.len() {
                        assert(before[a] == after[a]);
                        assert(before[a].outer_way_ids@[b] == x);
                    } else {
                        assert(ids[b] == x);
                    }
                }
            }
            assert(self.wanted@ =~= outer_way_set(after));
            assert(outer_way_set(before).subset_of(outer_way_set(after)));
        }
    }

    /// The kept relations.
    pub fn relations(&self) -> (r: &[RelationRecord])
        ensures
            r@ == self.kept(),
    {
        self.relations.as_slice()
    }

    /// Whether way `id` is an outer way of a kept relation.
    pub fn wants(&self, id: i64) -> (b: bool)
        requires
            self.wf(),
        ensures
            b == outer_way_set(self.kept()).contains(id),
    {
        broadcast use vstd::std_specs::hash::group_hash_axioms;

        self.wanted.contains(&id)
    }

    /// Reads a way: its node ids are stored when it is wanted.
    pub fn add_way(&mut self, id: i64, refs: Vec<i64>)
        requires
            old(self).wf(),
        ensures
            final(self).wf(),
            final(self).kept() == old(self).kept(),
            final(self).read_ways() == if outer_way_set(old(self).kept()).contains(id) {
                old(self).read_ways().insert(id, refs)
            } else {
                old(self).read_ways()
            },
    {
        broadcast use vstd::std_specs::hash::group_hash_axioms;

        if self.wanted.contains(&id) {
            self.ways.insert(id, refs);
        }
    }

    /// Assembles every kept relation, in the order kept (see
    /// [`assembly_ok`]).
    pub fn assemble(&self, nodes: &crate::nodes::NodeTable) -> (r: Vec<Assembly>)
        ensures
            r@.len() == self.kept().len(),
            forall|i: int|
                0 <= i < r@.len() ==> assembly_ok(self.kept()[i], self.read_ways(), nodes.entries(), #[trigger] r@[i]),
    {
        let mut out: Vec<Assembly> = Vec::new();
        let mut i: usize = 0;
        while i < self.relations.len()
            invariant
                i <= self.relations@.len(),
                out@.len() == i,
                forall|k: int|
                    0 <= k < i ==> assembly_ok(self.relations@[k], self.ways@, nodes.entries(), #[trigger] out@[k]),
            decreases self.relations@.len() - i,
        {
            let a = assemble_area(&self.relations[i], &self.ways, nodes);
            out.push(a);
            i = i + 1;
        }
        out
    }
}

/// The cross-language alias keys: `int_name`, and `name:` followed by two
/// or three lower-case letters (so `name:en` and `name:fil` qualify, while
/// `name:zh-Hans` and a bare `name` do not).
pub proof fn lemma_alias_keys(key: Seq<char>)
    ensures
        is_alias_key("int_name"@),
        key.len() == 7 && key.take(5) == "name:"@ && 'a' <= key[5] <= 'z' && 'a' <= key[6] <= 'z'
            ==> is_alias_key(key),
        key.len() == 8 && key.take(5) == "name:"@ && 'a' <= key[5] <= 'z' && 'a' <= key[6] <= 'z' && 'a'
            <= key[7] <= 'z' ==> is_alias_key(key),
        is_alias_key(key) ==> key == "int_name"@ || (key.take(5) == "name:"@ && 7 <= key.len() <= 8),
{
    reveal_strlit("name:");
    reveal_strlit("int_name");
    if key.len() == 7 && key.take(5) == "name:"@ && 'a' <= key[5] <= 'z' && 'a' <= key[6] <= 'z' {
        assert(key.take(5) =~= seq!['n', 'a', 'm', 'e', ':']);
    }
    if key.len() == 8 && key.take(5) == "name:"@ && 'a' <= key[5] <= 'z' && 'a' <= key[6] <= 'z' && 'a'
        <= key[7] <= 'z' {
        assert(key.take(5) =~= seq!['n', 'a', 'm', 'e', ':']);
    }
    if is_alias_key(key) && key != "int_name"@ {
        assert(key.take(5) =~= "name:"@);
    }
}

} // verus!
