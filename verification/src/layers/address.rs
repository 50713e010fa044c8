//! Address layer: house numbers grouped by `(street, locality)`.
//!
//! Every node or way with non-empty `addr:housenumber` and `addr:street`
//! is a member.  Members are grouped by `(street, resolved locality)` in the
//! order groups are first seen; within a group they are sorted by house
//! number (string order, not numeric; a stable sort, so equal numbers keep
//! their scan order) and split into consecutive segments of at most
//! [`CAP`] members, one feature per segment.  Coordinates (the
//! `MultiPoint` and the segment centre) are attached outside the library
//! from the member indices planned here.

use vstd::prelude::*;
use crate::order::{keyed_view, sort_by_key, sort_indices_by_key};
use crate::taxonomy::{TagMap, has_nonempty};
use crate::text::{
    append_chars, chars_of, dedup_join, dedup_join_spec, join_space, nat_decimal, push_decimal,
    string_of, views,
};

verus! {

/// Maximum members per address feature.
pub const CAP: usize = 2000;

/// The address aliases: the street, then "street locality" (just the
/// street again when the locality is empty).
pub open spec fn address_aliases(street: Seq<char>, locality: Seq<char>) -> Seq<Seq<char>> {
    seq![
        street,
        if locality.len() == 0 {
            street
        } else {
            street + seq![' '] + locality
        },
    ]
}

/// Address `carmen:text`: `"street,street locality"`, or just `"street"`
/// when the locality is empty.
pub fn carmen_text(street: &str, locality: &str) -> (t: String)
    ensures
        t@ == dedup_join_spec(address_aliases(street@, locality@)),
{
    let second = if crate::text::str_is_empty(locality) {
        street.to_owned()
    } else {
        join_space(street, locality)
    };
    let parts = [street.to_owned(), second];
    assert(views(parts@) == address_aliases(street@, locality@));
    dedup_join(parts.as_slice())
}

/// An address member: non-empty `addr:housenumber` and `addr:street`.
pub open spec fn has_address_tags_spec(tags: Map<Seq<char>, Seq<char>>) -> bool {
    has_nonempty(tags, "addr:housenumber"@) && has_nonempty(tags, "addr:street"@)
}

/// Whether `tags` carry both address tags non-empty.
pub fn has_address_tags(tags: &TagMap) -> (b: bool)
    ensures
        b == has_address_tags_spec(tags@),
{
    tags.has_nonempty("addr:housenumber") && tags.has_nonempty("addr:street")
}

/// The address tags of one member.
pub struct AddressTags {
    pub street: String,
    pub housenumber: String,
    /// `addr:postcode`, when present and non-empty.
    pub postcode: Option<String>,
}

/// The address tags of `tags`, if it is an address member.
pub fn candidate_from_tags(tags: &TagMap) -> (r: Option<AddressTags>)
    ensures
        match r {
            Some(a) => {
                &&& has_address_tags_spec(tags@)
                &&& a.street@ == tags@["addr:street"@]
                &&& a.housenumber@ == tags@["addr:housenumber"@]
                &&& crate::hierarchy::opt_string_view(a.postcode) == crate::layers::poi::nonempty_tag(
                    tags@,
                    "addr:postcode"@,
                )
            },
            None => !has_address_tags_spec(tags@),
        },
{
    if !has_address_tags(tags) {
        return None;
    }
    let street = match tags.get("addr:street") {
        Some(s) => s.clone(),
        None => return None,
    };
    let housenumber = match tags.get("addr:housenumber") {
        Some(h) => h.clone(),
        None => return None,
    };
    let postcode = match tags.get("addr:postcode") {
        Some(pc) => if crate::text::str_is_empty(pc.as_str()) {
            None
        } else {
            Some(pc.clone())
        },
        None => None,
    };
    Some(AddressTags { street, housenumber, postcode })
}

/// One address member with the locality resolved for its position (empty
/// when none).
pub struct AddressCandidate {
    pub street: String,
    pub housenumber: String,
    pub postcode: Option<String>,
    pub locality: String,
}

/// One planned address feature.
pub struct AddressSegment {
    pub id: u64,
    pub text: String,
    /// Candidate indices, in house-number order.
    pub members: Vec<usize>,
    /// House numbers, parallel to `members`.
    pub numbers: Vec<String>,
    /// The locality, when non-empty.
    pub city: Option<String>,
    /// The postcode of the first member of the segment that has one.
    pub postcode: Option<String>,
}

/// The features of one `(street, locality)` group.
pub struct AddressGroup {
    pub street: String,
    pub locality: String,
    pub segments: Vec<AddressSegment>,
}

/// Grouping key of a candidate.
pub open spec fn key_of(c: AddressCandidate) -> (Seq<char>, Seq<char>) {
    (c.street@, c.locality@)
}

/// Distinct keys of the first `n` candidates, in first-seen order.
pub open spec fn distinct_keys(cands: Seq<AddressCandidate>, n: int) -> Seq<(Seq<char>, Seq<char>)>
    decreases n,
{
    if n <= 0 {
        seq![]
    } else {
        let prev = distinct_keys(cands, n - 1);
        let k = key_of(cands[n - 1]);
        if prev.contains(k) {
            prev
        } else {
            prev.push(k)
        }
    }
}

/// Indices `< n` of the candidates with key `k`, in order.
pub open spec fn members_with_key(cands: Seq<AddressCandidate>, k: (Seq<char>, Seq<char>), n: int) -> Seq<usize>
    decreases n,
{
    if n <= 0 {
        seq![]
    } else if key_of(cands[n - 1]) == k {
        members_with_key(cands, k, n - 1).push((n - 1) as usize)
    } else {
        members_with_key(cands, k, n - 1)
    }
}

/// Members keyed by house number.
pub open spec fn keyed_members(cands: Seq<AddressCandidate>, ms: Seq<usize>) -> Seq<(Seq<char>, usize)> {
    ms.map_values(|m: usize| (cands[m as int].housenumber@, m))
}

/// The group's members in house-number order (stable).
pub open spec fn sorted_members(cands: Seq<AddressCandidate>, k: (Seq<char>, Seq<char>)) -> Seq<usize> {
    sort_by_key(keyed_members(cands, members_with_key(cands, k, cands.len() as int))).map_values(
        |p: (Seq<char>, usize)| p.1,
    )
}

/// Number of segments for `m` members.
pub open spec fn segment_count(m: nat) -> nat {
    (m + 1999) / 2000
}

/// Postcode of the first member of `ms` that has one.
pub open spec fn first_postcode(cands: Seq<AddressCandidate>, ms: Seq<usize>) -> Option<Seq<char>>
    decreases ms.len(),
{
    if ms.len() == 0 {
        None
    } else {
        match cands[ms[0] as int].postcode {
            Some(pc) => Some(pc@),
            None => first_postcode(cands, ms.drop_first()),
        }
    }
}

/// Feature id source of segment `k` of group `(street, locality)`.
pub open spec fn segment_sid(street: Seq<char>, locality: Seq<char>, k: nat) -> Seq<char> {
    "addr:"@ + street + ":"@ + locality + ":"@ + nat_decimal(k)
}

/// Segment `k` of the group with key `key` and members `ms` (already in
/// house-number order).
pub open spec fn segment_ok(
    cands: Seq<AddressCandidate>,
    key: (Seq<char>, Seq<char>),
    ms: Seq<usize>,
    k: int,
    seg: AddressSegment,
) -> bool {
    let start = 2000 * k;
    let end = if start + 2000 < ms.len() {
        start + 2000
    } else {
        ms.len() as int
    };
    let chunk = ms.subrange(start, end);
    &&& seg.members@ == chunk
    &&& views(seg.numbers@) == chunk.map_values(|m: usize| cands[m as int].housenumber@)
    &&& seg.text@ == dedup_join_spec(address_aliases(key.0, key.1))
    &&& seg.id as nat == crate::ids::hid_spec(segment_sid(key.0, key.1, k as nat))
    &&& crate::hierarchy::opt_string_view(seg.city) == if key.1.len() > 0 {
        Some(key.1)
    } else {
        None
    }
    &&& crate::hierarchy::opt_string_view(seg.postcode) == first_postcode(cands, chunk)
}

/// The segments of a group with key `key` and ordered members `ms`.
pub open spec fn segments_ok(
    cands: Seq<AddressCandidate>,
    key: (Seq<char>, Seq<char>),
    ms: Seq<usize>,
    segs: Seq<AddressSegment>,
) -> bool {
    &&& segs.len() == segment_count(ms.len())
    &&& forall|k: int| 0 <= k < segs.len() ==> segment_ok(cands, key, ms, k, #[trigger] segs[k])
}

/// The address plan: one group per distinct `(street, locality)`, in
/// first-seen order, each split into segments of its house-number-ordered
/// members.
pub open spec fn address_plan_ok(cands: Seq<AddressCandidate>, gs: Seq<AddressGroup>) -> bool {
    let ks = distinct_keys(cands, cands.len() as int);
    &&& gs.len() == ks.len()
    &&& forall|g: int|
        0 <= g < gs.len() ==> {
            &&& (#[trigger] gs[g]).street@ == ks[g].0
            &&& gs[g].locality@ == ks[g].1
            &&& segments_ok(cands, ks[g], sorted_members(cands, ks[g]), gs[g].segments@)
        }
}

} // verus!

verus! {

fn segment_id(street: &str, locality: &str, k: u64) -> (id: u64)
    ensures
        id as nat == crate::ids::hid_spec(segment_sid(street@, locality@, k as nat)),
{
    let mut v = chars_of("addr:");
    let s = chars_of(street);
    let l = chars_of(locality);
    let colon = chars_of(":");
    let ghost v0 = v@;
    append_chars(&mut v, &s);
    append_chars(&mut v, &colon);
    append_chars(&mut v, &l);
    append_chars(&mut v, &colon);
    push_decimal(&mut v, k);
    assert(v@ == segment_sid(street@, locality@, k as nat));
    let sid = string_of(v.as_slice());
    crate::ids::hid(sid.as_str())
}

/// Splits a group's ordered members into consecutive segments of at most
/// [`CAP`] members, one feature each (see [`segments_ok`]).
pub fn segment_group(
    cands: &[AddressCandidate],
    street: &str,
    locality: &str,
    ms: &Vec<usize>,
) -> (segs: Vec<AddressSegment>)
    requires
        forall|j: int| 0 <= j < ms@.len() ==> (#[trigger] ms@[j]) < cands@.len(),
    ensures
        segments_ok(cands@, (street@, locality@), ms@, segs@),
{
    let m = ms.len();
    let text = carmen_text(street, locality);
    let nseg: usize = m / CAP + if m % CAP > 0 {
        1
    } else {
        0
    };
    assert(nseg == segment_count(m as nat)) by (nonlinear_arith)
        requires
            nseg == m / 2000 + if m % 2000 > 0 {
                1int
            } else {
                0int
            },
    ;
    let mut segs: Vec<AddressSegment> = Vec::new();
    let mut k: usize = 0;
    while k < nseg
        invariant
            k <= nseg,
            nseg == segment_count(m as nat),
            m == ms@.len(),
            text@ == dedup_join_spec(address_aliases(street@, locality@)),
            forall|j: int| 0 <= j < ms@.len() ==> (#[trigger] ms@[j]) < cands@.len(),
            segs@.len() == k,
            forall|q: int| 0 <= q < k ==> segment_ok(cands@, (street@, locality@), ms@, q, #[trigger] segs@[q]),
        decreases nseg - k,
    {
        assert(2000 * k < m) by (nonlinear_arith)
            requires
                k < nseg,
                nseg == (m + 1999) / 2000,
        ;
        let start: usize = CAP * k;
        let end: usize = if m - start > CAP {
            start + CAP
        } else {
            m
        };
        let ghost chunk = ms@.subrange(start as int, end as int);
        let mut members: Vec<usize> = Vec::new();
        let mut numbers: Vec<String> = Vec::new();
        let mut postcode: Option<String> = None;
        let mut j: usize = start;
        assert(chunk.skip(0) == chunk);
        while j < end
            invariant
                start <= j <= end <= m,
                m == ms@.len(),
                chunk == ms@.subrange(start as int, end as int),
                forall|q: int| 0 <= q < ms@.len() ==> (#[trigger] ms@[q]) < cands@.len(),
                members@ == chunk.take(j - start),
                views(numbers@) == chunk.take(j - start).map_values(|x: usize| cands@[x as int].housenumber@),
                match postcode {
                    Some(p) => first_postcode(cands@, chunk) == Some(p@),
                    None => first_postcode(cands@, chunk) == first_postcode(cands@, chunk.skip(j - start)),
                },
            decreases end - j,
        {
            let idx = ms[j];
            let c = &cands[idx];
            let ghost before_numbers = views(numbers@);
            members.push(idx);
            numbers.push(c.housenumber.clone());
            proof {
                assert(chunk[j - start] == idx);
                assert(chunk.take(j - start + 1) == chunk.take(j - start).push(idx));
                assert(views(numbers@) == before_numbers.push(c.housenumber@));
                assert(chunk.take(j - start + 1).map_values(|x: usize| cands@[x as int].housenumber@)
                    == chunk.take(j - start).map_values(|x: usize| cands@[x as int].housenumber@).push(
                    c.housenumber@,
                ));
                let rest = chunk.skip(j - start);
                assert(rest[0] == idx);
                assert(rest.drop_first() == chunk.skip(j - start + 1));
            }
            if postcode.is_none() {
                match &c.postcode {
                    Some(pc) => {
                        postcode = Some(pc.clone());
                    },
                    None => {},
                }
            }
            j = j + 1;
        }
        proof {
            assert(chunk.take(end - start) == chunk);
            if postcode.is_none() {
                assert(chunk.skip(end - start).len() == 0);
            }
        }
        let city = if crate::text::str_is_empty(locality) {
            None
        } else {
            Some(locality.to_owned())
        };
        let id = segment_id(street, locality, k as u64);
        let seg = AddressSegment {
            id,
            text: text.clone(),
            members,
            numbers,
            city,
            postcode,
        };
        proof {
            assert(start == 2000 * k);
            if m - start > 2000 {
                assert(end == start + 2000);
            }
        }
        let ghost before = segs@;
        segs.push(seg);
        proof {
            assert forall|q: int| 0 <= q < k + 1 implies segment_ok(
                cands@,
                (street@, locality@),
                ms@,
                q,
                #[trigger] segs@[q],
            ) by {
                if q < k {
                    assert(segs@[q] == before[q]);
                }
            }
        }
        k = k + 1;
    }
    segs
}

} // verus!

verus! {

proof fn lemma_distinct_keys_props(cands: Seq<AddressCandidate>, n: int)
    requires
        0 <= n <= cands.len(),
    ensures
        distinct_keys(cands, n).no_duplicates(),
        forall|j: int| 0 <= j < n ==> distinct_keys(cands, n).contains(key_of(#[trigger] cands[j])),
    decreases n,
{
    if n > 0 {
        lemma_distinct_keys_props(cands, n - 1);
        let prev = distinct_keys(cands, n - 1);
        let k = key_of(cands[n - 1]);
        let cur = distinct_keys(cands, n);
        assert forall|j: int| 0 <= j < n implies cur.contains(key_of(#[trigger] cands[j])) by {
            if j < n - 1 {
                let t = choose|t: int| 0 <= t < prev.len() && prev[t] == key_of(cands[j]);
                if !prev.contains(k) {
                    assert(cur[t] == prev[t]);
                }
            } else if !prev.contains(k) {
                assert(cur[prev.len() as int] == k);
            }
        }
        if !prev.contains(k) {
            assert forall|a: int, b: int| 0 <= a < cur.len() && 0 <= b < cur.len() && a != b
                implies cur[a] != cur[b] by {
                if a < prev.len() && b < prev.len() {
                } else if a < prev.len() {
                    assert(prev.contains(cur[a]));
                } else {
                    assert(prev.contains(cur[b]));
                }
            }
        }
    }
}

proof fn lemma_members_absent(cands: Seq<AddressCandidate>, k: (Seq<char>, Seq<char>), n: int)
    requires
        0 <= n <= cands.len(),
        forall|j: int| 0 <= j < n ==> key_of(#[trigger] cands[j]) != k,
    ensures
        members_with_key(cands, k, n) == Seq::<usize>::empty(),
    decreases n,
{
    if n > 0 {
        lemma_members_absent(cands, k, n - 1);
    }
}

proof fn lemma_members_bound(cands: Seq<AddressCandidate>, k: (Seq<char>, Seq<char>), n: int)
    requires
        0 <= n,
    ensures
        forall|j: int|
            0 <= j < members_with_key(cands, k, n).len() ==> (#[trigger] members_with_key(cands, k, n)[j]) < n,
    decreases n,
{
    if n > 0 {
        lemma_members_bound(cands, k, n - 1);
        let prev = members_with_key(cands, k, n - 1);
        let cur = members_with_key(cands, k, n);
        assert forall|j: int| 0 <= j < cur.len() implies (#[trigger] cur[j]) < n by {
            if j < prev.len() {
                assert(cur[j] == prev[j]);
            }
        }
    }
}

/// Groups the address members by `(street, locality)` and plans their
/// features (see [`address_plan_ok`]).
pub fn extract(cands: &[AddressCandidate]) -> (gs: Vec<AddressGroup>)
    ensures
        address_plan_ok(cands@, gs@),
{
    let ghost cs = cands@;
    let mut index: vstd::hash_map::StringHashMap<usize> = vstd::hash_map::StringHashMap::new();
    let mut by_street: Vec<Vec<usize>> = Vec::new();
    let ghost mut slot_street: Seq<Seq<char>> = Seq::empty();
    let mut keys: Vec<(String, String)> = Vec::new();
    let mut members: Vec<Vec<usize>> = Vec::new();
    let mut i: usize = 0;
    while i < cands.len()
        invariant
            i <= cs.len(),
            cs == cands@,
            keys@.len() == members@.len(),
            crate::order::pairs_view(keys@) == distinct_keys(cs, i as int),
            forall|g: int|
                0 <= g < keys@.len() ==> (#[trigger] members@[g])@ == members_with_key(
                    cs,
                    (keys@[g].0@, keys@[g].1@),
                    i as int,
                ),
            slot_street.len() == by_street@.len(),
            forall|s: Seq<char>| #![trigger index@.contains_key(s)]
                index@.contains_key(s) ==> index@[s] < by_street@.len() && slot_street[index@[s] as int] == s,
            forall|si: int, t: int|
                0 <= si < by_street@.len() && 0 <= t < by_street@[si]@.len() ==> {
                    &&& (#[trigger] by_street@[si]@[t]) < keys@.len()
                    &&& keys@[by_street@[si]@[t] as int].0@ == slot_street[si]
                },
            forall|g: int|
                0 <= g < keys@.len() ==> {
                    &&& index@.contains_key((#[trigger] keys@[g]).0@)
                    &&& by_street@[index@[keys@[g].0@] as int]@.contains(g as usize)
                },
        decreases cs.len() - i,
    {
        let c = &cands[i];
        let ghost k = key_of(cs[i as int]);
        let ghost old_keys = crate::order::pairs_view(keys@);
        let ghost old_members = members@;
        proof {
            lemma_distinct_keys_props(cs, i as int);
            lemma_distinct_keys_props(cs, i as int + 1);
            assert(c.street@ == k.0 && c.locality@ == k.1);
        }
        let mut found: Option<usize> = None;
        let slot: Option<usize> = match index.get(c.street.as_str()) {
            Some(si) => Some(*si),
            None => None,
        };
        match slot {
            Some(si) => {
                let mut t: usize = 0;
                while t < by_street[si].len()
                    invariant_except_break
                        found.is_none(),
                    invariant
                        si < by_street@.len(),
                        t <= by_street@[si as int]@.len(),
                        slot_street[si as int] == k.0,
                        forall|si2: int, t2: int|
                            0 <= si2 < by_street@.len() && 0 <= t2 < by_street@[si2]@.len() ==> {
                                &&& (#[trigger] by_street@[si2]@[t2]) < keys@.len()
                                &&& keys@[by_street@[si2]@[t2] as int].0@ == slot_street[si2]
                            },
                        forall|u: int| 0 <= u < t ==> keys@[(#[trigger] by_street@[si as int]@[u]) as int].1@ != k.1,
                        c.locality@ == k.1,
                    ensures
                        match found {
                            Some(g) => g < keys@.len() && keys@[g as int].0@ == k.0 && keys@[g as int].1@ == k.1,
                            None => forall|u: int|
                                0 <= u < by_street@[si as int]@.len() ==> keys@[(#[trigger] by_street@[si as int]@[u]) as int].1@ != k.1,
                        },
                    decreases by_street@[si as int]@.len() - t,
                {
                    let g = by_street[si][t];
                    if crate::taxonomy::str_eq(keys[g].1.as_str(), c.locality.as_str()) {
                        found = Some(g);
                        break;
                    }
                    t = t + 1;
                }
            },
            None => {},
        }
        let g: usize = match found {
            Some(g) => {
                proof {
                    assert(old_keys[g as int] == k);
                    assert(distinct_keys(cs, i as int + 1) == distinct_keys(cs, i as int));
                }
                g
            },
            None => {
                let g = keys.len();
                proof {
                    if distinct_keys(cs, i as int).contains(k) {
                        let g0 = choose|g0: int| 0 <= g0 < old_keys.len() && old_keys[g0] == k;
                        assert(keys@[g0].0@ == k.0);
                        assert(index@.contains_key(keys@[g0].0@));
                        let si = index@[k.0];
                        assert(by_street@[si as int]@.contains(g0 as usize));
                        let t0 = choose|t0: int| 0 <= t0 < by_street@[si as int]@.len() && by_street@[si as int]@[t0] == g0 as usize;
                        assert(keys@[by_street@[si as int]@[t0] as int].1@ != k.1);
                        assert(false);
                    }
                    assert(distinct_keys(cs, i as int + 1) == old_keys.push(k));
                    assert(members_with_key(cs, k, i as int) == Seq::<usize>::empty()) by {
                        assert forall|j: int| 0 <= j < i implies key_of(#[trigger] cs[j]) != k by {
                            assert(distinct_keys(cs, i as int).contains(key_of(cs[j])));
                        }
                        lemma_members_absent(cs, k, i as int);
                    }
                }
                let ghost old_index = index@;
                let ghost old_by = by_street@;
                keys.push((c.street.clone(), c.locality.clone()));
                members.push(Vec::new());
                match slot {
                    Some(si) => {
                        by_street[si].push(g);
                        proof {
                            assert forall|si2: int, t2: int|
                                0 <= si2 < by_street@.len() && 0 <= t2 < by_street@[si2]@.len() implies {
                                    &&& (#[trigger] by_street@[si2]@[t2]) < keys@.len()
                                    &&& keys@[by_street@[si2]@[t2] as int].0@ == slot_street[si2]
                                } by {
                                if si2 != si || t2 < old_by[si2]@.len() {
                                    assert(by_street@[si2]@[t2] == old_by[si2]@[t2]);
                                }
                            }
                            assert forall|h: int| 0 <= h < keys@.len() implies {
                                &&& index@.contains_key((#[trigger] keys@[h]).0@)
                                &&& by_street@[index@[keys@[h].0@] as int]@.contains(h as usize)
                            } by {
                                if h < g {
                                    let sh = index@[keys@[h].0@] as int;
                                    let th = choose|th: int| 0 <= th < old_by[sh]@.len() && old_by[sh]@[th] == h as usize;
                                    assert(by_street@[sh]@[th] == h as usize);
                                } else {
                                    assert(by_street@[si as int]@[old_by[si as int]@.len() as int] == g);
                                }
                            }
                        }
                    },
                    None => {
                        let si = by_street.len();
                        let mut fresh: Vec<usize> = Vec::new();
                        fresh.push(g);
                        by_street.push(fresh);
                        index.insert(c.street.clone(), si);
                        proof {
                            slot_street = slot_street.push(k.0);
                            assert(!old_index.contains_key(k.0));
                            assert forall|s: Seq<char>| #![trigger index@.contains_key(s)]
                                index@.contains_key(s) implies index@[s] < by_street@.len() && slot_street[index@[s] as int] == s by {
                                if s != k.0 {
                                    assert(old_index.contains_key(s));
                                }
                            }
                            assert forall|si2: int, t2: int|
                                0 <= si2 < by_street@.len() && 0 <= t2 < by_street@[si2]@.len() implies {
                                    &&& (#[trigger] by_street@[si2]@[t2]) < keys@.len()
                                    &&& keys@[by_street@[si2]@[t2] as int].0@ == slot_street[si2]
                                } by {
                                if si2 < old_by.len() {
                                    assert(by_street@[si2] == old_by[si2]);
                                }
                            }
                            assert forall|h: int| 0 <= h < keys@.len() implies {
                                &&& index@.contains_key((#[trigger] keys@[h]).0@)
                                &&& by_street@[index@[keys@[h].0@] as int]@.contains(h as usize)
                            } by {
                                if h < g {
                                    assert(old_index.contains_key(keys@[h].0@));
                                    assert(keys@[h].0@ != k.0);
                                    let sh = index@[keys@[h].0@] as int;
                                    assert(by_street@[sh] == old_by[sh]);
                                } else {
                                    assert(by_street@[si as int]@[0] == g);
                                }
                            }
                        }
                    },
                }
                proof {
                    assert(crate::order::pairs_view(keys@) == old_keys.push(k));
                }
                g
            },
        };
        let ghost mid_members = members@;
        members[g].push(i);
        proof {
            let nk = crate::order::pairs_view(keys@);
            assert(nk == distinct_keys(cs, i as int + 1));
            assert(nk[g as int] == k);
            assert forall|h: int| 0 <= h < keys@.len() implies (#[trigger] members@[h])@ == members_with_key(
                cs,
                (keys@[h].0@, keys@[h].1@),
                i as int + 1,
            ) by {
                assert(nk[h] == (keys@[h].0@, keys@[h].1@));
                if h == g {
                } else {
                    assert(members@[h] == mid_members[h]);
                    assert(nk[h] != nk[g as int]);
                    if h < old_keys.len() {
                        assert(mid_members[h] == old_members[h]);
                    }
                }
            }
        }
        i = i + 1;
    }
    let mut gs: Vec<AddressGroup> = Vec::new();
    let mut g: usize = 0;
    while g < keys.len()
        invariant
            i == cs.len(),
            cs == cands@,
            g <= keys@.len(),
            keys@.len() == members@.len(),
            crate::order::pairs_view(keys@) == distinct_keys(cs, cs.len() as int),
            forall|h: int|
                0 <= h < keys@.len() ==> (#[trigger] members@[h])@ == members_with_key(
                    cs,
                    (keys@[h].0@, keys@[h].1@),
                    cs.len() as int,
                ),
            gs@.len() == g,
            forall|h: int|
                0 <= h < g ==> {
                    let kh = distinct_keys(cs, cs.len() as int)[h];
                    &&& (#[trigger] gs@[h]).street@ == kh.0
                    &&& gs@[h].locality@ == kh.1
                    &&& segments_ok(cs, kh, sorted_members(cs, kh), gs@[h].segments@)
                },
        decreases keys@.len() - g,
    {
        let street = &keys[g].0;
        let locality = &keys[g].1;
        let ghost kg = (street@, locality@);
        let mem = &members[g];
        proof {
            assert(crate::order::pairs_view(keys@)[g as int] == kg);
            lemma_members_bound(cs, kg, cs.len() as int);
        }
        let mut items: Vec<(Vec<char>, usize)> = Vec::new();
        let mut t: usize = 0;
        while t < mem.len()
            invariant
                t <= mem@.len(),
                mem@ == members_with_key(cs, kg, cs.len() as int),
                cs == cands@,
                forall|j: int| 0 <= j < mem@.len() ==> (#[trigger] mem@[j]) < cs.len(),
                crate::order::keyed_view(items@) == keyed_members(cs, mem@.take(t as int)),
            decreases mem@.len() - t,
        {
            let m = mem[t];
            let hn = chars_of(cands[m].housenumber.as_str());
            let ghost before = crate::order::keyed_view(items@);
            items.push((hn, m));
            proof {
                assert(mem@.take(t as int + 1) == mem@.take(t as int).push(m));
                assert(crate::order::keyed_view(items@) == before.push((cs[m as int].housenumber@, m)));
            }
            t = t + 1;
        }
        assert(mem@.take(mem@.len() as int) == mem@);
        let sorted = crate::order::sort_indices_by_key(items);
        let ghost km = keyed_members(cs, mem@);
        proof {
            crate::order::lemma_sort_by_key_items(km);
        }
        let mut ms: Vec<usize> = Vec::new();
        let mut t: usize = 0;
        while t < sorted.len()
            invariant
                t <= sorted@.len(),
                crate::order::keyed_view(sorted@) == sort_by_key(km),
                sort_by_key(km).len() == km.len(),
                km == keyed_members(cs, mem@),
                forall|j: int| 0 <= j < km.len() ==> km.contains(#[trigger] sort_by_key(km)[j]),
                forall|j: int| 0 <= j < mem@.len() ==> (#[trigger] mem@[j]) < cs.len(),
                ms@ == crate::order::keyed_view(sorted@).take(t as int).map_values(|p: (Seq<char>, usize)| p.1),
                forall|j: int| 0 <= j < ms@.len() ==> (#[trigger] ms@[j]) < cs.len(),
            decreases sorted@.len() - t,
        {
            let m = sorted[t].1;
            proof {
                let ks = crate::order::keyed_view(sorted@);
                assert(ks[t as int] == (sorted@[t as int].0@, m));
                assert(km.contains(ks[t as int]));
                let q = choose|q: int| 0 <= q < km.len() && km[q] == ks[t as int];
                assert(km[q].1 == mem@[q]);
                assert(ks.take(t as int + 1) == ks.take(t as int).push(ks[t as int]));
            }
            ms.push(m);
            t = t + 1;
        }
        proof {
            let ks = crate::order::keyed_view(sorted@);
            assert(ks.take(ks.len() as int) == ks);
            assert(ms@ == sorted_members(cs, kg));
        }
        let segs = segment_group(cands, street.as_str(), locality.as_str(), &ms);
        gs.push(AddressGroup { street: street.clone(), locality: locality.clone(), segments: segs });
        g = g + 1;
    }
    gs
}

/// No two address groups share a `(street, locality)` key, and every
/// segment holds between one and [`CAP`] members, with one house number per
/// member.
pub proof fn lemma_address_plan_shape(cands: Seq<AddressCandidate>, gs: Seq<AddressGroup>)
    requires
        address_plan_ok(cands, gs),
    ensures
        forall|a: int, b: int|
            0 <= a < b < gs.len() ==> ((#[trigger] gs[a]).street@, gs[a].locality@) != (
                (#[trigger] gs[b]).street@,
                gs[b].locality@,
            ),
        forall|g: int, k: int|
            0 <= g < gs.len() && 0 <= k < gs[g].segments@.len() ==> {
                &&& 0 < (#[trigger] gs[g].segments@[k]).members@.len() <= 2000
                &&& gs[g].segments@[k].numbers@.len() == gs[g].segments@[k].members@.len()
            },
{
    lemma_distinct_keys_props(cands, cands.len() as int);
    let ks = distinct_keys(cands, cands.len() as int);
    assert forall|a: int, b: int| 0 <= a < b < gs.len() implies ((#[trigger] gs[a]).street@, gs[a].locality@)
        != ((#[trigger] gs[b]).street@, gs[b].locality@) by {
        assert(ks[a] != ks[b]);
    }
    assert forall|g: int, k: int| 0 <= g < gs.len() && 0 <= k < gs[g].segments@.len() implies {
        &&& 0 < (#[trigger] gs[g].segments@[k]).members@.len() <= 2000
        &&& gs[g].segments@[k].numbers@.len() == gs[g].segments@[k].members@.len()
    } by {
        let ms = sorted_members(cands, ks[g]);
        assert(segment_ok(cands, ks[g], ms, k, gs[g].segments@[k]));
        assert(2000 * k < ms.len()) by (nonlinear_arith)
            requires
                0 <= k < (ms.len() + 1999) / 2000,
        ;
        assert(views(gs[g].segments@[k].numbers@).len() == gs[g].segments@[k].numbers@.len());
    }
}

/// An address member carries both `addr:housenumber` and `addr:street`,
/// non-empty.
pub proof fn lemma_address_tags(tags: Map<Seq<char>, Seq<char>>)
    ensures
        has_address_tags_spec(tags) <==> (tags.contains_key("addr:housenumber"@)
            && tags["addr:housenumber"@].len() > 0 && tags.contains_key("addr:street"@)
            && tags["addr:street"@].len() > 0),
{
}

} // verus!
