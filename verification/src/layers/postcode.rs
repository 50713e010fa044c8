//! Postcode layer: one feature per distinct (cleaned) `addr:postcode` value.
//!
//! Codes are grouped by their cleaned form (commas stripped, white space
//! collapsed), so `"98000"` and `"98000 "` form one group; groups keep the
//! order in which their code was first seen.  Each group's centre is the
//! mean of its members' coordinates, computed outside the library from the
//! member indices planned here.

use vstd::prelude::*;
use crate::taxonomy::{TagMap, has_nonempty};
use crate::text::{chars_of, clean_chars, clean_alias_spec, string_of};

pub use crate::text::clean_alias;

verus! {

/// The non-empty `addr:postcode` of a tag set.
pub fn postcode_from_tags(tags: &TagMap) -> (r: Option<String>)
    ensures
        match r {
            Some(pc) => has_nonempty(tags@, "addr:postcode"@) && pc@ == tags@["addr:postcode"@],
            None => !has_nonempty(tags@, "addr:postcode"@),
        },
{
    match tags.get("addr:postcode") {
        Some(pc) => {
            if crate::text::str_is_empty(pc.as_str()) {
                None
            } else {
                Some(pc.clone())
            }
        },
        None => None,
    }
}

/// The distinct non-empty cleaned codes of `codes`, in first-seen order.
pub open spec fn distinct_codes(codes: Seq<Seq<char>>) -> Seq<Seq<char>>
    decreases codes.len(),
{
    if codes.len() == 0 {
        seq![]
    } else {
        let prev = distinct_codes(codes.drop_last());
        let k = clean_alias_spec(codes.last());
        if k.len() == 0 || prev.contains(k) {
            prev
        } else {
            prev.push(k)
        }
    }
}

/// One postcode group: its cleaned code, the feature id, and the indices of
/// its members in input order.
pub struct PostcodeGroup {
    pub code: String,
    pub id: u64,
    pub members: Vec<usize>,
}

/// Views of raw codes.
pub open spec fn code_views(codes: Seq<String>) -> Seq<Seq<char>> {
    codes.map_values(|c: String| c@)
}

/// Input indices `< n` whose cleaned code is `k`, in order.
pub open spec fn members_of(codes: Seq<Seq<char>>, k: Seq<char>, n: int) -> Seq<usize>
    decreases n,
{
    if n <= 0 {
        seq![]
    } else if clean_alias_spec(codes[n - 1]) == k {
        members_of(codes, k, n - 1).push((n - 1) as usize)
    } else {
        members_of(codes, k, n - 1)
    }
}

/// The postcode plan: one group per distinct cleaned code, in first-seen
/// order, with id `hid("postcode|" + code)` and its members.
pub open spec fn postcode_plan_ok(codes: Seq<Seq<char>>, gs: Seq<PostcodeGroup>) -> bool {
    let ks = distinct_codes(codes);
    &&& gs.len() == ks.len()
    &&& forall|g: int|
        0 <= g < gs.len() ==> {
            &&& (#[trigger] gs[g]).code@ == ks[g]
            &&& gs[g].id as nat == crate::ids::hid_spec("postcode|"@ + ks[g])
            &&& gs[g].members@ == members_of(codes, ks[g], codes.len() as int)
        }
}

proof fn lemma_distinct_codes_props(codes: Seq<Seq<char>>)
    ensures
        distinct_codes(codes).no_duplicates(),
        forall|j: int|
            0 <= j < distinct_codes(codes).len() ==> (#[trigger] distinct_codes(codes)[j]).len() > 0,
        forall|i: int|
            0 <= i < codes.len() && clean_alias_spec(#[trigger] codes[i]).len() > 0
                ==> distinct_codes(codes).contains(clean_alias_spec(codes[i])),
        forall|k: Seq<char>| #[trigger] distinct_codes(codes).contains(k) ==> exists|i: int|
            0 <= i < codes.len() && clean_alias_spec(codes[i]) == k,
    decreases codes.len(),
{
    if codes.len() > 0 {
        let pre = codes.drop_last();
        lemma_distinct_codes_props(pre);
        let prev = distinct_codes(pre);
        let k = clean_alias_spec(codes.last());
        let cur = distinct_codes(codes);
        assert forall|i: int|
            0 <= i < codes.len() && clean_alias_spec(#[trigger] codes[i]).len() > 0
                implies cur.contains(clean_alias_spec(codes[i])) by {
            if i < codes.len() - 1 {
                assert(codes[i] == pre[i]);
                assert(prev.contains(clean_alias_spec(pre[i])));
                let j = choose|j: int| 0 <= j < prev.len() && prev[j] == clean_alias_spec(pre[i]);
                if !(k.len() == 0 || prev.contains(k)) {
                    assert(cur[j] == prev[j]);
                }
            } else {
                if !(k.len() == 0 || prev.contains(k)) {
                    assert(cur[prev.len() as int] == k);
                }
            }
        }
        assert forall|kk: Seq<char>| #[trigger] cur.contains(kk) implies exists|i: int|
            0 <= i < codes.len() && clean_alias_spec(codes[i]) == kk by {
            if prev.contains(kk) {
                let i = choose|i: int| 0 <= i < pre.len() && clean_alias_spec(pre[i]) == kk;
                assert(codes[i] == pre[i]);
            } else {
                assert(kk == k);
                assert(codes[codes.len() - 1] == codes.last());
            }
        }
        if !(k.len() == 0 || prev.contains(k)) {
            assert forall|a: int, b: int| 0 <= a < cur.len() && 0 <= b < cur.len() && a != b
                implies cur[a] != cur[b] by {
                if a < prev.len() && b < prev.len() {
                } else if a < prev.len() {
                    assert(prev.contains(cur[a]));
                } else {
                    assert(prev.contains(cur[b]));
                }
            }
        }
    }
}

proof fn lemma_members_of_absent(codes: Seq<Seq<char>>, k: Seq<char>, n: int)
    requires
        0 <= n <= codes.len(),
        forall|j: int| 0 <= j < n ==> clean_alias_spec(#[trigger] codes[j]) != k,
    ensures
        members_of(codes, k, n) == Seq::<usize>::empty(),
    decreases n,
{
    if n > 0 {
        lemma_members_of_absent(codes, k, n - 1);
    }
}

/// Groups postcode occurrences by cleaned code (see [`postcode_plan_ok`]).
pub fn extract(codes: &[String]) -> (gs: Vec<PostcodeGroup>)
    ensures
        postcode_plan_ok(code_views(codes@), gs@),
{
    let ghost cv = code_views(codes@);
    let mut index: vstd::hash_map::StringHashMap<usize> = vstd::hash_map::StringHashMap::new();
    let mut keys: Vec<String> = Vec::new();
    let mut members: Vec<Vec<usize>> = Vec::new();
    let mut i: usize = 0;
    while i < codes.len()
        invariant
            i <= codes@.len(),
            cv == code_views(codes@),
            keys@.len() == members@.len(),
            code_views(keys@) == distinct_codes(cv.take(i as int)),
            forall|g: int| 0 <= g < keys@.len() ==> (#[trigger] members@[g])@ == members_of(cv, keys@[g]@, i as int),
            forall|k: Seq<char>| #![trigger index@.contains_key(k)]
                index@.contains_key(k) ==> index@[k] < keys@.len() && keys@[index@[k] as int]@ == k,
            forall|g: int| 0 <= g < keys@.len() ==> #[trigger] index@.contains_key(keys@[g]@),
        decreases codes@.len() - i,
    {
        let cs = chars_of(codes[i].as_str());
        let cleaned = clean_chars(cs.as_slice());
        let ghost pre = cv.take(i as int);
        let ghost old_keys = code_views(keys@);
        let ghost old_members = members@;
        proof {
            assert(cv.take(i as int + 1).drop_last() == pre);
            assert(cv.take(i as int + 1).last() == codes@[i as int]@);
            assert(cv[i as int] == codes@[i as int]@);
            lemma_distinct_codes_props(pre);
            assert forall|g: int| 0 <= g < keys@.len() implies (#[trigger] keys@[g])@.len() > 0 by {
                assert(old_keys[g] == keys@[g]@);
            }
        }
        if cleaned.len() > 0 {
            let key = string_of(cleaned.as_slice());
            let g: usize = match index.get(key.as_str()) {
                Some(g) => {
                    proof {
                        assert(old_keys[*g as int] == key@);
                        assert(distinct_codes(pre).contains(key@));
                    }
                    *g
                },
                None => {
                    let g = keys.len();
                    proof {
                        if distinct_codes(pre).contains(key@) {
                            let j = choose|j: int| 0 <= j < keys@.len() && distinct_codes(pre)[j] == key@;
                            assert(keys@[j]@ == key@);
                            assert(index@.contains_key(keys@[j]@));
                        }
                        assert(members_of(cv, key@, i as int) == Seq::<usize>::empty()) by {
                            assert forall|j: int| 0 <= j < i implies clean_alias_spec(#[trigger] cv[j]) != key@ by {
                                assert(pre[j] == cv[j]);
                            }
                            lemma_members_of_absent(cv, key@, i as int);
                        }
                    }
                    let ghost old_index = index@;
                    keys.push(key.clone());
                    members.push(Vec::new());
                    index.insert(key, g);
                    proof {
                        assert(code_views(keys@) == old_keys.push(cleaned@));
                        assert forall|k: Seq<char>| #![trigger index@.contains_key(k)]
                            index@.contains_key(k) implies index@[k] < keys@.len() && keys@[index@[k] as int]@ == k by {
                            if k != cleaned@ {
                                assert(old_index.contains_key(k));
                            }
                        }
                    }
                    g
                },
            };
            let ghost mid_members = members@;
            members[g].push(i);
            proof {
                assert forall|h: int| 0 <= h < keys@.len() implies (#[trigger] members@[h])@ == members_of(
                    cv,
                    keys@[h]@,
                    i as int + 1,
                ) by {
                    if h == g {
                        assert(clean_alias_spec(cv[i as int]) == keys@[h]@);
                    } else {
                        assert(members@[h] == mid_members[h]);
                        if h < old_keys.len() && g < old_keys.len() {
                            assert(old_keys[h] != old_keys[g as int]);
                        } else if h < old_keys.len() {
                            assert(old_keys[h] == keys@[h]@);
                        }
                        assert(keys@[h]@ != cleaned@);
                    }
                }
            }
        } else {
            proof {
                assert forall|h: int| 0 <= h < keys@.len() implies (#[trigger] members@[h])@ == members_of(
                    cv,
                    keys@[h]@,
                    i as int + 1,
                ) by {
                    assert(keys@[h]@.len() > 0);
                }
            }
        }
        i = i + 1;
    }
    assert(cv.take(codes@.len() as int) == cv);
    let mut gs: Vec<PostcodeGroup> = Vec::new();
    let mut rest_keys = keys;
    let mut rest_members = members;
    let ghost all_keys = code_views(rest_keys@);
    let ghost all_members = rest_members@;
    let total = rest_keys.len();
    // Consume the keys and member lists from the back, then reverse.
    let mut built: Vec<PostcodeGroup> = Vec::new();
    while rest_keys.len() > 0
        invariant
            rest_keys@.len() == rest_members@.len(),
            rest_keys@.len() + built@.len() == total,
            total == all_keys.len(),
            all_members.len() == total,
            code_views(rest_keys@) == all_keys.take(rest_keys@.len() as int),
            rest_members@ == all_members.take(rest_members@.len() as int),
            forall|j: int| 0 <= j < built@.len() ==> {
                let src = total - 1 - j;
                &&& (#[trigger] built@[j]).code@ == all_keys[src]
                &&& built@[j].id as nat == crate::ids::hid_spec("postcode|"@ + all_keys[src])
                &&& built@[j].members@ == all_members[src]@
            },
        decreases rest_keys@.len(),
    {
        let ghost rk = code_views(rest_keys@);
        let ghost rks = rest_keys@;
        let ghost rm = rest_members@;
        let code = rest_keys.pop().unwrap();
        assert(code == rks[rks.len() - 1]);
        assert(rk[rk.len() - 1] == rks[rks.len() - 1]@);
        assert(all_keys.take(rk.len() as int)[rk.len() - 1] == all_keys[rk.len() - 1]);
        let mem = rest_members.pop().unwrap();
        let idkey = crate::text::concat("postcode|", code.as_str());
        let id = crate::ids::hid(idkey.as_str());
        proof {
            assert(code@ == all_keys[rk.len() - 1]);
            assert(code_views(rest_keys@) == rk.drop_last());
            assert(rk.drop_last() == all_keys.take(rk.len() - 1));
            assert(rest_members@ == rm.drop_last());
            assert(mem == all_members[rm.len() - 1]);
        }
        built.push(PostcodeGroup { code, id, members: mem });
    }
    while built.len() > 0
        invariant
            built@.len() + gs@.len() == total,
            forall|j: int| 0 <= j < built@.len() ==> {
                let src = total - 1 - j;
                &&& (#[trigger] built@[j]).code@ == all_keys[src]
                &&& built@[j].id as nat == crate::ids::hid_spec("postcode|"@ + all_keys[src])
                &&& built@[j].members@ == all_members[src]@
            },
            forall|j: int| 0 <= j < gs@.len() ==> {
                &&& (#[trigger] gs@[j]).code@ == all_keys[j]
                &&& gs@[j].id as nat == crate::ids::hid_spec("postcode|"@ + all_keys[j])
                &&& gs@[j].members@ == all_members[j]@
            },
        decreases built@.len(),
    {
        let ghost b = built@;
        let item = built.pop().unwrap();
        proof {
            assert(item == b[b.len() - 1]);
            assert(built@ == b.drop_last());
        }
        gs.push(item);
    }
    proof {
        assert(all_keys == distinct_codes(cv));
        assert forall|j: int| 0 <= j < gs@.len() implies (#[trigger] gs@[j]).members@ == members_of(
            cv,
            distinct_codes(cv)[j],
            cv.len() as int,
        ) by {
            assert(all_members[j]@ == members_of(cv, all_keys[j], codes@.len() as int));
        }
    }
    gs
}

/// The groups have pairwise different, non-empty codes, and every code
/// that cleans to something non-empty belongs to a group.
pub proof fn lemma_postcode_groups_distinct(codes: Seq<Seq<char>>, gs: Seq<PostcodeGroup>)
    requires
        postcode_plan_ok(codes, gs),
    ensures
        forall|a: int, b: int| 0 <= a < b < gs.len() ==> (#[trigger] gs[a]).code@ != (#[trigger] gs[b]).code@,
        forall|g: int| 0 <= g < gs.len() ==> (#[trigger] gs[g]).code@.len() > 0,
        forall|i: int|
            0 <= i < codes.len() && clean_alias_spec(#[trigger] codes[i]).len() > 0 ==> exists|g: int|
                0 <= g < gs.len() && gs[g].code@ == clean_alias_spec(codes[i]),
{
    lemma_distinct_codes_props(codes);
    let ks = distinct_codes(codes);
    assert forall|a: int, b: int| 0 <= a < b < gs.len() implies (#[trigger] gs[a]).code@ != (
    #[trigger] gs[b]).code@ by {
        assert(gs[a].code@ == ks[a] && gs[b].code@ == ks[b]);
    }
    assert forall|g: int| 0 <= g < gs.len() implies (#[trigger] gs[g]).code@.len() > 0 by {
        assert(gs[g].code@ == ks[g]);
    }
    assert forall|i: int|
        0 <= i < codes.len() && clean_alias_spec(#[trigger] codes[i]).len() > 0 implies exists|g: int|
            0 <= g < gs.len() && gs[g].code@ == clean_alias_spec(codes[i]) by {
        let k = clean_alias_spec(codes[i]);
        assert(ks.contains(k));
        let g = choose|g: int| 0 <= g < ks.len() && ks[g] == k;
        assert(gs[g].code@ == ks[g]);
    }
}

} // verus!
