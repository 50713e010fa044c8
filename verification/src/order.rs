//! Lexicographic string order and a stable sort by string key.
//!
//! Strings compare character by character by Unicode scalar value, a proper
//! prefix first; for UTF-8 this is the same order as comparing the bytes,
//! which is how `String`'s `Ord` compares.

use vstd::prelude::*;

verus! {

/// `a` sorts strictly before `b`.
pub open spec fn lex_lt(a: Seq<char>, b: Seq<char>) -> bool
    decreases a.len(),
{
    if b.len() == 0 {
        false
    } else if a.len() == 0 {
        true
    } else if (a[0] as u32) < (b[0] as u32) {
        true
    } else if a[0] == b[0] {
        lex_lt(a.drop_first(), b.drop_first())
    } else {
        false
    }
}

/// Whether `a` sorts strictly before `b`.
pub fn str_lt(a: &[char], b: &[char]) -> (r: bool)
    ensures
        r == lex_lt(a@, b@),
{
    let mut i: usize = 0;
    assert(a@.skip(0) == a@ && b@.skip(0) == b@);
    while i < a.len() && i < b.len() && a[i] == b[i]
        invariant
            i <= a@.len(),
            i <= b@.len(),
            lex_lt(a@, b@) == lex_lt(a@.skip(i as int), b@.skip(i as int)),
        decreases a@.len() - i,
    {
        proof {
            let sa = a@.skip(i as int);
            let sb = b@.skip(i as int);
            assert(sa.drop_first() == a@.skip(i as int + 1));
            assert(sb.drop_first() == b@.skip(i as int + 1));
            assert(sa[0] == a@[i as int] && sb[0] == b@[i as int]);
        }
        i = i + 1;
    }
    let ghost sa = a@.skip(i as int);
    let ghost sb = b@.skip(i as int);
    if i == b.len() {
        assert(sb.len() == 0);
        false
    } else if i == a.len() {
        assert(sa.len() == 0);
        true
    } else {
        assert(sa[0] == a@[i as int] && sb[0] == b@[i as int]);
        (a[i] as u32) < (b[i] as u32)
    }
}

/// Position at which a stable insertion puts key `k` into `keys`: before
/// the first key that sorts strictly after `k`.
pub open spec fn insert_pos(keys: Seq<Seq<char>>, k: Seq<char>) -> int
    decreases keys.len(),
{
    if keys.len() == 0 {
        0
    } else if lex_lt(k, keys[0]) {
        0
    } else {
        1 + insert_pos(keys.drop_first(), k)
    }
}

/// Keys of keyed items.
pub open spec fn keys_of<T>(s: Seq<(Seq<char>, T)>) -> Seq<Seq<char>> {
    s.map_values(|p: (Seq<char>, T)| p.0)
}

/// Stable sort by key (insertion sort): equal keys keep their input order.
pub open spec fn sort_by_key<T>(s: Seq<(Seq<char>, T)>) -> Seq<(Seq<char>, T)>
    decreases s.len(),
{
    if s.len() == 0 {
        seq![]
    } else {
        let sorted = sort_by_key(s.drop_last());
        sorted.insert(insert_pos(keys_of(sorted), s.last().0), s.last())
    }
}

/// Sorting only reorders: every item of the sorted sequence is an item of
/// the input.
pub proof fn lemma_sort_by_key_items<T>(s: Seq<(Seq<char>, T)>)
    ensures
        sort_by_key(s).len() == s.len(),
        forall|j: int| 0 <= j < s.len() ==> s.contains(#[trigger] sort_by_key(s)[j]),
    decreases s.len(),
{
    if s.len() > 0 {
        let pre = s.drop_last();
        lemma_sort_by_key_items(pre);
        let sorted = sort_by_key(pre);
        lemma_insert_pos_bound(keys_of(sorted), s.last().0);
        let p = insert_pos(keys_of(sorted), s.last().0);
        let out = sort_by_key(s);
        assert(out == sorted.insert(p, s.last()));
        assert forall|j: int| 0 <= j < s.len() implies s.contains(#[trigger] out[j]) by {
            if j < p {
                assert(out[j] == sorted[j]);
                let k = choose|k: int| 0 <= k < pre.len() && pre[k] == sorted[j];
                assert(s[k] == pre[k]);
            } else if j == p {
                assert(s[s.len() - 1] == s.last());
            } else {
                assert(out[j] == sorted[j - 1]);
                let k = choose|k: int| 0 <= k < pre.len() && pre[k] == sorted[j - 1];
                assert(s[k] == pre[k]);
            }
        }
    }
}

/// Views of key/value string pairs.
pub open spec fn pairs_view(v: Seq<(String, String)>) -> Seq<(Seq<char>, Seq<char>)> {
    v.map_values(|p: (String, String)| (p.0@, p.1@))
}

proof fn lemma_insert_pos_bound(keys: Seq<Seq<char>>, k: Seq<char>)
    ensures
        0 <= insert_pos(keys, k) <= keys.len(),
    decreases keys.len(),
{
    if keys.len() > 0 {
        lemma_insert_pos_bound(keys.drop_first(), k);
    }
}

proof fn lemma_insert_pos_scan(keys: Seq<Seq<char>>, k: Seq<char>, p: int)
    requires
        0 <= p <= keys.len(),
        forall|j: int| 0 <= j < p ==> !lex_lt(k, #[trigger] keys[j]),
        p == keys.len() || lex_lt(k, keys[p]),
    ensures
        insert_pos(keys, k) == p,
    decreases p,
{
    if p > 0 {
        assert(!lex_lt(k, keys[0]));
        let rest = keys.drop_first();
        assert forall|j: int| 0 <= j < p - 1 implies !lex_lt(k, #[trigger] rest[j]) by {
            assert(rest[j] == keys[j + 1]);
        }
        if p < keys.len() {
            assert(rest[p - 1] == keys[p]);
        }
        lemma_insert_pos_scan(rest, k, p - 1);
    }
}

/// Stably sorts key/value string pairs by key (see [`sort_by_key`]).
pub fn sort_pairs_by_key(v: Vec<(String, String)>) -> (r: Vec<(String, String)>)
    ensures
        pairs_view(r@) == sort_by_key(pairs_view(v@)),
{
    let ghost input = pairs_view(v@);
    let mut out: Vec<(String, String)> = Vec::new();
    let mut keys: Vec<Vec<char>> = Vec::new();
    let mut i: usize = 0;
    let n = v.len();
    let mut rest = v;
    assert(input.take(0) =~= Seq::<(Seq<char>, Seq<char>)>::empty());
    // Take the pairs from the front, in order.
    let mut items: Vec<(String, String)> = Vec::new();
    while rest.len() > 0
        invariant
            pairs_view(items@) + pairs_view(rest@) == input,
        decreases rest@.len(),
    {
        let ghost before_items = pairs_view(items@);
        let ghost before_rest = pairs_view(rest@);
        let p = rest.remove(0);
        items.push(p);
        assert(pairs_view(items@) == before_items.push((p.0@, p.1@)));
        assert(pairs_view(rest@) == before_rest.drop_first());
        assert(before_items.push((p.0@, p.1@)) + before_rest.drop_first() == before_items + before_rest);
    }
    assert(pairs_view(items@) == input);
    while i < items.len()
        invariant
            i <= items@.len(),
            pairs_view(items@) == input,
            pairs_view(out@) == sort_by_key(input.take(i as int)),
            keys@.len() == out@.len(),
            forall|j: int| 0 <= j < keys@.len() ==> (#[trigger] keys@[j])@ == out@[j].0@,
        decreases items@.len() - i,
    {
        let key = crate::text::chars_of(items[i].0.as_str());
        let mut p: usize = 0;
        let ghost kv = keys_of(pairs_view(out@));
        assert(kv.len() == keys@.len());
        while p < keys.len() && !str_lt(key.as_slice(), keys[p].as_slice())
            invariant
                p <= keys@.len(),
                kv == keys_of(pairs_view(out@)),
                kv.len() == keys@.len(),
                forall|j: int| 0 <= j < keys@.len() ==> (#[trigger] keys@[j])@ == out@[j].0@,
                forall|j: int| 0 <= j < p ==> !lex_lt(key@, #[trigger] kv[j]),
            decreases keys@.len() - p,
        {
            assert(kv[p as int] == keys@[p as int]@);
            p = p + 1;
        }
        proof {
            if p < keys@.len() {
                assert(kv[p as int] == keys@[p as int]@);
            }
            lemma_insert_pos_scan(kv, key@, p as int);
            assert(input.take(i as int + 1).drop_last() == input.take(i as int));
            assert(input.take(i as int + 1).last() == input[i as int]);
            assert(input[i as int] == (items@[i as int].0@, items@[i as int].1@));
        }
        let item = (items[i].0.clone(), items[i].1.clone());
        let ghost before_out = pairs_view(out@);
        let ghost before_keys = keys@;
        out.insert(p, item);
        keys.insert(p, key);
        proof {
            assert(pairs_view(out@) == before_out.insert(p as int, input[i as int]));
            assert forall|j: int| 0 <= j < keys@.len() implies (#[trigger] keys@[j])@ == out@[j].0@ by {
                if j < p {
                    assert(keys@[j] == before_keys[j]);
                } else if j > p {
                    assert(keys@[j] == before_keys[j - 1]);
                }
            }
        }
        i = i + 1;
    }
    assert(input.take(items@.len() as int) == input);
    out
}

} // verus!

verus! {

/// Views of keyed indices.
pub open spec fn keyed_view(v: Seq<(Vec<char>, usize)>) -> Seq<(Seq<char>, usize)> {
    v.map_values(|p: (Vec<char>, usize)| (p.0@, p.1))
}

/// Stably sorts keyed indices by key (see [`sort_by_key`]).
pub fn sort_indices_by_key(items: Vec<(Vec<char>, usize)>) -> (r: Vec<(Vec<char>, usize)>)
    ensures
        keyed_view(r@) == sort_by_key(keyed_view(items@)),
{
    let ghost input = keyed_view(items@);
    let mut out: Vec<(Vec<char>, usize)> = Vec::new();
    let mut rest = items;
    let mut taken: Vec<(Vec<char>, usize)> = Vec::new();
    while rest.len() > 0
        invariant
            keyed_view(taken@) + keyed_view(rest@) == input,
        decreases rest@.len(),
    {
        let ghost before_taken = keyed_view(taken@);
        let ghost before_rest = keyed_view(rest@);
        let p = rest.remove(0);
        taken.push(p);
        assert(keyed_view(taken@) == before_taken.push((p.0@, p.1)));
        assert(keyed_view(rest@) == before_rest.drop_first());
        assert(before_taken.push((p.0@, p.1)) + before_rest.drop_first() == before_taken + before_rest);
    }
    assert(keyed_view(taken@) == input);
    let mut i: usize = 0;
    while i < taken.len()
        invariant
            i <= taken@.len(),
            keyed_view(taken@) == input,
            keyed_view(out@) == sort_by_key(input.take(i as int)),
        decreases taken@.len() - i,
    {
        let key = &taken[i].0;
        let mut p: usize = 0;
        let ghost kv = keys_of(keyed_view(out@));
        while p < out.len() && !str_lt(key.as_slice(), out[p].0.as_slice())
            invariant
                p <= out@.len(),
                kv == keys_of(keyed_view(out@)),
                kv.len() == out@.len(),
                forall|j: int| 0 <= j < p ==> !lex_lt(key@, #[trigger] kv[j]),
            decreases out@.len() - p,
        {
            assert(kv[p as int] == out@[p as int].0@);
            p = p + 1;
        }
        proof {
            if p < out@.len() {
                assert(kv[p as int] == out@[p as int].0@);
            }
            lemma_insert_pos_scan(kv, key@, p as int);
            assert(input.take(i as int + 1).drop_last() == input.take(i as int));
            assert(input.take(i as int + 1).last() == input[i as int]);
            assert(input[i as int] == (taken@[i as int].0@, taken@[i as int].1));
        }
        let item = (copy_chars(&taken[i].0), taken[i].1);
        let ghost before_out = keyed_view(out@);
        out.insert(p, item);
        proof {
            assert(keyed_view(out@) == before_out.insert(p as int, input[i as int]));
        }
        i = i + 1;
    }
    assert(input.take(taken@.len() as int) == input);
    out
}

fn copy_chars(v: &Vec<char>) -> (r: Vec<char>)
    ensures
        r@ == v@,
{
    let mut r: Vec<char> = Vec::new();
    let mut i: usize = 0;
    while i < v.len()
        invariant
            i <= v@.len(),
            r@ == v@.take(i as int),
        decreases v@.len() - i,
    {
        r.push(v[i]);
        assert(v@.take(i as int + 1) == v@.take(i as int).push(v@[i as int]));
        i = i + 1;
    }
    assert(v@.take(v@.len() as int) == v@);
    r
}

} // verus!
