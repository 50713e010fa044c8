//! Character-level text helpers shared by every layer: decimal rendering,
//! whitespace handling and the alias cleaner.

use vstd::prelude::*;

verus! {

/// The characters of `s`, in order.
pub(crate) fn chars_of(s: &str) -> (v: Vec<char>)
    ensures
        v@ == s@,
{
    broadcast use vstd::string::axiom_spec_iter;

    let mut v: Vec<char> = Vec::new();
    for c in it: s.chars()
        invariant
            v@ == it.seq().take(it.index() as int),
    {
        v.push(c);
    }
    v
}

/// A `String` holding exactly the characters of `v`.
#[verifier::external_body]
pub(crate) fn string_of(v: &[char]) -> (s: String)
    ensures
        s@ == v@,
{
    v.iter().collect()
}

/// The ASCII digit character for `d` (0..=9).
pub open spec fn digit_char(d: nat) -> char {
    (48 + d) as char
}

/// Decimal rendering of a natural number, most significant digit first,
/// without leading zeros (`0` renders as `"0"`).
pub open spec fn nat_decimal(n: nat) -> Seq<char>
    decreases n,
{
    if n < 10 {
        seq![digit_char(n)]
    } else {
        nat_decimal(n / 10).push(digit_char(n % 10))
    }
}

/// Decimal rendering of an integer: a leading `-` for negatives.
pub open spec fn int_decimal(i: int) -> Seq<char> {
    if i < 0 {
        seq!['-'] + nat_decimal((-i) as nat)
    } else {
        nat_decimal(i as nat)
    }
}

fn digit(d: u64) -> (c: char)
    requires
        d < 10,
    ensures
        c == digit_char(d as nat),
{
    let b: u8 = 48u8 + (d as u8);
    b as char
}

/// Appends the decimal digits of `n` to `out`.
pub fn push_decimal(out: &mut Vec<char>, n: u64)
    ensures
        final(out)@ == old(out)@ + nat_decimal(n as nat),
    decreases n,
{
    if n < 10 {
        out.push(digit(n));
        assert(nat_decimal(n as nat) == seq![digit_char(n as nat)]);
    } else {
        push_decimal(out, n / 10);
        out.push(digit(n % 10));
        assert(old(out)@ + nat_decimal(n as nat) == old(out)@ + nat_decimal((n / 10) as nat) + seq![digit_char((n % 10) as nat)]);
    }
}

/// Appends the decimal rendering of `i` (with a `-` for negatives).
pub fn push_int_decimal(out: &mut Vec<char>, i: i64)
    ensures
        final(out)@ == old(out)@ + int_decimal(i as int),
{
    if i < 0 {
        out.push('-');
        let magnitude: u64 = ((-(i + 1)) as u64) + 1;
        push_decimal(out, magnitude);
        assert(old(out)@ + int_decimal(i as int) == old(out)@ + seq!['-'] + nat_decimal(magnitude as nat));
    } else {
        push_decimal(out, i as u64);
    }
}

} // verus!

verus! {

/// Unicode `White_Space` (what `char::is_whitespace` tests).
pub open spec fn is_white_space(c: char) -> bool {
    let u = c as u32;
    ||| 0x9 <= u <= 0xd
    ||| u == 0x20
    ||| u == 0x85
    ||| u == 0xa0
    ||| u == 0x1680
    ||| 0x2000 <= u <= 0x200a
    ||| u == 0x2028
    ||| u == 0x2029
    ||| u == 0x202f
    ||| u == 0x205f
    ||| u == 0x3000
}

/// Whether `c` is Unicode white space.
pub fn is_whitespace(c: char) -> (b: bool)
    ensures
        b == is_white_space(c),
{
    let u = c as u32;
    (0x9 <= u && u <= 0xd) || u == 0x20 || u == 0x85 || u == 0xa0 || u == 0x1680 || (0x2000 <= u
        && u <= 0x200a) || u == 0x2028 || u == 0x2029 || u == 0x202f || u == 0x205f || u == 0x3000
}

/// The maximal runs of non-white-space characters of `s`, in order.
pub open spec fn words(s: Seq<char>) -> Seq<Seq<char>>
    decreases s.len(),
{
    if s.len() == 0 {
        seq![]
    } else {
        let w = words(s.drop_last());
        let c = s.last();
        if is_white_space(c) {
            w
        } else if s.len() == 1 || is_white_space(s[s.len() - 2]) {
            w.push(seq![c])
        } else {
            w.update(w.len() - 1, w.last().push(c))
        }
    }
}

/// `parts` joined with `sep` between consecutive parts.
pub open spec fn join(parts: Seq<Seq<char>>, sep: char) -> Seq<char>
    decreases parts.len(),
{
    if parts.len() == 0 {
        seq![]
    } else if parts.len() == 1 {
        parts[0]
    } else {
        join(parts.drop_last(), sep) + seq![sep] + parts.last()
    }
}

/// White space collapsed: the words of `s` separated by single spaces, with
/// no leading or trailing space (`split_whitespace` then `join(" ")`).
pub open spec fn collapse_white_space(s: Seq<char>) -> Seq<char> {
    join(words(s), ' ')
}

/// Every `,` replaced by a space.
pub open spec fn commas_to_spaces(s: Seq<char>) -> Seq<char> {
    s.map_values(|c: char| if c == ',' { ' ' } else { c })
}

/// An alias as it may stand in comma-separated search text: commas become
/// spaces, then white space is collapsed.
pub open spec fn clean_alias_spec(s: Seq<char>) -> Seq<char> {
    collapse_white_space(commas_to_spaces(s))
}

proof fn lemma_words_entries_nonempty(s: Seq<char>)
    ensures
        forall|j: int| 0 <= j < words(s).len() ==> #[trigger] words(s)[j].len() > 0,
        s.len() > 0 && !is_white_space(s.last()) ==> words(s).len() > 0,
    decreases s.len(),
{
    if s.len() > 0 {
        lemma_words_entries_nonempty(s.drop_last());
        let w = words(s.drop_last());
        if !is_white_space(s.last()) && !(s.len() == 1 || is_white_space(s[s.len() - 2])) {
            assert(s.drop_last().last() == s[s.len() - 2]);
        }
    }
}

proof fn lemma_join_empty(parts: Seq<Seq<char>>, sep: char)
    requires
        forall|j: int| 0 <= j < parts.len() ==> #[trigger] parts[j].len() > 0,
    ensures
        join(parts, sep).len() == 0 <==> parts.len() == 0,
    decreases parts.len(),
{
    if parts.len() > 1 {
        assert(parts.last() == parts[parts.len() - 1]);
    } else if parts.len() == 1 {
        assert(parts[0].len() > 0);
    }
}

proof fn lemma_join_push(parts: Seq<Seq<char>>, p: Seq<char>, sep: char)
    ensures
        join(parts.push(p), sep) == if parts.len() == 0 {
            p
        } else {
            join(parts, sep) + seq![sep] + p
        },
{
    assert(parts.push(p).drop_last() == parts);
    if parts.len() == 0 {
        assert(parts.push(p)[0] == p);
    }
}

proof fn lemma_join_extend_last(parts: Seq<Seq<char>>, c: char, sep: char)
    requires
        parts.len() > 0,
    ensures
        join(parts.update(parts.len() - 1, parts.last().push(c)), sep) == join(parts, sep).push(c),
{
    let q = parts.update(parts.len() - 1, parts.last().push(c));
    if parts.len() > 1 {
        assert(q.drop_last() == parts.drop_last());
        assert(q.last() == parts.last().push(c));
    }
}

/// White space collapsed, on characters (see [`collapse_white_space`]).
pub fn collapse_chars(s: &[char]) -> (r: Vec<char>)
    ensures
        r@ == collapse_white_space(s@),
{
    let mut out: Vec<char> = Vec::new();
    let mut in_gap = true;
    let mut i: usize = 0;
    while i < s.len()
        invariant
            i <= s@.len(),
            out@ == join(words(s@.take(i as int)), ' '),
            in_gap <==> (i == 0 || is_white_space(s@[i - 1])),
        decreases s@.len() - i,
    {
        let c = s[i];
        let ghost prefix = s@.take(i as int);
        let ghost next = s@.take(i as int + 1);
        proof {
            assert(next.drop_last() == prefix);
            assert(next.last() == c);
            lemma_words_entries_nonempty(prefix);
            lemma_join_empty(words(prefix), ' ');
            if i > 0 {
                assert(next[next.len() - 2] == s@[i - 1]);
                assert(prefix.last() == s@[i - 1]);
            }
        }
        if is_whitespace(c) {
            in_gap = true;
        } else {
            if in_gap {
                proof {
                    lemma_join_push(words(prefix), seq![c], ' ');
                }
                if out.len() > 0 {
                    out.push(' ');
                }
                out.push(c);
                proof {
                    if words(prefix).len() > 0 {
                        assert(out@ == join(words(prefix), ' ') + seq![' '] + seq![c]);
                    } else {
                        assert(out@ == seq![c]);
                    }
                }
            } else {
                proof {
                    lemma_join_extend_last(words(prefix), c, ' ');
                }
                out.push(c);
            }
            in_gap = false;
        }
        i = i + 1;
    }
    assert(s@.take(s@.len() as int) == s@);
    out
}

/// The cleaned alias of `s` on characters (see [`clean_alias_spec`]).
pub fn clean_chars(s: &[char]) -> (r: Vec<char>)
    ensures
        r@ == clean_alias_spec(s@),
{
    let mut mapped: Vec<char> = Vec::new();
    let mut i: usize = 0;
    while i < s.len()
        invariant
            i <= s@.len(),
            mapped@ == commas_to_spaces(s@.take(i as int)),
        decreases s@.len() - i,
    {
        let c = s[i];
        if c == ',' {
            mapped.push(' ');
        } else {
            mapped.push(c);
        }
        assert(commas_to_spaces(s@.take(i as int + 1)) == commas_to_spaces(s@.take(i as int)).push(
            if c == ',' { ' ' } else { c },
        ));
        i = i + 1;
    }
    assert(s@.take(s@.len() as int) == s@);
    collapse_chars(mapped.as_slice())
}

/// Strips commas (search text is comma-split downstream) and collapses
/// white space.
pub fn clean_alias(s: &str) -> (r: String)
    ensures
        r@ == clean_alias_spec(s@),
{
    let cs = chars_of(s);
    let cleaned = clean_chars(cs.as_slice());
    string_of(cleaned.as_slice())
}

} // verus!

verus! {

/// Every character of `s` is ASCII.
pub open spec fn all_ascii(s: Seq<char>) -> bool {
    forall|i: int| 0 <= i < s.len() ==> (#[trigger] s[i] as u32) < 128
}

/// `s` with the ASCII capitals `A`..`Z` lowered and every other character
/// kept.
pub open spec fn ascii_lower(s: Seq<char>) -> Seq<char> {
    s.map_values(|c: char| if 'A' <= c && c <= 'Z' {
        ((c as u32) + 32) as char
    } else {
        c
    })
}

/// The full Unicode lower-case mapping of a string (`str::to_lowercase`).
pub uninterp spec fn lowercase(s: Seq<char>) -> Seq<char>;

/// `str::to_lowercase`.  Trusted: the result is the lower-case mapping named
/// [`lowercase`] of the input's characters, which on an all-ASCII string
/// lowers `A`..`Z` and keeps every other character; nothing more is stated
/// of the Unicode case tables.
#[verifier::external_body]
pub(crate) fn to_lowercase(s: &str) -> (r: String)
    ensures
        r@ == lowercase(s@),
        all_ascii(s@) ==> r@ == ascii_lower(s@),
{
    s.to_lowercase()
}

/// Whether an alias with lower-cased form `key` is already among `kept`.
pub open spec fn has_key(kept: Seq<Seq<char>>, key: Seq<char>) -> bool {
    exists|j: int| 0 <= j < kept.len() && lowercase(#[trigger] kept[j]) == key
}

/// The aliases that survive de-duplication, in order: each part is cleaned
/// ([`clean_alias_spec`]); empty results are dropped, and so is any alias
/// whose lower-case form equals that of an earlier surviving alias.
pub open spec fn dedup_aliases(parts: Seq<Seq<char>>) -> Seq<Seq<char>>
    decreases parts.len(),
{
    if parts.len() == 0 {
        seq![]
    } else {
        let prev = dedup_aliases(parts.drop_last());
        let c = clean_alias_spec(parts.last());
        if c.len() == 0 || has_key(prev, lowercase(c)) {
            prev
        } else {
            prev.push(c)
        }
    }
}

/// Character views of a list of strings.
pub open spec fn views(parts: Seq<String>) -> Seq<Seq<char>> {
    parts.map_values(|p: String| p@)
}

/// The comma-joined surviving aliases of `parts`.
pub open spec fn dedup_join_spec(parts: Seq<Seq<char>>) -> Seq<char> {
    join(dedup_aliases(parts), ',')
}

proof fn lemma_dedup_aliases_nonempty(parts: Seq<Seq<char>>)
    ensures
        forall|j: int|
            0 <= j < dedup_aliases(parts).len() ==> #[trigger] dedup_aliases(parts)[j].len() > 0,
    decreases parts.len(),
{
    if parts.len() > 0 {
        lemma_dedup_aliases_nonempty(parts.drop_last());
        let prev = dedup_aliases(parts.drop_last());
        let c = clean_alias_spec(parts.last());
        if !(c.len() == 0 || has_key(prev, lowercase(c))) {
            assert forall|j: int| 0 <= j < prev.push(c).len() implies #[trigger] prev.push(c)[j].len()
                > 0 by {
                if j < prev.len() {
                    assert(prev.push(c)[j] == prev[j]);
                }
            }
        }
    }
}

/// `f` stands in `s` between commas (or at either end of `s`): one of the
/// comma-separated fields of `s`.
pub open spec fn is_comma_field(s: Seq<char>, f: Seq<char>) -> bool {
    exists|i: int, j: int|
        0 <= i <= j <= s.len() && #[trigger] s.subrange(i, j) == f && (i == 0 || s[i - 1] == ',') && (j
            == s.len() || s[j] == ',')
}

/// Every part of a comma join is one of its fields.
pub proof fn lemma_join_fields(parts: Seq<Seq<char>>, k: int)
    requires
        0 <= k < parts.len(),
    ensures
        is_comma_field(join(parts, ','), parts[k]),
    decreases parts.len(),
{
    let s = join(parts, ',');
    if parts.len() == 1 {
        assert(s.subrange(0, s.len() as int) =~= parts[0]);
    } else {
        let pre = join(parts.drop_last(), ',');
        assert(s == pre + seq![','] + parts.last());
        if k == parts.len() - 1 {
            let i = pre.len() + 1;
            assert(s.subrange(i as int, s.len() as int) =~= parts[k]);
            assert(s[i - 1] == ',');
        } else {
            lemma_join_fields(parts.drop_last(), k);
            assert(parts.drop_last()[k] == parts[k]);
            let (i, j) = choose|i: int, j: int|
                0 <= i <= j <= pre.len() && #[trigger] pre.subrange(i, j) == parts[k] && (i == 0 || pre[i - 1]
                    == ',') && (j == pre.len() || pre[j] == ',');
            assert(s.subrange(i, j) =~= pre.subrange(i, j));
            if i > 0 {
                assert(s[i - 1] == pre[i - 1]);
            }
            if j < pre.len() {
                assert(s[j] == pre[j]);
            } else {
                assert(s[j] == ',');
            }
        }
    }
}

/// A non-empty cleaned alias comes from a non-empty one.
pub proof fn lemma_clean_alias_nonempty(s: Seq<char>)
    ensures
        clean_alias_spec(s).len() > 0 ==> s.len() > 0,
{
    if s.len() == 0 {
        assert(commas_to_spaces(s).len() == 0);
        assert(words(commas_to_spaces(s)) == Seq::<Seq<char>>::empty());
    }
}

/// Every part that cleans to something non-empty survives de-duplication
/// as itself or as an earlier alias with the same lower-case form.
proof fn lemma_dedup_aliases_keep(parts: Seq<Seq<char>>, k: int)
    requires
        0 <= k < parts.len(),
        clean_alias_spec(parts[k]).len() > 0,
    ensures
        has_key(dedup_aliases(parts), lowercase(clean_alias_spec(parts[k]))),
    decreases parts.len(),
{
    let prev = dedup_aliases(parts.drop_last());
    let c = clean_alias_spec(parts.last());
    let cur = dedup_aliases(parts);
    if k == parts.len() - 1 {
        if !has_key(prev, lowercase(c)) {
            assert(cur == prev.push(c));
            assert(lowercase(cur[prev.len() as int]) == lowercase(c));
        }
    } else {
        assert(parts.drop_last()[k] == parts[k]);
        lemma_dedup_aliases_keep(parts.drop_last(), k);
        let key = lowercase(clean_alias_spec(parts[k]));
        let m = choose|m: int| 0 <= m < prev.len() && lowercase(#[trigger] prev[m]) == key;
        if cur != prev {
            assert(cur == prev.push(c));
            assert(cur[m] == prev[m]);
        }
    }
}

/// Every alias that cleans to something non-empty appears, cleaned, as a
/// field of the joined text, unless an earlier alias already stands there
/// with the same lower-case form.
pub proof fn lemma_dedup_join_field(parts: Seq<Seq<char>>, k: int)
    requires
        0 <= k < parts.len(),
        clean_alias_spec(parts[k]).len() > 0,
    ensures
        exists|f: Seq<char>|
            #[trigger] is_comma_field(dedup_join_spec(parts), f) && f.len() > 0 && lowercase(f) == lowercase(
                clean_alias_spec(parts[k]),
            ),
{
    lemma_dedup_aliases_nonempty(parts);
    lemma_dedup_aliases_keep(parts, k);
    let d = dedup_aliases(parts);
    let m = choose|m: int| 0 <= m < d.len() && lowercase(#[trigger] d[m]) == lowercase(clean_alias_spec(parts[k]));
    lemma_join_fields(d, m);
    assert(is_comma_field(dedup_join_spec(parts), d[m]));
}

/// No two surviving aliases share a lower-case form, and none is empty.
pub proof fn lemma_dedup_aliases_distinct(parts: Seq<Seq<char>>)
    ensures
        forall|a: int, b: int|
            0 <= a < b < dedup_aliases(parts).len() ==> lowercase(#[trigger] dedup_aliases(parts)[a])
                != lowercase(#[trigger] dedup_aliases(parts)[b]),
        forall|j: int| 0 <= j < dedup_aliases(parts).len() ==> #[trigger] dedup_aliases(parts)[j].len() > 0,
    decreases parts.len(),
{
    lemma_dedup_aliases_nonempty(parts);
    if parts.len() > 0 {
        lemma_dedup_aliases_distinct(parts.drop_last());
        let prev = dedup_aliases(parts.drop_last());
        let c = clean_alias_spec(parts.last());
        if !(c.len() == 0 || has_key(prev, lowercase(c))) {
            let cur = prev.push(c);
            assert forall|a: int, b: int| 0 <= a < b < cur.len() implies lowercase(#[trigger] cur[a])
                != lowercase(#[trigger] cur[b]) by {
                assert(cur[a] == prev[a]);
                if b < prev.len() {
                    assert(cur[b] == prev[b]);
                } else {
                    assert(cur[b] == c);
                    if lowercase(prev[a]) == lowercase(c) {
                        assert(has_key(prev, lowercase(c)));
                    }
                }
            }
        }
    }
}

/// Joins `parts` with `sep`.
pub fn join_chars(parts: &Vec<Vec<char>>, sep: char) -> (r: Vec<char>)
    ensures
        r@ == join(parts@.map_values(|p: Vec<char>| p@), sep),
{
    let ghost pv = parts@.map_values(|p: Vec<char>| p@);
    let mut out: Vec<char> = Vec::new();
    let mut i: usize = 0;
    while i < parts.len()
        invariant
            i <= parts@.len(),
            pv == parts@.map_values(|p: Vec<char>| p@),
            out@ == join(pv.take(i as int), sep),
        decreases parts@.len() - i,
    {
        proof {
            lemma_join_push(pv.take(i as int), pv[i as int], sep);
            assert(pv.take(i as int + 1) == pv.take(i as int).push(pv[i as int]));
        }
        if i > 0 {
            out.push(sep);
        }
        let p = &parts[i];
        let mut k: usize = 0;
        let ghost before = out@;
        while k < p.len()
            invariant
                k <= p@.len(),
                out@ == before + p@.take(k as int),
            decreases p@.len() - k,
        {
            out.push(p[k]);
            assert(p@.take(k as int + 1) == p@.take(k as int).push(p@[k as int]));
            k = k + 1;
        }
        assert(p@.take(p@.len() as int) == p@);
        i = i + 1;
    }
    assert(pv.take(parts@.len() as int) == pv);
    out
}

/// Name-first, case-insensitively de-duplicated, comma-joined alias list
/// (see [`dedup_aliases`]).
pub fn dedup_join(parts: &[String]) -> (r: String)
    ensures
        r@ == dedup_join_spec(views(parts@)),
{
    let ghost pv = views(parts@);
    let mut kept: Vec<Vec<char>> = Vec::new();
    let mut keys: Vec<String> = Vec::new();
    let mut i: usize = 0;
    while i < parts.len()
        invariant
            i <= parts@.len(),
            pv == views(parts@),
            kept@.map_values(|p: Vec<char>| p@) == dedup_aliases(pv.take(i as int)),
            keys@.len() == kept@.len(),
            forall|j: int| 0 <= j < keys@.len() ==> #[trigger] keys@[j]@ == lowercase(kept@[j]@),
        decreases parts@.len() - i,
    {
        let ghost kv = kept@.map_values(|p: Vec<char>| p@);
        proof {
            assert(pv.take(i as int + 1).drop_last() == pv.take(i as int));
            assert(pv.take(i as int + 1).last() == parts@[i as int]@);
        }
        let cs = chars_of(parts[i].as_str());
        let cleaned = clean_chars(cs.as_slice());
        if cleaned.len() > 0 {
            let cleaned_str = string_of(cleaned.as_slice());
            let key = to_lowercase(cleaned_str.as_str());
            let mut found = false;
            let mut j: usize = 0;
            while j < keys.len()
                invariant
                    j <= keys@.len(),
                    found <==> exists|m: int| 0 <= m < j && keys@[m]@ == key@,
                decreases keys@.len() - j,
            {
                if keys[j] == key {
                    found = true;
                }
                j = j + 1;
            }
            proof {
                if found {
                    let m = choose|m: int| 0 <= m < keys@.len() && keys@[m]@ == key@;
                    assert(kv[m] == kept@[m]@);
                    assert(lowercase(kv[m]) == key@);
                    assert(has_key(kv, lowercase(cleaned@)));
                } else {
                    assert forall|m: int| 0 <= m < kv.len() implies lowercase(#[trigger] kv[m])
                        != lowercase(cleaned@) by {
                        assert(keys@[m]@ == lowercase(kept@[m]@));
                    }
                }
            }
            if !found {
                kept.push(cleaned);
                keys.push(key);
                proof {
                    assert(kept@.map_values(|p: Vec<char>| p@) == kv.push(cleaned@));
                    assert forall|j: int| 0 <= j < keys@.len() implies #[trigger] keys@[j]@
                        == lowercase(kept@[j]@) by {
                        if j < keys@.len() - 1 {
                        }
                    }
                }
            }
        }
        i = i + 1;
    }
    assert(pv.take(parts@.len() as int) == pv);
    let joined = join_chars(&kept, ',');
    string_of(joined.as_slice())
}

/// `a`, a space, then `b` (`format!("{a} {b}")`).
pub fn join_space(a: &str, b: &str) -> (r: String)
    ensures
        r@ == a@ + seq![' '] + b@,
{
    let mut v = chars_of(a);
    v.push(' ');
    let bv = chars_of(b);
    let mut k: usize = 0;
    let ghost before = v@;
    while k < bv.len()
        invariant
            k <= bv@.len(),
            v@ == before + bv@.take(k as int),
        decreases bv@.len() - k,
    {
        v.push(bv[k]);
        assert(bv@.take(k as int + 1) == bv@.take(k as int).push(bv@[k as int]));
        k = k + 1;
    }
    assert(bv@.take(bv@.len() as int) == bv@);
    string_of(v.as_slice())
}

} // verus!

verus! {

proof fn lemma_encode_utf8_empty(s: Seq<char>)
    ensures
        vstd::utf8::encode_utf8(s).len() == 0 <==> s.len() == 0,
{
    if s.len() > 0 {
        let e = vstd::utf8::encode_scalar(s[0] as u32);
        assert(e.len() > 0);
        assert(vstd::utf8::encode_utf8(s) == e + vstd::utf8::encode_utf8(s.drop_first()));
    }
}

/// Whether `s` has no characters.
pub fn str_is_empty(s: &str) -> (b: bool)
    ensures
        b == (s@.len() == 0),
{
    proof {
        lemma_encode_utf8_empty(s@);
    }
    s.is_empty()
}

} // verus!

verus! {

/// `s` without leading white space.
pub open spec fn trim_start_spec(s: Seq<char>) -> Seq<char>
    decreases s.len(),
{
    if s.len() > 0 && is_white_space(s[0]) {
        trim_start_spec(s.drop_first())
    } else {
        s
    }
}

/// `s` without trailing white space.
pub open spec fn trim_end_spec(s: Seq<char>) -> Seq<char>
    decreases s.len(),
{
    if s.len() > 0 && is_white_space(s.last()) {
        trim_end_spec(s.drop_last())
    } else {
        s
    }
}

/// `s` without leading and trailing white space (`str::trim`).
pub open spec fn trim_spec(s: Seq<char>) -> Seq<char> {
    trim_end_spec(trim_start_spec(s))
}

proof fn lemma_trim_start_skip(s: Seq<char>, a: int)
    requires
        0 <= a <= s.len(),
        forall|j: int| 0 <= j < a ==> is_white_space(#[trigger] s[j]),
    ensures
        trim_start_spec(s) == trim_start_spec(s.skip(a)),
    decreases a,
{
    if a > 0 {
        assert(s.skip(1) == s.drop_first());
        lemma_trim_start_skip(s.drop_first(), a - 1);
        assert(s.drop_first().skip(a - 1) == s.skip(a));
    } else {
        assert(s.skip(0) == s);
    }
}

proof fn lemma_trim_end_take(s: Seq<char>, b: int)
    requires
        0 <= b <= s.len(),
        forall|j: int| b <= j < s.len() ==> is_white_space(#[trigger] s[j]),
    ensures
        trim_end_spec(s) == trim_end_spec(s.take(b)),
    decreases s.len() - b,
{
    if b < s.len() {
        assert(s.drop_last().take(b) == s.take(b));
        lemma_trim_end_take(s.drop_last(), b);
    } else {
        assert(s.take(b) == s);
    }
}

/// The characters of `s` without leading and trailing white space.
pub fn trim_chars(s: &[char]) -> (r: Vec<char>)
    ensures
        r@ == trim_spec(s@),
{
    let n = s.len();
    let mut a: usize = 0;
    while a < n && is_whitespace(s[a])
        invariant
            a <= n,
            n == s@.len(),
            forall|j: int| 0 <= j < a ==> is_white_space(#[trigger] s@[j]),
        decreases n - a,
    {
        a = a + 1;
    }
    proof {
        lemma_trim_start_skip(s@, a as int);
    }
    let ghost rest = s@.skip(a as int);
    assert(trim_start_spec(rest) == rest);
    let mut b: usize = n;
    while b > a && is_whitespace(s[b - 1])
        invariant
            a <= b <= n,
            n == s@.len(),
            forall|j: int| b <= j < n ==> is_white_space(#[trigger] s@[j]),
        decreases b,
    {
        b = b - 1;
    }
    proof {
        lemma_trim_end_take(rest, b - a);
        assert(rest.take(b - a) == s@.subrange(a as int, b as int));
        let t = rest.take(b - a);
        if t.len() > 0 {
            assert(t.last() == s@[b - 1]);
        }
    }
    let mut out: Vec<char> = Vec::new();
    let mut i: usize = a;
    while i < b
        invariant
            a <= i <= b <= n,
            n == s@.len(),
            out@ == s@.subrange(a as int, i as int),
        decreases b - i,
    {
        out.push(s[i]);
        assert(s@.subrange(a as int, i as int + 1) == s@.subrange(a as int, i as int).push(s@[i as int]));
        i = i + 1;
    }
    out
}

/// `str::trim`.
pub fn trim(s: &str) -> (r: String)
    ensures
        r@ == trim_spec(s@),
{
    let cs = chars_of(s);
    let t = trim_chars(cs.as_slice());
    string_of(t.as_slice())
}

} // verus!

verus! {

pub open spec fn is_ascii_digit(c: char) -> bool {
    '0' <= c <= '9'
}

/// Value of a string of ASCII digits, most significant first.
pub open spec fn decimal_value(s: Seq<char>) -> nat
    decreases s.len(),
{
    if s.len() == 0 {
        0
    } else {
        decimal_value(s.drop_last()) * 10 + ((s.last() as u32) - 48) as nat
    }
}

pub open spec fn all_ascii_digits(s: Seq<char>) -> bool {
    forall|i: int| 0 <= i < s.len() ==> is_ascii_digit(#[trigger] s[i])
}

/// `str::parse` for an unsigned integer type whose largest value is `max`:
/// an optional leading `+`, then one or more ASCII digits, with a value of
/// at most `max`; anything else is an error (`None`).
pub open spec fn parse_unsigned(s: Seq<char>, max: nat) -> Option<nat> {
    let digits = if s.len() > 0 && s[0] == '+' {
        s.drop_first()
    } else {
        s
    };
    if digits.len() > 0 && all_ascii_digits(digits) && decimal_value(digits) <= max {
        Some(decimal_value(digits))
    } else {
        None
    }
}

proof fn lemma_decimal_value_grows(s: Seq<char>, i: int)
    requires
        0 <= i <= s.len(),
        all_ascii_digits(s),
    ensures
        decimal_value(s.take(i)) <= decimal_value(s),
    decreases s.len() - i,
{
    if i < s.len() {
        assert(all_ascii_digits(s.drop_last()));
        assert(s.drop_last().take(i) == s.take(i));
        lemma_decimal_value_grows(s.drop_last(), i);
    } else {
        assert(s.take(i) == s);
    }
}

/// Parses `s` as an unsigned integer of at most `max` (see
/// [`parse_unsigned`]).
pub fn parse_unsigned_chars(s: &[char], max: u64) -> (r: Option<u64>)
    ensures
        match r {
            Some(v) => parse_unsigned(s@, max as nat) == Some(v as nat),
            None => parse_unsigned(s@, max as nat) is None,
        },
{
    let start: usize = if s.len() > 0 && s[0] == '+' {
        1
    } else {
        0
    };
    let ghost digits = if s@.len() > 0 && s@[0] == '+' {
        s@.drop_first()
    } else {
        s@
    };
    assert(digits == s@.skip(start as int));
    if start == s.len() {
        return None;
    }
    let mut v: u64 = 0;
    let mut i: usize = start;
    while i < s.len()
        invariant
            start <= i <= s@.len(),
            digits == s@.skip(start as int),
            digits == (if s@.len() > 0 && s@[0] == '+' {
                s@.drop_first()
            } else {
                s@
            }),
            digits.len() > 0,
            all_ascii_digits(digits.take(i - start)),
            v as nat == decimal_value(digits.take(i - start)),
            v <= max,
        decreases s@.len() - i,
    {
        let c = s[i];
        let ghost pre = digits.take(i - start);
        let ghost next = digits.take(i - start + 1);
        proof {
            assert(next.drop_last() == pre);
            assert(next.last() == c);
            assert(digits[i - start] == c);
        }
        if !('0' <= c && c <= '9') {
            assert(!is_ascii_digit(digits[i - start]));
            return None;
        }
        let d: u64 = (c as u32 - 48) as u64;
        assert(decimal_value(next) == v * 10 + d);
        if d > max || v > (max - d) / 10 {
            proof {
                assert(decimal_value(next) > max) by (nonlinear_arith)
                    requires
                        decimal_value(next) == v * 10 + d,
                        d > max || v > (max - d) / 10,
                        d <= 9,
                ;
                if all_ascii_digits(digits) {
                    lemma_decimal_value_grows(digits, i - start + 1);
                }
            }
            return None;
        }
        proof {
            assert(v * 10 + d <= max) by (nonlinear_arith)
                requires
                    v <= (max - d) / 10,
                    d <= max,
            ;
            assert(all_ascii_digits(next)) by {
                assert forall|j: int| 0 <= j < next.len() implies is_ascii_digit(#[trigger] next[j]) by {
                    if j < pre.len() {
                        assert(next[j] == pre[j]);
                    }
                }
            }
        }
        v = v * 10 + d;
        i = i + 1;
    }
    assert(digits.take(s@.len() - start) == digits);
    Some(v)
}

} // verus!

verus! {

/// Appends the characters of `w` to `v`.
pub fn append_chars(v: &mut Vec<char>, w: &Vec<char>)
    ensures
        final(v)@ == old(v)@ + w@,
{
    let mut k: usize = 0;
    let ghost before = v@;
    while k < w.len()
        invariant
            k <= w@.len(),
            v@ == before + w@.take(k as int),
        decreases w@.len() - k,
    {
        v.push(w[k]);
        assert(w@.take(k as int + 1) == w@.take(k as int).push(w@[k as int]));
        k = k + 1;
    }
    assert(w@.take(w@.len() as int) == w@);
}

/// `a` followed by `b`.
pub fn concat(a: &str, b: &str) -> (r: String)
    ensures
        r@ == a@ + b@,
{
    let mut v = chars_of(a);
    let bv = chars_of(b);
    append_chars(&mut v, &bv);
    string_of(v.as_slice())
}

} // verus!

verus! {

/// A non-empty run of characters without white space.
spec fn plain_word(w: Seq<char>) -> bool {
    w.len() > 0 && forall|i: int| 0 <= i < w.len() ==> !is_white_space(#[trigger] w[i])
}

proof fn lemma_words_plain(s: Seq<char>, bad: char)
    requires
        forall|i: int| 0 <= i < s.len() ==> #[trigger] s[i] != bad,
    ensures
        forall|j: int| 0 <= j < words(s).len() ==> plain_word(#[trigger] words(s)[j]),
        forall|j: int, k: int|
            0 <= j < words(s).len() && 0 <= k < words(s)[j].len() ==> #[trigger] words(s)[j][k] != bad,
    decreases s.len(),
{
    if s.len() > 0 {
        let pre = s.drop_last();
        assert forall|i: int| 0 <= i < pre.len() implies #[trigger] pre[i] != bad by {
            assert(pre[i] == s[i]);
        }
        lemma_words_plain(pre, bad);
        lemma_words_entries_nonempty(pre);
        let w = words(pre);
        let c = s.last();
        let cur = words(s);
        assert(c == s[s.len() - 1]);
        if is_white_space(c) {
        } else if s.len() == 1 || is_white_space(s[s.len() - 2]) {
            assert forall|j: int| 0 <= j < cur.len() implies plain_word(#[trigger] cur[j]) by {
                if j < w.len() {
                    assert(cur[j] == w[j]);
                }
            }
            assert forall|j: int, k: int| 0 <= j < cur.len() && 0 <= k < cur[j].len() implies #[trigger] cur[j][k]
                != bad by {
                if j < w.len() {
                    assert(cur[j] == w[j]);
                }
            }
        } else {
            assert(pre.last() == s[s.len() - 2]);
            assert(w.len() > 0);
            let lw = w.last().push(c);
            assert forall|j: int| 0 <= j < cur.len() implies plain_word(#[trigger] cur[j]) by {
                if j < w.len() - 1 {
                    assert(cur[j] == w[j]);
                } else {
                    assert(cur[j] == lw);
                    assert(plain_word(w[w.len() - 1]));
                    assert forall|i: int| 0 <= i < lw.len() implies !is_white_space(#[trigger] lw[i]) by {
                        if i < lw.len() - 1 {
                            assert(lw[i] == w[w.len() - 1][i]);
                        }
                    }
                }
            }
            assert forall|j: int, k: int| 0 <= j < cur.len() && 0 <= k < cur[j].len() implies #[trigger] cur[j][k]
                != bad by {
                if j < w.len() - 1 {
                    assert(cur[j] == w[j]);
                } else {
                    assert(cur[j] == lw);
                    if k < lw.len() - 1 {
                        assert(lw[k] == w[w.len() - 1][k]);
                    }
                }
            }
        }
    }
}

proof fn lemma_words_of_plain(p: Seq<char>)
    requires
        plain_word(p),
    ensures
        words(p) == seq![p],
    decreases p.len(),
{
    if p.len() > 1 {
        let pre = p.drop_last();
        assert forall|i: int| 0 <= i < pre.len() implies !is_white_space(#[trigger] pre[i]) by {
            assert(pre[i] == p[i]);
        }
        lemma_words_of_plain(pre);
        assert(!is_white_space(p[p.len() - 1]));
        assert(!is_white_space(p[p.len() - 2]));
        assert(pre.push(p.last()) =~= p);
        assert(p.drop_last() == pre);
        assert(p.last() == p[p.len() - 1]);
        let w = words(pre);
        assert(w.len() == 1 && w.last() == pre);
        assert(words(p) == w.update(w.len() - 1, w.last().push(p.last())));
        assert(seq![pre].update(0, pre.push(p.last())) =~= seq![p]);
    } else {
        assert(!is_white_space(p[0]));
        assert(p.drop_last().len() == 0);
        assert(words(p.drop_last()) == Seq::<Seq<char>>::empty());
        assert(p.last() == p[0]);
        assert(seq![p.last()] =~= p);
        assert(words(p) == Seq::<Seq<char>>::empty().push(seq![p.last()]));
        assert(Seq::<Seq<char>>::empty().push(p) =~= seq![p]);
    }
}

proof fn lemma_words_after_space(a: Seq<char>, p: Seq<char>)
    requires
        plain_word(p),
    ensures
        words(a + seq![' '] + p) == words(a).push(p),
    decreases p.len(),
{
    let s = a + seq![' '] + p;
    let head = a + seq![' '];
    assert(is_white_space(' '));
    assert(head.drop_last() == a);
    assert(words(head) == words(a));
    if p.len() == 1 {
        assert(s.drop_last() == head);
        assert(s.last() == p[0]);
        assert(!is_white_space(p[0]));
        assert(s[s.len() - 2] == ' ');
        assert(seq![p[0]] == p);
    } else {
        let q = p.drop_last();
        assert forall|i: int| 0 <= i < q.len() implies !is_white_space(#[trigger] q[i]) by {
            assert(q[i] == p[i]);
        }
        lemma_words_after_space(a, q);
        assert(s.drop_last() == a + seq![' '] + q);
        assert(s.last() == p[p.len() - 1]);
        assert(!is_white_space(p[p.len() - 1]));
        assert(s[s.len() - 2] == p[p.len() - 2]);
        assert(!is_white_space(p[p.len() - 2]));
        assert(q.push(p.last()) =~= p);
        assert(words(a).push(q).update(words(a).len() as int, q.push(p.last())) =~= words(a).push(p));
    }
}

proof fn lemma_words_of_join(ws: Seq<Seq<char>>)
    requires
        forall|j: int| 0 <= j < ws.len() ==> plain_word(#[trigger] ws[j]),
    ensures
        words(join(ws, ' ')) == ws,
    decreases ws.len(),
{
    if ws.len() == 1 {
        lemma_words_of_plain(ws[0]);
        assert(seq![ws[0]] == ws);
    } else if ws.len() > 1 {
        let pre = ws.drop_last();
        assert forall|j: int| 0 <= j < pre.len() implies plain_word(#[trigger] pre[j]) by {
            assert(pre[j] == ws[j]);
        }
        lemma_words_of_join(pre);
        assert(plain_word(ws[ws.len() - 1]));
        lemma_words_after_space(join(pre, ' '), ws.last());
        assert(pre.push(ws.last()) == ws);
    }
}

proof fn lemma_join_avoids(ws: Seq<Seq<char>>, sep: char, bad: char)
    requires
        sep != bad,
        forall|j: int, k: int| 0 <= j < ws.len() && 0 <= k < ws[j].len() ==> #[trigger] ws[j][k] != bad,
    ensures
        forall|i: int| 0 <= i < join(ws, sep).len() ==> #[trigger] join(ws, sep)[i] != bad,
    decreases ws.len(),
{
    if ws.len() == 1 {
        assert forall|i: int| 0 <= i < join(ws, sep).len() implies #[trigger] join(ws, sep)[i] != bad by {
            assert(join(ws, sep)[i] == ws[0][i]);
        }
    } else if ws.len() > 1 {
        let pre = ws.drop_last();
        assert forall|j: int, k: int| 0 <= j < pre.len() && 0 <= k < pre[j].len() implies #[trigger] pre[j][k]
            != bad by {
            assert(pre[j] == ws[j]);
        }
        lemma_join_avoids(pre, sep, bad);
        let jp = join(pre, sep);
        let l = ws.last();
        let t = join(ws, sep);
        assert(t == jp + seq![sep] + l);
        assert forall|i: int| 0 <= i < t.len() implies #[trigger] t[i] != bad by {
            if i < jp.len() {
                assert(t[i] == jp[i]);
            } else if i == jp.len() {
                assert(t[i] == sep);
            } else {
                assert(t[i] == l[i - jp.len() - 1]);
                assert(ws[ws.len() - 1] == l);
            }
        }
    }
}

/// Cleaning an alias twice gives what cleaning it once gives: a cleaned
/// alias has no commas and its words are already separated by single
/// spaces.
pub proof fn lemma_clean_alias_idempotent(s: Seq<char>)
    ensures
        clean_alias_spec(clean_alias_spec(s)) == clean_alias_spec(s),
{
    let x = commas_to_spaces(s);
    assert forall|i: int| 0 <= i < x.len() implies #[trigger] x[i] != ',' by {}
    lemma_words_plain(x, ',');
    let ws = words(x);
    let t = join(ws, ' ');
    lemma_join_avoids(ws, ' ', ',');
    assert(commas_to_spaces(t) =~= t);
    lemma_words_of_join(ws);
}

} // verus!
