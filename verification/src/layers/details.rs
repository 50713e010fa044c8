//! Details records: the contact and address fields of a POI.
//!
//! A record is planned for an object only when it passes the same POI gate
//! as the POI layer (so every record id names a POI feature) and carries at
//! least one detail field: opening hours, a phone, a website, an e-mail, a
//! social link or an address.  The name travels along for display but does
//! not count as a detail.

use vstd::prelude::*;
use crate::layers::poi::{nonempty_tag, str_views};
use crate::taxonomy::{TagMap, has_nonempty, is_poi, is_poi_spec, opt_str_view, tag_or_empty};
use crate::text::{append_chars, chars_of, collapse_chars, collapse_white_space, string_of};

verus! {

/// The value of the first key of `keys` present with a non-empty value.
pub open spec fn first_nonempty(tags: Map<Seq<char>, Seq<char>>, keys: Seq<Seq<char>>) -> Option<Seq<char>>
    decreases keys.len(),
{
    if keys.len() == 0 {
        None
    } else if has_nonempty(tags, keys[0]) {
        Some(tags[keys[0]])
    } else {
        first_nonempty(tags, keys.drop_first())
    }
}

proof fn lemma_first_nonempty_is_nonempty(tags: Map<Seq<char>, Seq<char>>, keys: Seq<Seq<char>>)
    ensures
        first_nonempty(tags, keys) matches Some(v) ==> v.len() > 0,
    decreases keys.len(),
{
    if keys.len() > 0 && !has_nonempty(tags, keys[0]) {
        lemma_first_nonempty_is_nonempty(tags, keys.drop_first());
    }
}

/// The first non-empty tag among `keys`, in order.
pub fn first_tag<'a>(tags: &'a TagMap, keys: &[&str]) -> (r: Option<&'a str>)
    ensures
        opt_str_view(r) == first_nonempty(tags@, str_views(keys@)),
{
    let ghost kv = str_views(keys@);
    let mut i: usize = 0;
    assert(kv.skip(0) == kv);
    while i < keys.len()
        invariant
            i <= keys@.len(),
            kv == str_views(keys@),
            first_nonempty(tags@, kv) == first_nonempty(tags@, kv.skip(i as int)),
        decreases keys@.len() - i,
    {
        proof {
            let rest = kv.skip(i as int);
            assert(rest[0] == keys@[i as int]@);
            assert(rest.drop_first() == kv.skip(i as int + 1));
        }
        match tags.get(keys[i]) {
            Some(v) => {
                if !crate::text::str_is_empty(v.as_str()) {
                    return Some(v.as_str());
                }
            },
            None => {},
        }
        i = i + 1;
    }
    None
}

/// `phone` then `contact:phone`, the non-empty ones, without repeating a
/// number.
pub open spec fn phones_spec(tags: Map<Seq<char>, Seq<char>>) -> Seq<Seq<char>> {
    let first = match nonempty_tag(tags, "phone"@) {
        Some(p) => seq![p],
        None => Seq::empty(),
    };
    match nonempty_tag(tags, "contact:phone"@) {
        Some(q) => if first.contains(q) {
            first
        } else {
            first.push(q)
        },
        None => first,
    }
}

/// The phone numbers of `tags` (see [`phones_spec`]).
pub fn phones_from_tags(tags: &TagMap) -> (r: Vec<String>)
    ensures
        crate::text::views(r@) == phones_spec(tags@),
{
    let mut out: Vec<String> = Vec::new();
    match tags.get("phone") {
        Some(v) => {
            if !crate::text::str_is_empty(v.as_str()) {
                out.push(v.clone());
            }
        },
        None => {},
    }
    let ghost first = crate::text::views(out@);
    assert(first == match nonempty_tag(tags@, "phone"@) {
        Some(p) => seq![p],
        None => Seq::<Seq<char>>::empty(),
    });
    match tags.get("contact:phone") {
        Some(v) => {
            if !crate::text::str_is_empty(v.as_str()) {
                let dup = out.len() > 0 && crate::taxonomy::str_eq(out[0].as_str(), v.as_str());
                if !dup {
                    assert(!first.contains(v@)) by {
                        if first.len() > 0 {
                            assert(first[0] != v@);
                        }
                    }
                    out.push(v.clone());
                    assert(crate::text::views(out@) == first.push(v@));
                } else {
                    assert(first[0] == v@);
                }
            }
        },
        None => {},
    }
    out
}

/// One social entry: `(label, value)` when `tag` is present and non-empty.
pub open spec fn social_entry(tags: Map<Seq<char>, Seq<char>>, tag: Seq<char>, label: Seq<char>) -> Seq<
    (Seq<char>, Seq<char>),
> {
    if has_nonempty(tags, tag) {
        seq![(label, tags[tag])]
    } else {
        Seq::empty()
    }
}

/// The social links of `tags`: Instagram, Facebook and Twitter, in that
/// order, the non-empty ones.
pub open spec fn socials_spec(tags: Map<Seq<char>, Seq<char>>) -> Seq<(Seq<char>, Seq<char>)> {
    social_entry(tags, "contact:instagram"@, "instagram"@) + social_entry(
        tags,
        "contact:facebook"@,
        "facebook"@,
    ) + social_entry(tags, "contact:twitter"@, "twitter"@)
}

/// The social links are the non-empty `contact:instagram`,
/// `contact:facebook` and `contact:twitter` values, labelled `instagram`,
/// `facebook` and `twitter`: each such value is there under its label, and
/// nothing else is.
pub proof fn lemma_socials_labels(tags: Map<Seq<char>, Seq<char>>)
    ensures
        has_nonempty(tags, "contact:instagram"@) ==> socials_spec(tags).contains(
            ("instagram"@, tags["contact:instagram"@]),
        ),
        has_nonempty(tags, "contact:facebook"@) ==> socials_spec(tags).contains(
            ("facebook"@, tags["contact:facebook"@]),
        ),
        has_nonempty(tags, "contact:twitter"@) ==> socials_spec(tags).contains(
            ("twitter"@, tags["contact:twitter"@]),
        ),
        forall|k: int|
            0 <= k < socials_spec(tags).len() ==> {
                ||| (has_nonempty(tags, "contact:instagram"@) && #[trigger] socials_spec(tags)[k] == (
                    "instagram"@,
                    tags["contact:instagram"@],
                ))
                ||| (has_nonempty(tags, "contact:facebook"@) && socials_spec(tags)[k] == (
                    "facebook"@,
                    tags["contact:facebook"@],
                ))
                ||| (has_nonempty(tags, "contact:twitter"@) && socials_spec(tags)[k] == (
                    "twitter"@,
                    tags["contact:twitter"@],
                ))
            },
{
    let a = social_entry(tags, "contact:instagram"@, "instagram"@);
    let b = social_entry(tags, "contact:facebook"@, "facebook"@);
    let c = social_entry(tags, "contact:twitter"@, "twitter"@);
    let all = socials_spec(tags);
    assert(all == a + b + c);
    if has_nonempty(tags, "contact:instagram"@) {
        assert(all[0] == ("instagram"@, tags["contact:instagram"@]));
    }
    if has_nonempty(tags, "contact:facebook"@) {
        assert(all[a.len() as int] == ("facebook"@, tags["contact:facebook"@]));
    }
    if has_nonempty(tags, "contact:twitter"@) {
        assert(all[(a.len() + b.len()) as int] == ("twitter"@, tags["contact:twitter"@]));
    }
    assert forall|k: int| 0 <= k < all.len() implies {
        ||| (has_nonempty(tags, "contact:instagram"@) && #[trigger] all[k] == (
            "instagram"@,
            tags["contact:instagram"@],
        ))
        ||| (has_nonempty(tags, "contact:facebook"@) && all[k] == ("facebook"@, tags["contact:facebook"@]))
        ||| (has_nonempty(tags, "contact:twitter"@) && all[k] == ("twitter"@, tags["contact:twitter"@]))
    } by {
        if k < a.len() {
            assert(all[k] == a[k]);
        } else if k < a.len() + b.len() {
            assert(all[k] == b[k - a.len()]);
        } else {
            assert(all[k] == c[k - a.len() - b.len()]);
        }
    }
}

fn push_social(out: &mut Vec<(String, String)>, tags: &TagMap, tag: &str, label: &str)
    ensures
        crate::order::pairs_view(final(out)@) == crate::order::pairs_view(old(out)@) + social_entry(
            tags@,
            tag@,
            label@,
        ),
{
    let ghost before = crate::order::pairs_view(out@);
    match tags.get(tag) {
        Some(v) => {
            if !crate::text::str_is_empty(v.as_str()) {
                out.push((label.to_owned(), v.clone()));
                assert(crate::order::pairs_view(out@) == before.push((label@, v@)));
            } else {
                assert(before + Seq::<(Seq<char>, Seq<char>)>::empty() == before);
            }
        },
        None => {
            assert(before + Seq::<(Seq<char>, Seq<char>)>::empty() == before);
        },
    }
}

/// The social links of `tags` as `(label, value)` pairs (see
/// [`socials_spec`]).
pub fn socials_from_tags(tags: &TagMap) -> (r: Vec<(String, String)>)
    ensures
        crate::order::pairs_view(r@) == socials_spec(tags@),
{
    let mut out: Vec<(String, String)> = Vec::new();
    push_social(&mut out, tags, "contact:instagram", "instagram");
    push_social(&mut out, tags, "contact:facebook", "facebook");
    push_social(&mut out, tags, "contact:twitter", "twitter");
    out
}

/// A character stripped from both ends of an assembled address.
pub open spec fn is_separator(c: char) -> bool {
    c == ' ' || c == ','
}

/// `s` without leading separators.
pub open spec fn strip_start_seps(s: Seq<char>) -> Seq<char>
    decreases s.len(),
{
    if s.len() > 0 && is_separator(s[0]) {
        strip_start_seps(s.drop_first())
    } else {
        s
    }
}

/// `s` without trailing separators.
pub open spec fn strip_end_seps(s: Seq<char>) -> Seq<char>
    decreases s.len(),
{
    if s.len() > 0 && is_separator(s.last()) {
        strip_end_seps(s.drop_last())
    } else {
        s
    }
}

/// `s` without leading and trailing spaces and commas.
pub open spec fn strip_seps(s: Seq<char>) -> Seq<char> {
    strip_end_seps(strip_start_seps(s))
}

proof fn lemma_strip_start_skip(s: Seq<char>, a: int)
    requires
        0 <= a <= s.len(),
        forall|j: int| 0 <= j < a ==> is_separator(#[trigger] s[j]),
    ensures
        strip_start_seps(s) == strip_start_seps(s.skip(a)),
    decreases a,
{
    if a > 0 {
        assert(s.skip(1) == s.drop_first());
        lemma_strip_start_skip(s.drop_first(), a - 1);
        assert(s.drop_first().skip(a - 1) == s.skip(a));
    } else {
        assert(s.skip(0) == s);
    }
}

proof fn lemma_strip_end_take(s: Seq<char>, b: int)
    requires
        0 <= b <= s.len(),
        forall|j: int| b <= j < s.len() ==> is_separator(#[trigger] s[j]),
    ensures
        strip_end_seps(s) == strip_end_seps(s.take(b)),
    decreases s.len() - b,
{
    if b < s.len() {
        assert(s.drop_last().take(b) == s.take(b));
        lemma_strip_end_take(s.drop_last(), b);
    } else {
        assert(s.take(b) == s);
    }
}

/// The characters of `s` without leading and trailing separators.
fn strip_seps_chars(s: &[char]) -> (r: Vec<char>)
    ensures
        r@ == strip_seps(s@),
{
    let n = s.len();
    let mut a: usize = 0;
    while a < n && (s[a] == ' ' || s[a] == ',')
        invariant
            a <= n,
            n == s@.len(),
            forall|j: int| 0 <= j < a ==> is_separator(#[trigger] s@[j]),
        decreases n - a,
    {
        a = a + 1;
    }
    proof {
        lemma_strip_start_skip(s@, a as int);
    }
    let ghost rest = s@.skip(a as int);
    assert(strip_start_seps(rest) == rest);
    let mut b: usize = n;
    while b > a && (s[b - 1] == ' ' || s[b - 1] == ',')
        invariant
            a <= b <= n,
            n == s@.len(),
            forall|j: int| b <= j < n ==> is_separator(#[trigger] s@[j]),
        decreases b,
    {
        b = b - 1;
    }
    proof {
        lemma_strip_end_take(rest, b - a);
        assert(rest.take(b - a) == s@.subrange(a as int, b as int));
        let t = rest.take(b - a);
        if t.len() > 0 {
            assert(t.last() == s@[b - 1]);
        }
    }
    let mut out: Vec<char> = Vec::new();
    let mut i: usize = a;
    while i < b
        invariant
            a <= i <= b <= n,
            n == s@.len(),
            out@ == s@.subrange(a as int, i as int),
        decreases b - i,
    {
        out.push(s[i]);
        assert(s@.subrange(a as int, i as int + 1) == s@.subrange(a as int, i as int).push(s@[i as int]));
        i = i + 1;
    }
    out
}

/// What `char::is_alphanumeric` returns for a character.
pub uninterp spec fn alphanumeric(c: char) -> bool;

/// `char::is_alphanumeric`: alphabetic or numeric in Unicode's sense; on
/// ASCII that is exactly the letters and the digits.
#[verifier::external_body]
fn is_alphanumeric(c: char) -> (b: bool)
    ensures
        b == alphanumeric(c),
        (c as u32) < 128 ==> (b <==> (('0' <= c && c <= '9') || ('a' <= c && c <= 'z') || ('A' <= c
            && c <= 'Z'))),
{
    c.is_alphanumeric()
}

/// The city of an address: `addr:city` when non-empty, else the given
/// locality, else empty.
pub open spec fn address_city(tags: Map<Seq<char>, Seq<char>>, locality: Option<Seq<char>>) -> Seq<char> {
    if has_nonempty(tags, "addr:city"@) {
        tags["addr:city"@]
    } else {
        match locality {
            Some(l) => l,
            None => Seq::empty(),
        }
    }
}

/// `"{housenumber} {street}, {city} {postcode}, {country}"` from the
/// `addr:*` tags (absent tags read as empty).
pub open spec fn address_raw(tags: Map<Seq<char>, Seq<char>>, locality: Option<Seq<char>>) -> Seq<char> {
    tag_or_empty(tags, "addr:housenumber"@) + seq![' '] + tag_or_empty(tags, "addr:street"@) + ", "@
        + address_city(tags, locality) + seq![' '] + tag_or_empty(tags, "addr:postcode"@) + ", "@
        + tag_or_empty(tags, "addr:country"@)
}

/// The assembled address: white space collapsed, spaces and commas stripped
/// from both ends, and empty unless some character is alphanumeric.
pub open spec fn address_spec(tags: Map<Seq<char>, Seq<char>>, locality: Option<Seq<char>>) -> Seq<char> {
    let t = strip_seps(collapse_white_space(address_raw(tags, locality)));
    if exists|j: int| 0 <= j < t.len() && alphanumeric(#[trigger] t[j]) {
        t
    } else {
        Seq::empty()
    }
}

/// The assembled address before the alphanumeric check.
pub open spec fn address_trimmed(tags: Map<Seq<char>, Seq<char>>, locality: Option<Seq<char>>) -> Seq<char> {
    strip_seps(collapse_white_space(address_raw(tags, locality)))
}

/// An ASCII letter or digit.
pub open spec fn ascii_alnum(c: char) -> bool {
    ('0' <= c && c <= '9') || ('a' <= c && c <= 'z') || ('A' <= c && c <= 'Z')
}

/// On an all-ASCII assembled address: kept when some character is an ASCII
/// letter or digit, else empty.
pub open spec fn ascii_address(t: Seq<char>) -> Seq<char> {
    if exists|j: int| 0 <= j < t.len() && ascii_alnum(#[trigger] t[j]) {
        t
    } else {
        Seq::empty()
    }
}

fn tag_chars(tags: &TagMap, key: &str) -> (r: Vec<char>)
    ensures
        r@ == tag_or_empty(tags@, key@),
{
    match tags.get(key) {
        Some(v) => chars_of(v.as_str()),
        None => Vec::new(),
    }
}

/// The address of `tags` (see [`address_spec`]); `locality` stands in for
/// a missing `addr:city`.
pub fn address_from_tags(tags: &TagMap, locality: Option<&str>) -> (r: String)
    ensures
        r@ == address_spec(tags@, opt_str_view(locality)),
        crate::text::all_ascii(address_trimmed(tags@, opt_str_view(locality))) ==> r@ == ascii_address(
            address_trimmed(tags@, opt_str_view(locality)),
        ),
{
    let hn = tag_chars(tags, "addr:housenumber");
    let street = tag_chars(tags, "addr:street");
    let city: Vec<char> = match tags.get("addr:city") {
        Some(c) => if !crate::text::str_is_empty(c.as_str()) {
            chars_of(c.as_str())
        } else {
            match locality {
                Some(l) => chars_of(l),
                None => Vec::new(),
            }
        },
        None => match locality {
            Some(l) => chars_of(l),
            None => Vec::new(),
        },
    };
    assert(city@ == address_city(tags@, opt_str_view(locality)));
    let postcode = tag_chars(tags, "addr:postcode");
    let country = tag_chars(tags, "addr:country");
    let comma = chars_of(", ");
    let mut raw: Vec<char> = Vec::new();
    append_chars(&mut raw, &hn);
    raw.push(' ');
    append_chars(&mut raw, &street);
    append_chars(&mut raw, &comma);
    append_chars(&mut raw, &city);
    raw.push(' ');
    append_chars(&mut raw, &postcode);
    append_chars(&mut raw, &comma);
    append_chars(&mut raw, &country);
    assert(raw@ == address_raw(tags@, opt_str_view(locality)));
    let collapsed = collapse_chars(raw.as_slice());
    let t = strip_seps_chars(collapsed.as_slice());
    let mut j: usize = 0;
    while j < t.len()
        invariant
            j <= t@.len(),
            t@ == strip_seps(collapse_white_space(address_raw(tags@, opt_str_view(locality)))),
            forall|q: int| 0 <= q < j ==> !alphanumeric(#[trigger] t@[q]),
            forall|q: int| 0 <= q < j && (t@[q] as u32) < 128 ==> !ascii_alnum(#[trigger] t@[q]),
        decreases t@.len() - j,
    {
        if is_alphanumeric(t[j]) {
            assert(alphanumeric(t@[j as int]));
            proof {
                if crate::text::all_ascii(t@) {
                    assert((t@[j as int] as u32) < 128);
                    assert(ascii_alnum(t@[j as int]));
                }
            }
            return string_of(t.as_slice());
        }
        j = j + 1;
    }
    String::new()
}

/// The website keys, in order of preference.
pub open spec fn website_keys() -> Seq<Seq<char>> {
    seq!["website"@, "contact:website"@]
}

/// The e-mail keys, in order of preference.
pub open spec fn email_keys() -> Seq<Seq<char>> {
    seq!["email"@, "contact:email"@]
}

/// The string of an optional value, empty when absent.
pub open spec fn or_empty(o: Option<Seq<char>>) -> Seq<char> {
    match o {
        Some(s) => s,
        None => Seq::empty(),
    }
}

/// At least one detail field is non-empty (the name does not count).
pub open spec fn has_detail(tags: Map<Seq<char>, Seq<char>>) -> bool {
    ||| tag_or_empty(tags, "opening_hours"@).len() > 0
    ||| phones_spec(tags).len() > 0
    ||| first_nonempty(tags, website_keys()) is Some
    ||| first_nonempty(tags, email_keys()) is Some
    ||| socials_spec(tags).len() > 0
    ||| address_spec(tags, None).len() > 0
}

/// The detail fields by tag: the website is `website`, else
/// `contact:website`; the e-mail is `email`, else `contact:email`; the
/// phones hold `phone` and `contact:phone`; and any non-empty
/// `opening_hours`, phone, website, e-mail or social link tag makes the
/// object carry a detail.
pub proof fn lemma_detail_tags(tags: Map<Seq<char>, Seq<char>>)
    ensures
        has_nonempty(tags, "website"@) ==> first_nonempty(tags, website_keys()) == Some(tags["website"@]),
        !has_nonempty(tags, "website"@) && has_nonempty(tags, "contact:website"@) ==> first_nonempty(
            tags,
            website_keys(),
        ) == Some(tags["contact:website"@]),
        !has_nonempty(tags, "website"@) && !has_nonempty(tags, "contact:website"@) ==> first_nonempty(
            tags,
            website_keys(),
        ) is None,
        has_nonempty(tags, "email"@) ==> first_nonempty(tags, email_keys()) == Some(tags["email"@]),
        !has_nonempty(tags, "email"@) && has_nonempty(tags, "contact:email"@) ==> first_nonempty(
            tags,
            email_keys(),
        ) == Some(tags["contact:email"@]),
        !has_nonempty(tags, "email"@) && !has_nonempty(tags, "contact:email"@) ==> first_nonempty(
            tags,
            email_keys(),
        ) is None,
        has_nonempty(tags, "phone"@) ==> phones_spec(tags).contains(tags["phone"@]),
        has_nonempty(tags, "contact:phone"@) ==> phones_spec(tags).contains(tags["contact:phone"@]),
        has_nonempty(tags, "opening_hours"@) || has_nonempty(tags, "phone"@) || has_nonempty(
            tags,
            "contact:phone"@,
        ) || has_nonempty(tags, "website"@) || has_nonempty(tags, "contact:website"@) || has_nonempty(
            tags,
            "email"@,
        ) || has_nonempty(tags, "contact:email"@) || has_nonempty(tags, "contact:instagram"@)
            || has_nonempty(tags, "contact:facebook"@) || has_nonempty(tags, "contact:twitter"@) ==> has_detail(
            tags,
        ),
{
    reveal_with_fuel(first_nonempty, 3);
    let wk = website_keys();
    assert(wk[0] == "website"@ && wk[1] == "contact:website"@);
    assert(wk.drop_first() =~= seq!["contact:website"@]);
    assert(wk.drop_first().drop_first() =~= Seq::<Seq<char>>::empty());
    let ek = email_keys();
    assert(ek[0] == "email"@ && ek[1] == "contact:email"@);
    assert(ek.drop_first() =~= seq!["contact:email"@]);
    assert(ek.drop_first().drop_first() =~= Seq::<Seq<char>>::empty());
    let ph = phones_spec(tags);
    if has_nonempty(tags, "phone"@) {
        assert(ph[0] == tags["phone"@]);
    }
    if has_nonempty(tags, "contact:phone"@) {
        let first = match nonempty_tag(tags, "phone"@) {
            Some(p) => seq![p],
            None => Seq::<Seq<char>>::empty(),
        };
        if !first.contains(tags["contact:phone"@]) {
            assert(ph[first.len() as int] == tags["contact:phone"@]);
        }
    }
    lemma_socials_labels(tags);
    if has_nonempty(tags, "contact:phone"@) {
        assert(ph.len() > 0);
    }
    if has_nonempty(tags, "contact:instagram"@) || has_nonempty(tags, "contact:facebook"@) || has_nonempty(
        tags,
        "contact:twitter"@,
    ) {
        assert(socials_spec(tags).len() > 0);
    }
}

/// One details record.  A string field that is empty is not written.
pub struct DetailsRecord {
    pub id: u64,
    pub name: String,
    pub hours: String,
    pub phones: Vec<String>,
    pub website: String,
    pub email: String,
    /// `(label, link)` pairs.
    pub socials: Vec<(String, String)>,
    pub address: String,
}

/// The record of the object `kind`/`id` with tags `tags`: its id is the
/// POI feature id of the same object.
pub open spec fn details_record_ok(kind: char, id: i64, tags: Map<Seq<char>, Seq<char>>, d: DetailsRecord) -> bool {
    &&& d.id as nat == crate::ids::hid_spec(seq![kind] + crate::text::int_decimal(id as int))
    &&& d.name@ == tag_or_empty(tags, "name"@)
    &&& d.hours@ == tag_or_empty(tags, "opening_hours"@)
    &&& crate::text::views(d.phones@) == phones_spec(tags)
    &&& d.website@ == or_empty(first_nonempty(tags, website_keys()))
    &&& d.email@ == or_empty(first_nonempty(tags, email_keys()))
    &&& crate::order::pairs_view(d.socials@) == socials_spec(tags)
    &&& d.address@ == address_spec(tags, None)
}

fn str_or_empty(o: Option<&str>) -> (r: String)
    ensures
        r@ == or_empty(opt_str_view(o)),
{
    match o {
        Some(s) => s.to_owned(),
        None => String::new(),
    }
}

/// The details record of a POI that carries at least one detail field;
/// `None` for any other object.
pub fn details_record(kind: char, id: i64, tags: &TagMap) -> (r: Option<DetailsRecord>)
    ensures
        r is Some <==> is_poi_spec(tags@) && has_detail(tags@),
        r matches Some(d) ==> details_record_ok(kind, id, tags@, d),
{
    if !is_poi(tags) {
        return None;
    }
    let name: String = match tags.get("name") {
        Some(v) => v.clone(),
        None => String::new(),
    };
    let hours: String = match tags.get("opening_hours") {
        Some(v) => v.clone(),
        None => String::new(),
    };
    let phones = phones_from_tags(tags);
    let website_opts = ["website", "contact:website"];
    assert(str_views(website_opts@) == website_keys());
    let website = str_or_empty(first_tag(tags, &website_opts));
    let email_opts = ["email", "contact:email"];
    assert(str_views(email_opts@) == email_keys());
    let email = str_or_empty(first_tag(tags, &email_opts));
    let socials = socials_from_tags(tags);
    let address = address_from_tags(tags, None);
    let any_detail = !crate::text::str_is_empty(hours.as_str()) || phones.len() > 0
        || !crate::text::str_is_empty(website.as_str()) || !crate::text::str_is_empty(email.as_str())
        || socials.len() > 0 || !crate::text::str_is_empty(address.as_str());
    proof {
        assert(crate::text::views(phones@).len() == phones@.len());
        assert(crate::order::pairs_view(socials@).len() == socials@.len());
        lemma_first_nonempty_is_nonempty(tags@, website_keys());
        lemma_first_nonempty_is_nonempty(tags@, email_keys());
    }
    if !any_detail {
        return None;
    }
    let sid = crate::ids::osm_sid(kind, id);
    let hid = crate::ids::hid(sid.as_str());
    Some(DetailsRecord { id: hid, name, hours, phones, website, email, socials, address })
}

/// A details record names a POI feature: when the POI layer is planned
/// over candidates that include this object (same kind, id and tags) and
/// the object yields a POI feature, that feature's id is the record's id.
pub proof fn lemma_details_id_is_poi_id(
    cands: Seq<crate::layers::poi::PoiCandidate>,
    fs: Seq<crate::layers::poi::PoiFeature>,
    i: int,
    d: DetailsRecord,
)
    requires
        crate::layers::poi::poi_plan_ok(cands, fs),
        0 <= i < cands.len(),
        crate::layers::poi::poi_text_spec(cands[i]).len() > 0,
        details_record_ok(cands[i].kind, cands[i].id, cands[i].tags@, d),
    ensures
        exists|k: int| 0 <= k < fs.len() && fs[k].index == i && #[trigger] fs[k].id == d.id,
{
    let q = |j: int| crate::layers::poi::poi_text_spec(cands[j]).len() > 0;
    crate::layers::place::lemma_kept_indices_contains(q, cands.len() as int, i);
    let kept = crate::layers::place::kept_indices(q, cands.len() as int);
    let k = choose|k: int| 0 <= k < kept.len() && kept[k] == i;
    assert(crate::layers::poi::poi_feature_ok(
        cands[kept[k]],
        crate::layers::poi::branch_count_spec(cands, cands[kept[k]]),
        kept[k],
        fs[k],
    ));
    assert(fs[k].id == d.id);
}

/// Whether candidate `c` yields a details record in the planned set: it
/// yields a POI feature (non-empty POI text) and has a details record.
pub open spec fn details_kept(c: crate::layers::poi::PoiCandidate) -> bool {
    crate::layers::poi::poi_text_spec(c).len() > 0 && is_poi_spec(c.tags@) && has_detail(c.tags@)
}

/// The details records planned over the POI layer's candidates (objects
/// whose location resolved): one per candidate that yields a POI feature
/// and carries a detail field, in candidate order.
pub open spec fn details_plan_ok(cands: Seq<crate::layers::poi::PoiCandidate>, ds: Seq<DetailsRecord>) -> bool {
    let kept = crate::layers::place::kept_indices(|i: int| details_kept(cands[i]), cands.len() as int);
    &&& ds.len() == kept.len()
    &&& forall|k: int|
        0 <= k < ds.len() ==> details_record_ok(
            cands[kept[k]].kind,
            cands[kept[k]].id,
            cands[kept[k]].tags@,
            #[trigger] ds[k],
        )
}

/// Some feature of `fs` has id `id`.
pub open spec fn has_feature_id(fs: Seq<crate::layers::poi::PoiFeature>, id: u64) -> bool {
    exists|j: int| 0 <= j < fs.len() && fs[j].id == id
}

proof fn lemma_plan_ids(
    cands: Seq<crate::layers::poi::PoiCandidate>,
    ds: Seq<DetailsRecord>,
    fs: Seq<crate::layers::poi::PoiFeature>,
)
    requires
        details_plan_ok(cands, ds),
        crate::layers::poi::poi_plan_ok(cands, fs),
    ensures
        forall|k: int|
            #![trigger ds[k]]
            0 <= k < ds.len() ==> has_feature_id(fs, ds[k].id),
{
    let q = |i: int| details_kept(cands[i]);
    let kept = crate::layers::place::kept_indices(q, cands.len() as int);
    crate::layers::place::lemma_kept_indices_range(q, cands.len() as int);
    assert forall|k: int| #![trigger ds[k]] 0 <= k < ds.len() implies has_feature_id(fs, ds[k].id) by {
        let i0 = kept[k];
        assert(q(i0));
        assert(details_record_ok(cands[i0].kind, cands[i0].id, cands[i0].tags@, ds[k]));
        lemma_details_id_is_poi_id(cands, fs, i0, ds[k]);
        let j = choose|j: int| 0 <= j < fs.len() && fs[j].index == i0 && #[trigger] fs[j].id == ds[k].id;
        assert(0 <= j < fs.len() && fs[j].id == ds[k].id);
        assert(has_feature_id(fs, ds[k].id));
    }
}

/// Plans the details records over the POI candidates (see
/// [`details_plan_ok`]).  Every planned record's id is the id of a POI
/// feature planned over the same candidates.
pub fn extract(cands: &[crate::layers::poi::PoiCandidate]) -> (ds: Vec<DetailsRecord>)
    ensures
        details_plan_ok(cands@, ds@),
        forall|fs: Seq<crate::layers::poi::PoiFeature>|
            #[trigger] crate::layers::poi::poi_plan_ok(cands@, fs) ==> forall|k: int|
                #![trigger ds@[k]]
                0 <= k < ds@.len() ==> has_feature_id(fs, ds@[k].id),
{
    let ghost q = |i: int| details_kept(cands@[i]);
    let mut ds: Vec<DetailsRecord> = Vec::new();
    let mut i: usize = 0;
    while i < cands.len()
        invariant
            i <= cands@.len(),
            q == (|i: int| details_kept(cands@[i])),
            ds@.len() == crate::layers::place::kept_indices(q, i as int).len(),
            forall|k: int|
                0 <= k < ds@.len() ==> details_record_ok(
                    cands@[crate::layers::place::kept_indices(q, i as int)[k]].kind,
                    cands@[crate::layers::place::kept_indices(q, i as int)[k]].id,
                    cands@[crate::layers::place::kept_indices(q, i as int)[k]].tags@,
                    #[trigger] ds@[k],
                ),
        decreases cands@.len() - i,
    {
        let c = &cands[i];
        let ghost before = ds@;
        let mut pushed = false;
        let text = crate::layers::poi::poi_text(c);
        if !crate::text::str_is_empty(text.as_str()) {
            match details_record(c.kind, c.id, &c.tags) {
                Some(d) => {
                    ds.push(d);
                    pushed = true;
                },
                None => {},
            }
        }
        proof {
            assert(pushed == q(i as int));
            let kn = crate::layers::place::kept_indices(q, i as int + 1);
            let ko = crate::layers::place::kept_indices(q, i as int);
            if pushed {
                assert(kn == ko.push(i as int));
                assert forall|k: int| 0 <= k < ds@.len() implies details_record_ok(
                    cands@[kn[k]].kind,
                    cands@[kn[k]].id,
                    cands@[kn[k]].tags@,
                    #[trigger] ds@[k],
                ) by {
                    if k < before.len() {
                        assert(ds@[k] == before[k]);
                        assert(kn[k] == ko[k]);
                    }
                }
            } else {
                assert(kn == ko);
            }
        }
        i = i + 1;
    }
    proof {
        assert(details_plan_ok(cands@, ds@));
        assert forall|fs: Seq<crate::layers::poi::PoiFeature>|
            #[trigger] crate::layers::poi::poi_plan_ok(cands@, fs) implies forall|k: int|
                #![trigger ds@[k]]
                0 <= k < ds@.len() ==> has_feature_id(fs, ds@[k].id) by {
            lemma_plan_ids(cands@, ds@, fs);
        }
    }
    ds
}

} // verus!
