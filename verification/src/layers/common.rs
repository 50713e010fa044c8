//! Helpers shared across layers.

use vstd::prelude::*;
use crate::text::chars_of;

verus! {

/// `name:<lang>` with `lang` two or three lower-case ASCII letters
/// (`name:en`, `name:fil`).  Script or variant suffixes (`name:zh-Hans`),
/// `name:etymology*`, `name:pronunciation` and `name:left`/`name:right`
/// therefore never qualify, and neither does `int_name`.
pub open spec fn is_intl_name_key_spec(key: Seq<char>) -> bool {
    &&& key.len() >= 5
    &&& key.take(5) == seq!['n', 'a', 'm', 'e', ':']
    &&& 2 <= key.len() - 5 <= 3
    &&& forall|i: int| 5 <= i < key.len() ==> 'a' <= #[trigger] key[i] <= 'z'
}

/// Does `key` look like an OSM multilingual name tag (`name:<lang>`) worth
/// surfacing as a cross-language search alias?
pub fn is_intl_name_key(key: &str) -> (b: bool)
    ensures
        b == is_intl_name_key_spec(key@),
{
    let k = chars_of(key);
    if k.len() < 7 || k.len() > 8 {
        return false;
    }
    if !(k[0] == 'n' && k[1] == 'a' && k[2] == 'm' && k[3] == 'e' && k[4] == ':') {
        assert(k@.take(5)[0] == k@[0] && k@.take(5)[1] == k@[1] && k@.take(5)[2] == k@[2]
            && k@.take(5)[3] == k@[3] && k@.take(5)[4] == k@[4]);
        return false;
    }
    assert(k@.take(5) =~= seq!['n', 'a', 'm', 'e', ':']);
    let mut i: usize = 5;
    while i < k.len()
        invariant
            5 <= i <= k@.len(),
            k@ == key@,
            k@.take(5) =~= seq!['n', 'a', 'm', 'e', ':'],
            7 <= k@.len() <= 8,
            forall|j: int| 5 <= j < i ==> 'a' <= #[trigger] k@[j] <= 'z',
        decreases k@.len() - i,
    {
        let c = k[i];
        if !('a' <= c && c <= 'z') {
            assert(!('a' <= k@[i as int] <= 'z'));
            assert(!is_intl_name_key_spec(key@));
            return false;
        }
        i = i + 1;
    }
    true
}

} // verus!
