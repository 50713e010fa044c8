//! Stable feature ids: a 56-bit BLAKE2b digest of an OSM source id string.

use vstd::prelude::*;
use crate::text::{string_of, push_int_decimal, int_decimal};
use blake2::digest::{Update, VariableOutput};
use blake2::Blake2bVar;

verus! {

/// The 7-byte BLAKE2b digest (unkeyed, no salt or personalisation, output
/// size 7) of `data`.
pub uninterp spec fn blake2b56_digest(data: Seq<u8>) -> Seq<u8>;

/// `blake2::Blake2bVar` with output size 7: `new(7)`, `update(data)`,
/// `finalize_variable` into a 7-byte buffer.  Trusted: the result is the
/// digest named `blake2b56_digest` of the input bytes, and has 7 bytes (the
/// output size the hasher was created with).  `new(7)` cannot fail (7 is
/// within 1..=64) and the buffer has exactly the output size, so neither
/// `expect` fires.
#[verifier::external_body]
fn blake2b56(data: &[u8]) -> (digest: Vec<u8>)
    ensures
        digest@ == blake2b56_digest(data@),
        digest@.len() == 7,
{
    let mut h = Blake2bVar::new(7).expect("7-byte blake2b");
    h.update(data);
    let mut out = [0u8; 7];
    h.finalize_variable(&mut out).expect("finalize");
    out.to_vec()
}

/// Big-endian value of a byte string.
pub open spec fn be_value(bytes: Seq<u8>) -> nat
    decreases bytes.len(),
{
    if bytes.len() == 0 {
        0
    } else {
        be_value(bytes.drop_last()) * 256 + bytes.last() as nat
    }
}

proof fn lemma_be_value_bound(bytes: Seq<u8>)
    ensures
        be_value(bytes) < vstd::arithmetic::power2::pow2(8 * bytes.len()),
    decreases bytes.len(),
{
    vstd::arithmetic::power2::lemma2_to64();
    if bytes.len() > 0 {
        lemma_be_value_bound(bytes.drop_last());
        let n = bytes.len();
        vstd::arithmetic::power2::lemma_pow2_adds((8 * (n - 1)) as nat, 8);
        assert((8 * (n - 1)) as nat + 8 == 8 * n);
        let p = vstd::arithmetic::power2::pow2((8 * (n - 1)) as nat);
        assert(bytes.drop_last().len() == n - 1);
        assert(be_value(bytes.drop_last()) < p);
        assert(be_value(bytes) < p * 256) by (nonlinear_arith)
            requires
                be_value(bytes) == be_value(bytes.drop_last()) * 256 + bytes.last() as nat,
                be_value(bytes.drop_last()) < p,
                bytes.last() < 256,
        ;
    }
}

/// The feature id of an OSM source id string: the big-endian value of its
/// 7-byte BLAKE2b digest of the UTF-8 bytes.
pub open spec fn hid_spec(s: Seq<char>) -> nat {
    be_value(blake2b56_digest(vstd::utf8::encode_utf8(s)))
}

/// Folds a 7-byte digest into its big-endian integer value.
pub fn hid_from_digest(digest: &[u8]) -> (v: u64)
    requires
        digest@.len() == 7,
    ensures
        v as nat == be_value(digest@),
        v < 0x100_0000_0000_0000,
{
    let mut v: u64 = 0;
    let mut i: usize = 0;
    proof {
        vstd::arithmetic::power2::lemma2_to64();
        vstd::arithmetic::power2::lemma2_to64_rest();
    }
    while i < 7
        invariant
            i <= 7,
            digest@.len() == 7,
            v as nat == be_value(digest@.take(i as int)),
        decreases 7 - i,
    {
        proof {
            lemma_be_value_bound(digest@.take(i as int));
            vstd::arithmetic::power2::lemma2_to64();
            vstd::arithmetic::power2::lemma2_to64_rest();
            if i < 6 {
                vstd::arithmetic::power2::lemma_pow2_strictly_increases((8 * i) as nat, 48);
            }
            assert(v < 0x1_0000_0000_0000);
            lemma_be_value_bound(digest@.take(i as int + 1));
            assert(digest@.take(i as int + 1).drop_last() == digest@.take(i as int));
        }
        v = v * 256 + digest[i] as u64;
        i = i + 1;
    }
    assert(digest@.take(7) == digest@);
    proof {
        lemma_be_value_bound(digest@);
    }
    v
}

/// Stable 56-bit feature id of `s` (see [`hid_spec`]).
pub fn hid(s: &str) -> (v: u64)
    ensures
        v as nat == hid_spec(s@),
        v < 0x100_0000_0000_0000,
{
    let digest = blake2b56(s.as_bytes());
    hid_from_digest(digest.as_slice())
}

/// OSM source id string: the kind letter followed by the decimal id,
/// e.g. `n123`.
pub fn osm_sid(kind: char, id: i64) -> (s: String)
    ensures
        s@ == seq![kind] + int_decimal(id as int),
{
    let mut out: Vec<char> = Vec::new();
    out.push(kind);
    push_int_decimal(&mut out, id);
    string_of(out.as_slice())
}

} // verus!
