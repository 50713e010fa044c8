//! Exact integer evaluation of `round(c · log10(x))` for the score curves.
//!
//! `round(c · log10(x)) = k` exactly when `10^(2k−1) ≤ x^(2c) < 10^(2k+1)`,
//! i.e. when `x^(2c)` has `2k` or `2k+1` decimal digits.  So the rounded
//! value is half the decimal length of `x^(2c)`, which is computed here with
//! a small decimal big-number, without floating point.

use vstd::prelude::*;

verus! {

/// `b` to the power `e`.
pub open spec fn power(b: nat, e: nat) -> nat
    decreases e,
{
    if e == 0 {
        1
    } else {
        b * power(b, (e - 1) as nat)
    }
}

/// Number of decimal digits of `v` (`0` has one digit).
pub open spec fn decimal_len(v: nat) -> nat
    decreases v,
{
    if v < 10 {
        1
    } else {
        1 + decimal_len(v / 10)
    }
}

/// `round((m / 2) · log10(x))` for `x ≥ 1`: half the decimal length of
/// `x^m` (see the module documentation and [`lemma_half_steps_bracket`]).
pub open spec fn half_steps(x: nat, m: nat) -> nat {
    decimal_len(power(x, m)) / 2
}

/// Value of little-endian decimal digits.
pub open spec fn digits_value(d: Seq<u8>) -> nat
    decreases d.len(),
{
    if d.len() == 0 {
        0
    } else {
        digits_value(d.drop_last()) + d.last() as nat * power(10, (d.len() - 1) as nat)
    }
}

pub open spec fn all_digits(d: Seq<u8>) -> bool {
    forall|i: int| 0 <= i < d.len() ==> #[trigger] d[i] < 10
}

proof fn lemma_power_pos(b: nat, e: nat)
    requires
        b >= 1,
    ensures
        power(b, e) >= 1,
    decreases e,
{
    if e > 0 {
        lemma_power_pos(b, (e - 1) as nat);
        assert(b * power(b, (e - 1) as nat) >= 1) by (nonlinear_arith)
            requires
                b >= 1,
                power(b, (e - 1) as nat) >= 1,
        ;
    }
}

proof fn lemma_power_mono(b: nat, e1: nat, e2: nat)
    requires
        b >= 1,
        e1 <= e2,
    ensures
        power(b, e1) <= power(b, e2),
    decreases e2,
{
    if e1 < e2 {
        lemma_power_mono(b, e1, (e2 - 1) as nat);
        lemma_power_pos(b, (e2 - 1) as nat);
        assert(b * power(b, (e2 - 1) as nat) >= power(b, (e2 - 1) as nat)) by (nonlinear_arith)
            requires
                b >= 1,
                power(b, (e2 - 1) as nat) >= 1,
        ;
    }
}

proof fn lemma_digits_value_bound(d: Seq<u8>)
    requires
        all_digits(d),
    ensures
        digits_value(d) < power(10, d.len()),
    decreases d.len(),
{
    if d.len() > 0 {
        let p = power(10, (d.len() - 1) as nat);
        assert(all_digits(d.drop_last()));
        lemma_digits_value_bound(d.drop_last());
        assert(d.last() < 10);
        assert(digits_value(d.drop_last()) + d.last() as nat * p < 10 * p) by (nonlinear_arith)
            requires
                digits_value(d.drop_last()) < p,
                d.last() < 10,
        ;
    }
}

proof fn lemma_decimal_len_of(v: nat, n: nat)
    requires
        n >= 1,
        power(10, (n - 1) as nat) <= v < power(10, n),
    ensures
        decimal_len(v) == n,
    decreases n,
{
    if n == 1 {
        assert(power(10, 0) == 1);
        assert(power(10, 1) == 10);
    } else {
        let p = power(10, (n - 2) as nat);
        assert(power(10, (n - 1) as nat) == 10 * p);
        assert(power(10, n) == 10 * (10 * p));
        lemma_power_pos(10, (n - 2) as nat);
        assert(v >= 10);
        assert(p <= v / 10 < 10 * p) by (nonlinear_arith)
            requires
                10 * p <= v < 10 * (10 * p),
                p >= 1,
        ;
        lemma_decimal_len_of(v / 10, (n - 1) as nat);
    }
}

/// The decimal length of the value of normalised digits is their count.
proof fn lemma_decimal_len_digits(d: Seq<u8>)
    requires
        all_digits(d),
        d.len() >= 1,
        d.last() != 0,
    ensures
        decimal_len(digits_value(d)) == d.len(),
{
    lemma_digits_value_bound(d);
    let p = power(10, (d.len() - 1) as nat);
    assert(d.last() as nat * p >= p) by (nonlinear_arith)
        requires
            d.last() as nat >= 1,
    ;
    lemma_decimal_len_of(digits_value(d), d.len());
}

/// The bracket that makes [`half_steps`] a rounding: with `k` the result,
/// `10^(2k−1) ≤ x^m < 10^(2k+1)`, i.e. `k − ½ ≤ (m/2)·log10(x) < k + ½`.
pub proof fn lemma_half_steps_bracket(x: nat, m: nat)
    requires
        x >= 1,
    ensures
        half_steps(x, m) >= 1 ==> power(10, (2 * half_steps(x, m) - 1) as nat) <= power(x, m),
        power(x, m) < power(10, 2 * half_steps(x, m) + 1),
{
    let v = power(x, m);
    lemma_power_pos(x, m);
    lemma_decimal_len_bracket(v);
    let d = decimal_len(v);
    let k = d / 2;
    if k >= 1 {
        lemma_power_mono(10, (2 * k - 1) as nat, (d - 1) as nat);
    }
    lemma_power_mono(10, d, 2 * k + 1);
}

proof fn lemma_decimal_len_bracket(v: nat)
    ensures
        decimal_len(v) >= 1,
        v >= 1 ==> power(10, (decimal_len(v) - 1) as nat) <= v,
        v < power(10, decimal_len(v)),
    decreases v,
{
    if v < 10 {
        assert(power(10, 0) == 1);
        assert(power(10, 1) == 10);
    } else {
        lemma_decimal_len_bracket(v / 10);
        let n = decimal_len(v / 10);
        assert(power(10, n) == 10 * power(10, (n - 1) as nat));
        assert(power(10, n + 1) == 10 * power(10, n));
        assert(power(10, n) <= v < power(10, n + 1)) by (nonlinear_arith)
            requires
                power(10, (n - 1) as nat) <= v / 10 < power(10, n),
                power(10, n) == 10 * power(10, (n - 1) as nat),
                power(10, n + 1) == 10 * power(10, n),
                v >= 10,
        ;
    }
}

/// Multiplies little-endian decimal digits by `m`.
fn mul_digits(d: &Vec<u8>, m: u128) -> (r: Vec<u8>)
    requires
        all_digits(d@),
        m <= 0x1_0000_0000_0000_0000,
    ensures
        all_digits(r@),
        digits_value(r@) == digits_value(d@) * m,
        r@.len() <= d@.len() + 20,
{
    let mut out: Vec<u8> = Vec::new();
    let mut carry: u128 = 0;
    let mut i: usize = 0;
    assert(d@.take(0).len() == 0);
    assert(digits_value(d@.take(0)) == 0);
    while i < d.len()
        invariant
            i <= d@.len(),
            out@.len() == i,
            all_digits(d@),
            all_digits(out@),
            m <= 0x1_0000_0000_0000_0000,
            carry <= m,
            digits_value(out@) + carry * power(10, i as nat) == digits_value(d@.take(i as int)) * m,
        decreases d@.len() - i,
    {
        let di = d[i];
        assert(d@[i as int] < 10);
        assert((di as u128) * m <= 9 * 0x1_0000_0000_0000_0000) by (nonlinear_arith)
            requires
                di < 10,
                m <= 0x1_0000_0000_0000_0000,
        ;
        let t: u128 = (di as u128) * m + carry;
        let digit: u8 = (t % 10) as u8;
        let ghost p = power(10, i as nat);
        let ghost old_out = out@;
        let ghost old_carry = carry;
        out.push(digit);
        carry = t / 10;
        proof {
            assert(out@.drop_last() == old_out);
            assert(d@.take(i as int + 1).drop_last() == d@.take(i as int));
            assert(power(10, i as nat + 1) == 10 * p);
            let vi = digits_value(d@.take(i as int));
            assert(digits_value(out@) == digits_value(old_out) + (t % 10) as nat * p);
            assert(digits_value(d@.take(i as int + 1)) == vi + di as nat * p);
            assert(digits_value(out@) + carry * power(10, i as nat + 1) == digits_value(
                d@.take(i as int + 1),
            ) * m) by (nonlinear_arith)
                requires
                    digits_value(old_out) + old_carry * p == vi * m,
                    digits_value(out@) == digits_value(old_out) + (t % 10) as nat * p,
                    digits_value(d@.take(i as int + 1)) == vi + di as nat * p,
                    t == di as nat * m + old_carry,
                    carry == t / 10,
                    power(10, i as nat + 1) == 10 * p,
            ;
            assert(carry <= m) by (nonlinear_arith)
                requires
                    carry == t / 10,
                    t == di as nat * m + old_carry,
                    di < 10,
                    old_carry <= m,
            ;
            assert(all_digits(out@)) by {
                assert forall|j: int| 0 <= j < out@.len() implies #[trigger] out@[j] < 10 by {
                    if j < old_out.len() {
                        assert(out@[j] == old_out[j]);
                    }
                }
            }
        }
        i = i + 1;
    }
    assert(d@.take(d@.len() as int) == d@);
    proof {
        reveal_with_fuel(power, 21);
        assert(power(10, 20) == 100000000000000000000nat);
    }
    while carry > 0
        invariant
            all_digits(out@),
            digits_value(out@) + carry * power(10, out@.len()) == digits_value(d@) * m,
            d@.len() <= out@.len() <= d@.len() + 20,
            carry < power(10, (d@.len() + 20 - out@.len()) as nat),
        decreases carry,
    {
        let ghost e = (d@.len() + 20 - out@.len()) as nat;
        proof {
            if e == 0 {
                assert(power(10, 0) == 1);
            }
        }
        let digit: u8 = (carry % 10) as u8;
        let ghost p = power(10, out@.len());
        let ghost old_out = out@;
        let ghost old_carry = carry;
        out.push(digit);
        carry = carry / 10;
        proof {
            assert(out@.drop_last() == old_out);
            assert(power(10, out@.len()) == 10 * p);
            assert(digits_value(out@) == digits_value(old_out) + (old_carry % 10) as nat * p);
            assert(digits_value(out@) + carry * power(10, out@.len()) == digits_value(d@) * m)
                by (nonlinear_arith)
                requires
                    digits_value(old_out) + old_carry * p == digits_value(d@) * m,
                    digits_value(out@) == digits_value(old_out) + (old_carry % 10) as nat * p,
                    carry == old_carry / 10,
                    power(10, out@.len()) == 10 * p,
            ;
            assert(all_digits(out@)) by {
                assert forall|j: int| 0 <= j < out@.len() implies #[trigger] out@[j] < 10 by {
                    if j < old_out.len() {
                        assert(out@[j] == old_out[j]);
                    }
                }
            }
            assert(power(10, e) == 10 * power(10, (e - 1) as nat));
            assert(carry < power(10, (e - 1) as nat)) by (nonlinear_arith)
                requires
                    carry == old_carry / 10,
                    old_carry < power(10, e),
                    power(10, e) == 10 * power(10, (e - 1) as nat),
            ;
        }
    }
    out
}

/// Drops leading (most significant) zero digits, keeping the value.
fn normalize(d: &mut Vec<u8>)
    requires
        all_digits(old(d)@),
    ensures
        all_digits(final(d)@),
        digits_value(final(d)@) == digits_value(old(d)@),
        final(d)@.len() == 0 || final(d)@.last() != 0,
        final(d)@.len() <= old(d)@.len(),
{
    let ghost orig = d@;
    while d.len() > 0 && d[d.len() - 1] == 0
        invariant
            all_digits(d@),
            digits_value(d@) == digits_value(orig),
            d@.len() <= orig.len(),
        decreases d@.len(),
    {
        let ghost before = d@;
        d.pop();
        assert(d@ == before.drop_last());
        assert(before.last() == 0);
        assert(digits_value(before) == digits_value(before.drop_last()) + before.last() as nat
            * power(10, (before.len() - 1) as nat));
        assert(0 * power(10, (before.len() - 1) as nat) == 0);
        assert(all_digits(d@)) by {
            assert forall|j: int| 0 <= j < d@.len() implies #[trigger] d@[j] < 10 by {
                assert(d@[j] == before[j]);
            }
        }
    }
}

/// `half_steps(x, m)` for `1 ≤ x ≤ 2^64`: the decimal digits of `x^m` are
/// built by repeated multiplication and counted.
pub fn half_steps_exec(x: u128, m: u32) -> (k: u64)
    requires
        1 <= x <= 0x1_0000_0000_0000_0000,
        m <= 100,
    ensures
        k as nat == half_steps(x as nat, m as nat),
        k <= 10 * m,
{
    let mut d: Vec<u8> = Vec::new();
    d.push(1);
    assert(digits_value(d@) == digits_value(d@.drop_last()) + 1 * power(10, 0));
    let mut j: u32 = 0;
    while j < m
        invariant
            j <= m,
            1 <= x <= 0x1_0000_0000_0000_0000,
            all_digits(d@),
            digits_value(d@) == power(x as nat, j as nat),
            d@.len() <= 1 + 20 * j,
        decreases m - j,
    {
        d = mul_digits(&d, x);
        proof {
            assert(power(x as nat, j as nat + 1) == x as nat * power(x as nat, j as nat));
            assert(power(x as nat, j as nat) * x as nat == x as nat * power(x as nat, j as nat))
                by (nonlinear_arith);
        }
        j = j + 1;
    }
    normalize(&mut d);
    proof {
        lemma_power_pos(x as nat, m as nat);
        if d@.len() == 0 {
            assert(digits_value(d@) == 0);
        }
        lemma_decimal_len_digits(d@);
    }
    (d.len() / 2) as u64
}

} // verus!

verus! {

proof fn lemma_power_base_mono(x1: nat, x2: nat, m: nat)
    requires
        x1 <= x2,
    ensures
        power(x1, m) <= power(x2, m),
    decreases m,
{
    if m > 0 {
        lemma_power_base_mono(x1, x2, (m - 1) as nat);
        let a = power(x1, (m - 1) as nat);
        let b = power(x2, (m - 1) as nat);
        assert(x1 * a <= x2 * b) by (nonlinear_arith)
            requires
                x1 <= x2,
                a <= b,
        ;
    }
}

proof fn lemma_decimal_len_mono(v1: nat, v2: nat)
    requires
        v1 <= v2,
    ensures
        decimal_len(v1) <= decimal_len(v2),
    decreases v2,
{
    if v1 >= 10 {
        lemma_decimal_len_mono(v1 / 10, v2 / 10);
    } else if v2 >= 10 {
        assert(decimal_len(v2) == 1 + decimal_len(v2 / 10));
    }
}

/// The rounded curve never decreases: a larger argument gives at least as
/// many half steps.
pub proof fn lemma_half_steps_mono(x1: nat, x2: nat, m: nat)
    requires
        x1 <= x2,
    ensures
        half_steps(x1, m) <= half_steps(x2, m),
{
    lemma_power_base_mono(x1, x2, m);
    lemma_decimal_len_mono(power(x1, m), power(x2, m));
}

} // verus!
