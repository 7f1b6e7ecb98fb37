//! How many limbs `gcd` reports for its result. The binary algorithm keeps,
//! for each number, a limb count that is only lowered when a low limb that is
//! 0 is dropped, or when the bits shifted out since the count was last lowered
//! add up to more than a limb; the count it reports is the one it keeps for
//! the second number plus the common low zero limbs; when shifting the common
//! low zero bits back in carries into a further limb, that limb is written but
//! not counted.

use crate::ll::limb_value::{
    lemma_limb_weight_adds, lemma_limb_weight_succ, lemma_trailing_zeros, lemma_value_split,
    limb_weight, limbs_value,
};
use crate::ll::limbs::{lemma_window_low_mod, window, window_value};
use vstd::arithmetic::div_mod::*;
use vstd::arithmetic::power2::*;
use vstd::bits::*;
use vstd::prelude::*;
use vstd::std_specs::bits::u64_trailing_zeros;

verus! {

/// Dividing by a positive number does not make a number larger.
pub proof fn lemma_div_le(x: nat, d: nat)
    requires
        d >= 1,
    ensures
        x / d <= x,
{
    lemma_div_is_ordered_by_denominator(x as int, 1, d as int);
}

/// The number of low limbs of `v` that are 0 (0 for `v == 0`).
pub open spec fn low_zero_limbs(v: nat) -> nat
    decreases v,
{
    if v > 0 && v % pow2(64) == 0 {
        proof {
            lemma2_to64_rest();
            lemma_div_is_strictly_smaller(v as int, pow2(64) as int);
        }
        1 + low_zero_limbs(v / pow2(64))
    } else {
        0
    }
}

/// The number of low bits of `v` that are 0 (0 for `v == 0`).
pub open spec fn low_zero_bits(v: nat) -> nat
    decreases v,
{
    if v > 0 && v % 2 == 0 {
        1 + low_zero_bits(v / 2)
    } else {
        0
    }
}

/// The number of low bits of the lowest limb of `v` that are 0: 64 when that
/// limb is 0.
pub open spec fn low_limb_zero_bits(v: nat) -> nat {
    if v % pow2(64) == 0 {
        64
    } else {
        low_zero_bits(v)
    }
}

/// A limb count `n` and a count `c` of bits shifted out, after `t` more bits
/// are shifted out: past 64 bits, the limb count goes down by one and the bit
/// count by 65.
pub open spec fn count_after_shift(n: int, c: nat, t: nat) -> (int, nat) {
    if t == 0 {
        (n, c)
    } else if c + t > 64 {
        (n - 1, ((c + t) % 65) as nat)
    } else {
        (n, c + t)
    }
}

/// The odd part of `v`, found by dropping its low zero limbs and then its low
/// zero bits, with the limb count `n` and shifted-bit count `c` after that.
pub open spec fn odd_step(v: nat, n: int, c: nat) -> (nat, int, nat) {
    let k = low_zero_limbs(v);
    let v1 = v / limb_weight(k);
    let t = low_zero_bits(v1);
    let nc = count_after_shift(n - k, c, t);
    (v1 / pow2(t), nc.0, nc.1)
}

/// The number of bits that `odd_step` shifts out of `v`.
pub open spec fn odd_step_shift(v: nat) -> nat {
    64 * low_zero_limbs(v) + low_zero_bits(v / limb_weight(low_zero_limbs(v)))
}

/// The odd part of `v` is at most `v`.
pub proof fn lemma_odd_step_le(v: nat, n: int, c: nat)
    ensures
        odd_step(v, n, c).0 <= v,
{
    let k = low_zero_limbs(v);
    lemma_limb_weight_succ(k);
    lemma_div_le(v, limb_weight(k));
    let v1 = v / limb_weight(k);
    lemma_pow2_pos(low_zero_bits(v1));
    lemma_div_le(v1, pow2(low_zero_bits(v1)));
}

/// The limb count that the loop of the binary algorithm ends with for the
/// second number, from the numbers `a`, `b` (at most one of them even unless
/// one is 0) with their limb counts and shifted-bit counts: while both are
/// nonzero, both are made odd, and the larger is replaced by half the
/// difference.
pub open spec fn loop_limb_count(a: nat, an: int, ac: nat, b: nat, bn: int, bc: nat) -> int
    decreases a + b,
{
    if a == 0 || b == 0 {
        bn
    } else {
        let sa = odd_step(a, an, ac);
        let sb = odd_step(b, bn, bc);
        proof {
            lemma_odd_step_le(a, an, ac);
            lemma_odd_step_le(b, bn, bc);
        }
        if sa.0 >= sb.0 {
            loop_limb_count(((sa.0 - sb.0) / 2) as nat, sa.1, sa.2, sb.0, sb.1, sb.2)
        } else {
            loop_limb_count(sa.0, sa.1, sa.2, ((sb.0 - sa.0) / 2) as nat, sb.1, sb.2)
        }
    }
}

/// The number of limbs that `gcd` reports for the numbers held by `a` and `b`.
pub open spec fn gcd_limb_count(a: Seq<u64>, b: Seq<u64>) -> int {
    let va = limbs_value(a);
    let vb = limbs_value(b);
    if va == 0 || vb == 0 {
        b.len() as int
    } else {
        let lza = low_zero_limbs(va);
        let lzb = low_zero_limbs(vb);
        let gc = if lza <= lzb {
            lza
        } else {
            lzb
        };
        let a1 = va / limb_weight(gc);
        let b1 = vb / limb_weight(gc);
        let ta = low_limb_zero_bits(a1);
        let tb = low_limb_zero_bits(b1);
        let t = if ta <= tb {
            ta
        } else {
            tb
        };
        let count = loop_limb_count(
            a1 / pow2(t),
            a.len() - gc,
            t,
            b1 / pow2(t),
            b.len() - gc,
            t,
        );
        gc + count
    }
}

/// Multiplying a nonzero number by `2^(64 m)` adds `m` low zero limbs.
pub proof fn lemma_low_zero_limbs_scaled(w: nat, m: nat)
    requires
        w != 0,
    ensures
        low_zero_limbs(w * limb_weight(m)) == m + low_zero_limbs(w),
        (w * limb_weight(m)) / limb_weight(m) == w,
    decreases m,
{
    lemma_limb_weight_succ(0);
    if m == 0 {
        assert(w * 1 == w);
    } else {
        let m1 = (m - 1) as nat;
        lemma_low_zero_limbs_scaled(w, m1);
        lemma_limb_weight_succ(m1);
        let u = w * limb_weight(m1);
        let big = pow2(64);
        lemma2_to64_rest();
        assert(w * limb_weight(m) == u * big) by (nonlinear_arith)
            requires
                limb_weight(m) == limb_weight(m1) * big,
                u == w * limb_weight(m1),
        ;
        assert(u > 0) by (nonlinear_arith)
            requires
                u == w * limb_weight(m1),
                w != 0,
                limb_weight(m1) > 0,
        ;
        lemma_mod_multiples_basic(u as int, big as int);
        lemma_div_multiples_vanish(u as int, big as int);
        assert(big * u == u * big) by (nonlinear_arith);
        assert(u * big > 0) by (nonlinear_arith)
            requires
                u > 0,
                big > 0,
        ;
    }
    lemma_div_multiples_vanish(w as int, limb_weight(m) as int);
    assert(limb_weight(m) * w == w * limb_weight(m)) by (nonlinear_arith);
}

/// A number that is `2^t` times an odd number has `t` low zero bits.
pub proof fn lemma_low_zero_bits(v: nat, t: nat)
    requires
        v % pow2(t) == 0,
        (v / pow2(t)) % 2 == 1,
    ensures
        low_zero_bits(v) == t,
    decreases t,
{
    lemma_pow2_pos(t);
    let q = v / pow2(t);
    lemma_fundamental_div_mod(v as int, pow2(t) as int);
    assert(v == pow2(t) * q);
    if t == 0 {
        lemma2_to64();
        assert(v == q);
    } else {
        let t1 = (t - 1) as nat;
        lemma_pow2_unfold(t);
        lemma_pow2_pos(t1);
        let u = q * pow2(t1);
        assert(v == u * 2) by (nonlinear_arith)
            requires
                v == pow2(t) * q,
                pow2(t) == 2 * pow2(t1),
                u == q * pow2(t1),
        ;
        assert(u > 0) by (nonlinear_arith)
            requires
                u == q * pow2(t1),
                q % 2 == 1,
                pow2(t1) > 0,
        ;
        lemma_mod_multiples_basic(q as int, pow2(t1) as int);
        lemma_div_multiples_vanish(q as int, pow2(t1) as int);
        assert(pow2(t1) * q == q * pow2(t1)) by (nonlinear_arith);
        lemma_low_zero_bits(u, t1);
    }
}

/// The low zero bits of a window's lowest limb, as `u64::trailing_zeros`
/// counts them, are those of the number the window holds.
pub proof fn lemma_window_low_limb_zero_bits(s: Seq<u64>, start: int, n: int)
    requires
        0 <= start,
        1 <= n,
        start + n <= s.len(),
    ensures
        low_limb_zero_bits(window_value(s, start, n)) == u64_trailing_zeros(s[start]),
{
    let v = window_value(s, start, n);
    let x0 = s[start];
    lemma_window_low_mod(s, start, n, 64);
    lemma2_to64_rest();
    lemma_small_mod(x0 as nat, pow2(64));
    lemma_trailing_zeros(x0, 0);
    if x0 != 0 {
        let t = u64_trailing_zeros(x0) as nat;
        lemma_trailing_zeros(x0, t);
        lemma_u64_shr_is_div(x0, t as u64);
        let tu: u64 = t as u64;
        let sh: u64 = x0 >> tu;
        assert(sh & 1 == 1);
        assert((sh & 1 == 1) == (sh % 2 == 1)) by (bit_vector);
        let q0 = (x0 as nat) / pow2(t);
        let w = window(s, start, n);
        lemma_value_split(w, 1);
        let r = limbs_value(w.skip(1));
        assert(w.take(1) =~= seq![x0]);
        crate::ll::limb_value::lemma_value_one(w.take(1));
        lemma_limb_weight_succ(0);
        assert(v == x0 + pow2(64) * r);
        lemma_pow2_pos(t);
        lemma_fundamental_div_mod(x0 as int, pow2(t) as int);
        let d = (64 - t) as nat;
        lemma_pow2_adds(t, d);
        lemma_pow2_unfold(d);
        let e = pow2((d - 1) as nat);
        let q = q0 + 2 * e * r;
        assert(v == q * pow2(t)) by (nonlinear_arith)
            requires
                v == x0 + pow2(64) * r,
                x0 == pow2(t) * q0,
                pow2(64) == pow2(t) * pow2(d),
                pow2(d) == 2 * e,
                q == q0 + 2 * e * r,
        ;
        lemma_mod_multiples_basic(q as int, pow2(t) as int);
        lemma_div_multiples_vanish(q as int, pow2(t) as int);
        assert(pow2(t) * q == q * pow2(t)) by (nonlinear_arith);
        lemma_mod_multiples_vanish((e * r) as int, q0 as int, 2);
        assert(2 * (e * r) + q0 == q) by (nonlinear_arith)
            requires
                q == q0 + 2 * e * r,
        ;
        lemma_low_zero_bits(v, t);
    }
}

/// A nonzero number is its part above the low zero limbs times `2^(64 k)`, `k`
/// the number of those limbs, and the lowest limb of that part is not 0.
pub proof fn lemma_low_zero_limbs_split(v: nat)
    requires
        v != 0,
    ensures
        v == (v / limb_weight(low_zero_limbs(v))) * limb_weight(low_zero_limbs(v)),
        (v / limb_weight(low_zero_limbs(v))) % pow2(64) != 0,
    decreases v,
{
    let big = pow2(64);
    lemma2_to64_rest();
    lemma_limb_weight_succ(0);
    if v % big != 0 {
        assert(low_zero_limbs(v) == 0);
        assert(v / 1 == v);
        assert(v * 1 == v);
    } else {
        let u = v / big;
        lemma_fundamental_div_mod(v as int, big as int);
        assert(v == big * u);
        assert(u != 0);
        lemma_div_is_strictly_smaller(v as int, big as int);
        lemma_low_zero_limbs_split(u);
        let k1 = low_zero_limbs(u);
        assert(low_zero_limbs(v) == k1 + 1);
        let q = u / limb_weight(k1);
        lemma_limb_weight_succ(k1);
        assert(v == q * limb_weight(k1 + 1)) by (nonlinear_arith)
            requires
                v == big * u,
                u == q * limb_weight(k1),
                limb_weight(k1 + 1) == limb_weight(k1) * big,
        ;
        lemma_div_multiples_vanish(q as int, limb_weight(k1 + 1) as int);
        assert(limb_weight(k1 + 1) * q == q * limb_weight(k1 + 1)) by (nonlinear_arith);
    }
}

/// A nonzero number is an odd number times `2^t`, `t` its count of low zero
/// bits.
pub proof fn lemma_low_zero_bits_split(v: nat)
    requires
        v != 0,
    ensures
        v == (v / pow2(low_zero_bits(v))) * pow2(low_zero_bits(v)),
        v % pow2(low_zero_bits(v)) == 0,
        (v / pow2(low_zero_bits(v))) % 2 == 1,
    decreases v,
{
    lemma2_to64();
    if v % 2 != 0 {
        assert(low_zero_bits(v) == 0);
        assert(v / 1 == v && v * 1 == v && v % 1 == 0);
    } else {
        let u = v / 2;
        assert(v == 2 * u);
        lemma_low_zero_bits_split(u);
        let t1 = low_zero_bits(u);
        let q = u / pow2(t1);
        lemma_pow2_unfold(t1 + 1);
        lemma_pow2_pos(t1 + 1);
        assert(low_zero_bits(v) == t1 + 1);
        assert(v == q * pow2(t1 + 1)) by (nonlinear_arith)
            requires
                v == 2 * u,
                u == q * pow2(t1),
                pow2(t1 + 1) == 2 * pow2(t1),
        ;
        lemma_div_multiples_vanish(q as int, pow2(t1 + 1) as int);
        lemma_mod_multiples_basic(q as int, pow2(t1 + 1) as int);
        assert(pow2(t1 + 1) * q == q * pow2(t1 + 1)) by (nonlinear_arith);
    }
}

/// What `odd_step` gives for a nonzero number `v` held in `n` limbs with `c`
/// bits shifted out, where `v * 2^c` and `v * 2^m` (`m <= 1`) fit in `n` limbs:
/// an odd number, `v` divided by a power of 2, that still fits with its new
/// counts, and whose double fits too when `m` is 1.
pub proof fn lemma_odd_step_facts(v: nat, n: int, c: nat, m: nat)
    requires
        v != 0,
        n >= 1,
        c <= 64,
        m <= 1,
        v * pow2(c) < limb_weight(n as nat),
        v * pow2(m) < limb_weight(n as nat),
    ensures
        odd_step(v, n, c).0 % 2 == 1,
        odd_step(v, n, c).1 >= 1,
        odd_step(v, n, c).2 <= 64,
        odd_step(v, n, c).0 * pow2(odd_step(v, n, c).2) < limb_weight(odd_step(v, n, c).1 as nat),
        odd_step(v, n, c).0 * pow2(m) < limb_weight(odd_step(v, n, c).1 as nat),
        v == odd_step(v, n, c).0 * pow2(odd_step_shift(v)),
{
    let k = low_zero_limbs(v);
    let w = limb_weight(k);
    let v1 = v / w;
    lemma_low_zero_limbs_split(v);
    lemma_limb_weight_succ(k);
    assert(v1 != 0) by (nonlinear_arith)
        requires
            v == v1 * w,
            v != 0,
    ;
    lemma_low_zero_bits_split(v1);
    let t = low_zero_bits(v1);
    let p = pow2(t);
    let v2 = v1 / p;
    lemma_pow2_pos(t);
    lemma_pow2_pos(c);
    lemma_pow2_pos(m);
    lemma2_to64_rest();
    lemma2_to64();
    assert(pow2(m) <= 2);
    // t < 64, since the lowest limb of v1 is not 0
    if t >= 64 {
        lemma_pow2_adds(64, (t - 64) as nat);
        lemma_mod_mod(v1 as int, pow2(64) as int, pow2((t - 64) as nat) as int);
        lemma_mod_multiples_basic((v2 * pow2((t - 64) as nat)) as int, pow2(64) as int);
        assert(v1 == (v2 * pow2((t - 64) as nat)) * pow2(64)) by (nonlinear_arith)
            requires
                v1 == v2 * p,
                p == pow2(64) * pow2((t - 64) as nat),
        ;
        assert(false);
    }
    // the part above the low zero limbs fits in n - k limbs
    let n1 = n - k;
    if n1 < 1 {
        lemma_limb_weight_adds(n as nat, (k - n) as nat);
        lemma_limb_weight_succ((k - n) as nat);
        assert(v * pow2(c) >= limb_weight(n as nat)) by (nonlinear_arith)
            requires
                v == v1 * w,
                v1 >= 1,
                pow2(c) >= 1,
                w == limb_weight(n as nat) * limb_weight((k - n) as nat),
                limb_weight((k - n) as nat) >= 1,
        ;
        assert(false);
    }
    lemma_limb_weight_adds(k, n1 as nat);
    lemma_limb_weight_succ(n1 as nat);
    assert(v1 * pow2(c) < limb_weight(n1 as nat) && v1 * pow2(m) < limb_weight(n1 as nat))
        by (nonlinear_arith)
        requires
            v == v1 * w,
            v * pow2(c) < limb_weight(n as nat),
            v * pow2(m) < limb_weight(n as nat),
            w * limb_weight(n1 as nat) == limb_weight(n as nat),
            w > 0,
    ;
    lemma_div_le(v1, p);
    assert(v2 * pow2(m) <= v1 * pow2(m)) by (nonlinear_arith)
        requires
            v2 <= v1,
    ;
    lemma_pow2_adds(c, t);
    assert(v2 * pow2(c + t) == v1 * pow2(c)) by (nonlinear_arith)
        requires
            v1 == v2 * p,
            pow2(c) * p == pow2(c + t),
    ;
    if t > 0 && c + t > 64 {
        let c1 = (c + t - 65) as nat;
        lemma_pow2_adds(c1, 64);
        lemma_pow2_unfold(c1 + 65);
        lemma_pow2_pos(c1);
        let big = pow2(64);
        lemma_limb_weight_succ((n1 - 1) as nat);
        assert(v2 * (2 * pow2(c1)) < limb_weight((n1 - 1) as nat)) by (nonlinear_arith)
            requires
                v2 * pow2(c + t) < limb_weight(n1 as nat),
                pow2(c + t) == 2 * pow2((c1 + 64) as nat),
                pow2(c1) * big == pow2((c1 + 64) as nat),
                limb_weight(n1 as nat) == limb_weight((n1 - 1) as nat) * big,
                big > 0,
        ;
        if n1 == 1 {
            assert(v2 * (2 * pow2(c1)) >= 1) by (nonlinear_arith)
                requires
                    v2 >= 1,
                    pow2(c1) >= 1,
            ;
            assert(false);
        }
        assert(v2 * pow2(c1) < limb_weight((n1 - 1) as nat)) by (nonlinear_arith)
            requires
                v2 * (2 * pow2(c1)) < limb_weight((n1 - 1) as nat),
        ;
        assert(v2 * pow2(m) < limb_weight((n1 - 1) as nat)) by (nonlinear_arith)
            requires
                v2 * (2 * pow2(c1)) < limb_weight((n1 - 1) as nat),
                m <= 1,
                pow2(c1) >= 1,
                pow2(m) <= 2,
        {
        }
        assert(((c + t) % 65) as nat == c1);
    }
    assert(limb_weight(k) == pow2(64 * k));
    lemma_pow2_adds(64 * k, t);
    assert(v == v2 * pow2(64 * k + t)) by (nonlinear_arith)
        requires
            v == v1 * pow2(64 * k),
            v1 == v2 * p,
            pow2(64 * k) * p == pow2(64 * k + t),
    ;
}

} // verus!
