//! The value of a little-endian limb sequence, and the facts about it that the
//! limb routines rest on.

use vstd::arithmetic::div_mod::*;
use vstd::arithmetic::mul::*;
use vstd::arithmetic::power2::*;
use vstd::bits::*;
use vstd::std_specs::bits::{axiom_u64_trailing_zeros, u64_trailing_zeros};
use vstd::prelude::*;

verus! {

/// `2^(64 * i)`, the weight of the limb at index `i`.
pub open spec fn limb_weight(i: nat) -> nat {
    pow2(64 * i)
}

/// The natural number that a little-endian limb sequence stands for:
/// `s[0] + s[1] * 2^64 + s[2] * 2^128 + ...`.
pub open spec fn limbs_value(s: Seq<u64>) -> nat
    decreases s.len(),
{
    if s.len() == 0 {
        0
    } else {
        limbs_value(s.drop_last()) + (s.last() as nat) * limb_weight((s.len() - 1) as nat)
    }
}

/// The weight of limb `i + 1` is `2^64` times the weight of limb `i`.
pub proof fn lemma_limb_weight_succ(i: nat)
    ensures
        limb_weight(i + 1) == limb_weight(i) * pow2(64),
        limb_weight(0) == 1,
        limb_weight(i) > 0,
{
    lemma_pow2_adds(64 * i, 64);
    assert(64 * (i + 1) == 64 * i + 64) by (nonlinear_arith);
    lemma_pow2_pos(64 * i);
    lemma2_to64();
}

/// Appending a limb adds it at the next weight.
pub proof fn lemma_value_push(s: Seq<u64>, v: u64)
    ensures
        limbs_value(s.push(v)) == limbs_value(s) + v * limb_weight(s.len()),
{
    assert(s.push(v).drop_last() =~= s);
}

/// Extending a prefix by one limb adds that limb at its weight.
pub proof fn lemma_value_take_succ(s: Seq<u64>, i: int)
    requires
        0 <= i < s.len(),
    ensures
        limbs_value(s.take(i + 1)) == limbs_value(s.take(i)) + s[i] * limb_weight(i as nat),
{
    assert(s.take(i + 1) =~= s.take(i).push(s[i]));
    lemma_value_push(s.take(i), s[i]);
}

/// The value of `n` limbs is below `2^(64 n)`.
pub proof fn lemma_value_bound(s: Seq<u64>)
    ensures
        limbs_value(s) < limb_weight(s.len()),
    decreases s.len(),
{
    lemma_limb_weight_succ(0);
    if s.len() > 0 {
        let n = (s.len() - 1) as nat;
        lemma_value_bound(s.drop_last());
        lemma_limb_weight_succ(n);
        let w = limb_weight(n);
        let v = limbs_value(s.drop_last());
        let l = s.last();
        assert(pow2(64) == 0x1_0000_0000_0000_0000) by {
            lemma2_to64_rest();
        }
        assert(v + l * w < w * pow2(64)) by (nonlinear_arith)
            requires
                v < w,
                l <= 0xffff_ffff_ffff_ffff,
                pow2(64) == 0x1_0000_0000_0000_0000,
        ;
    }
}

/// The weights multiply as powers: `2^(64 i) * 2^(64 j) == 2^(64 (i + j))`.
pub proof fn lemma_limb_weight_adds(i: nat, j: nat)
    ensures
        limb_weight(i) * limb_weight(j) == limb_weight(i + j),
{
    lemma_pow2_adds(64 * i, 64 * j);
    assert(64 * i + 64 * j == 64 * (i + j)) by (nonlinear_arith);
}

/// A sequence splits at any index `k` into its low part and `2^(64 k)` times
/// its high part.
pub proof fn lemma_value_split(s: Seq<u64>, k: int)
    requires
        0 <= k <= s.len(),
    ensures
        limbs_value(s) == limbs_value(s.take(k)) + limb_weight(k as nat) * limbs_value(s.skip(k)),
    decreases s.len(),
{
    if k == s.len() {
        assert(s.take(k) =~= s);
        assert(s.skip(k).len() == 0);
        assert(limbs_value(s.skip(k)) == 0);
        assert(limb_weight(k as nat) * 0 == 0);
    } else {
        let n = s.len() - 1;
        let d = s.drop_last();
        lemma_value_split(d, k);
        assert(d.take(k) =~= s.take(k));
        assert(s.skip(k) =~= d.skip(k).push(s.last()));
        lemma_value_push(d.skip(k), s.last());
        lemma_limb_weight_adds(k as nat, (n - k) as nat);
        let wk = limb_weight(k as nat);
        let r = limbs_value(d.skip(k));
        let l = s.last() as nat;
        let wr = limb_weight((n - k) as nat);
        assert(wk * (r + l * wr) == wk * r + l * (wk * wr)) by (nonlinear_arith);
        assert(limbs_value(s) == limbs_value(d) + l * limb_weight(n as nat));
        assert(limbs_value(s.skip(k)) == r + l * wr);
        assert(k + (n - k) == n);
    }
}

/// A sequence is worth 0 exactly when every limb is 0.
pub proof fn lemma_value_zero(s: Seq<u64>)
    ensures
        (limbs_value(s) == 0) <==> (forall|i: int| 0 <= i < s.len() ==> s[i] == 0),
    decreases s.len(),
{
    if s.len() > 0 {
        let d = s.drop_last();
        lemma_value_zero(d);
        lemma_limb_weight_succ((s.len() - 1) as nat);
        let w = limb_weight((s.len() - 1) as nat);
        assert((s.last() as nat) * w == 0 <==> s.last() == 0) by (nonlinear_arith)
            requires
                w > 0,
        ;
        if limbs_value(s) == 0 {
            assert forall|i: int| 0 <= i < s.len() implies s[i] == 0 by {
                if i < s.len() - 1 {
                    assert(s[i] == d[i]);
                }
            }
        }
        if forall|i: int| 0 <= i < s.len() ==> s[i] == 0 {
            assert forall|i: int| 0 <= i < d.len() implies d[i] == 0 by {
                assert(d[i] == s[i]);
            }
        }
    }
}

/// A sequence whose top limb is not 0 is worth at least the weight of that limb.
pub proof fn lemma_value_top_nonzero(s: Seq<u64>)
    requires
        s.len() > 0,
        s.last() != 0,
    ensures
        limbs_value(s) >= limb_weight((s.len() - 1) as nat),
{
    let w = limb_weight((s.len() - 1) as nat);
    assert((s.last() as nat) * w >= w) by (nonlinear_arith)
        requires
            s.last() >= 1,
    ;
}

/// A sequence whose top limb is 0 is worth what it is worth without that limb.
pub proof fn lemma_value_top_zero(s: Seq<u64>)
    requires
        s.len() > 0,
        s.last() == 0,
    ensures
        limbs_value(s) == limbs_value(s.drop_last()),
        limbs_value(s) < limb_weight((s.len() - 1) as nat),
{
    lemma_value_bound(s.drop_last());
}

/// The value of a single limb.
pub proof fn lemma_value_one(s: Seq<u64>)
    requires
        s.len() == 1,
    ensures
        limbs_value(s) == s[0],
{
    lemma_limb_weight_succ(0);
    assert(s.drop_last().len() == 0);
    assert(limbs_value(s.drop_last()) == 0);
    assert(s.last() == s[0]);
    assert((s[0] as nat) * 1 == s[0]);
}

/// Below `2^64`, the residue of a sequence's value is that of its lowest limb.
pub proof fn lemma_value_low_mod(s: Seq<u64>, c: nat)
    requires
        s.len() > 0,
        c <= 64,
    ensures
        limbs_value(s) % pow2(c) == (s[0] as nat) % pow2(c),
{
    lemma_value_split(s, 1);
    lemma_value_one(s.take(1));
    lemma_limb_weight_succ(0);
    lemma_pow2_adds(c, (64 - c) as nat);
    lemma_pow2_pos(c);
    let r = limbs_value(s.skip(1));
    let q = pow2((64 - c) as nat);
    assert(limb_weight(1) * r == pow2(c) * (q * r)) by {
        lemma_mul_is_associative(pow2(c) as int, q as int, r as int);
    }
    lemma_mod_multiples_vanish((q * r) as int, s[0] as int, pow2(c) as int);
}

/// Joining the high `64 - c` bits of `lo` with the low `c` bits of `hi`:
/// `(lo >> c) | (hi << (64 - c))` is `lo / 2^c + (hi mod 2^c) * 2^(64 - c)`.
pub proof fn lemma_funnel_limb(lo: u64, hi: u64, c: u64)
    requires
        0 < c < 64,
    ensures
        ((lo >> c) | (hi << ((64 - c) as u64))) as nat == (lo as nat) / pow2(c as nat) + ((hi as nat)
            % pow2(c as nat)) * pow2((64 - c) as nat),
{
    let d: u64 = (64 - c) as u64;
    assert((lo >> c) & (hi << d) == 0) by (bit_vector)
        requires
            0 < c < 64,
            d == 64 - c,
    ;
    assert(((lo >> c) | (hi << d)) == (lo >> c) + (hi << d)) by (bit_vector)
        requires
            (lo >> c) & (hi << d) == 0,
    ;
    lemma_u64_shr_is_div(lo, c);
    let m: u64 = ((1u64 << c) - 1) as u64;
    assert(hi << d == (hi & m) << d) by (bit_vector)
        requires
            0 < c < 64,
            d == 64 - c,
            m == ((1u64 << c) - 1) as u64,
    ;
    lemma_u64_pow2_no_overflow(c as nat);
    lemma_u64_shl_is_mul(1u64, c);
    lemma_u64_low_bits_mask_is_mod(hi, c as nat);
    lemma_low_bits_mask_unfold(c as nat);
    assert(m == low_bits_mask(c as nat));
    lemma_pow2_pos(c as nat);
    lemma_pow2_adds(c as nat, d as nat);
    lemma2_to64_rest();
    let r: nat = (hi as nat) % pow2(c as nat);
    assert(r < pow2(c as nat)) by {
        lemma_mod_bound(hi as int, pow2(c as nat) as int);
    }
    assert(r * pow2(d as nat) <= u64::MAX) by (nonlinear_arith)
        requires
            r < pow2(c as nat),
            pow2(c as nat) * pow2(d as nat) == pow2(64),
            pow2(64) == 0x1_0000_0000_0000_0000,
    ;
    lemma_u64_shl_is_mul(hi & m, d);
}

/// The lowest set bit of a nonzero limb: below it all bits are 0, so the limb
/// is a multiple of `2^c` for every `c` up to its count of trailing zeros, and
/// shifted right by that count it is odd.
pub proof fn lemma_trailing_zeros(x: u64, c: nat)
    requires
        c <= u64_trailing_zeros(x),
        c <= 64,
    ensures
        (x as nat) % pow2(c) == 0,
        u64_trailing_zeros(x) <= 64,
        x == 0 <==> u64_trailing_zeros(x) == 64,
        x != 0 ==> u64_trailing_zeros(x) < 64,
        x != 0 ==> (x >> (u64_trailing_zeros(x) as u64)) & 1 == 1,
{
    axiom_u64_trailing_zeros(x);
    lemma_pow2_pos(c);
    if x == 0 {
        lemma_small_mod(0, pow2(c));
    } else {
        let t: u64 = u64_trailing_zeros(x) as u64;
        assert((x >> t) << t == x) by (bit_vector)
            requires
                t < 64,
                x << ((64 - t) as u64) == 0,
        ;
        lemma_u64_shr_is_div(x, t);
        lemma_pow2_pos(t as nat);
        let q = (x as nat) / pow2(t as nat);
        lemma_fundamental_div_mod(x as int, pow2(t as nat) as int);
        assert(q * pow2(t as nat) <= x) by (nonlinear_arith)
            requires
                x == pow2(t as nat) * q + (x as nat) % pow2(t as nat),
                (x as nat) % pow2(t as nat) >= 0,
        ;
        lemma_u64_shl_is_mul(x >> t, t);
        lemma_pow2_adds((t - c) as nat, c);
        assert(x == (q * pow2((t - c) as nat)) * pow2(c)) by (nonlinear_arith)
            requires
                x == q * pow2(t as nat),
                pow2(t as nat) == pow2((t - c) as nat) * pow2(c),
        ;
        lemma_mod_multiples_basic((q * pow2((t - c) as nat)) as int, pow2(c) as int);
    }
}

/// Limb weights grow with the index.
pub proof fn lemma_limb_weight_monotone(i: nat, j: nat)
    requires
        i <= j,
    ensures
        limb_weight(i) <= limb_weight(j),
{
    lemma_limb_weight_adds(i, (j - i) as nat);
    lemma_limb_weight_succ((j - i) as nat);
    assert(limb_weight(i) * limb_weight((j - i) as nat) >= limb_weight(i)) by (nonlinear_arith)
        requires
            limb_weight((j - i) as nat) >= 1,
    ;
}

} // verus!
