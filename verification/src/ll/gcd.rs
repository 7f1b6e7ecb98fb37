//! The greatest common divisor of two multi-limb numbers, by the binary
//! algorithm: common low zero limbs and common low zero bits are taken out
//! first and put back at the end; in between, both numbers are kept odd by
//! shifting, and the smaller is taken from the larger, until one of them is 0.

use crate::ll::euclid::{
    divides, lemma_common_divisor_divides_gcd, lemma_gcd_commutative, lemma_gcd_divides,
    lemma_gcd_drop_pow2, lemma_gcd_drop_pow2_right, lemma_gcd_le, lemma_gcd_scale,
    lemma_divisor_of_odd_is_odd, lemma_gcd_subtract, lemma_gcd_subtract_right,
    lemma_gcd_zero_left, nat_gcd,
};
use crate::ll::limb_count::{
    gcd_limb_count, lemma_div_le, lemma_low_zero_bits, lemma_low_zero_bits_split,
    lemma_low_zero_limbs_scaled, lemma_low_zero_limbs_split, lemma_odd_step_facts,
    lemma_odd_step_le, lemma_window_low_limb_zero_bits, loop_limb_count, low_limb_zero_bits,
    low_zero_limbs, low_zero_bits, odd_step, odd_step_shift,
};
use crate::ll::limb_value::{
    lemma_limb_weight_adds, lemma_limb_weight_monotone, lemma_limb_weight_succ,
    lemma_trailing_zeros, lemma_value_bound, lemma_value_push, lemma_value_split, lemma_value_zero,
    limb_weight, limbs_value,
};
use crate::ll::limbs::{
    copy_incr, drop_high_zero_limbs, greater_or_equal, is_zero, lemma_window_bound,
    lemma_window_low_mod, lemma_window_strip_low, lemma_window_top, shl, shr,
    strip_low_zero_limbs, window, window_value,
};
use vstd::arithmetic::div_mod::*;
use vstd::arithmetic::mul::*;
use vstd::arithmetic::power2::*;
use vstd::prelude::*;

verus! {

/// What `gcd` computes for the numbers `a` and `b`: their greatest common
/// divisor, except that it gives 0 when `b` is 0.
pub open spec fn gcd_result(a: nat, b: nat) -> nat {
    if b == 0 {
        0
    } else {
        nat_gcd(a, b)
    }
}

/// The routine would have to shift by a whole limb width when both lowest
/// limbs are 0 and one of the numbers is 0; these arguments are excluded.
pub open spec fn gcd_args_shiftable(a: Seq<u64>, b: Seq<u64>) -> bool {
    !(a[0] == 0 && b[0] == 0 && (limbs_value(a) == 0 || limbs_value(b) == 0))
}

/// For a nonzero second number, what `gcd` computes is the greatest common
/// divisor: it divides both numbers, every common divisor of them divides it,
/// and, the first number being nonzero too, it does not depend on their order.
pub proof fn lemma_gcd_result_is_greatest_common_divisor(a: nat, b: nat)
    requires
        b > 0,
    ensures
        divides(gcd_result(a, b), a),
        divides(gcd_result(a, b), b),
        forall|d: nat| divides(d, a) && divides(d, b) ==> #[trigger] divides(d, gcd_result(a, b)),
        a > 0 ==> gcd_result(a, b) == gcd_result(b, a),
{
    lemma_gcd_divides(a, b);
    assert forall|d: nat| divides(d, a) && divides(d, b) implies #[trigger] divides(
        d,
        gcd_result(a, b),
    ) by {
        lemma_common_divisor_divides_gcd(a, b, d);
    }
    lemma_gcd_commutative(a, b);
}

/// Over the loop of the binary algorithm, the limb count kept for the second
/// number keeps room for its odd part, and for twice it when `m` is 1 and
/// there was room for twice the starting number: what `gcd` gives for the
/// starting numbers, times `2^m`, fits in the limb count the loop ends with.
proof fn lemma_loop_count_bound(a: nat, an: int, ac: nat, b: nat, bn: int, bc: nat, m: nat)
    requires
        m <= 1,
        an >= 1,
        bn >= 1,
        ac <= 64,
        bc <= 64,
        a * pow2(ac) < limb_weight(an as nat),
        b * pow2(bc) < limb_weight(bn as nat),
        b * pow2(m) < limb_weight(bn as nat),
        (a != 0 && b != 0) ==> (a % 2 == 1 || b % 2 == 1),
    ensures
        gcd_result(a, b) * pow2(m) < limb_weight(loop_limb_count(a, an, ac, b, bn, bc) as nat),
        loop_limb_count(a, an, ac, b, bn, bc) >= 1,
    decreases a + b,
{
    lemma_pow2_pos(m);
    lemma_pow2_pos(ac);
    lemma2_to64();
    if a == 0 || b == 0 {
        if b != 0 {
            lemma_gcd_zero_left(b);
        } else {
            lemma_limb_weight_succ(bn as nat);
        }
    } else {
        assert(a * pow2(0) < limb_weight(an as nat)) by (nonlinear_arith)
            requires
                a * pow2(ac) < limb_weight(an as nat),
                pow2(ac) >= 1,
                pow2(0) == 1,
        ;
        lemma_odd_step_facts(a, an, ac, 0);
        lemma_odd_step_facts(b, bn, bc, m);
        lemma_odd_step_le(a, an, ac);
        lemma_odd_step_le(b, bn, bc);
        let sa = odd_step(a, an, ac);
        let sb = odd_step(b, bn, bc);
        lemma_remove_factor_left(a, sa.0, b, odd_step_shift(a));
        lemma_remove_factor_right(sa.0, b, sb.0, odd_step_shift(b));
        lemma_pow2_pos(sa.2);
        lemma_pow2_pos(sb.2);
        if sa.0 >= sb.0 {
            let h = ((sa.0 - sb.0) / 2) as nat;
            assert((sa.0 - sb.0) as nat == h * pow2(1));
            lemma_gcd_subtract(sa.0, sb.0);
            lemma_gcd_drop_pow2(h, sb.0, 1);
            assert(h * pow2(sa.2) <= sa.0 * pow2(sa.2)) by (nonlinear_arith)
                requires
                    h <= sa.0,
            ;
            lemma_loop_count_bound(h, sa.1, sa.2, sb.0, sb.1, sb.2, m);
        } else {
            let h = ((sb.0 - sa.0) / 2) as nat;
            assert((sb.0 - sa.0) as nat == h * pow2(1));
            lemma_gcd_subtract_right(sa.0, sb.0);
            lemma_gcd_drop_pow2_right(sa.0, h, 1);
            assert(h * pow2(sb.2) <= sb.0 * pow2(sb.2) && h * pow2(m) <= sb.0 * pow2(m))
                by (nonlinear_arith)
                requires
                    h <= sb.0,
            ;
            lemma_loop_count_bound(sa.0, sa.1, sa.2, h, sb.1, sb.2, m);
        }
    }
}

/// The low zero bits of the lowest limb of a nonzero number: the number is a
/// multiple of `2^c` for every `c` up to their count, and when that limb is
/// not 0 the count is below 64 and dividing by `2^count` leaves an odd number.
proof fn lemma_low_limb_zero_bits_facts(x: nat, c: nat)
    requires
        x != 0,
        c <= low_limb_zero_bits(x),
    ensures
        x == (x / pow2(c)) * pow2(c),
        low_limb_zero_bits(x) <= 64,
        x % pow2(64) != 0 ==> low_limb_zero_bits(x) < 64,
        x % pow2(64) != 0 ==> (x / pow2(low_limb_zero_bits(x))) % 2 == 1,
{
    lemma_pow2_pos(c);
    lemma_pow2_pos(64);
    let q: nat;
    if x % pow2(64) == 0 {
        lemma_fundamental_div_mod(x as int, pow2(64) as int);
        let y = x / pow2(64);
        lemma_pow2_adds(c, (64 - c) as nat);
        q = y * pow2((64 - c) as nat);
        assert(x == q * pow2(c)) by (nonlinear_arith)
            requires
                x == pow2(64) * y,
                pow2(64) == pow2(c) * pow2((64 - c) as nat),
                q == y * pow2((64 - c) as nat),
        ;
    } else {
        let t = low_zero_bits(x);
        lemma_low_zero_bits_split(x);
        let x1 = x / pow2(t);
        if t >= 64 {
            lemma_pow2_adds(64, (t - 64) as nat);
            lemma_mod_multiples_basic((x1 * pow2((t - 64) as nat)) as int, pow2(64) as int);
            assert(x == (x1 * pow2((t - 64) as nat)) * pow2(64)) by (nonlinear_arith)
                requires
                    x == x1 * pow2(t),
                    pow2(t) == pow2(64) * pow2((t - 64) as nat),
            ;
            assert(false);
        }
        lemma_pow2_adds(c, (t - c) as nat);
        q = x1 * pow2((t - c) as nat);
        assert(x == q * pow2(c)) by (nonlinear_arith)
            requires
                x == x1 * pow2(t),
                pow2(t) == pow2(c) * pow2((t - c) as nat),
                q == x1 * pow2((t - c) as nat),
        ;
    }
    lemma_div_multiples_vanish(q as int, pow2(c) as int);
    assert(pow2(c) * q == q * pow2(c)) by (nonlinear_arith);
}

/// How far the limb count that `gcd` reports reaches: the result `g` needs
/// `gp[gn]` beside `gp[..gn]` only when its lowest nonzero limb has at least
/// two low zero bits. Put exactly, with `s` the number of low zero bits of
/// that limb (`low_zero_bits(g) mod 64`): `g < 2^(64 gn)` when `s` is 0, and
/// `2 g < 2^(64 gn + s)` otherwise; so for `s <= 1` the whole result is in
/// `gp[..gn]`.
#[verifier::rlimit(40)]
pub proof fn lemma_gcd_count_reach(a: Seq<u64>, b: Seq<u64>)
    requires
        1 <= b.len() <= a.len(),
        gcd_args_shiftable(a, b),
    ensures
        ({
            let g = gcd_result(limbs_value(a), limbs_value(b));
            let n = gcd_limb_count(a, b);
            &&& n >= 0
            &&& low_zero_bits(g) % 64 == 0 ==> g < limb_weight(n as nat)
            &&& low_zero_bits(g) % 64 >= 1 ==> 2 * g < limb_weight(n as nat) * pow2(
                low_zero_bits(g) % 64,
            )
            &&& low_zero_bits(g) % 64 <= 1 ==> g < limb_weight(n as nat)
        }),
{
    let va = limbs_value(a);
    let vb = limbs_value(b);
    let g = gcd_result(va, vb);
    let n = gcd_limb_count(a, b);
    lemma_value_bound(a);
    lemma_value_bound(b);
    lemma2_to64();
    lemma2_to64_rest();
    if va == 0 || vb == 0 {
        if vb != 0 {
            lemma_gcd_zero_left(vb);
        }
        assert(g <= vb);
        let s = low_zero_bits(g) % 64;
        lemma_pow2_pos(s);
        if s >= 1 {
            lemma_pow2_unfold(s);
            lemma_pow2_pos((s - 1) as nat);
            assert(2 * g < limb_weight(n as nat) * pow2(s)) by (nonlinear_arith)
                requires
                    g < limb_weight(n as nat),
                    pow2(s) == 2 * pow2((s - 1) as nat),
                    pow2((s - 1) as nat) >= 1,
            ;
        }
    } else {
        let ka = low_zero_limbs(va);
        let kb = low_zero_limbs(vb);
        let gc = if ka <= kb {
            ka
        } else {
            kb
        };
        lemma_low_zero_limbs_split(va);
        lemma_low_zero_limbs_split(vb);
        let qa = va / limb_weight(ka);
        let qb = vb / limb_weight(kb);
        lemma_limb_weight_adds(gc, (ka - gc) as nat);
        lemma_limb_weight_adds(gc, (kb - gc) as nat);
        lemma_limb_weight_succ(gc);
        lemma_limb_weight_succ((ka - gc) as nat);
        lemma_limb_weight_succ((kb - gc) as nat);
        let w = limb_weight(gc);
        let a1 = qa * limb_weight((ka - gc) as nat);
        let b1 = qb * limb_weight((kb - gc) as nat);
        assert(va == w * a1 && vb == w * b1) by (nonlinear_arith)
            requires
                va == qa * limb_weight(ka),
                vb == qb * limb_weight(kb),
                limb_weight(ka) == w * limb_weight((ka - gc) as nat),
                limb_weight(kb) == w * limb_weight((kb - gc) as nat),
                a1 == qa * limb_weight((ka - gc) as nat),
                b1 == qb * limb_weight((kb - gc) as nat),
        ;
        lemma_div_multiples_vanish(a1 as int, w as int);
        lemma_div_multiples_vanish(b1 as int, w as int);
        assert(va / w == a1 && vb / w == b1);
        assert(a1 >= 1 && b1 >= 1) by (nonlinear_arith)
            requires
                va == w * a1,
                vb == w * b1,
                va != 0,
                vb != 0,
        ;
        // what is left of each number fits in its limbs past the common ones
        if gc >= b.len() {
            lemma_limb_weight_monotone(b.len(), gc);
            assert(vb >= w) by (nonlinear_arith)
                requires
                    vb == w * b1,
                    b1 >= 1,
            ;
            assert(false);
        }
        let na = (a.len() - gc) as nat;
        let nb = (b.len() - gc) as nat;
        lemma_limb_weight_adds(gc, na);
        lemma_limb_weight_adds(gc, nb);
        assert(a1 < limb_weight(na) && b1 < limb_weight(nb)) by (nonlinear_arith)
            requires
                va == w * a1,
                vb == w * b1,
                va < limb_weight(a.len()),
                vb < limb_weight(b.len()),
                w * limb_weight(na) == limb_weight(a.len()),
                w * limb_weight(nb) == limb_weight(b.len()),
                w > 0,
        ;
        // the lowest limb of one of them is not 0
        if ka <= kb {
            assert(a1 == qa * 1);
            assert(a1 % pow2(64) != 0);
        } else {
            assert(b1 == qb * 1);
            assert(b1 % pow2(64) != 0);
        }
        let ta = low_limb_zero_bits(a1);
        let tb = low_limb_zero_bits(b1);
        let t = if ta <= tb {
            ta
        } else {
            tb
        };
        lemma_low_limb_zero_bits_facts(a1, t);
        lemma_low_limb_zero_bits_facts(b1, t);
        assert(t < 64);
        let a2 = a1 / pow2(t);
        let b2 = b1 / pow2(t);
        assert(a2 % 2 == 1 || b2 % 2 == 1);
        let m: nat = if t == 0 {
            0
        } else {
            1
        };
        lemma_pow2_pos(t);
        if t >= 1 {
            lemma_pow2_unfold(t);
            lemma_pow2_pos((t - 1) as nat);
        }
        assert(pow2(m) <= pow2(t));
        assert(b2 * pow2(m) <= b2 * pow2(t)) by (nonlinear_arith)
            requires
                pow2(m) <= pow2(t),
        ;
        lemma_loop_count_bound(a2, na as int, t, b2, nb as int, t, m);
        let count = loop_limb_count(a2, na as int, t, b2, nb as int, t);
        assert(n == gc + count);
        lemma_common_factors(va, vb, a1, b1, a2, b2, gc, t);
        // the result is an odd number times 2^(64 gc + t)
        let g1 = gcd_result(a2, b2);
        assert(b2 != 0);
        lemma_gcd_divides(a2, b2);
        if a2 % 2 == 1 {
            lemma_divisor_of_odd_is_odd(g1, a2);
        } else {
            lemma_divisor_of_odd_is_odd(g1, b2);
        }
        let big_t = 64 * gc + t;
        assert(w == pow2(64 * gc));
        lemma_pow2_adds(64 * gc, t);
        assert(g == g1 * pow2(big_t)) by (nonlinear_arith)
            requires
                g == w * pow2(t) * g1,
                w * pow2(t) == pow2(big_t),
        ;
        lemma_pow2_pos(big_t);
        lemma_mod_multiples_basic(g1 as int, pow2(big_t) as int);
        lemma_div_multiples_vanish(g1 as int, pow2(big_t) as int);
        assert(pow2(big_t) * g1 == g1 * pow2(big_t)) by (nonlinear_arith);
        lemma_low_zero_bits(g, big_t);
        lemma_mod_multiples_vanish(gc as int, t as int, 64);
        lemma_small_mod(t, 64);
        assert(low_zero_bits(g) % 64 == t);
        lemma_limb_weight_adds(gc, count as nat);
        if t == 0 {
            assert(g < limb_weight(n as nat)) by (nonlinear_arith)
                requires
                    g == w * pow2(t) * g1,
                    pow2(t) == 1,
                    g1 * pow2(m) < limb_weight(count as nat),
                    pow2(m) == 1,
                    w * limb_weight(count as nat) == limb_weight(n as nat),
                    w > 0,
            ;
        } else {
            assert(2 * g < limb_weight(n as nat) * pow2(t)) by (nonlinear_arith)
                requires
                    g == w * pow2(t) * g1,
                    g1 * 2 < limb_weight(count as nat),
                    w * limb_weight(count as nat) == limb_weight(n as nat),
                    w > 0,
                    pow2(t) > 0,
            ;
            if t == 1 {
                assert(g < limb_weight(n as nat));
            }
        }
    }
}

/// Dividing `wa` by `2^k` keeps the result against `wb`, when `wb` is odd
/// whenever `wa` is even and both are nonzero.
proof fn lemma_remove_factor_left(wa: nat, wa2: nat, wb: nat, k: nat)
    requires
        wa == wa2 * pow2(k),
        (wa != 0 && wb != 0) ==> (wa % 2 == 1 || wb % 2 == 1),
    ensures
        gcd_result(wa, wb) == gcd_result(wa2, wb),
        (wa2 != 0 && wb != 0) ==> (wa2 % 2 == 1 || wb % 2 == 1),
        wa2 <= wa,
{
    lemma_pow2_pos(k);
    assert(wa2 <= wa) by (nonlinear_arith)
        requires
            wa == wa2 * pow2(k),
            pow2(k) > 0,
    ;
    if wb != 0 {
        if k == 0 {
            lemma2_to64();
            assert(wa == wa2);
        } else if wa == 0 {
            assert(wa2 == 0) by (nonlinear_arith)
                requires
                    wa == wa2 * pow2(k),
                    wa == 0,
                    pow2(k) > 0,
            {
            }
        } else {
            lemma_pow2_unfold(k);
            let p = pow2((k - 1) as nat);
            assert(wa == 2 * (wa2 * p)) by (nonlinear_arith)
                requires
                    wa == wa2 * pow2(k),
                    pow2(k) == 2 * p,
            ;
            lemma_mod_multiples_basic((wa2 * p) as int, 2);
            assert((wa2 * p) * 2 == 2 * (wa2 * p)) by (nonlinear_arith);
            lemma_gcd_drop_pow2(wa2, wb, k);
        }
    }
}

/// Dividing `wb` by `2^k` keeps the result against an odd `wa`.
proof fn lemma_remove_factor_right(wa: nat, wb: nat, wb2: nat, k: nat)
    requires
        wb == wb2 * pow2(k),
        wa % 2 == 1,
    ensures
        gcd_result(wa, wb) == gcd_result(wa, wb2),
        wb2 <= wb,
{
    lemma_pow2_pos(k);
    assert(wb2 <= wb) by (nonlinear_arith)
        requires
            wb == wb2 * pow2(k),
            pow2(k) > 0,
    ;
    if wb == 0 {
        assert(wb2 == 0) by (nonlinear_arith)
            requires
                wb == wb2 * pow2(k),
                wb == 0,
                pow2(k) > 0,
        ;
    } else {
        assert(wb2 != 0);
        lemma_gcd_drop_pow2_right(wa, wb2, k);
    }
}

/// A limb whose lowest bit is set is odd.
proof fn lemma_low_bit(v: u64)
    ensures
        (v & 1 == 1) == ((v as nat) % 2 == 1),
        (v >> 0u64) == v,
{
    assert((v & 1 == 1) == (v % 2 == 1)) by (bit_vector);
    assert((v >> 0u64) == v) by (bit_vector);
}

/// Limbs that are 0 below index `gc`, followed by a window of `m` limbs, are
/// worth `2^(64 gc)` times the window.
proof fn lemma_zeros_then_window(s: Seq<u64>, gc: int, m: int)
    requires
        0 <= gc,
        0 <= m,
        gc + m <= s.len(),
        forall|j: int| 0 <= j < gc ==> #[trigger] s[j] == 0,
    ensures
        limbs_value(s.take(gc + m)) == limb_weight(gc as nat) * window_value(s, gc, m),
{
    let t = s.take(gc + m);
    lemma_value_split(t, gc);
    lemma_value_zero(t.take(gc));
    assert(t.skip(gc) =~= window(s, gc, m));
}

/// After the common low zero limbs are taken out, the count of them is the
/// smaller count of low zero limbs of the two numbers, and what is left of
/// each is the number divided by `2^(64 gc)`.
proof fn lemma_common_low_limbs(va: nat, vb: nat, wa: nat, wb: nat, gc: nat, x0: u64, y0: u64)
    requires
        va == limb_weight(gc) * wa,
        vb == limb_weight(gc) * wb,
        va != 0,
        vb != 0,
        wa % pow2(64) == x0 as nat,
        wb % pow2(64) == y0 as nat,
        x0 != 0 || y0 != 0,
    ensures
        gc == (if low_zero_limbs(va) <= low_zero_limbs(vb) {
            low_zero_limbs(va)
        } else {
            low_zero_limbs(vb)
        }),
        va / limb_weight(gc) == wa,
        vb / limb_weight(gc) == wb,
{
    lemma_limb_weight_succ(gc);
    assert(wa != 0 && wb != 0) by (nonlinear_arith)
        requires
            va == limb_weight(gc) * wa,
            vb == limb_weight(gc) * wb,
            va != 0,
            vb != 0,
    ;
    assert(va == wa * limb_weight(gc) && vb == wb * limb_weight(gc)) by (nonlinear_arith)
        requires
            va == limb_weight(gc) * wa,
            vb == limb_weight(gc) * wb,
    ;
    lemma_low_zero_limbs_scaled(wa, gc);
    lemma_low_zero_limbs_scaled(wb, gc);
    if x0 != 0 {
        assert(low_zero_limbs(wa) == 0);
    } else {
        assert(low_zero_limbs(wb) == 0);
    }
}

/// Copies the first `n` limbs of `s` into a new vector.
fn limbs_to_vec(s: &[u64], n: usize) -> (v: Vec<u64>)
    requires
        n <= s.len(),
    ensures
        v@ == s@.take(n as int),
{
    let mut v: Vec<u64> = Vec::new();
    let mut i: usize = 0;
    while i < n
        invariant
            n <= s.len(),
            i <= n,
            v@ == s@.take(i as int),
        decreases n - i,
    {
        v.push(s[i]);
        i = i + 1;
        assert(v@ =~= s@.take(i as int));
    }
    v
}


/// Makes the window odd, as the binary algorithm does with each number: drops
/// its low limbs that are 0, lowering the limb count `n` by one for each, then
/// shifts out its low zero bits and adds their number to the shifted-bit count
/// `c`; when that count passes 64, the limb count goes down by one and the bit
/// count by 65. The window must not be worth 0, and must be worth less than
/// `2^(64 n - c)`, which it still is afterwards.
fn make_odd(x: &mut Vec<u64>, off: &mut usize, n: &mut usize, c: &mut u32)
    requires
        1 <= *old(n),
        *old(off) + *old(n) <= old(x)@.len(),
        window_value(old(x)@, *old(off) as int, *old(n) as int) != 0,
        *old(c) <= 64,
        window_value(old(x)@, *old(off) as int, *old(n) as int) * pow2(*old(c) as nat)
            < limb_weight(*old(n) as nat),
    ensures
        final(x)@.len() == old(x)@.len(),
        *old(off) <= *final(off),
        *final(off) + *final(n) <= *old(off) + *old(n),
        1 <= *final(n),
        *final(c) <= 64,
        window_value(final(x)@, *final(off) as int, *final(n) as int) * pow2(*final(c) as nat)
            < limb_weight(*final(n) as nat),
        window_value(final(x)@, *final(off) as int, *final(n) as int) % 2 == 1,
        odd_step(window_value(old(x)@, *old(off) as int, *old(n) as int), *old(n) as int, *old(c) as nat)
            == (window_value(final(x)@, *final(off) as int, *final(n) as int), *final(n) as int, *final(c) as nat),
        window_value(old(x)@, *old(off) as int, *old(n) as int) == window_value(
            final(x)@,
            *final(off) as int,
            *final(n) as int,
        ) * pow2(odd_step_shift(window_value(old(x)@, *old(off) as int, *old(n) as int))),
{
    let ghost off0 = *off;
    let ghost n0 = *n;
    let ghost c0 = *c;
    let ghost v0 = window_value(x@, *off as int, *n as int);
    strip_low_zero_limbs(x, off, n);
    let ghost m = (*off - off0) as nat;
    let ghost n1 = *n;
    let ghost v1 = window_value(x@, *off as int, *n as int);
    let ghost x0 = x@[*off as int];
    proof {
        lemma_limb_weight_succ(m);
        lemma_pow2_pos(c0 as nat);
        assert(v1 != 0) by (nonlinear_arith)
            requires
                v0 == limb_weight(m) * v1,
                v0 != 0,
        ;
        lemma_window_low_mod(x@, *off as int, *n as int, 64);
        lemma2_to64_rest();
        lemma_small_mod(x0 as nat, pow2(64));
        assert(v1 % pow2(64) != 0);
        assert(low_zero_limbs(v1) == 0);
        lemma_low_zero_limbs_scaled(v1, m);
        assert(v0 == v1 * limb_weight(m)) by (nonlinear_arith)
            requires
                v0 == limb_weight(m) * v1,
        ;
        lemma_limb_weight_adds(m, n1 as nat);
        assert(v1 * pow2(c0 as nat) < limb_weight(n1 as nat)) by (nonlinear_arith)
            requires
                v0 == limb_weight(m) * v1,
                v0 * pow2(c0 as nat) < limb_weight(n0 as nat),
                limb_weight(m) * limb_weight(n1 as nat) == limb_weight(n0 as nat),
                limb_weight(m) > 0,
        ;
    }
    let t: u32 = x[*off].trailing_zeros();
    proof {
        lemma_window_low_limb_zero_bits(x@, *off as int, *n as int);
        lemma_trailing_zeros(x0, 0);
        lemma_trailing_zeros(x0, t as nat);
        assert(low_zero_bits(v1) == t);
        lemma_pow2_pos(t as nat);
    }
    if t > 0 {
        shr(x, *off, *n, t);
        *c = *c + t;
        if *c > 64 {
            proof {
                let v2 = window_value(x@, *off as int, *n as int);
                let c1 = (c0 + t - 65) as nat;
                assert(v1 == v2 * pow2(t as nat));
                lemma_pow2_adds(c0 as nat, t as nat);
                lemma_pow2_adds(c1, 64);
                lemma_pow2_unfold((c1 + 65) as nat);
                assert((c1 + 65) as nat == c0 + t);
                lemma_limb_weight_succ((n1 - 1) as nat);
                lemma_limb_weight_succ(0);
                lemma_pow2_pos(c1);
                let p = pow2(c1);
                let big = pow2(64);
                assert(v2 * p < limb_weight((n1 - 1) as nat) && v2 < limb_weight((n1 - 1) as nat))
                    by (nonlinear_arith)
                    requires
                        v1 * pow2(c0 as nat) < limb_weight(n1 as nat),
                        v1 == v2 * pow2(t as nat),
                        pow2(c0 as nat) * pow2(t as nat) == pow2((c0 + t) as nat),
                        pow2((c0 + t) as nat) == 2 * pow2((c1 + 64) as nat),
                        p * big == pow2((c1 + 64) as nat),
                        limb_weight(n1 as nat) == limb_weight((n1 - 1) as nat) * big,
                        big > 0,
                        p > 0,
                ;
                assert(v2 % 2 == 1) by {
                    lemma_low_bit(x0);
                    lemma_low_bit(x@[*off as int]);
                    lemma_window_low_mod(x@, *off as int, *n as int, 1);
                    lemma2_to64();
                }
                assert(n1 >= 2) by (nonlinear_arith)
                    requires
                        v2 * p < limb_weight((n1 - 1) as nat),
                        v2 % 2 == 1,
                        p > 0,
                        n1 >= 1,
                        limb_weight(0) == 1,
                {
                    if n1 == 1 {
                        assert(v2 * p >= 1);
                    }
                }
                lemma_window_top(x@, *off as int, *n as int);
            }
            *n = *n - 1;
            *c = *c % 65;
        }
    }
    proof {
        let v2 = window_value(x@, *off as int, *n as int);
        lemma_low_bit(x0);
        lemma_low_bit(x@[*off as int]);
        lemma_window_low_mod(x@, *off as int, *n as int, 1);
        lemma2_to64();
        if t == 0 {
            assert(v2 == v1 * 1);
        } else {
            assert(v1 == v2 * pow2(t as nat));
        }
        assert(v1 == v2 * pow2(t as nat));
        lemma_div_multiples_vanish(v2 as int, pow2(t as nat) as int);
        assert(pow2(t as nat) * v2 == v2 * pow2(t as nat)) by (nonlinear_arith);
        assert(v1 / pow2(t as nat) == v2);
        assert(v2 % 2 == 1);
        if t > 0 && c0 + t <= 64 {
            lemma_pow2_adds(c0 as nat, t as nat);
            assert(v2 * pow2((c0 + t) as nat) < limb_weight(n1 as nat)) by (nonlinear_arith)
                requires
                    v1 * pow2(c0 as nat) < limb_weight(n1 as nat),
                    v1 == v2 * pow2(t as nat),
                    pow2(c0 as nat) * pow2(t as nat) == pow2((c0 + t) as nat),
            ;
        }
        assert(odd_step(v0, n0 as int, c0 as nat).0 == v2);
        assert(limb_weight(m) == pow2(64 * m));
        lemma_pow2_adds(64 * m, t as nat);
        assert(v0 == v2 * pow2(odd_step_shift(v0))) by (nonlinear_arith)
            requires
                v0 == v1 * pow2(64 * m),
                v1 == v2 * pow2(t as nat),
                pow2(64 * m) * pow2(t as nat) == pow2(odd_step_shift(v0)),
        ;
    }
}

/// The loop of the binary algorithm on two windows, the window of `x` with
/// limb count `an` and shifted-bit count `ac`, the window of `y` with `bn` and
/// `bc`: while neither is worth 0, both are made odd, and the larger is
/// replaced by half the difference. The window of `y` ends up holding what
/// `gcd` gives for the two starting numbers, which must not both be even
/// unless one is 0, and its limb count is `loop_limb_count` of the start.
#[verifier::rlimit(40)]
fn subtract_and_halve(
    x: &mut Vec<u64>,
    a_off: &mut usize,
    an: &mut usize,
    ac: &mut u32,
    y: &mut Vec<u64>,
    b_off: &mut usize,
    bn: &mut usize,
    bc: &mut u32,
)
    requires
        1 <= *old(an),
        *old(a_off) + *old(an) <= old(x)@.len(),
        *old(ac) <= 64,
        window_value(old(x)@, *old(a_off) as int, *old(an) as int) * pow2(*old(ac) as nat)
            < limb_weight(*old(an) as nat),
        1 <= *old(bn),
        *old(b_off) + *old(bn) <= old(y)@.len(),
        *old(bc) <= 64,
        window_value(old(y)@, *old(b_off) as int, *old(bn) as int) * pow2(*old(bc) as nat)
            < limb_weight(*old(bn) as nat),
        (window_value(old(x)@, *old(a_off) as int, *old(an) as int) != 0 && window_value(
            old(y)@,
            *old(b_off) as int,
            *old(bn) as int,
        ) != 0) ==> (window_value(old(x)@, *old(a_off) as int, *old(an) as int) % 2 == 1
            || window_value(old(y)@, *old(b_off) as int, *old(bn) as int) % 2 == 1),
    ensures
        final(x)@.len() == old(x)@.len(),
        final(y)@.len() == old(y)@.len(),
        1 <= *final(bn),
        *old(b_off) <= *final(b_off),
        *final(b_off) + *final(bn) <= *old(b_off) + *old(bn),
        window_value(final(y)@, *final(b_off) as int, *final(bn) as int) == gcd_result(
            window_value(old(x)@, *old(a_off) as int, *old(an) as int),
            window_value(old(y)@, *old(b_off) as int, *old(bn) as int),
        ),
        *final(bn) as int == loop_limb_count(
            window_value(old(x)@, *old(a_off) as int, *old(an) as int),
            *old(an) as int,
            *old(ac) as nat,
            window_value(old(y)@, *old(b_off) as int, *old(bn) as int),
            *old(bn) as int,
            *old(bc) as nat,
        ),
{
    let ghost lx = x@.len();
    let ghost ly = y@.len();
    let ghost b_off0 = *b_off;
    let ghost bn0 = *bn;
    let ghost wa0 = window_value(x@, *a_off as int, *an as int);
    let ghost wb0 = window_value(y@, *b_off as int, *bn as int);
    let ghost target = gcd_result(wa0, wb0);
    let ghost count = loop_limb_count(wa0, *an as int, *ac as nat, wb0, *bn as int, *bc as nat);
    while *an > 0 && !is_zero(x, *a_off, *an)
        invariant
            x@.len() == lx,
            y@.len() == ly,
            1 <= *an,
            *a_off + *an <= lx,
            *ac <= 64,
            window_value(x@, *a_off as int, *an as int) * pow2(*ac as nat) < limb_weight(
                *an as nat,
            ),
            1 <= *bn,
            b_off0 <= *b_off,
            *b_off + *bn <= b_off0 + bn0,
            b_off0 + bn0 <= ly,
            *bc <= 64,
            window_value(y@, *b_off as int, *bn as int) * pow2(*bc as nat) < limb_weight(
                *bn as nat,
            ),
            target == gcd_result(
                window_value(x@, *a_off as int, *an as int),
                window_value(y@, *b_off as int, *bn as int),
            ),
            count == loop_limb_count(
                window_value(x@, *a_off as int, *an as int),
                *an as int,
                *ac as nat,
                window_value(y@, *b_off as int, *bn as int),
                *bn as int,
                *bc as nat,
            ),
            (window_value(x@, *a_off as int, *an as int) != 0 && window_value(
                y@,
                *b_off as int,
                *bn as int,
            ) != 0) ==> (window_value(x@, *a_off as int, *an as int) % 2 == 1 || window_value(
                y@,
                *b_off as int,
                *bn as int,
            ) % 2 == 1),
        ensures
            window_value(x@, *a_off as int, *an as int) == 0 || window_value(
                y@,
                *b_off as int,
                *bn as int,
            ) == 0,
        decreases window_value(x@, *a_off as int, *an as int) + window_value(
            y@,
            *b_off as int,
            *bn as int,
        ),
    {
        let ghost wa1 = window_value(x@, *a_off as int, *an as int);
        let ghost wb1 = window_value(y@, *b_off as int, *bn as int);
        let ghost an1 = *an;
        let ghost ac1 = *ac;
        let ghost bn1 = *bn;
        let ghost bc1 = *bc;
        make_odd(x, a_off, an, ac);
        let ghost wa = window_value(x@, *a_off as int, *an as int);
        proof {
            lemma_remove_factor_left(wa1, wa, wb1, odd_step_shift(wa1));
        }
        if is_zero(y, *b_off, *bn) {
            break;
        }
        make_odd(y, b_off, bn, bc);
        let ghost wb = window_value(y@, *b_off as int, *bn as int);
        proof {
            lemma_remove_factor_right(wa, wb1, wb, odd_step_shift(wb1));
            crate::ll::limb_count::lemma_odd_step_le(wa1, an1 as int, ac1 as nat);
            crate::ll::limb_count::lemma_odd_step_le(wb1, bn1 as int, bc1 as nat);
        }

        // Compare by size first, then limb by limb.
        let mut na: usize = *an;
        let mut nb: usize = *bn;
        drop_high_zero_limbs(x, *a_off, &mut na);
        drop_high_zero_limbs(y, *b_off, &mut nb);
        proof {
            lemma_window_top(x@, *a_off as int, na as int);
            lemma_window_top(y@, *b_off as int, nb as int);
            lemma_window_bound(x@, *a_off as int, na as int);
            lemma_window_bound(y@, *b_off as int, nb as int);
            if na > nb {
                lemma_limb_weight_monotone(nb as nat, (na - 1) as nat);
            }
            if na < nb {
                lemma_limb_weight_monotone(na as nat, (nb - 1) as nat);
            }
        }
        let a_ge_b: bool = if na == nb {
            greater_or_equal(x, *a_off, y, *b_off, na)
        } else {
            na > nb
        };
        proof {
            assert(a_ge_b == (wa >= wb));
        }
        if a_ge_b {
            crate::ll::limbs::sub(x, *a_off, *an, y, *b_off, nb);
            proof {
                lemma_window_low_mod(x@, *a_off as int, *an as int, 1);
                lemma2_to64();
                assert((wa - wb) % 2 == 0);
            }
            shr(x, *a_off, *an, 1);
            proof {
                let h = window_value(x@, *a_off as int, *an as int);
                assert((wa - wb) as nat == h * pow2(1));
                lemma_gcd_subtract(wa, wb);
                lemma_gcd_drop_pow2(h, wb, 1);
                assert(h < wa);
                assert(h == ((wa - wb) / 2) as nat);
                lemma_pow2_pos(*ac as nat);
                assert(h * pow2(*ac as nat) <= wa * pow2(*ac as nat)) by (nonlinear_arith)
                    requires
                        h < wa,
                ;
            }
        } else {
            crate::ll::limbs::sub(y, *b_off, *bn, x, *a_off, na);
            proof {
                lemma_window_low_mod(y@, *b_off as int, *bn as int, 1);
                lemma2_to64();
                assert((wb - wa) % 2 == 0);
            }
            shr(y, *b_off, *bn, 1);
            proof {
                let h = window_value(y@, *b_off as int, *bn as int);
                assert((wb - wa) as nat == h * pow2(1));
                lemma_gcd_subtract_right(wa, wb);
                lemma_gcd_drop_pow2_right(wa, h, 1);
                assert(h < wb);
                assert(h != 0);
                assert(h == ((wb - wa) / 2) as nat);
                lemma_pow2_pos(*bc as nat);
                assert(h * pow2(*bc as nat) <= wb * pow2(*bc as nat)) by (nonlinear_arith)
                    requires
                        h < wb,
                ;
            }
        }
    }
    proof {
        let wb = window_value(y@, *b_off as int, *bn as int);
        if window_value(x@, *a_off as int, *an as int) == 0 && wb != 0 {
            lemma_gcd_zero_left(wb);
        }
    }
}

/// Writes `2^(64 gc) * 2^t * w` into `gp`, `w` being the `nb`-limb window of `y`
/// at `b_off`: `gc` zero limbs, then the window shifted left by `t` bits, then,
/// when they are not 0, the bits shifted out of its top limb in one more limb.
/// Returns `gc + nb`, which does not count that last limb; the limbs of `gp`
/// past those written are kept.
fn put_back_common_factors(
    gp: &mut Vec<u64>,
    gc: usize,
    y: &Vec<u64>,
    b_off: usize,
    nb: usize,
    t: u32,
    m: usize,
) -> (gn: usize)
    requires
        t < 64,
        1 <= nb,
        b_off + nb <= y@.len(),
        gc + nb <= m,
        m <= old(gp)@.len(),
        limb_weight(gc as nat) * pow2(t as nat) * window_value(y@, b_off as int, nb as int)
            < limb_weight(m as nat),
    ensures
        gn == gc + nb,
        final(gp)@.len() == old(gp)@.len(),
        limb_weight(gc as nat) * pow2(t as nat) * window_value(y@, b_off as int, nb as int)
            < limb_weight(gn as nat) ==> {
            &&& limbs_value(final(gp)@.take(gn as int)) == limb_weight(gc as nat) * pow2(t as nat)
                * window_value(y@, b_off as int, nb as int)
            &&& forall|i: int| gn <= i < old(gp)@.len() ==> #[trigger] final(gp)@[i] == old(gp)@[i]
        },
        limb_weight(gc as nat) * pow2(t as nat) * window_value(y@, b_off as int, nb as int)
            >= limb_weight(gn as nat) ==> {
            &&& gn < m
            &&& limbs_value(final(gp)@.take(gn + 1)) == limb_weight(gc as nat) * pow2(t as nat)
                * window_value(y@, b_off as int, nb as int)
            &&& forall|i: int| gn < i < old(gp)@.len() ==> #[trigger] final(gp)@[i] == old(gp)@[i]
        },
{
    let ghost wb = window_value(y@, b_off as int, nb as int);
    let ghost w = limb_weight(gc as nat);
    let ghost p = pow2(t as nat);
    let ghost g0 = gp@;
    proof {
        lemma_limb_weight_succ(gc as nat);
        lemma_pow2_pos(t as nat);
        lemma_limb_weight_adds(gc as nat, nb as nat);
    }
    let mut i: usize = 0;
    while i < gc
        invariant
            gc + nb <= m,
            m <= g0.len(),
            gp@.len() == g0.len(),
            i <= gc,
            forall|j: int| 0 <= j < i ==> #[trigger] gp@[j] == 0,
            forall|j: int| i <= j < g0.len() ==> #[trigger] gp@[j] == g0[j],
        decreases gc - i,
    {
        gp.set(i, 0);
        i = i + 1;
    }
    let gn: usize = gc + nb;
    if t > 0 {
        let v = shl(gp, gc, y, b_off, nb, t);
        let ghost wv = window_value(gp@, gc as int, nb as int);
        proof {
            lemma_zeros_then_window(gp@, gc as int, nb as int);
            lemma_window_bound(gp@, gc as int, nb as int);
            assert(w * p * wb == w * wv + (v as nat) * (w * limb_weight(nb as nat))) by (nonlinear_arith)
                requires
                    wv + (v as nat) * limb_weight(nb as nat) == wb * p,
            ;
            assert(w * wv < limb_weight(gn as nat)) by (nonlinear_arith)
                requires
                    wv < limb_weight(nb as nat),
                    w > 0,
                    w * limb_weight(nb as nat) == limb_weight(gn as nat),
            ;
            if v > 0 {
                assert(w * p * wb >= limb_weight(gn as nat)) by (nonlinear_arith)
                    requires
                        w * p * wb == w * wv + (v as nat) * (w * limb_weight(nb as nat)),
                        v >= 1,
                        w * limb_weight(nb as nat) == limb_weight(gn as nat),
                ;
                if gn >= m {
                    lemma_limb_weight_monotone(m as nat, gn as nat);
                }
                assert(gn < m);
            } else {
                assert((v as nat) * (w * limb_weight(nb as nat)) == 0) by (nonlinear_arith)
                    requires
                        v == 0,
                ;
            }
        }
        if v > 0 {
            let ghost g2 = gp@;
            gp.set(gn, v);
            proof {
                assert(window(gp@, gc as int, nb as int + 1) =~= window(g2, gc as int, nb as int).push(v));
                lemma_value_push(window(g2, gc as int, nb as int), v);
                lemma_zeros_then_window(gp@, gc as int, nb as int + 1);
                assert(w * (wv + (v as nat) * limb_weight(nb as nat)) == w * wv + (v as nat) * (w
                    * limb_weight(nb as nat))) by (nonlinear_arith);
            }
        }
    } else {
        copy_incr(gp, gc, y, b_off, nb);
        proof {
            lemma2_to64();
            assert(p == 1);
            assert(w * p * wb == w * wb) by (nonlinear_arith)
                requires
                    p == 1,
            ;
            lemma_zeros_then_window(gp@, gc as int, nb as int);
            lemma_window_bound(y@, b_off as int, nb as int);
            assert(w * wb < limb_weight(gn as nat)) by (nonlinear_arith)
                requires
                    wb < limb_weight(nb as nat),
                    w > 0,
                    w * limb_weight(nb as nat) == limb_weight(gn as nat),
            ;
        }
    }
    gn
}

/// Moves the start of both windows past the low limbs that are 0 in both
/// numbers, as long as neither is 0, and returns how many limbs were passed;
/// the limb counts `na`, `nb` go down by as many.
fn strip_common_low_zero_limbs(x: &Vec<u64>, y: &Vec<u64>, na: &mut usize, nb: &mut usize) -> (gc: usize)
    requires
        1 <= *old(nb) <= *old(na),
        x@.len() == *old(na),
        y@.len() == *old(nb),
    ensures
        1 <= *final(nb) <= *final(na),
        gc + *final(na) == x@.len(),
        gc + *final(nb) == y@.len(),
        limbs_value(x@) == limb_weight(gc as nat) * window_value(x@, gc as int, *final(na) as int),
        limbs_value(y@) == limb_weight(gc as nat) * window_value(y@, gc as int, *final(nb) as int),
        (limbs_value(x@) == 0 || limbs_value(y@) == 0) ==> gc == 0,
        (limbs_value(x@) != 0 && limbs_value(y@) != 0) ==> (x@[gc as int] != 0 || y@[gc as int]
            != 0),
        (limbs_value(x@) != 0 && limbs_value(y@) != 0) ==> gc == (if low_zero_limbs(limbs_value(x@))
            <= low_zero_limbs(limbs_value(y@)) {
            low_zero_limbs(limbs_value(x@))
        } else {
            low_zero_limbs(limbs_value(y@))
        }),
        (limbs_value(x@) != 0 && limbs_value(y@) != 0) ==> limbs_value(x@) / limb_weight(gc as nat)
            == window_value(x@, gc as int, *final(na) as int),
        (limbs_value(x@) != 0 && limbs_value(y@) != 0) ==> limbs_value(y@) / limb_weight(gc as nat)
            == window_value(y@, gc as int, *final(nb) as int),
{
    let ghost va = limbs_value(x@);
    let ghost vb = limbs_value(y@);
    proof {
        assert(window(x@, 0, x@.len() as int) =~= x@);
        assert(window(y@, 0, y@.len() as int) =~= y@);
        lemma_limb_weight_succ(0);
        assert(1 * va == va);
        assert(1 * vb == vb);
    }
    let mut gc: usize = 0;
    while x[gc] == 0 && !is_zero(x, gc, *na) && y[gc] == 0 && !is_zero(y, gc, *nb)
        invariant
            1 <= *nb <= *na,
            gc + *na == x@.len(),
            gc + *nb == y@.len(),
            gc + *na == x.len(),
            va == limbs_value(x@),
            vb == limbs_value(y@),
            va == limb_weight(gc as nat) * window_value(x@, gc as int, *na as int),
            vb == limb_weight(gc as nat) * window_value(y@, gc as int, *nb as int),
            (va == 0 || vb == 0) ==> gc == 0,
        decreases *nb,
    {
        proof {
            lemma_window_strip_low(x@, gc as int, *na as int);
            lemma_window_strip_low(y@, gc as int, *nb as int);
            lemma_limb_weight_adds(gc as nat, 1);
            lemma_limb_weight_succ(gc as nat);
            let w = limb_weight(gc as nat);
            let w1 = limb_weight(1);
            let wa = window_value(x@, gc + 1, *na - 1);
            let wb = window_value(y@, gc + 1, *nb - 1);
            assert(w * (w1 * wa) == limb_weight((gc + 1) as nat) * wa) by (nonlinear_arith)
                requires
                    w * w1 == limb_weight((gc + 1) as nat),
            ;
            assert(w * (w1 * wb) == limb_weight((gc + 1) as nat) * wb) by (nonlinear_arith)
                requires
                    w * w1 == limb_weight((gc + 1) as nat),
            ;
            let xa = window_value(x@, gc as int, *na as int);
            let yb = window_value(y@, gc as int, *nb as int);
            assert(w * xa != 0 && w * yb != 0) by (nonlinear_arith)
                requires
                    w > 0,
                    xa != 0,
                    yb != 0,
            ;
        }
        gc = gc + 1;
        *na = *na - 1;
        *nb = *nb - 1;
    }
    proof {
        if va != 0 && vb != 0 {
            lemma_limb_weight_succ(gc as nat);
            let w = limb_weight(gc as nat);
            let xa = window_value(x@, gc as int, *na as int);
            let yb = window_value(y@, gc as int, *nb as int);
            assert(xa != 0 && yb != 0) by (nonlinear_arith)
                requires
                    va == w * xa,
                    vb == w * yb,
                    va != 0,
                    vb != 0,
            ;
            let x0 = x@[gc as int];
            let y0 = y@[gc as int];
            lemma_window_low_mod(x@, gc as int, *na as int, 64);
            lemma_window_low_mod(y@, gc as int, *nb as int, 64);
            lemma2_to64_rest();
            lemma_small_mod(x0 as nat, pow2(64));
            lemma_small_mod(y0 as nat, pow2(64));
            lemma_common_low_limbs(va, vb, xa, yb, gc as nat, x0, y0);
        }
    }
    gc
}

/// Shifts both windows right by the smaller count of low zero bits of their
/// lowest limbs, which must not both be 0, and returns that count.
fn shift_out_common_low_zero_bits(x: &mut Vec<u64>, y: &mut Vec<u64>, gc: usize, na: usize, nb: usize) -> (t: u32)
    requires
        1 <= na,
        1 <= nb,
        gc + na <= old(x)@.len(),
        gc + nb <= old(y)@.len(),
        old(x)@[gc as int] != 0 || old(y)@[gc as int] != 0,
    ensures
        final(x)@.len() == old(x)@.len(),
        final(y)@.len() == old(y)@.len(),
        t < 64,
        t == (if low_limb_zero_bits(window_value(old(x)@, gc as int, na as int))
            <= low_limb_zero_bits(window_value(old(y)@, gc as int, nb as int)) {
            low_limb_zero_bits(window_value(old(x)@, gc as int, na as int))
        } else {
            low_limb_zero_bits(window_value(old(y)@, gc as int, nb as int))
        }),
        window_value(old(x)@, gc as int, na as int) == window_value(final(x)@, gc as int, na as int)
            * pow2(t as nat),
        window_value(old(y)@, gc as int, nb as int) == window_value(final(y)@, gc as int, nb as int)
            * pow2(t as nat),
        (window_value(final(x)@, gc as int, na as int) != 0 && window_value(
            final(y)@,
            gc as int,
            nb as int,
        ) != 0) ==> (window_value(final(x)@, gc as int, na as int) % 2 == 1 || window_value(
            final(y)@,
            gc as int,
            nb as int,
        ) % 2 == 1),
{
    let ta: u32 = x[gc].trailing_zeros();
    let tb: u32 = y[gc].trailing_zeros();
    let trailing: u32 = if ta <= tb {
        ta
    } else {
        tb
    };
    let ghost x0 = x@[gc as int];
    let ghost y0 = y@[gc as int];
    let ghost wa0 = window_value(x@, gc as int, na as int);
    let ghost wb0 = window_value(y@, gc as int, nb as int);
    proof {
        lemma_window_low_limb_zero_bits(x@, gc as int, na as int);
        lemma_window_low_limb_zero_bits(y@, gc as int, nb as int);
        lemma_trailing_zeros(x0, 0);
        lemma_trailing_zeros(y0, 0);
        lemma_trailing_zeros(x0, trailing as nat);
        lemma_trailing_zeros(y0, trailing as nat);
        assert(trailing < 64);
    }
    if trailing > 0 {
        shr(x, gc, na, trailing);
        shr(y, gc, nb, trailing);
    }
    proof {
        let wa = window_value(x@, gc as int, na as int);
        let wb = window_value(y@, gc as int, nb as int);
        let p = pow2(trailing as nat);
        lemma_pow2_pos(trailing as nat);
        if trailing > 0 {
            assert((x0 as nat) % p == 0 && (y0 as nat) % p == 0);
            assert(wa0 == wa * p + 0 && wb0 == wb * p + 0);
        } else {
            lemma2_to64();
            assert(wa0 == wa * 1 && wb0 == wb * 1);
        }
        lemma_low_bit(x@[gc as int]);
        lemma_low_bit(y@[gc as int]);
        lemma_low_bit(x0);
        lemma_low_bit(y0);
        lemma_window_low_mod(x@, gc as int, na as int, 1);
        lemma_window_low_mod(y@, gc as int, nb as int, 1);
        lemma2_to64();
        if ta == trailing {
            assert(x0 != 0);
            assert(x@[gc as int] & 1 == 1);
        } else {
            assert(y0 != 0);
            assert(y@[gc as int] & 1 == 1);
        }
    }
    trailing
}

/// Taking the common factor `k = 2^(64 gc) * 2^t` out of both numbers scales
/// what `gcd` computes by `k`, and leaves the limb-count bookkeeping as
/// `gcd_limb_count` states it.
proof fn lemma_common_factors(va: nat, vb: nat, wa0: nat, wb0: nat, wa: nat, wb: nat, gc: nat, t: nat)
    requires
        va == limb_weight(gc) * wa0,
        vb == limb_weight(gc) * wb0,
        wa0 == wa * pow2(t),
        wb0 == wb * pow2(t),
    ensures
        limb_weight(gc) * pow2(t) > 0,
        va == limb_weight(gc) * pow2(t) * wa,
        vb == limb_weight(gc) * pow2(t) * wb,
        gcd_result(va, vb) == limb_weight(gc) * pow2(t) * gcd_result(wa, wb),
        va == 0 <==> wa == 0,
        vb == 0 <==> wb == 0,
        wa0 / pow2(t) == wa,
        wb0 / pow2(t) == wb,
{
    let w = limb_weight(gc);
    let p = pow2(t);
    let k = w * p;
    lemma_limb_weight_succ(gc);
    lemma_pow2_pos(t);
    assert(k > 0) by (nonlinear_arith)
        requires
            k == w * p,
            w > 0,
            p > 0,
    ;
    assert(va == k * wa && vb == k * wb) by (nonlinear_arith)
        requires
            va == w * wa0,
            vb == w * wb0,
            wa0 == wa * p,
            wb0 == wb * p,
            k == w * p,
    ;
    assert((va == 0 <==> wa == 0) && (vb == 0 <==> wb == 0)) by (nonlinear_arith)
        requires
            va == k * wa,
            vb == k * wb,
            k > 0,
    ;
    if vb != 0 {
        lemma_gcd_scale(wa, wb, k);
    }
    lemma_div_multiples_vanish(wa as int, p as int);
    lemma_div_multiples_vanish(wb as int, p as int);
    assert(p * wa == wa * p && p * wb == wb * p) by (nonlinear_arith);
}

/// Computes into `gp` the greatest common divisor of the `an`-limb number held
/// by `ap` and the `bn`-limb number held by `bp` (little-endian limbs, with
/// `an >= bn`), and returns a limb count `gn`. When the second number is 0 the
/// result is 0, written as `bn` zero limbs; when the first is 0, the second is
/// written back with its `bn` limbs.
///
/// The count `gn` is the one the algorithm keeps for the second number (see
/// `gcd_limb_count`), so the top limbs of `gp[..gn]` may be 0. When putting
/// back the common low zero bits carries into a further limb, that limb is
/// written at `gp[gn]` and is not counted: the result is then `gp[..gn + 1]`.
/// The limbs of `gp` past those written are kept.
#[verifier::rlimit(30)]
pub fn gcd(gp: &mut Vec<u64>, ap: &[u64], an: i32, bp: &[u64], bn: i32) -> (gn: i32)
    requires
        1 <= bn <= an,
        an <= ap.len(),
        bn <= bp.len(),
        bn <= old(gp).len(),
        gcd_args_shiftable(ap@.take(an as int), bp@.take(bn as int)),
    ensures
        0 <= gn <= bn,
        final(gp)@.len() == old(gp)@.len(),
        gcd_result(limbs_value(ap@.take(an as int)), limbs_value(bp@.take(bn as int)))
            < limb_weight(gn as nat) ==> {
            &&& limbs_value(final(gp)@.take(gn as int)) == gcd_result(
                limbs_value(ap@.take(an as int)),
                limbs_value(bp@.take(bn as int)),
            )
            &&& forall|i: int| gn <= i < old(gp)@.len() ==> #[trigger] final(gp)@[i] == old(gp)@[i]
        },
        gcd_result(limbs_value(ap@.take(an as int)), limbs_value(bp@.take(bn as int)))
            >= limb_weight(gn as nat) ==> {
            &&& gn < bn
            &&& limbs_value(final(gp)@.take(gn + 1)) == gcd_result(
                limbs_value(ap@.take(an as int)),
                limbs_value(bp@.take(bn as int)),
            )
            &&& forall|i: int| gn < i < old(gp)@.len() ==> #[trigger] final(gp)@[i] == old(gp)@[i]
        },
        (limbs_value(ap@.take(an as int)) == 0 || limbs_value(bp@.take(bn as int)) == 0) ==> gn
            == bn,
        gn as int == gcd_limb_count(ap@.take(an as int), bp@.take(bn as int)),
        low_zero_bits(gcd_result(limbs_value(ap@.take(an as int)), limbs_value(bp@.take(bn as int))))
            % 64 <= 1 ==> gcd_result(
            limbs_value(ap@.take(an as int)),
            limbs_value(bp@.take(bn as int)),
        ) < limb_weight(gn as nat),
        low_zero_bits(gcd_result(limbs_value(ap@.take(an as int)), limbs_value(bp@.take(bn as int))))
            % 64 >= 1 ==> 2 * gcd_result(
            limbs_value(ap@.take(an as int)),
            limbs_value(bp@.take(bn as int)),
        ) < limb_weight(gn as nat) * pow2(
            low_zero_bits(
                gcd_result(limbs_value(ap@.take(an as int)), limbs_value(bp@.take(bn as int))),
            ) % 64,
        ),
{
    let an_u: usize = an as usize;
    let bn_u: usize = bn as usize;
    let mut x = limbs_to_vec(ap, an_u);
    let mut y = limbs_to_vec(bp, bn_u);
    let ghost va = limbs_value(x@);
    let ghost vb = limbs_value(y@);
    let ghost target = gcd_result(va, vb);

    // Take out the low limbs that are 0 in both numbers.
    let mut na: usize = an_u;
    let mut nb: usize = bn_u;
    let gc = strip_common_low_zero_limbs(&x, &y, &mut na, &mut nb);
    proof {
        if va == 0 || vb == 0 {
            assert(x@[0] == ap@[0] && y@[0] == bp@[0]);
        }
    }

    // Take out the low bits that are 0 in both numbers.
    let ghost wa0 = window_value(x@, gc as int, na as int);
    let ghost wb0 = window_value(y@, gc as int, nb as int);
    proof {
        lemma_window_bound(x@, gc as int, na as int);
        lemma_window_bound(y@, gc as int, nb as int);
    }
    let trailing = shift_out_common_low_zero_bits(&mut x, &mut y, gc, na, nb);
    let ghost wa1 = window_value(x@, gc as int, na as int);
    let ghost wb1 = window_value(y@, gc as int, nb as int);
    let ghost k = limb_weight(gc as nat) * pow2(trailing as nat);
    proof {
        lemma_common_factors(va, vb, wa0, wb0, wa1, wb1, gc as nat, trailing as nat);
    }

    // Keep both numbers odd, and take the smaller from the larger.
    let mut a_off: usize = gc;
    let mut b_off: usize = gc;
    let mut ac: u32 = trailing;
    let mut bc: u32 = trailing;
    let ghost na1 = na;
    let ghost nb1 = nb;
    subtract_and_halve(&mut x, &mut a_off, &mut na, &mut ac, &mut y, &mut b_off, &mut nb, &mut bc);

    // The number left in `y` is the odd part of the result: put back the
    // common low zero limbs and bits.
    let ghost wb = window_value(y@, b_off as int, nb as int);
    let ghost count = loop_limb_count(wa1, na1 as int, trailing as nat, wb1, nb1 as int, trailing as nat);
    proof {
        assert(target == k * wb);
        assert(nb as int == count);
        lemma_value_bound(bp@.take(bn as int));
        if vb != 0 {
            lemma_gcd_le(va, vb);
        }
        assert(target < limb_weight(bn_u as nat));
        assert(k * wb == limb_weight(gc as nat) * pow2(trailing as nat) * wb);
        if va == 0 || vb == 0 {
            assert(count == nb1);
            assert(gc + nb == bn_u);
        }
    }
    let gn = put_back_common_factors(gp, gc, &y, b_off, nb, trailing, bn_u);
    proof {
        lemma_gcd_count_reach(ap@.take(an as int), bp@.take(bn as int));
        let sa = ap@.take(an as int);
        let sb = bp@.take(bn as int);
        assert(sa.len() == an_u && sb.len() == bn_u);
        if va != 0 && vb != 0 {
            assert(target == nat_gcd(va, vb));
            assert(gcd_limb_count(sa, sb) == gc + count);
        }
    }
    gn as i32
}

} // verus!
