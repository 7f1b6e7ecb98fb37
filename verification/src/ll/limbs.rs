//! Routines on windows of limb vectors: a window is `n` consecutive limbs of a
//! vector, starting at index `start`, read as a little-endian number.

use crate::ll::limb_value::{
    lemma_limb_weight_adds,
    lemma_funnel_limb, lemma_limb_weight_succ, lemma_value_bound, lemma_value_low_mod,
    lemma_value_one, lemma_value_push, lemma_value_split, lemma_value_take_succ,
    lemma_value_top_nonzero, lemma_value_top_zero, lemma_value_zero, limb_weight, limbs_value,
};
use vstd::arithmetic::div_mod::*;
use vstd::arithmetic::power2::*;
use vstd::bits::*;
use vstd::prelude::*;

verus! {

/// The `n` limbs of `s` that start at `start`.
pub open spec fn window(s: Seq<u64>, start: int, n: int) -> Seq<u64> {
    s.subrange(start, start + n)
}

/// The value of the window of `n` limbs of `s` that start at `start`.
pub open spec fn window_value(s: Seq<u64>, start: int, n: int) -> nat {
    limbs_value(window(s, start, n))
}

/// `t` agrees with `s` outside the window `[start, start + n)`.
pub open spec fn same_outside(s: Seq<u64>, t: Seq<u64>, start: int, n: int) -> bool {
    &&& s.len() == t.len()
    &&& forall|j: int| 0 <= j < s.len() && !(start <= j < start + n) ==> #[trigger] t[j] == s[j]
}

/// Whether the window holds the number 0.
pub fn is_zero(x: &Vec<u64>, start: usize, n: usize) -> (r: bool)
    requires
        start + n <= x.len(),
    ensures
        r == (window_value(x@, start as int, n as int) == 0),
{
    let ghost w = window(x@, start as int, n as int);
    proof {
        lemma_value_zero(w);
    }
    let mut i: usize = 0;
    while i < n
        invariant
            start + n <= x.len(),
            i <= n,
            w == window(x@, start as int, n as int),
            (limbs_value(w) == 0) <==> (forall|j: int| 0 <= j < w.len() ==> w[j] == 0),
            forall|j: int| 0 <= j < i ==> w[j] == 0,
        decreases n - i,
    {
        if x[start + i] != 0 {
            assert(w[i as int] != 0);
            return false;
        }
        i = i + 1;
    }
    true
}

/// Shifts the window right by `cnt` bits, in place: its value becomes the old
/// value divided by `2^cnt`, and the bits shifted out are the low `cnt` bits of
/// its lowest limb. The limbs outside the window are kept.
pub fn shr(x: &mut Vec<u64>, start: usize, n: usize, cnt: u32)
    requires
        1 <= n,
        start + n <= old(x).len(),
        1 <= cnt < 64,
    ensures
        same_outside(old(x)@, final(x)@, start as int, n as int),
        window_value(final(x)@, start as int, n as int) == window_value(
            old(x)@,
            start as int,
            n as int,
        ) / pow2(cnt as nat),
        window_value(old(x)@, start as int, n as int) == window_value(
            final(x)@,
            start as int,
            n as int,
        ) * pow2(cnt as nat) + (old(x)@[start as int] as nat) % pow2(cnt as nat),
        final(x)@[start as int] & 1 == (old(x)@[start as int] >> (cnt as u64)) & 1,
{
    let c: u64 = cnt as u64;
    let d: u64 = 64 - c;
    let ghost orig = x@;
    let ghost s = window(x@, start as int, n as int);
    let ghost p = pow2(c as nat);
    let ghost r0 = (s[0] as nat) % p;
    proof {
        lemma_pow2_pos(c as nat);
        lemma_limb_weight_succ(0);
        assert(s.take(1) =~= seq![s[0]]);
        lemma_value_one(s.take(1));
        lemma_fundamental_div_mod(s[0] as int, p as int);
        assert(x@.subrange(start as int, start as int) =~= Seq::<u64>::empty());
        assert(limbs_value(Seq::<u64>::empty()) == 0);
        assert(limbs_value(s.take(1)) == 0 * p + r0 + limb_weight(0) * (((s[0] as nat) / p) * p))
            by (nonlinear_arith)
            requires
                limbs_value(s.take(1)) == s[0] as nat,
                s[0] as nat == p * ((s[0] as nat) / p) + r0,
                limb_weight(0) == 1,
        ;
    }
    let mut i: usize = 0;
    while i + 1 < n
        invariant
            1 <= n,
            start + n <= orig.len(),
            1 <= c < 64,
            d == 64 - c,
            p == pow2(c as nat),
            p > 0,
            r0 == (s[0] as nat) % p,
            s == window(orig, start as int, n as int),
            0 <= i < n,
            x@.len() == orig.len(),
            start + n <= x.len(),
            same_outside(orig, x@, start as int, i as int),
            limbs_value(s.take(i + 1)) == limbs_value(x@.subrange(start as int, start + i)) * p + r0
                + limb_weight(i as nat) * (((s[i as int] as nat) / p) * p),
            i > 0 ==> x@[start as int] & 1 == (orig[start as int] >> c) & 1,
        decreases n - i,
    {
        let lo = x[start + i];
        let hi = x[start + i + 1];
        let w = (lo >> c) | (hi << d);
        proof {
            assert(lo == s[i as int]);
            assert(hi == s[i + 1]);
            lemma_funnel_limb(lo, hi, c);
            let wv = limbs_value(x@.subrange(start as int, start + i));
            let bi = limb_weight(i as nat);
            let q = pow2((64 - c) as nat);
            lemma_pow2_adds(c as nat, (64 - c) as nat);
            lemma_limb_weight_succ(i as nat);
            lemma_value_take_succ(s, i + 1);
            lemma_fundamental_div_mod(hi as int, p as int);
            let lv = limbs_value(s.take(i + 1));
            let big = pow2(64);
            let bi1 = limb_weight((i + 1) as nat);
            let a = (lo as nat) / p;
            let h = (hi as nat) / p;
            let rh = (hi as nat) % p;
            assert((wv + bi * (w as nat)) * p == wv * p + bi * (a * p) + bi * rh * big)
                by (nonlinear_arith)
                requires
                    w as nat == a + rh * q,
                    p * q == big,
            ;
            assert((hi as nat) * bi1 == bi1 * (h * p) + bi * rh * big) by (nonlinear_arith)
                requires
                    hi as nat == p * h + rh,
                    bi1 == bi * big,
            ;
            assert(lv + (hi as nat) * bi1 == (wv + bi * (w as nat)) * p + r0 + bi1 * (h * p));
            assert(w & 1 == (lo >> c) & 1) by (bit_vector)
                requires
                    w == (lo >> c) | (hi << d),
                    d == 64 - c,
                    0 < c < 64,
            ;
        }
        let ghost before = x@;
        x.set(start + i, w);
        proof {
            assert(x@.subrange(start as int, start + i + 1) =~= before.subrange(
                start as int,
                start + i,
            ).push(w));
            lemma_value_push(before.subrange(start as int, start + i), w);
            assert(s[i + 1] == hi);
            assert((w as nat) * limb_weight(i as nat) == limb_weight(i as nat) * (w as nat)) by (nonlinear_arith);
        }
        i = i + 1;
    }
    let top = x[start + n - 1];
    proof {
        assert(top == s[n - 1]);
        assert(s.take(n as int) =~= s);
    }
    let ghost before = x@;
    x.set(start + n - 1, top >> c);
    proof {
        assert(x@.subrange(start as int, start + n) =~= before.subrange(
            start as int,
            start + n - 1,
        ).push(top >> c));
        lemma_u64_shr_is_div(top, c);
        let wv = limbs_value(before.subrange(start as int, start + n - 1));
        let bi = limb_weight((n - 1) as nat);
        lemma_value_push(before.subrange(start as int, start + n - 1), top >> c);
        let t = (top as nat) / p;
        assert(wv * p + r0 + bi * (t * p) == (wv + (t * bi)) * p + r0) by (nonlinear_arith);
        lemma_mod_bound(s[0] as int, p as int);
        lemma_fundamental_div_mod_converse_div(
            limbs_value(s) as int,
            p as int,
            (wv + t * bi) as int,
            r0 as int,
        );
        if n == 1 {
            assert((top >> c) & 1 == (top >> c) & 1);
        }
    }
}

/// Writes the `n` limbs of `src` that start at `sstart` into `dst` at `dstart`.
/// The other limbs of `dst` are kept.
pub fn copy_incr(dst: &mut Vec<u64>, dstart: usize, src: &Vec<u64>, sstart: usize, n: usize)
    requires
        dstart + n <= old(dst).len(),
        sstart + n <= src.len(),
    ensures
        same_outside(old(dst)@, final(dst)@, dstart as int, n as int),
        window(final(dst)@, dstart as int, n as int) == window(src@, sstart as int, n as int),
{
    let ghost orig = dst@;
    let mut i: usize = 0;
    while i < n
        invariant
            dstart + n <= dst.len(),
            sstart + n <= src.len(),
            dst@.len() == orig.len(),
            i <= n,
            same_outside(orig, dst@, dstart as int, i as int),
            dst@.subrange(dstart as int, dstart + i) == src@.subrange(sstart as int, sstart + i),
        decreases n - i,
    {
        let v = src[sstart + i];
        let ghost before = dst@;
        dst.set(dstart + i, v);
        assert(dst@.subrange(dstart as int, dstart + i + 1) =~= before.subrange(
            dstart as int,
            dstart + i,
        ).push(v));
        assert(src@.subrange(sstart as int, sstart + i + 1) =~= src@.subrange(
            sstart as int,
            sstart + i,
        ).push(v));
        i = i + 1;
    }
    assert(window(dst@, dstart as int, n as int) =~= window(src@, sstart as int, n as int));
}

/// Writes the `n` limbs of `src` that start at `sstart`, shifted left by `cnt`
/// bits, into `dst` at `dstart`, and returns the bits shifted out of the top
/// limb. The other limbs of `dst` are kept.
pub fn shl(dst: &mut Vec<u64>, dstart: usize, src: &Vec<u64>, sstart: usize, n: usize, cnt: u32) -> (carry: u64)
    requires
        1 <= cnt < 64,
        dstart + n <= old(dst).len(),
        sstart + n <= src.len(),
    ensures
        same_outside(old(dst)@, final(dst)@, dstart as int, n as int),
        window_value(final(dst)@, dstart as int, n as int) + (carry as nat) * limb_weight(n as nat)
            == window_value(src@, sstart as int, n as int) * pow2(cnt as nat),
{
    let c: u64 = cnt as u64;
    let d: u64 = 64 - c;
    let ghost orig = dst@;
    let ghost s = window(src@, sstart as int, n as int);
    let ghost p = pow2(c as nat);
    let ghost q = pow2(d as nat);
    proof {
        lemma_pow2_pos(c as nat);
        lemma_pow2_pos(d as nat);
        lemma_pow2_adds(c as nat, d as nat);
        lemma_limb_weight_succ(0);
        assert(s.take(0) =~= Seq::<u64>::empty());
        assert(dst@.subrange(dstart as int, dstart as int) =~= Seq::<u64>::empty());
        assert(limbs_value(Seq::<u64>::empty()) == 0);
        assert((0u64 as nat) / q == 0);
    }
    let mut prev: u64 = 0;
    let mut i: usize = 0;
    while i < n
        invariant
            1 <= c < 64,
            d == 64 - c,
            p == pow2(c as nat),
            q == pow2(d as nat),
            p > 0,
            q > 0,
            p * q == pow2(64),
            dstart + n <= dst.len(),
            sstart + n <= src.len(),
            dst@.len() == orig.len(),
            s == window(src@, sstart as int, n as int),
            i <= n,
            same_outside(orig, dst@, dstart as int, i as int),
            prev == (if i == 0 { 0 } else { s[i - 1] }),
            limbs_value(s.take(i as int)) * p == limbs_value(dst@.subrange(dstart as int, dstart + i))
                + limb_weight(i as nat) * ((prev as nat) / q),
        decreases n - i,
    {
        let cur = src[sstart + i];
        let w = (prev >> d) | (cur << c);
        let ghost before = dst@;
        proof {
            assert(cur == s[i as int]);
            lemma_funnel_limb(prev, cur, d);
            assert((64 - d) as u64 == c);
            let wv = limbs_value(before.subrange(dstart as int, dstart + i));
            let bi = limb_weight(i as nat);
            let bi1 = limb_weight((i + 1) as nat);
            let big = pow2(64);
            lemma_limb_weight_succ(i as nat);
            lemma_value_take_succ(s, i as int);
            lemma_fundamental_div_mod(cur as int, q as int);
            let h = (cur as nat) / q;
            let rc = (cur as nat) % q;
            let a = (prev as nat) / q;
            assert((cur as nat) * bi * p == bi * (rc * p) + bi1 * h) by (nonlinear_arith)
                requires
                    cur as nat == q * h + rc,
                    bi1 == bi * big,
                    p * q == big,
            ;
            assert((limbs_value(s.take(i as int)) + (cur as nat) * bi) * p == limbs_value(s.take(i as int))
                * p + (cur as nat) * bi * p) by (nonlinear_arith);
            assert(bi * a + bi * (rc * p) == bi * (a + rc * p)) by (nonlinear_arith);
            assert((w as nat) == a + rc * p);
        }
        dst.set(dstart + i, w);
        proof {
            assert(dst@.subrange(dstart as int, dstart + i + 1) =~= before.subrange(
                dstart as int,
                dstart + i,
            ).push(w));
            lemma_value_push(before.subrange(dstart as int, dstart + i), w);
            assert((w as nat) * limb_weight(i as nat) == limb_weight(i as nat) * (w as nat))
                by (nonlinear_arith);
        }
        prev = cur;
        i = i + 1;
    }
    proof {
        lemma_u64_shr_is_div(prev, d);
        assert(s.take(n as int) =~= s);
        assert((prev >> d) as nat * limb_weight(n as nat) == limb_weight(n as nat) * ((prev as nat) / q))
            by (nonlinear_arith)
            requires
                (prev >> d) as nat == (prev as nat) / q,
        ;
    }
    prev >> d
}

/// Subtracts the `yn`-limb window of `y` from the `xn`-limb window of `x`, in
/// place; the window of `x` must hold the larger number. The limbs of `x`
/// outside its window are kept.
pub fn sub(x: &mut Vec<u64>, xstart: usize, xn: usize, y: &Vec<u64>, ystart: usize, yn: usize)
    requires
        yn <= xn,
        xstart + xn <= old(x).len(),
        ystart + yn <= y.len(),
        window_value(old(x)@, xstart as int, xn as int) >= window_value(y@, ystart as int, yn as int),
    ensures
        same_outside(old(x)@, final(x)@, xstart as int, xn as int),
        window_value(final(x)@, xstart as int, xn as int) == window_value(
            old(x)@,
            xstart as int,
            xn as int,
        ) - window_value(y@, ystart as int, yn as int),
{
    let ghost orig = x@;
    let ghost s = window(x@, xstart as int, xn as int);
    let ghost t = window(y@, ystart as int, yn as int);
    let ghost big = pow2(64);
    proof {
        lemma_limb_weight_succ(0);
        lemma2_to64_rest();
        assert(s.take(0) =~= Seq::<u64>::empty());
        assert(t.take(0) =~= Seq::<u64>::empty());
        assert(x@.subrange(xstart as int, xstart as int) =~= Seq::<u64>::empty());
        assert(limbs_value(Seq::<u64>::empty()) == 0);
    }
    let mut borrow: u64 = 0;
    let mut i: usize = 0;
    while i < xn
        invariant
            yn <= xn,
            big == pow2(64),
            big == 0x1_0000_0000_0000_0000,
            xstart + xn <= x.len(),
            ystart + yn <= y.len(),
            x@.len() == orig.len(),
            s == window(orig, xstart as int, xn as int),
            t == window(y@, ystart as int, yn as int),
            i <= xn,
            borrow <= 1,
            same_outside(orig, x@, xstart as int, i as int),
            limbs_value(x@.subrange(xstart as int, xstart + i)) as int == limbs_value(s.take(i as int))
                - limbs_value(t.take(if i <= yn { i as int } else { yn as int })) + borrow
                * limb_weight(i as nat),
        decreases xn - i,
    {
        let xi = x[xstart + i];
        let yi: u64 = if i < yn {
            y[ystart + i]
        } else {
            0
        };
        let tt: u128 = yi as u128 + borrow as u128;
        let dv: u64;
        let nb: u64;
        if (xi as u128) >= tt {
            dv = (xi as u128 - tt) as u64;
            nb = 0;
        } else {
            dv = (xi as u128 + 0x1_0000_0000_0000_0000u128 - tt) as u64;
            nb = 1;
        }
        let ghost before = x@;
        proof {
            assert(xi == s[i as int]);
            assert(dv as int + yi as int + borrow as int == xi as int + nb as int * big);
            let bi = limb_weight(i as nat);
            let bi1 = limb_weight((i + 1) as nat);
            lemma_limb_weight_succ(i as nat);
            lemma_value_take_succ(s, i as int);
            if i < yn {
                assert(yi == t[i as int]);
                lemma_value_take_succ(t, i as int);
            }
            assert(bi * (dv as int) == bi * (xi as int) - bi * (yi as int) - borrow * bi + nb * bi1)
                by (nonlinear_arith)
                requires
                    dv as int + yi as int + borrow as int == xi as int + nb as int * big,
                    bi1 == bi * big,
            ;
        }
        x.set(xstart + i, dv);
        proof {
            assert(x@.subrange(xstart as int, xstart + i + 1) =~= before.subrange(
                xstart as int,
                xstart + i,
            ).push(dv));
            lemma_value_push(before.subrange(xstart as int, xstart + i), dv);
            assert((dv as nat) * limb_weight(i as nat) == limb_weight(i as nat) * (dv as nat))
                by (nonlinear_arith);
            assert((xi as nat) * limb_weight(i as nat) == limb_weight(i as nat) * (xi as nat))
                by (nonlinear_arith);
            assert((yi as nat) * limb_weight(i as nat) == limb_weight(i as nat) * (yi as nat))
                by (nonlinear_arith);
        }
        borrow = nb;
        i = i + 1;
    }
    proof {
        assert(s.take(xn as int) =~= s);
        assert(t.take(yn as int) =~= t);
        lemma_value_bound(x@.subrange(xstart as int, xstart + xn));
        if borrow == 1 {
            assert(false);
        }
    }
}

/// Whether the `n`-limb window of `x` holds a number at least as large as the
/// `n`-limb window of `y`; the limbs are compared from the top down.
pub fn greater_or_equal(x: &Vec<u64>, xstart: usize, y: &Vec<u64>, ystart: usize, n: usize) -> (r: bool)
    requires
        xstart + n <= x.len(),
        ystart + n <= y.len(),
    ensures
        r == (window_value(x@, xstart as int, n as int) >= window_value(y@, ystart as int, n as int)),
{
    let ghost sx = window(x@, xstart as int, n as int);
    let ghost sy = window(y@, ystart as int, n as int);
    let mut i: usize = n;
    while i > 0
        invariant
            xstart + n <= x.len(),
            ystart + n <= y.len(),
            sx == window(x@, xstart as int, n as int),
            sy == window(y@, ystart as int, n as int),
            i <= n,
            forall|j: int| i <= j < n ==> sx[j] == sy[j],
        decreases i,
    {
        i = i - 1;
        let xi = x[xstart + i];
        let yi = y[ystart + i];
        if xi != yi {
            proof {
                let k = i as int;
                assert(xi == sx[k] && yi == sy[k]);
                lemma_value_split(sx, k + 1);
                lemma_value_split(sy, k + 1);
                assert(sx.skip(k + 1) =~= sy.skip(k + 1));
                lemma_value_take_succ(sx, k);
                lemma_value_take_succ(sy, k);
                lemma_value_bound(sx.take(k));
                lemma_value_bound(sy.take(k));
                let w = limb_weight(i as nat);
                let lx = limbs_value(sx.take(k));
                let ly = limbs_value(sy.take(k));
                if xi > yi {
                    assert(lx + (xi as nat) * w > ly + (yi as nat) * w) by (nonlinear_arith)
                        requires
                            xi > yi,
                            ly < w,
                    ;
                } else {
                    assert(lx + (xi as nat) * w < ly + (yi as nat) * w) by (nonlinear_arith)
                        requires
                            xi < yi,
                            lx < w,
                    ;
                }
            }
            return xi > yi;
        }
    }
    assert(sx =~= sy);
    true
}

/// A window is worth less than `2^(64 n)`.
pub proof fn lemma_window_bound(s: Seq<u64>, start: int, n: int)
    requires
        0 <= start,
        0 <= n,
        start + n <= s.len(),
    ensures
        window_value(s, start, n) < limb_weight(n as nat),
{
    lemma_value_bound(window(s, start, n));
}

/// Below `2^64`, a window's residue is that of its lowest limb.
pub proof fn lemma_window_low_mod(s: Seq<u64>, start: int, n: int, c: nat)
    requires
        0 <= start,
        1 <= n,
        start + n <= s.len(),
        c <= 64,
    ensures
        window_value(s, start, n) % pow2(c) == (s[start] as nat) % pow2(c),
{
    lemma_value_low_mod(window(s, start, n), c);
}

/// A window whose lowest limb is 0 is `2^64` times the window above that limb.
pub proof fn lemma_window_strip_low(s: Seq<u64>, start: int, n: int)
    requires
        0 <= start,
        1 <= n,
        start + n <= s.len(),
        s[start] == 0,
    ensures
        window_value(s, start, n) == limb_weight(1) * window_value(s, start + 1, n - 1),
        window_value(s, start, n) != 0 ==> n >= 2,
{
    let w = window(s, start, n);
    lemma_value_split(w, 1);
    lemma_value_one(w.take(1));
    assert(w.skip(1) =~= window(s, start + 1, n - 1));
    if n == 1 {
        assert(window(s, start + 1, 0).len() == 0);
        assert(limbs_value(window(s, start + 1, 0)) == 0);
        assert(limb_weight(1) * 0 == 0);
    }
}

/// The top limb of a window: if it is 0 the window is worth what the window
/// one limb shorter is worth, and less than `2^(64 (n - 1))`; otherwise it is
/// worth at least that.
pub proof fn lemma_window_top(s: Seq<u64>, start: int, n: int)
    requires
        0 <= start,
        1 <= n,
        start + n <= s.len(),
    ensures
        s[start + n - 1] == 0 ==> window_value(s, start, n) == window_value(s, start, n - 1),
        s[start + n - 1] == 0 ==> window_value(s, start, n) < limb_weight((n - 1) as nat),
        s[start + n - 1] != 0 ==> window_value(s, start, n) >= limb_weight((n - 1) as nat),
{
    let w = window(s, start, n);
    assert(w.drop_last() =~= window(s, start, n - 1));
    assert(w.last() == s[start + n - 1]);
    if s[start + n - 1] == 0 {
        lemma_value_top_zero(w);
    } else {
        lemma_value_top_nonzero(w);
    }
}

/// Moves the window's start past its low limbs that are 0, as long as the
/// window is not worth 0; the number it holds is divided by `2^64` for each
/// limb passed.
pub fn strip_low_zero_limbs(x: &Vec<u64>, off: &mut usize, n: &mut usize)
    requires
        1 <= *old(n),
        *old(off) + *old(n) <= x.len(),
    ensures
        *old(off) <= *final(off),
        *final(off) + *final(n) == *old(off) + *old(n),
        1 <= *final(n),
        window_value(x@, *old(off) as int, *old(n) as int) == limb_weight(
            (*final(off) - *old(off)) as nat,
        ) * window_value(x@, *final(off) as int, *final(n) as int),
        x@[*final(off) as int] != 0 || window_value(x@, *final(off) as int, *final(n) as int) == 0,
        window_value(x@, *old(off) as int, *old(n) as int) == 0 ==> *final(off) == *old(off),
{
    let ghost off0 = *off;
    let ghost n0 = *n;
    proof {
        lemma_limb_weight_succ(0);
        assert(limb_weight((*off - off0) as nat) == 1);
        assert(1 * window_value(x@, off0 as int, n0 as int) == window_value(x@, off0 as int, n0 as int));
    }
    while x[*off] == 0 && !is_zero(x, *off, *n)
        invariant
            off0 <= *off,
            *off + *n == off0 + n0,
            off0 + n0 <= x.len(),
            1 <= *n,
            window_value(x@, off0 as int, n0 as int) == limb_weight((*off - off0) as nat)
                * window_value(x@, *off as int, *n as int),
            window_value(x@, off0 as int, n0 as int) == 0 ==> *off == off0,
        decreases *n,
    {
        proof {
            lemma_window_strip_low(x@, *off as int, *n as int);
            let k = (*off - off0) as nat;
            lemma_limb_weight_adds(k, 1);
            let v = window_value(x@, *off as int + 1, *n as int - 1);
            assert(limb_weight(k) * (limb_weight(1) * v) == limb_weight(k + 1) * v)
                by (nonlinear_arith)
                requires
                    limb_weight(k) * limb_weight(1) == limb_weight(k + 1),
            ;
            lemma_limb_weight_succ(k);
            assert(window_value(x@, off0 as int, n0 as int) != 0) by (nonlinear_arith)
                requires
                    window_value(x@, off0 as int, n0 as int) == limb_weight(k) * window_value(
                        x@,
                        *off as int,
                        *n as int,
                    ),
                    window_value(x@, *off as int, *n as int) != 0,
                    limb_weight(k) > 0,
            ;
        }
        *off = *off + 1;
        *n = *n - 1;
    }
}

/// Shortens the window past its top limbs that are 0; the window must not be
/// worth 0, and the number it holds is kept.
pub fn drop_high_zero_limbs(x: &Vec<u64>, off: usize, n: &mut usize)
    requires
        1 <= *old(n),
        off + *old(n) <= x.len(),
        window_value(x@, off as int, *old(n) as int) > 0,
    ensures
        1 <= *final(n) <= *old(n),
        window_value(x@, off as int, *final(n) as int) == window_value(
            x@,
            off as int,
            *old(n) as int,
        ),
        x@[off + *final(n) - 1] != 0,
{
    let ghost n0 = *n;
    loop
        invariant
            1 <= *n <= n0,
            off + n0 <= x.len(),
            window_value(x@, off as int, *n as int) == window_value(x@, off as int, n0 as int),
            window_value(x@, off as int, n0 as int) > 0,
        ensures
            1 <= *n <= n0,
            window_value(x@, off as int, *n as int) == window_value(x@, off as int, n0 as int),
            x@[off + *n - 1] != 0,
        decreases *n,
    {
        if x[off + *n - 1] != 0 {
            break;
        }
        proof {
            lemma_window_top(x@, off as int, *n as int);
            if *n == 1 {
                assert(window(x@, off as int, 0).len() == 0);
                assert(limbs_value(window(x@, off as int, 0)) == 0);
            }
        }
        *n = *n - 1;
    }
}

} // verus!
