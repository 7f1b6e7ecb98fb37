//! The greatest common divisor of natural numbers, and the facts that the
//! binary GCD algorithm rests on.

use vstd::arithmetic::div_mod::*;
use vstd::arithmetic::mul::*;
use vstd::arithmetic::power2::*;
use vstd::prelude::*;

verus! {

/// `d` is a positive divisor of `n`.
pub open spec fn divides(d: nat, n: nat) -> bool {
    d > 0 && n % d == 0
}

/// The greatest common divisor, by Euclid's algorithm: `gcd(a, 0) = a` and
/// `gcd(a, b) = gcd(b, a mod b)` for `b > 0`.
pub open spec fn nat_gcd(a: nat, b: nat) -> nat
    decreases b,
{
    if b == 0 {
        a
    } else {
        nat_gcd(b, a % b)
    }
}

/// A divisor of `x` and `y` divides `x * k + y`.
pub proof fn lemma_divides_combination(d: nat, x: nat, y: nat, k: nat)
    requires
        divides(d, x),
        divides(d, y),
    ensures
        divides(d, x * k + y),
{
    lemma_mul_mod_noop_left(x as int, k as int, d as int);
    lemma_add_mod_noop((x * k) as int, y as int, d as int);
    assert(0nat * k == 0);
    lemma_small_mod(0, d);
}

/// A divisor of `x` and `y`, with `y <= x`, divides `x - y`.
pub proof fn lemma_divides_difference(d: nat, x: nat, y: nat)
    requires
        divides(d, x),
        divides(d, y),
        y <= x,
    ensures
        divides(d, (x - y) as nat),
{
    lemma_sub_mod_noop(x as int, y as int, d as int);
    lemma_small_mod(0, d);
}

/// A positive divisor of a positive number is at most that number.
pub proof fn lemma_divides_le(d: nat, n: nat)
    requires
        divides(d, n),
        n > 0,
    ensures
        d <= n,
{
    if d > n {
        lemma_small_mod(n, d);
    }
}

/// The Euclidean gcd divides both arguments, and is positive unless both are 0.
pub proof fn lemma_gcd_divides(a: nat, b: nat)
    requires
        a > 0 || b > 0,
    ensures
        nat_gcd(a, b) > 0,
        divides(nat_gcd(a, b), a),
        divides(nat_gcd(a, b), b),
    decreases b,
{
    if b == 0 {
        lemma_mod_self_0(a as int);
        lemma_small_mod(0, a);
    } else {
        let r = a % b;
        lemma_gcd_divides(b, r);
        let g = nat_gcd(b, r);
        lemma_fundamental_div_mod(a as int, b as int);
        assert(a == b * (a / b) + r);
        lemma_divides_combination(g, b, r, a / b);
        assert(b * (a / b) == (a / b) * b) by {
            lemma_mul_is_commutative(b as int, (a / b) as int);
        }
    }
}

/// Every common divisor of `a` and `b` divides their gcd.
pub proof fn lemma_common_divisor_divides_gcd(a: nat, b: nat, d: nat)
    requires
        divides(d, a),
        divides(d, b),
    ensures
        divides(d, nat_gcd(a, b)),
    decreases b,
{
    if b > 0 {
        let r = a % b;
        lemma_fundamental_div_mod(a as int, b as int);
        assert(b * (a / b) == (a / b) * b) by {
            lemma_mul_is_commutative(b as int, (a / b) as int);
        }
        lemma_divides_combination(d, b, 0, a / b);
        lemma_divides_difference(d, a, ((a / b) * b) as nat);
        assert(r == a - (a / b) * b);
        lemma_common_divisor_divides_gcd(b, r, d);
    }
}

/// Two positive numbers that divide each other are equal.
pub proof fn lemma_divides_antisymmetric(x: nat, y: nat)
    requires
        divides(x, y),
        divides(y, x),
    ensures
        x == y,
{
    lemma_divides_le(x, y);
    lemma_divides_le(y, x);
}

/// A number with the divisibility properties of the gcd is the gcd.
pub proof fn lemma_gcd_unique(a: nat, b: nat, g: nat)
    requires
        a > 0 || b > 0,
        divides(g, a),
        divides(g, b),
        forall|d: nat| divides(d, a) && divides(d, b) ==> #[trigger] divides(d, g),
    ensures
        nat_gcd(a, b) == g,
{
    lemma_gcd_divides(a, b);
    lemma_common_divisor_divides_gcd(a, b, g);
    lemma_divides_antisymmetric(nat_gcd(a, b), g);
}

/// The gcd does not depend on the order of its arguments.
pub proof fn lemma_gcd_commutative(a: nat, b: nat)
    ensures
        nat_gcd(a, b) == nat_gcd(b, a),
{
    if a > 0 || b > 0 {
        lemma_gcd_divides(b, a);
        assert forall|d: nat| divides(d, a) && divides(d, b) implies #[trigger] divides(
            d,
            nat_gcd(b, a),
        ) by {
            lemma_common_divisor_divides_gcd(b, a, d);
        }
        lemma_gcd_unique(a, b, nat_gcd(b, a));
    } else {
        assert(nat_gcd(0, 0) == 0);
    }
}

/// `gcd(0, b) == b`.
pub proof fn lemma_gcd_zero_left(b: nat)
    ensures
        nat_gcd(0, b) == b,
{
    lemma_gcd_commutative(0, b);
}

/// The gcd of a positive `b` with anything is at most `b`.
pub proof fn lemma_gcd_le(a: nat, b: nat)
    requires
        b > 0,
    ensures
        nat_gcd(a, b) <= b,
{
    lemma_gcd_divides(a, b);
    lemma_divides_le(nat_gcd(a, b), b);
}

/// Scaling both arguments scales the gcd: `gcd(k a, k b) == k gcd(a, b)`.
pub proof fn lemma_gcd_scale(a: nat, b: nat, k: nat)
    requires
        k > 0,
    ensures
        nat_gcd(k * a, k * b) == k * nat_gcd(a, b),
    decreases b,
{
    if b == 0 {
        assert(k * b == 0) by (nonlinear_arith)
            requires
                b == 0,
        ;
    } else {
        assert(k * b > 0) by (nonlinear_arith)
            requires
                k > 0,
                b > 0,
        ;
        let q = a / b;
        let r = a % b;
        lemma_fundamental_div_mod(a as int, b as int);
        lemma_mod_bound(a as int, b as int);
        assert(k * a == q * (k * b) + k * r) by (nonlinear_arith)
            requires
                a == b * q + r,
        ;
        assert(k * r < k * b) by (nonlinear_arith)
            requires
                k > 0,
                r < b,
        ;
        lemma_fundamental_div_mod_converse_mod(
            (k * a) as int,
            (k * b) as int,
            q as int,
            (k * r) as int,
        );
        lemma_gcd_scale(b, r, k);
    }
}

/// A divisor of an odd number is odd.
pub proof fn lemma_divisor_of_odd_is_odd(h: nat, b: nat)
    requires
        divides(h, b),
        b % 2 == 1,
    ensures
        h % 2 == 1,
{
    lemma_fundamental_div_mod(b as int, h as int);
    lemma_fundamental_div_mod(h as int, 2);
    if h % 2 == 0 {
        let q = b / h;
        assert(b == 2 * ((h / 2) * q)) by (nonlinear_arith)
            requires
                b == h * q,
                h == 2 * (h / 2),
        ;
        lemma_mod_multiples_basic(((h / 2) * q) as int, 2);
        assert(((h / 2) * q) * 2 == 2 * ((h / 2) * q)) by (nonlinear_arith);
    }
}

/// An odd divisor of `2 a` divides `a`.
pub proof fn lemma_odd_divides_double(h: nat, a: nat)
    requires
        divides(h, 2 * a),
        h % 2 == 1,
    ensures
        divides(h, a),
{
    let q = a / h;
    let r = a % h;
    lemma_fundamental_div_mod(a as int, h as int);
    lemma_mod_bound(a as int, h as int);
    assert(2 * a == (2 * q) * h + 2 * r) by (nonlinear_arith)
        requires
            a == h * q + r,
    ;
    lemma_mod_multiples_vanish((2 * q) as int, (2 * r) as int, h as int);
    assert((h * (2 * q) + 2 * r) == (2 * q) * h + 2 * r) by (nonlinear_arith);
    assert((2 * r) % h == 0);
    if r > 0 {
        if 2 * r < h {
            lemma_small_mod((2 * r) as nat, h);
        } else {
            lemma_fundamental_div_mod_converse_mod((2 * r) as int, h as int, 1, (2 * r - h) as int);
        }
    }
}

/// Against an odd `b`, a factor 2 of `a` does not change the gcd.
pub proof fn lemma_gcd_drop_two(a: nat, b: nat)
    requires
        b % 2 == 1,
    ensures
        nat_gcd(2 * a, b) == nat_gcd(a, b),
{
    let g = nat_gcd(a, b);
    let h = nat_gcd(2 * a, b);
    lemma_gcd_divides(a, b);
    lemma_gcd_divides(2 * a, b);
    lemma_divisor_of_odd_is_odd(h, b);
    lemma_odd_divides_double(h, a);
    lemma_common_divisor_divides_gcd(a, b, h);
    lemma_divides_combination(g, a, 0, 2);
    assert(a * 2 + 0 == 2 * a);
    lemma_common_divisor_divides_gcd(2 * a, b, g);
    lemma_divides_antisymmetric(g, h);
}

/// Against an odd `b`, a factor `2^k` of `a` does not change the gcd.
pub proof fn lemma_gcd_drop_pow2(a: nat, b: nat, k: nat)
    requires
        b % 2 == 1,
    ensures
        nat_gcd(a * pow2(k), b) == nat_gcd(a, b),
    decreases k,
{
    if k == 0 {
        lemma2_to64();
    } else {
        lemma_pow2_unfold(k);
        lemma_gcd_drop_pow2(a, b, (k - 1) as nat);
        let p = pow2((k - 1) as nat);
        assert(a * pow2(k) == 2 * (a * p)) by (nonlinear_arith)
            requires
                pow2(k) == 2 * p,
        ;
        lemma_gcd_drop_two(a * p, b);
    }
}

/// Against an odd `a`, a factor `2^k` of `b` does not change the gcd.
pub proof fn lemma_gcd_drop_pow2_right(a: nat, b: nat, k: nat)
    requires
        a % 2 == 1,
    ensures
        nat_gcd(a, b * pow2(k)) == nat_gcd(a, b),
{
    lemma_gcd_drop_pow2(b, a, k);
    lemma_gcd_commutative(a, b * pow2(k));
    lemma_gcd_commutative(a, b);
}

/// Subtracting the smaller argument from the larger does not change the gcd.
pub proof fn lemma_gcd_subtract(a: nat, b: nat)
    requires
        b <= a,
        b > 0,
    ensures
        nat_gcd((a - b) as nat, b) == nat_gcd(a, b),
{
    let g = nat_gcd(a, b);
    lemma_gcd_divides(a, b);
    lemma_divides_difference(g, a, b);
    assert forall|d: nat| divides(d, (a - b) as nat) && divides(d, b) implies #[trigger] divides(
        d,
        g,
    ) by {
        lemma_divides_combination(d, b, (a - b) as nat, 1);
        assert(b * 1 + (a - b) == a);
        lemma_common_divisor_divides_gcd(a, b, d);
    }
    lemma_gcd_unique((a - b) as nat, b, g);
}

/// Subtracting the smaller argument from the larger does not change the gcd,
/// with the larger one on the right.
pub proof fn lemma_gcd_subtract_right(a: nat, b: nat)
    requires
        a <= b,
        a > 0,
    ensures
        nat_gcd(a, (b - a) as nat) == nat_gcd(a, b),
{
    lemma_gcd_subtract(b, a);
    lemma_gcd_commutative(a, (b - a) as nat);
    lemma_gcd_commutative(a, b);
}

} // verus!
