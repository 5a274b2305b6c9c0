//! Modular big-integer subroutines of the accumulator group: modular
//! multiplication and exponentiation, the extended Euclidean algorithm,
//! Bezout coefficients, and modular inverses.
//!
//! All operations are exact: preconditions exclude every input on which an
//! intermediate value could exceed the integer width, so no result is ever
//! silently wrapped or truncated.

use vstd::prelude::*;
use vstd::arithmetic::power::{
    pow, lemma_pow0, lemma_pow1, lemma_pow_adds, lemma_pow_distributes, lemma_pow_multiplies,
    lemma_pow_mod_noop,
};
use vstd::arithmetic::div_mod::{
    lemma_add_mod_noop, lemma_basic_div, lemma_fundamental_div_mod, lemma_mod_bound,
    lemma_mod_multiples_basic, lemma_mod_multiples_vanish, lemma_mod_self_0, lemma_mul_mod_noop,
    lemma_mul_mod_noop_left, lemma_mul_mod_noop_right, lemma_small_mod,
};
use vstd::math::{abs, max};

verus! {

/// Half the representable range: the doubling step of `mul_mod` stays exact
/// only for moduli up to this bound.
pub const HALF_RANGE: u128 = 0x8000_0000_0000_0000_0000_0000_0000_0000;

/// Inputs to `extended_gcd` must stay below this bound so that the signed
/// Bezout coefficients (bounded by the inputs) and their intermediate
/// products fit in `i128`.
pub const GCD_INPUT_BOUND: u128 = 0x4000_0000_0000_0000_0000_0000_0000_0000;

/// The greatest common divisor, by the Euclidean recurrence.
pub open spec fn gcd(a: nat, b: nat) -> nat
    decreases b,
{
    if b == 0 {
        a
    } else {
        gcd(b, a % b)
    }
}

/// Modular multiplication `(a * b) % modulus` by repeated doubling, which
/// never forms the direct product `a * b` and so cannot overflow while the
/// modulus stays at or below half the representable range.
pub fn mul_mod(a: u128, b: u128, modulus: u128) -> (r: u128)
    requires
        1 <= modulus <= HALF_RANGE,
    ensures
        r == (a * b) % (modulus as int),
        r < modulus,
{
    let mut result: u128 = 0;
    let mut x: u128 = a % modulus;
    let mut y: u128 = b;
    proof {
        lemma_mul_mod_noop_left(a as int, b as int, modulus as int);
    }
    while y > 0
        invariant
            1 <= modulus <= HALF_RANGE,
            x < modulus,
            result < modulus,
            (result + x * y) % (modulus as int) == (a * b) % (modulus as int),
        decreases y,
    {
        let ghost m = modulus as int;
        let ghost r0 = result as int;
        let ghost x0 = x as int;
        let ghost y0 = y as int;
        proof {
            lemma_fundamental_div_mod(y0, 2);
        }
        if y % 2 == 1 {
            result = (result + x) % modulus;
        }
        x = (x * 2) % modulus;
        y = y / 2;
        proof {
            let k = y as int;
            // Reducing the doubled base mod m does not change the total mod m.
            lemma_mul_mod_noop_left(2 * x0, k, m);
            lemma_small_mod(result as nat, m as nat);
            lemma_add_mod_noop(result as int, (x as int) * k, m);
            if y0 % 2 == 1 {
                assert(x0 * y0 == x0 + (2 * x0) * k) by (nonlinear_arith)
                    requires y0 == 2 * k + 1;
                lemma_add_mod_noop(r0 + x0, (2 * x0) * k, m);
            } else {
                assert(x0 * y0 == (2 * x0) * k) by (nonlinear_arith)
                    requires y0 == 2 * k;
                lemma_add_mod_noop(r0, (2 * x0) * k, m);
                lemma_small_mod(r0 as nat, m as nat);
            }
            assert((result + x * y) % m == (r0 + x0 * y0) % m);
        }
    }
    proof {
        lemma_small_mod(result as nat, modulus as nat);
    }
    result
}

/// Modular exponentiation `base^exp % modulus` by square-and-multiply:
/// O(log exp) modular multiplications, each overflow-free under the
/// `mul_mod` bound on the modulus.
pub fn mod_exp(base: u128, exp: u128, modulus: u128) -> (r: u128)
    requires
        2 <= modulus <= HALF_RANGE,
    ensures
        r == pow(base as int, exp as nat) % (modulus as int),
        r < modulus,
{
    let ghost m = modulus as int;
    let mut result: u128 = 1;
    let mut b: u128 = base % modulus;
    let mut e: u128 = exp;
    proof {
        lemma_pow_mod_noop(base as int, exp as nat, m);
        lemma_small_mod(1nat, m as nat);
    }
    while e > 0
        invariant
            2 <= modulus <= HALF_RANGE,
            m == modulus as int,
            b < modulus,
            result < modulus,
            (result * pow(b as int, e as nat)) % m
                == pow(base as int, exp as nat) % m,
        decreases e,
    {
        let ghost r0 = result as int;
        let ghost b0 = b as int;
        let ghost e0 = e as nat;
        if e % 2 == 1 {
            result = mul_mod(result, b, modulus);
            proof {
                lemma_pow1(b0);
                // Folding one factor of b into the result keeps the total.
                lemma_mul_mod_noop_left(r0 * b0, pow(b0, (e0 - 1) as nat), m);
                lemma_pow_adds(b0, 1nat, (e0 - 1) as nat);
                assert(r0 * (b0 * pow(b0, (e0 - 1) as nat))
                    == (r0 * b0) * pow(b0, (e0 - 1) as nat)) by (nonlinear_arith);
            }
        }
        if e == 1 {
            proof {
                lemma_pow0(b0);
            }
            return result;
        }
        proof {
            lemma_fundamental_div_mod(e as int, 2);
        }
        e = e / 2;
        let ghost r1 = result as int;
        let ghost e1 = e as nat;
        b = mul_mod(b, b, modulus);
        proof {
            // pow(b0, 2 * e1) == pow(b0 * b0, e1), and reducing the squared
            // base mod m keeps the running product unchanged mod m.
            lemma_pow_multiplies(b0, 2nat, e1);
            lemma_pow1(b0);
            lemma_pow_adds(b0, 1nat, 1nat);
            assert(pow(b0, 2nat) == b0 * b0);
            lemma_pow_mod_noop(b0 * b0, e1, m);
            lemma_mul_mod_noop_right(r1, pow(b0 * b0, e1), m);
            lemma_mul_mod_noop_right(r1, pow(b as int, e1), m);
            if e0 % 2 == 1 {
                assert((r1 * pow(b0, (e0 - 1) as nat)) % m
                    == pow(base as int, exp as nat) % m);
                assert(2 * e1 == e0 - 1);
            } else {
                assert(2 * e1 == e0);
            }
        }
    }
    proof {
        lemma_pow0(b as int);
        lemma_small_mod(result as nat, modulus as nat);
    }
    result
}

/// The iterative extended Euclidean algorithm: returns `(g, x, y)` with
/// `g == gcd(a, b)` and `a*x + b*y == g`. The coefficients are the
/// minimal pair: in the general case they satisfy the tight bounds
/// `2*|x|*g <= b` and `2*|y|*g <= a`, which together with the identity
/// pin them exactly; the degenerate shapes (`b == 0`, or `b` dividing
/// `a`) are returned literally. The signed coefficients are bounded by
/// the inputs, so under the input bound they always fit `i128`; no
/// intermediate is ever truncated.
pub fn extended_gcd(a: u128, b: u128) -> (res: (u128, i128, i128))
    requires
        a < GCD_INPUT_BOUND,
        b < GCD_INPUT_BOUND,
    ensures
        res.0 == gcd(a as nat, b as nat),
        a * res.1 + b * res.2 == res.0,
        abs(res.1 as int) <= max(b as int, 1),
        abs(res.2 as int) <= max(a as int, 1),
        b == 0 ==> res.1 == 1 && res.2 == 0,
        b > 0 && a % b == 0 ==> res.1 == 0 && res.2 == 1,
        b > 0 && a % b != 0 ==> 2 * abs(res.1 as int) * res.0 <= b && 2 * abs(res.2 as int)
            * res.0 <= a,
{
    let mut old_r: u128 = a;
    let mut r: u128 = b;
    let mut old_s: i128 = 1;
    let mut s: i128 = 0;
    let mut old_t: i128 = 0;
    let mut t: i128 = 1;
    // The remainder that preceded old_r; once the run is past its first
    // step, old_r divides it at exit, which yields the tight coefficient
    // bounds.
    let ghost mut por: int = 0;
    proof {
        assert(abs(0int) == 0);
        assert(abs(1int) == 1);
        assert(abs(s as int) * old_r + abs(old_s as int) * r == b) by (nonlinear_arith)
            requires
                s == 0 && old_s == 1 && old_r == a && r == b;
        assert(abs(t as int) * old_r + abs(old_t as int) * r == a) by (nonlinear_arith)
            requires
                t == 1 && old_t == 0 && old_r == a && r == b;
    }
    while r != 0
        invariant
            a < GCD_INPUT_BOUND,
            b < GCD_INPUT_BOUND,
            old_r <= max(a as int, b as int),
            r <= max(a as int, b as int),
            b == 0 ==> r == 0,
            gcd(old_r as nat, r as nat) == gcd(a as nat, b as nat),
            a * old_s + b * old_t == old_r,
            a * s + b * t == r,
            old_s * s <= 0,
            old_t * t <= 0,
            abs(s as int) * old_r + abs(old_s as int) * r == b,
            abs(t as int) * old_r + abs(old_t as int) * r == a,
            abs(s as int) <= max(b as int, 1),
            abs(old_s as int) <= max(b as int, 1),
            abs(t as int) <= max(a as int, 1),
            abs(old_t as int) <= max(a as int, 1),
            // The run is in one of four shapes: untouched, finished in one
            // dividing step, swapped by one zero-quotient step, or properly
            // started with the previous remainder recorded.
            (old_s == 1 && s == 0 && old_t == 0 && t == 1 && old_r == a && r == b) || (b > 0
                && a % b == 0 && old_s == 0 && old_t == 1 && old_r == b && r == 0) || (a >= 1
                && a < b && a % b != 0 && old_s == 0 && s == 1 && old_t == 1 && t == 0 && old_r
                == b && r == a) || (b > 0 && a % b != 0 && old_r >= 1 && por > old_r && por % (
            old_r as int) == r && abs(old_s as int) * por <= b && abs(old_t as int) * por <= a),
        decreases r,
    {
        let ghost ri = r as int;
        let ghost ori = old_r as int;
        let q: u128 = old_r / r;
        let ghost qi = q as int;
        proof {
            lemma_fundamental_div_mod(ori, ri);
            lemma_mod_bound(ori, ri);
            assert(qi == ori / ri);
            assert(ri * qi <= ori);
            assert(qi * ri == ri * qi);
        }
        let new_r: u128 = old_r - q * r;
        let ghost nri = new_r as int;
        proof {
            // The coefficient updates alternate signs and add magnitudes,
            // and the weighted-magnitude identity pins every new magnitude
            // below the matching input, so the i128 products cannot wrap.
            assert(abs(old_s - qi * s) == abs(old_s as int) + qi * abs(s as int)
                && abs(qi * s) == qi * abs(s as int)) by (nonlinear_arith)
                requires
                    old_s * s <= 0,
                    qi >= 0;
            assert(abs(old_t - qi * t) == abs(old_t as int) + qi * abs(t as int)
                && abs(qi * t) == qi * abs(t as int)) by (nonlinear_arith)
                requires
                    old_t * t <= 0,
                    qi >= 0;
            assert((abs(old_s as int) + qi * abs(s as int)) * ri + abs(s as int) * nri
                == b) by (nonlinear_arith)
                requires
                    abs(s as int) * ori + abs(old_s as int) * ri == b,
                    nri == ori - qi * ri;
            assert((abs(old_t as int) + qi * abs(t as int)) * ri + abs(t as int) * nri
                == a) by (nonlinear_arith)
                requires
                    abs(t as int) * ori + abs(old_t as int) * ri == a,
                    nri == ori - qi * ri;
            assert(abs(old_s as int) + qi * abs(s as int) <= b) by (nonlinear_arith)
                requires
                    (abs(old_s as int) + qi * abs(s as int)) * ri + abs(s as int) * nri == b,
                    ri >= 1,
                    nri >= 0,
                    qi >= 0;
            assert(abs(old_t as int) + qi * abs(t as int) <= a) by (nonlinear_arith)
                requires
                    (abs(old_t as int) + qi * abs(t as int)) * ri + abs(t as int) * nri == a,
                    ri >= 1,
                    nri >= 0,
                    qi >= 0;
        }
        let new_s: i128 = old_s - (q as i128) * s;
        let new_t: i128 = old_t - (q as i128) * t;
        proof {
            // The Bezout pairs stay linear combinations of a and b.
            assert(a * new_s + b * new_t == nri) by (nonlinear_arith)
                requires
                    a * old_s + b * old_t == ori,
                    a * s + b * t == ri,
                    new_s == old_s - qi * s,
                    new_t == old_t - qi * t,
                    nri == ori - qi * ri;
            assert(s * new_s <= 0 && t * new_t <= 0) by (nonlinear_arith)
                requires
                    old_s * s <= 0,
                    old_t * t <= 0,
                    new_s == old_s - qi * s,
                    new_t == old_t - qi * t,
                    qi >= 0;
            // One Euclidean step keeps the gcd.
            assert(gcd(old_r as nat, r as nat) == gcd(r as nat, (old_r % r) as nat));
        }
        proof {
            // Which of the four run shapes the next state takes.
            assert(nri == ori % ri);
            if old_s == 1 && s == 0 && old_t == 0 && t == 1 && old_r == a && r == b {
                if a % b == 0 {
                    // One dividing step finishes the run.
                    assert(nri == 0);
                } else if a < b {
                    // A zero quotient swaps the two inputs.
                    lemma_basic_div(ori, ri);
                    assert(qi == 0);
                    assert(qi * s == 0 && qi * t == 0);
                    assert(new_s == 1 && new_t == 0 && nri == a);
                    lemma_small_mod(a as nat, b as nat);
                } else {
                    // The run starts properly, with a as the remainder
                    // preceding b.
                    assert(a > b) by {
                        if a == b {
                            lemma_mod_self_0(ri);
                        }
                    }
                    assert(abs(s as int) * ori == 0);
                    assert(abs(t as int) * ori == a) by (nonlinear_arith)
                        requires
                            abs(t as int) == 1,
                            ori == a,
                    ;
                }
            } else if old_s == 0 && s == 1 && old_t == 1 && t == 0 && old_r == b && r == a {
                assert(abs(s as int) * ori == b) by (nonlinear_arith)
                    requires
                        abs(s as int) == 1,
                        ori == b,
                ;
                assert(abs(t as int) * ori == 0);
            } else {
                assert(ri < ori) by {
                    lemma_mod_bound(por, ori);
                }
                assert(abs(s as int) * ori <= b) by (nonlinear_arith)
                    requires
                        abs(s as int) * ori + abs(old_s as int) * ri == b,
                        abs(old_s as int) >= 0,
                        ri >= 0,
                ;
                assert(abs(t as int) * ori <= a) by (nonlinear_arith)
                    requires
                        abs(t as int) * ori + abs(old_t as int) * ri == a,
                        abs(old_t as int) >= 0,
                        ri >= 0,
                ;
            }
            por = ori;
        }
        old_r = r;
        r = new_r;
        old_s = s;
        s = new_s;
        old_t = t;
        t = new_t;
    }
    proof {
        assert(gcd(old_r as nat, 0) == old_r as nat);
        if old_s == 1 && s == 0 && old_t == 0 && t == 1 && old_r == a && r == b {
        } else if b > 0 && a % b == 0 && old_s == 0 && old_t == 1 && old_r == b && r == 0 {
        } else if a >= 1 && a < b && a % b != 0 && old_r == b && r == a {
            assert(false);
        } else {
            // The previous remainder is a proper multiple of the final
            // gcd, which halves the coefficient bounds.
            let k = por / (old_r as int);
            lemma_fundamental_div_mod(por, old_r as int);
            assert(por == old_r * k);
            assert(k >= 2) by (nonlinear_arith)
                requires
                    por == old_r * k,
                    por > old_r,
                    old_r >= 1,
            ;
            assert(por >= 2 * old_r) by (nonlinear_arith)
                requires
                    por == old_r * k,
                    k >= 2,
                    old_r >= 1,
            ;
            assert(2 * abs(old_s as int) * old_r <= b) by (nonlinear_arith)
                requires
                    abs(old_s as int) * por <= b,
                    por >= 2 * old_r,
                    abs(old_s as int) >= 0,
            ;
            assert(2 * abs(old_t as int) * old_r <= a) by (nonlinear_arith)
                requires
                    abs(old_t as int) * por <= a,
                    por >= 2 * old_r,
                    abs(old_t as int) >= 0,
            ;
        }
    }
    (old_r, old_s, old_t)
}

/// The gcd divides both of its arguments and is positive when either
/// argument is.
pub proof fn lemma_gcd_divides(a: nat, b: nat)
    requires
        a > 0 || b > 0,
    ensures
        gcd(a, b) > 0,
        a % gcd(a, b) == 0,
        b % gcd(a, b) == 0,
    decreases b,
{
    if b == 0 {
        lemma_mod_self_0(a as int);
        lemma_small_mod(0nat, a);
    } else {
        lemma_mod_bound(a as int, b as int);
        lemma_gcd_divides(b, a % b);
        let g = gcd(b, a % b);
        lemma_fundamental_div_mod(a as int, b as int);
        lemma_fundamental_div_mod(b as int, g as int);
        lemma_fundamental_div_mod((a % b) as int, g as int);
        let k1 = b as int / g as int;
        let k2 = (a % b) as int / g as int;
        let q = a as int / b as int;
        assert(a as int == g * (k1 * q + k2)) by (nonlinear_arith)
            requires
                a as int == b * q + (a % b),
                b as int == g * k1 + (b as int % g as int),
                (a % b) as int == g * k2 + ((a % b) as int % g as int),
                b as int % g as int == 0,
                (a % b) as int % g as int == 0,
        ;
        lemma_mod_multiples_basic(k1 * q + k2, g as int);
        assert(a as int % g as int == (g * (k1 * q + k2)) % g as int);
        assert(g * (k1 * q + k2) == (k1 * q + k2) * g as int) by (nonlinear_arith);
    }
}

/// Any common divisor of the two arguments divides their gcd.
pub proof fn lemma_divides_gcd(d: nat, a: nat, b: nat)
    requires
        d > 0,
        a % d == 0,
        b % d == 0,
    ensures
        gcd(a, b) % d == 0,
    decreases b,
{
    if b > 0 {
        lemma_fundamental_div_mod(a as int, b as int);
        lemma_fundamental_div_mod(a as int, d as int);
        lemma_fundamental_div_mod(b as int, d as int);
        let q = a as int / b as int;
        let ka = a as int / d as int;
        let kb = b as int / d as int;
        assert((a % b) as int == d * (ka - kb * q)) by (nonlinear_arith)
            requires
                (a % b) as int == a - b * q,
                a as int == d * ka + (a as int % d as int),
                b as int == d * kb + (b as int % d as int),
                a as int % d as int == 0,
                b as int % d as int == 0,
        ;
        lemma_mod_multiples_basic(ka - kb * q, d as int);
        assert(d * (ka - kb * q) == (ka - kb * q) * d as int) by (nonlinear_arith);
        lemma_mod_bound(a as int, b as int);
        lemma_divides_gcd(d, b, a % b);
    }
}

/// A divisor of the base divides every positive power of it.
pub proof fn lemma_divides_pow(d: nat, c: nat, k: nat)
    requires
        d > 0,
        c % d == 0,
        k >= 1,
    ensures
        pow(c as int, k) % (d as int) == 0,
    decreases k,
{
    lemma_pow1(c as int);
    if k == 1 {
    } else {
        lemma_divides_pow(d, c, (k - 1) as nat);
        lemma_pow_adds(c as int, 1, (k - 1) as nat);
        lemma_fundamental_div_mod(c as int, d as int);
        lemma_fundamental_div_mod(pow(c as int, (k - 1) as nat), d as int);
        let kc = c as int / d as int;
        let kp = pow(c as int, (k - 1) as nat) / d as int;
        assert(pow(c as int, k) == ((kc * d) * kp) * d) by (nonlinear_arith)
            requires
                pow(c as int, k) == c * pow(c as int, (k - 1) as nat),
                c as int == d * kc + (c as int % d as int),
                c as int % d as int == 0,
                pow(c as int, (k - 1) as nat) == d * kp + (pow(c as int, (k - 1) as nat) % (
                d as int)),
                pow(c as int, (k - 1) as nat) % (d as int) == 0,
        ;
        lemma_mod_multiples_basic((kc * d) * kp, d as int);
    }
}

/// A positive-power root of a unit is itself a unit: if
/// `w^e == state (mod n)` with `e >= 1` and `state` coprime with `n`,
/// then `w` is coprime with `n`. The accumulator relies on this to keep
/// every intermediate combined root invertible.
pub proof fn lemma_root_is_unit(w: u128, e: nat, state: u128, n: u128)
    requires
        n >= 2,
        e >= 1,
        gcd(state as nat, n as nat) == 1,
        pow(w as int, e) % (n as int) == state as int,
    ensures
        gcd(w as nat, n as nat) == 1,
{
    let d = gcd(w as nat, n as nat);
    lemma_gcd_divides(w as nat, n as nat);
    lemma_divides_pow(d, w as nat, e);
    lemma_fundamental_div_mod(pow(w as int, e), n as int);
    lemma_fundamental_div_mod(pow(w as int, e), d as int);
    lemma_fundamental_div_mod(n as int, d as int);
    let kp = pow(w as int, e) / d as int;
    let kn = n as int / d as int;
    let q = pow(w as int, e) / n as int;
    assert(state as int == (kp - kn * q) * d as int) by (nonlinear_arith)
        requires
            state as int == pow(w as int, e) - n * q,
            pow(w as int, e) == d * kp + (pow(w as int, e) % (d as int)),
            pow(w as int, e) % (d as int) == 0,
            n as int == d * kn + (n as int % d as int),
            n as int % d as int == 0,
    ;
    lemma_mod_multiples_basic(kp - kn * q, d as int);
    lemma_divides_gcd(d, state as nat, n as nat);
    if d != 1 {
        lemma_small_mod(1nat, d);
    }
}

/// Raising a reduced product to a power splits into the product of the
/// powers, mod m.
pub proof fn lemma_pow_split_base(u: int, v: int, e: nat, m: int)
    requires
        m >= 1,
    ensures
        pow((u * v) % m, e) % m == (pow(u, e) * pow(v, e)) % m,
{
    lemma_pow_mod_noop(u * v, e, m);
    lemma_pow_distributes(u, v, e);
}

/// Raising a reduced power to a further power is the power of the
/// product of the exponents, mod m.
pub proof fn lemma_pow_then_pow(c: int, e1: nat, e2: nat, m: int)
    requires
        m >= 1,
    ensures
        pow(pow(c, e1) % m, e2) % m == pow(c, e1 * e2) % m,
{
    lemma_pow_mod_noop(pow(c, e1), e2, m);
    lemma_pow_multiplies(c, e1, e2);
}

/// Powers of a unit and of its inverse cancel mod m.
pub proof fn lemma_pow_units_cancel(c: int, ci: int, k: nat, m: int)
    requires
        m >= 2,
        (c * ci) % m == 1,
    ensures
        (pow(c, k) * pow(ci, k)) % m == 1,
    decreases k,
{
    if k == 0 {
        lemma_pow0(c);
        lemma_pow0(ci);
        lemma_small_mod(1nat, m as nat);
    } else {
        let k1 = (k - 1) as nat;
        lemma_pow_units_cancel(c, ci, k1, m);
        lemma_pow1(c);
        lemma_pow1(ci);
        lemma_pow_adds(c, 1, k1);
        lemma_pow_adds(ci, 1, k1);
        assert(pow(c, k) == c * pow(c, k1));
        assert(pow(ci, k) == ci * pow(ci, k1));
        assert(pow(c, k) * pow(ci, k) == (c * ci) * (pow(c, k1) * pow(ci, k1)))
            by (nonlinear_arith)
            requires
                pow(c, k) == c * pow(c, k1),
                pow(ci, k) == ci * pow(ci, k1),
        ;
        lemma_mul_mod_noop(c * ci, pow(c, k1) * pow(ci, k1), m);
        lemma_small_mod(1nat, m as nat);
    }
}

/// The minimal Bezout pair of coprime `a` and `b`: the identity holds
/// and, in the general case, both coefficients sit within half the
/// opposite input, which makes the pair unique.
pub open spec fn bezout_pair(a: u128, b: u128, x: int, y: int) -> bool {
    &&& a * x + b * y == 1
    &&& b == 0 ==> x == 1 && y == 0
    &&& b > 0 && a % b == 0 ==> x == 0 && y == 1
    &&& b > 0 && a % b != 0 ==> 2 * abs(x) <= b && 2 * abs(y) <= a
}

/// For coprime inputs, at most one pair satisfies `bezout_pair`: two
/// solutions differ by a multiple of the opposite input, which the
/// half-bounds allow only at the boundary, and the boundary would force
/// both inputs even.
pub proof fn lemma_bezout_pair_unique(a: u128, b: u128, x1: int, y1: int, x2: int, y2: int)
    requires
        gcd(a as nat, b as nat) == 1,
        bezout_pair(a, b, x1, y1),
        bezout_pair(a, b, x2, y2),
    ensures
        x1 == x2,
        y1 == y2,
{
    if b == 0 || a % b == 0 {
        // Both pairs are the literal one.
    } else {
        let dd = x1 - x2;
        let ee = y2 - y1;
        assert(a * dd == b * ee) by (nonlinear_arith)
            requires
                a * x1 + b * y1 == 1,
                a * x2 + b * y2 == 1,
                dd == x1 - x2,
                ee == y2 - y1,
        ;
        // b divides the coefficient gap, through the first pair's own
        // Bezout identity.
        let f = x1 * ee + dd * y1;
        assert(dd == b * f) by (nonlinear_arith)
            requires
                a * x1 + b * y1 == 1,
                a * dd == b * ee,
                f == x1 * ee + dd * y1,
        ;
        assert(-(b as int) <= dd <= b);
        assert(-1 <= f <= 1) by (nonlinear_arith)
            requires
                dd == b * f,
                -(b as int) <= dd <= b,
                b >= 1,
        ;
        if f == 0 {
            assert(dd == 0) by (nonlinear_arith)
                requires
                    dd == b * f,
                    f == 0,
            ;
            assert(ee == 0) by (nonlinear_arith)
                requires
                    a * dd == b * ee,
                    dd == 0,
                    b >= 1,
            ;
        } else {
            // The gap spans the whole window, so every coefficient sits
            // at the boundary and both inputs are even — impossible for
            // coprime inputs.
            assert(ee == a * f) by (nonlinear_arith)
                requires
                    a * dd == b * ee,
                    dd == b * f,
                    b >= 1,
            ;
            if f == 1 {
                assert(dd == b && ee == a) by (nonlinear_arith)
                    requires
                        dd == b * f,
                        ee == a * f,
                        f == 1,
                ;
            } else {
                assert(dd == -(b as int) && ee == -(a as int)) by (nonlinear_arith)
                    requires
                        dd == b * f,
                        ee == a * f,
                        f == -1,
                ;
            }
            assert(2 * abs(x1) == b && 2 * abs(x2) == b);
            assert(2 * abs(y1) == a && 2 * abs(y2) == a);
            assert((a as nat) % 2 == 0 && (b as nat) % 2 == 0) by {
                lemma_mod_multiples_basic(abs(x1) as int, 2);
                lemma_mod_multiples_basic(abs(y1) as int, 2);
                assert(b == abs(x1) * 2 && a == abs(y1) * 2);
            }
            lemma_divides_gcd(2, a as nat, b as nat);
            lemma_small_mod(1nat, 2nat);
            assert(false);
        }
    }
}

/// The minimal Bezout pair of `a` and `b`, as a value: well defined for
/// coprime inputs by the uniqueness lemma.
pub open spec fn bezout_coeffs(a: u128, b: u128) -> (int, int) {
    choose|p: (int, int)| bezout_pair(a, b, p.0, p.1)
}

/// Bezout coefficients of `a` and `b`, returned only when the two are
/// coprime: `Some((x, y))` with `a*x + b*y == 1` exactly when
/// `gcd(a, b) == 1`, and `None` otherwise. The returned pair is the
/// minimal one, `bezout_coeffs(a, b)`.
pub fn bezout(a: u128, b: u128) -> (res: Option<(i128, i128)>)
    requires
        a < GCD_INPUT_BOUND,
        b < GCD_INPUT_BOUND,
    ensures
        res is Some <==> gcd(a as nat, b as nat) == 1,
        res is Some ==> {
            let (x, y) = res->Some_0;
            a * x + b * y == 1
                && abs(x as int) <= max(b as int, 1)
                && abs(y as int) <= max(a as int, 1)
                && bezout_pair(a, b, x as int, y as int)
                && (x as int, y as int) == bezout_coeffs(a, b)
        },
{
    let (g, x, y) = extended_gcd(a, b);
    if g != 1 {
        None
    } else {
        proof {
            if b > 0 && a % b != 0 {
                assert(2 * abs(x as int) <= b && 2 * abs(y as int) <= a) by (nonlinear_arith)
                    requires
                        2 * abs(x as int) * (g as int) <= b,
                        2 * abs(y as int) * (g as int) <= a,
                        g == 1,
                        abs(x as int) >= 0,
                        abs(y as int) >= 0,
                ;
            }
            assert(bezout_pair(a, b, x as int, y as int));
            let p = bezout_coeffs(a, b);
            assert(bezout_pair(a, b, p.0, p.1)) by {
                assert(exists|q: (int, int)| bezout_pair(a, b, q.0, q.1)) by {
                    let q = (x as int, y as int);
                    assert(bezout_pair(a, b, q.0, q.1));
                }
            }
            lemma_bezout_pair_unique(a, b, x as int, y as int, p.0, p.1);
        }
        Some((x, y))
    }
}

/// A residue has at most one inverse below the modulus.
pub proof fn lemma_inverse_unique(e: u128, v1: u128, v2: u128)
    requires
        v1 < crate::MODULUS,
        v2 < crate::MODULUS,
        (e * v1) % (crate::MODULUS as int) == 1,
        (e * v2) % (crate::MODULUS as int) == 1,
    ensures
        v1 == v2,
{
    let m = crate::MODULUS as int;
    // v1 == v1 * (e * v2) == (e * v1) * v2 == v2, all mod m.
    lemma_mul_mod_noop_right(v1 as int, e * v2, m);
    lemma_small_mod(v1 as nat, crate::MODULUS as nat);
    assert(v1 * ((e * v2) % m) == v1);
    assert(v1 * (e * v2) == (e * v1) * v2) by (nonlinear_arith);
    lemma_mul_mod_noop_left(e * v1, v2 as int, m);
    assert(((e * v1) % m) * v2 == v2);
    lemma_small_mod(v2 as nat, crate::MODULUS as nat);
    assert(v1 == (v1 * (e * v2)) % m);
    assert(v2 == ((e * v1) * v2) % m);
}

/// The inverse of `e` mod the fixed modulus, as a value: well defined
/// for units by the uniqueness lemma.
pub open spec fn inv_mod(e: u128) -> u128 {
    choose|v: u128| v < crate::MODULUS && #[trigger] ((e * v) % (crate::MODULUS as int)) == 1
}

/// A concrete inverse below the modulus is the value of `inv_mod`.
pub proof fn lemma_inv_mod_value(e: u128, v: u128)
    requires
        v < crate::MODULUS,
        (e * v) % (crate::MODULUS as int) == 1,
    ensures
        v == inv_mod(e),
{
    let w = inv_mod(e);
    assert(w < crate::MODULUS && (e * w) % (crate::MODULUS as int) == 1) by {
        assert(exists|u: u128|
            u < crate::MODULUS && #[trigger] ((e * u) % (crate::MODULUS as int)) == 1) by {
            assert(v < crate::MODULUS && (e * v) % (crate::MODULUS as int) == 1);
        }
    }
    lemma_inverse_unique(e, v, w);
}

/// The modular multiplicative inverse of `elem` in the accumulator group:
/// the unique `r < MODULUS` with `(elem * r) % MODULUS == 1`. The caller
/// must ensure `elem` is coprime with the modulus; the function does not
/// check it.
pub fn mod_inverse(elem: u128) -> (r: u128)
    requires
        elem < GCD_INPUT_BOUND,
        gcd(elem as nat, crate::MODULUS as nat) == 1,
    ensures
        r < crate::MODULUS,
        (elem * r) % (crate::MODULUS as int) == 1,
        r == inv_mod(elem),
{
    let ghost m = crate::MODULUS as int;
    let (_, x, yc) = extended_gcd(elem, crate::MODULUS);
    let ghost y = yc as int;
    proof {
        // The coefficient cannot reach the modulus in magnitude: that would
        // make the modulus divide 1.
        assert(abs(x as int) < crate::MODULUS) by {
            if abs(x as int) == crate::MODULUS {
                assert(false) by (nonlinear_arith)
                    requires
                        elem * x + crate::MODULUS * y == 1,
                        abs(x as int) == crate::MODULUS as int,
                        crate::MODULUS >= 2,
                        elem >= 0;
            }
        }
    }
    if x < 0 {
        let pos_x: u128 = crate::MODULUS - ((-x) as u128);
        proof {
            lemma_small_mod(pos_x as nat, crate::MODULUS as nat);
            // elem * (M + x) == 1 + M * (elem - y), so reduction drops it.
            assert(elem * pos_x == 1 + m * (elem - y)) by (nonlinear_arith)
                requires
                    elem * x + m * y == 1,
                    pos_x == m + x;
            lemma_mod_multiples_vanish(elem - y, 1, m);
            lemma_small_mod(1nat, crate::MODULUS as nat);
            lemma_inv_mod_value(elem, (pos_x % crate::MODULUS) as u128);
        }
        return pos_x % crate::MODULUS;
    }
    proof {
        lemma_small_mod(x as nat, crate::MODULUS as nat);
        lemma_mod_multiples_vanish(-y, 1, m);
        assert(elem * x == 1 + m * (-y));
        lemma_small_mod(1nat, crate::MODULUS as nat);
        lemma_inv_mod_value(elem, ((x as u128) % crate::MODULUS) as u128);
    }
    return (x as u128) % crate::MODULUS;
}

} // verus!
