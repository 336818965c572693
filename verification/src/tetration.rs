//! Modular arithmetic on giant numbers: `a↑↑h mod m` through the totient ladder, a lazy
//! residue cache, small Ackermann values and Lucas binomials mod a prime.

use vstd::prelude::*;
use vstd::arithmetic::power::{
    pow, lemma_pow_adds, lemma_pow_multiplies, lemma_pow_mod_noop, lemma_pow1, lemma_pow0, lemma0_pow,
    lemma1_pow, lemma_pow_positive,
};
use vstd::arithmetic::power2::pow2;
use vstd::arithmetic::div_mod::{
    lemma_mul_mod_noop_general, lemma_small_mod, lemma_fundamental_div_mod, lemma_mod_multiples_basic,
    lemma_div_multiples_vanish,
};
use crate::euler::{
    periodic, shifted, exp_ok, prime_power_totient, lemma_prime_power_periodic, lemma_periodic_combine,
    lemma_prime_divides_prime_power, lemma_prime_not_dividing_product,
};
use std::collections::BTreeMap;
use crate::primes::{
    binom, fact, falling, is_prime, lemma_binom_fact, lemma_fact_unit, lemma_fermat_inverse,
};
use crate::text::{push_str, u128_to_string, decimal};

verus! {

/// `2^64`, the largest modulus the `u128` arithmetic here supports (exclusive).
pub open spec fn modulus_limit() -> int {
    0x1_0000_0000_0000_0000
}

proof fn lemma_powmod_step(r: int, b: int, e: nat, m: int)
    requires
        m > 0,
    ensures
        ((if e % 2 == 1 { (r * b) % m } else { r }) * pow((b * b) % m, e / 2)) % m
            == (r * pow(b, e)) % m,
{
    let q = e / 2;
    let bit: nat = e % 2;
    assert(e == 2 * q + bit);
    lemma_pow_adds(b, bit, 2 * q);
    lemma_pow_multiplies(b, 2, q);
    assert(pow(b, 2) == b * b) by {
        lemma_pow1(b);
        reveal(pow);
        assert(pow(b, 2) == b * pow(b, 1));
    }
    lemma_pow_mod_noop(b * b, q, m);
    let p = pow(b * b, q);
    let pm = pow((b * b) % m, q);
    assert(pm % m == p % m);
    if bit == 1 {
        assert(pow(b, 1) == b) by { lemma_pow1(b); }
        lemma_mul_mod_noop_general(r * b, pm, m);
        lemma_mul_mod_noop_general(r * b, p, m);
        assert((r * b) * p == r * (b * p)) by (nonlinear_arith);
        assert(pow(b, e) == b * p);
    } else {
        lemma_pow0(b);
        lemma_mul_mod_noop_general(r, pm, m);
        lemma_mul_mod_noop_general(r, p, m);
        assert(pow(b, e) == p);
    }
}

/// Modular exponentiation `a^e mod m` (for `m < 2^64`, `u128` intermediates).
pub fn powmod(a: u128, e: u128, m: u128) -> (r: u128)
    requires
        0 < m < modulus_limit(),
    ensures
        r == pow(a as int, e as nat) % (m as int),
        r < m,
{
    if m == 1 {
        return 0;
    }
    let ghost a0 = a as int;
    let ghost e0 = e as nat;
    let mut b = a % m;
    let mut e = e;
    let mut r: u128 = 1;
    proof {
        lemma_pow_mod_noop(a0, e0, m as int);
        lemma_small_mod(1, m as nat);
    }
    while e > 0
        invariant
            1 < m < modulus_limit(),
            b < m,
            r < m,
            (r * pow(b as int, e as nat)) % (m as int) == pow(a0, e0) % (m as int),
        decreases e,
    {
        proof { lemma_powmod_step(r as int, b as int, e as nat, m as int); }
        if e % 2 == 1 {
            assert(r * b < modulus_limit() * modulus_limit()) by (nonlinear_arith)
                requires r < modulus_limit(), b < modulus_limit();
            r = r * b % m;
        }
        assert(b * b < modulus_limit() * modulus_limit()) by (nonlinear_arith)
            requires b < modulus_limit();
        b = b * b % m;
        e = e / 2;
    }
    proof {
        lemma_pow0(b as int);
        lemma_small_mod(r as nat, m as nat);
    }
    r
}

/// `m` with every factor `p` divided out.
pub open spec fn strip(m: nat, p: nat) -> nat
    decreases m,
{
    if p < 2 || m == 0 || m % p != 0 {
        m
    } else {
        proof { assert(m / p < m) by (nonlinear_arith) requires p >= 2, m > 0; }
        strip(m / p, p)
    }
}

pub proof fn lemma_strip_le(m: nat, p: nat)
    ensures
        strip(m, p) <= m,
        m > 0 ==> strip(m, p) > 0,
        p >= 2 && m > 0 && m % p == 0 ==> strip(m, p) < m,
    decreases m,
{
    if !(p < 2 || m == 0 || m % p != 0) {
        assert(m / p < m) by (nonlinear_arith) requires p >= 2, m > 0;
        assert(m / p > 0) by (nonlinear_arith) requires p >= 2, m > 0, m % p == 0;
        lemma_strip_le(m / p, p);
    }
}

/// Trial-division totient: for each candidate `p` with `p² ≤ m` that divides the rest of
/// `m`, divide `p` out and scale the result by `(1 − 1/p)`; a leftover factor `> 1` is a
/// prime and scales the result the same way.
pub open spec fn phi_from(m: nat, p: nat, result: nat) -> nat
    decreases m, m + 1 - p when p >= 2
{
    if p * p > m {
        if m > 1 { (result - result / m) as nat } else { result }
    } else if m % p == 0 {
        proof {
            lemma_strip_le(m, p);
            assert(p <= p * p) by (nonlinear_arith) requires p >= 2;
        }
        phi_from(strip(m, p), p + 1, (result - result / p) as nat)
    } else {
        proof { assert(p <= p * p) by (nonlinear_arith) requires p >= 2; }
        phi_from(m, p + 1, result)
    }
}

/// Euler's totient of `m` by trial division.
pub open spec fn phi_spec(m: nat) -> nat {
    phi_from(m, 2, m)
}

proof fn lemma_phi_from_bounds(m: nat, p: nat, result: nat)
    requires
        p >= 2,
    ensures
        phi_from(m, p, result) <= result,
        result >= 1 ==> phi_from(m, p, result) >= 1,
    decreases m, m + 1 - p,
{
    if p * p > m {
        if m > 1 {
            assert(result / m <= result);
            assert(result >= 1 ==> result / m < result) by (nonlinear_arith) requires m > 1;
        }
    } else if m % p == 0 {
        lemma_strip_le(m, p);
        assert(p <= p * p) by (nonlinear_arith) requires p >= 2;
        assert(result >= 1 ==> result / p < result) by (nonlinear_arith) requires p >= 2;
        lemma_phi_from_bounds(strip(m, p), p + 1, (result - result / p) as nat);
    } else {
        assert(p <= p * p) by (nonlinear_arith) requires p >= 2;
        lemma_phi_from_bounds(m, p + 1, result);
    }
}

/// `p²` for `p ≤ 2^32`.
fn square(p: u128) -> (r: u128)
    requires
        p <= 0x1_0000_0000,
    ensures
        r == p * p,
{
    assert(p * p <= 0x1_0000_0000 * 0x1_0000_0000) by (nonlinear_arith) requires p <= 0x1_0000_0000;
    p * p
}

/// The totient never exceeds its argument and is positive for positive arguments.
pub proof fn lemma_phi_bounds(m: nat)
    ensures
        phi_spec(m) <= m,
        m >= 1 ==> phi_spec(m) >= 1,
{
    lemma_phi_from_bounds(m, 2, m);
}

/// Euler totient `φ(m)` by trial division (`m < 2^64`).
pub fn phi(m: u128) -> (r: u128)
    requires
        m < modulus_limit(),
    ensures
        r == phi_spec(m as nat),
{
    let ghost m0 = m as nat;
    let mut m = m;
    let mut result = m;
    let mut p: u128 = 2;
    while square(p) <= m
        invariant
            2 <= p <= 0x1_0000_0000,
            m < modulus_limit(),
            result <= m0,
            m0 < modulus_limit(),
            phi_spec(m0) == phi_from(m as nat, p as nat, result as nat),
        decreases m, m + 1 - p,
    {
        assert(p < 0x1_0000_0000) by (nonlinear_arith)
            requires p * p <= m, m < modulus_limit(), p >= 2;
        assert(p <= p * p) by (nonlinear_arith) requires p >= 2;
        if m % p == 0 {
            let ghost m1 = m as nat;
            while m % p == 0
                invariant
                    2 <= p,
                    0 < m <= m1,
                    strip(m as nat, p as nat) == strip(m1, p as nat),
                decreases m,
            {
                assert(m / p < m) by (nonlinear_arith) requires p >= 2, m > 0;
                assert(m / p > 0) by (nonlinear_arith) requires p >= 2, m % p == 0, m > 0;
                m = m / p;
            }
            assert(strip(m as nat, p as nat) == m);
            proof { lemma_strip_le(m1, p as nat); }
            assert(result / p <= result);
            result = result - result / p;
        }
        p = p + 1;
    }
    if m > 1 {
        result = result - result / m;
    }
    result
}

/// How many times `p` divides `m`.
pub open spec fn mult(m: nat, p: nat) -> nat
    decreases m,
{
    if p < 2 || m == 0 || m % p != 0 {
        0
    } else {
        proof { assert(m / p < m) by (nonlinear_arith) requires p >= 2, m > 0; }
        1 + mult(m / p, p)
    }
}

/// `m = p^mult(m, p) · strip(m, p)`, and `p` no longer divides what is left.
proof fn lemma_strip_factor(m: nat, p: nat)
    requires
        p >= 2,
        m >= 1,
    ensures
        m == pow(p as int, mult(m, p)) * strip(m, p),
        strip(m, p) % p != 0,
        m % p == 0 ==> mult(m, p) >= 1,
    decreases m,
{
    reveal(pow);
    if m % p == 0 {
        assert(m / p < m) by (nonlinear_arith) requires p >= 2, m > 0;
        assert(m / p >= 1) by (nonlinear_arith) requires p >= 2, m % p == 0, m > 0;
        lemma_strip_factor(m / p, p);
        let k = mult(m / p, p);
        lemma_fundamental_div_mod(m as int, p as int);
        assert(m == p * (m / p));
        assert(pow(p as int, k + 1) == p * pow(p as int, k));
        assert(m == pow(p as int, k + 1) * strip(m, p)) by (nonlinear_arith)
            requires
                m == p * (m / p),
                m / p == pow(p as int, k) * strip(m / p, p),
                strip(m, p) == strip(m / p, p),
                pow(p as int, k + 1) == p * pow(p as int, k);
    }
}

proof fn lemma_divides_trans(x: int, y: int, z: int)
    requires
        y > 0,
        z > 0,
        x % y == 0,
        y % z == 0,
    ensures
        x % z == 0,
{
    lemma_fundamental_div_mod(x, y);
    lemma_fundamental_div_mod(y, z);
    let k = x / y;
    let l = y / z;
    assert(x == (l * k) * z) by (nonlinear_arith) requires x == y * k + 0, y == z * l + 0;
    lemma_mod_multiples_basic(l * k, z);
}

/// The least divisor at least `2` is a prime.
proof fn lemma_least_divisor_prime(r: nat, p: nat)
    requires
        p >= 2,
        r >= 1,
        r % p == 0,
        forall|x: int| 2 <= x < p ==> #[trigger] ((r as int) % x) != 0,
    ensures
        is_prime(p as int),
{
    assert forall|x: int| 2 <= x < p implies #[trigger] ((p as int) % x) != 0 by {
        if (p as int) % x == 0 {
            lemma_divides_trans(r as int, p as int, x);
        }
    }
}

/// What is left after trial division by every candidate below `p`, with `p² > r`, is a prime.
proof fn lemma_leftover_prime(r: nat, p: nat)
    requires
        r >= 2,
        p >= 2,
        p * p > r,
        forall|x: int| 2 <= x < p ==> #[trigger] ((r as int) % x) != 0,
    ensures
        is_prime(r as int),
{
    assert forall|x: int| 2 <= x < r implies #[trigger] ((r as int) % x) != 0 by {
        if (r as int) % x == 0 && x >= p {
            lemma_fundamental_div_mod(r as int, x);
            let k = (r as int) / x;
            assert(r == x * k);
            assert(k >= 2 && k < p) by (nonlinear_arith)
                requires r == x * k, x >= p, p * p > r, x < r, r >= 2, x >= 2;
            lemma_mod_multiples_basic(x, k);
            assert(x * k == k * x) by (nonlinear_arith);
            assert((r as int) % k != 0);
        }
    }
}

/// Trial division keeps this invariant: the part `d` of the modulus already divided out has
/// period `g`, the rest `r` has no divisor below `p`, no prime from `p` on divides `d`, and
/// the running value is `g · r`. Then the totient it ends with is a period modulo `d · r`.
proof fn lemma_phi_from_periodic(a: nat, r: nat, p: nat, res: nat, d: nat, g: nat)
    requires
        p >= 2,
        r >= 1,
        d >= 1,
        g >= 1,
        res == g * r,
        forall|x: int| 2 <= x < p ==> #[trigger] ((r as int) % x) != 0,
        forall|q: int| is_prime(q) && q >= p ==> #[trigger] ((d as int) % q) != 0,
        periodic(a as int, d as int, g),
    ensures
        periodic(a as int, (d * r) as int, phi_from(r, p, res)),
    decreases r, r + 1 - p,
{
    if p * p > r {
        if r > 1 {
            lemma_leftover_prime(r, p);
            lemma_div_multiples_vanish(g as int, r as int);
            assert((r * g) as int == g * r) by (nonlinear_arith);
            assert(res / r == g);
            let big = (g * (r - 1)) as nat;
            assert(phi_from(r, p, res) == big) by (nonlinear_arith)
                requires phi_from(r, p, res) == res - res / r, res == g * r, res / r == g, big == g * (r - 1);
            lemma_prime_power_periodic(a, r as int, 1);
            lemma_pow0(r as int);
            lemma_pow1(r as int);
            assert(prime_power_totient(r as int, 1) == (r - 1) as nat);
            assert(big >= 1 && big % g == 0 && big % ((r - 1) as nat) == 0) by (nonlinear_arith)
                requires big == g * (r - 1), g >= 1, r >= 2;
            if r < p {
                lemma_mod_multiples_basic(1, r as int);
                assert((r as int) % (r as int) == 0);
            }
            assert((d as int) % (r as int) != 0);
            lemma_periodic_combine(a as int, d as int, g, r as int, 1, (r - 1) as nat, big);
        } else {
            assert(d * r == d && res == g) by (nonlinear_arith) requires r == 1, res == g * r;
        }
    } else if r % p == 0 {
        lemma_least_divisor_prime(r, p);
        lemma_strip_factor(r, p);
        lemma_strip_le(r, p);
        let k = mult(r, p);
        let s = strip(r, p);
        let pk = pow(p as int, k);
        let pk1 = pow(p as int, (k - 1) as nat);
        reveal(pow);
        assert(pk == p * pk1);
        lemma_pow_positive(p as int, (k - 1) as nat);
        let g2 = prime_power_totient(p as int, k);
        assert(g2 == pk1 * (p - 1));
        let g1 = g * g2;
        let res1 = (res - res / p) as nat;
        assert(res == p * (g * pk1 * s)) by (nonlinear_arith)
            requires res == g * r, r == pk * s, pk == p * pk1;
        lemma_div_multiples_vanish(g * pk1 * s, p as int);
        assert(res1 == g1 * s) by (nonlinear_arith)
            requires
                res1 == res - res / p,
                res / p == g * pk1 * s,
                res == p * (g * pk1 * s),
                g1 == g * (pk1 * (p - 1));
        assert(g2 >= 1 && g1 >= 1 && g1 % g == 0 && g1 % g2 == 0) by (nonlinear_arith)
            requires g2 == pk1 * (p - 1), pk1 >= 1, p >= 2, g >= 1, g1 == g * g2;
        lemma_prime_power_periodic(a, p as int, k);
        lemma_periodic_combine(a as int, d as int, g, p as int, k, g2, g1);
        let d1 = (d * pk) as nat;
        assert(pk >= 1) by (nonlinear_arith) requires pk == p * pk1, pk1 > 0, p >= 2;
        assert(d1 >= 1) by (nonlinear_arith) requires d >= 1, pk >= 1, d1 == d * pk;
        assert forall|x: int| 2 <= x < p + 1 implies #[trigger] ((s as int) % x) != 0 by {
            if x < p && (s as int) % x == 0 {
                lemma_mod_multiples_basic(pk, s as int);
                assert(pk * s == r);
                lemma_divides_trans(r as int, s as int, x);
            }
        }
        assert forall|q: int| is_prime(q) && q >= p + 1 implies #[trigger] ((d1 as int) % q) != 0 by {
            assert((d as int) % q != 0);
            lemma_prime_divides_prime_power(q, p as int, k);
            lemma_prime_not_dividing_product(q, d as int, pk);
        }
        lemma_phi_from_periodic(a, s, p + 1, res1, d1, g1);
        assert(d1 * s == d * r) by (nonlinear_arith) requires d1 == d * pk, r == pk * s;
    } else {
        assert(p <= p * p) by (nonlinear_arith) requires p >= 2;
        lemma_phi_from_periodic(a, r, p + 1, res, d, g);
    }
}

/// Euler's theorem in lifted form, for the trial-division totient: modulo `m`, every base's
/// powers repeat with period `φ(m)` from each exponent `e` with `e ≥ φ(m)` or `2^e ≥ m`.
pub proof fn lemma_phi_periodic(a: nat, m: nat)
    requires
        m >= 1,
    ensures
        periodic(a as int, m as int, phi_spec(m)),
{
    assert forall|e: nat, c: nat| exp_ok(e, 1, 1) implies #[trigger] shifted(a as int, e, c, 1) % 1
        == pow(a as int, e) % 1 by {}
    assert forall|q: int| is_prime(q) && q >= 2 implies #[trigger] ((1nat as int) % q) != 0 by {
        lemma_small_mod(1, q as nat);
    }
    lemma_phi_from_periodic(a, m, 2, m, 1, 1);
}

/// The exact tower `a↑↑h` (`a↑↑0 = 1`, `a↑↑(h+1) = a^(a↑↑h)`).
pub open spec fn tower(a: nat, h: nat) -> nat
    decreases h,
{
    if h == 0 { 1 } else { pow(a as int, tower(a, (h - 1) as nat)) as nat }
}

/// Every power `a^k`, `1 ≤ k ≤ v`, stays at most `cap`.
pub open spec fn powers_fit(a: nat, v: nat, cap: nat) -> bool {
    forall|k: nat| 1 <= k <= v ==> #[trigger] pow(a as int, k) <= cap
}

/// Every level of the tower up to `h` is computable under `cap` (all intermediate powers
/// and every level value stay at most `cap`).
pub open spec fn tower_fits(a: nat, h: nat, cap: nat) -> bool {
    forall|l: nat| 1 <= l <= h ==> powers_fit(a, tower(a, (l - 1) as nat), cap) && #[trigger] tower(a, l) <= cap
}

proof fn lemma_fits_level(a: nat, h: nat, cap: nat, l: nat)
    requires
        tower_fits(a, h, cap),
        1 <= l <= h,
    ensures
        powers_fit(a, tower(a, (l - 1) as nat), cap),
        tower(a, l) <= cap,
{
    assert(tower(a, l) <= cap);
}

/// `a↑↑h` exactly if every intermediate value stays at most `cap`, else `None`.
#[verifier::spinoff_prover]
fn small_tower(a: u128, h: u32, cap: u128) -> (r: Option<u128>)
    ensures
        tower_fits(a as nat, h as nat, cap as nat) ==> r == Some(tower(a as nat, h as nat) as u128),
        !tower_fits(a as nat, h as nat, cap as nat) ==> r.is_none(),
{
    if h == 0 {
        return Some(1);
    }
    let mut v: u128 = 1;
    let mut l: u32 = 0;
    while l < h
        invariant
            l <= h,
            v == tower(a as nat, l as nat),
            tower_fits(a as nat, l as nat, cap as nat),
        decreases h - l,
    {
        let mut acc: u128 = 1;
        let mut k: u128 = 0;
        proof { lemma_pow0(a as int); }
        while k < v
            invariant
                l < h,
                k <= v,
                v == tower(a as nat, l as nat),
                tower_fits(a as nat, l as nat, cap as nat),
                acc == pow(a as int, k as nat),
                acc <= cap || k == 0,
                powers_fit(a as nat, k as nat, cap as nat),
            decreases v - k,
        {
            proof {
                reveal(pow);
                assert(pow(a as int, (k + 1) as nat) == a * pow(a as int, k as nat));
                assert(acc * a == a * acc) by (nonlinear_arith);
            }
            match acc.checked_mul(a) {
                Some(x) => { acc = x; },
                None => {
                    proof {
                        assert(pow(a as int, (k + 1) as nat) > cap);
                        if tower_fits(a as nat, h as nat, cap as nat) {
                            lemma_fits_level(a as nat, h as nat, cap as nat, (l + 1) as nat);
                            assert(pow(a as int, (k + 1) as nat) <= cap);
                        }
                    }
                    return None;
                },
            }
            if acc > cap {
                proof {
                    if tower_fits(a as nat, h as nat, cap as nat) {
                        lemma_fits_level(a as nat, h as nat, cap as nat, (l + 1) as nat);
                        assert(pow(a as int, (k + 1) as nat) <= cap);
                    }
                }
                return None;
            }
            k = k + 1;
        }
        v = acc;
        if v > cap {
            proof {
                if tower_fits(a as nat, h as nat, cap as nat) {
                    lemma_fits_level(a as nat, h as nat, cap as nat, (l + 1) as nat);
                }
            }
            return None;
        }
        proof {
            assert(tower(a as nat, (l + 1) as nat) == v);
            assert forall|j: nat| 1 <= j <= l + 1 implies
                powers_fit(a as nat, tower(a as nat, (j - 1) as nat), cap as nat) && #[trigger] tower(a as nat, j) <= cap by {
                if j == l + 1 {
                    assert((j - 1) as nat == l as nat);
                } else {
                    lemma_fits_level(a as nat, l as nat, cap as nat, j);
                }
            }
        }
        l = l + 1;
    }
    Some(v)
}

/// The totient-ladder value for a tall tower: `a↑↑h mod m` computed as
/// `a^(L(h−1, φ(m)) + φ(m)) mod m`, with `L(0, m) = 1 mod m` and `L(·, 1) = 0`.
pub open spec fn lifting(a: nat, h: nat, m: nat) -> nat
    decreases h,
{
    if m == 1 {
        0
    } else if h == 0 {
        1nat % m
    } else {
        let pm = phi_spec(m);
        (pow(a as int, lifting(a, (h - 1) as nat, pm) + pm) % (m as int)) as nat
    }
}

proof fn lemma_lifting_bound(a: nat, h: nat, m: nat)
    requires
        m >= 1,
    ensures
        lifting(a, h, m) < m,
    decreases h,
{
    if m != 1 && h > 0 {
        lemma_phi_bounds(m);
        lemma_lifting_bound(a, (h - 1) as nat, phi_spec(m));
    }
}

/// `2^64`, the cap under which towers are taken exactly.
pub open spec fn tower_cap() -> nat {
    0x1_0000_0000_0000_0000
}

/// `a↑↑h mod m` as computed: `0` for `m = 1`; the exact tower reduced mod `m` when every
/// level stays at most `2^64`; otherwise the totient ladder.
pub open spec fn tetration_spec(a: nat, h: nat, m: nat) -> nat {
    if m == 1 {
        0
    } else if tower_fits(a, h, tower_cap()) {
        tower(a, h) % m
    } else {
        lifting(a, h, m)
    }
}

/// Whether the lift is sound at every rung of the totient ladder: each exponent tower
/// `a↑↑(h−1)` reaches the bit length of its modulus (`2^(a↑↑(h−1)) ≥ m`), down the chain
/// `m, φ(m), φ(φ(m)), …`.
pub open spec fn ladder_ok(a: nat, h: nat, m: nat) -> bool
    decreases h,
{
    if m <= 1 || h == 0 {
        true
    } else {
        pow(2, tower(a, (h - 1) as nat)) >= m && ladder_ok(a, (h - 1) as nat, phi_spec(m))
    }
}

/// Where every rung's exponent reaches the bit length of its modulus, the totient ladder
/// gives the true residue of the tower.
pub proof fn lemma_lifting_exact(a: nat, h: nat, m: nat)
    requires
        m >= 1,
        ladder_ok(a, h, m),
    ensures
        lifting(a, h, m) == tower(a, h) % m,
    decreases h,
{
    if m > 1 && h > 0 {
        let pm = phi_spec(m);
        lemma_phi_bounds(m);
        lemma_lifting_exact(a, (h - 1) as nat, pm);
        lemma_phi_periodic(a, m);
        let t = tower(a, (h - 1) as nat);
        let l = lifting(a, (h - 1) as nat, pm);
        assert(l == t % pm);
        let e1 = (l + pm) as nat;
        assert(exp_ok(e1, m as int, pm));
        lemma_fundamental_div_mod(t as int, pm as int);
        let c = t / pm;
        if c >= 1 {
            assert(t == e1 + ((c - 1) as nat) * pm) by (nonlinear_arith)
                requires t == pm * c + l, e1 == l + pm, c >= 1;
            assert(shifted(a as int, e1, (c - 1) as nat, pm) == pow(a as int, t));
        } else {
            assert(c == 0);
            assert(t == l) by (nonlinear_arith) requires t == pm * c + l, c == 0;
            assert(exp_ok(t, m as int, pm));
            assert(shifted(a as int, t, 1, pm) == pow(a as int, e1));
        }
        lemma_pow_positive_or_zero(a as int, t);
        assert(tower(a, h) == pow(a as int, t) as nat);
    }
}

/// `tetration_mod` gives the true residue `a↑↑h mod m` wherever every rung of the totient
/// ladder is sound (always when the tower is taken exactly).
pub proof fn lemma_tetration_exact(a: nat, h: nat, m: nat)
    requires
        m >= 1,
        ladder_ok(a, h, m),
    ensures
        tetration_spec(a, h, m) == tower(a, h) % m,
{
    if m > 1 && !tower_fits(a, h, tower_cap()) {
        lemma_lifting_exact(a, h, m);
    }
}

/// A tower of a positive base is positive.
proof fn lemma_tower_pos(a: nat, h: nat)
    requires
        a >= 1,
    ensures
        tower(a, h) >= 1,
    decreases h,
{
    if h > 0 {
        lemma_pow_positive(a as int, tower(a, (h - 1) as nat));
    }
}

/// A power with a positive exponent of a multiple of `m` is a multiple of `m`.
proof fn lemma_pow_multiple(a: nat, e: nat, m: nat)
    requires
        m >= 1,
        a % m == 0,
        e >= 1,
    ensures
        pow(a as int, e) % (m as int) == 0,
{
    lemma_pow_mod_noop(a as int, e, m as int);
    assert((a as int) % (m as int) == 0);
    lemma0_pow(e);
    assert(pow((a as int) % (m as int), e) == 0);
    lemma_small_mod(0, m);
    assert(pow((a as int) % (m as int), e) % (m as int) == 0);
}

/// A power with a positive exponent has the parity of its base.
proof fn lemma_pow_parity(a: nat, e: nat)
    requires
        e >= 1,
    ensures
        pow(a as int, e) % 2 == a % 2,
{
    lemma_pow_mod_noop(a as int, e, 2);
    if a % 2 == 0 {
        lemma0_pow(e);
        assert(pow((a as int) % 2, e) == 0);
    } else {
        lemma1_pow(e);
        assert(pow((a as int) % 2, e) == 1);
    }
}

/// Every power of `0` with exponent from `1` to `v` is `0`.
proof fn lemma_zero_powers_fit(a: nat, v: nat, cap: nat)
    requires
        a == 0,
    ensures
        powers_fit(a, v, cap),
{
    assert forall|k: nat| 1 <= k <= v implies #[trigger] pow(a as int, k) <= cap by {
        lemma0_pow(k);
    }
}

/// Towers of `0` stay within any positive cap (their levels are `0` and `1`).
proof fn lemma_zero_tower_fits(a: nat, h: nat, cap: nat)
    requires
        a == 0,
        cap >= 1,
    ensures
        tower_fits(a, h, cap),
{
    assert forall|l: nat|
        #![trigger tower(a, l)]
        #![trigger powers_fit(a, tower(a, (l - 1) as nat), cap)]
        1 <= l <= h implies powers_fit(a, tower(a, (l - 1) as nat), cap) && tower(a, l) <= cap by {
        let v = tower(a, (l - 1) as nat);
        lemma_zero_powers_fit(a, v, cap);
        if v == 0 {
            lemma_pow0(0);
            assert(pow(0, v) == 1);
        } else {
            lemma0_pow(v);
            assert(pow(0, v) == 0);
        }
        assert(tower(a, l) == pow(a as int, v) as nat);
    }
}

/// When `m` divides a positive base, every tower of height at least one is `0`
/// modulo `m`, and so is what `tetration_mod` gives: the totient ladder keeps a
/// positive exponent.
pub proof fn lemma_tetration_divisible(a: nat, h: nat, m: nat)
    requires
        a >= 1,
        h >= 1,
        m >= 1,
        a % m == 0,
    ensures
        tower(a, h) % m == 0,
        tetration_spec(a, h, m) == 0,
{
    lemma_tower_pos(a, (h - 1) as nat);
    lemma_pow_positive(a as int, tower(a, (h - 1) as nat));
    lemma_pow_multiple(a, tower(a, (h - 1) as nat), m);
    assert(tower(a, h) == pow(a as int, tower(a, (h - 1) as nat)) as nat);
    if m >= 2 {
        lemma_phi_bounds(m);
        let pm = phi_spec(m);
        lemma_lifting_bound(a, (h - 1) as nat, pm);
        lemma_pow_multiple(a, lifting(a, (h - 1) as nat, pm) + pm, m);
    }
}

/// Modulo `2`, `tetration_mod` gives the parity of the true tower for every base
/// and every height at least one.
pub proof fn lemma_tetration_parity(a: nat, h: nat)
    requires
        h >= 1,
    ensures
        tetration_spec(a, h, 2) == tower(a, h) % 2,
{
    if a == 0 {
        lemma_zero_tower_fits(a, h, tower_cap());
    } else {
        lemma_tower_pos(a, (h - 1) as nat);
        lemma_pow_positive(a as int, tower(a, (h - 1) as nat));
        lemma_pow_parity(a, tower(a, (h - 1) as nat));
        assert(tower(a, h) == pow(a as int, tower(a, (h - 1) as nat)) as nat);
        assert(phi_spec(2) == 1);
        assert(lifting(a, (h - 1) as nat, 1) == 0);
        lemma_pow_parity(a, 1);
    }
}

/// Lifting recursion for a tower known to be huge.
fn lifting_tet(a: u128, h: u32, m: u128) -> (r: u128)
    requires
        1 <= m < modulus_limit(),
    ensures
        r == lifting(a as nat, h as nat, m as nat),
    decreases h,
{
    if m == 1 {
        return 0;
    }
    if h == 0 {
        return 1 % m;
    }
    let pm = phi(m);
    proof { lemma_phi_bounds(m as nat); lemma_lifting_bound(a as nat, (h - 1) as nat, pm as nat); }
    let e = lifting_tet(a, h - 1, pm);
    powmod(a, e + pm, m)
}

/// `a ↑↑ h mod m`: small towers exactly, tall towers through the totient ladder.
pub fn tetration_mod(a: u128, h: u32, m: u128) -> (r: u128)
    requires
        1 <= m < modulus_limit(),
    ensures
        r == tetration_spec(a as nat, h as nat, m as nat),
        r < m,
        a >= 1 && h >= 1 && a % m == 0 ==> r == 0 && tower(a as nat, h as nat) % (m as nat) == 0,
        m == 2 && h >= 1 ==> r == tower(a as nat, h as nat) % 2,
        ladder_ok(a as nat, h as nat, m as nat) ==> r == tower(a as nat, h as nat) % (m as nat),
{
    proof {
        if ladder_ok(a as nat, h as nat, m as nat) {
            lemma_tetration_exact(a as nat, h as nat, m as nat);
        }
        if a >= 1 && h >= 1 && a % m == 0 {
            lemma_tetration_divisible(a as nat, h as nat, m as nat);
        }
        if m == 2 && h >= 1 {
            lemma_tetration_parity(a as nat, h as nat);
        }
    }
    if m == 1 {
        return 0;
    }
    match small_tower(a, h, 1u128 << 64) {
        Some(v) => {
            assert((1u128 << 64) == 0x1_0000_0000_0000_0000u128) by (bit_vector);
            v % m
        },
        None => {
            assert((1u128 << 64) == 0x1_0000_0000_0000_0000u128) by (bit_vector);
            proof { lemma_lifting_bound(a as nat, h as nat, m as nat); }
            lifting_tet(a, h, m)
        },
    }
}

/// The lift guard: whether the tower is provably at least the size of the modulus, so
/// the totient ladder applies. True when the exact tower exceeds `2^64`; otherwise the
/// exact tower value `v` is compared with `m` as `max(v, 1) ≥ max(m, 2)` (the comparison of
/// their base-2 logarithms).
pub fn lift_guard_ok(a: u128, h: u32, m: u128) -> (ok: bool)
    ensures
        !tower_fits(a as nat, h as nat, tower_cap()) ==> ok,
        tower_fits(a as nat, h as nat, tower_cap()) ==> ok == (
            (if tower(a as nat, h as nat) >= 1 { tower(a as nat, h as nat) } else { 1 })
                >= (if m >= 2 { m as nat } else { 2 })),
{
    assert((1u128 << 64) == 0x1_0000_0000_0000_0000u128) by (bit_vector);
    match small_tower(a, h, 1u128 << 64) {
        None => true,
        Some(v) => {
            let lhs = if v >= 1 { v } else { 1 };
            let rhs = if m >= 2 { m } else { 2 };
            lhs >= rhs
        },
    }
}

/// A giant number carried only by the residues demanded so far, plus its symbolic form.
#[derive(Debug)]
pub struct LazyBignum {
    pub residues: BTreeMap<u128, u128>,
    pub symbolic: String,
}

impl LazyBignum {
    /// A lazy `a↑↑h` with no residues materialized yet; symbolic form `"{a}^^{h}"`.
    pub fn tetration(a: u128, h: u32) -> (x: LazyBignum)
        ensures
            x.residues@ == Map::<u128, u128>::empty(),
            x.symbolic@ == decimal(a as nat) + "^^"@ + decimal(h as nat),
    {
        let mut sym = u128_to_string(a);
        push_str(&mut sym, "^^");
        let hs = u128_to_string(h as u128);
        push_str(&mut sym, hs.as_str());
        LazyBignum { residues: BTreeMap::new(), symbolic: sym }
    }

    /// The residue modulo `m`, computed once and cached.
    pub fn residue(&mut self, a: u128, h: u32, m: u128) -> (r: u128)
        requires
            old(self).residues@.contains_key(m) || 1 <= m < modulus_limit(),
        ensures
            old(self).residues@.contains_key(m) ==> r == old(self).residues@[m]
                && final(self).residues@ == old(self).residues@,
            !old(self).residues@.contains_key(m) ==> r == tetration_spec(a as nat, h as nat, m as nat)
                && final(self).residues@ == old(self).residues@.insert(m, r),
            final(self).symbolic == old(self).symbolic,
    {
        match self.residues.get(&m) {
            Some(v) => {
                return *v;
            },
            None => {},
        }
        let v = tetration_mod(a, h, m);
        self.residues.insert(m, v);
        v
    }
}

/// The Ackermann function: `A(0,n) = n+1`, `A(m+1,0) = A(m,1)`, `A(m+1,n+1) = A(m, A(m+1,n))`.
pub open spec fn ackermann(m: nat, n: nat) -> nat
    decreases m, n,
{
    if m == 0 {
        n + 1
    } else if n == 0 {
        ackermann((m - 1) as nat, 1)
    } else {
        ackermann((m - 1) as nat, ackermann(m, (n - 1) as nat))
    }
}

proof fn lemma_ackermann_row1(n: nat)
    ensures
        ackermann(1, n) == n + 2,
    decreases n,
{
    if n > 0 {
        lemma_ackermann_row1((n - 1) as nat);
        assert(ackermann(1, n) == ackermann(0, ackermann(1, (n - 1) as nat)));
    } else {
        assert(ackermann(1, 0) == ackermann(0, 1));
    }
}

proof fn lemma_ackermann_row2(n: nat)
    ensures
        ackermann(2, n) == 2 * n + 3,
    decreases n,
{
    if n > 0 {
        lemma_ackermann_row2((n - 1) as nat);
        lemma_ackermann_row1(ackermann(2, (n - 1) as nat));
    } else {
        lemma_ackermann_row1(1);
    }
}

proof fn lemma_ackermann_row3(n: nat)
    ensures
        ackermann(3, n) == pow2(n + 3) - 3,
        pow2(n + 3) >= 8,
    decreases n,
{
    reveal(pow);
    if n > 0 {
        lemma_ackermann_row3((n - 1) as nat);
        lemma_ackermann_row2(ackermann(3, (n - 1) as nat));
        assert(ackermann(3, n) == ackermann(2, ackermann(3, (n - 1) as nat)));
        assert(pow(2, n + 3) == 2 * pow(2, ((n - 1) + 3) as nat));
        vstd::arithmetic::power::lemma_pow_positive(2, n + 3);
        vstd::arithmetic::power::lemma_pow_positive(2, ((n - 1) + 3) as nat);
        assert(pow2(n + 3) == 2 * pow2(((n - 1) + 3) as nat));
    } else {
        lemma_ackermann_row2(1);
        assert(ackermann(3, 0) == ackermann(2, 1));
        assert(pow2(3) == 8) by { reveal_with_fuel(pow, 4); }
    }
}

/// The closed forms of the first four rows of the Ackermann function.
pub proof fn lemma_ackermann_closed_forms(n: nat)
    ensures
        ackermann(0, n) == n + 1,
        ackermann(1, n) == n + 2,
        ackermann(2, n) == 2 * n + 3,
        ackermann(3, n) == pow2(n + 3) - 3,
{
    lemma_ackermann_row1(n);
    lemma_ackermann_row2(n);
    lemma_ackermann_row3(n);
}

/// Ackermann `A(m, n)` for `m ≤ 3` by its closed forms (`n ≤ 60` for `m = 3`).
pub fn ackermann_small(m: u32, n: u128) -> (r: u128)
    requires
        m <= 3,
        m == 0 ==> n < u128::MAX,
        m == 1 ==> n < u128::MAX - 1,
        m == 2 ==> 2 * n + 3 <= u128::MAX,
        m == 3 ==> n <= 60,
    ensures
        r == ackermann(m as nat, n as nat),
{
    proof { lemma_ackermann_closed_forms(n as nat); }
    if m == 0 {
        n + 1
    } else if m == 1 {
        n + 2
    } else if m == 2 {
        2 * n + 3
    } else {
        let k = (n + 3) as u64;
        proof {
            vstd::bits::lemma_u64_pow2_no_overflow(k as nat);
            vstd::bits::lemma_u64_shl_is_mul(1, k);
            lemma_ackermann_row3(n as nat);
        }
        let p = 1u64 << k;
        (p - 3) as u128
    }
}

/// `Π_{i<k} ((ni − i) mod p)` reduced mod `p` (the numerator of `C(ni, k)`).
pub open spec fn num_upto(ni: nat, k: nat, p: nat) -> nat
    decreases k,
{
    if k == 0 { 1nat % p } else { (num_upto(ni, (k - 1) as nat, p) * (((ni - (k - 1)) as nat) % p)) % p }
}

/// `Π_{i<k} ((i + 1) mod p)` reduced mod `p` (the denominator `k!`).
pub open spec fn den_upto(k: nat, p: nat) -> nat
    decreases k,
{
    if k == 0 { 1nat % p } else { (den_upto((k - 1) as nat, p) * (k % p)) % p }
}

/// Lucas' theorem evaluated digit by digit in base `p`, from the lowest digit, starting
/// from the accumulator `res`: a digit of `k` above the digit of `n` gives `0`; otherwise the
/// digit binomial `num · den^(p−2) mod p` multiplies in.
pub open spec fn lucas_from(n: nat, k: nat, p: nat, res: nat) -> nat
    decreases n + k,
{
    if p < 2 || (n == 0 && k == 0) {
        res
    } else {
        let ni = n % p;
        let ki = k % p;
        if ki > ni {
            0
        } else {
            proof {
                assert(n / p + k / p < n + k) by (nonlinear_arith) requires p >= 2, n + k > 0;
            }
            let step = (((res * num_upto(ni, ki, p)) % p) * ((pow(den_upto(ki, p) as int, (p - 2) as nat) % (p as int)) as nat)) % p;
            lucas_from(n / p, k / p, p, step)
        }
    }
}

/// With `k = 0` every digit binomial is `1`, so Lucas' product keeps its accumulator.
proof fn lemma_lucas_zero_k(n: nat, p: nat, res: nat)
    requires
        p >= 2,
        res < p,
    ensures
        lucas_from(n, 0, p, res) == res,
    decreases n,
{
    if n != 0 {
        lemma_small_mod(1, p);
        lemma_small_mod(0, p);
        lemma_pow1_any(p);
        let ni = n % p;
        assert(num_upto(ni, 0, p) == 1);
        assert(den_upto(0, p) == 1);
        assert(pow(1, (p - 2) as nat) == 1);
        assert((res * 1) % p == res) by {
            lemma_small_mod(res, p);
        }
        assert(n / p < n) by (nonlinear_arith) requires p >= 2, n > 0;
        lemma_lucas_zero_k(n / p, p, res);
    }
}

proof fn lemma_pow1_any(p: nat)
    requires
        p >= 2,
    ensures
        pow(1, (p - 2) as nat) == 1,
{
    lemma1_pow((p - 2) as nat);
}

/// `C(n, 0) = 1` and `C(n, 1) = n` modulo `p`, for every `n` and every base `p >= 2`.
pub proof fn lemma_lucas_small_k(n: nat, p: nat)
    requires
        p >= 2,
    ensures
        lucas_from(n, 0, p, 1) == 1,
        lucas_from(n, 1, p, 1) == n % p,
{
    lemma_small_mod(1, p);
    lemma_lucas_zero_k(n, p, 1);
    let ni = n % p;
    if ni >= 1 {
        assert(n + 1 > 0);
        assert(1nat % p == 1);
        assert(num_upto(ni, 0, p) == 1);
        assert(num_upto(ni, 1, p) == (1 * (ni % p)) % p);
        lemma_small_mod(ni, p);
        assert(num_upto(ni, 1, p) == ni);
        assert(den_upto(0, p) == 1);
        assert(1nat % p == 1);
        assert(den_upto(1, p) == (den_upto(0, p) * (1nat % p)) % p);
        assert(den_upto(1, p) == 1);
        lemma_pow1_any(p);
        assert((pow(1, (p - 2) as nat) % (p as int)) as nat == 1);
        assert(((1 * ni) % p * 1) % p == ni);
        vstd::arithmetic::div_mod::lemma_basic_div(1, p as int);
        assert(1nat / p == 0);
        lemma_lucas_zero_k(n / p, p, ni);
    }
}

/// The numerator product is the falling factorial modulo `p`.
proof fn lemma_num_upto(ni: nat, k: nat, p: nat)
    requires
        p >= 2,
        k <= ni,
    ensures
        num_upto(ni, k, p) == falling(ni, k) % p,
    decreases k,
{
    if k > 0 {
        lemma_num_upto(ni, (k - 1) as nat, p);
        let f = falling(ni, (k - 1) as nat) as int;
        let x = ((ni - (k - 1)) as nat) as int;
        lemma_mul_mod_noop_general(f, x, p as int);
        assert(falling(ni, k) == f * x);
    }
}

/// The denominator product is `k!` modulo `p`.
proof fn lemma_den_upto(k: nat, p: nat)
    requires
        p >= 2,
    ensures
        den_upto(k, p) == fact(k) % p,
    decreases k,
{
    if k > 0 {
        lemma_den_upto((k - 1) as nat, p);
        let f = fact((k - 1) as nat) as int;
        lemma_mul_mod_noop_general(f, k as int, p as int);
        assert(fact(k) == f * k);
    }
}

/// For a prime `p` and one base-`p` digit each (`n, k < p`), Lucas' product is the
/// binomial coefficient `C(n, k)` modulo `p`.
pub proof fn lemma_lucas_digit(n: nat, k: nat, p: nat)
    requires
        is_prime(p as int),
        n < p,
        k < p,
    ensures
        lucas_from(n, k, p, 1) == binom(n, k) % p,
{
    lemma_small_mod(1, p);
    lemma_small_mod(n, p);
    lemma_small_mod(k, p);
    if n == 0 && k == 0 {
        assert(binom(0, 0) == 1);
    } else if k > n {
        crate::primes::lemma_binom_above_pub(n, k);
        lemma_small_mod(0, p);
    } else {
        let b = binom(n, k) as int;
        let kf = fact(k) as int;
        let pi = p as int;
        lemma_num_upto(n, k, p);
        lemma_den_upto(k, p);
        lemma_binom_fact(n, k);
        lemma_fact_unit(pi, k);
        let num = num_upto(n, k, p) as int;
        let den = den_upto(k, p);
        let inv = pow(den as int, (p - 2) as nat);
        assert(den as int == kf % pi);
        assert(den != 0);
        lemma_small_mod(den, p);
        lemma_fermat_inverse(pi, den);
        lemma_pow_positive_or_zero(den as int, (p - 2) as nat);
        lemma_small_mod(num as nat, p);
        assert((1 * num) % pi == num);
        let step = ((num * (inv % pi)) % pi) as nat;
        // step == (num * inv) % p == (b * kf * inv) % p == (b * ((den * inv) % p)) % p == b % p
        lemma_mul_mod_noop_general(num, inv, pi);
        lemma_mul_mod_noop_general(b * kf, inv, pi);
        assert(num == (b * kf) % pi);
        assert((b * kf) * inv == b * (kf * inv)) by (nonlinear_arith);
        lemma_mul_mod_noop_general(b, kf * inv, pi);
        lemma_mul_mod_noop_general(kf, inv, pi);
        assert((kf * inv) % pi == 1);
        assert(b * 1 == b);
        assert(step == b % pi);
        assert(n / p == 0 && k / p == 0) by {
            vstd::arithmetic::div_mod::lemma_basic_div(n as int, pi);
            vstd::arithmetic::div_mod::lemma_basic_div(k as int, pi);
        }
        assert(lucas_from(n, k, p, 1) == lucas_from(0, 0, p, step));
    }
}

/// One digit of Lucas' product: multiplying the accumulator by `num · den^(p−2)` multiplies
/// it by the digit binomial `C(ni, ki)` modulo `p`.
proof fn lemma_lucas_step(ni: nat, ki: nat, p: nat, res: nat)
    requires
        is_prime(p as int),
        ki <= ni < p,
    ensures
        (((res * num_upto(ni, ki, p)) % p) * ((pow(den_upto(ki, p) as int, (p - 2) as nat) % (p as int)) as nat)) % p
            == (res * binom(ni, ki)) % p,
{
    let pi = p as int;
    let b = binom(ni, ki) as int;
    let kf = fact(ki) as int;
    lemma_num_upto(ni, ki, p);
    lemma_den_upto(ki, p);
    lemma_binom_fact(ni, ki);
    lemma_fact_unit(pi, ki);
    let num = num_upto(ni, ki, p) as int;
    let den = den_upto(ki, p);
    let inv = pow(den as int, (p - 2) as nat);
    assert(den as int == kf % pi);
    lemma_small_mod(den, p);
    lemma_fermat_inverse(pi, den);
    lemma_pow_positive_or_zero(den as int, (p - 2) as nat);
    // (num · inv) mod p = C(ni, ki) mod p
    lemma_mul_mod_noop_general(b * kf, inv, pi);
    assert(num == (b * kf) % pi);
    assert((b * kf) * inv == b * (kf * inv)) by (nonlinear_arith);
    lemma_mul_mod_noop_general(b, kf * inv, pi);
    lemma_mul_mod_noop_general(kf, inv, pi);
    assert((kf * inv) % pi == 1);
    assert(b * 1 == b);
    assert((num * inv) % pi == b % pi);
    // fold in the accumulator
    let r = res as int;
    lemma_mul_mod_noop_general(r * num, inv, pi);
    assert((r * num) * inv == r * (num * inv)) by (nonlinear_arith);
    lemma_mul_mod_noop_general(r, num * inv, pi);
    lemma_mul_mod_noop_general(r, b, pi);
}

/// Lucas' product from the accumulator `res` is `res · C(n, k)` modulo a prime `p`.
proof fn lemma_lucas_product(n: nat, k: nat, p: nat, res: nat)
    requires
        is_prime(p as int),
        res < p,
    ensures
        lucas_from(n, k, p, res) == (res * binom(n, k)) % p,
    decreases n + k,
{
    let pi = p as int;
    if n == 0 && k == 0 {
        assert(binom(0, 0) == 1);
        lemma_small_mod(res, p);
        assert(binom(n, k) == 1);
        assert(res * binom(n, k) == res) by (nonlinear_arith) requires binom(n, k) == 1;
    } else {
        let ni = n % p;
        let ki = k % p;
        crate::primes::lemma_lucas_theorem(pi, n, k);
        let big = binom(n / p, k / p) as int;
        let b0 = binom(ni, ki) as int;
        if ki > ni {
            crate::primes::lemma_binom_above_pub(ni, ki);
            assert(b0 == 0);
            assert(binom(n / p, k / p) * binom(ni, ki) == 0) by (nonlinear_arith) requires binom(ni, ki) == 0;
            lemma_small_mod(0, p);
            assert((binom(n, k) as int) % pi == 0);
            lemma_mul_mod_noop_general(res as int, binom(n, k) as int, pi);
            assert((res as int) * 0 == 0);
            assert(lucas_from(n, k, p, res) == 0);
            assert(((res as int) * (binom(n, k) as int)) % pi == 0);
        } else {
            assert(n / p + k / p < n + k) by (nonlinear_arith) requires p >= 2, n + k > 0;
            let step = (((res * num_upto(ni, ki, p)) % p) * ((pow(den_upto(ki, p) as int, (p - 2) as nat) % (p as int)) as nat)) % p;
            lemma_lucas_step(ni, ki, p, res);
            lemma_lucas_product(n / p, k / p, p, step);
            // step · C(N, K) ≡ res · b0 · C(N, K) ≡ res · C(n, k)
            let r = res as int;
            lemma_mul_mod_noop_general(r * b0, big, pi);
            assert((r * b0) * big == r * (big * b0)) by (nonlinear_arith);
            lemma_mul_mod_noop_general(r, big * b0, pi);
            lemma_mul_mod_noop_general(r, binom(n, k) as int, pi);
            assert(step as int == (r * b0) % pi);
            assert(lucas_from(n, k, p, res) == lucas_from(n / p, k / p, p, step));
            assert(lucas_from(n, k, p, res) as int == ((step as int) * big) % pi);
            assert(((step as int) * big) % pi == ((r * b0) * big) % pi);
            assert(((r * b0) * big) % pi == (r * (big * b0)) % pi);
            assert((big * b0) % pi == (binom(n, k) as int) % pi);
            assert((r * (big * b0)) % pi == (r * ((big * b0) % pi)) % pi);
            assert((r * (binom(n, k) as int)) % pi == (r * ((binom(n, k) as int) % pi)) % pi);
            assert(lucas_from(n, k, p, res) as int == (r * (binom(n, k) as int)) % pi);
        }
    }
}

/// Lucas' theorem as `lucas_binomial_mod_p` evaluates it: for a prime `p`, the digit-by-digit
/// product is `C(n, k) mod p`.
pub proof fn lemma_lucas_binomial(n: nat, k: nat, p: nat)
    requires
        is_prime(p as int),
    ensures
        lucas_from(n, k, p, 1) == binom(n, k) % p,
{
    lemma_small_mod(1, p);
    lemma_lucas_product(n, k, p, 1);
    assert(1 * binom(n, k) == binom(n, k));
}

proof fn lemma_pow_positive_or_zero(b: int, e: nat)
    requires
        b >= 0,
    ensures
        pow(b, e) >= 0,
    decreases e,
{
    reveal(pow);
    if e > 0 {
        lemma_pow_positive_or_zero(b, (e - 1) as nat);
        assert(b * pow(b, (e - 1) as nat) >= 0) by (nonlinear_arith)
            requires b >= 0, pow(b, (e - 1) as nat) >= 0;
    }
}

/// `C(n, k) mod p` for a prime `p` by Lucas' theorem over base-`p` digits.
pub fn lucas_binomial_mod_p(n: u128, k: u128, p: u128) -> (r: u128)
    requires
        2 <= p < modulus_limit(),
    ensures
        r == lucas_from(n as nat, k as nat, p as nat, 1),
        r < p,
        k == 0 ==> r == 1,
        k == 1 ==> r == n % p,
        is_prime(p as int) && n < p && k < p ==> r == binom(n as nat, k as nat) % (p as nat),
        is_prime(p as int) ==> r == binom(n as nat, k as nat) % (p as nat),
{
    proof {
        if is_prime(p as int) {
            lemma_lucas_binomial(n as nat, k as nat, p as nat);
        }
        lemma_lucas_small_k(n as nat, p as nat);
        if is_prime(p as int) && n < p && k < p {
            lemma_lucas_digit(n as nat, k as nat, p as nat);
        }
    }
    let mut nn = n;
    let mut kk = k;
    let mut result: u128 = 1;
    proof { lemma_small_mod(1, p as nat); }
    let ghost target = lucas_from(nn as nat, kk as nat, p as nat, 1);
    let ghost n0 = nn;
    let ghost k0 = kk;
    while nn > 0 || kk > 0
        invariant
            target == lucas_from(n0 as nat, k0 as nat, p as nat, 1),
            k == 0 ==> target == 1,
            k == 1 ==> target == n % p,
            is_prime(p as int) && n < p && k < p ==> target == binom(n as nat, k as nat) % (p as nat),
            is_prime(p as int) ==> target == binom(n as nat, k as nat) % (p as nat),
            n0 == n,
            k0 == k,
            2 <= p < modulus_limit(),
            result < p,
            lucas_from(nn as nat, kk as nat, p as nat, result as nat) == target,
        decreases nn + kk,
    {
        let ni = nn % p;
        let ki = kk % p;
        if ki > ni {
            assert(lucas_from(nn as nat, kk as nat, p as nat, result as nat) == 0);
            return 0;
        }
        proof { lemma_small_mod(1, p as nat); }
        let mut num: u128 = 1;
        let mut den: u128 = 1;
        let mut i: u128 = 0;
        while i < ki
            invariant
                2 <= p < modulus_limit(),
                ki <= ni < p,
                i <= ki,
                num == num_upto(ni as nat, i as nat, p as nat),
                den == den_upto(i as nat, p as nat),
                num < p,
                den < p,
            decreases ki - i,
        {
            let x = (ni - i) % p;
            let y = (i + 1) % p;
            assert(num * x < modulus_limit() * modulus_limit()) by (nonlinear_arith)
                requires num < p, p < modulus_limit(), x < p;
            assert(den * y < modulus_limit() * modulus_limit()) by (nonlinear_arith)
                requires den < p, p < modulus_limit(), y < p;
            num = num * x % p;
            den = den * y % p;
            i = i + 1;
        }
        proof {
            assert(1nat % (p as nat) == 1) by { lemma_small_mod(1, p as nat); }
        }
        let inv = powmod(den, p - 2, p);
        assert(result * num < modulus_limit() * modulus_limit()) by (nonlinear_arith)
            requires result < p, num < p, p < modulus_limit();
        let t = result * num % p;
        assert(t * inv < modulus_limit() * modulus_limit()) by (nonlinear_arith)
            requires t < p, inv < p, p < modulus_limit();
        result = t * inv % p;
        assert(nn / p + kk / p < nn + kk) by (nonlinear_arith) requires p >= 2, nn + kk > 0;
        nn = nn / p;
        kk = kk / p;
    }
    result
}

} // verus!
