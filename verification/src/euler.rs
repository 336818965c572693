//! Euler's theorem in the lifted form that the totient ladder rests on: for a prime power
//! `q^j`, `a^e` and `a^(e + c·q^(j−1)(q−1))` agree modulo `q^j` once `e ≥ j`, whether or not
//! `q` divides `a`; such periods combine over coprime factors.

use vstd::prelude::*;
use vstd::arithmetic::power::{
    pow, lemma_pow_adds, lemma_pow_multiplies, lemma_pow_mod_noop, lemma_pow1, lemma_pow0,
    lemma1_pow, lemma_pow_distributes, lemma_pow_positive, lemma_pow_strictly_increases,
};
use vstd::arithmetic::div_mod::{
    lemma_fundamental_div_mod, lemma_mod_multiples_basic, lemma_mul_mod_noop_general,
    lemma_add_mod_noop, lemma_small_mod, lemma_mod_multiples_vanish,
};
use crate::primes::{is_prime, lemma_euclid, lemma_fermat_inverse};

verus! {

/// `1 + x + … + x^(n−1)`.
pub open spec fn geo(x: int, n: nat) -> int
    decreases n,
{
    if n == 0 {
        0
    } else {
        geo(x, (n - 1) as nat) + pow(x, (n - 1) as nat)
    }
}

proof fn lemma_geo_telescope(x: int, n: nat)
    ensures
        (x - 1) * geo(x, n) == pow(x, n) - 1,
    decreases n,
{
    reveal(pow);
    if n > 0 {
        let n1 = (n - 1) as nat;
        lemma_geo_telescope(x, n1);
        let g = geo(x, n1);
        let y = pow(x, n1);
        assert(pow(x, n) == x * y);
        assert((x - 1) * (g + y) == (x - 1) * g + x * y - y) by (nonlinear_arith);
    }
}

proof fn lemma_geo_mod(x: int, n: nat, q: int)
    requires
        q > 1,
        x % q == 1,
    ensures
        geo(x, n) % q == (n as int) % q,
    decreases n,
{
    if n > 0 {
        let n1 = (n - 1) as nat;
        lemma_geo_mod(x, n1, q);
        lemma_pow_mod_noop(x, n1, q);
        lemma1_pow(n1);
        lemma_small_mod(1, q as nat);
        lemma_add_mod_noop(geo(x, n1), pow(x, n1), q);
        lemma_add_mod_noop(n1 as int, 1, q);
    }
}

/// `q^(j−1)·(q−1)`, Euler's totient of the prime power `q^j`.
pub open spec fn prime_power_totient(q: int, j: nat) -> nat {
    (pow(q, (j - 1) as nat) * (q - 1)) as nat
}

/// `(k·M + 1) mod M = 1` for `M > 1`.
proof fn lemma_one_more_than_multiple(k: int, m: int)
    requires
        m > 1,
    ensures
        (m * k + 1) % m == 1,
{
    lemma_mod_multiples_vanish(k, 1, m);
    lemma_small_mod(1, m as nat);
}

proof fn lemma_pow_q_gt1(q: int, j: nat)
    requires
        q >= 2,
        j >= 1,
    ensures
        pow(q, j) > 1,
        pow(q, j) == q * pow(q, (j - 1) as nat),
{
    reveal(pow);
    lemma_pow_strictly_increases(q as nat, 0, j);
    lemma_pow0(q);
}

/// Euler's theorem for a prime power: a base prime to `q` raised to `q^(j−1)(q−1)` is `1`
/// modulo `q^j`.
pub proof fn lemma_euler_prime_power(a: nat, q: int, j: nat)
    requires
        is_prime(q),
        j >= 1,
        (a as int) % q != 0,
    ensures
        pow(a as int, prime_power_totient(q, j)) % pow(q, j) == 1,
    decreases j,
{
    lemma_pow_q_gt1(q, j);
    if j == 1 {
        lemma_pow0(q);
        lemma_pow1(q);
        lemma_fermat_inverse(q, a);
        reveal(pow);
        assert(prime_power_totient(q, 1) == (q - 1) as nat);
        assert(pow(a as int, (q - 1) as nat) == (a as int) * pow(a as int, (q - 2) as nat));
    } else {
        let j1 = (j - 1) as nat;
        lemma_euler_prime_power(a, q, j1);
        lemma_pow_q_gt1(q, j1);
        let g = prime_power_totient(q, j1);
        let x = pow(a as int, g);
        let qj = pow(q, j1);
        lemma_pow_positive(q, (j1 - 1) as nat);
        assert(g * q == prime_power_totient(q, j)) by (nonlinear_arith)
            requires
                g == pow(q, (j1 - 1) as nat) * (q - 1),
                qj == q * pow(q, (j1 - 1) as nat),
                prime_power_totient(q, j) == qj * (q - 1),
                q >= 2,
                pow(q, (j1 - 1) as nat) > 0;
        lemma_pow_multiplies(a as int, g, q as nat);
        // x = 1 + qj·t
        lemma_fundamental_div_mod(x, qj);
        let t = x / qj;
        assert(x - 1 == qj * t);
        // x ≡ 1 (mod q)
        assert(x == q * (pow(q, (j1 - 1) as nat) * t) + 1) by (nonlinear_arith)
            requires x - 1 == qj * t, qj == q * pow(q, (j1 - 1) as nat);
        lemma_one_more_than_multiple(pow(q, (j1 - 1) as nat) * t, q);
        lemma_geo_mod(x, q as nat, q);
        lemma_mod_multiples_basic(1, q);
        let s = geo(x, q as nat) / q;
        lemma_fundamental_div_mod(geo(x, q as nat), q);
        assert(geo(x, q as nat) == q * s);
        lemma_geo_telescope(x, q as nat);
        assert(pow(x, q as nat) == pow(q, j) * (t * s) + 1) by (nonlinear_arith)
            requires
                (x - 1) * geo(x, q as nat) == pow(x, q as nat) - 1,
                x - 1 == qj * t,
                geo(x, q as nat) == q * s,
                pow(q, j) == q * qj;
        lemma_one_more_than_multiple(t * s, pow(q, j));
    }
}

/// A prime that divides neither factor does not divide the product.
pub proof fn lemma_prime_not_dividing_product(q: int, x: int, y: int)
    requires
        is_prime(q),
        x % q != 0,
        y % q != 0,
    ensures
        (x * y) % q != 0,
{
    if (x * y) % q == 0 {
        lemma_mul_mod_noop_general(x, y, q);
        lemma_euclid(q, x % q, y);
    }
}

/// A prime divides a power of another prime only if the two are equal.
pub proof fn lemma_prime_divides_prime_power(q: int, p: int, k: nat)
    requires
        is_prime(q),
        is_prime(p),
        q != p,
    ensures
        pow(p, k) % q != 0,
    decreases k,
{
    reveal(pow);
    if k == 0 {
        lemma_small_mod(1, q as nat);
    } else {
        lemma_prime_divides_prime_power(q, p, (k - 1) as nat);
        if p % q == 0 {
            if q < p {
                assert(p % q != 0);
            } else {
                lemma_small_mod(p as nat, q as nat);
            }
        }
        lemma_prime_not_dividing_product(q, p, pow(p, (k - 1) as nat));
    }
}

/// `q·z ≡ 0 (mod q·w)` gives `z ≡ 0 (mod w)`.
proof fn lemma_cancel_factor(q: int, z: int, w: int)
    requires
        q > 0,
        w > 0,
        (q * z) % (q * w) == 0,
    ensures
        z % w == 0,
{
    assert(q * w > 0) by (nonlinear_arith) requires q > 0, w > 0;
    lemma_fundamental_div_mod(q * z, q * w);
    let k = (q * z) / (q * w);
    assert(z == k * w) by (nonlinear_arith)
        requires q * z == (q * w) * k + 0, q > 0;
    lemma_mod_multiples_basic(k, w);
}

/// If `q^j` divides `d·y` and the prime `q` does not divide `d`, then `q^j` divides `y`.
proof fn lemma_cancel_coprime(d: int, y: int, q: int, j: nat)
    requires
        is_prime(q),
        d % q != 0,
        (d * y) % pow(q, j) == 0,
    ensures
        y % pow(q, j) == 0,
    decreases j,
{
    if j == 0 {
        lemma_pow0(q);
    } else {
        lemma_pow_q_gt1(q, j);
        let j1 = (j - 1) as nat;
        let qj1 = pow(q, j1);
        lemma_pow_positive(q, j1);
        // q divides d·y
        lemma_fundamental_div_mod(d * y, pow(q, j));
        let u = (d * y) / pow(q, j);
        assert(d * y == q * (qj1 * u)) by (nonlinear_arith)
            requires d * y == pow(q, j) * u + 0, pow(q, j) == q * qj1;
        lemma_mod_multiples_basic(qj1 * u, q);
        assert((qj1 * u) * q == q * (qj1 * u)) by (nonlinear_arith);
        lemma_mul_mod_noop_general(d, y, q);
        lemma_euclid(q, d % q, y);
        lemma_fundamental_div_mod(y, q);
        let y1 = y / q;
        assert(y == q * y1);
        assert(q * (d * y1) == q * (qj1 * u)) by (nonlinear_arith)
            requires d * y == q * (qj1 * u), y == q * y1;
        assert(d * y1 == qj1 * u) by (nonlinear_arith)
            requires q * (d * y1) == q * (qj1 * u), q > 0;
        lemma_mod_multiples_basic(u, qj1);
        assert(u * qj1 == qj1 * u) by (nonlinear_arith);
        lemma_cancel_coprime(d, y1, q, j1);
        lemma_fundamental_div_mod(y1, qj1);
        let v = y1 / qj1;
        assert(y == (q * qj1) * v) by (nonlinear_arith)
            requires y == q * y1, y1 == qj1 * v + 0;
        lemma_mod_multiples_basic(v, pow(q, j));
        assert(v * pow(q, j) == (q * qj1) * v) by (nonlinear_arith)
            requires pow(q, j) == q * qj1;
    }
}

/// Divisibility by `d` and by a power of a prime not dividing `d` combine to divisibility
/// by the product.
pub proof fn lemma_coprime_power_divides(x: int, d: int, q: int, j: nat)
    requires
        is_prime(q),
        d >= 1,
        d % q != 0,
        x % d == 0,
        x % pow(q, j) == 0,
    ensures
        x % (d * pow(q, j)) == 0,
{
    lemma_fundamental_div_mod(x, d);
    let y = x / d;
    assert(x == d * y);
    lemma_cancel_coprime(d, y, q, j);
    lemma_pow_positive(q, j);
    lemma_fundamental_div_mod(y, pow(q, j));
    let v = y / pow(q, j);
    assert(x == v * (d * pow(q, j))) by (nonlinear_arith)
        requires x == d * y, y == pow(q, j) * v + 0;
    assert(d * pow(q, j) > 0) by (nonlinear_arith) requires d >= 1, pow(q, j) > 0;
    lemma_mod_multiples_basic(v, d * pow(q, j));
}

/// `a^(e + c·g)`.
pub open spec fn shifted(a: int, e: nat, c: nat, g: nat) -> int {
    pow(a, e + c * g)
}

/// An exponent large enough for the period `g` modulo `d`: at least `g`, or with `2^e ≥ d`.
pub open spec fn exp_ok(e: nat, d: int, g: nat) -> bool {
    e >= g || pow(2, e) >= d
}

/// Modulo `d`, the powers of `a` repeat with period `g` from every large enough exponent.
pub open spec fn periodic(a: int, d: int, g: nat) -> bool {
    forall|e: nat, c: nat| exp_ok(e, d, g) ==> #[trigger] shifted(a, e, c, g) % d == pow(a, e) % d
}

/// Two numbers agree modulo `m` exactly when `m` divides their difference.
pub proof fn lemma_mod_eq_diff(x: int, y: int, m: int)
    requires
        m > 0,
    ensures
        (x % m == y % m) <==> ((x - y) % m == 0),
{
    lemma_fundamental_div_mod(x, m);
    lemma_fundamental_div_mod(y, m);
    let qx = x / m;
    let qy = y / m;
    assert(x - y == m * (qx - qy) + (x % m - y % m)) by (nonlinear_arith)
        requires x == m * qx + x % m, y == m * qy + y % m;
    lemma_mod_multiples_vanish(qx - qy, x % m - y % m, m);
    assert((x - y) % m == (x % m - y % m) % m);
    if x % m == y % m {
        assert(0int % m == 0);
    }
    if x % m != y % m {
        let r = x % m - y % m;
        assert(0 <= x % m < m && 0 <= y % m < m);
        assert((x - y) % m == r % m);
        if r >= 0 {
            lemma_small_mod(r as nat, m as nat);
        } else {
            lemma_mod_multiples_vanish(1, r, m);
            assert(m * 1 + r == m + r);
            lemma_small_mod((m + r) as nat, m as nat);
        }
    }
}

proof fn lemma_pow_base_le(q: int, j: nat)
    requires
        q >= 2,
    ensures
        pow(2, j) <= pow(q, j),
    decreases j,
{
    reveal(pow);
    if j > 0 {
        lemma_pow_base_le(q, (j - 1) as nat);
        lemma_pow_positive(2, (j - 1) as nat);
        assert(2 * pow(2, (j - 1) as nat) <= q * pow(q, (j - 1) as nat)) by (nonlinear_arith)
            requires pow(2, (j - 1) as nat) <= pow(q, (j - 1) as nat), q >= 2,
                pow(2, (j - 1) as nat) > 0;
    }
}

proof fn lemma_pow2_ge_exp(j: nat)
    ensures
        pow(2, j) >= j + 1,
    decreases j,
{
    reveal(pow);
    if j > 0 {
        lemma_pow2_ge_exp((j - 1) as nat);
    }
}

/// Both thresholds of a prime-power period reach the exponent `j`.
proof fn lemma_exp_ok_prime_power(e: nat, q: int, j: nat)
    requires
        is_prime(q),
        j >= 1,
        exp_ok(e, pow(q, j), prime_power_totient(q, j)),
    ensures
        e >= j,
{
    let j1 = (j - 1) as nat;
    lemma_pow_base_le(q, j1);
    lemma_pow2_ge_exp(j1);
    lemma_pow_positive(q, j1);
    assert(prime_power_totient(q, j) >= j) by (nonlinear_arith)
        requires
            prime_power_totient(q, j) == pow(q, j1) * (q - 1),
            pow(q, j1) >= j1 + 1,
            j1 + 1 == j,
            q >= 2;
    if e < j {
        if e < prime_power_totient(q, j) {
            lemma_pow_strictly_increases(2, e, j);
            lemma_pow_base_le(q, j);
        }
    }
}

/// A multiple of `q` raised to `e ≥ j` is `0` modulo `q^j`.
proof fn lemma_pow_multiple_vanishes(a: int, q: int, j: nat, e: nat)
    requires
        q >= 2,
        a % q == 0,
        e >= j,
    ensures
        pow(a, e) % pow(q, j) == 0,
{
    lemma_fundamental_div_mod(a, q);
    let t = a / q;
    assert(a == q * t);
    lemma_pow_adds(a, j, (e - j) as nat);
    lemma_pow_distributes(q, t, j);
    assert(pow(a, e) == (pow(t, j) * pow(a, (e - j) as nat)) * pow(q, j)) by (nonlinear_arith)
        requires
            pow(a, e) == pow(a, j) * pow(a, (e - j) as nat),
            pow(a, j) == pow(q, j) * pow(t, j);
    lemma_pow_positive(q, j);
    lemma_mod_multiples_basic(pow(t, j) * pow(a, (e - j) as nat), pow(q, j));
}

/// Modulo a prime power `q^j`, the powers of any base repeat with period `q^(j−1)(q−1)`
/// from every exponent `e ≥ j`.
pub proof fn lemma_prime_power_periodic(a: nat, q: int, j: nat)
    requires
        is_prime(q),
        j >= 1,
    ensures
        periodic(a as int, pow(q, j), prime_power_totient(q, j)),
{
    let g = prime_power_totient(q, j);
    let m = pow(q, j);
    lemma_pow_q_gt1(q, j);
    assert forall|e: nat, c: nat| exp_ok(e, m, g) implies #[trigger] shifted(a as int, e, c, g) % m
        == pow(a as int, e) % m by {
        lemma_exp_ok_prime_power(e, q, j);
        assert(c * g >= 0) by (nonlinear_arith);
        if (a as int) % q == 0 {
            lemma_pow_multiple_vanishes(a as int, q, j, e);
            lemma_pow_multiple_vanishes(a as int, q, j, e + c * g);
        } else {
            lemma_euler_prime_power(a, q, j);
            let y = pow(a as int, g);
            lemma_pow_multiplies(a as int, g, c);
            assert(g * c == c * g) by (nonlinear_arith);
            lemma_pow_mod_noop(y, c, m);
            lemma1_pow(c);
            lemma_small_mod(1, m as nat);
            lemma_pow_adds(a as int, e, c * g);
            lemma_mul_mod_noop_general(pow(a as int, e), pow(a as int, c * g), m);
        }
    }
}

/// Periods modulo `d` and modulo a power of a prime not dividing `d` combine into a period
/// modulo the product, for any common multiple of the two periods.
pub proof fn lemma_periodic_combine(a: int, d: int, g1: nat, q: int, j: nat, g2: nat, big: nat)
    requires
        periodic(a, d, g1),
        periodic(a, pow(q, j), g2),
        is_prime(q),
        d >= 1,
        d % q != 0,
        g1 >= 1,
        g2 >= 1,
        big >= 1,
        big % g1 == 0,
        big % g2 == 0,
    ensures
        periodic(a, d * pow(q, j), big),
{
    let m = d * pow(q, j);
    lemma_pow_positive(q, j);
    assert(m >= d && m >= pow(q, j)) by (nonlinear_arith) requires d >= 1, pow(q, j) >= 1, m == d * pow(q, j);
    lemma_fundamental_div_mod(big as int, g1 as int);
    lemma_fundamental_div_mod(big as int, g2 as int);
    let k1 = (big / g1) as nat;
    let k2 = (big / g2) as nat;
    assert(big == g1 * k1 && big == g2 * k2);
    assert(big >= g1 && big >= g2) by (nonlinear_arith)
        requires big == g1 * k1, big == g2 * k2, big >= 1, g1 >= 1, g2 >= 1;
    assert forall|e: nat, c: nat| exp_ok(e, m, big) implies #[trigger] shifted(a, e, c, big) % m
        == pow(a, e) % m by {
        assert(exp_ok(e, d, g1));
        assert(exp_ok(e, pow(q, j), g2));
        let c1 = c * k1;
        let c2 = c * k2;
        assert(c1 * g1 == c * big && c2 * g2 == c * big) by (nonlinear_arith)
            requires big == g1 * k1, big == g2 * k2, c1 == c * k1, c2 == c * k2;
        assert(shifted(a, e, c1, g1) == shifted(a, e, c, big));
        assert(shifted(a, e, c2, g2) == shifted(a, e, c, big));
        let x = shifted(a, e, c, big) - pow(a, e);
        lemma_mod_eq_diff(shifted(a, e, c, big), pow(a, e), d);
        lemma_mod_eq_diff(shifted(a, e, c, big), pow(a, e), pow(q, j));
        lemma_coprime_power_divides(x, d, q, j);
        lemma_mod_eq_diff(shifted(a, e, c, big), pow(a, e), m);
    }
}

} // verus!
