//! Primes and Fermat's little theorem, for modular inverses by `x^(p-2)`.

use vstd::prelude::*;
use vstd::arithmetic::div_mod::{
    lemma_fundamental_div_mod, lemma_mod_multiples_basic, lemma_mul_mod_noop_general,
    lemma_add_mod_noop, lemma_small_mod, lemma_mod_pos_bound,
};
use vstd::arithmetic::power::{pow, lemma_pow0, lemma_pow1};

verus! {

/// `p` is a prime: at least `2`, with no divisor strictly between `1` and `p`.
pub open spec fn is_prime(p: int) -> bool {
    p >= 2 && forall|d: int| 2 <= d < p ==> #[trigger] (p % d) != 0
}

/// Euclid's lemma: a prime that divides `x * y`, with `0 < x < p`, divides `y`.
pub proof fn lemma_euclid(p: int, x: int, y: int)
    requires
        is_prime(p),
        0 < x < p,
        (x * y) % p == 0,
    ensures
        y % p == 0,
    decreases x,
{
    if x == 1 {
        assert(x * y == y) by (nonlinear_arith) requires x == 1;
    } else {
        let q = p / x;
        let r = p % x;
        lemma_fundamental_div_mod(p, x);
        lemma_mod_pos_bound(p, x);
        assert(p % x != 0);
        let t = (x * y) / p;
        lemma_fundamental_div_mod(x * y, p);
        assert(x * y == p * t);
        assert(r * y == p * (y - q * t)) by (nonlinear_arith)
            requires
                p == x * q + r,
                x * y == p * t,
        ;
        lemma_mod_multiples_basic(y - q * t, p);
        assert((y - q * t) * p == p * (y - q * t)) by (nonlinear_arith);
        lemma_euclid(p, r, y);
    }
}

/// The binomial coefficient, by Pascal's rule.
pub open spec fn binom(n: nat, k: nat) -> nat
    decreases n,
{
    if k == 0 {
        1
    } else if n == 0 {
        0
    } else {
        binom((n - 1) as nat, (k - 1) as nat) + binom((n - 1) as nat, k)
    }
}

/// No subsets larger than the set.
proof fn lemma_binom_above(n: nat, k: nat)
    requires
        k > n,
    ensures
        binom(n, k) == 0,
    decreases n,
{
    if n > 0 {
        lemma_binom_above((n - 1) as nat, (k - 1) as nat);
        lemma_binom_above((n - 1) as nat, k);
    }
}

/// Absorption: `k C(n, k) = n C(n-1, k-1)`.
proof fn lemma_absorb(n: nat, k: nat)
    requires
        n >= 1,
        k >= 1,
    ensures
        k * binom(n, k) == n * binom((n - 1) as nat, (k - 1) as nat),
    decreases n,
{
    if n == 1 {
        if k >= 2 {
            lemma_binom_above(0, (k - 1) as nat);
            lemma_binom_above(0, k);
            assert(binom(1, k) == 0);
        } else {
            assert(binom(0, 0) == 1);
            assert(binom(0, 1) == 0);
            assert(binom(1, 1) == 1);
        }
    } else if k == 1 {
        lemma_absorb((n - 1) as nat, 1);
        assert(binom((n - 2) as nat, 0) == 1);
        assert(1 * binom((n - 1) as nat, 1) == (n - 1) * 1);
        assert(binom((n - 1) as nat, 0) == 1);
        assert(binom(n, 1) == binom((n - 1) as nat, 0) + binom((n - 1) as nat, 1));
        assert(binom(n, 1) == n);
    } else {
        let a = binom((n - 1) as nat, (k - 1) as nat);
        let b = binom((n - 1) as nat, k);
        let c = binom((n - 2) as nat, (k - 2) as nat);
        let d = binom((n - 2) as nat, (k - 1) as nat);
        lemma_absorb((n - 1) as nat, (k - 1) as nat);
        lemma_absorb((n - 1) as nat, k);
        assert(a == c + d);
        assert(binom(n, k) == a + b);
        assert(k * binom(n, k) == n * a) by (nonlinear_arith)
            requires
                binom(n, k) == a + b,
                (k - 1) * a == (n - 1) * c,
                k * b == (n - 1) * d,
                a == c + d,
        ;
    }
}

/// A prime divides every binomial coefficient of its own row but the ends.
pub proof fn lemma_prime_divides_binom(p: int, i: nat)
    requires
        is_prime(p),
        0 < i < p,
    ensures
        (binom(p as nat, i) as int) % p == 0,
{
    lemma_absorb(p as nat, i);
    let c = binom((p - 1) as nat, (i - 1) as nat);
    lemma_mod_multiples_basic(c as int, p);
    assert(c * p == p * c) by (nonlinear_arith);
    lemma_euclid(p, i as int, binom(p as nat, i) as int);
}

/// `C(n, n) = 1`.
proof fn lemma_binom_diag(n: nat)
    ensures
        binom(n, n) == 1,
    decreases n,
{
    if n > 0 {
        lemma_binom_diag((n - 1) as nat);
        lemma_binom_above((n - 1) as nat, n);
    }
}

/// `sum_{i < j} C(n, i) x^i`.
pub open spec fn bsum(n: nat, x: int, j: nat) -> int
    decreases j,
{
    if j == 0 {
        0
    } else {
        bsum(n, x, (j - 1) as nat) + binom(n, (j - 1) as nat) * pow(x, (j - 1) as nat)
    }
}

/// Pascal's rule summed: the partial sums of row `n + 1` from those of row `n`.
proof fn lemma_pascal_sum(n: nat, x: int, j: nat)
    ensures
        bsum(n + 1, x, j + 1) == bsum(n, x, j + 1) + x * bsum(n, x, j),
    decreases j,
{
    reveal(pow);
    lemma_pow0(x);
    if j == 0 {
        assert(bsum(n, x, 0) == 0);
        assert(x * bsum(n, x, 0) == 0);
        assert(pow(x, 0) == 1);
        assert(binom(n + 1, 0) == 1);
        assert(binom(n, 0) == 1);
        assert(bsum(n + 1, x, 1) == bsum(n + 1, x, 0) + binom(n + 1, 0) * pow(x, 0));
        assert(bsum(n + 1, x, 1) == 1);
        assert(bsum(n, x, 1) == bsum(n, x, 0) + binom(n, 0) * pow(x, 0));
        assert(bsum(n, x, 1) == 1);
    } else {
        lemma_pascal_sum(n, x, (j - 1) as nat);
        let xj = pow(x, j);
        let xj1 = pow(x, (j - 1) as nat);
        assert(xj == x * xj1);
        let s1 = bsum(n, x, (j - 1) as nat);
        let s0 = bsum(n, x, j);
        let c1 = binom(n, (j - 1) as nat);
        let c0 = binom(n, j);
        assert(binom(n + 1, j) == c1 + c0);
        assert(bsum(n + 1, x, j + 1) == bsum(n + 1, x, j) + (c1 + c0) * xj);
        assert(bsum(n + 1, x, j) == s0 + x * s1);
        assert(s0 == s1 + c1 * xj1);
        assert(bsum(n, x, j + 1) == s0 + c0 * xj);
        assert(bsum(n + 1, x, j + 1) == bsum(n, x, j + 1) + x * s0) by (nonlinear_arith)
            requires
                bsum(n + 1, x, j + 1) == (s0 + x * s1) + (c1 + c0) * xj,
                s0 == s1 + c1 * xj1,
                xj == x * xj1,
                bsum(n, x, j + 1) == s0 + c0 * xj,
        ;
    }
}

/// The binomial theorem: `(x + 1)^n = sum_{i <= n} C(n, i) x^i`.
pub proof fn lemma_binomial_theorem(x: int, n: nat)
    ensures
        pow(x + 1, n) == bsum(n, x, n + 1),
    decreases n,
{
    reveal(pow);
    lemma_pow0(x);
    lemma_pow0(x + 1);
    if n == 0 {
        assert(pow(x, 0) == 1);
        assert(binom(0, 0) == 1);
        assert(bsum(0, x, 1) == bsum(0, x, 0) + binom(0, 0) * pow(x, 0));
        assert(bsum(0, x, 1) == 1);
    } else {
        let m = (n - 1) as nat;
        lemma_binomial_theorem(x, m);
        lemma_pascal_sum(m, x, n);
        lemma_binom_above(m, n);
        assert(bsum(m, x, n + 1) == bsum(m, x, n));
        assert(pow(x + 1, n) == (x + 1) * pow(x + 1, m));
        assert(bsum(n, x, n + 1) == (x + 1) * bsum(m, x, n)) by (nonlinear_arith)
            requires
                bsum(n, x, n + 1) == bsum(m, x, n + 1) + x * bsum(m, x, n),
                bsum(m, x, n + 1) == bsum(m, x, n),
        ;
    }
}

/// The inner terms of row `p` vanish modulo `p`.
proof fn lemma_bsum_mod_prime(p: int, x: int, j: nat)
    requires
        is_prime(p),
        1 <= j <= p,
    ensures
        bsum(p as nat, x, j) % p == 1,
    decreases j,
{
    lemma_pow0(x);
    lemma_small_mod(1, p as nat);
    if j == 1 {
        assert(bsum(p as nat, x, 1) == bsum(p as nat, x, 0) + binom(p as nat, 0) * pow(x, 0));
        assert(bsum(p as nat, x, 1) == 1);
    } else {
        let i = (j - 1) as nat;
        lemma_bsum_mod_prime(p, x, i);
        lemma_prime_divides_binom(p, i);
        let c = binom(p as nat, i) as int;
        let t = c * pow(x, i);
        lemma_mul_mod_noop_general(c, pow(x, i), p);
        assert((0 * pow(x, i)) == 0);
        lemma_small_mod(0, p as nat);
        assert(t % p == 0);
        lemma_add_mod_noop(bsum(p as nat, x, i), t, p);
    }
}

/// Fermat's little theorem: `a^p = a` modulo a prime `p`.
pub proof fn lemma_fermat(p: int, a: nat)
    requires
        is_prime(p),
    ensures
        pow(a as int, p as nat) % p == (a as int) % p,
    decreases a,
{
    if a == 0 {
        vstd::arithmetic::power::lemma0_pow(p as nat);
    } else {
        let x = (a - 1) as int;
        lemma_fermat(p, (a - 1) as nat);
        lemma_binomial_theorem(x, p as nat);
        lemma_bsum_mod_prime(p, x, p as nat);
        lemma_binom_diag(p as nat);
        assert(bsum(p as nat, x, (p + 1) as nat) == bsum(p as nat, x, p as nat) + pow(x, p as nat));
        lemma_add_mod_noop(bsum(p as nat, x, p as nat), pow(x, p as nat), p);
        lemma_add_mod_noop(1, x, p);
        lemma_small_mod(1, p as nat);
    }
}

/// A unit modulo a prime times its `(p-2)`-th power is `1`: `x^(p-2)` is the inverse.
pub proof fn lemma_fermat_inverse(p: int, a: nat)
    requires
        is_prime(p),
        (a as int) % p != 0,
    ensures
        ((a as int) * pow(a as int, (p - 2) as nat)) % p == 1,
{
    reveal(pow);
    lemma_fermat(p, a);
    let v = pow(a as int, (p - 2) as nat);
    let u = (a as int) * v;
    assert(pow(a as int, (p - 1) as nat) == u);
    assert(pow(a as int, p as nat) == (a as int) * u);
    vstd::arithmetic::div_mod::lemma_sub_mod_noop((a as int) * u, a as int, p);
    lemma_small_mod(0, p as nat);
    assert(((a as int) * u - (a as int)) % p == 0);
    assert((a as int) * u - (a as int) == (a as int) * (u - 1)) by (nonlinear_arith);
    let r = (a as int) % p;
    lemma_mod_pos_bound(a as int, p);
    lemma_mul_mod_noop_general(a as int, u - 1, p);
    assert((r * (u - 1)) % p == 0);
    lemma_euclid(p, r, u - 1);
    lemma_fundamental_div_mod(u - 1, p);
    let s = (u - 1) / p;
    assert(u == p * s + 1);
    vstd::arithmetic::div_mod::lemma_mod_multiples_vanish(s, 1, p);
    lemma_small_mod(1, p as nat);
}

/// The falling factorial `n (n-1) ... (n-k+1)`.
pub open spec fn falling(n: nat, k: nat) -> nat
    decreases k,
{
    if k == 0 {
        1
    } else {
        falling(n, (k - 1) as nat) * ((n - (k - 1)) as nat)
    }
}

/// `k!`.
pub open spec fn fact(k: nat) -> nat
    decreases k,
{
    if k == 0 {
        1
    } else {
        fact((k - 1) as nat) * k
    }
}

proof fn lemma_falling_front(n: nat, k: nat)
    requires
        1 <= k <= n,
    ensures
        falling(n, k) == n * falling((n - 1) as nat, (k - 1) as nat),
    decreases k,
{
    if k == 1 {
        assert(falling(n, 0) == 1);
        assert(falling(n, 1) == falling(n, 0) * n);
        assert(falling(n, 1) == n);
        assert(falling((n - 1) as nat, 0) == 1);
    } else {
        lemma_falling_front(n, (k - 1) as nat);
        let g = falling((n - 1) as nat, (k - 2) as nat);
        assert(falling((n - 1) as nat, (k - 1) as nat) == g * ((n - k + 1) as nat));
        assert(falling(n, k) == falling(n, (k - 1) as nat) * ((n - k + 1) as nat));
        assert(falling(n, k) == n * falling((n - 1) as nat, (k - 1) as nat)) by (nonlinear_arith)
            requires
                falling(n, k) == falling(n, (k - 1) as nat) * ((n - k + 1) as nat),
                falling(n, (k - 1) as nat) == n * g,
                falling((n - 1) as nat, (k - 1) as nat) == g * ((n - k + 1) as nat),
        ;
    }
}

/// `C(n, k) k! = n (n-1) ... (n-k+1)`.
pub proof fn lemma_binom_fact(n: nat, k: nat)
    requires
        k <= n,
    ensures
        binom(n, k) * fact(k) == falling(n, k),
    decreases k,
{
    if k == 0 {
        assert(binom(n, 0) == 1);
        assert(fact(0) == 1);
        assert(falling(n, 0) == 1);
    } else {
        lemma_binom_fact((n - 1) as nat, (k - 1) as nat);
        lemma_absorb(n, k);
        lemma_falling_front(n, k);
        let b = binom(n, k);
        let f1 = fact((k - 1) as nat);
        assert(b * fact(k) == falling(n, k)) by (nonlinear_arith)
            requires
                fact(k) == f1 * k,
                k * b == n * binom((n - 1) as nat, (k - 1) as nat),
                binom((n - 1) as nat, (k - 1) as nat) * f1 == falling((n - 1) as nat, (k - 1) as nat),
                falling(n, k) == n * falling((n - 1) as nat, (k - 1) as nat),
        ;
    }
}

/// `k!` is a unit modulo a prime `p > k`.
pub proof fn lemma_fact_unit(p: int, k: nat)
    requires
        is_prime(p),
        k < p,
    ensures
        (fact(k) as int) % p != 0,
    decreases k,
{
    if k == 0 {
        lemma_small_mod(1, p as nat);
    } else {
        lemma_fact_unit(p, (k - 1) as nat);
        let f = fact((k - 1) as nat) as int;
        if (fact(k) as int) % p == 0 {
            assert(k * f == fact(k)) by (nonlinear_arith)
                requires fact(k) == fact((k - 1) as nat) * k, f == fact((k - 1) as nat);
            lemma_euclid(p, k as int, f);
        }
    }
}

/// No subsets larger than the set.
pub proof fn lemma_binom_above_pub(n: nat, k: nat)
    requires
        k > n,
    ensures
        binom(n, k) == 0,
{
    lemma_binom_above(n, k);
}
/// Row `n` of Pascal's triangle from row `n - p`, modulo a prime `p`:
/// `C(n, k) = C(n-p, k) + C(n-p, k-p)` (the second term only for `k >= p`).
pub proof fn lemma_binom_shift(p: int, n: nat, k: nat)
    requires
        is_prime(p),
        n >= p,
    ensures
        (binom(n, k) as int) % p == (binom((n - p) as nat, k) + (if k >= p {
            binom((n - p) as nat, (k - p) as nat)
        } else {
            0
        })) as int % p,
    decreases n, k,
{
    let m = (n - p) as nat;
    if n == p {
        if k == 0 {
            assert(binom(0, 0) == 1);
        } else if k < p {
            lemma_prime_divides_binom(p, k);
            lemma_binom_above(0, k);
            lemma_small_mod(0, p as nat);
        } else if k == p {
            lemma_binom_diag(p as nat);
            lemma_binom_above(0, k);
            assert(binom(0, 0) == 1);
        } else {
            lemma_binom_above(n, k);
            lemma_binom_above(0, k);
            lemma_binom_above(0, (k - p) as nat);
        }
    } else if k == 0 {
        assert(binom(n, 0) == 1);
        assert(binom(m, 0) == 1);
    } else {
        let n1 = (n - 1) as nat;
        let m1 = (m - 1) as nat;
        assert(n1 - p == m1);
        lemma_binom_shift(p, n1, k);
        lemma_binom_shift(p, n1, (k - 1) as nat);
        assert(binom(n, k) == binom(n1, (k - 1) as nat) + binom(n1, k));
        assert(binom(m, k) == binom(m1, (k - 1) as nat) + binom(m1, k));
        let x = binom(n1, (k - 1) as nat) as int;
        let y = binom(n1, k) as int;
        let x2 = (binom(m1, (k - 1) as nat) + (if k - 1 >= p {
            binom(m1, (k - 1 - p) as nat)
        } else {
            0
        })) as int;
        let y2 = (binom(m1, k) + (if k >= p {
            binom(m1, (k - p) as nat)
        } else {
            0
        })) as int;
        lemma_add_mod_noop(x, y, p);
        lemma_add_mod_noop(x2, y2, p);
        if k >= p {
            if k - p >= 1 {
                assert(binom(m, (k - p) as nat) == binom(m1, (k - p - 1) as nat) + binom(m1, (k - p) as nat));
            } else {
                assert(binom(m, 0) == 1);
                assert(binom(m1, 0) == 1);
            }
        }
    }
}

/// Removing one `p` from `n ≥ p` lowers its upper base-`p` part by one and keeps its last digit.
proof fn lemma_digits_minus_p(n: nat, p: nat)
    requires
        p >= 2,
        n >= p,
    ensures
        ((n - p) as nat) / p == n / p - 1,
        ((n - p) as nat) % p == n % p,
        n / p >= 1,
{
    lemma_fundamental_div_mod(n as int, p as int);
    let q = n / p;
    let r = n % p;
    assert(q >= 1) by (nonlinear_arith) requires n == p * q + r, r < p, n >= p;
    let m = (n - p) as nat;
    assert(m == p * (q - 1) + r) by (nonlinear_arith) requires n == p * q + r, m == n - p;
    vstd::arithmetic::div_mod::lemma_fundamental_div_mod_converse(m as int, p as int, (q - 1) as int, r as int);
}

/// Lucas' theorem, one digit at a time: modulo a prime `p`,
/// `C(n, k) ≡ C(⌊n/p⌋, ⌊k/p⌋) · C(n mod p, k mod p)`.
pub proof fn lemma_lucas_theorem(p: int, n: nat, k: nat)
    requires
        is_prime(p),
    ensures
        (binom(n, k) as int) % p
            == ((binom(n / (p as nat), k / (p as nat)) * binom(n % (p as nat), k % (p as nat))) as int) % p,
    decreases n,
{
    let pn = p as nat;
    let big_n = n / pn;
    let n0 = n % pn;
    let big_k = k / pn;
    let k0 = k % pn;
    lemma_fundamental_div_mod(n as int, p);
    lemma_fundamental_div_mod(k as int, p);
    if n < pn {
        vstd::arithmetic::div_mod::lemma_basic_div(n as int, p);
        lemma_small_mod(n, pn);
        if big_k == 0 {
            assert(k == k0) by (nonlinear_arith) requires k == p * big_k + k0, big_k == 0;
            assert(binom(0, 0) == 1);
            assert(big_n == 0 && n0 == n && k0 == k);
            assert(binom(big_n, big_k) == 1);
            assert(binom(big_n, big_k) * binom(n0, k0) == binom(n, k)) by (nonlinear_arith)
                requires binom(big_n, big_k) == 1, n0 == n, k0 == k;
        } else {
            assert(k >= pn) by (nonlinear_arith) requires k == p * big_k + k0, big_k >= 1, k0 >= 0, pn == p, p >= 2;
            lemma_binom_above(n, k);
            lemma_binom_above(0, big_k);
            assert(big_n == 0);
            assert(binom(big_n, big_k) == 0);
            assert(binom(big_n, big_k) * binom(n0, k0) == 0) by (nonlinear_arith)
                requires binom(big_n, big_k) == 0;
        }
    } else {
        let m = (n - pn) as nat;
        lemma_digits_minus_p(n, pn);
        lemma_lucas_theorem(p, m, k);
        lemma_binom_shift(p, n, k);
        let b0 = binom(n0, k0) as int;
        let x = binom(m, k) as int;
        let bn1 = (big_n - 1) as nat;
        if k >= pn {
            let kk = (k - pn) as nat;
            lemma_digits_minus_p(k, pn);
            lemma_lucas_theorem(p, m, kk);
            let y = binom(m, kk) as int;
            let bk1 = (big_k - 1) as nat;
            // x ≡ C(N-1, K)·b0, y ≡ C(N-1, K-1)·b0, and C(N, K) = C(N-1, K-1) + C(N-1, K)
            assert(binom(big_n, big_k) == binom(bn1, bk1) + binom(bn1, big_k));
            assert(kk / pn == bk1 && kk % pn == k0);
            assert(m / pn == bn1 && m % pn == n0);
            assert(x % p == ((binom(bn1, big_k) * binom(n0, k0)) as int) % p);
            assert(y % p == ((binom(bn1, bk1) * binom(n0, k0)) as int) % p);
            assert((binom(n, k) as int) % p == (x + y) % p);
            lemma_add_mod_noop(x, y, p);
            lemma_add_mod_noop((binom(bn1, big_k) * binom(n0, k0)) as int,
                (binom(bn1, bk1) * binom(n0, k0)) as int, p);
            assert((binom(bn1, big_k) * binom(n0, k0)) as int + (binom(bn1, bk1) * binom(n0, k0)) as int
                == (binom(big_n, big_k) * binom(n0, k0)) as int) by (nonlinear_arith)
                requires binom(big_n, big_k) == binom(bn1, bk1) + binom(bn1, big_k);
        } else {
            assert(big_k == 0) by (nonlinear_arith) requires k == p * big_k + k0, k < pn, pn == p, k0 >= 0, big_k >= 0;
            assert(binom(bn1, 0) == 1 && binom(big_n, 0) == 1);
            assert(m / pn == bn1 && m % pn == n0);
            assert((binom(n, k) as int) % p == x % p);
            assert(x % p == ((binom(bn1, big_k) * binom(n0, k0)) as int) % p);
            assert(binom(bn1, big_k) * binom(n0, k0) == binom(big_n, big_k) * binom(n0, k0)) by (nonlinear_arith)
                requires binom(bn1, big_k) == binom(big_n, big_k);
        }
    }
}

} // verus!
