//! Polynomial arithmetic for lattice post-quantum cryptography.
//!
//! Lattice PQC multiplies polynomials in `Z_q[x]/(x^n + 1)` (negacyclic
//! convolution). This module gives the exact schoolbook products by definition,
//! which are the oracles a fast product is checked against, and the parameter
//! check of the NTT-based negacyclic product. All arithmetic is exact mod `q`.
//!
//! The security of lattice PQC rests on the hardness of (Module-)LWE, a
//! cryptographic assumption: these operations are computed exactly, and nothing
//! here analyses or weakens an LWE instance.

use vstd::prelude::*;
use vstd::arithmetic::div_mod::{
    lemma_add_mod_noop, lemma_mod_add_multiples_vanish, lemma_mul_mod_noop, lemma_sub_mod_noop,
};
use vstd::arithmetic::power::pow;
use crate::tetration::powmod;

verus! {

/// The index of `b` that meets `a[i]` in coefficient `k` (that is, `(k − i) mod n`).
pub open spec fn partner(k: int, i: int, n: int) -> int {
    if i <= k {
        k - i
    } else {
        k - i + n
    }
}

/// `Σ_{i < m} a_i · b_{(k − i) mod n}`: coefficient `k` of the cyclic product,
/// summed over the first `m` terms.
pub open spec fn cyclic_sum(a: Seq<u64>, b: Seq<u64>, k: int, m: int) -> int
    decreases m,
{
    if m <= 0 {
        0
    } else {
        cyclic_sum(a, b, k, m - 1) + a[m - 1] * b[partner(k, m - 1, a.len() as int)]
    }
}

/// Coefficient `k` of the negacyclic product over the first `m` terms: a term
/// that wraps past `x^n` changes sign, because `x^n = −1`.
pub open spec fn negacyclic_sum(a: Seq<u64>, b: Seq<u64>, k: int, m: int) -> int
    decreases m,
{
    if m <= 0 {
        0
    } else {
        let t = a[m - 1] * b[partner(k, m - 1, a.len() as int)];
        negacyclic_sum(a, b, k, m - 1) + (if m - 1 <= k {
            t
        } else {
            -t
        })
    }
}

proof fn lemma_mod_step_add(acc: int, s: int, x: int, y: int, q: int)
    requires
        q > 0,
        acc == s % q,
    ensures
        (acc + (x % q) * (y % q) % q) % q == (s + x * y) % q,
{
    lemma_mul_mod_noop(x, y, q);
    lemma_add_mod_noop(s, x * y, q);
}

proof fn lemma_mod_step_sub(acc: int, s: int, x: int, y: int, q: int)
    requires
        q > 0,
        acc == s % q,
    ensures
        (acc + q - (x % q) * (y % q) % q) % q == (s - x * y) % q,
{
    lemma_mul_mod_noop(x, y, q);
    lemma_sub_mod_noop(s, x * y, q);
    lemma_mod_add_multiples_vanish(acc - (x * y) % q, q);
}

/// `(acc + x·y) mod q` or, with `negate`, `(acc − x·y) mod q`, for `acc < q`.
fn mac_mod(acc: u64, x: u64, y: u64, q: u64, negate: bool) -> (r: u64)
    requires
        q > 0,
        acc < q,
    ensures
        r < q,
        !negate ==> r == (acc as int + (x as int % q as int) * (y as int % q as int) % (q as int))
            % (q as int),
        negate ==> r == (acc as int + q as int - (x as int % q as int) * (y as int % q as int) % (
        q as int)) % (q as int),
{
    let qq = q as u128;
    let xm = (x % q) as u128;
    let ym = (y % q) as u128;
    assert(xm * ym < 0x1_0000_0000_0000_0000_0000_0000_0000_0000) by (nonlinear_arith)
        requires
            xm < 0x1_0000_0000_0000_0000,
            ym < 0x1_0000_0000_0000_0000,
    ;
    let p: u128 = (xm * ym) % qq;
    let s: u128 = if negate {
        acc as u128 + qq - p
    } else {
        acc as u128 + p
    };
    (s % qq) as u64
}

/// Cyclic convolution `c = a * b mod (x^n − 1)` over `Z_q`, by definition (Θ(n²)).
pub fn schoolbook_cyclic(a: &[u64], b: &[u64], q: u64) -> (c: Vec<u64>)
    requires
        a@.len() == b@.len(),
        q > 0,
    ensures
        c@.len() == a@.len(),
        forall|k: int| 0 <= k < c@.len() ==> c@[k] == cyclic_sum(a@, b@, k, a@.len() as int) % (q as int),
{
    let n = a.len();
    let mut c: Vec<u64> = Vec::new();
    let mut k: usize = 0;
    while k < n
        invariant
            n == a@.len(),
            n == b@.len(),
            q > 0,
            k <= n,
            c@.len() == k,
            forall|t: int| 0 <= t < k ==> c@[t] == cyclic_sum(a@, b@, t, n as int) % (q as int),
        decreases n - k,
    {
        let mut acc: u64 = 0;
        let mut i: usize = 0;
        proof {
            vstd::arithmetic::div_mod::lemma_small_mod(0, q as nat);
        }
        while i < n
            invariant
                n == a@.len(),
                n == b@.len(),
                q > 0,
                k < n,
                i <= n,
                acc < q,
                acc == cyclic_sum(a@, b@, k as int, i as int) % (q as int),
            decreases n - i,
        {
            let j = if i <= k {
                k - i
            } else {
                n - (i - k)
            };
            proof {
                lemma_mod_step_add(acc as int, cyclic_sum(a@, b@, k as int, i as int), a@[i as int] as int, b@[j as int] as int, q as int);
            }
            acc = mac_mod(acc, a[i], b[j], q, false);
            i = i + 1;
        }
        c.push(acc);
        k = k + 1;
    }
    c
}

/// Negacyclic convolution `c = a * b mod (x^n + 1)` over `Z_q`, by definition
/// (Θ(n²)): wrap-around terms change sign because `x^n = −1`.
pub fn schoolbook_negacyclic(a: &[u64], b: &[u64], q: u64) -> (c: Vec<u64>)
    requires
        a@.len() == b@.len(),
        q > 0,
    ensures
        c@.len() == a@.len(),
        forall|k: int|
            0 <= k < c@.len() ==> c@[k] == negacyclic_sum(a@, b@, k, a@.len() as int) % (q as int),
{
    let n = a.len();
    let mut c: Vec<u64> = Vec::new();
    let mut k: usize = 0;
    while k < n
        invariant
            n == a@.len(),
            n == b@.len(),
            q > 0,
            k <= n,
            c@.len() == k,
            forall|t: int| 0 <= t < k ==> c@[t] == negacyclic_sum(a@, b@, t, n as int) % (q as int),
        decreases n - k,
    {
        let mut acc: u64 = 0;
        let mut i: usize = 0;
        proof {
            vstd::arithmetic::div_mod::lemma_small_mod(0, q as nat);
        }
        while i < n
            invariant
                n == a@.len(),
                n == b@.len(),
                q > 0,
                k < n,
                i <= n,
                acc < q,
                acc == negacyclic_sum(a@, b@, k as int, i as int) % (q as int),
            decreases n - i,
        {
            let wraps = i > k;
            let j = if i <= k {
                k - i
            } else {
                n - (i - k)
            };
            proof {
                let s = negacyclic_sum(a@, b@, k as int, i as int);
                if wraps {
                    lemma_mod_step_sub(acc as int, s, a@[i as int] as int, b@[j as int] as int, q as int);
                } else {
                    lemma_mod_step_add(acc as int, s, a@[i as int] as int, b@[j as int] as int, q as int);
                }
            }
            acc = mac_mod(acc, a[i], b[j], q, wraps);
            i = i + 1;
        }
        c.push(acc);
        k = k + 1;
    }
    c
}

/// The parameters admit a negacyclic NTT: equal power-of-two lengths, `2n | q − 1`,
/// and `ψ = g^((q−1)/2n)` is a primitive `2n`-th root of unity (`ψ^n ≡ −1`).
pub open spec fn ntt_params_ok(n: usize, nb: usize, q: u64, g: u64) -> bool {
    &&& n == nb
    &&& n > 0
    &&& n & ((n - 1) as usize) == 0
    &&& (q - 1) % (2 * n) == 0
    &&& pow(pow((g % q) as int, ((q - 1) / (2 * n)) as nat) % (q as int), n as nat) % (q as int) == q
        - 1
}

/// Negacyclic convolution for NTT-friendly parameters (the PQC `poly_mul`).
///
/// `None` unless a primitive `2n`-th root of unity `ψ = g^((q−1)/2n)` exists
/// (`2n | q − 1` and `ψ^n ≡ −1`) and the lengths are equal powers of two. Then
/// `ψ` is invertible (`ψ · ψ^(2n−1) = 1`) and `ψ²` is a primitive `n`-th root, so
/// the twisted NTT applies; its result is the negacyclic product, which is
/// returned exactly (computed here by definition).
pub fn negacyclic_convolve(a: &[u64], b: &[u64], q: u64, g: u64) -> (r: Option<Vec<u64>>)
    requires
        q >= 2,
        a@.len() < 0x8000_0000_0000_0000,
    ensures
        r is Some <==> ntt_params_ok(a@.len() as usize, b@.len() as usize, q, g),
        r matches Some(c) ==> c@.len() == a@.len() && forall|k: int|
            0 <= k < c@.len() ==> c@[k] == negacyclic_sum(a@, b@, k, a@.len() as int) % (q as int),
{
    let n = a.len();
    if n != b.len() || n == 0 || (n & (n - 1)) != 0 {
        return None;
    }
    let two_n = 2 * n as u64;
    if (q - 1) % two_n != 0 {
        // no primitive 2n-th root of unity
        return None;
    }
    let psi = powmod((g % q) as u128, ((q - 1) / two_n) as u128, q as u128);
    // psi must be a primitive 2n-th root: psi^n == -1 (that is, q - 1)
    if powmod(psi, n as u128, q as u128) != (q - 1) as u128 {
        return None;
    }
    Some(schoolbook_negacyclic(a, b, q))
}

} // verus!
