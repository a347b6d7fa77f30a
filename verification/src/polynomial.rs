//! Polynomials modulo `X^N + 1` with torus coefficients.
//!
//! In this ring `X^N = -1`, so the coefficients of a polynomial extend to
//! every integer index with period `2N` and a change of sign every `N`
//! steps. Dividing by the monomial `X^d` shifts that extension by `d`.

use crate::ciphertext::GlweCiphertext;
use crate::torus::{lemma_neg_involutive, torus_neg, wrapping_neg};
use vstd::arithmetic::div_mod::{
    lemma_fundamental_div_mod, lemma_fundamental_div_mod_converse, lemma_mod_multiples_vanish,
};
use vstd::prelude::*;

verus! {

/// The coefficient at index `q` of the anti-periodic extension of `p`:
/// `p[q]` on `[0, N)`, `-p[q - N]` on `[N, 2N)`, and so on with period `2N`.
pub open spec fn negacyclic_coeff(p: Seq<u64>, q: int) -> u64 {
    let n = p.len() as int;
    let r = q % (2 * n);
    if r < n {
        p[r]
    } else {
        torus_neg(p[r - n])
    }
}

/// The polynomial of `n` coefficients that holds coefficient `i` of the
/// ciphertext `ct`.
pub open spec fn polynomial_of(ct: Seq<u64>, n: nat, i: int) -> Seq<u64> {
    ct.subrange((i / n as int) * n, (i / n as int) * n + n)
}

/// The quotient of `p` by the monomial `X^degree` modulo `X^N + 1`.
pub open spec fn monomial_div(p: Seq<u64>, degree: nat) -> Seq<u64> {
    Seq::new(p.len(), |i: int| negacyclic_coeff(p, i + degree))
}

/// Every polynomial of the GLWE ciphertext `ct` divided by `X^degree`.
pub open spec fn glwe_monomial_div(ct: Seq<u64>, n: nat, degree: nat) -> Seq<u64> {
    Seq::new(
        ct.len(),
        |i: int| negacyclic_coeff(polynomial_of(ct, n, i), i % n as int + degree),
    )
}

/// Where coefficient `t + degree` of the anti-periodic extension is found:
/// with `degree = c * n + shift`, it is the coefficient `t + shift` taken
/// modulo `n`, negated once for an odd `c` and once more if `t + shift`
/// passes `n`.
proof fn lemma_negacyclic_index(n: int, t: int, degree: int)
    requires
        n > 0,
        0 <= t < n,
        degree >= 0,
    ensures
        ({
            let shift = degree % n;
            let odd = (degree / n) % 2 == 1;
            let r = (t + degree) % (2 * n);
            &&& 0 <= shift < n
            &&& (t + shift < n && !odd ==> r == t + shift)
            &&& (t + shift < n && odd ==> r == t + shift + n)
            &&& (t + shift >= n && !odd ==> r == t + shift)
            &&& (t + shift >= n && odd ==> r == t + shift - n)
        }),
{
    let shift = degree % n;
    let cycles = degree / n;
    let half = cycles / 2;
    let parity = cycles % 2;
    lemma_fundamental_div_mod(degree, n);
    lemma_fundamental_div_mod(cycles, 2);
    assert(cycles >= 0) by (nonlinear_arith)
        requires
            degree >= 0,
            n > 0,
            cycles == degree / n,
    ;
    assert(degree == n * (2 * half + parity) + shift);
    assert(n * (2 * half + parity) == half * (2 * n) + parity * n) by (nonlinear_arith);
    if parity == 0 {
        if t + shift < 2 * n {
            lemma_fundamental_div_mod_converse(t + degree, 2 * n, half, t + shift);
        }
    } else {
        assert(parity == 1);
        assert(parity * n == n) by (nonlinear_arith)
            requires
                parity == 1,
        ;
        if t + shift < n {
            lemma_fundamental_div_mod_converse(t + degree, 2 * n, half, t + shift + n);
        } else {
            assert((half + 1) * (2 * n) == half * (2 * n) + 2 * n) by (nonlinear_arith);
            lemma_fundamental_div_mod_converse(t + degree, 2 * n, half + 1, t + shift - n);
        }
    }
}

/// The polynomial that holds coefficient `i` starts at `i - i % n` and lies
/// within the ciphertext.
pub(crate) proof fn lemma_polynomial_bounds(len: int, n: int, i: int)
    requires
        n > 0,
        len % n == 0,
        0 <= i < len,
    ensures
        (i / n) * n == i - i % n,
        0 <= i % n < n,
        0 <= (i / n) * n,
        (i / n) * n + n <= len,
{
    lemma_fundamental_div_mod(i, n);
    lemma_fundamental_div_mod(len, n);
    assert((i / n) * n == n * (i / n)) by (nonlinear_arith);
    assert(i / n < len / n) by (nonlinear_arith)
        requires
            n > 0,
            0 <= i < len,
            len == n * (len / n),
            i == n * (i / n) + i % n,
            0 <= i % n < n,
    ;
    assert(n * (i / n) + n <= n * (len / n)) by (nonlinear_arith)
        requires
            n > 0,
            i / n < len / n,
    ;
}

/// Divides every polynomial of `input` by the monomial `X^degree` modulo
/// `X^N + 1`.
pub fn glwe_ciphertext_monic_monomial_div(input: &GlweCiphertext, degree: usize) -> (out:
    GlweCiphertext)
    requires
        input.wf(),
    ensures
        out.wf(),
        out.same_shape(input),
        out@ == glwe_monomial_div(input@, input.polynomial_size as nat, degree as nat),
{
    let n = input.polynomial_size;
    let len = input.data.len();
    let shift = degree % n;
    let odd = (degree / n) % 2 == 1;
    let mut data: Vec<u64> = Vec::new();
    let mut i: usize = 0;
    while i < len
        invariant
            input.wf(),
            n == input.polynomial_size,
            len == input.data@.len(),
            shift == degree % n,
            odd == ((degree / n) % 2 == 1),
            i <= len,
            data@.len() == i,
            forall|s: int|
                0 <= s < i ==> #[trigger] data@[s] == negacyclic_coeff(
                    polynomial_of(input@, n as nat, s),
                    s % n as int + degree,
                ),
        decreases len - i,
    {
        let t = i % n;
        proof {
            lemma_polynomial_bounds(len as int, n as int, i as int);
            lemma_negacyclic_index(n as int, t as int, degree as int);
        }
        let base = i - t;
        let ghost poly = polynomial_of(input@, n as nat, i as int);
        assert(poly.len() == n);
        let coeff = if t < n - shift {
            let c = input.data[base + t + shift];
            assert(c == poly[t + shift]);
            if odd {
                wrapping_neg(c)
            } else {
                c
            }
        } else {
            let c = input.data[base + t - (n - shift)];
            assert(c == poly[t + shift - n]);
            if odd {
                c
            } else {
                wrapping_neg(c)
            }
        };
        assert(coeff == negacyclic_coeff(poly, t + degree));
        data.push(coeff);
        i = i + 1;
    }
    let out = GlweCiphertext { data, polynomial_size: n };
    assert(out@ =~= glwe_monomial_div(input@, n as nat, degree as nat));
    out
}

/// The body polynomial of a GLWE ciphertext: its last `n` coefficients.
pub open spec fn glwe_body(ct: Seq<u64>, n: nat) -> Seq<u64> {
    ct.subrange(ct.len() - n, ct.len() as int)
}

/// The extension changes sign every `N` steps.
pub proof fn lemma_negacyclic_antiperiodic(p: Seq<u64>, q: int)
    requires
        p.len() > 0,
    ensures
        negacyclic_coeff(p, q + p.len()) == torus_neg(negacyclic_coeff(p, q)),
{
    let n = p.len() as int;
    let r = q % (2 * n);
    let k = q / (2 * n);
    lemma_fundamental_div_mod(q, 2 * n);
    assert(q == k * (2 * n) + r) by (nonlinear_arith)
        requires
            q == (2 * n) * k + r,
    ;
    if r < n {
        lemma_fundamental_div_mod_converse(q + n, 2 * n, k, r + n);
    } else {
        assert(q + n == (k + 1) * (2 * n) + (r - n)) by (nonlinear_arith)
            requires
                q == k * (2 * n) + r,
        ;
        lemma_fundamental_div_mod_converse(q + n, 2 * n, k + 1, r - n);
        lemma_neg_involutive(p[r - n]);
    }
}

/// Dividing by `X^degree` shifts the extension by `degree`.
pub proof fn lemma_monomial_div_shifts(p: Seq<u64>, degree: nat, q: int)
    requires
        p.len() > 0,
    ensures
        negacyclic_coeff(monomial_div(p, degree), q) == negacyclic_coeff(p, q + degree),
{
    let n = p.len() as int;
    let r = q % (2 * n);
    let k = q / (2 * n);
    lemma_fundamental_div_mod(q, 2 * n);
    lemma_mod_multiples_vanish(k, r + degree, 2 * n);
    assert((2 * n) * k + (r + degree) == q + degree);
    assert(negacyclic_coeff(p, r + degree) == negacyclic_coeff(p, q + degree));
    if r >= n {
        lemma_negacyclic_antiperiodic(p, r - n + degree);
    }
}

/// The body of a divided ciphertext is the divided body.
pub proof fn lemma_body_of_monomial_div(ct: Seq<u64>, n: nat, degree: nat)
    requires
        n > 0,
        ct.len() % n == 0,
        ct.len() >= n,
    ensures
        glwe_body(glwe_monomial_div(ct, n, degree), n) == monomial_div(glwe_body(ct, n), degree),
{
    let len = ct.len() as int;
    let m = n as int;
    let start = len - m;
    let lhs = glwe_body(glwe_monomial_div(ct, n, degree), n);
    let rhs = monomial_div(glwe_body(ct, n), degree);
    assert forall|t: int| 0 <= t < m implies lhs[t] == rhs[t] by {
        lemma_polynomial_bounds(len, m, start + t);
        lemma_fundamental_div_mod(len, m);
        assert(start + t == (len / m - 1) * m + t) by (nonlinear_arith)
            requires
                len == m * (len / m),
                start == len - m,
        ;
        lemma_fundamental_div_mod_converse(start + t, m, len / m - 1, t);
        assert(((start + t) / m) * m == start) by (nonlinear_arith)
            requires
                (start + t) / m == len / m - 1,
                len == m * (len / m),
                start == len - m,
        ;
        assert(polynomial_of(ct, n, start + t) =~= glwe_body(ct, n));
    }
    assert(lhs =~= rhs);
}

} // verus!
