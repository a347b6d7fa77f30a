//! The multi-output programmable bootstrap.
//!
//! One blind rotation evaluates several payloads at once. The accumulator is
//! cut into boxes, one per value of the message; inside a box the payloads
//! take turns, `f_0, f_1, .., f_{k-1}, f_0, ..`, so that after the rotation
//! the result of payload `i` sits `i` coefficients after the result of
//! payload `0`, and a division by `X^i` brings it to the constant
//! coefficient.
//!
//! The blind rotation itself needs the bootstrap key and is supplied by the
//! caller as a function from the accumulator, the input ciphertext and the
//! logarithm of the number of tables to the rotated accumulator, together
//! with the dimensions that the key expects. It is told
//! that logarithm because the payloads line up only after a rotation by a
//! multiple of their number, and the number must divide half a box.

use crate::algorithms::tools::LutFn;
use crate::ciphertext::{GlweCiphertext, GlweCiphertextList, LweCiphertext};
use crate::error::DecompositionError;
use crate::linear_algebra::{glwe_trivial_encrypt, trivial_encryption};
use crate::polynomial::{
    glwe_body, glwe_ciphertext_monic_monomial_div, glwe_monomial_div, lemma_body_of_monomial_div,
    lemma_monomial_div_shifts, lemma_polynomial_bounds, negacyclic_coeff, polynomial_of,
};
use crate::torus::{torus_neg, wrapping_neg};
use vstd::arithmetic::div_mod::{
    lemma_fundamental_div_mod, lemma_fundamental_div_mod_converse, lemma_mod_mod,
    lemma_mod_multiples_basic, lemma_mod_multiples_vanish, lemma_mod_pos_bound, lemma_small_mod,
};
use vstd::arithmetic::power2::{
    lemma2_to64_rest, lemma_pow2_pos, lemma_pow2_strictly_increases, pow2,
};
use vstd::bits::lemma_u64_shl_is_mul;
use vstd::prelude::*;

verus! {

/// Half the width of a box: `n / 2^(message_modulus_log + 1)`.
pub open spec fn half_box_size(n: nat, message_modulus_log: nat) -> nat {
    n / (2 * pow2(message_modulus_log))
}

/// The width of a box.
pub open spec fn box_size(n: nat, message_modulus_log: nat) -> nat {
    2 * half_box_size(n, message_modulus_log)
}

/// The number of coefficients that whole boxes cover.
pub open spec fn boxed_len(n: nat, message_modulus_log: nat) -> nat {
    (n / box_size(n, message_modulus_log)) * box_size(n, message_modulus_log)
}

/// Coefficient `t` of the table before it is centred: inside box `x` the
/// payloads `f_0(x), f_1(x), ..` repeat in turn; what no whole box covers
/// is zero.
pub open spec fn packed_entry(n: nat, message_modulus_log: nat, f: Seq<LutFn>, t: int) -> u64 {
    let width = box_size(n, message_modulus_log) as int;
    if t < boxed_len(n, message_modulus_log) {
        f[(t % width) % (f.len() as int)].eval((t / width) as u64)
    } else {
        0u64
    }
}

/// The accumulator polynomial: the packed table with its first half box
/// negated, rotated to the left by half a box. Box `x` is then centred on
/// the coefficient `x * box_size`, and the negated half box of box zero
/// closes the table, as the anti-periodicity of the rotation requires.
pub open spec fn accumulator(n: nat, message_modulus_log: nat, f: Seq<LutFn>) -> Seq<u64> {
    let half = half_box_size(n, message_modulus_log) as int;
    Seq::new(
        n,
        |q: int|
            {
                let t = (q + half) % (n as int);
                if t < half {
                    torus_neg(packed_entry(n, message_modulus_log, f, t))
                } else {
                    packed_entry(n, message_modulus_log, f, t)
                }
            },
    )
}

/// The table can be built: there is a payload, every payload can be
/// evaluated, and a box is at least two coefficients wide.
pub open spec fn table_ok(n: nat, message_modulus_log: nat, f: Seq<LutFn>) -> bool {
    &&& f.len() >= 1
    &&& forall|i: int| 0 <= i < f.len() ==> (#[trigger] f[i]).callable()
    &&& half_box_size(n, message_modulus_log) >= 1
}

/// With a positive half box the boxes fit into the table.
pub(crate) proof fn lemma_boxes_fit(n: nat, message_modulus_log: nat)
    requires
        half_box_size(n, message_modulus_log) >= 1,
    ensures
        2 * pow2(message_modulus_log) <= n,
        box_size(n, message_modulus_log) <= n,
        boxed_len(n, message_modulus_log) <= n,
        boxed_len(n, message_modulus_log) == n - n % box_size(n, message_modulus_log),
{
    let m = n as int;
    let d = 2 * pow2(message_modulus_log) as int;
    let half = half_box_size(n, message_modulus_log) as int;
    lemma_pow2_pos(message_modulus_log);
    lemma_fundamental_div_mod(m, d);
    assert(half == m / d);
    assert(d * half >= d) by (nonlinear_arith)
        requires
            half >= 1,
            d > 0,
    ;
    assert(2 * half <= m) by (nonlinear_arith)
        requires
            m == d * half + m % d,
            m % d >= 0,
            d >= 2,
            half >= 1,
    ;
    let width = 2 * half;
    lemma_fundamental_div_mod(m, width);
    assert((m / width) * width == width * (m / width)) by (nonlinear_arith);
}

/// A positive half box in a table that a machine can hold bounds the
/// logarithm of the message modulus.
proof fn lemma_message_modulus_log_bound(n: nat, message_modulus_log: nat)
    requires
        n <= u64::MAX,
        half_box_size(n, message_modulus_log) >= 1,
    ensures
        message_modulus_log < 63,
{
    lemma_boxes_fit(n, message_modulus_log);
    if message_modulus_log >= 63 {
        lemma2_to64_rest();
        if message_modulus_log > 63 {
            lemma_pow2_strictly_increases(63, message_modulus_log);
        }
    }
}

/// Builds the accumulator polynomial of `polynomial_size` coefficients for
/// the payloads `f` and a message modulus of `2^message_modulus_log`.
pub fn many_lut_accumulator(polynomial_size: usize, message_modulus_log: usize, f: &[LutFn]) -> (acc:
    Vec<u64>)
    requires
        table_ok(polynomial_size as nat, message_modulus_log as nat, f@),
    ensures
        acc@ == accumulator(polynomial_size as nat, message_modulus_log as nat, f@),
{
    let n = polynomial_size;
    proof {
        lemma_boxes_fit(n as nat, message_modulus_log as nat);
        lemma_message_modulus_log_bound(n as nat, message_modulus_log as nat);
        lemma_pow2_pos(message_modulus_log as nat);
        lemma_u64_shl_is_mul(2u64, message_modulus_log as u64);
    }
    let divisor: u64 = 2u64 << (message_modulus_log as u64);
    assert(divisor == 2 * pow2(message_modulus_log as nat));
    let half = ((n as u64) / divisor) as usize;
    let width = 2 * half;
    let limit = n - n % width;
    let count = f.len();
    let mut acc: Vec<u64> = Vec::new();
    let mut q: usize = 0;
    while q < n
        invariant
            table_ok(n as nat, message_modulus_log as nat, f@),
            half == half_box_size(n as nat, message_modulus_log as nat),
            width == box_size(n as nat, message_modulus_log as nat),
            limit == boxed_len(n as nat, message_modulus_log as nat),
            1 <= half,
            width <= n,
            count == f@.len(),
            q <= n,
            acc@.len() == q,
            forall|s: int|
                0 <= s < q ==> #[trigger] acc@[s] == accumulator(
                    n as nat,
                    message_modulus_log as nat,
                    f@,
                )[s],
        decreases n - q,
    {
        let t = if q < n - half {
            proof {
                lemma_small_mod((q + half) as nat, n as nat);
            }
            q + half
        } else {
            proof {
                lemma_fundamental_div_mod_converse(q + half, n as int, 1, q + half - n);
            }
            q - (n - half)
        };
        assert(t == (q + half) % (n as int));
        let entry = if t < limit {
            let turn = (t % width) % count;
            f[turn].call((t / width) as u64)
        } else {
            0
        };
        assert(entry == packed_entry(n as nat, message_modulus_log as nat, f@, t as int));
        let coeff = if t < half {
            wrapping_neg(entry)
        } else {
            entry
        };
        acc.push(coeff);
        q = q + 1;
    }
    assert(acc@ =~= accumulator(n as nat, message_modulus_log as nat, f@));
    acc
}

/// The accumulator ciphertext that the blind rotation is handed: the
/// noiseless encryption of the accumulator polynomial.
pub open spec fn bootstrap_accumulator(
    glwe_size: nat,
    n: nat,
    message_modulus_log: nat,
    f: Seq<LutFn>,
) -> Seq<u64> {
    trivial_encryption(glwe_size, accumulator(n, message_modulus_log, f))
}

/// The outputs read off a rotated accumulator: output `i` is the
/// accumulator divided by `X^i`.
pub open spec fn many_lut_outputs(rotated: Seq<u64>, n: nat, count: nat) -> Seq<Seq<u64>> {
    Seq::new(count, |i: int| glwe_monomial_div(rotated, n, i as nat))
}

/// The dimensions that a bootstrap key expects: the number of coefficients
/// of the sample that it rotates by, and the number and the size of the
/// polynomials of the accumulator that it rotates.
#[derive(Clone, Copy, Debug)]
pub struct BootstrapKeyShape {
    pub lwe_size: usize,
    pub glwe_size: usize,
    pub polynomial_size: usize,
}

/// The blind rotation accepts every accumulator and every sample of the
/// dimensions of its key.
pub open spec fn rotation_accepts<R: Fn(&GlweCiphertext, &LweCiphertext, usize) -> GlweCiphertext>(
    blind_rotate: &R,
    key: BootstrapKeyShape,
) -> bool {
    forall|acc: &GlweCiphertext, lwe: &LweCiphertext, log_lut_count: usize|
        acc.polynomial_size == key.polynomial_size && acc@.len() == key.glwe_size
            * key.polynomial_size && lwe@.len() == key.lwe_size ==> call_requires(
            blind_rotate,
            (acc, lwe, log_lut_count),
        )
}

/// The blind rotation may return a ciphertext of coefficients `rotated` over
/// polynomials of `rotated_n` coefficients when it is handed the
/// accumulator of coefficients `acc` over polynomials of `n` coefficients,
/// the sample `lwe` and `log_lut_count`.
pub open spec fn rotation_gives<R: Fn(&GlweCiphertext, &LweCiphertext, usize) -> GlweCiphertext>(
    blind_rotate: &R,
    acc: Seq<u64>,
    n: nat,
    lwe: Seq<u64>,
    log_lut_count: usize,
    rotated: Seq<u64>,
    rotated_n: nat,
) -> bool {
    exists|a: GlweCiphertext, l: LweCiphertext, r: GlweCiphertext|
        {
            &&& a@ == acc
            &&& a.polynomial_size == n
            &&& l@ == lwe
            &&& r@ == rotated
            &&& r.polynomial_size == rotated_n
            &&& #[trigger] call_ensures(blind_rotate, (&a, &l, log_lut_count), r)
        }
}

/// Reads the outputs off the rotated accumulator: slot `i` of `out_list`
/// receives the accumulator divided by `X^i`. Succeeds exactly when the
/// accumulator has the dimensions of the list; otherwise the list is left
/// as it was.
pub fn extract_many_lut_outputs(rotated: &GlweCiphertext, out_list: &mut GlweCiphertextList) -> (res:
    Result<(), DecompositionError>)
    requires
        old(out_list).wf(),
    ensures
        res is Ok <==> old(out_list).admits(rotated),
        res is Err ==> res == Err::<(), DecompositionError>(
            DecompositionError::RotatedShapeMismatch,
        ) && *final(out_list) == *old(out_list),
        res is Ok ==> final(out_list).wf(),
        res is Ok ==> final(out_list).glwe_size == old(out_list).glwe_size,
        res is Ok ==> final(out_list).polynomial_size == old(out_list).polynomial_size,
        res is Ok ==> final(out_list)@ == many_lut_outputs(
            rotated@,
            old(out_list).polynomial_size as nat,
            old(out_list)@.len(),
        ),
{
    if !out_list.fits(rotated) {
        return Err(DecompositionError::RotatedShapeMismatch);
    }
    proof {
        out_list.lemma_admitted_is_wf(rotated);
    }
    let count = out_list.glwe_ciphertext_count();
    let ghost n = out_list.polynomial_size as nat;
    let mut i: usize = 0;
    while i < count
        invariant
            rotated.wf(),
            out_list.wf(),
            out_list.admits(rotated),
            out_list.glwe_size == old(out_list).glwe_size,
            out_list.polynomial_size == old(out_list).polynomial_size,
            n == out_list.polynomial_size,
            count == out_list@.len(),
            count == old(out_list)@.len(),
            i <= count,
            forall|s: int|
                0 <= s < i ==> #[trigger] out_list@[s] == glwe_monomial_div(
                    rotated@,
                    n,
                    s as nat,
                ),
        decreases count - i,
    {
        let divided = glwe_ciphertext_monic_monomial_div(rotated, i);
        out_list.set(i, divided);
        i = i + 1;
    }
    assert(out_list@ =~= many_lut_outputs(rotated@, n, count as nat));
    Ok(())
}

/// Evaluates the payloads `f` on the sample `lwe_in` with one blind
/// rotation and writes one output per slot of `out_list`.
///
/// `key` holds the dimensions that the bootstrap key behind `blind_rotate`
/// expects; the sample and the output list must have them before anything
/// is computed. The accumulator handed to `blind_rotate` is the noiseless
/// encryption of the table of `f`; the outputs are read off whatever
/// accumulator the rotation returns. The call fails, and leaves `out_list`
/// as it was, when the returned accumulator does not have the dimensions of
/// the list.
pub fn programmable_bootstrap_lwe_ciphertext_many_lut<R>(
    lwe_in: &LweCiphertext,
    out_list: &mut GlweCiphertextList,
    key: BootstrapKeyShape,
    blind_rotate: &R,
    log_lut_count: usize,
    message_modulus_log: usize,
    f: &[LutFn],
) -> (res: Result<(), DecompositionError>) where
    R: Fn(&GlweCiphertext, &LweCiphertext, usize) -> GlweCiphertext,

    requires
        lwe_in@.len() == key.lwe_size,
        old(out_list).wf(),
        old(out_list).glwe_size == key.glwe_size,
        old(out_list).polynomial_size == key.polynomial_size,
        key.glwe_size * key.polynomial_size <= usize::MAX,
        table_ok(old(out_list).polynomial_size as nat, message_modulus_log as nat, f@),
        f@.len() <= pow2(log_lut_count as nat),
        rotation_accepts(blind_rotate, key),
    ensures
        exists|rotated: Seq<u64>, rotated_n: nat|
            (#[trigger] rotation_gives(
                blind_rotate,
                bootstrap_accumulator(
                    old(out_list).glwe_size as nat,
                    old(out_list).polynomial_size as nat,
                    message_modulus_log as nat,
                    f@,
                ),
                old(out_list).polynomial_size as nat,
                lwe_in@,
                log_lut_count,
                rotated,
                rotated_n,
            ) && (res is Ok <==> rotated_n == old(out_list).polynomial_size && rotated.len()
                == old(out_list).glwe_size * old(out_list).polynomial_size) && (res is Ok
                ==> final(out_list)@ == many_lut_outputs(rotated, rotated_n, old(out_list)@.len()))),
        res is Ok ==> final(out_list).wf(),
        res is Ok ==> final(out_list).glwe_size == old(out_list).glwe_size,
        res is Ok ==> final(out_list).polynomial_size == old(out_list).polynomial_size,
        res is Err ==> res == Err::<(), DecompositionError>(
            DecompositionError::RotatedShapeMismatch,
        ) && *final(out_list) == *old(out_list),
{
    let glwe_size = out_list.glwe_size;
    let table = many_lut_accumulator(out_list.polynomial_size, message_modulus_log, f);
    let accumulator = glwe_trivial_encrypt(glwe_size, &table);
    proof {
        assert(out_list.admits(&accumulator));
        out_list.lemma_admitted_is_wf(&accumulator);
        assert(call_requires(blind_rotate, (&accumulator, lwe_in, log_lut_count)));
    }
    let rotated = blind_rotate(&accumulator, lwe_in, log_lut_count);
    let res = extract_many_lut_outputs(&rotated, out_list);
    proof {
        assert(rotation_gives(
            blind_rotate,
            bootstrap_accumulator(
                old(out_list).glwe_size as nat,
                old(out_list).polynomial_size as nat,
                message_modulus_log as nat,
                f@,
            ),
            old(out_list).polynomial_size as nat,
            lwe_in@,
            log_lut_count,
            rotated@,
            rotated.polynomial_size as nat,
        )) by {
            assert(call_ensures(blind_rotate, (&accumulator, lwe_in, log_lut_count), rotated));
        }
    }
    res
}

/// What an exact blind rotation returns for a noiseless sample whose phase
/// the modulus switch maps to `p` in `[0, 2N)`: the accumulator divided by
/// `X^p`.
pub open spec fn noiseless_rotation(acc: Seq<u64>, n: nat, p: nat) -> Seq<u64> {
    glwe_monomial_div(acc, n, p)
}

/// The constant coefficient of the body of output `i` of a noiseless
/// bootstrap.
pub open spec fn noiseless_output(
    glwe_size: nat,
    n: nat,
    message_modulus_log: nat,
    f: Seq<LutFn>,
    p: nat,
    i: nat,
) -> u64 {
    glwe_body(
        many_lut_outputs(
            noiseless_rotation(bootstrap_accumulator(glwe_size, n, message_modulus_log, f), n, p),
            n,
            f.len(),
        )[i as int],
        n,
    )[0]
}

/// Output `i` of a noiseless bootstrap reads the anti-periodic extension of
/// the accumulator polynomial at `p + i`.
pub proof fn lemma_noiseless_output(
    glwe_size: nat,
    n: nat,
    message_modulus_log: nat,
    f: Seq<LutFn>,
    p: nat,
    i: nat,
)
    requires
        glwe_size >= 1,
        n >= 1,
        i < f.len(),
    ensures
        noiseless_output(glwe_size, n, message_modulus_log, f, p, i) == negacyclic_coeff(
            accumulator(n, message_modulus_log, f),
            (p + i) as int,
        ),
{
    let table = accumulator(n, message_modulus_log, f);
    let acc = bootstrap_accumulator(glwe_size, n, message_modulus_log, f);
    let rot = noiseless_rotation(acc, n, p);
    let k = glwe_size as int;
    let m = n as int;
    assert(k * m >= m) by (nonlinear_arith)
        requires
            k >= 1,
            m >= 1,
    ;
    lemma_fundamental_div_mod_converse(k * m, m, k, 0);
    assert((k - 1) * m == k * m - m) by (nonlinear_arith);
    assert(glwe_body(acc, n) =~= table);
    lemma_body_of_monomial_div(acc, n, p);
    lemma_body_of_monomial_div(rot, n, i);
    lemma_monomial_div_shifts(table, p, i as int);
}

/// A multiple of `k` and the `i`-th coefficient after it, `i < k`, lie in
/// the same box of a width that `k` divides, and the coefficient's turn in
/// the box is `i`.
pub(crate) proof fn lemma_turn_in_box(a: int, i: int, k: int, width: int)
    requires
        k > 0,
        width > 0,
        width % k == 0,
        a >= 0,
        a % k == 0,
        0 <= i < k,
    ensures
        ((a + i) % width) % k == i,
        (a + i) / width == a / width,
{
    let m = width / k;
    lemma_fundamental_div_mod(width, k);
    assert(width == k * m);
    assert(m > 0) by (nonlinear_arith)
        requires
            width == k * m,
            width > 0,
            k > 0,
    ;
    lemma_mod_mod(a + i, k, m);
    lemma_mod_mod(a, k, m);
    lemma_fundamental_div_mod(a, k);
    lemma_mod_multiples_vanish(a / k, i, k);
    lemma_small_mod(i as nat, k as nat);
    let r = a % width;
    lemma_fundamental_div_mod(a, width);
    lemma_fundamental_div_mod(r, k);
    assert(r % k == 0);
    let rq = r / k;
    assert(r == k * rq);
    assert(rq < m) by (nonlinear_arith)
        requires
            k * rq < k * m,
            k > 0,
    ;
    assert(k * rq + k <= k * m) by (nonlinear_arith)
        requires
            rq < m,
            k > 0,
    ;
    assert(a + i == (a / width) * width + (r + i)) by (nonlinear_arith)
        requires
            a == width * (a / width) + r,
    ;
    lemma_fundamental_div_mod_converse(a + i, width, a / width, r + i);
}

/// A noiseless multi-output bootstrap evaluates every payload.
///
/// Let the rotation `p` be a multiple of the number `k` of payloads that
/// falls into box `x` of the table, that is `x = (p + half_box) / box`, and
/// let `k` divide the half box. Then for every `i < k` the constant
/// coefficient of output `i` is `f_i(x)`.
pub proof fn lemma_outputs_evaluate_payloads(
    glwe_size: nat,
    n: nat,
    message_modulus_log: nat,
    f: Seq<LutFn>,
    p: nat,
    i: nat,
)
    requires
        glwe_size >= 1,
        table_ok(n, message_modulus_log, f),
        half_box_size(n, message_modulus_log) % f.len() == 0,
        p % f.len() == 0,
        p + half_box_size(n, message_modulus_log) < boxed_len(n, message_modulus_log),
        i < f.len(),
    ensures
        noiseless_output(glwe_size, n, message_modulus_log, f, p, i) == f[i as int].eval(
            ((p + half_box_size(n, message_modulus_log)) / box_size(n, message_modulus_log)) as u64,
        ),
{
    let half = half_box_size(n, message_modulus_log) as int;
    let width = box_size(n, message_modulus_log) as int;
    let k = f.len() as int;
    let a = p + half;
    lemma_boxes_fit(n, message_modulus_log);
    lemma_noiseless_output(glwe_size, n, message_modulus_log, f, p, i);
    // the boxes end on a multiple of k, so the coefficient read stays inside them
    lemma_fundamental_div_mod(half, k);
    lemma_fundamental_div_mod(p as int, k);
    assert(a == k * (p as int / k + half / k)) by (nonlinear_arith)
        requires
            p == k * (p as int / k),
            half == k * (half / k),
            a == p + half,
    ;
    lemma_mod_multiples_basic(p as int / k + half / k, k);
    assert(a % k == 0) by {
        assert(k * (p as int / k + half / k) == (p as int / k + half / k) * k) by (nonlinear_arith);
    }
    assert(width == k * (2 * (half / k))) by (nonlinear_arith)
        requires
            half == k * (half / k),
            width == 2 * half,
    ;
    lemma_mod_multiples_basic(2 * (half / k), k);
    assert(width % k == 0) by {
        assert(k * (2 * (half / k)) == (2 * (half / k)) * k) by (nonlinear_arith);
    }
    lemma_turn_in_box(a, i as int, k, width);
    // a + i stays below the end of the boxes
    let limit = boxed_len(n, message_modulus_log) as int;
    let boxes = n as int / width;
    assert(limit == boxes * width);
    lemma_fundamental_div_mod(a, width);
    assert(a / width < boxes) by (nonlinear_arith)
        requires
            a < boxes * width,
            width > 0,
            a >= 0,
            a == width * (a / width) + a % width,
            a % width >= 0,
    ;
    assert(a + i < limit) by {
        lemma_fundamental_div_mod(a + i, width);
        assert(width * ((a + i) / width) + width <= boxes * width) by (nonlinear_arith)
            requires
                (a + i) / width < boxes,
                width > 0,
        ;
    }
    lemma_small_mod((p + i) as nat, (2 * n) as nat);
    lemma_small_mod((a + i) as nat, n);
}

/// Dividing by a monomial keeps a zero mask zero.
proof fn lemma_zero_mask_stays(ct: Seq<u64>, n: nat, mask_len: nat, degree: nat, t: int)
    requires
        n >= 1,
        mask_len % n == 0,
        mask_len <= ct.len(),
        forall|s: int| 0 <= s < mask_len ==> ct[s] == 0,
        0 <= t < mask_len,
    ensures
        glwe_monomial_div(ct, n, degree)[t] == 0,
{
    lemma_polynomial_bounds(mask_len as int, n as int, t);
    let poly = polynomial_of(ct, n, t);
    let q = t % (n as int) + degree;
    let r = q % (2 * n as int);
    lemma_mod_pos_bound(q, 2 * n as int);
    if r < n {
        assert(poly[r] == ct[(t / n as int) * n + r]);
    } else {
        assert(poly[r - n] == ct[(t / n as int) * n + r - n]);
    }
}

/// The outputs of a noiseless bootstrap have a zero mask: they are
/// noiseless themselves.
pub proof fn lemma_noiseless_output_mask(
    glwe_size: nat,
    n: nat,
    message_modulus_log: nat,
    f: Seq<LutFn>,
    p: nat,
    i: nat,
    t: int,
)
    requires
        glwe_size >= 1,
        n >= 1,
        i < f.len(),
        0 <= t < (glwe_size - 1) * n,
    ensures
        many_lut_outputs(
            noiseless_rotation(bootstrap_accumulator(glwe_size, n, message_modulus_log, f), n, p),
            n,
            f.len(),
        )[i as int][t] == 0,
{
    let acc = bootstrap_accumulator(glwe_size, n, message_modulus_log, f);
    let rot = noiseless_rotation(acc, n, p);
    let mask_len = ((glwe_size - 1) * n) as nat;
    let k = glwe_size as int;
    let m = n as int;
    assert((k - 1) * m + m == k * m) by (nonlinear_arith);
    assert((k - 1) * m >= 0) by (nonlinear_arith)
        requires
            k >= 1,
            m >= 1,
    ;
    lemma_mod_multiples_basic(k - 1, m);
    assert forall|s: int| 0 <= s < mask_len implies rot[s] == 0 by {
        lemma_zero_mask_stays(acc, n, mask_len, p, s);
    }
    lemma_zero_mask_stays(rot, n, mask_len, i, t);
}

} // verus!
