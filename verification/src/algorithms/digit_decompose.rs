//! The digit-decomposition engine.
//!
//! The input encrypts, in the top `level * base_log` bits of the torus, an
//! integer with `level` digits in radix `2^base_log`. The engine fills one
//! output slot per digit, least significant digit first.
//!
//! Multiplying the input by `2^((level - 1 - j) * base_log)` pushes the
//! digits above digit `j` out of the torus and leaves digit `j` on top of
//! the lower digits. Residual `j` is that product minus a carry, which the
//! bootstrap of residual `j - 1` decides. The sample of a residual is
//! recentred by half a digit step before the bootstrap; the carry
//! extractor answers with a quarter of a digit step, negative on one half
//! of the torus and positive on the other; the carry is that answer plus
//! half a digit step.
//!
//! Without padding the slots receive the residuals. With padding each
//! bootstrap evaluates a second payload as well, a carry of finer
//! magnitude; the slots above the first receive the scaled input minus that
//! carry, which leaves a smaller part of the lower digits in the slot.
//!
//! [`crate::algorithms::noiseless`] proves that on noiseless inputs every
//! slot holds its digit within half a digit step, in both modes, unless a
//! digit below the last is `2^base_log - 1`: recentred, such a digit can
//! reach the upper end of the table, where the carry extractor answers as
//! for the lower half.
//!
//! The keyswitch and the blind rotation need key material and are supplied
//! by the caller as functions, with the dimensions that the bootstrap key
//! expects. The dimensions of the ciphertexts and of the key must agree
//! before any work is done. Nothing is assumed of what the functions
//! return: a result that the engine cannot use ends the decomposition with
//! an error and leaves the output as it was.

use crate::algorithms::pbs_many_lut::{
    bootstrap_accumulator, half_box_size, many_lut_outputs,
    programmable_bootstrap_lwe_ciphertext_many_lut, rotation_accepts, rotation_gives, table_ok,
    BootstrapKeyShape,
};
use crate::algorithms::tools::{make_f1_with_b, make_f3_with_b, LutFn, LutKind};
use crate::ciphertext::{GlweCiphertext, GlweCiphertextList, LweCiphertext};
use crate::error::DecompositionError;
use crate::linear_algebra::{
    ciphertext_sub, cleartext_mul, glwe_cleartext_mul, glwe_plaintext_add,
    glwe_plaintext_add_assign, glwe_sample_extract, glwe_sub_assign, lwe_plaintext_add,
    lwe_plaintext_add_assign, sample_extract,
};
use crate::polynomial::glwe_monomial_div;
use crate::torus::{torus_pow2, wrapping_pow2};
use vstd::arithmetic::div_mod::lemma_fundamental_div_mod_converse;
use vstd::arithmetic::power2::{lemma2_to64, pow2};
use vstd::prelude::*;

verus! {

/// The factor that brings digit `j` of a `level`-digit input to the top of
/// the torus: `2^((level - 1 - j) * base_log)` modulo 2^64.
pub open spec fn level_weight(base_log: nat, level: nat, j: nat) -> u64 {
    torus_pow2(((level - 1 - j) * base_log) as nat)
}

/// Half a digit step, `2^(63 - base_log)`: it is added to a sample before
/// the bootstrap and to the bootstrap's result.
pub open spec fn recentering_bias(base_log: nat) -> u64 {
    torus_pow2((63 - base_log) as nat)
}

/// The radix allows a bootstrap over polynomials of `n` coefficients: the
/// bias and the carry extractor exist, and the table has `2^(base_log - 1)`
/// boxes of at least two coefficients.
pub open spec fn radix_ok(n: nat, base_log: nat) -> bool {
    &&& 1 <= base_log <= 62
    &&& half_box_size(n, (base_log - 1) as nat) >= 1
}

/// The keyswitch accepts every sample of `sample_size` coefficients.
pub open spec fn keyswitch_accepts<K: Fn(&LweCiphertext) -> LweCiphertext>(
    keyswitch: &K,
    sample_size: nat,
) -> bool {
    forall|sample: &LweCiphertext|
        sample@.len() == sample_size ==> call_requires(keyswitch, (sample,))
}

/// The keyswitch may return the coefficients `switched` for the sample of
/// coefficients `sample`.
pub open spec fn keyswitch_gives<K: Fn(&LweCiphertext) -> LweCiphertext>(
    keyswitch: &K,
    sample: Seq<u64>,
    switched: Seq<u64>,
) -> bool {
    exists|s: LweCiphertext, r: LweCiphertext|
        {
            &&& s@ == sample
            &&& r@ == switched
            &&& #[trigger] call_ensures(keyswitch, (&s,), r)
        }
}

/// The input scaled for digit `j`.
pub open spec fn scaled(input: Seq<u64>, base_log: nat, level: nat, j: nat) -> Seq<u64> {
    cleartext_mul(input, level_weight(base_log, level, j))
}

/// Digit `j` once the carry of the digits below it is removed: the input
/// scaled for digit `j`, minus the bootstrap's first output with the bias
/// added to its body.
pub open spec fn carried(
    input: Seq<u64>,
    n: nat,
    base_log: nat,
    level: nat,
    j: nat,
    first_output: Seq<u64>,
) -> Seq<u64> {
    ciphertext_sub(
        scaled(input, base_log, level, j),
        glwe_plaintext_add(first_output, n, recentering_bias(base_log)),
    )
}

/// One bootstrap of the engine. The constant coefficient of `residual` is
/// extracted as an LWE sample; the keyswitch turns the sample into
/// `switched`; the bias is added; the blind rotation turns the accumulator
/// of the payloads `f` into `rotated`, which has the dimensions of the
/// residual.
pub open spec fn bootstrap_step<
    K: Fn(&LweCiphertext) -> LweCiphertext,
    R: Fn(&GlweCiphertext, &LweCiphertext, usize) -> GlweCiphertext,
>(
    keyswitch: &K,
    blind_rotate: &R,
    residual: Seq<u64>,
    n: nat,
    base_log: nat,
    log_lut_count: usize,
    f: Seq<LutFn>,
    switched: Seq<u64>,
    rotated: Seq<u64>,
) -> bool {
    &&& keyswitch_gives(keyswitch, sample_extract(residual, n, 0), switched)
    &&& switched.len() >= 1
    &&& rotation_gives(
        blind_rotate,
        bootstrap_accumulator(residual.len() / n, n, (base_log - 1) as nat, f),
        n,
        lwe_plaintext_add(switched, recentering_bias(base_log)),
        log_lut_count,
        rotated,
        n,
    )
    &&& rotated.len() == residual.len()
}

/// The payloads of a bootstrap: the carry extractor alone without padding,
/// the carry extractor and the fine carry extractor with padding.
pub open spec fn payloads(padded: bool, base_log: nat) -> Seq<LutFn> {
    if padded {
        seq![
            LutFn { kind: LutKind::F1, b: base_log as usize },
            LutFn { kind: LutKind::F3, b: base_log as usize },
        ]
    } else {
        seq![LutFn { kind: LutKind::F1, b: base_log as usize }]
    }
}

/// The logarithm of the number of tables that share the accumulator.
pub open spec fn lut_count_log(padded: bool) -> usize {
    if padded {
        1
    } else {
        0
    }
}

/// Level `j` of a decomposition: the bootstrap of residual `j`, and
/// residual `j + 1` made from its first output.
pub open spec fn residual_level<
    K: Fn(&LweCiphertext) -> LweCiphertext,
    R: Fn(&GlweCiphertext, &LweCiphertext, usize) -> GlweCiphertext,
>(
    keyswitch: &K,
    blind_rotate: &R,
    input: Seq<u64>,
    n: nat,
    base_log: nat,
    level: nat,
    padded: bool,
    switched: Seq<Seq<u64>>,
    rotated: Seq<Seq<u64>>,
    residuals: Seq<Seq<u64>>,
    j: int,
) -> bool {
    &&& bootstrap_step(
        keyswitch,
        blind_rotate,
        residuals[j],
        n,
        base_log,
        lut_count_log(padded),
        payloads(padded, base_log),
        switched[j],
        rotated[j],
    )
    &&& residuals[j + 1] == carried(
        input,
        n,
        base_log,
        level,
        (j + 1) as nat,
        glwe_monomial_div(rotated[j], n, 0),
    )
}

/// The first `steps` levels of a decomposition produced `residuals`, with
/// `switched` and `rotated` as the results of the keyswitch and of the
/// blind rotation at each level. Residual 0 is the input scaled for the
/// least significant digit.
pub open spec fn residual_run<
    K: Fn(&LweCiphertext) -> LweCiphertext,
    R: Fn(&GlweCiphertext, &LweCiphertext, usize) -> GlweCiphertext,
>(
    keyswitch: &K,
    blind_rotate: &R,
    input: Seq<u64>,
    n: nat,
    base_log: nat,
    level: nat,
    padded: bool,
    switched: Seq<Seq<u64>>,
    rotated: Seq<Seq<u64>>,
    residuals: Seq<Seq<u64>>,
    steps: nat,
) -> bool {
    &&& residuals.len() == steps + 1
    &&& switched.len() == steps
    &&& rotated.len() == steps
    &&& residuals[0] == scaled(input, base_log, level, 0)
    &&& forall|j: int|
        0 <= j < steps ==> #[trigger] residual_level(
            keyswitch,
            blind_rotate,
            input,
            n,
            base_log,
            level,
            padded,
            switched,
            rotated,
            residuals,
            j,
        )
}

/// The ciphertext emitted for digit `j`. Without padding it is residual
/// `j`. With padding the first slot is the first residual, and slot `j`
/// above it is the input scaled for digit `j` minus the second output of the
/// bootstrap of residual `j - 1` with the bias added to its body: the same
/// digit with a finer carry removed.
pub open spec fn output_digit(
    input: Seq<u64>,
    n: nat,
    base_log: nat,
    level: nat,
    padded: bool,
    rotated: Seq<Seq<u64>>,
    residuals: Seq<Seq<u64>>,
    j: int,
) -> Seq<u64> {
    if padded && j >= 1 {
        carried(input, n, base_log, level, j as nat, glwe_monomial_div(rotated[j - 1], n, 1))
    } else {
        residuals[j]
    }
}

/// `output` is the decomposition of `input` for the keyswitch results
/// `switched` and the rotated accumulators `rotated`: `level - 1` levels
/// were run, and slot `j` holds the ciphertext of digit `j`.
pub open spec fn decomposition<
    K: Fn(&LweCiphertext) -> LweCiphertext,
    R: Fn(&GlweCiphertext, &LweCiphertext, usize) -> GlweCiphertext,
>(
    keyswitch: &K,
    blind_rotate: &R,
    input: Seq<u64>,
    n: nat,
    base_log: nat,
    level: nat,
    padded: bool,
    switched: Seq<Seq<u64>>,
    rotated: Seq<Seq<u64>>,
    residuals: Seq<Seq<u64>>,
    output: Seq<Seq<u64>>,
) -> bool {
    &&& residual_run(
        keyswitch,
        blind_rotate,
        input,
        n,
        base_log,
        level,
        padded,
        switched,
        rotated,
        residuals,
        (level - 1) as nat,
    )
    &&& output.len() == level
    &&& forall|j: int|
        0 <= j < level ==> #[trigger] output[j] == output_digit(
            input,
            n,
            base_log,
            level,
            padded,
            rotated,
            residuals,
            j,
        )
}

/// Every keyswitched sample has the number of coefficients that the
/// bootstrap key expects.
pub open spec fn switched_sizes(switched: Seq<Seq<u64>>, lwe_size: nat) -> bool {
    forall|j: int| 0 <= j < switched.len() ==> (#[trigger] switched[j]).len() == lwe_size
}

/// The bootstrap of `residual` cannot be completed with the error `error`:
/// the keyswitch returned a sample that does not have `lwe_size`
/// coefficients, or it returned such a sample and the blind rotation
/// returned an accumulator that does not have the dimensions of the
/// residual.
pub open spec fn step_fails<
    K: Fn(&LweCiphertext) -> LweCiphertext,
    R: Fn(&GlweCiphertext, &LweCiphertext, usize) -> GlweCiphertext,
>(
    keyswitch: &K,
    blind_rotate: &R,
    residual: Seq<u64>,
    n: nat,
    base_log: nat,
    log_lut_count: usize,
    f: Seq<LutFn>,
    lwe_size: nat,
    error: DecompositionError,
) -> bool {
    exists|switched: Seq<u64>|
        {
            &&& #[trigger] keyswitch_gives(keyswitch, sample_extract(residual, n, 0), switched)
            &&& if switched.len() != lwe_size {
                error == DecompositionError::SwitchedSizeMismatch
            } else {
                &&& error == DecompositionError::RotatedShapeMismatch
                &&& exists|rotated: Seq<u64>, rotated_n: nat|
                    {
                        &&& #[trigger] rotation_gives(
                            blind_rotate,
                            bootstrap_accumulator(
                                residual.len() / n,
                                n,
                                (base_log - 1) as nat,
                                f,
                            ),
                            n,
                            lwe_plaintext_add(switched, recentering_bias(base_log)),
                            log_lut_count,
                            rotated,
                            rotated_n,
                        )
                        &&& !(rotated_n == n && rotated.len() == residual.len())
                    }
            }
        }
}

/// The decomposition of `input` stops with the error `error`: some levels
/// were run, fewer than `level - 1`, and the bootstrap of the residual that
/// they reached fails with that error.
pub open spec fn decomposition_stops<
    K: Fn(&LweCiphertext) -> LweCiphertext,
    R: Fn(&GlweCiphertext, &LweCiphertext, usize) -> GlweCiphertext,
>(
    keyswitch: &K,
    blind_rotate: &R,
    input: Seq<u64>,
    n: nat,
    base_log: nat,
    level: nat,
    padded: bool,
    lwe_size: nat,
    error: DecompositionError,
) -> bool {
    exists|
        switched: Seq<Seq<u64>>,
        rotated: Seq<Seq<u64>>,
        residuals: Seq<Seq<u64>>,
        steps: nat,
    |
        {
            &&& steps + 1 < level
            &&& #[trigger] residual_run(
                keyswitch,
                blind_rotate,
                input,
                n,
                base_log,
                level,
                padded,
                switched,
                rotated,
                residuals,
                steps,
            )
            &&& switched_sizes(switched, lwe_size)
            &&& step_fails(
                keyswitch,
                blind_rotate,
                residuals[steps as int],
                n,
                base_log,
                lut_count_log(padded),
                payloads(padded, base_log),
                lwe_size,
                error,
            )
        }
}

/// What a decomposition asks of its arguments. The input and the output
/// slots have the dimensions of the bootstrap key, whose sample has at least
/// its body; the keyswitch accepts the samples extracted from the input's
/// dimensions and the blind rotation what its key expects; and where a
/// bootstrap is due, the radix allows its table.
pub open spec fn decomposable<
    K: Fn(&LweCiphertext) -> LweCiphertext,
    R: Fn(&GlweCiphertext, &LweCiphertext, usize) -> GlweCiphertext,
>(
    input: &GlweCiphertext,
    output: &GlweCiphertextList,
    base_log: usize,
    level: usize,
    padded: bool,
    key: BootstrapKeyShape,
    keyswitch: &K,
    blind_rotate: &R,
) -> bool {
    &&& input.wf()
    &&& output.wf()
    &&& output.admits(input)
    &&& level >= 1
    &&& output@.len() == level
    &&& key.glwe_size == output.glwe_size
    &&& key.polynomial_size == output.polynomial_size
    &&& key.lwe_size >= 1
    &&& keyswitch_accepts(keyswitch, (input@.len() - input.polynomial_size + 1) as nat)
    &&& rotation_accepts(blind_rotate, key)
    &&& level >= 2 ==> radix_ok(input.polynomial_size as nat, base_log as nat)
    &&& level >= 2 && padded ==> base_log <= 61
}

/// The weight `2^((level - 1 - j) * base_log)` modulo 2^64.
pub fn weight_of_level(base_log: usize, level: usize, j: usize) -> (w: u64)
    requires
        j < level,
    ensures
        w == level_weight(base_log as nat, level as nat, j as nat),
{
    let above = level - 1 - j;
    match above.checked_mul(base_log) {
        Some(shift) => wrapping_pow2(shift),
        None => {
            assert(above * base_log >= 64);
            0
        },
    }
}

/// The input scaled for digit `j`.
pub fn scaled_input(input: &GlweCiphertext, base_log: usize, level: usize, j: usize) -> (out:
    GlweCiphertext)
    requires
        input.wf(),
        j < level,
    ensures
        out.wf(),
        out.same_shape(input),
        out@ == scaled(input@, base_log as nat, level as nat, j as nat),
{
    glwe_cleartext_mul(input, weight_of_level(base_log, level, j))
}

/// Adds the recentring bias to the body of a keyswitched sample. Fails
/// exactly when the sample does not have `lwe_size` coefficients.
pub fn recentered_sample(switched: LweCiphertext, base_log: usize, lwe_size: usize) -> (res: Result<
    LweCiphertext,
    DecompositionError,
>)
    requires
        base_log <= 63,
        lwe_size >= 1,
    ensures
        res is Ok <==> switched@.len() == lwe_size,
        res is Err ==> res == Err::<LweCiphertext, DecompositionError>(
            DecompositionError::SwitchedSizeMismatch,
        ),
        res matches Ok(sample) ==> sample.wf() && sample@ == lwe_plaintext_add(
            switched@,
            recentering_bias(base_log as nat),
        ),
{
    if switched.lwe_size() != lwe_size {
        return Err(DecompositionError::SwitchedSizeMismatch);
    }
    let mut sample = switched;
    lwe_plaintext_add_assign(&mut sample, wrapping_pow2(63 - base_log));
    Ok(sample)
}

/// Digit `j` with a carry of the lower digits removed: the input scaled for
/// digit `j`, minus output `which` of the bootstrap of the previous residual
/// with the bias added to its body.
pub fn carried_digit(
    input: &GlweCiphertext,
    base_log: usize,
    level: usize,
    j: usize,
    pbs_result: &GlweCiphertextList,
    which: usize,
) -> (out: GlweCiphertext)
    requires
        input.wf(),
        j < level,
        base_log <= 63,
        pbs_result.wf(),
        which < pbs_result@.len(),
        pbs_result.admits(input),
    ensures
        out.wf(),
        out.same_shape(input),
        out@ == carried(
            input@,
            input.polynomial_size as nat,
            base_log as nat,
            level as nat,
            j as nat,
            pbs_result@[which as int],
        ),
{
    let mut out = scaled_input(input, base_log, level, j);
    let mut carry = pbs_result.get(which).duplicate();
    proof {
        pbs_result.lemma_admitted_is_wf(&carry);
    }
    glwe_plaintext_add_assign(&mut carry, wrapping_pow2(63 - base_log));
    glwe_sub_assign(&mut out, &carry);
    out
}

/// The payloads of a bootstrap of the engine.
pub fn payloads_of_mode(padded: bool, base_log: usize) -> (f: Vec<LutFn>)
    ensures
        f@ == payloads(padded, base_log as nat),
{
    let mut f: Vec<LutFn> = Vec::new();
    f.push(make_f1_with_b(base_log));
    if padded {
        f.push(make_f3_with_b(base_log));
    }
    assert(f@ =~= payloads(padded, base_log as nat));
    f
}

/// Decomposes `input` into `decompose_level` digits in radix
/// `2^decompose_base_log`, with or without padding.
///
/// The running residual starts as the input scaled for the least
/// significant digit. At each of the `decompose_level - 1` levels the
/// constant coefficient of the residual is extracted, keyswitched,
/// recentred and bootstrapped; the next residual is the input scaled for
/// the next digit minus the first output of the bootstrap. Without padding
/// each residual is the ciphertext of its digit. With padding the
/// ciphertext of a digit above the first is the input scaled for that digit
/// minus the second output of the bootstrap.
///
/// `key` holds the dimensions that the bootstrap key behind `blind_rotate`
/// expects. On an error `output` is left as it was.
pub fn digit_decompose<K, R>(
    input: &GlweCiphertext,
    output: &mut GlweCiphertextList,
    decompose_base_log: usize,
    decompose_level: usize,
    padded: bool,
    key: BootstrapKeyShape,
    keyswitch: &K,
    blind_rotate: &R,
) -> (res: Result<(), DecompositionError>) where
    K: Fn(&LweCiphertext) -> LweCiphertext,
    R: Fn(&GlweCiphertext, &LweCiphertext, usize) -> GlweCiphertext,

    requires
        decomposable(
            input,
            old(output),
            decompose_base_log,
            decompose_level,
            padded,
            key,
            keyswitch,
            blind_rotate,
        ),
    ensures
        final(output).wf(),
        final(output).glwe_size == old(output).glwe_size,
        final(output).polynomial_size == old(output).polynomial_size,
        decompose_level == 1 ==> res is Ok,
        res is Err ==> *final(output) == *old(output),
        res matches Err(error) ==> decomposition_stops(
            keyswitch,
            blind_rotate,
            input@,
            input.polynomial_size as nat,
            decompose_base_log as nat,
            decompose_level as nat,
            padded,
            key.lwe_size as nat,
            error,
        ),
        res is Ok ==> exists|
            switched: Seq<Seq<u64>>,
            rotated: Seq<Seq<u64>>,
            residuals: Seq<Seq<u64>>,
        |
            #[trigger] decomposition(
                keyswitch,
                blind_rotate,
                input@,
                input.polynomial_size as nat,
                decompose_base_log as nat,
                decompose_level as nat,
                padded,
                switched,
                rotated,
                residuals,
                final(output)@,
            ) && switched_sizes(switched, key.lwe_size as nat),
{
    let glwe_size = output.glwe_size;
    let n = output.polynomial_size;
    let input_len = input.data.len();
    let ghost base_log = decompose_base_log as nat;
    let ghost level = decompose_level as nat;
    let mut digits: Vec<GlweCiphertext> = Vec::new();
    let mut residual = scaled_input(input, decompose_base_log, decompose_level, 0);
    digits.push(residual.duplicate());
    let ghost mut switched: Seq<Seq<u64>> = Seq::empty();
    let ghost mut rotated: Seq<Seq<u64>> = Seq::empty();
    let ghost mut residuals: Seq<Seq<u64>> = seq![residual@];
    proof {
        output.lemma_admitted_is_wf(input);
    }
    if decompose_level >= 2 {
        let lut = payloads_of_mode(padded, decompose_base_log);
        let log_lut_count: usize = if padded {
            1
        } else {
            0
        };
        let mut pbs_result = GlweCiphertextList::new(0, glwe_size, n, lut.len());
        proof {
            lemma2_to64();
            assert((glwe_size * n) as int / (n as int) == glwe_size) by {
                lemma_fundamental_div_mod_converse(
                    (glwe_size * n) as int,
                    n as int,
                    glwe_size as int,
                    0,
                );
            }
        }
        let mut j: usize = 0;
        while j < decompose_level - 1
            invariant
                input.wf(),
                output.wf(),
                output.admits(input),
                *output == *old(output),
                glwe_size == output.glwe_size,
                n == output.polynomial_size,
                n == input.polynomial_size,
                glwe_size * n <= usize::MAX,
                (glwe_size * n) as int / (n as int) == glwe_size,
                base_log == decompose_base_log,
                level == decompose_level,
                decompose_level >= 2,
                radix_ok(n as nat, base_log),
                padded ==> base_log <= 61,
                key.glwe_size == glwe_size,
                key.polynomial_size == n,
                key.lwe_size >= 1,
                keyswitch_accepts(keyswitch, (input@.len() - n + 1) as nat),
                rotation_accepts(blind_rotate, key),
                lut@ == payloads(padded, base_log),
                log_lut_count == lut_count_log(padded),
                lut@.len() <= pow2(log_lut_count as nat),
                pbs_result.wf(),
                pbs_result.glwe_size == glwe_size,
                pbs_result.polynomial_size == n,
                pbs_result@.len() == lut@.len(),
                j <= decompose_level - 1,
                digits@.len() == j + 1,
                output.admits(&residual),
                residuals.len() == j + 1,
                residuals[j as int] == residual@,
                switched_sizes(switched, key.lwe_size as nat),
                forall|s: int| 0 <= s <= j ==> output.admits(#[trigger] &digits@[s]),
                forall|s: int|
                    0 <= s <= j ==> (#[trigger] digits@[s])@ == output_digit(
                        input@,
                        n as nat,
                        base_log,
                        level,
                        padded,
                        rotated,
                        residuals,
                        s,
                    ),
                residual_run(
                    keyswitch,
                    blind_rotate,
                    input@,
                    n as nat,
                    base_log,
                    level,
                    padded,
                    switched,
                    rotated,
                    residuals,
                    j as nat,
                ),
            decreases decompose_level - 1 - j,
        {
            proof {
                output.lemma_admitted_is_wf(&residual);
            }
            let sample = glwe_sample_extract(&residual, 0);
            assert(sample@.len() == input@.len() - n + 1);
            assert(call_requires(keyswitch, (&sample,)));
            let after_ks = keyswitch(&sample);
            let ghost after_ks_view = after_ks@;
            assert(keyswitch_gives(
                keyswitch,
                sample_extract(residual@, n as nat, 0),
                after_ks_view,
            )) by {
                assert(call_ensures(keyswitch, (&sample,), after_ks));
            }
            let recentred = match recentered_sample(
                after_ks,
                decompose_base_log,
                key.lwe_size,
            ) {
                Ok(sample) => sample,
                Err(e) => {
                    proof {
                        assert(step_fails(
                            keyswitch,
                            blind_rotate,
                            residuals[j as int],
                            n as nat,
                            base_log,
                            lut_count_log(padded),
                            payloads(padded, base_log),
                            key.lwe_size as nat,
                            e,
                        ));
                    }
                    return Err(e);
                },
            };
            assert(table_ok(n as nat, (decompose_base_log - 1) as nat, lut@));
            match programmable_bootstrap_lwe_ciphertext_many_lut(
                &recentred,
                &mut pbs_result,
                key,
                blind_rotate,
                log_lut_count,
                decompose_base_log - 1,
                lut.as_slice(),
            ) {
                Ok(()) => {},
                Err(e) => {
                    proof {
                        assert(step_fails(
                            keyswitch,
                            blind_rotate,
                            residuals[j as int],
                            n as nat,
                            base_log,
                            lut_count_log(padded),
                            payloads(padded, base_log),
                            key.lwe_size as nat,
                            e,
                        ));
                    }
                    return Err(e);
                },
            }
            let ghost (rot, rot_n) = choose|rot: Seq<u64>, rot_n: nat|
                {
                    &&& #[trigger] rotation_gives(
                        blind_rotate,
                        bootstrap_accumulator(
                            glwe_size as nat,
                            n as nat,
                            (decompose_base_log - 1) as nat,
                            lut@,
                        ),
                        n as nat,
                        recentred@,
                        log_lut_count,
                        rot,
                        rot_n,
                    )
                    &&& rot_n == n && rot.len() == glwe_size * n
                    &&& pbs_result@ == many_lut_outputs(rot, rot_n, lut@.len())
                };
            let next = carried_digit(
                input,
                decompose_base_log,
                decompose_level,
                j + 1,
                &pbs_result,
                0,
            );
            let digit = if padded {
                carried_digit(input, decompose_base_log, decompose_level, j + 1, &pbs_result, 1)
            } else {
                next.duplicate()
            };
            let ghost old_switched = switched;
            let ghost old_rotated = rotated;
            let ghost old_residuals = residuals;
            let ghost old_digits = digits@;
            proof {
                switched = switched.push(after_ks_view);
                rotated = rotated.push(rot);
                residuals = residuals.push(next@);
            }
            digits.push(digit);
            residual = next;
            j = j + 1;
            proof {
                assert forall|t: int| 0 <= t < j implies #[trigger] residual_level(
                    keyswitch,
                    blind_rotate,
                    input@,
                    n as nat,
                    base_log,
                    level,
                    padded,
                    switched,
                    rotated,
                    residuals,
                    t,
                ) by {
                    assert(residuals[t] == old_residuals[t]);
                    if t < j - 1 {
                        assert(residual_level(
                            keyswitch,
                            blind_rotate,
                            input@,
                            n as nat,
                            base_log,
                            level,
                            padded,
                            old_switched,
                            old_rotated,
                            old_residuals,
                            t,
                        ));
                        assert(old_switched[t] == switched[t]);
                        assert(old_rotated[t] == rotated[t]);
                        assert(residuals[t + 1] == old_residuals[t + 1]);
                    } else {
                        assert(pbs_result@[0] == glwe_monomial_div(rot, n as nat, 0));
                        assert(switched[t] == after_ks_view);
                        assert(rotated[t] == rot);
                    }
                }
                assert(residuals[0] == old_residuals[0]);
                assert forall|t: int| 0 <= t < switched.len() implies (#[trigger] switched[t]).len()
                    == key.lwe_size by {
                    if t < j - 1 {
                        assert(switched[t] == old_switched[t]);
                    }
                }
                assert forall|s: int| 0 <= s <= j implies (#[trigger] digits@[s])@ == output_digit(
                    input@,
                    n as nat,
                    base_log,
                    level,
                    padded,
                    rotated,
                    residuals,
                    s,
                ) by {
                    if s < j {
                        assert(digits@[s] == old_digits[s]);
                        assert(residuals[s] == old_residuals[s]);
                        if s >= 1 {
                            assert(old_rotated[s - 1] == rotated[s - 1]);
                        }
                    } else {
                        assert(rotated[s - 1] == rot);
                        if padded {
                            assert(pbs_result@[1] == glwe_monomial_div(rot, n as nat, 1));
                        }
                    }
                }
            }
        }
    }
    let ghost final_views = Seq::new(digits@.len(), |s: int| digits@[s]@);
    proof {
        assert forall|t: int| 0 <= t < level implies #[trigger] final_views[t] == output_digit(
            input@,
            n as nat,
            base_log,
            level,
            padded,
            rotated,
            residuals,
            t,
        ) by {}
        assert(decomposition(
            keyswitch,
            blind_rotate,
            input@,
            n as nat,
            base_log,
            level,
            padded,
            switched,
            rotated,
            residuals,
            final_views,
        ));
    }
    *output = GlweCiphertextList { ciphertexts: digits, glwe_size, polynomial_size: n };
    assert(output@ =~= final_views);
    Ok(())
}

/// Decomposes `input` with one carry-extractor bootstrap per level above
/// the first: slot `j` of `output` receives residual `j`.
///
/// On an error `output` is left as it was.
pub fn digit_decompose_no_padding<K, R>(
    input: &GlweCiphertext,
    output: &mut GlweCiphertextList,
    decompose_base_log: usize,
    decompose_level: usize,
    key: BootstrapKeyShape,
    keyswitch: &K,
    blind_rotate: &R,
) -> (res: Result<(), DecompositionError>) where
    K: Fn(&LweCiphertext) -> LweCiphertext,
    R: Fn(&GlweCiphertext, &LweCiphertext, usize) -> GlweCiphertext,

    requires
        decomposable(
            input,
            old(output),
            decompose_base_log,
            decompose_level,
            false,
            key,
            keyswitch,
            blind_rotate,
        ),
    ensures
        final(output).wf(),
        final(output).glwe_size == old(output).glwe_size,
        final(output).polynomial_size == old(output).polynomial_size,
        decompose_level == 1 ==> res is Ok,
        res is Err ==> *final(output) == *old(output),
        res matches Err(error) ==> decomposition_stops(
            keyswitch,
            blind_rotate,
            input@,
            input.polynomial_size as nat,
            decompose_base_log as nat,
            decompose_level as nat,
            false,
            key.lwe_size as nat,
            error,
        ),
        res is Ok ==> exists|
            switched: Seq<Seq<u64>>,
            rotated: Seq<Seq<u64>>,
            residuals: Seq<Seq<u64>>,
        |
            #[trigger] decomposition(
                keyswitch,
                blind_rotate,
                input@,
                input.polynomial_size as nat,
                decompose_base_log as nat,
                decompose_level as nat,
                false,
                switched,
                rotated,
                residuals,
                final(output)@,
            ) && switched_sizes(switched, key.lwe_size as nat),
{
    digit_decompose(
        input,
        output,
        decompose_base_log,
        decompose_level,
        false,
        key,
        keyswitch,
        blind_rotate,
    )
}

/// Decomposes `input` with one two-payload bootstrap per level above the
/// first: slot 0 of `output` receives the first residual, and slot `j` above
/// it the input scaled for digit `j` minus the biased second output of the
/// bootstrap of residual `j - 1`.
///
/// On an error `output` is left as it was.
pub fn digit_decompose_with_padding<K, R>(
    input: &GlweCiphertext,
    output: &mut GlweCiphertextList,
    decompose_base_log: usize,
    decompose_level: usize,
    key: BootstrapKeyShape,
    keyswitch: &K,
    blind_rotate: &R,
) -> (res: Result<(), DecompositionError>) where
    K: Fn(&LweCiphertext) -> LweCiphertext,
    R: Fn(&GlweCiphertext, &LweCiphertext, usize) -> GlweCiphertext,

    requires
        decomposable(
            input,
            old(output),
            decompose_base_log,
            decompose_level,
            true,
            key,
            keyswitch,
            blind_rotate,
        ),
    ensures
        final(output).wf(),
        final(output).glwe_size == old(output).glwe_size,
        final(output).polynomial_size == old(output).polynomial_size,
        decompose_level == 1 ==> res is Ok,
        res is Err ==> *final(output) == *old(output),
        res matches Err(error) ==> decomposition_stops(
            keyswitch,
            blind_rotate,
            input@,
            input.polynomial_size as nat,
            decompose_base_log as nat,
            decompose_level as nat,
            true,
            key.lwe_size as nat,
            error,
        ),
        res is Ok ==> exists|
            switched: Seq<Seq<u64>>,
            rotated: Seq<Seq<u64>>,
            residuals: Seq<Seq<u64>>,
        |
            #[trigger] decomposition(
                keyswitch,
                blind_rotate,
                input@,
                input.polynomial_size as nat,
                decompose_base_log as nat,
                decompose_level as nat,
                true,
                switched,
                rotated,
                residuals,
                final(output)@,
            ) && switched_sizes(switched, key.lwe_size as nat),
{
    digit_decompose(
        input,
        output,
        decompose_base_log,
        decompose_level,
        true,
        key,
        keyswitch,
        blind_rotate,
    )
}

/// The keyswitch returns one result for each sample.
pub open spec fn keyswitch_deterministic<K: Fn(&LweCiphertext) -> LweCiphertext>(
    keyswitch: &K,
) -> bool {
    forall|sample: Seq<u64>, first: Seq<u64>, second: Seq<u64>|
        #[trigger] keyswitch_gives(keyswitch, sample, first) && #[trigger] keyswitch_gives(
            keyswitch,
            sample,
            second,
        ) ==> first == second
}

/// The blind rotation returns one result for each accumulator, sample and
/// number of tables.
pub open spec fn rotation_deterministic<
    R: Fn(&GlweCiphertext, &LweCiphertext, usize) -> GlweCiphertext,
>(blind_rotate: &R) -> bool {
    forall|
        acc: Seq<u64>,
        n: nat,
        lwe: Seq<u64>,
        log_lut_count: usize,
        first: Seq<u64>,
        first_n: nat,
        second: Seq<u64>,
        second_n: nat,
    |
        #[trigger] rotation_gives(blind_rotate, acc, n, lwe, log_lut_count, first, first_n)
            && #[trigger] rotation_gives(
            blind_rotate,
            acc,
            n,
            lwe,
            log_lut_count,
            second,
            second_n,
        ) ==> first == second
}

/// Two runs of the same levels on the same input with deterministic
/// operations go through the same residuals and rotated accumulators.
proof fn lemma_runs_agree<
    K: Fn(&LweCiphertext) -> LweCiphertext,
    R: Fn(&GlweCiphertext, &LweCiphertext, usize) -> GlweCiphertext,
>(
    keyswitch: &K,
    blind_rotate: &R,
    input: Seq<u64>,
    n: nat,
    base_log: nat,
    level: nat,
    padded: bool,
    switched1: Seq<Seq<u64>>,
    rotated1: Seq<Seq<u64>>,
    residuals1: Seq<Seq<u64>>,
    switched2: Seq<Seq<u64>>,
    rotated2: Seq<Seq<u64>>,
    residuals2: Seq<Seq<u64>>,
    steps: nat,
    j: int,
)
    requires
        keyswitch_deterministic(keyswitch),
        rotation_deterministic(blind_rotate),
        residual_run(
            keyswitch,
            blind_rotate,
            input,
            n,
            base_log,
            level,
            padded,
            switched1,
            rotated1,
            residuals1,
            steps,
        ),
        residual_run(
            keyswitch,
            blind_rotate,
            input,
            n,
            base_log,
            level,
            padded,
            switched2,
            rotated2,
            residuals2,
            steps,
        ),
        0 <= j <= steps,
    ensures
        residuals1[j] == residuals2[j],
        j >= 1 ==> rotated1[j - 1] == rotated2[j - 1],
    decreases j,
{
    if j > 0 {
        lemma_runs_agree(
            keyswitch,
            blind_rotate,
            input,
            n,
            base_log,
            level,
            padded,
            switched1,
            rotated1,
            residuals1,
            switched2,
            rotated2,
            residuals2,
            steps,
            j - 1,
        );
        assert(residual_level(
            keyswitch,
            blind_rotate,
            input,
            n,
            base_log,
            level,
            padded,
            switched1,
            rotated1,
            residuals1,
            j - 1,
        ));
        assert(residual_level(
            keyswitch,
            blind_rotate,
            input,
            n,
            base_log,
            level,
            padded,
            switched2,
            rotated2,
            residuals2,
            j - 1,
        ));
        assert(switched1[j - 1] == switched2[j - 1]);
        assert(rotated1[j - 1] == rotated2[j - 1]);
    }
}

/// A decomposition depends on nothing but its arguments.
///
/// With a keyswitch and a blind rotation that each return one result per
/// argument, two decompositions of the same input with the same parameters
/// give the same output, whatever else ran before, between or beside them.
pub proof fn lemma_decomposition_deterministic<
    K: Fn(&LweCiphertext) -> LweCiphertext,
    R: Fn(&GlweCiphertext, &LweCiphertext, usize) -> GlweCiphertext,
>(
    keyswitch: &K,
    blind_rotate: &R,
    input: Seq<u64>,
    n: nat,
    base_log: nat,
    level: nat,
    padded: bool,
    switched1: Seq<Seq<u64>>,
    rotated1: Seq<Seq<u64>>,
    residuals1: Seq<Seq<u64>>,
    output1: Seq<Seq<u64>>,
    switched2: Seq<Seq<u64>>,
    rotated2: Seq<Seq<u64>>,
    residuals2: Seq<Seq<u64>>,
    output2: Seq<Seq<u64>>,
)
    requires
        level >= 1,
        keyswitch_deterministic(keyswitch),
        rotation_deterministic(blind_rotate),
        decomposition(
            keyswitch,
            blind_rotate,
            input,
            n,
            base_log,
            level,
            padded,
            switched1,
            rotated1,
            residuals1,
            output1,
        ),
        decomposition(
            keyswitch,
            blind_rotate,
            input,
            n,
            base_log,
            level,
            padded,
            switched2,
            rotated2,
            residuals2,
            output2,
        ),
    ensures
        output1 == output2,
{
    assert forall|j: int| 0 <= j < level implies output1[j] == output2[j] by {
        lemma_runs_agree(
            keyswitch,
            blind_rotate,
            input,
            n,
            base_log,
            level,
            padded,
            switched1,
            rotated1,
            residuals1,
            switched2,
            rotated2,
            residuals2,
            (level - 1) as nat,
            j,
        );
        if j < level - 1 {
            lemma_runs_agree(
                keyswitch,
                blind_rotate,
                input,
                n,
                base_log,
                level,
                padded,
                switched1,
                rotated1,
                residuals1,
                switched2,
                rotated2,
                residuals2,
                (level - 1) as nat,
                j + 1,
            );
        }
    }
    assert(output1 =~= output2);
}

} // verus!
