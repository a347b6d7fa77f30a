//! The decomposition of noiseless inputs.
//!
//! A noiseless ciphertext has a zero mask, so its body is its plaintext. A
//! level of the decomposition is noiseless when the keyswitch returns a
//! sample with the phase that it was handed, and the blind rotation divides
//! the accumulator by `X^p` exactly, where `p` is the phase of the sample
//! scaled from the torus to `[0, 2N)` and rounded. This module states what
//! the bootstrap and the decomposition return then.

use crate::algorithms::digit_decompose::{
    carried, decomposition, level_weight, lut_count_log, output_digit, payloads, radix_ok,
    recentering_bias, residual_level, residual_run, scaled,
};
use crate::algorithms::pbs_many_lut::{
    bootstrap_accumulator, box_size, boxed_len, half_box_size, lemma_boxes_fit,
    lemma_noiseless_output, lemma_outputs_evaluate_payloads, lemma_turn_in_box,
    noiseless_output, noiseless_rotation, packed_entry, table_ok,
};
use crate::algorithms::tools::LutFn;
use crate::ciphertext::{GlweCiphertext, LweCiphertext};
use crate::polynomial::{glwe_body, glwe_monomial_div};
use crate::torus::{
    lemma_neg_involutive, reduce, torus_add, torus_mul, torus_neg, torus_pow2, torus_sub,
};
use vstd::arithmetic::div_mod::{
    lemma_fundamental_div_mod, lemma_fundamental_div_mod_converse, lemma_mod_breakdown,
    lemma_mod_multiples_basic, lemma_mod_pos_bound, lemma_mod_self_0, lemma_small_mod,
    lemma_truncate_middle,
};
use vstd::arithmetic::power2::{lemma2_to64, lemma2_to64_rest, lemma_pow2_adds, lemma_pow2_pos, pow2};
use vstd::bits::lemma_u64_pow2_no_overflow;
use vstd::prelude::*;

verus! {

/// The constant coefficient of the body polynomial: the plaintext that a
/// noiseless ciphertext holds at degree zero.
pub open spec fn phase(ct: Seq<u64>, n: nat) -> u64 {
    glwe_body(ct, n)[0]
}

/// The rotation that the modulus switch makes of the phase `y` when
/// `2^log_lut_count` tables share the accumulator: `y * 2N / 2^64` rounded
/// to the nearest multiple of `2^log_lut_count`, halves upwards, modulo
/// `2N`.
pub open spec fn switched_phase(y: u64, n: nat, log_lut_count: nat) -> nat {
    let grain = pow2(log_lut_count) as int;
    ((((y * (2 * n) + grain * 0x8000_0000_0000_0000) / (grain * 0x1_0000_0000_0000_0000))
        * grain) % (2 * n as int)) as nat
}

/// Level `j` of a decomposition was noiseless: the keyswitch returned a
/// sample with the phase of the residual, and the blind rotation divided
/// the accumulator by `X^p`, with `p` the switched phase of the recentred
/// sample.
pub open spec fn noiseless_level(
    n: nat,
    base_log: nat,
    padded: bool,
    switched: Seq<Seq<u64>>,
    rotated: Seq<Seq<u64>>,
    residuals: Seq<Seq<u64>>,
    j: int,
) -> bool {
    &&& switched[j].last() == phase(residuals[j], n)
    &&& rotated[j] == noiseless_rotation(
        bootstrap_accumulator(
            residuals[j].len() / n,
            n,
            (base_log - 1) as nat,
            payloads(padded, base_log),
        ),
        n,
        switched_phase(
            torus_add(switched[j].last(), recentering_bias(base_log)),
            n,
            lut_count_log(padded) as nat,
        ),
    )
}

/// Digit `j` of `m` in radix `2^base_log`.
pub open spec fn digit(m: nat, base_log: nat, j: nat) -> nat {
    (m / pow2(j * base_log)) % pow2(base_log)
}

/// The digit in the top `base_log` bits of the torus element `x`, rounded
/// to the nearest digit step.
pub open spec fn decoded_digit(x: u64, base_log: nat) -> nat {
    (torus_add(x, recentering_bias(base_log)) as nat) / pow2((64 - base_log) as nat)
}

/// The lowest `j + 1` digits of `m`, with digit `j` in the top `base_log`
/// bits of the torus.
pub open spec fn top_aligned(m: nat, base_log: nat, j: nat) -> int {
    ((m % pow2((j + 1) * base_log)) * pow2((64 - (j + 1) * base_log) as nat)) as int
}

/// What the digits below digit `j` add to `top_aligned(m, base_log, j)`.
pub open spec fn lower_part(m: nat, base_log: nat, j: nat) -> int {
    ((m % pow2(j * base_log)) * pow2((64 - (j + 1) * base_log) as nat)) as int
}

/// The residual of phase `r` holds digit `j` of `m` within half a digit
/// step: `r` is the top-aligned digits up to `j` minus `carry`, and `carry`
/// differs from the lower part by less than half a digit step.
pub open spec fn holds_digit(r: u64, m: nat, base_log: nat, j: nat, carry: int) -> bool {
    let step = pow2((64 - base_log) as nat) as int;
    &&& r == reduce(top_aligned(m, base_log, j) - carry)
    &&& -(step / 2) <= lower_part(m, base_log, j) - carry < step / 2
}

/// The input holds `m` in the top `base_log * level` bits of its phase, no
/// digit of `m` below the last is `2^base_log - 1`, the radix is at least
/// four, at most `2^61` where two payloads share the table, the digits fit
/// into the torus, and the table holds a whole number of coefficients per
/// digit step, an even one where two payloads share it.
pub open spec fn noiseless_setting(
    input: Seq<u64>,
    n: nat,
    base_log: nat,
    level: nat,
    padded: bool,
    m: nat,
) -> bool {
    &&& 2 <= base_log <= 62
    &&& level >= 1
    &&& base_log * level <= 64
    &&& n >= 1
    &&& n % pow2(base_log) == 0
    &&& padded ==> n % pow2(base_log + 1) == 0 && base_log <= 61
    &&& input.len() >= n
    &&& input.len() % n == 0
    &&& m < pow2(base_log * level)
    &&& phase(input, n) == m * pow2((64 - base_log * level) as nat)
    &&& forall|i: nat| i + 1 < level ==> #[trigger] digit(m, base_log, i) + 1 < pow2(base_log)
}

/// A table for the radix `2^base_log` over `n` coefficients, `n` a multiple
/// of the radix, is covered by `2^(base_log - 1)` boxes of `2 * half_box`
/// coefficients.
proof fn lemma_boxes_of_radix(n: nat, base_log: nat)
    requires
        1 <= base_log <= 62,
        n >= 1,
        n % pow2(base_log) == 0,
    ensures
        half_box_size(n, (base_log - 1) as nat) >= 1,
        n == pow2(base_log) * half_box_size(n, (base_log - 1) as nat),
        n == pow2((base_log - 1) as nat) * box_size(n, (base_log - 1) as nat),
        boxed_len(n, (base_log - 1) as nat) == n,
        pow2(base_log) == 2 * pow2((base_log - 1) as nat),
        radix_ok(n, base_log),
{
    let b = base_log;
    let base = pow2(b) as int;
    let boxes = pow2((b - 1) as nat) as int;
    lemma2_to64();
    lemma_pow2_adds(1, (b - 1) as nat);
    lemma_pow2_pos(b);
    lemma_pow2_pos((b - 1) as nat);
    let m = n as int;
    let half = m / base;
    lemma_fundamental_div_mod(m, base);
    assert(m == base * half);
    assert(half >= 1) by (nonlinear_arith)
        requires
            m == base * half,
            m >= 1,
            base > 0,
    ;
    assert(half_box_size(n, (b - 1) as nat) == half);
    let width = 2 * half;
    assert(m == boxes * width) by (nonlinear_arith)
        requires
            m == base * half,
            base == 2 * boxes,
            width == 2 * half,
    ;
    lemma_fundamental_div_mod_converse(m, width, boxes, 0);
}

/// The carry decision of a noiseless bootstrap has a hard threshold.
///
/// Let the table hold a whole number of coefficients per digit value, let
/// the number of payloads divide the half box, and let the rotation `p` in
/// `[0, 2N)` be a multiple of the number of payloads. Then the constant
/// coefficient of output `i` is the negative magnitude of payload `i`,
/// `-2^(62 - base_log - i)`, for `p` below `N - half_box` and from
/// `2N - half_box` on, and the positive magnitude in between. Both
/// boundaries belong to the interval that they open.
pub proof fn lemma_carry_threshold(
    glwe_size: nat,
    n: nat,
    base_log: nat,
    padded: bool,
    p: nat,
    i: nat,
)
    requires
        glwe_size >= 1,
        1 <= base_log <= 62,
        n >= 1,
        n % pow2(base_log) == 0,
        i < payloads(padded, base_log).len(),
        i == 1 ==> base_log <= 61,
        half_box_size(n, (base_log - 1) as nat) % payloads(padded, base_log).len() == 0,
        p % payloads(padded, base_log).len() == 0,
        p < 2 * n,
    ensures
        noiseless_output(
            glwe_size,
            n,
            (base_log - 1) as nat,
            payloads(padded, base_log),
            p,
            i,
        ) == (if n - half_box_size(n, (base_log - 1) as nat) <= p < 2 * n - half_box_size(
            n,
            (base_log - 1) as nat,
        ) {
            torus_pow2((62 - base_log - i) as nat)
        } else {
            torus_neg(torus_pow2((62 - base_log - i) as nat))
        }),
{
    let log = (base_log - 1) as nat;
    let f = payloads(padded, base_log);
    let k = f.len() as int;
    let half = half_box_size(n, log) as int;
    let width = box_size(n, log) as int;
    let boxes = pow2(log) as int;
    let m = n as int;
    let value = torus_pow2((62 - base_log - i) as nat);
    lemma_boxes_of_radix(n, base_log);
    lemma_boxes_fit(n, log);
    lemma_noiseless_output(glwe_size, n, log, f, p, i);
    lemma_neg_involutive(value);
    // k divides the rotation, the half box and the table
    let pc = p as int / k;
    let hc = half / k;
    let mc = boxes * (2 * hc);
    lemma_fundamental_div_mod(half, k);
    lemma_fundamental_div_mod(p as int, k);
    assert(m == k * mc) by (nonlinear_arith)
        requires
            m == boxes * width,
            width == 2 * half,
            half == k * hc,
            mc == boxes * (2 * hc),
    ;
    assert(width == (2 * hc) * k) by (nonlinear_arith)
        requires
            half == k * hc,
            width == 2 * half,
    ;
    lemma_mod_multiples_basic(2 * hc, k);
    // the coefficient of the accumulator that the rotation alone reads
    let q = if p < m {
        p as int
    } else {
        p - m
    };
    let t = if q + half < m {
        q + half
    } else {
        q + half - m
    };
    let qc = if p < m {
        pc
    } else {
        pc - mc
    };
    let tc = if q + half < m {
        qc + hc
    } else {
        qc + hc - mc
    };
    assert(q == k * qc && t == k * tc) by (nonlinear_arith)
        requires
            p == k * pc,
            half == k * hc,
            m == k * mc,
            q == (if p < m {
                p as int
            } else {
                p - m
            }),
            t == (if q + half < m {
                q + half
            } else {
                q + half - m
            }),
            qc == (if p < m {
                pc
            } else {
                pc - mc
            }),
            tc == (if q + half < m {
                qc + hc
            } else {
                qc + hc - mc
            }),
    ;
    // output i reads i coefficients further, which crosses no multiple of k
    assert(q + half == k * (qc + hc) && 2 * m == k * (2 * mc)) by (nonlinear_arith)
        requires
            q == k * qc,
            half == k * hc,
            m == k * mc,
    ;
    lemma_aligned_below(p as int, pc, m, mc, k, i as int);
    lemma_aligned_below(p as int, pc, 2 * m, 2 * mc, k, i as int);
    lemma_aligned_below(q + half, qc + hc, m, mc, k, i as int);
    lemma_aligned_below(t, tc, half, hc, k, i as int);
    lemma_aligned_below(t, tc, m, mc, k, i as int);
    if p < m {
        lemma_small_mod((p + i) as nat, (2 * n) as nat);
    } else {
        lemma_fundamental_div_mod_converse((p + i) as int, 2 * m, 0, (p + i) as int);
    }
    if q + half < m {
        lemma_small_mod((q + i + half) as nat, n);
    } else {
        lemma_fundamental_div_mod_converse(q + i + half, m, 1, q + i + half - m);
    }
    lemma_mod_multiples_basic(tc, k);
    assert(t % k == 0) by {
        assert(k * tc == tc * k) by (nonlinear_arith);
    }
    lemma_turn_in_box(t, i as int, k, width);
    // the box lies below the midpoint
    let x = t / width;
    lemma_fundamental_div_mod(t, width);
    assert(x < boxes) by (nonlinear_arith)
        requires
            t == width * x + t % width,
            t % width >= 0,
            t < boxes * width,
            width > 0,
    ;
    assert(0 <= x) by (nonlinear_arith)
        requires
            t == width * x + t % width,
            t % width < width,
            t >= 0,
            width > 0,
    ;
    lemma_u64_pow2_no_overflow(base_log);
    assert(f[i as int].b == base_log);
    assert(f[i as int].magnitude_log() == 62 - base_log - i);
    assert(f[i as int].below_midpoint(x as u64));
    assert(packed_entry(n, log, f, t + i) == torus_neg(value));
}

/// A table over `n` coefficients, `n` a multiple of `2^(log + 1)`, is
/// covered by `2^log` boxes.
proof fn lemma_table_of_boxes(n: nat, message_modulus_log: nat)
    requires
        message_modulus_log <= 62,
        n >= 1,
        n % pow2(message_modulus_log + 1) == 0,
    ensures
        half_box_size(n, message_modulus_log) >= 1,
        n == pow2(message_modulus_log) * box_size(n, message_modulus_log),
        boxed_len(n, message_modulus_log) == n,
        pow2((63 - message_modulus_log) as nat) * pow2(message_modulus_log + 1)
            == 0x1_0000_0000_0000_0000,
        pow2(message_modulus_log + 1) == 2 * pow2(message_modulus_log),
{
    let log = message_modulus_log;
    let boxes = pow2(log) as int;
    let m = n as int;
    lemma2_to64();
    lemma2_to64_rest();
    lemma_pow2_adds(1, log);
    lemma_pow2_adds((63 - log) as nat, log + 1);
    lemma_pow2_pos(log);
    assert(pow2(log + 1) == 2 * boxes);
    let half = m / (2 * boxes);
    lemma_fundamental_div_mod(m, 2 * boxes);
    assert(half >= 1) by (nonlinear_arith)
        requires
            m == (2 * boxes) * half,
            m >= 1,
            boxes > 0,
    ;
    let width = 2 * half;
    assert(m == boxes * width) by (nonlinear_arith)
        requires
            m == (2 * boxes) * half,
            width == 2 * half,
    ;
    lemma_fundamental_div_mod_converse(m, width, boxes, 0);
}

/// A phase at the centre of a box is switched to the centre of the box:
/// the phase `index * 2^(63 - log)` goes to the rotation
/// `index * box_size`.
pub proof fn lemma_switched_box_centre(
    n: nat,
    message_modulus_log: nat,
    log_lut_count: nat,
    index: nat,
)
    requires
        message_modulus_log <= 62,
        n >= 1,
        n % pow2(message_modulus_log + 1) == 0,
        box_size(n, message_modulus_log) % pow2(log_lut_count) == 0,
        index < pow2(message_modulus_log),
    ensures
        index * pow2((63 - message_modulus_log) as nat) < 0x1_0000_0000_0000_0000,
        switched_phase(
            (index * pow2((63 - message_modulus_log) as nat)) as u64,
            n,
            log_lut_count,
        ) == index * box_size(n, message_modulus_log),
{
    let log = message_modulus_log;
    let w: int = 0x1_0000_0000_0000_0000;
    let boxes = pow2(log) as int;
    let scale = pow2((63 - log) as nat) as int;
    let width = box_size(n, log) as int;
    let grain = pow2(log_lut_count) as int;
    let m = n as int;
    let x = index as int;
    let y = x * scale;
    lemma_table_of_boxes(n, log);
    lemma_pow2_pos((63 - log) as nat);
    lemma_pow2_pos(log_lut_count);
    assert(scale * (2 * boxes) == w);
    assert(0 <= y < w) by (nonlinear_arith)
        requires
            y == x * scale,
            0 <= x < boxes,
            scale * (2 * boxes) == w,
            scale > 0,
    ;
    let target = x * width;
    let c = width / grain;
    lemma_fundamental_div_mod(width, grain);
    assert(width == grain * c);
    let unit = grain * w;
    let numerator = y * (2 * m) + grain * 0x8000_0000_0000_0000;
    assert(y * (2 * m) == (x * c) * unit) by (nonlinear_arith)
        requires
            y == x * scale,
            m == boxes * width,
            scale * (2 * boxes) == w,
            width == grain * c,
            unit == grain * w,
    ;
    assert(0 <= grain * 0x8000_0000_0000_0000 < unit) by (nonlinear_arith)
        requires
            unit == grain * w,
            w == 0x1_0000_0000_0000_0000,
            grain >= 1,
    ;
    lemma_fundamental_div_mod_converse(numerator, unit, x * c, grain * 0x8000_0000_0000_0000);
    assert((x * c) * grain == target) by (nonlinear_arith)
        requires
            width == grain * c,
            target == x * width,
    ;
    assert(0 <= target < 2 * m) by (nonlinear_arith)
        requires
            target == x * width,
            0 <= x < boxes,
            m == boxes * width,
            width >= 0,
            m >= 1,
    ;
    lemma_small_mod(target as nat, (2 * m) as nat);
}

/// A noiseless bootstrap of the sample at the centre of box `index`
/// returns every payload at `index`.
///
/// Let the table hold a whole number of boxes, let the number of payloads
/// divide the half box, and let the rotations be multiples of
/// `2^log_lut_count`, which divides a box. For the noiseless sample of
/// phase `index * 2^(63 - log)` the constant coefficient of output `j` is
/// `f_j(index)`.
pub proof fn lemma_bootstrap_at_box_index(
    glwe_size: nat,
    n: nat,
    message_modulus_log: nat,
    f: Seq<LutFn>,
    log_lut_count: nat,
    index: nat,
    j: nat,
)
    requires
        glwe_size >= 1,
        table_ok(n, message_modulus_log, f),
        message_modulus_log <= 62,
        n % pow2(message_modulus_log + 1) == 0,
        half_box_size(n, message_modulus_log) % f.len() == 0,
        box_size(n, message_modulus_log) % pow2(log_lut_count) == 0,
        index < pow2(message_modulus_log),
        j < f.len(),
    ensures
        noiseless_output(
            glwe_size,
            n,
            message_modulus_log,
            f,
            switched_phase(
                (index * pow2((63 - message_modulus_log) as nat)) as u64,
                n,
                log_lut_count,
            ),
            j,
        ) == f[j as int].eval(index as u64),
{
    let log = message_modulus_log;
    let half = half_box_size(n, log) as int;
    let width = box_size(n, log) as int;
    let boxes = pow2(log) as int;
    let k = f.len() as int;
    let x = index as int;
    let p = x * width;
    lemma_boxes_fit(n, log);
    lemma_table_of_boxes(n, log);
    lemma_switched_box_centre(n, log, log_lut_count, index);
    // the centre of the box is a multiple of the number of payloads
    lemma_fundamental_div_mod(half, k);
    assert(p == (x * (2 * (half / k))) * k) by (nonlinear_arith)
        requires
            p == x * width,
            width == 2 * half,
            half == k * (half / k),
    ;
    lemma_mod_multiples_basic(x * (2 * (half / k)), k);
    // half a box further it is still in box `index`
    assert(p + half < boxes * width && p >= 0) by (nonlinear_arith)
        requires
            p == x * width,
            0 <= x < boxes,
            width == 2 * half,
            half >= 1,
    ;
    assert(p + half == x * width + half);
    lemma_fundamental_div_mod_converse(p + half, width, x, half);
    lemma_outputs_evaluate_payloads(glwe_size, n, log, f, p as nat, j);
}

/// The box, of the `2^base_log` boxes of a whole turn, into which the
/// rotation `p` falls. The table holds the boxes below the midpoint; the
/// boxes from the midpoint on are its anti-periodic extension.
pub open spec fn turn_box(n: nat, base_log: nat, p: nat) -> nat {
    ((p + half_box_size(n, (base_log - 1) as nat)) / box_size(n, (base_log - 1) as nat)) % pow2(
        base_log,
    )
}

/// A noiseless bootstrap evaluates the payloads of the decomposition over
/// the whole turn.
///
/// Under the conditions of the carry threshold, the constant coefficient
/// of output `i` is payload `i` at the box of the turn into which the
/// rotation falls: negative below the midpoint `2^(base_log - 1)` and
/// positive from the midpoint on, the midpoint itself included.
pub proof fn lemma_payload_over_the_turn(
    glwe_size: nat,
    n: nat,
    base_log: nat,
    padded: bool,
    p: nat,
    i: nat,
)
    requires
        glwe_size >= 1,
        1 <= base_log <= 62,
        n >= 1,
        n % pow2(base_log) == 0,
        i < payloads(padded, base_log).len(),
        i == 1 ==> base_log <= 61,
        half_box_size(n, (base_log - 1) as nat) % payloads(padded, base_log).len() == 0,
        p % payloads(padded, base_log).len() == 0,
        p < 2 * n,
    ensures
        turn_box(n, base_log, p) < pow2(base_log),
        noiseless_output(
            glwe_size,
            n,
            (base_log - 1) as nat,
            payloads(padded, base_log),
            p,
            i,
        ) == payloads(padded, base_log)[i as int].eval(turn_box(n, base_log, p) as u64),
{
    let log = (base_log - 1) as nat;
    let f = payloads(padded, base_log);
    let half = half_box_size(n, log) as int;
    let width = box_size(n, log) as int;
    let boxes = pow2(log) as int;
    let base = pow2(base_log) as int;
    let m = n as int;
    let a = p + half;
    let x = a / width;
    lemma_carry_threshold(glwe_size, n, base_log, padded, p, i);
    lemma_boxes_of_radix(n, base_log);
    lemma_u64_pow2_no_overflow(base_log);
    lemma_fundamental_div_mod(a, width);
    assert(f[i as int].b == base_log);
    assert(f[i as int].magnitude_log() == 62 - base_log - i);
    if p < m - half {
        assert(0 <= x < boxes) by (nonlinear_arith)
            requires
                a == width * x + a % width,
                0 <= a % width < width,
                0 <= a < boxes * width,
                width > 0,
        ;
        lemma_small_mod(x as nat, base as nat);
    } else if p < 2 * m - half {
        assert(boxes <= x < 2 * boxes) by (nonlinear_arith)
            requires
                a == width * x + a % width,
                0 <= a % width < width,
                boxes * width <= a < 2 * (boxes * width),
                width > 0,
        ;
        lemma_small_mod(x as nat, base as nat);
    } else {
        assert(a == (2 * boxes) * width + (a - 2 * m)) by (nonlinear_arith)
            requires
                m == boxes * width,
        ;
        lemma_fundamental_div_mod_converse(a, width, 2 * boxes, a - 2 * m);
        lemma_mod_self_0(base);
    }
}

/// A multiple of `k` below another stays below it when less than `k` is
/// added.
proof fn lemma_aligned_below(a: int, ac: int, bound: int, bc: int, k: int, i: int)
    requires
        k > 0,
        a == k * ac,
        bound == k * bc,
        0 <= i < k,
    ensures
        a < bound <==> a + i < bound,
{
    if a < bound {
        assert(ac < bc) by (nonlinear_arith)
            requires
                k * ac < k * bc,
                k > 0,
        ;
        assert(k * ac + k <= k * bc) by (nonlinear_arith)
            requires
                ac < bc,
                k > 0,
        ;
    }
}

/// Where the modulus switch sends a phase that lies in digit step `d`.
///
/// Let the torus hold `base` digit steps of width `step`, let the table of
/// `n = base * half` coefficients hold half a box per digit step, and let
/// the rotations be multiples of `grain`, which divides a box. A phase `y`
/// in `[d * step, (d + 1) * step)` with `d <= base - 2` is sent to a
/// rotation between `2 * d * half` and `2 * (d + 1) * half`, which lies
/// below `2n - half`. If the rotation reaches `n - half` then
/// `d >= base / 2 - 1`, and if it does not then `d <= base / 2 - 1`.
proof fn lemma_switch_of_digit_step(
    step: int,
    base: int,
    half: int,
    n: int,
    d: int,
    y: int,
    grain: int,
)
    requires
        step * base == 0x1_0000_0000_0000_0000,
        base >= 2,
        base % 2 == 0,
        half >= 1,
        n == base * half,
        0 <= d <= base - 2,
        d * step <= y < (d + 1) * step,
        grain >= 1,
        (2 * half) % grain == 0,
    ensures
        ({
            let p = ((y * (2 * n) + grain * 0x8000_0000_0000_0000) / (grain
                * 0x1_0000_0000_0000_0000)) * grain;
            &&& 2 * d * half <= p <= 2 * (d + 1) * half
            &&& 0 <= p < 2 * n - half
            &&& p % (2 * n) == p
            &&& p % grain == 0
            &&& (p >= n - half ==> 2 * d >= base - 2)
            &&& (p < n - half ==> 2 * d <= base - 2)
        }),
{
    let w: int = 0x1_0000_0000_0000_0000;
    let unit = grain * w;
    let numerator = y * (2 * n) + grain * 0x8000_0000_0000_0000;
    let q = numerator / unit;
    let p = q * grain;
    let t = (2 * half) / grain;
    lemma_fundamental_div_mod(2 * half, grain);
    assert(2 * half == grain * t);
    assert(n >= 2) by (nonlinear_arith)
        requires
            n == base * half,
            base >= 2,
            half >= 1,
    ;
    assert(unit > 0) by (nonlinear_arith)
        requires
            unit == grain * w,
            grain >= 1,
            w > 0,
    ;
    // step * n is half whole turns of the torus
    assert(step * n == half * w) by (nonlinear_arith)
        requires
            step * base == w,
            n == base * half,
    ;
    assert(y * (2 * n) >= (d * t) * unit) by (nonlinear_arith)
        requires
            d * step <= y,
            step * n == half * w,
            2 * half == grain * t,
            unit == grain * w,
            n >= 0,
    ;
    assert(y * (2 * n) < ((d + 1) * t) * unit) by (nonlinear_arith)
        requires
            y < (d + 1) * step,
            step * n == half * w,
            2 * half == grain * t,
            unit == grain * w,
            n > 0,
    ;
    assert(0 <= grain * 0x8000_0000_0000_0000 < unit) by (nonlinear_arith)
        requires
            unit == grain * w,
            w == 0x1_0000_0000_0000_0000,
            grain >= 1,
    ;
    lemma_fundamental_div_mod(numerator, unit);
    assert(q >= d * t) by (nonlinear_arith)
        requires
            numerator == unit * q + numerator % unit,
            numerator % unit < unit,
            numerator >= (d * t) * unit,
            unit > 0,
    ;
    assert(q <= (d + 1) * t) by (nonlinear_arith)
        requires
            numerator == unit * q + numerator % unit,
            numerator % unit >= 0,
            numerator < ((d + 1) * t) * unit + unit,
            unit > 0,
    ;
    assert(p >= 2 * d * half) by (nonlinear_arith)
        requires
            p == q * grain,
            q >= d * t,
            2 * half == grain * t,
            grain >= 1,
    ;
    assert(p <= 2 * (d + 1) * half) by (nonlinear_arith)
        requires
            p == q * grain,
            q <= (d + 1) * t,
            2 * half == grain * t,
            grain >= 1,
    ;
    assert(2 * (d + 1) * half <= 2 * n - 2 * half) by (nonlinear_arith)
        requires
            d <= base - 2,
            n == base * half,
            half >= 1,
    ;
    assert(2 * d * half >= 0) by (nonlinear_arith)
        requires
            d >= 0,
            half >= 1,
    ;
    lemma_small_mod(p as nat, (2 * n) as nat);
    lemma_mod_multiples_basic(q, grain);
    if p >= n - half {
        assert(2 * (d + 1) >= base - 1) by (nonlinear_arith)
            requires
                2 * (d + 1) * half >= base * half - half,
                half >= 1,
        ;
    } else {
        assert(2 * d < base - 1) by (nonlinear_arith)
            requires
                2 * d * half < base * half - half,
                half >= 1,
        ;
    }
}

/// The rotation of a recentred residual.
///
/// Let `r` be `d * step + error` modulo 2^64 with an error of less than half
/// a digit step, and `d <= base - 2`. The modulus switch sends `r` plus half
/// a digit step below `2n - half`, at or above `n - half` only if
/// `d >= base / 2 - 1`, and below `n - half` only if `d <= base / 2 - 1`.
proof fn lemma_recentred_rotation(
    step: int,
    base: int,
    half: int,
    n: int,
    d: int,
    error: int,
    r: u64,
    log_lut_count: nat,
)
    requires
        step * base == 0x1_0000_0000_0000_0000,
        step % 4 == 0,
        base >= 4,
        base % 2 == 0,
        half >= 1,
        n == base * half,
        0 <= d <= base - 2,
        -(step / 2) <= error < step / 2,
        r == reduce(d * step + error),
        (2 * half) % (pow2(log_lut_count) as int) == 0,
    ensures
        ({
            let p = switched_phase(torus_add(r, (step / 2) as u64), n as nat, log_lut_count);
            &&& p < 2 * n - half
            &&& p as int % (pow2(log_lut_count) as int) == 0
            &&& (p >= n - half ==> 2 * d >= base - 2)
            &&& (p < n - half ==> 2 * d <= base - 2)
        }),
{
    assert(0 < step <= 0x4000_0000_0000_0000) by (nonlinear_arith)
        requires
            step * base == 0x1_0000_0000_0000_0000,
            base >= 4,
    ;
    let y = d * step + (error + step / 2);
    assert(0 <= d * step) by (nonlinear_arith)
        requires
            d >= 0,
            step > 0,
    ;
    assert((d + 1) * step == d * step + step) by (nonlinear_arith);
    assert(d * step + step <= base * step) by (nonlinear_arith)
        requires
            d < base,
            step > 0,
    ;
    assert(base * step == step * base) by (nonlinear_arith);
    assert(torus_add(r, (step / 2) as u64) == y);
    assert(n >= 1) by (nonlinear_arith)
        requires
            n == base * half,
            base >= 4,
            half >= 1,
    ;
    lemma_pow2_pos(log_lut_count);
    lemma_switch_of_digit_step(step, base, half, n, d, y, pow2(log_lut_count) as int);
}

/// The lower digits of the next residual.
///
/// The lower part of the next residual is the present residual divided by
/// the radix: `base * next_low == d * step + low`. It is at least a quarter
/// of a digit step where the present digit is at least `base / 2 - 1`, and
/// less than half a digit step where the digit is at most that.
proof fn lemma_error_stays_small(
    step: int,
    base: int,
    d: int,
    low: int,
    next_low: int,
    upper: bool,
)
    requires
        step > 0,
        base >= 4,
        base % 2 == 0,
        0 <= low < step,
        0 <= d < base,
        base * next_low == d * step + low,
        upper ==> 2 * d >= base - 2,
        !upper ==> 2 * d <= base - 2,
    ensures
        0 <= next_low < step,
        upper ==> 4 * next_low >= step,
        !upper ==> 2 * next_low < step,
{
    assert(d * step >= 0) by (nonlinear_arith)
        requires
            d >= 0,
            step > 0,
    ;
    assert(next_low >= 0) by (nonlinear_arith)
        requires
            base * next_low == d * step + low,
            d * step + low >= 0,
            base > 0,
    ;
    assert(next_low < step) by (nonlinear_arith)
        requires
            base * next_low == d * step + low,
            low < step,
            d < base,
            base > 0,
            step > 0,
    ;
    if upper {
        assert(4 * next_low >= step) by (nonlinear_arith)
            requires
                base * next_low == d * step + low,
                low >= 0,
                2 * d >= base - 2,
                base >= 4,
                step > 0,
        ;
    } else {
        assert(2 * next_low < step) by (nonlinear_arith)
            requires
                base * next_low == d * step + low,
                low < step,
                2 * d <= base - 2,
                base >= 4,
                step > 0,
        ;
    }
}

/// The next digit once a carry extractor has answered.
///
/// The present residual holds digit `d` with the lower part `low`; the
/// extractor returned its magnitude, at most a quarter of a digit step,
/// positive where the digit is in the upper half and negative where it is
/// in the lower half. The carry that is subtracted from the next
/// top-aligned digits is that value plus half a digit step, and it differs
/// from the next lower part by less than half a digit step.
proof fn lemma_next_residual(
    step: int,
    base: int,
    d: int,
    low: int,
    next_low: int,
    next_aligned: int,
    magnitude: int,
    value: u64,
    upper: bool,
) -> (next_carry: int)
    requires
        step * base == 0x1_0000_0000_0000_0000,
        step % 2 == 0,
        base >= 4,
        base % 2 == 0,
        0 <= low < step,
        0 <= d < base,
        base * next_low == d * step + low,
        upper ==> 2 * d >= base - 2,
        !upper ==> 2 * d <= base - 2,
        0 <= next_aligned < 0x1_0000_0000_0000_0000,
        0 < magnitude,
        4 * magnitude <= step,
        value == (if upper {
            magnitude as u64
        } else {
            torus_neg(magnitude as u64)
        }),
    ensures
        torus_sub(next_aligned as u64, torus_add(value, (step / 2) as u64)) == reduce(
            next_aligned - next_carry,
        ),
        -(step / 2) <= next_low - next_carry < step / 2,
{
    assert(0 < step <= 0x4000_0000_0000_0000) by (nonlinear_arith)
        requires
            step * base == 0x1_0000_0000_0000_0000,
            base >= 4,
    ;
    lemma_error_stays_small(step, base, d, low, next_low, upper);
    if upper {
        step / 2 + magnitude
    } else {
        step / 2 - magnitude
    }
}

/// The shape of the top-aligned digits: digit `j` times the digit step plus
/// the lower part, which is less than a digit step.
proof fn lemma_top_aligned(m: nat, base_log: nat, j: nat)
    requires
        base_log >= 1,
        (j + 1) * base_log <= 64,
    ensures
        top_aligned(m, base_log, j) == digit(m, base_log, j) * pow2((64 - base_log) as nat)
            + lower_part(m, base_log, j),
        0 <= lower_part(m, base_log, j) < pow2((64 - base_log) as nat),
        0 <= digit(m, base_log, j) < pow2(base_log),
        0 <= top_aligned(m, base_log, j) < 0x1_0000_0000_0000_0000,
        j == 0 ==> lower_part(m, base_log, j) == 0,
{
    let b = base_log;
    let below = pow2(j * b) as int;
    let base = pow2(b) as int;
    let shift = pow2((64 - (j + 1) * b) as nat) as int;
    let step = pow2((64 - b) as nat) as int;
    lemma_pow2_pos(j * b);
    lemma_pow2_pos(b);
    lemma_pow2_pos((64 - (j + 1) * b) as nat);
    assert((j + 1) * b == j * b + b) by (nonlinear_arith);
    assert(j * b >= 0) by (nonlinear_arith)
        requires
            j >= 0,
            b >= 0,
    ;
    lemma_pow2_adds(j * b, b);
    lemma_pow2_adds(j * b, (64 - (j + 1) * b) as nat);
    assert(j * b + (64 - (j + 1) * b) as nat == (64 - b) as nat);
    assert(below * shift == step);
    lemma_pow2_adds((j + 1) * b, (64 - (j + 1) * b) as nat);
    lemma2_to64_rest();
    assert((below * base) * shift == 0x1_0000_0000_0000_0000);
    lemma_mod_breakdown(m as int, below, base);
    let d = digit(m, b, j) as int;
    let rest = m as int % below;
    assert(m as int % (below * base) == below * d + rest);
    assert((below * d + rest) * shift == d * (below * shift) + rest * shift) by (nonlinear_arith);
    lemma_mod_pos_bound(m as int, below);
    lemma_mod_pos_bound(m as int / below, base);
    assert(rest * shift < below * shift) by (nonlinear_arith)
        requires
            rest < below,
            shift > 0,
    ;
    assert(rest * shift >= 0) by (nonlinear_arith)
        requires
            rest >= 0,
            shift > 0,
    ;
    lemma_mod_pos_bound(m as int, below * base);
    assert((m as int % (below * base)) * shift < (below * base) * shift) by (nonlinear_arith)
        requires
            m as int % (below * base) < below * base,
            shift > 0,
    ;
    assert((m as int % (below * base)) * shift >= 0) by (nonlinear_arith)
        requires
            m as int % (below * base) >= 0,
            shift > 0,
    ;
    if j == 0 {
        assert(j * b == 0) by (nonlinear_arith)
            requires
                j == 0,
        ;
        lemma2_to64();
        assert(below == 1);
    }
}

/// The top-aligned digits up to digit `j` are the radix times the lower
/// part of digit `j + 1`.
proof fn lemma_lower_part_of_next(m: nat, base_log: nat, j: nat)
    requires
        base_log >= 1,
        (j + 2) * base_log <= 64,
    ensures
        pow2(base_log) * lower_part(m, base_log, j + 1) == top_aligned(m, base_log, j),
{
    let b = base_log;
    let next = j + 1;
    assert((next + 1) * b == next * b + b) by (nonlinear_arith);
    assert((j + 2) * b == next * b + b) by (nonlinear_arith)
        requires
            next == j + 1,
    ;
    assert(next * b >= 0) by (nonlinear_arith)
        requires
            next >= 0,
            b >= 0,
    ;
    let small = (64 - (next + 1) * b) as nat;
    let large = (64 - next * b) as nat;
    lemma_pow2_adds(b, small);
    assert(b + small == large);
    let low: nat = m % pow2(next * b);
    let shift: nat = pow2(small);
    let base: nat = pow2(b);
    assert(base * shift == pow2(large));
    assert(lower_part(m, b, next) == (low * shift) as int);
    assert(top_aligned(m, b, j) == (low * pow2(large)) as int);
    assert(base * (low * shift) == low * (base * shift)) by (nonlinear_arith);
}

/// Scaling the encoded input by the weight of digit `j` aligns the lowest
/// `j + 1` digits with the top of the torus.
proof fn lemma_scaled_phase(m: nat, base_log: nat, level: nat, j: nat)
    requires
        base_log >= 1,
        j < level,
        base_log * level <= 64,
        m < pow2(base_log * level),
    ensures
        m * pow2((64 - base_log * level) as nat) < 0x1_0000_0000_0000_0000,
        torus_mul(
            (m * pow2((64 - base_log * level) as nat)) as u64,
            level_weight(base_log, level, j),
        ) == top_aligned(m, base_log, j),
{
    let b = base_log;
    let w: int = 0x1_0000_0000_0000_0000;
    let total = b * level;
    let encoding = pow2((64 - total) as nat) as int;
    let exponent = ((level - 1 - j) * b) as nat;
    let weight = pow2(exponent) as int;
    let shift = pow2((64 - (j + 1) * b) as nat) as int;
    let digits = pow2((j + 1) * b) as int;
    assert((level - 1 - j) * b >= 0) by (nonlinear_arith)
        requires
            level - 1 - j >= 0,
            b >= 0,
    ;
    assert((level - 1 - j) * b == b * level - (j + 1) * b) by (nonlinear_arith);
    assert((j + 1) * b >= b) by (nonlinear_arith)
        requires
            j >= 0,
            b >= 0,
    ;
    assert(exponent < 64);
    lemma2_to64_rest();
    lemma_pow2_pos((64 - total) as nat);
    lemma_pow2_pos(exponent);
    lemma_pow2_pos((j + 1) * b);
    lemma_pow2_pos((64 - (j + 1) * b) as nat);
    lemma_pow2_adds((64 - total) as nat, total);
    lemma_pow2_adds((64 - total) as nat, exponent);
    lemma_pow2_adds((j + 1) * b, (64 - (j + 1) * b) as nat);
    assert((64 - total) as nat + exponent == (64 - (j + 1) * b) as nat);
    assert(encoding * weight == shift);
    assert(m * encoding < pow2(total) * encoding) by (nonlinear_arith)
        requires
            m < pow2(total),
            encoding > 0,
    ;
    lemma_u64_pow2_no_overflow(exponent);
    assert(level_weight(b, level, j) == weight);
    assert((m * encoding) * weight == shift * m) by (nonlinear_arith)
        requires
            encoding * weight == shift,
    ;
    lemma_truncate_middle(m as int, shift, digits);
    assert(shift * digits == w) by (nonlinear_arith)
        requires
            digits * shift == w,
    ;
    assert(shift * (m as int % digits) == (m as int % digits) * shift) by (nonlinear_arith);
    lemma_top_aligned(m, b, j);
}

/// The digit steps of the torus and the half boxes of the table.
proof fn lemma_steps_and_boxes(n: nat, base_log: nat)
    requires
        2 <= base_log <= 62,
        n >= 1,
        n % pow2(base_log) == 0,
    ensures
        pow2((64 - base_log) as nat) * pow2(base_log) == 0x1_0000_0000_0000_0000,
        pow2(base_log) >= 4,
        pow2(base_log) % 2 == 0,
        pow2((64 - base_log) as nat) % 4 == 0,
        pow2((64 - base_log) as nat) / 2 == recentering_bias(base_log),
        pow2((64 - base_log) as nat) / 4 == torus_pow2((62 - base_log) as nat),
        pow2((64 - base_log) as nat) < 0x1_0000_0000_0000_0000,
        half_box_size(n, (base_log - 1) as nat) >= 1,
        n == pow2(base_log) * half_box_size(n, (base_log - 1) as nat),
        boxed_len(n, (base_log - 1) as nat) == n,
        radix_ok(n, base_log),
{
    let b = base_log;
    let base = pow2(b) as int;
    let step = pow2((64 - b) as nat) as int;
    lemma2_to64();
    lemma2_to64_rest();
    lemma_pow2_adds((64 - b) as nat, b);
    lemma_pow2_adds(2, (b - 2) as nat);
    lemma_pow2_adds(1, (b - 1) as nat);
    lemma_pow2_adds(2, (62 - b) as nat);
    lemma_pow2_adds(1, (63 - b) as nat);
    lemma_pow2_pos(b);
    lemma_pow2_pos((b - 2) as nat);
    lemma_pow2_pos((62 - b) as nat);
    lemma_pow2_pos((63 - b) as nat);
    lemma_pow2_pos((64 - b) as nat);
    assert(base == 4 * pow2((b - 2) as nat));
    assert(base == 2 * pow2((b - 1) as nat));
    assert(step == 4 * pow2((62 - b) as nat));
    assert(step == 2 * pow2((63 - b) as nat));
    lemma_u64_pow2_no_overflow((62 - b) as nat);
    lemma_u64_pow2_no_overflow((63 - b) as nat);
    lemma_u64_pow2_no_overflow((64 - b) as nat);
    // the half box
    let m = n as int;
    let half = m / base;
    lemma_fundamental_div_mod(m, base);
    assert(m == base * half);
    assert(half >= 1) by (nonlinear_arith)
        requires
            m == base * half,
            m >= 1,
            base > 0,
    ;
    assert(half_box_size(n, (b - 1) as nat) == half);
    let width = 2 * half;
    assert(m == (base / 2) * width) by (nonlinear_arith)
        requires
            m == base * half,
            base == 2 * (base / 2),
            width == 2 * half,
    ;
    lemma_fundamental_div_mod_converse(m, width, base / 2, 0);
}

/// A table with a whole number of coefficients per half digit step has an
/// even half box.
proof fn lemma_even_half_box(n: nat, base_log: nat)
    requires
        1 <= base_log,
        n % pow2(base_log + 1) == 0,
    ensures
        half_box_size(n, (base_log - 1) as nat) % 2 == 0,
{
    let base = pow2(base_log) as int;
    let m = n as int;
    lemma_pow2_adds(1, (base_log - 1) as nat);
    lemma_pow2_adds(1, base_log);
    lemma2_to64();
    lemma_pow2_pos(base_log);
    assert(pow2(base_log + 1) == 2 * base);
    lemma_fundamental_div_mod(m, 2 * base);
    let q = m / (2 * base);
    assert(m == base * (2 * q)) by (nonlinear_arith)
        requires
            m == (2 * base) * q,
    ;
    lemma_fundamental_div_mod_converse(m, base, 2 * q, 0);
    assert(half_box_size(n, (base_log - 1) as nat) == 2 * q);
}

/// Rounding the phase of a residual that holds a digit gives the digit.
proof fn lemma_decoded(r: u64, m: nat, base_log: nat, j: nat, carry: int)
    requires
        2 <= base_log <= 62,
        (j + 1) * base_log <= 64,
        holds_digit(r, m, base_log, j, carry),
    ensures
        decoded_digit(r, base_log) == digit(m, base_log, j),
{
    let step = pow2((64 - base_log) as nat) as int;
    let base = pow2(base_log) as int;
    let d = digit(m, base_log, j) as int;
    let low = lower_part(m, base_log, j);
    lemma_top_aligned(m, base_log, j);
    lemma_pow2_pos(base_log);
    lemma_mod_self_0(pow2(base_log) as int);
    lemma_steps_and_boxes(pow2(base_log), base_log);
    let rounded = d * step + (low - carry + step / 2);
    assert(0 <= d * step) by (nonlinear_arith)
        requires
            d >= 0,
            step > 0,
    ;
    assert(d * step + step <= base * step) by (nonlinear_arith)
        requires
            d < base,
            step > 0,
    ;
    assert(base * step == step * base) by (nonlinear_arith);
    assert(0 <= rounded < 0x1_0000_0000_0000_0000);
    assert(torus_add(r, recentering_bias(base_log)) == rounded);
    lemma_fundamental_div_mod_converse(rounded, step, d, low - carry + step / 2);
}

/// Where the recentred phase of a residual that holds its digit is sent.
///
/// The rotation is a multiple of the number of payloads below
/// `2n - half_box`. It reaches `n - half_box` only if the digit is at least
/// `2^(base_log - 1) - 1`, and stays below only if the digit is at most
/// that.
proof fn lemma_rotation_of_residual(
    n: nat,
    base_log: nat,
    padded: bool,
    m: nat,
    j: nat,
    r: u64,
    carry: int,
)
    requires
        2 <= base_log <= 62,
        n >= 1,
        n % pow2(base_log) == 0,
        padded ==> n % pow2(base_log + 1) == 0,
        (j + 1) * base_log <= 64,
        digit(m, base_log, j) + 1 < pow2(base_log),
        holds_digit(r, m, base_log, j, carry),
    ensures
        ({
            let p = switched_phase(
                torus_add(r, recentering_bias(base_log)),
                n,
                lut_count_log(padded) as nat,
            );
            let half = half_box_size(n, (base_log - 1) as nat);
            &&& p < 2 * n - half
            &&& p % payloads(padded, base_log).len() == 0
            &&& half % payloads(padded, base_log).len() == 0
            &&& (p >= n - half ==> 2 * digit(m, base_log, j) >= pow2(base_log) - 2)
            &&& (p < n - half ==> 2 * digit(m, base_log, j) <= pow2(base_log) - 2)
        }),
{
    let b = base_log;
    let step = pow2((64 - b) as nat) as int;
    let base = pow2(b) as int;
    let half = half_box_size(n, (b - 1) as nat) as int;
    let d = digit(m, b, j) as int;
    let error = lower_part(m, b, j) - carry;
    let log = lut_count_log(padded) as nat;
    lemma_steps_and_boxes(n, b);
    lemma_top_aligned(m, b, j);
    lemma2_to64();
    assert(pow2(log) == payloads(padded, b).len());
    if padded {
        lemma_even_half_box(n, b);
    }
    assert(r == reduce(d * step + error));
    lemma_recentred_rotation(step, base, half, n as int, d, error, r, log);
}

/// One level on a noiseless residual.
///
/// Let the residual of phase `r` hold digit `j` of `m`, and let that digit
/// not be the largest. Output `which` of the bootstrap, read at the
/// rotation that the modulus switch makes of the recentred phase, gives a
/// carry of half a digit step less or more the magnitude of its payload,
/// and the next top-aligned digits minus that carry hold digit `j + 1`.
proof fn lemma_noiseless_step(
    glwe_size: nat,
    n: nat,
    base_log: nat,
    padded: bool,
    m: nat,
    j: nat,
    r: u64,
    carry: int,
    which: nat,
) -> (next_carry: int)
    requires
        glwe_size >= 1,
        2 <= base_log <= 62,
        n >= 1,
        n % pow2(base_log) == 0,
        padded ==> n % pow2(base_log + 1) == 0 && base_log <= 61,
        which < payloads(padded, base_log).len(),
        (j + 2) * base_log <= 64,
        digit(m, base_log, j) + 1 < pow2(base_log),
        holds_digit(r, m, base_log, j, carry),
    ensures
        holds_digit(
            torus_sub(
                top_aligned(m, base_log, j + 1) as u64,
                torus_add(
                    noiseless_output(
                        glwe_size,
                        n,
                        (base_log - 1) as nat,
                        payloads(padded, base_log),
                        switched_phase(
                            torus_add(r, recentering_bias(base_log)),
                            n,
                            lut_count_log(padded) as nat,
                        ),
                        which,
                    ),
                    recentering_bias(base_log),
                ),
            ),
            m,
            base_log,
            j + 1,
            next_carry,
        ),
{
    let b = base_log;
    let step = pow2((64 - b) as nat) as int;
    let base = pow2(b) as int;
    let half = half_box_size(n, (b - 1) as nat) as int;
    let d = digit(m, b, j) as int;
    let low = lower_part(m, b, j);
    let next_low = lower_part(m, b, j + 1);
    let next_aligned = top_aligned(m, b, j + 1);
    let p = switched_phase(torus_add(r, recentering_bias(b)), n, lut_count_log(padded) as nat);
    let value = noiseless_output(glwe_size, n, (b - 1) as nat, payloads(padded, b), p, which);
    let magnitude = pow2((62 - b - which) as nat) as int;
    let upper = p >= n - half;
    assert((j + 1) * b <= (j + 2) * b) by (nonlinear_arith)
        requires
            b >= 0,
    ;
    assert((j + 1 + 1) * b == (j + 2) * b) by (nonlinear_arith);
    lemma_steps_and_boxes(n, b);
    lemma_rotation_of_residual(n, b, padded, m, j, r, carry);
    lemma_carry_threshold(glwe_size, n, b, padded, p, which);
    lemma_pow2_pos((62 - b - which) as nat);
    lemma_u64_pow2_no_overflow((62 - b - which) as nat);
    let quarter = pow2((62 - b) as nat) as int;
    lemma_u64_pow2_no_overflow((62 - b) as nat);
    assert(step == 4 * quarter);
    if which == 1 {
        lemma_pow2_adds(1, (61 - b) as nat);
        lemma2_to64();
        assert(1 + (61 - b) as nat == (62 - b) as nat);
        assert(quarter == 2 * magnitude);
    } else {
        assert(magnitude == quarter);
    }
    assert(4 * magnitude <= step);
    assert(value == (if upper {
        magnitude as u64
    } else {
        torus_neg(magnitude as u64)
    }));
    lemma_top_aligned(m, b, j);
    lemma_top_aligned(m, b, j + 1);
    lemma_lower_part_of_next(m, b, j);
    lemma_next_residual(step, base, d, low, next_low, next_aligned, magnitude, value, upper)
}

/// The phase of a residual made from a first output.
proof fn lemma_phase_of_carried(
    input: Seq<u64>,
    n: nat,
    base_log: nat,
    level: nat,
    j: nat,
    first_output: Seq<u64>,
)
    requires
        n >= 1,
        input.len() >= n,
        first_output.len() == input.len(),
    ensures
        carried(input, n, base_log, level, j, first_output).len() == input.len(),
        phase(carried(input, n, base_log, level, j, first_output), n) == torus_sub(
            torus_mul(phase(input, n), level_weight(base_log, level, j)),
            torus_add(phase(first_output, n), recentering_bias(base_log)),
        ),
        phase(scaled(input, base_log, level, j), n) == torus_mul(
            phase(input, n),
            level_weight(base_log, level, j),
        ),
        scaled(input, base_log, level, j).len() == input.len(),
{
}

/// The phase of what a noiseless level leaves of the next digit: the input
/// scaled for digit `i + 1` minus the biased output `which` of the
/// bootstrap of residual `i`.
proof fn lemma_phase_after_level<
    K: Fn(&LweCiphertext) -> LweCiphertext,
    R: Fn(&GlweCiphertext, &LweCiphertext, usize) -> GlweCiphertext,
>(
    keyswitch: &K,
    blind_rotate: &R,
    input: Seq<u64>,
    n: nat,
    base_log: nat,
    level: nat,
    padded: bool,
    switched: Seq<Seq<u64>>,
    rotated: Seq<Seq<u64>>,
    residuals: Seq<Seq<u64>>,
    i: nat,
    which: nat,
)
    requires
        n >= 1,
        input.len() >= n,
        residuals[i as int].len() == input.len(),
        which < payloads(padded, base_log).len(),
        residual_level(
            keyswitch,
            blind_rotate,
            input,
            n,
            base_log,
            level,
            padded,
            switched,
            rotated,
            residuals,
            i as int,
        ),
        noiseless_level(n, base_log, padded, switched, rotated, residuals, i as int),
    ensures
        residuals[i as int + 1].len() == input.len(),
        residuals[i as int + 1] == carried(
            input,
            n,
            base_log,
            level,
            i + 1,
            glwe_monomial_div(rotated[i as int], n, 0),
        ),
        phase(
            carried(
                input,
                n,
                base_log,
                level,
                i + 1,
                glwe_monomial_div(rotated[i as int], n, which),
            ),
            n,
        ) == torus_sub(
            torus_mul(phase(input, n), level_weight(base_log, level, i + 1)),
            torus_add(
                noiseless_output(
                    input.len() / n,
                    n,
                    (base_log - 1) as nat,
                    payloads(padded, base_log),
                    switched_phase(
                        torus_add(phase(residuals[i as int], n), recentering_bias(base_log)),
                        n,
                        lut_count_log(padded) as nat,
                    ),
                    which,
                ),
                recentering_bias(base_log),
            ),
        ),
{
    lemma_phase_of_carried(
        input,
        n,
        base_log,
        level,
        i + 1,
        glwe_monomial_div(rotated[i as int], n, 0),
    );
    lemma_phase_of_carried(
        input,
        n,
        base_log,
        level,
        i + 1,
        glwe_monomial_div(rotated[i as int], n, which),
    );
}

/// The first residual holds the first digit: it is the input scaled for
/// that digit, and nothing lies below it.
proof fn lemma_first_residual(
    input: Seq<u64>,
    n: nat,
    base_log: nat,
    level: nat,
    padded: bool,
    m: nat,
)
    requires
        noiseless_setting(input, n, base_log, level, padded, m),
    ensures
        holds_digit(phase(scaled(input, base_log, level, 0), n), m, base_log, 0, 0),
        scaled(input, base_log, level, 0).len() == input.len(),
{
    lemma_scaled_phase(m, base_log, level, 0);
    assert((0 + 1) * base_log <= base_log * level) by (nonlinear_arith)
        requires
            1 <= level,
            base_log >= 0,
    ;
    lemma_top_aligned(m, base_log, 0);
    lemma_steps_and_boxes(n, base_log);
    lemma_phase_of_carried(input, n, base_log, level, 0, input);
}

/// What a noiseless level on a residual that holds its digit leaves of the
/// next digit holds that digit, whichever output the carry is taken from.
proof fn lemma_next_residual_holds_digit(
    input: Seq<u64>,
    n: nat,
    base_log: nat,
    level: nat,
    padded: bool,
    m: nat,
    i: nat,
    r: u64,
    carry: int,
    which: nat,
) -> (next_carry: int)
    requires
        noiseless_setting(input, n, base_log, level, padded, m),
        i + 1 < level,
        which < payloads(padded, base_log).len(),
        holds_digit(r, m, base_log, i, carry),
    ensures
        holds_digit(
            torus_sub(
                torus_mul(phase(input, n), level_weight(base_log, level, i + 1)),
                torus_add(
                    noiseless_output(
                        input.len() / n,
                        n,
                        (base_log - 1) as nat,
                        payloads(padded, base_log),
                        switched_phase(
                            torus_add(r, recentering_bias(base_log)),
                            n,
                            lut_count_log(padded) as nat,
                        ),
                        which,
                    ),
                    recentering_bias(base_log),
                ),
            ),
            m,
            base_log,
            i + 1,
            next_carry,
        ),
{
    let b = base_log;
    lemma_scaled_phase(m, b, level, i + 1);
    assert((i + 2) * b <= 64) by (nonlinear_arith)
        requires
            i + 2 <= level,
            b * level <= 64,
            b >= 0,
    ;
    assert((i + 1 + 1) * b == (i + 2) * b) by (nonlinear_arith);
    lemma_top_aligned(m, b, i + 1);
    let glwe_size = input.len() / n;
    assert(glwe_size >= 1) by {
        lemma_fundamental_div_mod(input.len() as int, n as int);
        assert(input.len() as int / (n as int) >= 1) by (nonlinear_arith)
            requires
                input.len() == n * (input.len() as int / (n as int)),
                input.len() >= n,
                n >= 1,
        ;
    }
    lemma_noiseless_step(glwe_size, n, b, padded, m, i, r, carry, which)
}

/// Every residual of a noiseless decomposition holds its digit.
pub proof fn lemma_residual_holds_digit<
    K: Fn(&LweCiphertext) -> LweCiphertext,
    R: Fn(&GlweCiphertext, &LweCiphertext, usize) -> GlweCiphertext,
>(
    keyswitch: &K,
    blind_rotate: &R,
    input: Seq<u64>,
    n: nat,
    base_log: nat,
    level: nat,
    padded: bool,
    switched: Seq<Seq<u64>>,
    rotated: Seq<Seq<u64>>,
    residuals: Seq<Seq<u64>>,
    m: nat,
    j: nat,
) -> (carry: int)
    requires
        noiseless_setting(input, n, base_log, level, padded, m),
        residual_run(
            keyswitch,
            blind_rotate,
            input,
            n,
            base_log,
            level,
            padded,
            switched,
            rotated,
            residuals,
            (level - 1) as nat,
        ),
        forall|i: int|
            0 <= i < level - 1 ==> #[trigger] noiseless_level(
                n,
                base_log,
                padded,
                switched,
                rotated,
                residuals,
                i,
            ),
        j < level,
    ensures
        holds_digit(phase(residuals[j as int], n), m, base_log, j, carry),
        residuals[j as int].len() == input.len(),
    decreases j,
{
    if j == 0 {
        lemma_first_residual(input, n, base_log, level, padded, m);
        0
    } else {
        let i = (j - 1) as nat;
        let carry = lemma_residual_holds_digit(
            keyswitch,
            blind_rotate,
            input,
            n,
            base_log,
            level,
            padded,
            switched,
            rotated,
            residuals,
            m,
            i,
        );
        assert(residual_level(
            keyswitch,
            blind_rotate,
            input,
            n,
            base_log,
            level,
            padded,
            switched,
            rotated,
            residuals,
            i as int,
        ));
        assert(noiseless_level(n, base_log, padded, switched, rotated, residuals, i as int));
        lemma_phase_after_level(
            keyswitch,
            blind_rotate,
            input,
            n,
            base_log,
            level,
            padded,
            switched,
            rotated,
            residuals,
            i,
            0,
        );
        assert(i + 1 == j);
        lemma_next_residual_holds_digit(
            input,
            n,
            base_log,
            level,
            padded,
            m,
            i,
            phase(residuals[i as int], n),
            carry,
            0,
        )
    }
}

/// A noiseless decomposition returns the digits, with or without padding.
///
/// Let the phase of the input hold `m` in its top `base_log * level` bits,
/// let no digit of `m` below the last be `2^base_log - 1`, and let every
/// level be noiseless. Then the ciphertext in slot `j` of the output holds
/// digit `j` of `m` in the top `base_log` bits of its phase, within half a
/// digit step: rounding the phases and weighting digit `j` with
/// `2^(j * base_log)` gives `m` back.
pub proof fn lemma_noiseless_round_trip<
    K: Fn(&LweCiphertext) -> LweCiphertext,
    R: Fn(&GlweCiphertext, &LweCiphertext, usize) -> GlweCiphertext,
>(
    keyswitch: &K,
    blind_rotate: &R,
    input: Seq<u64>,
    n: nat,
    base_log: nat,
    level: nat,
    padded: bool,
    switched: Seq<Seq<u64>>,
    rotated: Seq<Seq<u64>>,
    residuals: Seq<Seq<u64>>,
    output: Seq<Seq<u64>>,
    m: nat,
    j: nat,
)
    requires
        noiseless_setting(input, n, base_log, level, padded, m),
        decomposition(
            keyswitch,
            blind_rotate,
            input,
            n,
            base_log,
            level,
            padded,
            switched,
            rotated,
            residuals,
            output,
        ),
        forall|i: int|
            0 <= i < level - 1 ==> #[trigger] noiseless_level(
                n,
                base_log,
                padded,
                switched,
                rotated,
                residuals,
                i,
            ),
        j < level,
    ensures
        decoded_digit(phase(output[j as int], n), base_log) == digit(m, base_log, j),
{
    assert((j + 1) * base_log <= 64) by (nonlinear_arith)
        requires
            j + 1 <= level,
            base_log * level <= 64,
            base_log >= 0,
    ;
    assert(output[j as int] == output_digit(
        input,
        n,
        base_log,
        level,
        padded,
        rotated,
        residuals,
        j as int,
    ));
    if padded && j >= 1 {
        let i = (j - 1) as nat;
        let carry = lemma_residual_holds_digit(
            keyswitch,
            blind_rotate,
            input,
            n,
            base_log,
            level,
            padded,
            switched,
            rotated,
            residuals,
            m,
            i,
        );
        assert(residual_level(
            keyswitch,
            blind_rotate,
            input,
            n,
            base_log,
            level,
            padded,
            switched,
            rotated,
            residuals,
            i as int,
        ));
        assert(noiseless_level(n, base_log, padded, switched, rotated, residuals, i as int));
        lemma_phase_after_level(
            keyswitch,
            blind_rotate,
            input,
            n,
            base_log,
            level,
            padded,
            switched,
            rotated,
            residuals,
            i,
            1,
        );
        let slot_carry = lemma_next_residual_holds_digit(
            input,
            n,
            base_log,
            level,
            padded,
            m,
            i,
            phase(residuals[i as int], n),
            carry,
            1,
        );
        assert(i + 1 == j);
        lemma_decoded(phase(output[j as int], n), m, base_log, j, slot_carry);
    } else {
        let carry = lemma_residual_holds_digit(
            keyswitch,
            blind_rotate,
            input,
            n,
            base_log,
            level,
            padded,
            switched,
            rotated,
            residuals,
            m,
            j,
        );
        lemma_decoded(phase(residuals[j as int], n), m, base_log, j, carry);
    }
}

/// The two modes return the same digits on noiseless runs.
///
/// Let one input be decomposed once without and once with padding, every
/// level of both runs being noiseless. Then slot `j` decodes to the same
/// digit in both outputs, digit `j` of the value that the input holds.
pub proof fn lemma_modes_agree<
    K: Fn(&LweCiphertext) -> LweCiphertext,
    R: Fn(&GlweCiphertext, &LweCiphertext, usize) -> GlweCiphertext,
>(
    keyswitch: &K,
    blind_rotate: &R,
    input: Seq<u64>,
    n: nat,
    base_log: nat,
    level: nat,
    plain_switched: Seq<Seq<u64>>,
    plain_rotated: Seq<Seq<u64>>,
    plain_residuals: Seq<Seq<u64>>,
    plain_output: Seq<Seq<u64>>,
    padded_switched: Seq<Seq<u64>>,
    padded_rotated: Seq<Seq<u64>>,
    padded_residuals: Seq<Seq<u64>>,
    padded_output: Seq<Seq<u64>>,
    m: nat,
    j: nat,
)
    requires
        noiseless_setting(input, n, base_log, level, true, m),
        decomposition(
            keyswitch,
            blind_rotate,
            input,
            n,
            base_log,
            level,
            false,
            plain_switched,
            plain_rotated,
            plain_residuals,
            plain_output,
        ),
        decomposition(
            keyswitch,
            blind_rotate,
            input,
            n,
            base_log,
            level,
            true,
            padded_switched,
            padded_rotated,
            padded_residuals,
            padded_output,
        ),
        forall|i: int|
            0 <= i < level - 1 ==> #[trigger] noiseless_level(
                n,
                base_log,
                false,
                plain_switched,
                plain_rotated,
                plain_residuals,
                i,
            ),
        forall|i: int|
            0 <= i < level - 1 ==> #[trigger] noiseless_level(
                n,
                base_log,
                true,
                padded_switched,
                padded_rotated,
                padded_residuals,
                i,
            ),
        j < level,
    ensures
        decoded_digit(phase(padded_output[j as int], n), base_log) == decoded_digit(
            phase(plain_output[j as int], n),
            base_log,
        ),
        decoded_digit(phase(padded_output[j as int], n), base_log) == digit(m, base_log, j),
{
    lemma_noiseless_round_trip(
        keyswitch,
        blind_rotate,
        input,
        n,
        base_log,
        level,
        false,
        plain_switched,
        plain_rotated,
        plain_residuals,
        plain_output,
        m,
        j,
    );
    lemma_noiseless_round_trip(
        keyswitch,
        blind_rotate,
        input,
        n,
        base_log,
        level,
        true,
        padded_switched,
        padded_rotated,
        padded_residuals,
        padded_output,
        m,
        j,
    );
}

} // verus!
