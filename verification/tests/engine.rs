use digit_decompose::algorithms::digit_decompose::{
    carried_digit, digit_decompose, digit_decompose_no_padding, digit_decompose_with_padding,
    payloads_of_mode, recentered_sample, scaled_input, weight_of_level,
};
use digit_decompose::algorithms::pbs_many_lut::BootstrapKeyShape;
use digit_decompose::algorithms::tools::LutKind;
use digit_decompose::ciphertext::{GlweCiphertext, GlweCiphertextList, LweCiphertext};
use digit_decompose::error::DecompositionError;
use digit_decompose::polynomial::glwe_ciphertext_monic_monomial_div;
use std::cell::RefCell;

const N: usize = 2048;

/// A noiseless encryption of `value` in every coefficient of the body.
fn trivial_glwe(value: u64, n: usize) -> GlweCiphertext {
    let mut data = vec![0u64; n];
    data.extend(vec![value; n]);
    GlweCiphertext::from_container(data, n)
}

/// The dimensions of a bootstrap key for the ciphertexts of the dimensions
/// of `input` and samples of `lwe_size` coefficients.
fn key_for(input: &GlweCiphertext, lwe_size: usize) -> BootstrapKeyShape {
    BootstrapKeyShape {
        lwe_size,
        glwe_size: input.data.len() / input.polynomial_size,
        polynomial_size: input.polynomial_size,
    }
}

/// The key of a bootstrap that takes the extracted samples as they are.
fn same_key(input: &GlweCiphertext) -> BootstrapKeyShape {
    key_for(input, input.data.len() - input.polynomial_size + 1)
}

fn same_key_keyswitch(sample: &LweCiphertext) -> LweCiphertext {
    LweCiphertext::from_container(sample.data.clone())
}

fn switched_phase(body: u64, polynomial_size: usize, log_lut_count: usize) -> usize {
    let log_2n = (2 * polynomial_size).trailing_zeros() as usize;
    let mut switched = body >> (64 - log_2n - 1 + log_lut_count);
    switched += switched & 1;
    switched >>= 1;
    switched <<= log_lut_count;
    switched as usize
}

fn noiseless_rotation(
    accumulator: &GlweCiphertext,
    sample: &LweCiphertext,
    log_lut_count: usize,
) -> GlweCiphertext {
    let body = *sample.data.last().unwrap();
    let degree = switched_phase(body, accumulator.polynomial_size, log_lut_count);
    glwe_ciphertext_monic_monomial_div(accumulator, degree)
}

fn never_switch(_sample: &LweCiphertext) -> LweCiphertext {
    panic!("no keyswitch is due")
}

fn never_rotate(_acc: &GlweCiphertext, _lwe: &LweCiphertext, _log: usize) -> GlweCiphertext {
    panic!("no blind rotation is due")
}

/// The digit in the top `base_log` bits of the constant coefficient of the
/// body, rounded to the nearest.
fn decode(ct: &GlweCiphertext, base_log: usize) -> u64 {
    let body = ct.data[ct.data.len() - ct.polynomial_size];
    (body.wrapping_add(1u64 << (63 - base_log)) >> (64 - base_log)) & ((1u64 << base_log) - 1)
}

fn decompose_noiseless(value: u64, base_log: usize, level: usize, padded: bool) -> Vec<u64> {
    decompose_noiseless_over(N, value, base_log, level, padded)
}

fn decompose_noiseless_over(
    n: usize,
    value: u64,
    base_log: usize,
    level: usize,
    padded: bool,
) -> Vec<u64> {
    let input = trivial_glwe(value << (64 - base_log * level), n);
    let mut output = GlweCiphertextList::new(0, 2, n, level);
    let res = digit_decompose(
        &input,
        &mut output,
        base_log,
        level,
        padded,
        same_key(&input),
        &same_key_keyswitch,
        &noiseless_rotation,
    );
    assert_eq!(res, Ok(()));
    (0..level).map(|j| decode(output.get(j), base_log)).collect()
}

fn digits_of(value: u64, base_log: usize, level: usize) -> Vec<u64> {
    (0..level)
        .map(|j| (value >> (base_log * j)) & ((1u64 << base_log) - 1))
        .collect()
}

#[test]
fn seven_in_the_top_sixteen_bits_has_digits_seven_zero_zero_zero() {
    // least significant digit first: read from the last slot down it is 0, 0, 0, 7
    assert_eq!(decompose_noiseless(0b0111, 4, 4, false), vec![7, 0, 0, 0]);
    assert_eq!(decompose_noiseless(0b0111, 4, 4, true), vec![7, 0, 0, 0]);
}

#[test]
fn the_last_slot_is_filled_in_both_modes() {
    assert_eq!(decompose_noiseless(0x7007, 4, 4, false), vec![7, 0, 0, 7]);
    assert_eq!(decompose_noiseless(0x7007, 4, 4, true), vec![7, 0, 0, 7]);
}

#[test]
fn noiseless_round_trip_over_twelve_bits() {
    for padded in [false, true] {
        let mut recovered = 0;
        for value in 0u64..4096 {
            let digits = digits_of(value, 4, 3);
            // an all-ones digit below the top sits on the upper boundary of the table
            if digits[0] == 15 || digits[1] == 15 {
                continue;
            }
            let decomposed = decompose_noiseless(value, 4, 3, padded);
            assert_eq!(decomposed, digits, "value {}", value);
            let recombined: u64 = decomposed
                .iter()
                .enumerate()
                .map(|(j, d)| d << (4 * j))
                .sum();
            assert_eq!(recombined, value);
            recovered += 1;
        }
        assert_eq!(recovered, 15 * 15 * 16);
    }
}

#[test]
fn noiseless_round_trip_needs_no_more_than_one_coefficient_per_digit_value() {
    // the table of 16 coefficients has half boxes of one coefficient; two
    // payloads need two
    for (n, padded) in [(16usize, false), (64, false), (32, true), (128, true)] {
        for value in 0u64..4096 {
            let digits = digits_of(value, 4, 3);
            if digits[0] == 15 || digits[1] == 15 {
                continue;
            }
            assert_eq!(
                decompose_noiseless_over(n, value, 4, 3, padded),
                digits,
                "value {}",
                value
            );
        }
    }
}

#[test]
fn noiseless_round_trip_in_other_radices() {
    for padded in [false, true] {
        for (base_log, level) in [(2usize, 5usize), (3, 4), (5, 2), (8, 8), (16, 4), (32, 2)] {
            let n = 1usize << (base_log + 1).min(18);
            if n < (1usize << (base_log + 1)) {
                continue;
            }
            let bits = base_log * level;
            for seed in 0u64..50 {
                let mut value = seed.wrapping_mul(0x9E37_79B9_7F4A_7C15) >> (64 - bits);
                // clear a bit of every digit below the last so that none is all ones
                for j in 0..level - 1 {
                    value &= !(1u64 << (j * base_log));
                }
                assert_eq!(
                    decompose_noiseless_over(n, value, base_log, level, padded),
                    digits_of(value, base_log, level),
                    "radix 2^{} value {:#x}",
                    base_log,
                    value
                );
            }
        }
    }
}

#[test]
fn both_modes_return_the_same_digits() {
    for value in (0u64..4096).step_by(7) {
        let digits = digits_of(value, 4, 3);
        if digits[0] == 15 || digits[1] == 15 {
            continue;
        }
        assert_eq!(
            decompose_noiseless(value, 4, 3, true),
            decompose_noiseless(value, 4, 3, false),
            "value {}",
            value
        );
    }
}

#[test]
fn with_padding_the_slots_above_the_first_carry_a_finer_carry() {
    // 0x123: digit 0 is 3, in the lower half. Slot 1 holds digit 1 plus 3
    // sixteenths of a digit step, minus a quarter without padding and minus
    // three eighths with padding
    let input = trivial_glwe(0x123u64 << 52, N);
    let mut plain = GlweCiphertextList::new(0, 2, N, 3);
    let mut padded = GlweCiphertextList::new(0, 2, N, 3);
    let key = same_key(&input);
    assert_eq!(
        digit_decompose_no_padding(
            &input,
            &mut plain,
            4,
            3,
            key,
            &same_key_keyswitch,
            &noiseless_rotation
        ),
        Ok(())
    );
    assert_eq!(
        digit_decompose_with_padding(
            &input,
            &mut padded,
            4,
            3,
            key,
            &same_key_keyswitch,
            &noiseless_rotation
        ),
        Ok(())
    );
    assert_eq!(plain.get(0).data[N], 3u64 << 60);
    assert_eq!(padded.get(0).data[N], 3u64 << 60);
    assert_eq!(plain.get(1).data[N], (32u64 + 3 - 4) << 56);
    assert_eq!(padded.get(1).data[N], (32u64 + 3 - 6) << 56);
    // digit 1 is 2, in the lower half again
    assert_eq!(plain.get(2).data[N], (256u64 + 0x23 - 64) << 52);
    assert_eq!(padded.get(2).data[N], (256u64 + 0x23 - 96) << 52);
    // the masks stay zero
    for j in 0..3 {
        assert!(plain.get(j).data[..N].iter().all(|&a| a == 0));
        assert!(padded.get(j).data[..N].iter().all(|&a| a == 0));
    }
}

#[test]
fn an_all_ones_low_digit_on_the_boundary_carries_into_the_next_digit() {
    // 15 + 1/2 digit steps is the upper boundary of the table: the sign
    // extractor answers for the lower half and the next digit is one too high
    assert_eq!(decompose_noiseless(15, 4, 3, false), vec![15, 1, 0]);
}

#[test]
fn a_digit_on_the_middle_boundary_is_decoded_either_way() {
    // 7 + 1/2 digit steps is the middle boundary: the carry is 12 sixteenths
    // and the other digits are still recovered
    assert_eq!(decompose_noiseless(7, 4, 3, false), vec![7, 0, 0]);
    assert_eq!(decompose_noiseless(0x877, 4, 3, false), vec![7, 7, 8]);
}

#[test]
fn repeated_runs_on_one_input_give_one_output() {
    let input = trivial_glwe(0x7A5u64 << 52, N);
    let mut results = Vec::new();
    for _ in 0..3 {
        let mut output = GlweCiphertextList::new(0, 2, N, 3);
        let res = digit_decompose_no_padding(
            &input,
            &mut output,
            4,
            3,
            same_key(&input),
            &same_key_keyswitch,
            &noiseless_rotation,
        );
        assert_eq!(res, Ok(()));
        results.push(
            (0..3)
                .map(|j| output.get(j).data.clone())
                .collect::<Vec<_>>(),
        );
    }
    assert_eq!(results[0], results[1]);
    assert_eq!(results[1], results[2]);
}

#[test]
fn interleaved_decompositions_do_not_disturb_each_other() {
    let first = trivial_glwe(0x123u64 << 52, N);
    let second = trivial_glwe(0xE4Du64 << 52, N);
    let alone = |input: &GlweCiphertext, padded: bool| {
        let mut output = GlweCiphertextList::new(0, 2, N, 3);
        let res = digit_decompose(
            input,
            &mut output,
            4,
            3,
            padded,
            same_key(input),
            &same_key_keyswitch,
            &noiseless_rotation,
        );
        assert_eq!(res, Ok(()));
        (0..3)
            .map(|j| output.get(j).data.clone())
            .collect::<Vec<_>>()
    };
    let first_alone = alone(&first, false);
    let second_alone = alone(&second, true);
    // the second decomposition runs inside the keyswitch of the first
    let nested: RefCell<Vec<Vec<Vec<u64>>>> = RefCell::new(Vec::new());
    let keyswitch = |sample: &LweCiphertext| {
        nested.borrow_mut().push(alone(&second, true));
        same_key_keyswitch(sample)
    };
    let mut output = GlweCiphertextList::new(0, 2, N, 3);
    let res = digit_decompose_no_padding(
        &first,
        &mut output,
        4,
        3,
        same_key(&first),
        &keyswitch,
        &noiseless_rotation,
    );
    assert_eq!(res, Ok(()));
    let first_interleaved: Vec<Vec<u64>> = (0..3).map(|j| output.get(j).data.clone()).collect();
    assert_eq!(first_interleaved, first_alone);
    let nested = nested.into_inner();
    assert_eq!(nested.len(), 2);
    assert_eq!(nested[0], second_alone);
    assert_eq!(nested[1], second_alone);
}

#[test]
fn one_level_copies_the_input_and_calls_nothing() {
    let input = GlweCiphertext::from_container(vec![1, 2, 3, 4, 5, 6, 7, 8], 4);
    for padded in [false, true] {
        let mut output = GlweCiphertextList::new(0, 2, 4, 1);
        // a radix that no bootstrap could use is accepted: none is made
        let res = digit_decompose(
            &input,
            &mut output,
            200,
            1,
            padded,
            same_key(&input),
            &never_switch,
            &never_rotate,
        );
        assert_eq!(res, Ok(()));
        assert_eq!(output.get(0).data, vec![1, 2, 3, 4, 5, 6, 7, 8]);
    }
}

#[test]
fn weights_are_powers_of_the_radix_modulo_the_torus() {
    assert_eq!(weight_of_level(4, 4, 0), 1u64 << 12);
    assert_eq!(weight_of_level(4, 4, 1), 1u64 << 8);
    assert_eq!(weight_of_level(4, 4, 3), 1);
    assert_eq!(weight_of_level(21, 4, 0), 1u64 << 63);
    assert_eq!(weight_of_level(16, 5, 0), 0);
    assert_eq!(weight_of_level(usize::MAX, 3, 0), 0);
    assert_eq!(weight_of_level(usize::MAX, 3, 2), 1);
}

#[test]
fn scaled_input_multiplies_every_coefficient() {
    let input = GlweCiphertext::from_container(vec![1, 3, u64::MAX, 1u64 << 62], 2);
    let out = scaled_input(&input, 4, 3, 1);
    assert_eq!(out.data, vec![16, 48, 0u64.wrapping_sub(16), 0]);
    assert_eq!(out.polynomial_size, 2);
    assert_eq!(scaled_input(&input, 4, 3, 2).data, input.data);
}

#[test]
fn recentring_adds_half_a_digit_step_to_the_body_only() {
    let sample = LweCiphertext::from_container(vec![1, 2, u64::MAX]);
    let out = recentered_sample(sample, 4, 3).unwrap();
    assert_eq!(out.data, vec![1, 2, (1u64 << 59) - 1]);
    let out = recentered_sample(LweCiphertext::from_container(vec![5]), 63, 1).unwrap();
    assert_eq!(out.data, vec![6]);
}

#[test]
fn recentring_refuses_a_sample_of_another_size_than_the_key_expects() {
    let res = recentered_sample(LweCiphertext { data: vec![] }, 4, 1);
    assert_eq!(res.err(), Some(DecompositionError::SwitchedSizeMismatch));
    let res = recentered_sample(LweCiphertext::from_container(vec![1, 2, 3]), 4, 2);
    assert_eq!(res.err(), Some(DecompositionError::SwitchedSizeMismatch));
    let res = recentered_sample(LweCiphertext::from_container(vec![1, 2, 3]), 4, 4);
    assert_eq!(res.err(), Some(DecompositionError::SwitchedSizeMismatch));
}

#[test]
fn carried_digit_subtracts_the_biased_output_from_the_scaled_input() {
    let input = GlweCiphertext::from_container(vec![1, 2, 3, 4], 2);
    let mut pbs_result = GlweCiphertextList::new(0, 2, 2, 2);
    pbs_result.set(0, GlweCiphertext::from_container(vec![10, 20, 30, 40], 2));
    pbs_result.set(1, GlweCiphertext::from_container(vec![9, 8, 7, u64::MAX], 2));
    let bias = 1u64 << 59;
    let out = carried_digit(&input, 4, 3, 1, &pbs_result, 0);
    assert_eq!(
        out.data,
        vec![
            16u64.wrapping_sub(10),
            32u64.wrapping_sub(20),
            48u64.wrapping_sub(30 + bias),
            64u64.wrapping_sub(40 + bias)
        ]
    );
    let out = carried_digit(&input, 4, 3, 1, &pbs_result, 1);
    assert_eq!(
        out.data,
        vec![
            16u64.wrapping_sub(9),
            32u64.wrapping_sub(8),
            48u64.wrapping_sub(7 + bias),
            64u64.wrapping_sub(bias - 1)
        ]
    );
}

#[test]
fn payloads_follow_the_mode() {
    let plain = payloads_of_mode(false, 4);
    assert_eq!(plain.len(), 1);
    assert_eq!((plain[0].kind, plain[0].b), (LutKind::F1, 4));
    let padded = payloads_of_mode(true, 5);
    assert_eq!(padded.len(), 2);
    assert_eq!((padded[0].kind, padded[0].b), (LutKind::F1, 5));
    assert_eq!((padded[1].kind, padded[1].b), (LutKind::F3, 5));
}

/// A keyswitch and a rotation without meaning but with a result that depends
/// on every coefficient that they are handed.
fn mixing_keyswitch(sample: &LweCiphertext) -> LweCiphertext {
    let mut data: Vec<u64> = sample.data.iter().step_by(3).cloned().collect();
    let sum = sample.data.iter().fold(0u64, |a, &b| a.wrapping_mul(31).wrapping_add(b));
    data.push(sum);
    LweCiphertext::from_container(data)
}

fn mixing_rotation(acc: &GlweCiphertext, lwe: &LweCiphertext, log_lut_count: usize) -> GlweCiphertext {
    let key = lwe.data.iter().fold(log_lut_count as u64, |a, &b| a.wrapping_mul(17).wrapping_add(b));
    let data = acc
        .data
        .iter()
        .enumerate()
        .map(|(i, &a)| a.wrapping_add(key.wrapping_mul(i as u64 + 1)))
        .collect();
    GlweCiphertext::from_container(data, acc.polynomial_size)
}

fn reference_sample(ct: &[u64], n: usize) -> Vec<u64> {
    let mask_len = ct.len() - n;
    let mut sample = Vec::new();
    for poly in ct[..mask_len].chunks(n) {
        sample.push(poly[0]);
        for t in 1..n {
            sample.push(poly[n - t].wrapping_neg());
        }
    }
    sample.push(ct[mask_len]);
    sample
}

fn reference_table(n: usize, base_log: usize, padded: bool) -> Vec<u64> {
    let f = payloads_of_mode(padded, base_log);
    let half_box = n / (1usize << base_log);
    let box_size = 2 * half_box;
    let mut table = vec![0u64; n];
    for (i, one_box) in table.chunks_exact_mut(box_size).enumerate() {
        for (p, a) in one_box.iter_mut().enumerate() {
            *a = f[p % f.len()].call(i as u64);
        }
    }
    for a in table[0..half_box].iter_mut() {
        *a = a.wrapping_neg();
    }
    table.rotate_left(half_box);
    table
}

fn reference_division(ct: &[u64], n: usize, degree: usize) -> Vec<u64> {
    let mut out = Vec::new();
    for poly in ct.chunks(n) {
        for t in 0..n {
            let q = (t + degree) % (2 * n);
            out.push(if q < n { poly[q] } else { poly[q - n].wrapping_neg() });
        }
    }
    out
}

fn mixed_size(sample_size: usize) -> usize {
    (sample_size + 2) / 3 + 1
}

/// The decomposition written out on plain vectors.
fn reference_decomposition(
    input: &GlweCiphertext,
    base_log: usize,
    level: usize,
    padded: bool,
) -> Vec<Vec<u64>> {
    let n = input.polynomial_size;
    let glwe_size = input.data.len() / n;
    let scale = |j: usize| -> Vec<u64> {
        let shift = (level - 1 - j) * base_log;
        let weight = if shift >= 64 { 0 } else { 1u64 << shift };
        input.data.iter().map(|a| a.wrapping_mul(weight)).collect()
    };
    let carried = |j: usize, rotated: &[u64], degree: usize| -> Vec<u64> {
        let bias = 1u64 << (63 - base_log);
        let mut carry = reference_division(rotated, n, degree);
        for a in carry[(glwe_size - 1) * n..].iter_mut() {
            *a = a.wrapping_add(bias);
        }
        scale(j)
            .iter()
            .zip(carry.iter())
            .map(|(a, b)| a.wrapping_sub(*b))
            .collect()
    };
    let bias = 1u64 << (63 - base_log);
    let mut accumulator = vec![0u64; (glwe_size - 1) * n];
    accumulator.extend(reference_table(n, base_log, padded));
    let accumulator = GlweCiphertext::from_container(accumulator, n);
    let mut residual = scale(0);
    let mut output = vec![residual.clone()];
    for j in 0..level - 1 {
        let sample = LweCiphertext::from_container(reference_sample(&residual, n));
        let mut switched = mixing_keyswitch(&sample);
        let last = switched.data.len() - 1;
        switched.data[last] = switched.data[last].wrapping_add(bias);
        let rotated = mixing_rotation(&accumulator, &switched, if padded { 1 } else { 0 });
        residual = carried(j + 1, &rotated.data, 0);
        if padded {
            output.push(carried(j + 1, &rotated.data, 1));
        } else {
            output.push(residual.clone());
        }
    }
    output
}

fn arbitrary_glwe(glwe_size: usize, n: usize, seed: u64) -> GlweCiphertext {
    let data = (0..(glwe_size * n) as u64)
        .map(|i| (i + seed).wrapping_mul(0x9E37_79B9_7F4A_7C15) ^ (i << 17))
        .collect();
    GlweCiphertext::from_container(data, n)
}

#[test]
fn decomposition_without_padding_follows_the_data_flow_coefficient_by_coefficient() {
    for (glwe_size, n, base_log, level) in [(2usize, 16usize, 3usize, 4usize), (3, 32, 4, 3), (1, 8, 2, 5)] {
        let input = arbitrary_glwe(glwe_size, n, 11);
        let mut output = GlweCiphertextList::new(0, glwe_size, n, level);
        let res = digit_decompose_no_padding(
            &input,
            &mut output,
            base_log,
            level,
            key_for(&input, mixed_size((glwe_size - 1) * n + 1)),
            &mixing_keyswitch,
            &mixing_rotation,
        );
        assert_eq!(res, Ok(()));
        let expected = reference_decomposition(&input, base_log, level, false);
        for j in 0..level {
            assert_eq!(output.get(j).data, expected[j], "slot {}", j);
        }
    }
}

#[test]
fn decomposition_with_padding_follows_the_data_flow_coefficient_by_coefficient() {
    for (glwe_size, n, base_log, level) in [(2usize, 16usize, 3usize, 4usize), (3, 32, 4, 3), (1, 8, 2, 5)] {
        let input = arbitrary_glwe(glwe_size, n, 23);
        let mut output = GlweCiphertextList::new(0, glwe_size, n, level);
        let res = digit_decompose_with_padding(
            &input,
            &mut output,
            base_log,
            level,
            key_for(&input, mixed_size((glwe_size - 1) * n + 1)),
            &mixing_keyswitch,
            &mixing_rotation,
        );
        assert_eq!(res, Ok(()));
        let expected = reference_decomposition(&input, base_log, level, true);
        for j in 0..level {
            assert_eq!(output.get(j).data, expected[j], "slot {}", j);
        }
    }
}

#[test]
fn keyswitch_and_rotation_are_each_called_once_per_level_above_the_first() {
    for padded in [false, true] {
        let switches = RefCell::new(0usize);
        let rotations: RefCell<Vec<usize>> = RefCell::new(Vec::new());
        let keyswitch = |sample: &LweCiphertext| {
            *switches.borrow_mut() += 1;
            same_key_keyswitch(sample)
        };
        let rotation = |acc: &GlweCiphertext, lwe: &LweCiphertext, log_lut_count: usize| {
            rotations.borrow_mut().push(log_lut_count);
            noiseless_rotation(acc, lwe, log_lut_count)
        };
        let input = trivial_glwe(0x1234u64 << 48, 64);
        let mut output = GlweCiphertextList::new(0, 2, 64, 4);
        let res = digit_decompose(
            &input,
            &mut output,
            4,
            4,
            padded,
            same_key(&input),
            &keyswitch,
            &rotation,
        );
        assert_eq!(res, Ok(()));
        assert_eq!(*switches.borrow(), 3);
        let expected_log = if padded { 1 } else { 0 };
        assert_eq!(*rotations.borrow(), vec![expected_log; 3]);
    }
}

#[test]
fn the_keyswitch_is_handed_the_sample_of_the_constant_coefficient() {
    let seen: RefCell<Vec<Vec<u64>>> = RefCell::new(Vec::new());
    let keyswitch = |sample: &LweCiphertext| {
        seen.borrow_mut().push(sample.data.clone());
        same_key_keyswitch(sample)
    };
    let input = GlweCiphertext::from_container(vec![1, 2, 3, 4, 5, 6, 7, 8, 100, 200, 300, 400], 4);
    let mut output = GlweCiphertextList::new(0, 3, 4, 2);
    let res = digit_decompose_no_padding(
        &input,
        &mut output,
        1,
        2,
        same_key(&input),
        &keyswitch,
        &noiseless_rotation,
    );
    assert_eq!(res, Ok(()));
    let n = |x: u64| (2 * x).wrapping_neg();
    assert_eq!(
        seen.into_inner(),
        vec![vec![2, n(4), n(3), n(2), 10, n(8), n(7), n(6), 200]]
    );
}

#[test]
fn a_keyswitched_sample_of_another_size_stops_the_decomposition_and_keeps_the_output() {
    let empty = |_sample: &LweCiphertext| LweCiphertext { data: vec![] };
    let longer = |sample: &LweCiphertext| {
        let mut data = sample.data.clone();
        data.push(0);
        LweCiphertext::from_container(data)
    };
    let input = trivial_glwe(0x123u64 << 52, 64);
    for padded in [false, true] {
        let mut output = GlweCiphertextList::new(5, 2, 64, 3);
        let res = digit_decompose(
            &input,
            &mut output,
            4,
            3,
            padded,
            same_key(&input),
            &empty,
            &noiseless_rotation,
        );
        assert_eq!(res, Err(DecompositionError::SwitchedSizeMismatch));
        let res = digit_decompose(
            &input,
            &mut output,
            4,
            3,
            padded,
            same_key(&input),
            &longer,
            &noiseless_rotation,
        );
        assert_eq!(res, Err(DecompositionError::SwitchedSizeMismatch));
        for j in 0..3 {
            assert_eq!(output.get(j).data, vec![5u64; 128]);
        }
    }
}

#[test]
fn a_rotation_that_changes_dimensions_stops_the_decomposition_and_keeps_the_output() {
    // the second rotation returns an accumulator of half the polynomial size
    let calls = RefCell::new(0usize);
    let rotation = |acc: &GlweCiphertext, lwe: &LweCiphertext, log_lut_count: usize| {
        *calls.borrow_mut() += 1;
        if *calls.borrow() == 2 {
            GlweCiphertext::from_container(acc.data.clone(), acc.polynomial_size / 2)
        } else {
            noiseless_rotation(acc, lwe, log_lut_count)
        }
    };
    let input = trivial_glwe(0x123u64 << 52, 64);
    let mut output = GlweCiphertextList::new(5, 2, 64, 3);
    let res = digit_decompose_with_padding(
        &input,
        &mut output,
        4,
        3,
        same_key(&input),
        &same_key_keyswitch,
        &rotation,
    );
    assert_eq!(res, Err(DecompositionError::RotatedShapeMismatch));
    assert_eq!(*calls.borrow(), 2);
    for j in 0..3 {
        assert_eq!(output.get(j).data, vec![5u64; 128]);
    }
}
