use digit_decompose::algorithms::pbs_many_lut::{
    extract_many_lut_outputs, many_lut_accumulator, programmable_bootstrap_lwe_ciphertext_many_lut,
    BootstrapKeyShape,
};
use digit_decompose::algorithms::tools::{make_f1_with_b, make_f3_with_b, LutFn};
use digit_decompose::ciphertext::{GlweCiphertext, GlweCiphertextList, LweCiphertext};
use digit_decompose::error::DecompositionError;
use digit_decompose::polynomial::glwe_ciphertext_monic_monomial_div;
use std::cell::RefCell;

fn opposite(x: u64) -> u64 {
    x.wrapping_neg()
}

/// The table as three passes over a buffer: fill the boxes, negate the first
/// half box, rotate to the left by half a box.
fn three_pass_table(n: usize, message_modulus_log: usize, f: &[LutFn]) -> Vec<u64> {
    let half_box = n / (2usize << message_modulus_log);
    let box_size = 2 * half_box;
    let mut table = vec![0u64; n];
    for (i, one_box) in table.chunks_exact_mut(box_size).enumerate() {
        for (p, a) in one_box.iter_mut().enumerate() {
            *a = f[p % f.len()].call(i as u64);
        }
    }
    for a in table[0..half_box].iter_mut() {
        *a = a.wrapping_neg();
    }
    table.rotate_left(half_box);
    table
}

/// The rotation that a switch of the phase to `[0, 2N)` in steps of
/// `2^log_lut_count` gives, rounding to the nearest step.
fn rounded_phase(body: u64, polynomial_size: usize, log_lut_count: usize) -> usize {
    let log_2n = (2 * polynomial_size).trailing_zeros() as usize;
    let mut switched = body >> (64 - log_2n - 1 + log_lut_count);
    switched += switched & 1;
    switched >>= 1;
    switched <<= log_lut_count;
    switched as usize
}

fn exact_rotation(
    accumulator: &GlweCiphertext,
    sample: &LweCiphertext,
    log_lut_count: usize,
) -> GlweCiphertext {
    let body = *sample.data.last().unwrap();
    let degree = rounded_phase(body, accumulator.polynomial_size, log_lut_count);
    glwe_ciphertext_monic_monomial_div(accumulator, degree)
}

fn shape(lwe_size: usize, glwe_size: usize, polynomial_size: usize) -> BootstrapKeyShape {
    BootstrapKeyShape {
        lwe_size,
        glwe_size,
        polynomial_size,
    }
}

#[test]
fn accumulator_of_one_payload_over_two_boxes() {
    // n = 8, two boxes of four coefficients, half box of two; the midpoint
    // of radix 2 lies between the boxes
    let c = 1u64 << 60;
    let table = many_lut_accumulator(8, 1, &vec![make_f3_with_b(1)]);
    // before centring: [-c, -c, -c, -c, c, c, c, c]
    assert_eq!(table, vec![opposite(c), opposite(c), c, c, c, c, c, c]);
}

#[test]
fn accumulator_interleaves_the_payloads_inside_each_box() {
    let f = vec![make_f1_with_b(1), make_f3_with_b(1)];
    let table = many_lut_accumulator(16, 1, &f);
    let a = 1u64 << 61;
    let c = 1u64 << 60;
    assert_eq!(
        table,
        vec![
            opposite(a),
            opposite(c),
            opposite(a),
            opposite(c),
            a,
            c,
            a,
            c,
            a,
            c,
            a,
            c,
            a,
            c,
            a,
            c
        ]
    );
}

#[test]
fn accumulator_agrees_with_the_three_pass_construction() {
    for n in [8usize, 16, 24, 64, 100, 256] {
        for message_modulus_log in 0..3usize {
            if n / (2usize << message_modulus_log) == 0 {
                continue;
            }
            for f in [
                vec![make_f1_with_b(4)],
                vec![make_f3_with_b(4)],
                vec![make_f1_with_b(3), make_f3_with_b(3)],
                vec![make_f3_with_b(2), make_f1_with_b(2), make_f3_with_b(7)],
            ] {
                assert_eq!(
                    many_lut_accumulator(n, message_modulus_log, &f),
                    three_pass_table(n, message_modulus_log, &f)
                );
            }
        }
    }
}

#[test]
fn accumulator_leaves_zero_what_no_whole_box_covers() {
    // n = 10, half box 2, box 4: two boxes cover 8 coefficients
    let c = 1u64 << 60;
    let table = many_lut_accumulator(10, 1, &vec![make_f3_with_b(1)]);
    assert_eq!(
        table,
        vec![opposite(c), opposite(c), c, c, c, c, 0, 0, c, c]
    );
}

#[test]
fn bootstrap_hands_the_noiseless_encryption_of_the_table_to_the_rotation() {
    let f = vec![make_f1_with_b(4), make_f3_with_b(4)];
    let seen: RefCell<Vec<(Vec<u64>, usize, Vec<u64>, usize)>> = RefCell::new(Vec::new());
    let rotation = |acc: &GlweCiphertext, lwe: &LweCiphertext, log_lut_count: usize| {
        seen.borrow_mut().push((
            acc.data.clone(),
            acc.polynomial_size,
            lwe.data.clone(),
            log_lut_count,
        ));
        acc.duplicate()
    };
    let sample = LweCiphertext::from_container(vec![5, 6, 7]);
    let mut out = GlweCiphertextList::new(0, 3, 16, 2);
    let res = programmable_bootstrap_lwe_ciphertext_many_lut(
        &sample,
        &mut out,
        shape(3, 3, 16),
        &rotation,
        1,
        1,
        &f,
    );
    assert_eq!(res, Ok(()));
    let seen = seen.into_inner();
    assert_eq!(seen.len(), 1);
    let mut expected = vec![0u64; 32];
    expected.extend(three_pass_table(16, 1, &f));
    assert_eq!(seen[0].0, expected);
    assert_eq!(seen[0].1, 16);
    assert_eq!(seen[0].2, vec![5, 6, 7]);
    assert_eq!(seen[0].3, 1);
}

#[test]
fn noiseless_bootstrap_returns_every_payload_at_every_box_index() {
    let n = 64usize;
    let message_modulus_log = 2usize;
    // radix 4: boxes 0 and 1 lie below the midpoint, boxes 2 and 3 above
    let f = vec![make_f1_with_b(2), make_f3_with_b(2)];
    let box_size = n / (1usize << message_modulus_log);
    for index in 0..(1u64 << message_modulus_log) {
        // the phase at the centre of box `index`: index * box_size / 2N of the torus
        let body = index * ((box_size as u64) << (64 - 7));
        let sample = LweCiphertext::from_container(vec![0, 0, 0, body]);
        let mut out = GlweCiphertextList::new(0, 2, n, 2);
        let res = programmable_bootstrap_lwe_ciphertext_many_lut(
            &sample,
            &mut out,
            shape(4, 2, n),
            &exact_rotation,
            1,
            message_modulus_log,
            &f,
        );
        assert_eq!(res, Ok(()));
        for j in 0..2 {
            let ct = out.get(j);
            assert_eq!(ct.data[n], f[j].call(index), "payload {} at box {}", j, index);
            assert!(ct.data[..n].iter().all(|&a| a == 0));
        }
    }
}

#[test]
fn noiseless_bootstrap_negates_the_payloads_on_the_second_half_of_the_torus() {
    let n = 64usize;
    let f = vec![make_f3_with_b(2)];
    for index in 0..4u64 {
        let body = (1u64 << 63) + index * (16u64 << 57);
        let sample = LweCiphertext::from_container(vec![body]);
        let mut out = GlweCiphertextList::new(0, 1, n, 1);
        let res = programmable_bootstrap_lwe_ciphertext_many_lut(
            &sample,
            &mut out,
            shape(1, 1, n),
            &exact_rotation,
            0,
            2,
            &f,
        );
        assert_eq!(res, Ok(()));
        assert_eq!(out.get(0).data[0], opposite(f[0].call(index)));
    }
}

#[test]
fn carry_extractor_changes_sign_exactly_at_half_a_box_before_the_half_turns() {
    // n = 64, radix 16: eight boxes of eight coefficients, half box of four
    let n = 64u64;
    let f = vec![make_f1_with_b(4)];
    let low = opposite(1u64 << 58);
    let high = 1u64 << 58;
    let at = |rotation: u64| -> u64 {
        // the phase that the modulus switch sends to `rotation` exactly
        let body = rotation << 57;
        let sample = LweCiphertext::from_container(vec![0, body]);
        let mut out = GlweCiphertextList::new(0, 2, n as usize, 1);
        let res = programmable_bootstrap_lwe_ciphertext_many_lut(
            &sample,
            &mut out,
            shape(2, 2, n as usize),
            &exact_rotation,
            0,
            3,
            &f,
        );
        assert_eq!(res, Ok(()));
        out.get(0).data[n as usize]
    };
    assert_eq!(at(0), low);
    assert_eq!(at(n - 5), low);
    assert_eq!(at(n - 4), high);
    assert_eq!(at(n), high);
    assert_eq!(at(2 * n - 5), high);
    assert_eq!(at(2 * n - 4), low);
    assert_eq!(at(2 * n - 1), low);
    // the same input gives the same side of a boundary every time
    for _ in 0..5 {
        assert_eq!(at(n - 4), high);
        assert_eq!(at(2 * n - 4), low);
    }
}

#[test]
fn three_payloads_do_not_line_up_with_a_half_box_of_four() {
    // 4 is no multiple of 3: at the centre of box 1 output 0 reads payload 1
    let n = 32usize;
    let f = vec![make_f3_with_b(4), make_f1_with_b(4), make_f3_with_b(4)];
    let sample = LweCiphertext::from_container(vec![8u64 << 58]);
    let mut out = GlweCiphertextList::new(0, 1, n, 3);
    let res = programmable_bootstrap_lwe_ciphertext_many_lut(
        &sample,
        &mut out,
        shape(1, 1, n),
        &exact_rotation,
        2,
        2,
        &f,
    );
    assert_eq!(res, Ok(()));
    assert_eq!(out.get(0).data[0], f[1].call(1));
}

#[test]
fn outputs_are_the_rotated_accumulator_divided_by_successive_monomials() {
    let rotated = GlweCiphertext::from_container(vec![1, 2, 3, 4, 10, 20, 30, 40], 4);
    let mut out = GlweCiphertextList::new(0, 2, 4, 3);
    assert_eq!(extract_many_lut_outputs(&rotated, &mut out), Ok(()));
    assert_eq!(out.get(0).data, vec![1, 2, 3, 4, 10, 20, 30, 40]);
    assert_eq!(out.get(1).data, vec![2, 3, 4, opposite(1), 20, 30, 40, opposite(10)]);
    assert_eq!(out.get(2).data, vec![3, 4, opposite(1), opposite(2), 30, 40, opposite(10), opposite(20)]);
}

#[test]
fn a_rotated_accumulator_of_other_dimensions_is_refused() {
    let mut out = GlweCiphertextList::new(7, 2, 4, 2);
    let short = GlweCiphertext::from_container(vec![1, 2, 3, 4], 4);
    assert_eq!(
        extract_many_lut_outputs(&short, &mut out),
        Err(DecompositionError::RotatedShapeMismatch)
    );
    let other_size = GlweCiphertext::from_container(vec![1; 8], 2);
    assert_eq!(
        extract_many_lut_outputs(&other_size, &mut out),
        Err(DecompositionError::RotatedShapeMismatch)
    );
    let malformed = GlweCiphertext { data: vec![], polynomial_size: 4 };
    assert_eq!(
        extract_many_lut_outputs(&malformed, &mut out),
        Err(DecompositionError::RotatedShapeMismatch)
    );
    assert_eq!(out.get(0).data, vec![7; 8]);
    assert_eq!(out.get(1).data, vec![7; 8]);
}

#[test]
fn bootstrap_fails_and_keeps_the_outputs_when_the_rotation_changes_dimensions() {
    let f = vec![make_f1_with_b(4)];
    let rotation = |acc: &GlweCiphertext, _lwe: &LweCiphertext, _log: usize| {
        GlweCiphertext::from_container(acc.data[..acc.polynomial_size].to_vec(), acc.polynomial_size)
    };
    let sample = LweCiphertext::from_container(vec![1, 2]);
    let mut out = GlweCiphertextList::new(3, 2, 32, 1);
    let res = programmable_bootstrap_lwe_ciphertext_many_lut(
        &sample,
        &mut out,
        shape(2, 2, 32),
        &rotation,
        0,
        3,
        &f,
    );
    assert_eq!(res, Err(DecompositionError::RotatedShapeMismatch));
    assert_eq!(out.get(0).data, vec![3; 64]);
}
