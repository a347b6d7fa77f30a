use digit_decompose::ciphertext::GlweCiphertext;
use digit_decompose::polynomial::glwe_ciphertext_monic_monomial_div;
use tfhe::core_crypto::algorithms::polynomial_algorithms::polynomial_wrapping_monic_monomial_div;
use tfhe::core_crypto::commons::parameters::MonomialDegree;
use tfhe::core_crypto::entities::Polynomial;

fn neg(x: u64) -> u64 {
    x.wrapping_neg()
}

#[test]
fn dividing_by_x_moves_coefficients_down_and_negates_the_wrapped_one() {
    let ct = GlweCiphertext::from_container(vec![1, 2, 3, 4], 4);
    let out = glwe_ciphertext_monic_monomial_div(&ct, 1);
    assert_eq!(out.data, vec![2, 3, 4, neg(1)]);
    assert_eq!(out.polynomial_size, 4);
}

#[test]
fn dividing_by_x_to_the_n_negates_and_by_x_to_the_2n_is_the_identity() {
    let ct = GlweCiphertext::from_container(vec![1, 2, 3, 4], 4);
    assert_eq!(glwe_ciphertext_monic_monomial_div(&ct, 0).data, vec![1, 2, 3, 4]);
    assert_eq!(
        glwe_ciphertext_monic_monomial_div(&ct, 4).data,
        vec![neg(1), neg(2), neg(3), neg(4)]
    );
    assert_eq!(glwe_ciphertext_monic_monomial_div(&ct, 8).data, vec![1, 2, 3, 4]);
    assert_eq!(
        glwe_ciphertext_monic_monomial_div(&ct, 6).data,
        vec![neg(3), neg(4), 1, 2]
    );
}

#[test]
fn every_polynomial_of_a_ciphertext_is_divided_on_its_own() {
    let ct = GlweCiphertext::from_container(vec![1, 2, 3, 4, 10, 20, 30, 40], 4);
    let out = glwe_ciphertext_monic_monomial_div(&ct, 3);
    assert_eq!(out.data, vec![4, neg(1), neg(2), neg(3), 40, neg(10), neg(20), neg(30)]);
}

#[test]
fn division_agrees_with_the_polynomial_division_of_tfhe() {
    let n = 16usize;
    let coefficients: Vec<u64> = (0..n as u64)
        .map(|i| (i + 1).wrapping_mul(0x9E37_79B9_7F4A_7C15))
        .collect();
    let ct = GlweCiphertext::from_container(coefficients.clone(), n);
    for degree in 0..(5 * n) {
        let input = Polynomial::from_container(coefficients.clone());
        let mut expected = Polynomial::new(0u64, input.polynomial_size());
        polynomial_wrapping_monic_monomial_div(&mut expected, &input, MonomialDegree(degree));
        let out = glwe_ciphertext_monic_monomial_div(&ct, degree);
        assert_eq!(out.data, expected.into_container());
    }
}
