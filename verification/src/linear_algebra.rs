//! Linear operations on ciphertexts, carried out by `tfhe`.
//!
//! Each specification function says, coefficient by coefficient, what an
//! operation of `tfhe::core_crypto` computes on ciphertexts with the native
//! modulus. The executable functions of this module hand the coefficients to
//! `tfhe` and take the result back; their contracts are believed, not proved.

use crate::ciphertext::{GlweCiphertext, LweCiphertext};
use crate::polynomial::polynomial_of;
use crate::torus::{torus_add, torus_mul, torus_neg, torus_sub};
use tfhe::core_crypto::algorithms::{
    allocate_and_trivially_encrypt_new_glwe_ciphertext, extract_lwe_sample_from_glwe_ciphertext,
    glwe_ciphertext_cleartext_mul, glwe_ciphertext_plaintext_add_assign,
    glwe_ciphertext_sub_assign, lwe_ciphertext_plaintext_add_assign,
};
use tfhe::core_crypto::commons::ciphertext_modulus::CiphertextModulus;
use tfhe::core_crypto::commons::parameters::{GlweSize, MonomialDegree, PolynomialSize};
use tfhe::core_crypto::entities;
use vstd::prelude::*;

verus! {

/// Every coefficient multiplied by the cleartext `c`.
pub open spec fn cleartext_mul(ct: Seq<u64>, c: u64) -> Seq<u64> {
    Seq::new(ct.len(), |i: int| torus_mul(ct[i], c))
}

/// The coefficientwise difference `lhs - rhs`.
pub open spec fn ciphertext_sub(lhs: Seq<u64>, rhs: Seq<u64>) -> Seq<u64> {
    Seq::new(lhs.len(), |i: int| torus_sub(lhs[i], rhs[i]))
}

/// The plaintext `p` added to every coefficient of the body polynomial, the
/// last `n` coefficients of a GLWE ciphertext.
pub open spec fn glwe_plaintext_add(ct: Seq<u64>, n: nat, p: u64) -> Seq<u64> {
    Seq::new(
        ct.len(),
        |i: int|
            if i >= ct.len() - n {
                torus_add(ct[i], p)
            } else {
                ct[i]
            },
    )
}

/// The plaintext `p` added to the body, the last coefficient of an LWE
/// ciphertext.
pub open spec fn lwe_plaintext_add(ct: Seq<u64>, p: u64) -> Seq<u64> {
    ct.update(ct.len() - 1, torus_add(ct[ct.len() - 1], p))
}

/// Coefficient `t` of the LWE mask block that sample extraction at degree
/// `nth` makes of the mask polynomial `poly`: the coefficients up to `nth`
/// in reverse order, then the opposites of the others, again in reverse.
pub open spec fn extracted_mask_coeff(poly: Seq<u64>, nth: int, t: int) -> u64 {
    if t <= nth {
        poly[nth - t]
    } else {
        torus_neg(poly[poly.len() + nth - t])
    }
}

/// The LWE ciphertext that encrypts coefficient `nth` of the plaintext of
/// the GLWE ciphertext `ct` over polynomials of `n` coefficients.
pub open spec fn sample_extract(ct: Seq<u64>, n: nat, nth: nat) -> Seq<u64> {
    let mask_len = ct.len() - n;
    Seq::new(
        (mask_len + 1) as nat,
        |i: int|
            if i == mask_len {
                ct[mask_len + nth]
            } else {
                extracted_mask_coeff(polynomial_of(ct, n, i), nth as int, i % n as int)
            },
    )
}

/// The noiseless encryption of `encoded` as a GLWE ciphertext of
/// `glwe_size` polynomials: a zero mask and `encoded` as the body.
pub open spec fn trivial_encryption(glwe_size: nat, encoded: Seq<u64>) -> Seq<u64> {
    let mask_len = (glwe_size - 1) * encoded.len();
    Seq::new(
        glwe_size * encoded.len(),
        |i: int|
            if i < mask_len {
                0u64
            } else {
                encoded[i - mask_len]
            },
    )
}

/// Calls `tfhe`'s `glwe_ciphertext_cleartext_mul` on a fresh output of the
/// dimensions of `lhs`. The output is `lhs` with every coefficient
/// multiplied by `rhs` modulo 2^64.
#[verifier::external_body]
pub(crate) fn glwe_cleartext_mul(lhs: &GlweCiphertext, rhs: u64) -> (out: GlweCiphertext)
    requires
        lhs.wf(),
    ensures
        out.polynomial_size == lhs.polynomial_size,
        out@ == cleartext_mul(lhs@, rhs),
{
    let modulus = CiphertextModulus::<u64>::new_native();
    let size = PolynomialSize(lhs.polynomial_size);
    let input = entities::GlweCiphertext::from_container(lhs.data.as_slice(), size, modulus);
    let mut output = entities::GlweCiphertext::new(0u64, input.glwe_size(), size, modulus);
    glwe_ciphertext_cleartext_mul(&mut output, &input, entities::Cleartext(rhs));
    GlweCiphertext { data: output.into_container(), polynomial_size: lhs.polynomial_size }
}

/// Calls `tfhe`'s `glwe_ciphertext_sub_assign`. Afterwards `lhs` holds the
/// coefficientwise difference of its former value and `rhs` modulo 2^64.
#[verifier::external_body]
pub(crate) fn glwe_sub_assign(lhs: &mut GlweCiphertext, rhs: &GlweCiphertext)
    requires
        old(lhs).wf(),
        rhs.wf(),
        old(lhs).same_shape(rhs),
    ensures
        final(lhs).polynomial_size == old(lhs).polynomial_size,
        final(lhs)@ == ciphertext_sub(old(lhs)@, rhs@),
{
    let modulus = CiphertextModulus::<u64>::new_native();
    let size = PolynomialSize(lhs.polynomial_size);
    let mut left = entities::GlweCiphertext::from_container(lhs.data.as_mut_slice(), size, modulus);
    let right = entities::GlweCiphertext::from_container(rhs.data.as_slice(), size, modulus);
    glwe_ciphertext_sub_assign(&mut left, &right);
}

/// Calls `tfhe`'s `glwe_ciphertext_plaintext_add_assign`. Afterwards every
/// coefficient of the body polynomial of `lhs` has `rhs` added to it modulo
/// 2^64; the mask is unchanged.
#[verifier::external_body]
pub(crate) fn glwe_plaintext_add_assign(lhs: &mut GlweCiphertext, rhs: u64)
    requires
        old(lhs).wf(),
    ensures
        final(lhs).polynomial_size == old(lhs).polynomial_size,
        final(lhs)@ == glwe_plaintext_add(old(lhs)@, old(lhs).polynomial_size as nat, rhs),
{
    let modulus = CiphertextModulus::<u64>::new_native();
    let size = PolynomialSize(lhs.polynomial_size);
    let mut ct = entities::GlweCiphertext::from_container(lhs.data.as_mut_slice(), size, modulus);
    glwe_ciphertext_plaintext_add_assign(&mut ct, entities::Plaintext(rhs));
}

/// Calls `tfhe`'s `lwe_ciphertext_plaintext_add_assign`. Afterwards the body
/// of `lhs` has `rhs` added to it modulo 2^64; the mask is unchanged.
#[verifier::external_body]
pub(crate) fn lwe_plaintext_add_assign(lhs: &mut LweCiphertext, rhs: u64)
    requires
        old(lhs).wf(),
    ensures
        final(lhs)@ == lwe_plaintext_add(old(lhs)@, rhs),
{
    let modulus = CiphertextModulus::<u64>::new_native();
    let mut ct = entities::LweCiphertext::from_container(lhs.data.as_mut_slice(), modulus);
    lwe_ciphertext_plaintext_add_assign(&mut ct, entities::Plaintext(rhs));
}

/// Calls `tfhe`'s `extract_lwe_sample_from_glwe_ciphertext` on a fresh
/// output of the equivalent LWE dimension. The output's body is coefficient
/// `nth` of the input's body; each block of its mask is the matching mask
/// polynomial reversed, with the coefficients of degree above `nth` negated.
#[verifier::external_body]
pub(crate) fn glwe_sample_extract(input: &GlweCiphertext, nth: usize) -> (out: LweCiphertext)
    requires
        input.wf(),
        nth < input.polynomial_size,
    ensures
        out@ == sample_extract(input@, input.polynomial_size as nat, nth as nat),
{
    let modulus = CiphertextModulus::<u64>::new_native();
    let size = PolynomialSize(input.polynomial_size);
    let glwe = entities::GlweCiphertext::from_container(input.data.as_slice(), size, modulus);
    let dimension = glwe.glwe_size().to_glwe_dimension().to_equivalent_lwe_dimension(size);
    let mut lwe = entities::LweCiphertext::new(0u64, dimension.to_lwe_size(), modulus);
    extract_lwe_sample_from_glwe_ciphertext(&glwe, &mut lwe, MonomialDegree(nth));
    LweCiphertext { data: lwe.into_container() }
}

/// Calls `tfhe`'s `allocate_and_trivially_encrypt_new_glwe_ciphertext`. The
/// output has `glwe_size` polynomials of as many coefficients as `encoded`:
/// a mask of zeros, and `encoded` as its body.
#[verifier::external_body]
pub(crate) fn glwe_trivial_encrypt(glwe_size: usize, encoded: &Vec<u64>) -> (out: GlweCiphertext)
    requires
        glwe_size >= 1,
        encoded@.len() >= 1,
        glwe_size * encoded@.len() <= usize::MAX,
    ensures
        out.polynomial_size == encoded@.len(),
        out@ == trivial_encryption(glwe_size as nat, encoded@),
{
    let modulus = CiphertextModulus::<u64>::new_native();
    let plaintexts = entities::PlaintextList::from_container(encoded.as_slice());
    let ct = allocate_and_trivially_encrypt_new_glwe_ciphertext(
        GlweSize(glwe_size),
        &plaintexts,
        modulus,
    );
    GlweCiphertext { data: ct.into_container(), polynomial_size: encoded.len() }
}

} // verus!
