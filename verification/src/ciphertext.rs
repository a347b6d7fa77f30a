//! Ciphertexts as plain coefficient vectors over the 64-bit torus.
//!
//! An LWE ciphertext of dimension `n` is `n` mask coefficients followed by
//! one body coefficient. A GLWE ciphertext of size `k + 1` over polynomials
//! of `N` coefficients is `k` mask polynomials followed by one body
//! polynomial, laid out contiguously. The ciphertext modulus is always the
//! native one, 2^64.

use vstd::prelude::*;

verus! {

/// An LWE ciphertext: the mask followed by the body.
pub struct LweCiphertext {
    pub data: Vec<u64>,
}

impl View for LweCiphertext {
    type V = Seq<u64>;

    open spec fn view(&self) -> Seq<u64> {
        self.data@
    }
}

impl LweCiphertext {
    /// A ciphertext holds at least its body.
    pub open spec fn wf(&self) -> bool {
        self.data@.len() >= 1
    }

    /// Wraps a coefficient vector: the last coefficient is the body.
    pub fn from_container(data: Vec<u64>) -> (ct: LweCiphertext)
        requires
            data@.len() >= 1,
        ensures
            ct.wf(),
            ct@ == data@,
    {
        LweCiphertext { data }
    }

    /// Gives the coefficient vector back.
    pub fn into_container(self) -> (data: Vec<u64>)
        ensures
            data@ == self@,
    {
        self.data
    }

    /// The number of coefficients, body included.
    pub fn lwe_size(&self) -> (n: usize)
        ensures
            n == self@.len(),
    {
        self.data.len()
    }

    /// Tells whether the value is a ciphertext at all.
    pub fn is_well_formed(&self) -> (b: bool)
        ensures
            b == self.wf(),
    {
        self.data.len() >= 1
    }
}

/// A GLWE ciphertext: mask polynomials followed by the body polynomial.
pub struct GlweCiphertext {
    pub data: Vec<u64>,
    pub polynomial_size: usize,
}

impl View for GlweCiphertext {
    type V = Seq<u64>;

    open spec fn view(&self) -> Seq<u64> {
        self.data@
    }
}

impl GlweCiphertext {
    /// The coefficients split into a positive number of polynomials of
    /// `polynomial_size` coefficients each.
    pub open spec fn wf(&self) -> bool {
        &&& self.polynomial_size >= 1
        &&& self.data@.len() >= 1
        &&& self.data@.len() % (self.polynomial_size as nat) == 0
    }

    /// The number of polynomials, body included.
    pub open spec fn spec_glwe_size(&self) -> nat {
        self.data@.len() / (self.polynomial_size as nat)
    }

    /// Both ciphertexts have the same polynomial size and the same number of
    /// polynomials.
    pub open spec fn same_shape(&self, other: &GlweCiphertext) -> bool {
        &&& self.polynomial_size == other.polynomial_size
        &&& self.data@.len() == other.data@.len()
    }

    /// Wraps a coefficient vector of whole polynomials.
    pub fn from_container(data: Vec<u64>, polynomial_size: usize) -> (ct: GlweCiphertext)
        requires
            polynomial_size >= 1,
            data@.len() >= 1,
            data@.len() % (polynomial_size as nat) == 0,
        ensures
            ct.wf(),
            ct@ == data@,
            ct.polynomial_size == polynomial_size,
    {
        GlweCiphertext { data, polynomial_size }
    }

    /// Gives the coefficient vector back.
    pub fn into_container(self) -> (data: Vec<u64>)
        ensures
            data@ == self@,
    {
        self.data
    }

    /// The number of coefficients of each polynomial.
    pub fn polynomial_size(&self) -> (n: usize)
        ensures
            n == self.polynomial_size,
    {
        self.polynomial_size
    }

    /// The number of polynomials, body included.
    pub fn glwe_size(&self) -> (k: usize)
        requires
            self.wf(),
        ensures
            k == self.spec_glwe_size(),
            k >= 1,
            k * self.polynomial_size == self@.len(),
    {
        let k = self.data.len() / self.polynomial_size;
        proof {
            let len = self.data@.len() as int;
            let n = self.polynomial_size as int;
            assert(len == n * (len / n) + len % n) by (nonlinear_arith)
                requires
                    n > 0,
            ;
            assert(len / n >= 1) by (nonlinear_arith)
                requires
                    n > 0,
                    len >= 1,
                    len == n * (len / n),
            ;
            assert((len / n) * n == len) by (nonlinear_arith)
                requires
                    len == n * (len / n),
            ;
        }
        k
    }

    /// Tells whether the value is a ciphertext at all.
    pub fn is_well_formed(&self) -> (b: bool)
        ensures
            b == self.wf(),
    {
        self.polynomial_size >= 1 && self.data.len() >= 1 && self.data.len()
            % self.polynomial_size == 0
    }

    /// Tells whether two ciphertexts have the same dimensions.
    pub fn has_shape_of(&self, other: &GlweCiphertext) -> (b: bool)
        ensures
            b == self.same_shape(other),
    {
        self.polynomial_size == other.polynomial_size && self.data.len() == other.data.len()
    }

    /// A copy of the ciphertext.
    pub fn duplicate(&self) -> (ct: GlweCiphertext)
        ensures
            ct@ == self@,
            ct.polynomial_size == self.polynomial_size,
    {
        let mut data: Vec<u64> = Vec::new();
        let mut i: usize = 0;
        while i < self.data.len()
            invariant
                i <= self.data@.len(),
                data@ == self.data@.subrange(0, i as int),
            decreases self.data@.len() - i,
        {
            data.push(self.data[i]);
            i = i + 1;
        }
        assert(data@ == self.data@);
        GlweCiphertext { data, polynomial_size: self.polynomial_size }
    }
}

/// A list of GLWE ciphertexts that all have the same dimensions.
pub struct GlweCiphertextList {
    pub ciphertexts: Vec<GlweCiphertext>,
    pub glwe_size: usize,
    pub polynomial_size: usize,
}

impl View for GlweCiphertextList {
    type V = Seq<Seq<u64>>;

    open spec fn view(&self) -> Seq<Seq<u64>> {
        Seq::new(self.ciphertexts@.len(), |i: int| self.ciphertexts@[i]@)
    }
}

impl GlweCiphertextList {
    /// Whether `ct` has the dimensions that the list was made for.
    pub open spec fn admits(&self, ct: &GlweCiphertext) -> bool {
        &&& ct.polynomial_size == self.polynomial_size
        &&& ct@.len() == self.glwe_size * self.polynomial_size
    }

    /// Every slot holds a ciphertext of the list's dimensions.
    pub open spec fn wf(&self) -> bool {
        &&& self.glwe_size >= 1
        &&& self.polynomial_size >= 1
        &&& forall|i: int|
            0 <= i < self.ciphertexts@.len() ==> self.admits(#[trigger] &self.ciphertexts@[i])
    }

    /// A list of `count` ciphertexts whose coefficients all equal `fill_with`.
    pub fn new(fill_with: u64, glwe_size: usize, polynomial_size: usize, count: usize) -> (list:
        GlweCiphertextList)
        requires
            glwe_size >= 1,
            polynomial_size >= 1,
            glwe_size * polynomial_size <= usize::MAX,
        ensures
            list.wf(),
            list.glwe_size == glwe_size,
            list.polynomial_size == polynomial_size,
            list@.len() == count,
            forall|i: int|
                0 <= i < count ==> #[trigger] list@[i] == Seq::new(
                    (glwe_size * polynomial_size) as nat,
                    |t: int| fill_with,
                ),
    {
        let len = glwe_size * polynomial_size;
        let mut ciphertexts: Vec<GlweCiphertext> = Vec::new();
        let mut i: usize = 0;
        while i < count
            invariant
                i <= count,
                len == glwe_size * polynomial_size,
                ciphertexts@.len() == i,
                forall|s: int|
                    0 <= s < i ==> (#[trigger] ciphertexts@[s]).polynomial_size
                        == polynomial_size,
                forall|s: int|
                    0 <= s < i ==> (#[trigger] ciphertexts@[s])@ == Seq::new(
                        len as nat,
                        |t: int| fill_with,
                    ),
            decreases count - i,
        {
            let mut data: Vec<u64> = Vec::new();
            let mut t: usize = 0;
            while t < len
                invariant
                    t <= len,
                    data@ == Seq::new(t as nat, |t: int| fill_with),
                decreases len - t,
            {
                data.push(fill_with);
                t = t + 1;
                assert(data@ == Seq::new(t as nat, |t: int| fill_with));
            }
            ciphertexts.push(GlweCiphertext { data, polynomial_size });
            i = i + 1;
        }
        let list = GlweCiphertextList { ciphertexts, glwe_size, polynomial_size };
        assert forall|s: int| 0 <= s < count implies #[trigger] list@[s] == Seq::new(
            (glwe_size * polynomial_size) as nat,
            |t: int| fill_with,
        ) by {
            assert(list@[s] == list.ciphertexts@[s]@);
        }
        list
    }

    /// The number of ciphertexts in the list.
    pub fn glwe_ciphertext_count(&self) -> (n: usize)
        ensures
            n == self@.len(),
    {
        self.ciphertexts.len()
    }

    /// The ciphertext in slot `i`.
    pub fn get(&self, i: usize) -> (ct: &GlweCiphertext)
        requires
            self.wf(),
            i < self@.len(),
        ensures
            ct@ == self@[i as int],
            ct.polynomial_size == self.polynomial_size,
            self.admits(ct),
            *ct == self.ciphertexts@[i as int],
    {
        &self.ciphertexts[i]
    }

    /// Puts `ct` in slot `i`; the other slots keep their ciphertexts.
    pub fn set(&mut self, i: usize, ct: GlweCiphertext)
        requires
            old(self).wf(),
            i < old(self)@.len(),
            old(self).admits(&ct),
        ensures
            final(self).wf(),
            final(self).glwe_size == old(self).glwe_size,
            final(self).polynomial_size == old(self).polynomial_size,
            final(self)@ == old(self)@.update(i as int, ct@),
            final(self).ciphertexts@ == old(self).ciphertexts@.update(i as int, ct),
    {
        self.ciphertexts.set(i, ct);
        assert(self@ =~= old(self)@.update(i as int, ct@));
    }

    /// Tells whether `ct` has the dimensions that the list was made for.
    pub fn fits(&self, ct: &GlweCiphertext) -> (b: bool)
        ensures
            b == self.admits(ct),
    {
        let ct_len = ct.data.len();
        match self.glwe_size.checked_mul(self.polynomial_size) {
            Some(len) => ct.polynomial_size == self.polynomial_size && ct_len == len,
            None => false,
        }
    }

    /// A ciphertext of the dimensions of a well-formed list is well formed.
    pub proof fn lemma_admitted_is_wf(&self, ct: &GlweCiphertext)
        requires
            self.glwe_size >= 1,
            self.polynomial_size >= 1,
            self.admits(ct),
        ensures
            ct.wf(),
            ct.spec_glwe_size() == self.glwe_size,
            ct@.len() >= self.polynomial_size,
    {
        let k = self.glwe_size as int;
        let n = self.polynomial_size as int;
        assert(k * n >= n) by (nonlinear_arith)
            requires
                k >= 1,
                n >= 1,
        ;
        vstd::arithmetic::div_mod::lemma_fundamental_div_mod_converse(k * n, n, k, 0);
    }

    /// Tells whether the list is well formed.
    pub fn is_well_formed(&self) -> (b: bool)
        ensures
            b == self.wf(),
    {
        if self.glwe_size < 1 || self.polynomial_size < 1 {
            return false;
        }
        let mut i: usize = 0;
        while i < self.ciphertexts.len()
            invariant
                i <= self.ciphertexts@.len(),
                forall|s: int| 0 <= s < i ==> self.admits(#[trigger] &self.ciphertexts@[s]),
            decreases self.ciphertexts@.len() - i,
        {
            if !self.fits(&self.ciphertexts[i]) {
                return false;
            }
            i = i + 1;
        }
        true
    }
}

} // verus!
