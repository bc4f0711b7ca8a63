//! The encodings of a plaintext.

use vstd::prelude::*;

verus! {

/// The two ways to lay a vector out in a plaintext.
#[derive(Clone, Copy, Debug, PartialEq, Eq, Structural)]
pub enum EncodingEnum {
    /// The values are the coefficients of a polynomial.
    Poly,
    /// The values are the slots of a batch.
    Simd,
}

/// An encoding for the plaintext.
#[derive(Clone, Copy, Debug, PartialEq, Eq, Structural)]
pub struct Encoding {
    pub encoding: EncodingEnum,
    pub level: usize,
}

impl Encoding {
    /// A Poly encoding encodes a vector as coefficients of a polynomial;
    /// homomorphic operations are therefore polynomial operations.
    pub fn poly() -> (r: Encoding)
        ensures
            r == (Encoding { encoding: EncodingEnum::Poly, level: 0 }),
    {
        Encoding { encoding: EncodingEnum::Poly, level: 0 }
    }

    /// A Simd encoding encodes a vector so that homomorphic operations are
    /// component-wise operations on the coefficients of the underlying
    /// vectors. The Simd encoding requires that the plaintext modulus is
    /// congruent to 1 modulo twice the degree of the underlying polynomial.
    pub fn simd() -> (r: Encoding)
        ensures
            r == (Encoding { encoding: EncodingEnum::Simd, level: 0 }),
    {
        Encoding { encoding: EncodingEnum::Simd, level: 0 }
    }

    /// A poly encoding at a given level.
    pub fn poly_at_level(level: usize) -> (r: Encoding)
        ensures
            r == (Encoding { encoding: EncodingEnum::Poly, level }),
    {
        Encoding { encoding: EncodingEnum::Poly, level }
    }

    /// A simd encoding at a given level.
    pub fn simd_at_level(level: usize) -> (r: Encoding)
        ensures
            r == (Encoding { encoding: EncodingEnum::Simd, level }),
    {
        Encoding { encoding: EncodingEnum::Simd, level }
    }
}

} // verus!
