//! Plaintexts: vectors of integers modulo the plaintext modulus, laid out
//! as the coefficients of a polynomial or as the slots of a batch.

use crate::encoding::{Encoding, EncodingEnum};
use crate::parameters::BfvParameters;
use crate::rq::{
    as_ints, converted, power_rows, rows_combine, share, Operation, Poly, Representation,
};
use crate::zq::reduced;
use std::sync::Arc;
use vstd::prelude::*;

verus! {

/// The values of `v` modulo `t`, followed by zeros up to the length `n`.
pub open spec fn padded(v: Seq<u64>, t: u64, n: nat) -> Seq<u64> {
    Seq::new(
        n,
        |j: int|
            if j < v.len() {
                (v[j] % t) as u64
            } else {
                0u64
            },
    )
}

/// The vector of the length of `v` that holds, for each of the first `upto`
/// indices `i`, the value `v[i]` at the position `map[i]`, and zero
/// elsewhere.
pub open spec fn scattered(v: Seq<u64>, map: Seq<usize>, upto: nat) -> Seq<u64>
    decreases upto,
{
    if upto == 0 {
        Seq::new(v.len(), |j: int| 0u64)
    } else {
        scattered(v, map, (upto - 1) as nat).update(map[upto - 1] as int, v[upto - 1])
    }
}

/// The vector that holds the value `w[map[i]]` at each index `i`.
pub open spec fn gathered(w: Seq<u64>, map: Seq<usize>) -> Seq<u64> {
    Seq::new(map.len(), |i: int| w[map[i] as int])
}

/// The coefficients modulo the plaintext modulus that encode `values`.
pub open spec fn encoded(values: Seq<u64>, encoding: Encoding, par: BfvParameters) -> Seq<u64> {
    let v = padded(values, par.spec_plaintext(), par.spec_degree());
    match encoding.encoding {
        EncodingEnum::Poly => v,
        EncodingEnum::Simd => par.op()->Some_0.backward_spec(
            scattered(v, par.index_map(), par.spec_degree()),
        ),
    }
}

/// The values that the coefficients `value` decode to.
pub open spec fn decoded(value: Seq<u64>, encoding: Encoding, par: BfvParameters) -> Seq<u64> {
    match encoding.encoding {
        EncodingEnum::Poly => value,
        EncodingEnum::Simd => gathered(par.op()->Some_0.forward_spec(value), par.index_map()),
    }
}

/// A plaintext: coefficients modulo the plaintext modulus, the encoding
/// they came from if any, and the polynomial of the coefficients in the
/// transform domain.
#[derive(Debug)]
pub struct Plaintext {
    par: Arc<BfvParameters>,
    value: Vec<u64>,
    encoding: Option<Encoding>,
    poly_ntt: Poly,
}

impl Plaintext {
    /// The parameters.
    pub closed spec fn par(&self) -> BfvParameters {
        *self.par
    }

    /// The coefficients modulo the plaintext modulus.
    pub closed spec fn values(&self) -> Seq<u64> {
        self.value@
    }

    /// The encoding the coefficients came from, if any.
    pub closed spec fn encoding(&self) -> Option<Encoding> {
        self.encoding
    }

    /// The polynomial of the coefficients, in the transform domain.
    pub closed spec fn poly(&self) -> Poly {
        self.poly_ntt
    }

    /// Well-formedness: one reduced coefficient per power of `x`, and the
    /// polynomial is the transform of the coefficients.
    pub open spec fn wf(&self) -> bool {
        &&& self.par().wf()
        &&& self.values().len() == self.par().spec_degree()
        &&& reduced(self.values(), self.par().spec_plaintext())
        &&& self.poly().wf()
        &&& self.poly().ctx() == self.par().ctx()
        &&& self.poly().representation() == Representation::Ntt
        &&& self.poly().rows() == converted(
            self.par().ctx(),
            Representation::PowerBasis,
            Representation::Ntt,
            power_rows(as_ints(self.values()), self.par().spec_moduli(), self.par().spec_degree()),
        )
    }

    /// The plaintext with the coefficients `value`.
    pub fn from_value(value: Vec<u64>, encoding: Option<Encoding>, par: &Arc<BfvParameters>) -> (r:
        Plaintext)
        requires
            par.wf(),
            value@.len() == par.spec_degree(),
            reduced(value@, par.spec_plaintext()),
        ensures
            r.wf(),
            r.par() == **par,
            r.values() == value@,
            r.encoding() == encoding,
    {
        let mut poly = Poly::from_coefficients_u64(value.as_slice(), par.context()).unwrap();
        proof {
            assert(Seq::new(value@.len(), |j: int| value@[j] as int) =~= as_ints(value@));
        }
        poly.change_representation(Representation::Ntt);
        Plaintext { par: share(par), value, encoding, poly_ntt: poly }
    }

    /// Encodes `values`. Fails where there are more values than the degree,
    /// or where the batched encoding is asked for and the plaintext modulus
    /// has no transform of the degree.
    pub fn try_encode(values: &[u64], encoding: Encoding, par: &Arc<BfvParameters>) -> (r: Result<
        Plaintext,
        String,
    >)
        requires
            par.wf(),
        ensures
            r.is_ok() <==> (values@.len() <= par.spec_degree() && (encoding.encoding
                == EncodingEnum::Simd ==> par.op().is_some())),
            r matches Ok(pt) ==> {
                &&& pt.wf()
                &&& pt.par() == **par
                &&& pt.encoding() == Some(encoding)
                &&& pt.values() == encoded(values@, encoding, **par)
            },
            r matches Err(e) ==> {
                if values@.len() > par.spec_degree() {
                    e@ == "There are too many values to encode"@
                } else {
                    e@ == "The plaintext modulus does not allow for the batched encoding"@
                }
            },
    {
        let n = par.degree();
        if values.len() > n {
            return Err("There are too many values to encode".to_string());
        }
        let t = par.plaintext_ring();
        let mut v = t.reduce_vec_new(values);
        let ghost before = v@;
        v.resize(n, 0);
        proof {
            assert(2 <= par.spec_plaintext());
            assert forall|j: int| 0 <= j < n implies v@[j] == padded(
                values@,
                par.spec_plaintext(),
                par.spec_degree(),
            )[j] by {
                if j < before.len() {
                    assert(v@.subrange(0, before.len() as int)[j] == before[j]);
                }
            }
            assert(v@ =~= padded(values@, par.spec_plaintext(), par.spec_degree()));
        }
        match encoding.encoding {
            EncodingEnum::Poly => Ok(Plaintext::from_value(v, Some(encoding), par)),
            EncodingEnum::Simd => {
                match par.ntt_operator() {
                    None => Err(
                        "The plaintext modulus does not allow for the batched encoding".to_string(),
                    ),
                    Some(op) => {
                        let map = par.batching_table();
                        let mut w: Vec<u64> = vec![0u64; n];
                        let mut i: usize = 0;
                        proof {
                            assert(w@ =~= scattered(v@, map@, 0));
                        }
                        while i < n
                            invariant
                                par.wf(),
                                i <= n,
                                n == par.spec_degree(),
                                n == v@.len(),
                                n == w@.len(),
                                map@ == par.index_map(),
                                reduced(v@, par.spec_plaintext()),
                                reduced(w@, par.spec_plaintext()),
                                w@ == scattered(v@, map@, i as nat),
                            decreases n - i,
                        {
                            w[map[i]] = v[i];
                            i += 1;
                        }
                        op.backward(w.as_mut_slice());
                        Ok(Plaintext::from_value(w, Some(encoding), par))
                    },
                }
            },
        }
    }

    /// Decodes the plaintext. Fails where the plaintext came from another
    /// encoding, or where the batched encoding is asked for and the
    /// plaintext modulus has no transform of the degree.
    pub fn try_decode(&self, encoding: Encoding) -> (r: Result<Vec<u64>, String>)
        requires
            self.wf(),
        ensures
            r.is_ok() <==> ((self.encoding() matches Some(e) ==> e == encoding) && (
            encoding.encoding == EncodingEnum::Simd ==> self.par().op().is_some())),
            r matches Ok(v) ==> v@ == decoded(self.values(), encoding, self.par()),
            r matches Err(e) ==> {
                if self.encoding().is_some() && self.encoding() != Some(encoding) {
                    e@ == "The plaintext was encoded with another encoding"@
                } else {
                    e@ == "The plaintext modulus does not allow for the batched encoding"@
                }
            },
    {
        match self.encoding {
            Some(e) => {
                if e != encoding {
                    return Err("The plaintext was encoded with another encoding".to_string());
                }
            },
            None => {},
        }
        let mut w = self.value.clone();
        proof {
            assert(w@ =~= self.value@);
        }
        match encoding.encoding {
            EncodingEnum::Poly => Ok(w),
            EncodingEnum::Simd => {
                match self.par.ntt_operator() {
                    None => Err(
                        "The plaintext modulus does not allow for the batched encoding".to_string(),
                    ),
                    Some(op) => {
                        op.forward(w.as_mut_slice());
                        let map = self.par.batching_table();
                        let n = map.len();
                        let mut out: Vec<u64> = Vec::with_capacity(n);
                        let mut i: usize = 0;
                        while i < n
                            invariant
                                self.wf(),
                                i <= n,
                                n == map@.len(),
                                n == w@.len(),
                                n == self.par().spec_degree(),
                                map@ == self.par().index_map(),
                                out@.len() == i,
                                forall|j: int|
                                    0 <= j < i ==> #[trigger] out@[j] == w@[map@[j] as int],
                            decreases n - i,
                        {
                            out.push(w[map[i]]);
                            i += 1;
                        }
                        proof {
                            assert(out@ =~= gathered(w@, map@));
                        }
                        Ok(out)
                    },
                }
            },
        }
    }

    /// The polynomial that stands for the plaintext in a ciphertext: the
    /// polynomial of the coefficients times the scaling polynomial.
    pub fn to_poly(&self) -> (r: Poly)
        requires
            self.wf(),
        ensures
            r.wf(),
            r.ctx() == self.par().ctx(),
            r.representation() == Representation::Ntt,
            !r.variable_time(),
            r.rows() == rows_combine(
                Operation::Mul,
                self.poly().rows(),
                self.par().delta().rows(),
                self.par().spec_moduli(),
            ),
    {
        let mut m = self.poly_ntt.copy();
        m.disallow_variable_time_computations();
        m.mul_assign(self.par.scaling_poly());
        m
    }

    /// Whether two plaintexts hold the same coefficients under the same
    /// parameters.
    pub fn equals(&self, other: &Plaintext) -> (r: bool)
        ensures
            r == (self.par().same(&other.par()) && self.values() == other.values()),
    {
        if !self.par.equals(&other.par) || self.value.len() != other.value.len() {
            return false;
        }
        let n = self.value.len();
        let mut i: usize = 0;
        while i < n
            invariant
                i <= n,
                n == self.value@.len(),
                n == other.value@.len(),
                forall|j: int| 0 <= j < i ==> self.value@[j] == other.value@[j],
            decreases n - i,
        {
            if self.value[i] != other.value[i] {
                return false;
            }
            i += 1;
        }
        assert(self.value@ =~= other.value@);
        true
    }

    /// The coefficients in the balanced signed range: each coefficient `v`
    /// as `v - t` from the half of the plaintext modulus `t` on, and as `v`
    /// below.
    pub fn centered_value(&self) -> (r: Vec<i64>)
        requires
            self.wf(),
        ensures
            r@.len() == self.values().len(),
            forall|i: int|
                0 <= i < r@.len() ==> (#[trigger] r@[i]) as int == crate::zq::centered(
                    self.values()[i] as int,
                    self.par().spec_plaintext() as int,
                ),
    {
        self.par.plaintext_ring().center_vec_vt(self.value.as_slice())
    }

    /// The coefficients modulo the plaintext modulus.
    pub fn value(&self) -> (r: &Vec<u64>)
        ensures
            r@ == self.values(),
    {
        &self.value
    }

    /// The parameters.
    pub fn parameters(&self) -> (r: &Arc<BfvParameters>)
        ensures
            **r == self.par(),
    {
        &self.par
    }

    /// The polynomial of the coefficients, in the transform domain.
    pub fn poly_ntt(&self) -> (r: &Poly)
        ensures
            *r == self.poly(),
    {
        &self.poly_ntt
    }
}

} // verus!
