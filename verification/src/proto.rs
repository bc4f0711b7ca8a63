//! The messages that polynomials and ciphertexts travel as.
//!
//! A polynomial travels as its representation, its degree and its rows, each
//! row packed into bytes with as many bits per residue as the largest
//! residue of its modulus has. A fresh ciphertext travels without its last
//! polynomial: the seed that yields it takes its place.

use crate::ciphertext::Ciphertext;
use crate::errors::Error;
use crate::parameters::BfvParameters;
use crate::random::Seed;
use crate::rq::{rows_in, rows_of, Context, Poly, Representation};
use crate::transcode::{
    packed_bytes, repacked, transcode_from_bytes, transcode_to_bytes, widened,
};
use crate::zq::{reduced, Modulus};
use std::sync::Arc;
use vstd::prelude::*;

verus! {

/// A polynomial as a message.
#[derive(Clone, Debug)]
pub struct Rq {
    pub representation: Representation,
    pub degree: usize,
    pub coefficients: Vec<u8>,
    pub allow_variable_time: bool,
}

/// A ciphertext as a message.
#[derive(Clone, Debug)]
pub struct CiphertextProto {
    pub c: Vec<Rq>,
    pub seed: Vec<u8>,
    pub minimized: bool,
}

/// The number of bits of the largest residue modulo `q`.
pub open spec fn residue_bits(q: u64) -> nat {
    (64 - vstd::std_specs::bits::u64_leading_zeros((q - 1) as u64)) as nat
}

/// The number of bytes that a row of `n` residues modulo `q` packs into.
pub open spec fn row_bytes(q: u64, n: nat) -> nat {
    residue_bits(q) * n / 8
}

/// The number of bytes that the first `upto` rows pack into.
pub open spec fn rows_bytes(moduli: Seq<u64>, n: nat, upto: nat) -> nat
    decreases upto,
{
    if upto == 0 {
        0
    } else {
        rows_bytes(moduli, n, (upto - 1) as nat) + row_bytes(moduli[upto - 1], n)
    }
}

/// The bytes that the first `upto` rows pack into, one row after the other.
pub open spec fn packed_rows(rows: Seq<Seq<u64>>, moduli: Seq<u64>, upto: nat) -> Seq<u8>
    decreases upto,
{
    if upto == 0 {
        Seq::empty()
    } else {
        packed_rows(rows, moduli, (upto - 1) as nat) + packed_bytes(
            rows[upto - 1],
            residue_bits(moduli[upto - 1]),
        )
    }
}

/// The rows that the bytes are cut into: the row of index `i` takes the
/// bytes that follow those of the rows before it.
pub open spec fn cut_rows(bytes: Seq<u8>, moduli: Seq<u64>, n: nat) -> Seq<Seq<u64>> {
    Seq::new(
        moduli.len(),
        |i: int|
            repacked(
                widened(
                    bytes.subrange(
                        rows_bytes(moduli, n, i as nat) as int,
                        rows_bytes(moduli, n, (i + 1) as nat) as int,
                    ),
                ),
                8,
                residue_bits(moduli[i]),
            ),
    )
}

/// What a message of a polynomial holds.
pub struct RqModel {
    pub representation: Representation,
    pub degree: usize,
    pub coefficients: Seq<u8>,
    pub allow_variable_time: bool,
}

/// What a message of a ciphertext holds.
pub struct CiphertextModel {
    pub c: Seq<RqModel>,
    pub seed: Seq<u8>,
    pub minimized: bool,
}

impl Rq {
    /// What the message holds.
    pub open spec fn model(&self) -> RqModel {
        RqModel {
            representation: self.representation,
            degree: self.degree,
            coefficients: self.coefficients@,
            allow_variable_time: self.allow_variable_time,
        }
    }
}

impl CiphertextProto {
    /// What the message holds.
    pub open spec fn model(&self) -> CiphertextModel {
        CiphertextModel {
            c: Seq::new(self.c@.len(), |i: int| self.c@[i].model()),
            seed: self.seed@,
            minimized: self.minimized,
        }
    }
}

/// Which error, if any, keeps what a message holds from being a polynomial
/// of the context, in the representation `expected` where one is given.
pub open spec fn model_error(m: RqModel, ctx: Context, expected: Option<Representation>) -> Option<
    Seq<char>,
> {
    if expected.is_some() && expected != Some(m.representation) {
        Some("The representation asked for does not match the representation in the serialization"@)
    } else if m.degree != ctx.degree() {
        Some("Invalid degree"@)
    } else if m.coefficients.len() != rows_bytes(ctx.moduli(), ctx.degree(), ctx.moduli().len()) {
        Some("Invalid coefficients"@)
    } else if !rows_in(cut_rows(m.coefficients, ctx.moduli(), ctx.degree()), ctx.moduli(), ctx.degree()) {
        Some("The coefficients are not reduced"@)
    } else {
        None
    }
}

/// The bytes of `b` from the index `from` up to the index `to`.
pub fn sub_bytes(b: &[u8], from: usize, to: usize) -> (r: Vec<u8>)
    requires
        from <= to <= b@.len(),
    ensures
        r@ == b@.subrange(from as int, to as int),
{
    let mut r: Vec<u8> = Vec::with_capacity(to - from);
    let mut i: usize = from;
    while i < to
        invariant
            from <= i <= to <= b@.len(),
            r@ == b@.subrange(from as int, i as int),
        decreases to - i,
    {
        r.push(b[i]);
        proof {
            assert(r@ =~= b@.subrange(from as int, i + 1));
        }
        i += 1;
    }
    r
}

/// Whether every element of `a` is below `p`.
fn is_reduced(a: &Vec<u64>, p: u64) -> (r: bool)
    ensures
        r == reduced(a@, p),
{
    let mut i: usize = 0;
    while i < a.len()
        invariant
            i <= a@.len(),
            forall|j: int| 0 <= j < i ==> #[trigger] a@[j] < p,
        decreases a@.len() - i,
    {
        if a[i] >= p {
            return false;
        }
        i += 1;
    }
    true
}

impl Rq {
    /// The message of a polynomial.
    pub fn from_poly(p: &Poly) -> (r: Rq)
        requires
            p.wf(),
        ensures
            r.representation == p.representation(),
            r.degree == p.ctx().degree(),
            r.allow_variable_time == p.variable_time(),
            r.coefficients@ == packed_rows(p.rows(), p.ctx().moduli(), p.ctx().moduli().len()),
            r.coefficients@.len() == rows_bytes(
                p.ctx().moduli(),
                p.ctx().degree(),
                p.ctx().moduli().len(),
            ),
    {
        let ctx = p.context();
        let rows = p.coefficients();
        let moduli = ctx.moduli_u64();
        let k = moduli.len();
        let n = ctx.ring_degree();
        let mut coefficients: Vec<u8> = Vec::new();
        let mut i: usize = 0;
        proof {
            assert(p.rows().len() == k);
            vstd::arithmetic::power2::is_pow2_equiv(n as int);
            lemma_multiple_of_8(n);
        }
        while i < k
            invariant
                p.wf(),
                i <= k,
                k == moduli@.len(),
                moduli@ == p.ctx().moduli(),
                n == p.ctx().degree(),
                n % 8 == 0,
                rows_of(rows@) == p.rows(),
                rows@.len() == k,
                coefficients@ == packed_rows(p.rows(), moduli@, i as nat),
                coefficients@.len() == rows_bytes(moduli@, n as nat, i as nat),
            decreases k - i,
        {
            let q = Modulus::new(moduli[i]).unwrap();
            proof {
                assert(p.rows()[i as int].len() == n);
                assert(rows@[i as int]@ == p.rows()[i as int]);
            }
            let mut bytes = q.serialize_vec(rows[i].as_slice());
            coefficients.append(&mut bytes);
            i += 1;
        }
        Rq {
            representation: p.get_representation(),
            degree: n,
            coefficients,
            allow_variable_time: p.is_variable_time(),
        }
    }

    /// The polynomial of a message, over the context. Fails where the
    /// message has another representation than the one asked for, another
    /// degree than the context, another number of bytes than the rows of
    /// the context pack into, or residues that are not reduced.
    pub fn to_poly(&self, ctx: &Arc<Context>, expected: Option<Representation>) -> (r: Result<
        Poly,
        Error,
    >)
        requires
            ctx.wf(),
        ensures
            r.is_ok() <==> model_error(self.model(), **ctx, expected).is_none(),
            r matches Err(e) ==> model_error(self.model(), **ctx, expected) == Some(e.text()),
            r matches Ok(p) ==> {
                &&& p.wf()
                &&& p.ctx() == **ctx
                &&& p.representation() == self.representation
                &&& p.variable_time() == self.allow_variable_time
                &&& p.rows() == cut_rows(self.coefficients@, ctx.moduli(), ctx.degree())
            },
    {
        match expected {
            Some(e) => {
                if e != self.representation {
                    return Err(
                        Error::serialization(
                            "The representation asked for does not match the representation in the serialization",
                        ),
                    );
                }
            },
            None => {},
        }
        let n = ctx.ring_degree();
        if self.degree != n {
            return Err(Error::serialization("Invalid degree"));
        }
        let moduli = ctx.moduli_u64();
        let k = moduli.len();
        let total = self.coefficients.len();
        // the rows, as long as the bytes last
        let mut rows: Vec<Vec<u64>> = Vec::with_capacity(k);
        let mut offset: usize = 0;
        let mut all_reduced = true;
        let mut i: usize = 0;
        let ghost want = cut_rows(self.coefficients@, ctx.moduli(), ctx.degree());
        proof {
            vstd::arithmetic::power2::is_pow2_equiv(n as int);
            lemma_multiple_of_8(n);
        }
        while i < k
            invariant
                ctx.wf(),
                i <= k,
                k == moduli@.len(),
                moduli@ == ctx.moduli(),
                n == ctx.degree(),
                n % 8 == 0,
                total == self.coefficients@.len(),
                expected.is_none() || expected == Some(self.representation),
                self.degree == ctx.degree(),
                offset <= total,
                offset == rows_bytes(moduli@, n as nat, i as nat),
                want == cut_rows(self.coefficients@, ctx.moduli(), ctx.degree()),
                rows@.len() == i,
                forall|l: int| 0 <= l < i ==> (#[trigger] rows@[l])@ == want[l],
                forall|l: int| 0 <= l < i ==> (#[trigger] rows@[l])@.len() == n,
                all_reduced == (forall|l: int|
                    0 <= l < i ==> reduced(#[trigger] want[l], moduli@[l])),
            decreases k - i,
        {
            let q = Modulus::new(moduli[i]).unwrap();
            let bits = q.bits_per_residue();
            // bits * n / 8 bytes: n is a multiple of 8
            proof {
                let e = (n / 8) as int;
                assert(bits * e <= 62 * e) by (nonlinear_arith)
                    requires
                        bits <= 62,
                        e >= 0,
                ;
                assert(bits * n == (bits * e) * 8) by (nonlinear_arith)
                    requires
                        n == 8 * e,
                ;
                crate::arith::lemma_div_unique((bits * n) as int, 8, bits * e);
                assert(row_bytes(moduli@[i as int], n as nat) == bits * e);
            }
            let wanted: u64 = (bits as u64) * ((n / 8) as u64);
            proof {
                assert(rows_bytes(moduli@, n as nat, (i + 1) as nat) == offset + wanted);
            }
            if wanted > (total - offset) as u64 {
                proof {
                    lemma_rows_bytes_increase(moduli@, n as nat, (i + 1) as nat, k as nat);
                }
                return Err(Error::serialization("Invalid coefficients"));
            }
            let per_row: usize = wanted as usize;
            let segment = sub_bytes(self.coefficients.as_slice(), offset, offset + per_row);
            let row = q.deserialize_vec(segment.as_slice());
            proof {
                // the row has n residues again
                assert(row@.len() == (per_row * 8 + bits - 1) / (bits as int));
                assert(per_row * 8 == n * bits) by (nonlinear_arith)
                    requires
                        per_row == bits * (n / 8),
                        n == 8 * (n / 8),
                ;
                assert(widened(segment@).len() == per_row);
                crate::arith::lemma_div_unique(
                    (per_row * 8 + bits - 1) as int,
                    bits as int,
                    n as int,
                );
            }
            proof {
                assert(segment@ == self.coefficients@.subrange(
                    rows_bytes(moduli@, n as nat, i as nat) as int,
                    rows_bytes(moduli@, n as nat, (i + 1) as nat) as int,
                ));
                assert(row@ == want[i as int]);
            }
            if !is_reduced(&row, moduli[i]) {
                all_reduced = false;
            }
            rows.push(row);
            offset = offset + per_row;
            i += 1;
        }
        if offset != total {
            return Err(Error::serialization("Invalid coefficients"));
        }
        proof {
            assert(rows_of(rows@) =~= want);
        }
        if !all_reduced {
            return Err(Error::serialization("The coefficients are not reduced"));
        }
        Ok(Poly::from_rows(ctx, self.representation, self.allow_variable_time, rows))
    }
}

/// A power of two that is at least 8 is a multiple of 8.
pub proof fn lemma_multiple_of_8(n: usize)
    requires
        vstd::arithmetic::power2::is_pow2(n as int),
        n >= 8,
    ensures
        n % 8 == 0,
{
    reveal(vstd::arithmetic::power2::is_pow2);
    assert(vstd::arithmetic::power2::is_pow2((n / 2) as int));
    assert(vstd::arithmetic::power2::is_pow2((n / 2 / 2) as int));
}

/// The rows take more and more bytes.
pub proof fn lemma_rows_bytes_increase(moduli: Seq<u64>, n: nat, from: nat, to: nat)
    requires
        from <= to,
    ensures
        rows_bytes(moduli, n, from) <= rows_bytes(moduli, n, to),
    decreases to - from,
{
    if from < to {
        lemma_rows_bytes_increase(moduli, n, from, (to - 1) as nat);
    }
}

/// The message of the error for a ciphertext without enough polynomials.
pub open spec fn not_enough_text() -> Seq<char> {
    "Not enough polynomials"@
}

/// Which error, if any, keeps the messages from the index `i` on from being
/// polynomials of a ciphertext over the context.
pub open spec fn polys_error(c: Seq<RqModel>, ctx: Context, i: nat) -> Option<Seq<char>>
    decreases c.len() - i,
{
    if i >= c.len() {
        None
    } else if model_error(c[i as int], ctx, None).is_some() {
        model_error(c[i as int], ctx, None)
    } else if c[i as int].representation != Representation::Ntt {
        Some("The polynomials of a ciphertext are in the transform domain"@)
    } else {
        polys_error(c, ctx, i + 1)
    }
}

/// Which error, if any, keeps what a message holds from being a ciphertext
/// of the parameters.
pub open spec fn proto_error(m: CiphertextModel, par: BfvParameters) -> Option<Seq<char>> {
    let ctx = if m.minimized {
        par.plaintext_ctx()
    } else {
        par.ctx()
    };
    if m.c.len() == 0 || (m.c.len() == 1 && m.seed.len() == 0) {
        Some(not_enough_text())
    } else if polys_error(m.c, ctx, 0).is_some() {
        polys_error(m.c, ctx, 0)
    } else if m.seed.len() != 0 && m.seed.len() != 32 {
        Some("Invalid seed"@)
    } else if m.seed.len() != 0 && m.minimized {
        Some("A minimized ciphertext has no seed"@)
    } else {
        None
    }
}

/// The ciphertext that a message holds: its flag, its seed, and the rows of
/// its polynomials, followed by the rows that the seed yields where there is
/// a seed.
pub open spec fn is_ciphertext_of(ct: &Ciphertext, m: CiphertextModel, par: BfvParameters) -> bool {
    &&& ct.wf()
    &&& ct.par() == par
    &&& ct.minimized() == m.minimized
    &&& ct.seed().is_some() == (m.seed.len() != 0)
    &&& ct.seed() matches Some(seed) ==> seed@ == m.seed
    &&& ct.polys().len() == m.c.len() + (if m.seed.len() != 0 {
        1int
    } else {
        0int
    })
    &&& forall|i: int|
        0 <= i < m.c.len() ==> (#[trigger] ct.polys()[i]).rows() == cut_rows(
            m.c[i].coefficients,
            ct.ctx().moduli(),
            ct.ctx().degree(),
        ) && ct.polys()[i].variable_time()
    &&& m.seed.len() != 0 ==> ct.polys().last().variable_time()
}

/// What the message of a ciphertext holds: the messages of its polynomials,
/// but for the last polynomial of a fresh ciphertext, which the seed stands
/// for.
pub open spec fn message_of(ct: &Ciphertext) -> CiphertextModel {
    CiphertextModel {
        c: Seq::new(
            (if ct.seed().is_some() {
                ct.polys().len() - 1
            } else {
                ct.polys().len() as int
            }) as nat,
            |i: int|
                RqModel {
                    representation: Representation::Ntt,
                    degree: ct.par().spec_degree() as usize,
                    coefficients: packed_rows(
                        ct.polys()[i].rows(),
                        ct.ctx().moduli(),
                        ct.ctx().moduli().len(),
                    ),
                    allow_variable_time: ct.polys()[i].variable_time(),
                },
        ),
        seed: match ct.seed() {
            Some(seed) => seed@,
            None => Seq::empty(),
        },
        minimized: ct.minimized(),
    }
}

impl CiphertextProto {
    /// The message of a ciphertext that holds at least one polynomial: the
    /// messages of its polynomials, but for the last polynomial of a fresh
    /// ciphertext, which the seed stands for.
    pub fn from(ct: &Ciphertext) -> (r: CiphertextProto)
        requires
            ct.wf(),
            ct.polys().len() >= 1,
        ensures
            r.model() == message_of(ct),
    {
        let polys = ct.polynomials();
        let seed = ct.get_seed();
        let count = match seed {
            Some(_) => polys.len() - 1,
            None => polys.len(),
        };
        let mut c: Vec<Rq> = Vec::with_capacity(count);
        let mut i: usize = 0;
        while i < count
            invariant
                ct.wf(),
                i <= count <= polys@.len(),
                polys@ == ct.polys(),
                c@.len() == i,
                forall|l: int|
                    0 <= l < i ==> {
                        &&& (#[trigger] c@[l]).representation == Representation::Ntt
                        &&& c@[l].degree == ct.par().spec_degree()
                        &&& c@[l].allow_variable_time == ct.polys()[l].variable_time()
                        &&& c@[l].coefficients@ == packed_rows(
                            ct.polys()[l].rows(),
                            ct.ctx().moduli(),
                            ct.ctx().moduli().len(),
                        )
                    },
            decreases count - i,
        {
            proof {
                assert(ct.polys()[i as int].wf());
            }
            c.push(Rq::from_poly(&polys[i]));
            i += 1;
        }
        let seed_bytes = match seed {
            Some(s) => seed_to_bytes(&s),
            None => Vec::new(),
        };
        let r = CiphertextProto { c, seed: seed_bytes, minimized: ct.is_minimized() };
        proof {
            assert(ct.ctx().degree() == ct.par().spec_degree());
            assert(r.model().c =~= message_of(ct).c);
        }
        r
    }

    /// The ciphertext of a message, under the parameters. Fails where the
    /// message holds too few polynomials, one of them is not a polynomial of
    /// the context in the transform domain, or the seed is not one.
    pub fn to_ciphertext(&self, par: &Arc<BfvParameters>) -> (r: Result<Ciphertext, String>)
        requires
            par.wf(),
        ensures
            r.is_ok() <==> proto_error(self.model(), **par).is_none(),
            r matches Err(e) ==> proto_error(self.model(), **par) == Some(e@),
            r matches Ok(ct) ==> is_ciphertext_of(&ct, self.model(), **par),
    {
        let count = self.c.len();
        if count == 0 || (count == 1 && self.seed.len() == 0) {
            return Err("Not enough polynomials".to_string());
        }
        let ctx = if self.minimized {
            par.plaintext_context()
        } else {
            par.context()
        };
        let mut c: Vec<Poly> = Vec::with_capacity(count);
        let mut i: usize = 0;
        while i < count
            invariant
                par.wf(),
                ctx.wf(),
                **ctx == (if self.minimized {
                    par.plaintext_ctx()
                } else {
                    par.ctx()
                }),
                i <= count,
                count == self.c@.len(),
                !(count == 0 || (count == 1 && self.seed@.len() == 0)),
                polys_error(self.model().c, **ctx, 0) == polys_error(
                    self.model().c,
                    **ctx,
                    i as nat,
                ),
                c@.len() == i,
                forall|l: int|
                    0 <= l < i ==> (#[trigger] c@[l]).wf() && c@[l].ctx() == **ctx
                        && c@[l].representation() == Representation::Ntt && c@[l].variable_time()
                        && c@[l].rows() == cut_rows(
                        self.c@[l].coefficients@,
                        ctx.moduli(),
                        ctx.degree(),
                    ),
            decreases count - i,
        {
            proof {
                assert(self.model().c[i as int] == self.c@[i as int].model());
            }
            let mut ci = match self.c[i].to_poly(ctx, None) {
                Ok(p) => p,
                Err(e) => {
                    return Err(e.to_string());
                },
            };
            match ci.get_representation() {
                Representation::Ntt => {},
                _ => {
                    return Err(
                        "The polynomials of a ciphertext are in the transform domain".to_string(),
                    );
                },
            }
            ci.allow_variable_time_computations();
            c.push(ci);
            i += 1;
        }
        let mut seed: Option<Seed> = None;
        if self.seed.len() != 0 {
            if self.seed.len() != 32 {
                return Err("Invalid seed".to_string());
            }
            if self.minimized {
                return Err("A minimized ciphertext has no seed".to_string());
            }
            let s = seed_from_bytes(&self.seed);
            let mut c1 = Poly::random_from_seed(ctx, Representation::Ntt, s);
            c1.allow_variable_time_computations();
            c.push(c1);
            seed = Some(s);
        }
        Ok(Ciphertext::from_parts(par, seed, c, self.minimized))
    }
}

/// The bytes of a seed.
pub fn seed_to_bytes(seed: &Seed) -> (r: Vec<u8>)
    ensures
        r@ == seed@,
{
    let mut r: Vec<u8> = Vec::with_capacity(32);
    let mut i: usize = 0;
    while i < 32
        invariant
            i <= 32,
            r@ == seed@.subrange(0, i as int),
        decreases 32 - i,
    {
        r.push(seed[i]);
        proof {
            assert(r@ =~= seed@.subrange(0, i + 1));
        }
        i += 1;
    }
    proof {
        assert(seed@.subrange(0, 32) =~= seed@);
    }
    r
}

/// The seed that 32 bytes make.
pub fn seed_from_bytes(b: &Vec<u8>) -> (r: Seed)
    requires
        b@.len() == 32,
    ensures
        r@ == b@,
{
    let mut r: Seed = [0u8; 32];
    let mut i: usize = 0;
    while i < 32
        invariant
            i <= 32,
            b@.len() == 32,
            forall|j: int| 0 <= j < i ==> r@[j] == b@[j],
        decreases 32 - i,
    {
        r[i] = b[i];
        i += 1;
    }
    proof {
        assert(r@ =~= b@);
    }
    r
}

/// The eight bytes of a number, least significant first.
pub open spec fn le64(v: u64) -> Seq<u8> {
    packed_bytes(seq![v], 64)
}

/// The number that the eight bytes from the position `pos` on stand for.
pub open spec fn read64(b: Seq<u8>, pos: int) -> u64 {
    repacked(widened(b.subrange(pos, pos + 8)), 8, 64)[0]
}

/// The byte that stands for a representation.
pub open spec fn representation_code(r: Representation) -> u8 {
    match r {
        Representation::PowerBasis => 1,
        Representation::Ntt => 2,
        Representation::NttShoup => 3,
    }
}

/// The representation that a byte stands for.
pub open spec fn representation_of(code: u8) -> Representation {
    if code == 1 {
        Representation::PowerBasis
    } else if code == 2 {
        Representation::Ntt
    } else {
        Representation::NttShoup
    }
}

/// The byte that stands for a flag.
pub open spec fn flag(b: bool) -> u8 {
    if b {
        1
    } else {
        0
    }
}

/// The bytes of a message of a polynomial: the representation, the flag of
/// the variable time, the degree, the number of bytes of the rows, and the
/// bytes of the rows.
pub open spec fn rq_bytes(m: RqModel) -> Seq<u8> {
    seq![representation_code(m.representation), flag(m.allow_variable_time)] + le64(m.degree as u64)
        + le64(m.coefficients.len() as u64) + m.coefficients
}

/// The bytes of the first `upto` messages, one after the other.
pub open spec fn rqs_bytes(c: Seq<RqModel>, upto: nat) -> Seq<u8>
    decreases upto,
{
    if upto == 0 {
        Seq::empty()
    } else {
        rqs_bytes(c, (upto - 1) as nat) + rq_bytes(c[upto - 1])
    }
}

/// The bytes of a message of a ciphertext: the flag of the minimization, the
/// flag of the seed, the number of polynomials, their messages, and the
/// seed where there is one.
pub open spec fn ciphertext_bytes(m: CiphertextModel) -> Seq<u8> {
    seq![flag(m.minimized), flag(m.seed.len() != 0)] + le64(m.c.len() as u64) + rqs_bytes(
        m.c,
        m.c.len(),
    ) + m.seed
}

/// The message of a polynomial that stands at the position `pos` of the
/// bytes, with the position behind it.
pub open spec fn parse_rq(b: Seq<u8>, pos: int) -> Option<(RqModel, int)> {
    if pos < 0 || pos + 18 > b.len() {
        None
    } else if !(1 <= b[pos] <= 3) || b[pos + 1] > 1 {
        None
    } else if read64(b, pos + 2) > usize::MAX || read64(b, pos + 10) > b.len() - (pos + 18) {
        None
    } else {
        let len = read64(b, pos + 10) as int;
        Some(
            (
                RqModel {
                    representation: representation_of(b[pos]),
                    degree: read64(b, pos + 2) as usize,
                    coefficients: b.subrange(pos + 18, pos + 18 + len),
                    allow_variable_time: b[pos + 1] == 1,
                },
                pos + 18 + len,
            ),
        )
    }
}

/// The `count` messages of polynomials that stand one after the other from
/// the position `pos` on, with the position behind them.
pub open spec fn parse_rqs(b: Seq<u8>, pos: int, count: nat) -> Option<(Seq<RqModel>, int)>
    decreases count,
{
    if count == 0 {
        Some((Seq::empty(), pos))
    } else {
        match parse_rqs(b, pos, (count - 1) as nat) {
            None => None,
            Some((c, p)) => match parse_rq(b, p) {
                None => None,
                Some((m, q)) => Some((c.push(m), q)),
            },
        }
    }
}

/// The message of a ciphertext that the bytes are, if they are one.
pub open spec fn parse_ciphertext(b: Seq<u8>) -> Option<CiphertextModel> {
    if b.len() < 10 || b[0] > 1 || b[1] > 1 {
        None
    } else {
        match parse_rqs(b, 10, read64(b, 2) as nat) {
            None => None,
            Some((c, p)) => if b[1] == 1 {
                if p + 32 == b.len() {
                    Some(CiphertextModel { c, seed: b.subrange(p, p + 32), minimized: b[0] == 1 })
                } else {
                    None
                }
            } else {
                if p == b.len() {
                    Some(CiphertextModel { c, seed: Seq::empty(), minimized: b[0] == 1 })
                } else {
                    None
                }
            },
        }
    }
}

/// Appends the eight bytes of `v` to `out`.
fn write64(out: &mut Vec<u8>, v: u64)
    ensures
        final(out)@ == old(out)@ + le64(v),
{
    let mut words: Vec<u64> = Vec::with_capacity(1);
    words.push(v);
    proof {
        vstd::arithmetic::power2::lemma2_to64_rest();
        assert(words@ =~= seq![v]);
    }
    let mut bytes = transcode_to_bytes(words.as_slice(), 64);
    out.append(&mut bytes);
}

/// The number that the eight bytes from the position `pos` on stand for.
fn get64(b: &[u8], pos: usize) -> (r: u64)
    requires
        pos + 8 <= b@.len(),
    ensures
        r == read64(b@, pos as int),
{
    let total = b.len();
    let segment = sub_bytes(b, pos, pos + 8);
    let words = transcode_from_bytes(segment.as_slice(), 64);
    proof {
        assert(widened(segment@).len() == 8);
        crate::arith::lemma_div_unique(8 * 8 + 64 - 1, 64, 1);
    }
    words[0]
}

impl Rq {
    /// Appends the bytes of the message to `out`.
    fn write(&self, out: &mut Vec<u8>)
        ensures
            final(out)@ == old(out)@ + rq_bytes(self.model()),
    {
        let ghost start = out@;
        let code: u8 = match self.representation {
            Representation::PowerBasis => 1,
            Representation::Ntt => 2,
            Representation::NttShoup => 3,
        };
        out.push(code);
        out.push(if self.allow_variable_time {
            1
        } else {
            0
        });
        write64(out, self.degree as u64);
        write64(out, self.coefficients.len() as u64);
        let mut bytes = self.coefficients.clone();
        proof {
            assert(bytes@ =~= self.coefficients@);
        }
        out.append(&mut bytes);
        proof {
            assert(out@ =~= start + rq_bytes(self.model()));
        }
    }

    /// The message that stands at the position `pos` of the bytes, with the
    /// position behind it.
    fn read(b: &[u8], pos: usize) -> (r: Option<(Rq, usize)>)
        requires
            pos <= b@.len(),
        ensures
            match parse_rq(b@, pos as int) {
                None => r.is_none(),
                Some((m, p)) => r matches Some((x, q)) && x.model() == m && q == p,
            },
    {
        let total = b.len();
        if total - pos < 18 {
            return None;
        }
        let code = b[pos];
        let vt = b[pos + 1];
        if code < 1 || code > 3 || vt > 1 {
            return None;
        }
        let degree = get64(b, pos + 2);
        let len = get64(b, pos + 10);
        if degree > usize::MAX as u64 || len > (total - (pos + 18)) as u64 {
            return None;
        }
        let start = pos + 18;
        let coefficients = sub_bytes(b, start, start + len as usize);
        let representation = if code == 1 {
            Representation::PowerBasis
        } else if code == 2 {
            Representation::Ntt
        } else {
            Representation::NttShoup
        };
        Some(
            (
                Rq {
                    representation,
                    degree: degree as usize,
                    coefficients,
                    allow_variable_time: vt == 1,
                },
                start + len as usize,
            ),
        )
    }

    /// The bytes of the message.
    pub fn to_bytes(&self) -> (r: Vec<u8>)
        ensures
            r@ == rq_bytes(self.model()),
    {
        let mut out: Vec<u8> = Vec::new();
        self.write(&mut out);
        proof {
            assert(out@ =~= rq_bytes(self.model()));
        }
        out
    }

    /// The message that the bytes are. Fails where they are none.
    pub fn from_bytes(b: &[u8]) -> (r: Result<Rq, Error>)
        ensures
            r.is_ok() <==> (parse_rq(b@, 0) matches Some((m, p)) && p == b@.len()),
            r matches Ok(x) ==> x.model() == parse_rq(b@, 0)->Some_0.0,
            r matches Err(e) ==> e.text() == "This serialization is incorrect"@,
    {
        match Rq::read(b, 0) {
            Some((rq, end)) => {
                if end == b.len() {
                    Ok(rq)
                } else {
                    Err(Error::serialization("This serialization is incorrect"))
                }
            },
            None => Err(Error::serialization("This serialization is incorrect")),
        }
    }
}

impl CiphertextProto {
    /// The bytes of the message.
    pub fn to_bytes(&self) -> (r: Vec<u8>)
        ensures
            r@ == ciphertext_bytes(self.model()),
    {
        let mut out: Vec<u8> = Vec::new();
        out.push(if self.minimized {
            1
        } else {
            0
        });
        out.push(if self.seed.len() != 0 {
            1
        } else {
            0
        });
        write64(&mut out, self.c.len() as u64);
        let ghost head = out@;
        let ghost c = self.model().c;
        let count = self.c.len();
        let mut i: usize = 0;
        while i < count
            invariant
                i <= count,
                count == self.c@.len(),
                c == self.model().c,
                out@ == head + rqs_bytes(c, i as nat),
            decreases count - i,
        {
            self.c[i].write(&mut out);
            proof {
                assert(c[i as int] == self.c@[i as int].model());
                assert(out@ =~= head + rqs_bytes(c, (i + 1) as nat));
            }
            i += 1;
        }
        let mut seed = self.seed.clone();
        proof {
            assert(seed@ =~= self.seed@);
        }
        out.append(&mut seed);
        proof {
            assert(out@ =~= ciphertext_bytes(self.model()));
        }
        out
    }

    /// The message that the bytes are. Fails where they are none.
    pub fn from_bytes(b: &[u8]) -> (r: Result<CiphertextProto, Error>)
        ensures
            r.is_ok() <==> parse_ciphertext(b@).is_some(),
            r matches Ok(x) ==> Some(x.model()) == parse_ciphertext(b@),
            r matches Err(e) ==> e.text() == "This serialization is incorrect"@,
    {
        let total = b.len();
        if total < 10 || b[0] > 1 || b[1] > 1 {
            return Err(Error::serialization("This serialization is incorrect"));
        }
        let count = get64(b, 2);
        let mut c: Vec<Rq> = Vec::new();
        let mut pos: usize = 10;
        let mut i: u64 = 0;
        let ghost mut models: Seq<RqModel> = Seq::empty();
        while i < count
            invariant
                i <= count,
                pos <= total,
                total == b@.len(),
                total >= 10,
                b@[0] <= 1,
                b@[1] <= 1,
                count == read64(b@, 2),
                c@.len() == models.len(),
                forall|l: int| 0 <= l < c@.len() ==> (#[trigger] c@[l]).model() == models[l],
                parse_rqs(b@, 10, i as nat) == Some((models, pos as int)),
            decreases count - i,
        {
            match Rq::read(b, pos) {
                None => {
                    proof {
                        assert(parse_rqs(b@, 10, (i + 1) as nat).is_none());
                        lemma_parse_rqs_fails(b@, 10, (i + 1) as nat, count as nat);
                    }
                    return Err(Error::serialization("This serialization is incorrect"));
                },
                Some((rq, next)) => {
                    proof {
                        models = models.push(rq.model());
                    }
                    c.push(rq);
                    pos = next;
                },
            }
            i += 1;
        }
        let seed = if b[1] == 1 {
            if total - pos != 32 {
                return Err(Error::serialization("This serialization is incorrect"));
            }
            sub_bytes(b, pos, pos + 32)
        } else {
            if pos != total {
                return Err(Error::serialization("This serialization is incorrect"));
            }
            Vec::new()
        };
        let r = CiphertextProto { c, seed, minimized: b[0] == 1 };
        proof {
            assert(r.model().c =~= models);
        }
        Ok(r)
    }
}

/// Where the first messages cannot be read, more of them cannot either.
pub proof fn lemma_parse_rqs_fails(b: Seq<u8>, pos: int, failed: nat, count: nat)
    requires
        failed <= count,
        parse_rqs(b, pos, failed).is_none(),
    ensures
        parse_rqs(b, pos, count).is_none(),
    decreases count - failed,
{
    if failed < count {
        lemma_parse_rqs_fails(b, pos, failed, (count - 1) as nat);
    }
}

impl Poly {
    /// The bytes that the polynomial travels as.
    pub fn to_bytes(&self) -> (r: Vec<u8>)
        requires
            self.wf(),
        ensures
            r@ == rq_bytes(
                RqModel {
                    representation: self.representation(),
                    degree: self.ctx().degree() as usize,
                    coefficients: packed_rows(
                        self.rows(),
                        self.ctx().moduli(),
                        self.ctx().moduli().len(),
                    ),
                    allow_variable_time: self.variable_time(),
                },
            ),
    {
        let rq = Rq::from_poly(self);
        rq.to_bytes()
    }

    /// The polynomial of the context that the bytes are. Fails where the
    /// bytes are no message, or the message is no polynomial of the
    /// context.
    pub fn from_bytes(bytes: &[u8], ctx: &Arc<Context>) -> (r: Result<Poly, Error>)
        requires
            ctx.wf(),
        ensures
            r.is_ok() <==> (parse_rq(bytes@, 0) matches Some((m, p)) && p == bytes@.len()
                && model_error(m, **ctx, None).is_none()),
            r matches Ok(p) ==> {
                let m = parse_rq(bytes@, 0)->Some_0.0;
                &&& p.wf()
                &&& p.ctx() == **ctx
                &&& p.representation() == m.representation
                &&& p.variable_time() == m.allow_variable_time
                &&& p.rows() == cut_rows(m.coefficients, ctx.moduli(), ctx.degree())
            },
    {
        match Rq::from_bytes(bytes) {
            Err(e) => Err(e),
            Ok(rq) => rq.to_poly(ctx, None),
        }
    }
}

impl Ciphertext {
    /// The ciphertext of a message, under the parameters. Fails where the
    /// message holds too few polynomials, one of them is not a polynomial of
    /// the context in the transform domain, or the seed is not one.
    pub fn try_convert_from(value: &CiphertextProto, par: &Arc<BfvParameters>) -> (r: Result<
        Ciphertext,
        String,
    >)
        requires
            par.wf(),
        ensures
            r.is_ok() <==> proto_error(value.model(), **par).is_none(),
            r matches Err(e) ==> proto_error(value.model(), **par) == Some(e@),
            r matches Ok(ct) ==> is_ciphertext_of(&ct, value.model(), **par),
    {
        value.to_ciphertext(par)
    }

    /// The bytes that a ciphertext with at least one polynomial travels as.
    pub fn serialize(&self) -> (r: Vec<u8>)
        requires
            self.wf(),
            self.polys().len() >= 1,
        ensures
            r@ == ciphertext_bytes(message_of(self)),
    {
        CiphertextProto::from(self).to_bytes()
    }

    /// The ciphertext, under the parameters, that the bytes are. Fails
    /// where the bytes are no message, or the message is no ciphertext of
    /// the parameters.
    pub fn try_deserialize(bytes: &[u8], par: &Arc<BfvParameters>) -> (r: Result<Ciphertext, String>)
        requires
            par.wf(),
        ensures
            r.is_ok() <==> (parse_ciphertext(bytes@) matches Some(m) && proto_error(m, **par).is_none()),
            r matches Err(e) ==> (match parse_ciphertext(bytes@) {
                None => e@ == "This serialization is incorrect"@,
                Some(m) => proto_error(m, **par) == Some(e@),
            }),
            r matches Ok(ct) ==> is_ciphertext_of(&ct, parse_ciphertext(bytes@)->Some_0, **par),
    {
        match CiphertextProto::from_bytes(bytes) {
            Ok(ctp) => Ciphertext::try_convert_from(&ctp, par),
            Err(_) => Err("This serialization is incorrect".to_string()),
        }
    }
}

/// The eight bytes of a number are eight, and stand for the number
/// wherever they are.
pub proof fn lemma_read_le64(prefix: Seq<u8>, v: u64, suffix: Seq<u8>)
    ensures
        le64(v).len() == 8,
        read64(prefix + le64(v) + suffix, prefix.len() as int) == v,
{
    vstd::arithmetic::power2::lemma2_to64_rest();
    let a = seq![v];
    assert((a.len() * 64) % 8 == 0);
    assert(crate::transcode::fits(a, 64));
    crate::transcode::lemma_pack_then_cut(a, 64);
    let b = prefix + le64(v) + suffix;
    assert(b.subrange(prefix.len() as int, (prefix.len() + 8) as int) =~= le64(v));
}

/// The bytes of a message of a polynomial are read back as the message,
/// wherever they are.
pub proof fn lemma_parse_rq(prefix: Seq<u8>, m: RqModel, suffix: Seq<u8>)
    requires
        m.coefficients.len() <= u64::MAX,
    ensures
        rq_bytes(m).len() == 18 + m.coefficients.len(),
        parse_rq(prefix + rq_bytes(m) + suffix, prefix.len() as int) == Some(
            (m, (prefix.len() + rq_bytes(m).len()) as int),
        ),
{
    let head = seq![representation_code(m.representation), flag(m.allow_variable_time)];
    let degree = le64(m.degree as u64);
    let len = le64(m.coefficients.len() as u64);
    let b = prefix + rq_bytes(m) + suffix;
    let pos = prefix.len() as int;
    lemma_read_le64(prefix + head, m.degree as u64, len + m.coefficients + suffix);
    lemma_read_le64(prefix + head + degree, m.coefficients.len() as u64, m.coefficients + suffix);
    assert(b =~= (prefix + head) + degree + (len + m.coefficients + suffix));
    assert(b =~= (prefix + head + degree) + len + (m.coefficients + suffix));
    assert(b[pos] == representation_code(m.representation));
    assert(b[pos + 1] == flag(m.allow_variable_time));
    assert(b.subrange(pos + 18, pos + 18 + m.coefficients.len()) =~= m.coefficients);
    let parsed = parse_rq(b, pos)->Some_0.0;
    assert(parsed.representation == m.representation);
    assert(parsed.degree == m.degree);
    assert(parsed.allow_variable_time == m.allow_variable_time);
    assert(parsed.coefficients == m.coefficients);
}

/// The bytes of messages of polynomials, one after the other, are read back
/// as the messages, wherever they are.
pub proof fn lemma_parse_rqs(prefix: Seq<u8>, c: Seq<RqModel>, upto: nat, suffix: Seq<u8>)
    requires
        upto <= c.len(),
        forall|i: int| 0 <= i < c.len() ==> (#[trigger] c[i]).coefficients.len() <= u64::MAX,
    ensures
        parse_rqs(prefix + rqs_bytes(c, upto) + suffix, prefix.len() as int, upto) == Some(
            (c.subrange(0, upto as int), (prefix.len() + rqs_bytes(c, upto).len()) as int),
        ),
    decreases upto,
{
    let b = prefix + rqs_bytes(c, upto) + suffix;
    if upto == 0 {
        assert(c.subrange(0, 0) =~= Seq::<RqModel>::empty());
    } else {
        let before = rqs_bytes(c, (upto - 1) as nat);
        let last = rq_bytes(c[upto - 1]);
        lemma_parse_rqs(prefix, c, (upto - 1) as nat, last + suffix);
        assert(b =~= prefix + before + (last + suffix));
        lemma_parse_rq(prefix + before, c[upto - 1], suffix);
        assert(b =~= (prefix + before) + last + suffix);
        assert(c.subrange(0, upto - 1).push(c[upto - 1]) =~= c.subrange(0, upto as int));
    }
}

/// The bytes of a message of a ciphertext are read back as the message.
pub proof fn lemma_parse_ciphertext(m: CiphertextModel)
    requires
        m.seed.len() == 0 || m.seed.len() == 32,
        m.c.len() <= u64::MAX,
        forall|i: int| 0 <= i < m.c.len() ==> (#[trigger] m.c[i]).coefficients.len() <= u64::MAX,
    ensures
        parse_ciphertext(ciphertext_bytes(m)) == Some(m),
{
    let head = seq![flag(m.minimized), flag(m.seed.len() != 0)];
    let count = le64(m.c.len() as u64);
    let body = rqs_bytes(m.c, m.c.len());
    let b = ciphertext_bytes(m);
    lemma_read_le64(head, m.c.len() as u64, body + m.seed);
    assert(b =~= head + count + (body + m.seed));
    lemma_parse_rqs(head + count, m.c, m.c.len(), m.seed);
    assert(b =~= (head + count) + body + m.seed);
    assert(m.c.subrange(0, m.c.len() as int) =~= m.c);
    assert(b[0] == flag(m.minimized));
    assert(b[1] == flag(m.seed.len() != 0));
    let p = 10 + body.len();
    if m.seed.len() != 0 {
        assert(b.subrange(p as int, (p + 32) as int) =~= m.seed);
    } else {
        assert(m.seed =~= Seq::<u8>::empty());
    }
}

/// The residues modulo `q` have at most as many bits as the largest of
/// them.
pub proof fn lemma_residues_fit(row: Seq<u64>, q: u64)
    requires
        2 <= q < 0x4000_0000_0000_0000,
        reduced(row, q),
    ensures
        1 <= residue_bits(q) <= 64,
        crate::transcode::fits(row, residue_bits(q)),
{
    let top = (q - 1) as u64;
    crate::nfl::lemma_leading_zeros_bounds(top);
    assert forall|i: int| 0 <= i < row.len() implies (#[trigger] row[i])
        < vstd::arithmetic::power2::pow2(residue_bits(q)) by {
        assert(row[i] <= top);
    }
}

/// The bytes of the first rows are the first bytes of the bytes of more
/// rows, and there are as many of them as the rows pack into.
pub proof fn lemma_packed_rows_prefix(
    rows: Seq<Seq<u64>>,
    moduli: Seq<u64>,
    n: nat,
    from: nat,
    to: nat,
)
    requires
        from <= to <= moduli.len(),
        n % 8 == 0,
        crate::rns::all_in_range(moduli),
        rows_in(rows, moduli, n),
    ensures
        packed_rows(rows, moduli, to).len() == rows_bytes(moduli, n, to),
        rows_bytes(moduli, n, from) <= rows_bytes(moduli, n, to),
        packed_rows(rows, moduli, to).subrange(0, rows_bytes(moduli, n, from) as int)
            == packed_rows(rows, moduli, from),
    decreases to,
{
    if to == 0 {
        assert(packed_rows(rows, moduli, 0).subrange(0, 0) =~= packed_rows(rows, moduli, 0));
    } else {
        let i = (to - 1) as int;
        let bits = residue_bits(moduli[i]);
        lemma_residues_fit(rows[i], moduli[i]);
        assert((rows[i].len() * bits) % 8 == 0) by (nonlinear_arith)
            requires
                rows[i].len() == n,
                n % 8 == 0,
        {
            let k = n / 8;
            assert(n == 8 * k);
            assert(n * bits == 8 * (k * bits));
        }
        crate::transcode::lemma_pack_then_cut(rows[i], bits);
        if from < to {
            lemma_packed_rows_prefix(rows, moduli, n, from, (to - 1) as nat);
            assert(packed_rows(rows, moduli, to).subrange(
                0,
                rows_bytes(moduli, n, from) as int,
            ) =~= packed_rows(rows, moduli, (to - 1) as nat).subrange(
                0,
                rows_bytes(moduli, n, from) as int,
            ));
        } else {
            lemma_packed_rows_prefix(rows, moduli, n, (to - 1) as nat, (to - 1) as nat);
            assert(packed_rows(rows, moduli, to).subrange(0, rows_bytes(moduli, n, to) as int)
                =~= packed_rows(rows, moduli, to));
        }
    }
}

/// Packing the rows of a polynomial, and cutting the bytes again, gives the
/// rows back.
pub proof fn lemma_rows_round_trip(rows: Seq<Seq<u64>>, moduli: Seq<u64>, n: nat)
    requires
        n % 8 == 0,
        crate::rns::all_in_range(moduli),
        rows_in(rows, moduli, n),
    ensures
        packed_rows(rows, moduli, moduli.len()).len() == rows_bytes(moduli, n, moduli.len()),
        cut_rows(packed_rows(rows, moduli, moduli.len()), moduli, n) == rows,
{
    let k = moduli.len();
    let bytes = packed_rows(rows, moduli, k);
    let cut = cut_rows(bytes, moduli, n);
    lemma_packed_rows_prefix(rows, moduli, n, k, k);
    assert forall|i: int| 0 <= i < k implies #[trigger] cut[i] == rows[i] by {
        let bits = residue_bits(moduli[i]);
        let start = rows_bytes(moduli, n, i as nat) as int;
        let end = rows_bytes(moduli, n, (i + 1) as nat) as int;
        lemma_packed_rows_prefix(rows, moduli, n, (i + 1) as nat, k);
        lemma_packed_rows_prefix(rows, moduli, n, i as nat, (i + 1) as nat);
        let upto = packed_rows(rows, moduli, (i + 1) as nat);
        assert(bytes.subrange(start, end) =~= upto.subrange(start, end));
        assert(upto.subrange(start, end) =~= packed_bytes(rows[i], bits));
        lemma_residues_fit(rows[i], moduli[i]);
        assert((rows[i].len() * bits) % 8 == 0) by (nonlinear_arith)
            requires
                rows[i].len() == n,
                n % 8 == 0,
        {
            let e = n / 8;
            assert(n == 8 * e);
            assert(n * bits == 8 * (e * bits));
        }
        crate::transcode::lemma_pack_then_cut(rows[i], bits);
    }
    assert(cut =~= rows);
}

/// The message of a well-formed ciphertext is accepted again: no error
/// keeps it from being a ciphertext of the same parameters, as long as
/// the ciphertext holds two polynomials or more.
pub proof fn lemma_message_is_accepted(ct: &Ciphertext)
    requires
        ct.wf(),
        ct.polys().len() >= 2,
    ensures
        proto_error(message_of(ct), ct.par()).is_none(),
        forall|i: int|
            0 <= i < message_of(ct).c.len() ==> cut_rows(
                (#[trigger] message_of(ct).c[i]).coefficients,
                ct.ctx().moduli(),
                ct.ctx().degree(),
            ) == ct.polys()[i].rows(),
{
    let m = message_of(ct);
    let ctx = ct.ctx();
    let moduli = ctx.moduli();
    let n = ctx.degree();
    vstd::arithmetic::power2::is_pow2_equiv(n as int);
    lemma_multiple_of_8(n as usize);
    assert forall|i: int| 0 <= i < m.c.len() implies model_error(#[trigger] m.c[i], ctx, None).is_none()
        && m.c[i].representation == Representation::Ntt && cut_rows(
        m.c[i].coefficients,
        moduli,
        n,
    ) == ct.polys()[i].rows() by {
        assert(ct.polys()[i].wf());
        lemma_rows_round_trip(ct.polys()[i].rows(), moduli, n);
    }
    lemma_polys_error_none(m.c, ctx, 0);
    if ct.seed().is_some() {
        let seed = ct.seed()->Some_0;
        assert(ct.seeded_by(seed));
        assert(seed@.len() == 32);
    }
}

/// A ciphertext of at least two polynomials travels well: its message is
/// one of a ciphertext of its parameters, and a ciphertext of that message
/// holds the same flag, the same seed and the same polynomials.
pub proof fn lemma_ciphertext_round_trip(ct: &Ciphertext, back: &Ciphertext)
    requires
        ct.wf(),
        ct.polys().len() >= 2,
        is_ciphertext_of(back, message_of(ct), ct.par()),
    ensures
        proto_error(message_of(ct), ct.par()).is_none(),
        back.minimized() == ct.minimized(),
        back.seed().is_some() == ct.seed().is_some(),
        back.seed() matches Some(seed) ==> seed@ == ct.seed()->Some_0@,
        back.polys().len() == ct.polys().len(),
        forall|i: int|
            0 <= i < ct.polys().len() ==> (#[trigger] back.polys()[i]).rows() == ct.polys()[i].rows(),
{
    let m = message_of(ct);
    let moduli = ct.ctx().moduli();
    let n = ct.ctx().degree();
    lemma_message_is_accepted(ct);
    assert forall|i: int| 0 <= i < ct.polys().len() implies (#[trigger] back.polys()[i]).rows()
        == ct.polys()[i].rows() by {
        if i < m.c.len() {
            assert(back.polys()[i].rows() == cut_rows(m.c[i].coefficients, moduli, n));
        } else {
            // the last polynomial of a fresh ciphertext comes from the seed
            assert(i == ct.polys().len() - 1);
            assert(back.polys().last() == back.polys()[i]);
            assert(ct.polys().last() == ct.polys()[i]);
            assert(back.seed()->Some_0@ == ct.seed()->Some_0@);
        }
    }
}

/// Where each message is a polynomial in the transform domain, the messages
/// are the polynomials of a ciphertext.
pub proof fn lemma_polys_error_none(c: Seq<RqModel>, ctx: Context, i: nat)
    requires
        forall|l: int|
            0 <= l < c.len() ==> model_error(#[trigger] c[l], ctx, None).is_none()
                && c[l].representation == Representation::Ntt,
    ensures
        polys_error(c, ctx, i).is_none(),
    decreases c.len() - i,
{
    if i < c.len() {
        lemma_polys_error_none(c, ctx, i + 1);
    }
}

} // verus!
