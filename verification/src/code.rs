//! The error-correcting code: a row of field elements is read as the
//! coefficients of a polynomial, and its codeword holds the values of that
//! polynomial on a multiplicative subgroup. The transform is `ark-poly`'s.

use crate::algebra::{combine, dot, lemma_elements, poly_eval, reduce, reduce_seq, vals};
use crate::laws::{lemma_encoding_is_linear, row_values};
use crate::error::Error;
use crate::field::{check_canonical, modulus, Fr};
use crate::merkle::is_pow2;
use ark_bls12_381::Fr as ArkFr;
use ark_ff::{BigInt, PrimeField};
use ark_poly::{EvaluationDomain, GeneralEvaluationDomain};
use vstd::arithmetic::power::pow;
use vstd::prelude::*;

verus! {

/// The longest codeword that the engine works with.
pub const MAX_CODEWORD_LEN: usize = 0x4000_0000;

/// `EvaluationDomain::group_gen` of `ark-poly` on the domain that
/// `GeneralEvaluationDomain::new` makes for `size`: the generator of the
/// subgroup of `size` elements on which codewords are evaluated.
pub uninterp spec fn root_of_unity(size: nat) -> int;

/// Position `j` of the codeword of `msg` in the code of length `size`.
pub open spec fn codeword_at(msg: Seq<int>, size: nat, j: int) -> int {
    reduce(poly_eval(msg, pow(root_of_unity(size), j as nat)))
}

/// The codeword of `msg` in the code of length `size`.
pub open spec fn codeword(msg: Seq<int>, size: nat) -> Seq<int> {
    Seq::new(size, |j: int| codeword_at(msg, size, j))
}

/// `EvaluationDomain::fft` of `ark-poly` on the domain that
/// `GeneralEvaluationDomain::new` makes for `size`: position `j` of the
/// result is the value, at the `j`-th power of the domain's generator, of
/// the polynomial whose coefficients are `msg`.
#[verifier::external_body]
fn fft(msg: &Vec<Fr>, size: usize) -> (cw: Vec<Fr>)
    requires
        forall|i: int| 0 <= i < msg.len() ==> 0 <= (#[trigger] msg[i])@ < modulus(),
        is_pow2(size as int),
        size <= MAX_CODEWORD_LEN,
        msg.len() <= size,
    ensures
        cw.len() == size,
        forall|j: int|
            0 <= j < size ==> (#[trigger] cw[j])@ == reduce(
                poly_eval(vals(msg@), pow(root_of_unity(size as nat), j as nat)),
            ),
{
    let coeffs: Vec<ArkFr> = msg.iter().map(
        |x| ArkFr::from_bigint(BigInt::new(x.to_limbs())).unwrap(),
    ).collect();
    let domain = GeneralEvaluationDomain::<ArkFr>::new(size).unwrap();
    domain.fft(&coeffs).iter().map(|y| Fr::from_limbs(y.into_bigint().0).unwrap()).collect()
}

/// `EvaluationDomain::size` of `ark-poly` on the domain that
/// `GeneralEvaluationDomain::new` makes for `n` coefficients: the smallest
/// power of two that is not below `n`.
#[verifier::external_body]
fn evaluation_domain_size(n: usize) -> (size: usize)
    requires
        1 <= n <= MAX_CODEWORD_LEN,
    ensures
        is_pow2(size as int),
        n <= size < 2 * n,
{
    GeneralEvaluationDomain::<ArkFr>::new(n).unwrap().size()
}

/// The size of the evaluation domain for `n` coefficients: the smallest
/// power of two that is not below `n`. None where `n` is zero or above the
/// longest codeword.
pub fn domain_size(n: usize) -> (r: Option<usize>)
    ensures
        r.is_some() <==> 1 <= n <= MAX_CODEWORD_LEN,
        r.is_some() ==> is_pow2(r.unwrap() as int) && n <= r.unwrap() < 2 * n && r.unwrap()
            <= MAX_CODEWORD_LEN,
{
    if n == 0 || n > MAX_CODEWORD_LEN {
        return None;
    }
    let size = evaluation_domain_size(n);
    proof {
        lemma_pow2_below(size as int, n as int);
    }
    Some(size)
}

/// A power of two below twice a number that is at most `2^30` is at most
/// `2^30`.
proof fn lemma_pow2_below(size: int, n: int)
    requires
        is_pow2(size),
        n <= size < 2 * n,
        n <= 0x4000_0000,
    ensures
        size <= 0x4000_0000,
{
    lemma_max_is_pow2();
    lemma_pow2_gap(size, 0x4000_0000);
}

/// Between a power of two and its double lies no other power of two.
pub proof fn lemma_pow2_gap(a: int, b: int)
    requires
        is_pow2(a),
        is_pow2(b),
        a < 2 * b,
    ensures
        a <= b,
    decreases a,
{
    if a > 1 && b > 1 {
        lemma_pow2_gap(a / 2, b / 2);
    }
}

/// `2^30` is a power of two.
pub proof fn lemma_max_is_pow2()
    ensures
        is_pow2(0x4000_0000),
{
    reveal_with_fuel(is_pow2, 32);
}

/// A Reed-Solomon code: messages of `message_len` symbols, codewords of
/// `codeword_len` symbols.
#[derive(Clone, Copy, Debug, PartialEq, Eq, Structural)]
pub struct ReedSolomon {
    message_len: usize,
    codeword_len: usize,
}

impl ReedSolomon {
    #[verifier::type_invariant]
    pub closed spec fn wf(self) -> bool {
        &&& 1 <= self.message_len <= self.codeword_len
        &&& self.codeword_len <= MAX_CODEWORD_LEN
        &&& is_pow2(self.codeword_len as int)
    }

    /// The code with the given lengths of messages and codewords.
    pub closed spec fn with_lengths(message_len: nat, codeword_len: nat) -> ReedSolomon {
        ReedSolomon { message_len: message_len as usize, codeword_len: codeword_len as usize }
    }

    /// The length of a message.
    pub closed spec fn message_len_spec(self) -> nat {
        self.message_len as nat
    }

    /// The length of a codeword.
    pub closed spec fn codeword_len_spec(self) -> nat {
        self.codeword_len as nat
    }

    /// The code for messages of `message_len` symbols whose codewords are
    /// `rho_inv` times as long, rounded up to a power of two.
    pub fn new(message_len: usize, rho_inv: usize) -> (r: Result<ReedSolomon, Error>)
        ensures
            r.is_ok() <==> message_len >= 1 && rho_inv >= 2 && message_len * rho_inv
                <= MAX_CODEWORD_LEN,
            r.is_err() ==> r == Err::<ReedSolomon, Error>(Error::InvalidParameters),
            r.is_ok() ==> {
                let code = r.unwrap();
                &&& code.wf()
                &&& code == Self::with_lengths(message_len as nat, code.codeword_len_spec())
                &&& code.message_len_spec() == message_len
                &&& code.codeword_len_spec() <= MAX_CODEWORD_LEN
                &&& is_pow2(code.codeword_len_spec() as int)
                &&& message_len * rho_inv <= code.codeword_len_spec() < 2 * (message_len
                    * rho_inv)
            },
    {
        if message_len == 0 || rho_inv < 2 {
            return Err(Error::InvalidParameters);
        }
        let stretched = match message_len.checked_mul(rho_inv) {
            Some(s) => s,
            None => {
                return Err(Error::InvalidParameters);
            },
        };
        proof {
            assert(message_len <= message_len * rho_inv) by (nonlinear_arith)
                requires
                    message_len >= 1,
                    rho_inv >= 2,
            ;
        }
        let codeword_len = match domain_size(stretched) {
            Some(s) => s,
            None => {
                return Err(Error::InvalidParameters);
            },
        };
        Ok(ReedSolomon { message_len, codeword_len })
    }

    /// The length of a message.
    pub fn message_len(&self) -> (n: usize)
        ensures
            n == self.message_len_spec(),
            1 <= n <= self.codeword_len_spec(),
    {
        proof {
            use_type_invariant(self);
        }
        self.message_len
    }

    /// The length of a codeword.
    pub fn codeword_len(&self) -> (n: usize)
        ensures
            n == self.codeword_len_spec(),
            is_pow2(n as int),
            self.message_len_spec() <= n <= MAX_CODEWORD_LEN,
    {
        proof {
            use_type_invariant(self);
        }
        self.codeword_len
    }

    /// The codeword of `row`. A row that is not exactly one message long is
    /// refused.
    pub fn encode(&self, row: &Vec<Fr>) -> (r: Result<Vec<Fr>, Error>)
        ensures
            r.is_err() <==> row.len() != self.message_len_spec(),
            r.is_err() ==> r == Err::<Vec<Fr>, Error>(Error::InvalidInputLength),
            r.is_ok() ==> {
                &&& r.unwrap().len() == self.codeword_len_spec()
                &&& vals(r.unwrap()@) == codeword(vals(row@), self.codeword_len_spec())
            },
    {
        proof {
            use_type_invariant(self);
        }
        if row.len() != self.message_len {
            return Err(Error::InvalidInputLength);
        }
        check_canonical(row);
        let cw = fft(row, self.codeword_len);
        proof {
            assert(vals(cw@) =~= codeword(vals(row@), self.codeword_len_spec()));
        }
        Ok(cw)
    }
}

/// A linear code: what the commitment scheme asks of the code that it
/// encodes the rows of the matrix with.
pub trait LinearCode: Sized {
    /// Whether the parts of the code fit each other.
    spec fn consistent(&self) -> bool;

    /// The length of a message.
    spec fn input_length(&self) -> nat;

    /// The length of a codeword.
    spec fn output_length(&self) -> nat;

    /// The codeword of a message with the values `msg`.
    spec fn codeword_of(&self, msg: Seq<int>) -> Seq<int>;

    /// The length of a message.
    fn input_len(&self) -> (n: usize)
        ensures
            n == self.input_length(),
            self.consistent(),
    ;

    /// The length of a codeword.
    fn output_len(&self) -> (n: usize)
        ensures
            n == self.output_length(),
            self.consistent(),
    ;

    /// The codeword of `row`. A row that is not exactly one message long
    /// is refused.
    fn encode_row(&self, row: &Vec<Fr>) -> (r: Result<Vec<Fr>, Error>)
        ensures
            r.is_err() <==> row.len() != self.input_length(),
            r.is_err() ==> r == Err::<Vec<Fr>, Error>(Error::InvalidInputLength),
            r.is_ok() ==> {
                &&& r.unwrap().len() == self.output_length()
                &&& vals(r.unwrap()@) == self.codeword_of(vals(row@))
            },
    ;

    /// The code is linear: the combination of the codewords of the rows is
    /// the codeword of the combination of the rows, symbol by symbol.
    proof fn lemma_linear(&self, coeffs: Seq<int>, rows: Seq<Seq<int>>, j: int)
        requires
            self.consistent(),
            coeffs.len() == rows.len(),
            forall|i: int| 0 <= i < rows.len() ==> (#[trigger] rows[i]).len() == self.input_length(),
            0 <= j < self.output_length(),
        ensures
            reduce(dot(coeffs, Seq::new(rows.len(), |i: int| self.codeword_of(rows[i])[j])))
                == self.codeword_of(reduce_seq(combine(coeffs, rows, self.input_length())))[j],
    ;
}

/// Encoding is a function: under any code, rows with the same values
/// have the same codeword.
pub proof fn law_encoding_is_deterministic<C: LinearCode>(
    code: C,
    row: Seq<Fr>,
    again: Seq<Fr>,
    cw: Seq<Fr>,
    cw_again: Seq<Fr>,
)
    requires
        vals(row) == vals(again),
        vals(cw) == code.codeword_of(vals(row)),
        vals(cw_again) == code.codeword_of(vals(again)),
    ensures
        cw == cw_again,
{
    lemma_elements(cw);
    lemma_elements(cw_again);
}

impl LinearCode for ReedSolomon {
    open spec fn consistent(&self) -> bool {
        true
    }

    open spec fn input_length(&self) -> nat {
        self.message_len_spec()
    }

    open spec fn output_length(&self) -> nat {
        self.codeword_len_spec()
    }

    open spec fn codeword_of(&self, msg: Seq<int>) -> Seq<int> {
        codeword(msg, self.codeword_len_spec())
    }

    fn input_len(&self) -> (n: usize) {
        self.message_len()
    }

    fn output_len(&self) -> (n: usize) {
        self.codeword_len()
    }

    fn encode_row(&self, row: &Vec<Fr>) -> (r: Result<Vec<Fr>, Error>) {
        self.encode(row)
    }

    proof fn lemma_linear(&self, coeffs: Seq<int>, rows: Seq<Seq<int>>, j: int) {
        let x = pow(root_of_unity(self.codeword_len_spec()), j as nat);
        assert(Seq::new(rows.len(), |i: int| self.codeword_of(rows[i])[j]) =~= row_values(rows, x));
        lemma_encoding_is_linear(coeffs, rows, self.message_len_spec(), x);
    }
}

} // verus!
