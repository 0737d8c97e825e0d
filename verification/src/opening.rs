//! Openings and their verification: the combination of the rows that the
//! prover sends, the sampled columns with their paths, and the checks that
//! the verifier makes on them.

use crate::algebra::{combine, dot, powers, reduce, reduce_seq, vals};
use crate::code::{lemma_pow2_gap, LinearCode, ReedSolomon, MAX_CODEWORD_LEN};
use crate::commit::{all_below, opens, Commitment, CommitmentState, MAX_RHO_INV};
use crate::error::Error;
use crate::field::Fr;
use crate::hashing::{FieldToBytesColHasher, TestMerkleTreeParams};
use crate::layout::{lemma_reduce_pow, power, power_sequence};
use crate::linalg::inner_product;
use crate::merkle::{is_pow2, MerklePath};
use crate::params::{query_count, queries, Security, VerifierKey};
use vstd::arithmetic::div_mod::lemma_fundamental_div_mod_converse;
use vstd::arithmetic::power::{lemma_pow_multiplies, pow};
use vstd::prelude::*;

verus! {

/// One opening: a combination of the rows of the matrix, and the sampled
/// columns of the encoded matrix, each with its path to the root.
#[derive(Clone, Debug)]
pub struct Opening {
    pub v: Vec<Fr>,
    pub columns: Vec<Vec<Fr>>,
    pub paths: Vec<MerklePath>,
}

/// The proof of one evaluation: the opening for the evaluation, and the
/// opening for the well-formedness test where that test is run.
#[derive(Clone, Debug)]
pub struct Proof {
    pub opening: Opening,
    pub well_formedness: Option<Opening>,
}

/// The challenges of one evaluation: the sampled columns, and for the
/// well-formedness test the coefficients of the rows and the columns
/// sampled for it.
#[derive(Clone, Debug)]
pub struct Challenges {
    pub indices: Vec<usize>,
    pub well_formedness: Option<(Vec<Fr>, Vec<usize>)>,
}

impl Challenges {
    /// The challenge of the well-formedness test, where there is one: the
    /// coefficients of the rows and the sampled columns.
    pub open spec fn wf_view(self) -> Option<(Seq<Fr>, Seq<usize>)> {
        match self.well_formedness {
            Some(w) => Some((w.0@, w.1@)),
            None => None,
        }
    }
}

/// The coefficients with which the rows are combined to evaluate the
/// polynomial number `which` at `z`: the powers `z^(cols * q)` for row `q`
/// of its block, and zero for every row of another polynomial.
pub open spec fn row_coeffs(z: int, n_polys: int, block: int, cols: int, which: int) -> Seq<int> {
    Seq::new(
        (n_polys * block) as nat,
        |r: int|
            if r / block == which {
                pow(z, (cols * (r % block)) as nat)
            } else {
                0
            },
    )
}

/// The coefficients with which the rows are combined to evaluate the
/// polynomial number `which` at `z`.
pub fn row_coefficients(z: &Fr, n_polys: usize, block: usize, cols: usize, which: usize) -> (b: Vec<
    Fr,
>)
    requires
        block >= 1,
        which < n_polys,
        n_polys * block <= usize::MAX,
    ensures
        b.len() == n_polys * block,
        vals(b@) == reduce_seq(row_coeffs(z@, n_polys as int, block as int, cols as int, which as int)),
{
    let step = power(z, cols);
    let steps = power_sequence(&step, block);
    let ghost want = reduce_seq(
        row_coeffs(z@, n_polys as int, block as int, cols as int, which as int),
    );
    let mut b: Vec<Fr> = Vec::new();
    let mut i: usize = 0;
    while i < n_polys
        invariant
            i <= n_polys,
            block >= 1,
            which < n_polys,
            n_polys * block <= usize::MAX,
            steps.len() == block,
            step@ == reduce(pow(z@, cols as nat)),
            forall|q: int| 0 <= q < block ==> (#[trigger] steps[q])@ == reduce(pow(step@, q as nat)),
            want == reduce_seq(
                row_coeffs(z@, n_polys as int, block as int, cols as int, which as int),
            ),
            b.len() == i * block,
            forall|r: int| 0 <= r < b.len() ==> (#[trigger] b[r])@ == want[r],
        decreases n_polys - i,
    {
        let mut q: usize = 0;
        proof {
            assert((i + 1) * block <= n_polys * block) by (nonlinear_arith)
                requires
                    i + 1 <= n_polys,
                    block >= 0,
            ;
            assert((i + 1) * block == i * block + block) by (nonlinear_arith);
        }
        while q < block
            invariant
                q <= block,
                i < n_polys,
                block >= 1,
                (i + 1) * block <= n_polys * block,
                (i + 1) * block == i * block + block,
                n_polys * block <= usize::MAX,
                steps.len() == block,
                step@ == reduce(pow(z@, cols as nat)),
                forall|k: int|
                    0 <= k < block ==> (#[trigger] steps[k])@ == reduce(pow(step@, k as nat)),
                want == reduce_seq(
                    row_coeffs(z@, n_polys as int, block as int, cols as int, which as int),
                ),
                b.len() == i * block + q,
                forall|r: int| 0 <= r < b.len() ==> (#[trigger] b[r])@ == want[r],
            decreases block - q,
        {
            let x = if i == which {
                steps[q]
            } else {
                Fr::zero()
            };
            let ghost before = b@;
            proof {
                let r = i * block + q;
                assert(0 <= i * block) by (nonlinear_arith)
                    requires
                        0 <= i,
                        0 <= block,
                ;
                lemma_fundamental_div_mod_converse(r, block as int, i as int, q as int);
                if i == which {
                    lemma_reduce_pow(pow(z@, cols as nat), q as nat);
                    lemma_pow_multiplies(z@, cols as nat, q as nat);
                    assert(cols * q == (cols * q) as nat) by (nonlinear_arith)
                        requires
                            cols >= 0,
                            q >= 0,
                    ;
                }
                assert(x@ == want[r]);
            }
            b.push(x);
            proof {
                assert forall|r: int| 0 <= r < b.len() implies (#[trigger] b[r])@ == want[r] by {
                    if r < before.len() {
                        assert(b[r] == before[r]);
                    }
                }
            }
            q += 1;
        }
        i += 1;
    }
    proof {
        assert(vals(b@) =~= want);
    }
    b
}

/// The coefficients with which the entries of the combined row are
/// combined to evaluate at `z`: the first `cols` powers of `z`.
pub fn column_coefficients(z: &Fr, cols: usize) -> (a: Vec<Fr>)
    ensures
        a.len() == cols,
        vals(a@) == reduce_seq(powers(z@, cols as nat)),
{
    let a = power_sequence(z, cols);
    proof {
        assert(vals(a@) =~= reduce_seq(powers(z@, cols as nat)));
    }
    a
}

/// Whether the parts of an opening have the lengths that the commitment
/// and the number `t` of sampled columns fix.
pub open spec fn shape_ok(c: Commitment, t: int, coeffs: Seq<int>, o: Opening) -> bool {
    &&& coeffs.len() == c.n_rows
    &&& o.v.len() == c.n_cols
    &&& o.columns.len() == t
    &&& o.paths.len() == t
    &&& forall|j: int| 0 <= j < t ==> #[trigger] column_len_ok(c, o, j)
}

/// Whether the opened column `j` has one entry for every row.
pub open spec fn column_len_ok(c: Commitment, o: Opening, j: int) -> bool {
    o.columns[j].len() == c.n_rows
}

/// Whether the sampled index `j` is that of a column, and the one that
/// path `j` speaks of.
pub open spec fn index_ok(c: Commitment, o: Opening, indices: Seq<usize>, j: int) -> bool {
    indices[j] < c.n_ext_cols && o.paths[j].leaf_index == indices[j]
}

/// Whether path `j` leads from the digest of column `j` to the root.
pub open spec fn path_ok(c: Commitment, o: Opening, j: int) -> bool {
    o.paths[j].root_from::<TestMerkleTreeParams>(FieldToBytesColHasher::digest(vals(o.columns[j]@))) == c.root@
}

/// Whether the codeword of the combined row agrees with column `j`: at the
/// sampled position it holds the combination of the column's entries.
pub open spec fn column_ok<C: LinearCode>(
    code: C,
    coeffs: Seq<int>,
    o: Opening,
    indices: Seq<usize>,
    j: int,
) -> bool {
    reduce(dot(coeffs, vals(o.columns[j]@))) == code.codeword_of(vals(o.v@))[indices[j] as int]
}

/// What the verifier makes of an opening for the row coefficients `coeffs`
/// and the sampled `indices`: the first of the checks that fails, in the
/// order lengths, indices, paths, columns. A column that disagrees is
/// reported as `mismatch`.
pub open spec fn opening_verdict<C: LinearCode>(
    code: C,
    c: Commitment,
    t: int,
    coeffs: Seq<int>,
    o: Opening,
    indices: Seq<usize>,
    mismatch: Error,
) -> Result<(), Error> {
    if !shape_ok(c, t, coeffs, o) {
        Err(Error::InvalidInputLength)
    } else if indices.len() != t || exists|j: int|
        0 <= j < t && !#[trigger] index_ok(c, o, indices, j) {
        Err(Error::TranscriptDesync)
    } else if exists|j: int| 0 <= j < t && !#[trigger] path_ok(c, o, j) {
        Err(Error::MerkleMismatch)
    } else if exists|j: int| 0 <= j < t && !#[trigger] column_ok(code, coeffs, o, indices, j) {
        Err(mismatch)
    } else {
        Ok(())
    }
}

/// Checks an opening: the lengths of its parts, that its paths speak of
/// the sampled columns, that they lead to the root, and that the codeword
/// of the combined row agrees with every opened column.
pub fn verify_opening<C: LinearCode>(
    c: &Commitment,
    code: &C,
    t: usize,
    coeffs: &Vec<Fr>,
    o: &Opening,
    indices: &Vec<usize>,
    mismatch: Error,
) -> (r: Result<(), Error>)
    requires
        code.input_length() == c.n_cols,
        code.output_length() == c.n_ext_cols,
    ensures
        r == opening_verdict(*code, *c, t as int, vals(coeffs@), *o, indices@, mismatch),
{
    if coeffs.len() != c.n_rows || o.v.len() != c.n_cols || o.columns.len() != t || o.paths.len()
        != t {
        return Err(Error::InvalidInputLength);
    }
    let mut j: usize = 0;
    while j < t
        invariant
            j <= t,
            o.columns.len() == t,
            forall|l: int| 0 <= l < j ==> #[trigger] column_len_ok(*c, *o, l),
        decreases t - j,
    {
        if o.columns[j].len() != c.n_rows {
            proof {
                assert(!column_len_ok(*c, *o, j as int));
            }
            return Err(Error::InvalidInputLength);
        }
        j += 1;
    }
    proof {
        assert(shape_ok(*c, t as int, vals(coeffs@), *o));
    }
    if indices.len() != t {
        return Err(Error::TranscriptDesync);
    }
    j = 0;
    while j < t
        invariant
            j <= t,
            o.paths.len() == t,
            indices.len() == t,
            shape_ok(*c, t as int, vals(coeffs@), *o),
            forall|l: int| 0 <= l < j ==> #[trigger] index_ok(*c, *o, indices@, l),
        decreases t - j,
    {
        if indices[j] >= c.n_ext_cols || o.paths[j].leaf_index != indices[j] {
            proof {
                assert(!index_ok(*c, *o, indices@, j as int));
            }
            return Err(Error::TranscriptDesync);
        }
        j += 1;
    }
    j = 0;
    while j < t
        invariant
            j <= t,
            o.paths.len() == t,
            o.columns.len() == t,
            indices.len() == t,
            shape_ok(*c, t as int, vals(coeffs@), *o),
            forall|l: int| 0 <= l < t ==> #[trigger] index_ok(*c, *o, indices@, l),
            forall|l: int| 0 <= l < j ==> #[trigger] path_ok(*c, *o, l),
        decreases t - j,
    {
        let leaf = FieldToBytesColHasher::evaluate(&(), &o.columns[j]).unwrap();
        if !o.paths[j].verify::<TestMerkleTreeParams>(&c.root, &leaf) {
            proof {
                assert(!path_ok(*c, *o, j as int));
            }
            return Err(Error::MerkleMismatch);
        }
        j += 1;
    }
    let w = code.encode_row(&o.v).unwrap();
    j = 0;
    while j < t
        invariant
            j <= t,
            o.columns.len() == t,
            indices.len() == t,
            w.len() == c.n_ext_cols,
            vals(w@) == code.codeword_of(vals(o.v@)),
            shape_ok(*c, t as int, vals(coeffs@), *o),
            forall|l: int| 0 <= l < t ==> #[trigger] index_ok(*c, *o, indices@, l),
            forall|l: int| 0 <= l < t ==> #[trigger] path_ok(*c, *o, l),
            forall|l: int|
                0 <= l < j ==> #[trigger] column_ok(*code, vals(coeffs@), *o, indices@, l),
        decreases t - j,
    {
        let x = inner_product(coeffs, &o.columns[j]);
        proof {
            assert(index_ok(*c, *o, indices@, j as int));
        }
        let y = w[indices[j]];
        proof {
            assert(y@ == vals(w@)[indices[j as int] as int]);
            if x@ == y@ {
                Fr::lemma_view_injective(x, y);
            }
        }
        if x != y {
            proof {
                assert(!column_ok(*code, vals(coeffs@), *o, indices@, j as int));
            }
            return Err(mismatch);
        }
        j += 1;
    }
    Ok(())
}

/// Whether the shape that a commitment declares fits the code: the
/// matrix is as wide as a message is long, the encoded matrix as wide as a
/// codeword is long, there is a polynomial, and the rows divide evenly
/// among the polynomials.
pub open spec fn shape_fits<C: LinearCode>(code: C, c: Commitment) -> bool {
    &&& c.n_cols == code.input_length()
    &&& c.n_ext_cols == code.output_length()
    &&& 1 <= c.n_polys <= c.n_rows
    &&& c.n_rows as int % c.n_polys as int == 0
}

/// Whether the combined row of an opening gives `value` at `z`.
pub open spec fn evaluates_to(cols: nat, z: int, value: int, o: Opening) -> bool {
    reduce(dot(vals(o.v@), reduce_seq(powers(z, cols)))) == value
}

/// What the verifier makes of the well-formedness part of a proof.
pub open spec fn well_formedness_verdict<C: LinearCode>(
    code: C,
    sec: Security,
    c: Commitment,
    t: int,
    proof: Proof,
    wf: Option<(Seq<Fr>, Seq<usize>)>,
) -> Result<(), Error> {
    if !sec.check_well_formedness {
        Ok(())
    } else {
        match proof.well_formedness {
            None => Err(Error::InvalidInputLength),
            Some(o) => match wf {
                None => Err(Error::TranscriptDesync),
                Some(challenge) => opening_verdict(
                    code,
                    c,
                    t,
                    vals(challenge.0),
                    o,
                    challenge.1,
                    Error::ProximityFailure,
                ),
            },
        }
    }
}

/// What the verifier makes of a proof that the polynomial number `which`
/// of the commitment has the value `value` at `z`: an error for a
/// commitment that does not fit the code or parameters under which no
/// number of columns reaches the security level, then the first of the
/// checks that fails, and at last whether the combined row gives the
/// claimed value.
pub open spec fn check_verdict<C: LinearCode>(
    code: C,
    sec: Security,
    c: Commitment,
    which: int,
    z: int,
    value: int,
    proof: Proof,
    indices: Seq<usize>,
    wf: Option<(Seq<Fr>, Seq<usize>)>,
) -> Result<bool, Error> {
    if !shape_fits(code, c) || which >= c.n_polys {
        Err(Error::InvalidParameters)
    } else {
        match queries(sec, c.n_ext_cols as int) {
            None => Err(Error::InvalidParameters),
            Some(t) => {
                let b = reduce_seq(
                    row_coeffs(z, c.n_polys as int, c.block(), c.n_cols as int, which),
                );
                match opening_verdict(
                    code,
                    c,
                    t as int,
                    b,
                    proof.opening,
                    indices,
                    Error::CodewordInconsistency,
                ) {
                    Err(e) => Err(e),
                    Ok(_) => match well_formedness_verdict(code, sec, c, t as int, proof, wf) {
                        Err(e) => Err(e),
                        Ok(_) => Ok(evaluates_to(c.n_cols as nat, z, value, proof.opening)),
                    },
                }
            },
        }
    }
}

/// Checks, under a code and the given challenges, a proof that the
/// polynomial number `which` of the commitment has the value `value` at
/// `z`.
pub fn check_with_code<C: LinearCode>(
    code: &C,
    sec: &Security,
    c: &Commitment,
    which: usize,
    z: &Fr,
    value: &Fr,
    proof: &Proof,
    ch: &Challenges,
) -> (r: Result<bool, Error>)
    ensures
        r == check_verdict(
            *code,
            *sec,
            *c,
            which as int,
            z@,
            value@,
            *proof,
            ch.indices@,
            ch.wf_view(),
        ),
{
    if c.n_cols != code.input_len() || c.n_ext_cols != code.output_len() || c.n_polys < 1
        || c.n_polys > c.n_rows || c.n_rows % c.n_polys != 0 || which >= c.n_polys {
        return Err(Error::InvalidParameters);
    }
    let t = match query_count(sec.sec_param, (sec.distance_num, sec.distance_den), c.n_ext_cols) {
        Ok(t) => t,
        Err(_) => {
            return Err(Error::InvalidParameters);
        },
    };
    let block: usize = c.n_rows / c.n_polys;
    proof {
        assert(c.n_polys * block == c.n_rows) by (nonlinear_arith)
            requires
                block == c.n_rows as int / c.n_polys as int,
                c.n_rows as int % c.n_polys as int == 0,
                c.n_polys >= 1,
        ;
        assert(block >= 1) by (nonlinear_arith)
            requires
                c.n_polys * block == c.n_rows,
                c.n_rows >= c.n_polys,
                c.n_polys >= 1,
                block >= 0,
        ;
    }
    let b = row_coefficients(z, c.n_polys, block, c.n_cols, which);
    match verify_opening(c, code, t, &b, &proof.opening, &ch.indices, Error::CodewordInconsistency) {
        Ok(_) => {},
        Err(e) => {
            return Err(e);
        },
    }
    if sec.check_well_formedness {
        let o = match &proof.well_formedness {
            Some(o) => o,
            None => {
                return Err(Error::InvalidInputLength);
            },
        };
        let challenge = match &ch.well_formedness {
            Some(challenge) => challenge,
            None => {
                return Err(Error::TranscriptDesync);
            },
        };
        match verify_opening(c, code, t, &challenge.0, o, &challenge.1, Error::ProximityFailure) {
            Ok(_) => {},
            Err(e) => {
                return Err(e);
            },
        }
    }
    let a = column_coefficients(z, c.n_cols);
    let y = inner_product(&proof.opening.v, &a);
    proof {
        if y@ == value@ {
            Fr::lemma_view_injective(y, *value);
        }
    }
    Ok(y == *value)
}

/// Whether the shape that a commitment declares fits the key of the
/// Reed-Solomon scheme: the rate is one that the engine works with, and
/// the length of a codeword is the one that the code has for this width.
pub open spec fn metadata_ok(vk: VerifierKey, c: Commitment) -> bool {
    &&& 2 <= vk.rho_inv <= MAX_RHO_INV
    &&& 1 <= c.n_cols
    &&& c.n_cols * vk.rho_inv <= MAX_CODEWORD_LEN
    &&& is_pow2(c.n_ext_cols as int)
    &&& c.n_cols * vk.rho_inv <= c.n_ext_cols < 2 * (c.n_cols * vk.rho_inv)
}

/// The Reed-Solomon code that a commitment was made with.
pub open spec fn code_of(c: Commitment) -> ReedSolomon {
    ReedSolomon::with_lengths(c.n_cols as nat, c.n_ext_cols as nat)
}

/// The Reed-Solomon code that a commitment was made with under a key.
/// Refuses a commitment whose shape does not fit the key.
pub fn code_for(vk: &VerifierKey, c: &Commitment) -> (r: Result<ReedSolomon, Error>)
    ensures
        r.is_ok() <==> metadata_ok(*vk, *c),
        r matches Err(e) ==> e == Error::InvalidParameters,
        r matches Ok(code) ==> code == code_of(*c) && code.input_length() == c.n_cols
            && code.output_length() == c.n_ext_cols,
{
    if vk.rho_inv < 2 || vk.rho_inv > MAX_RHO_INV || c.n_cols < 1 {
        return Err(Error::InvalidParameters);
    }
    let code = match ReedSolomon::new(c.n_cols, vk.rho_inv) {
        Ok(code) => code,
        Err(_) => {
            return Err(Error::InvalidParameters);
        },
    };
    if code.codeword_len() != c.n_ext_cols {
        proof {
            if is_pow2(c.n_ext_cols as int) && c.n_cols * vk.rho_inv <= c.n_ext_cols < 2 * (c.n_cols
                * vk.rho_inv) {
                lemma_pow2_gap(c.n_ext_cols as int, code.codeword_len_spec() as int);
                lemma_pow2_gap(code.codeword_len_spec() as int, c.n_ext_cols as int);
            }
        }
        return Err(Error::InvalidParameters);
    }
    Ok(code)
}

/// Checks, with the Reed-Solomon code and under the given challenges, a
/// proof that the polynomial number `which` of the commitment has the
/// value `value` at `z`. Refuses a commitment whose shape does not fit
/// the key.
pub fn check_with_challenges(
    vk: &VerifierKey,
    c: &Commitment,
    which: usize,
    z: &Fr,
    value: &Fr,
    proof: &Proof,
    ch: &Challenges,
) -> (r: Result<bool, Error>)
    ensures
        r == (if !metadata_ok(*vk, *c) {
            Err(Error::InvalidParameters)
        } else {
            check_verdict(
                code_of(*c),
                vk.security_spec(),
                *c,
                which as int,
                z@,
                value@,
                *proof,
                ch.indices@,
                ch.wf_view(),
            )
        }),
{
    let code = match code_for(vk, c) {
        Ok(code) => code,
        Err(e) => {
            return Err(e);
        },
    };
    check_with_code(&code, &vk.security(), c, which, z, value, proof, ch)
}

/// Whether `o` is the opening that the committer's state gives for the row
/// coefficients `coeffs` and the sampled `indices`.
pub open spec fn opened_honestly(
    st: CommitmentState,
    coeffs: Seq<int>,
    indices: Seq<usize>,
    o: Opening,
) -> bool {
    &&& o.v.len() == st.n_cols()
    &&& vals(o.v@) == reduce_seq(combine(coeffs, st.matrix(), st.n_cols()))
    &&& o.columns.len() == indices.len()
    &&& o.paths.len() == indices.len()
    &&& forall|j: int|
        0 <= j < indices.len() ==> opens(st, #[trigger] indices[j] as int, o.columns[j]@, o.paths[j])
}

/// The opening for the row coefficients `coeffs` and the sampled
/// `indices`.
pub fn open_rows(st: &CommitmentState, coeffs: &Vec<Fr>, indices: &Vec<usize>) -> (r: Result<
    Opening,
    Error,
>)
    ensures
        r.is_ok() <==> coeffs.len() == st.n_rows() && all_below(indices@, st.n_ext_cols()),
        r matches Err(e) ==> e == (if coeffs.len() != st.n_rows() {
            Error::InvalidInputLength
        } else {
            Error::TranscriptDesync
        }),
        r matches Ok(o) ==> opened_honestly(*st, vals(coeffs@), indices@, o),
{
    let v = match st.combine(coeffs) {
        Ok(v) => v,
        Err(e) => {
            return Err(e);
        },
    };
    let (columns, paths) = match st.open_columns(indices) {
        Ok(opened) => opened,
        Err(e) => {
            return Err(e);
        },
    };
    Ok(Opening { v, columns, paths })
}

/// Whether `proof` is the proof that the committer's state gives for the
/// polynomial number `which` at `z` under the challenges `ch`.
pub open spec fn proved_honestly(
    sec: Security,
    c: Commitment,
    st: CommitmentState,
    which: int,
    z: int,
    indices: Seq<usize>,
    wf: Option<(Seq<Fr>, Seq<usize>)>,
    proof: Proof,
) -> bool {
    &&& opened_honestly(
        st,
        reduce_seq(row_coeffs(z, c.n_polys as int, c.block(), c.n_cols as int, which)),
        indices,
        proof.opening,
    )
    &&& if sec.check_well_formedness {
        &&& proof.well_formedness.is_some()
        &&& wf.is_some()
        &&& opened_honestly(st, vals(wf.unwrap().0), wf.unwrap().1, proof.well_formedness.unwrap())
    } else {
        proof.well_formedness.is_none()
    }
}

/// Whether a commitment and a state speak of the same matrix.
pub open spec fn same_shape(c: Commitment, st: CommitmentState) -> bool {
    &&& c.n_rows == st.n_rows()
    &&& c.n_cols == st.n_cols()
    &&& c.n_ext_cols == st.n_ext_cols()
    &&& 1 <= c.n_polys <= c.n_rows
    &&& c.n_rows as int % c.n_polys as int == 0
}

/// Why no proof can be made, if none can: the commitment does not belong
/// to the state or has no such polynomial, a challenge is missing or names
/// a column that is not there, or the coefficients of the well-formedness
/// test are not one for every row.
pub open spec fn open_refusal(
    sec: Security,
    c: Commitment,
    st: CommitmentState,
    which: int,
    indices: Seq<usize>,
    wf: Option<(Seq<Fr>, Seq<usize>)>,
) -> Option<Error> {
    if !same_shape(c, st) || which >= c.n_polys {
        Some(Error::InvalidParameters)
    } else if !all_below(indices, st.n_ext_cols()) {
        Some(Error::TranscriptDesync)
    } else if !sec.check_well_formedness {
        None
    } else if wf.is_none() {
        Some(Error::TranscriptDesync)
    } else if wf.unwrap().0.len() != st.n_rows() {
        Some(Error::InvalidInputLength)
    } else if !all_below(wf.unwrap().1, st.n_ext_cols()) {
        Some(Error::TranscriptDesync)
    } else {
        None
    }
}

/// Proves, under the given challenges, the value at `z` of the polynomial
/// number `which` of the commitment.
pub fn open_with_challenges(
    sec: &Security,
    c: &Commitment,
    st: &CommitmentState,
    which: usize,
    z: &Fr,
    ch: &Challenges,
) -> (r: Result<Proof, Error>)
    ensures
        match r {
            Ok(proof) => open_refusal(
                *sec,
                *c,
                *st,
                which as int,
                ch.indices@,
                ch.wf_view(),
            ).is_none() && proved_honestly(
                *sec,
                *c,
                *st,
                which as int,
                z@,
                ch.indices@,
                ch.wf_view(),
                proof,
            ),
            Err(e) => open_refusal(*sec, *c, *st, which as int, ch.indices@, ch.wf_view()) == Some(
                e,
            ),
        },
{
    if c.n_rows != st.row_count() || c.n_cols != st.col_count() || c.n_ext_cols
        != st.codeword_len() || c.n_polys < 1 || c.n_polys > c.n_rows || c.n_rows % c.n_polys != 0
        || which >= c.n_polys {
        return Err(Error::InvalidParameters);
    }
    let block: usize = c.n_rows / c.n_polys;
    proof {
        assert(c.n_polys * block == c.n_rows) by (nonlinear_arith)
            requires
                block == c.n_rows as int / c.n_polys as int,
                c.n_rows as int % c.n_polys as int == 0,
                c.n_polys >= 1,
        ;
        assert(block >= 1) by (nonlinear_arith)
            requires
                c.n_polys * block == c.n_rows,
                c.n_rows >= c.n_polys,
                c.n_polys >= 1,
                block >= 0,
        ;
    }
    let b = row_coefficients(z, c.n_polys, block, c.n_cols, which);
    let opening = match open_rows(st, &b, &ch.indices) {
        Ok(o) => o,
        Err(e) => {
            return Err(e);
        },
    };
    if !sec.check_well_formedness {
        return Ok(Proof { opening, well_formedness: None });
    }
    let challenge = match &ch.well_formedness {
        Some(challenge) => challenge,
        None => {
            return Err(Error::TranscriptDesync);
        },
    };
    let second = match open_rows(st, &challenge.0, &challenge.1) {
        Ok(o) => o,
        Err(e) => {
            return Err(e);
        },
    };
    Ok(Proof { opening, well_formedness: Some(second) })
}

/// What the verifier makes of the proofs for the polynomials from number
/// `from` on, each at `z` with its claimed value and under its
/// challenges: the first result that is not an accepted proof, and
/// acceptance where there is none.
pub open spec fn check_all_from<C: LinearCode>(
    code: C,
    sec: Security,
    c: Commitment,
    z: int,
    values: Seq<Fr>,
    proofs: Seq<Proof>,
    chs: Seq<Challenges>,
    from: int,
) -> Result<bool, Error>
    decreases c.n_polys - from,
{
    if from < 0 || from >= c.n_polys {
        Ok(true)
    } else {
        match check_verdict(
            code,
            sec,
            c,
            from,
            z,
            values[from]@,
            proofs[from],
            chs[from].indices@,
            chs[from].wf_view(),
        ) {
            Ok(true) => check_all_from(code, sec, c, z, values, proofs, chs, from + 1),
            other => other,
        }
    }
}

/// What the verifier makes of the proofs for all polynomials of a
/// commitment at `z`: an error where there is not one value, one proof and
/// one set of challenges for every polynomial, and else the first result
/// that is not an accepted proof.
pub open spec fn check_all_verdict<C: LinearCode>(
    code: C,
    sec: Security,
    c: Commitment,
    z: int,
    values: Seq<Fr>,
    proofs: Seq<Proof>,
    chs: Seq<Challenges>,
) -> Result<bool, Error> {
    if values.len() != c.n_polys || proofs.len() != c.n_polys || chs.len() != c.n_polys {
        Err(Error::InvalidInputLength)
    } else {
        check_all_from(code, sec, c, z, values, proofs, chs, 0)
    }
}

/// Checks, under a code and the given challenges, the proofs that the
/// polynomials of the commitment have the claimed values at `z`. The
/// proofs are checked in order, and the first that is not accepted
/// decides.
pub fn check_all<C: LinearCode>(
    code: &C,
    sec: &Security,
    c: &Commitment,
    z: &Fr,
    values: &Vec<Fr>,
    proofs: &Vec<Proof>,
    chs: &Vec<Challenges>,
) -> (r: Result<bool, Error>)
    ensures
        r == check_all_verdict(*code, *sec, *c, z@, values@, proofs@, chs@),
{
    if values.len() != c.n_polys || proofs.len() != c.n_polys || chs.len() != c.n_polys {
        return Err(Error::InvalidInputLength);
    }
    let mut i: usize = 0;
    while i < c.n_polys
        invariant
            i <= c.n_polys,
            values.len() == c.n_polys,
            proofs.len() == c.n_polys,
            chs.len() == c.n_polys,
            check_all_from(*code, *sec, *c, z@, values@, proofs@, chs@, 0) == check_all_from(
                *code,
                *sec,
                *c,
                z@,
                values@,
                proofs@,
                chs@,
                i as int,
            ),
        decreases c.n_polys - i,
    {
        match check_with_code(code, sec, c, i, z, &values[i], &proofs[i], &chs[i]) {
            Ok(true) => {},
            other => {
                return other;
            },
        }
        i += 1;
    }
    Ok(true)
}

/// Whether `proofs` holds, for each of the first `n` polynomials, the proof
/// that the committer's state gives at `z` under the challenges for that
/// polynomial.
pub open spec fn all_proved_honestly(
    sec: Security,
    c: Commitment,
    st: CommitmentState,
    z: int,
    chs: Seq<Challenges>,
    proofs: Seq<Proof>,
    n: int,
) -> bool {
    forall|i: int|
        0 <= i < n ==> #[trigger] proved_honestly(
            sec,
            c,
            st,
            i,
            z,
            chs[i].indices@,
            chs[i].wf_view(),
            proofs[i],
        )
}

/// Whether no proof is refused for any of the first `n` polynomials.
pub open spec fn none_refused(
    sec: Security,
    c: Commitment,
    st: CommitmentState,
    chs: Seq<Challenges>,
    n: int,
) -> bool {
    forall|i: int|
        0 <= i < n ==> (#[trigger] open_refusal(
            sec,
            c,
            st,
            i,
            chs[i].indices@,
            chs[i].wf_view(),
        )).is_none()
}

/// Proves, under the given challenges, the values at `z` of all
/// polynomials of the commitment, one proof for each. Refuses where there
/// is not one set of challenges for every polynomial, and where a proof
/// cannot be made: the first that cannot decides.
pub fn open_all(
    sec: &Security,
    c: &Commitment,
    st: &CommitmentState,
    z: &Fr,
    chs: &Vec<Challenges>,
) -> (r: Result<Vec<Proof>, Error>)
    ensures
        r.is_ok() <==> chs.len() == c.n_polys && none_refused(*sec, *c, *st, chs@, c.n_polys as int),
        r matches Ok(proofs) ==> proofs.len() == c.n_polys && all_proved_honestly(
            *sec,
            *c,
            *st,
            z@,
            chs@,
            proofs@,
            c.n_polys as int,
        ),
        r matches Err(e) ==> chs.len() != c.n_polys && e == Error::InvalidInputLength
            || exists|i: int|
            0 <= i < c.n_polys && none_refused(*sec, *c, *st, chs@, i) && #[trigger] open_refusal(
                *sec,
                *c,
                *st,
                i,
                chs[i].indices@,
                chs[i].wf_view(),
            ) == Some(e),
{
    if chs.len() != c.n_polys {
        return Err(Error::InvalidInputLength);
    }
    let mut proofs: Vec<Proof> = Vec::new();
    let mut i: usize = 0;
    while i < c.n_polys
        invariant
            i <= c.n_polys,
            chs.len() == c.n_polys,
            proofs.len() == i,
            none_refused(*sec, *c, *st, chs@, i as int),
            all_proved_honestly(*sec, *c, *st, z@, chs@, proofs@, i as int),
        decreases c.n_polys - i,
    {
        let proof = match open_with_challenges(sec, c, st, i, z, &chs[i]) {
            Ok(proof) => proof,
            Err(e) => {
                return Err(e);
            },
        };
        let ghost before = proofs@;
        proofs.push(proof);
        proof {
            assert forall|k: int| 0 <= k < i + 1 implies #[trigger] proved_honestly(
                *sec,
                *c,
                *st,
                k,
                z@,
                chs[k].indices@,
                chs[k].wf_view(),
                proofs[k],
            ) by {
                if k < i {
                    assert(proofs[k] == before[k]);
                    assert(proved_honestly(
                        *sec,
                        *c,
                        *st,
                        k,
                        z@,
                        chs[k].indices@,
                        chs[k].wf_view(),
                        before[k],
                    ));
                }
            }
        }
        i += 1;
    }
    Ok(proofs)
}

} // verus!
