//! What holds of the scheme as a whole: encoding commutes with combining
//! rows, the combined row of an honest proof gives the value of the
//! polynomial, and an honest proof is accepted.

use crate::algebra::{
    block_slice, col_slice, col_sums, column, combine, dot, dot_term, eval_term, lemma_reduce_mul,
    lemma_sum_blocks, lemma_sum_congruent, lemma_sum_equal, lemma_sum_exchange, lemma_sum_scale,
    lemma_sum_split, lemma_sum_tail_zero, lemma_sum_zero, poly_eval, powers, reduce, reduce_seq,
    row_slice, row_sums, sum, vals,
};
use crate::code::LinearCode;
use crate::commit::{
    all_below, all_within_bound, committed, encoded, max_capacity, opens, Commitment,
    CommitmentState,
};
use crate::error::Error;
use crate::field::Fr;
use crate::layout::{coeff_at, layout, layout_row, poly_vals, LabeledPolynomial};
use crate::opening::{
    all_proved_honestly, check_all_from, check_all_verdict, check_verdict, column_len_ok,
    column_ok, index_ok, opened_honestly, opening_verdict, path_ok, proved_honestly, row_coeffs,
    shape_fits, Challenges, Opening, Proof,
};
use crate::params::{queries, Security};
use vstd::arithmetic::div_mod::{
    lemma_fundamental_div_mod, lemma_fundamental_div_mod_converse, lemma_mod_multiples_basic,
};
use vstd::arithmetic::power::{lemma_pow_adds, pow};
use vstd::prelude::*;

verus! {

/// The values, at `x`, of the polynomials whose coefficients are the rows.
pub open spec fn row_values(rows: Seq<Seq<int>>, x: int) -> Seq<int> {
    Seq::new(rows.len(), |i: int| reduce(poly_eval(rows[i], x)))
}

/// The term for row `i` and column `k` of the combination, with the
/// coefficients `coeffs`, of the values at `x` of the rows.
pub open spec fn weighted(coeffs: Seq<int>, rows: Seq<Seq<int>>, x: int) -> spec_fn(int, int) -> int {
    |i: int, k: int| coeffs[i] * (rows[i][k] * pow(x, k as nat))
}

/// Encoding commutes with combining: the combination of the values at `x`
/// of the rows is the value at `x` of the combination of the rows. With `x`
/// a power of the generator of the code's domain, the combination of the
/// rows' codewords is the codeword of the rows' combination, position by
/// position.
pub proof fn lemma_encoding_is_linear(coeffs: Seq<int>, rows: Seq<Seq<int>>, width: nat, x: int)
    requires
        coeffs.len() == rows.len(),
        forall|i: int| 0 <= i < rows.len() ==> (#[trigger] rows[i]).len() == width,
    ensures
        reduce(dot(coeffs, row_values(rows, x))) == reduce(
            poly_eval(reduce_seq(combine(coeffs, rows, width)), x),
        ),
{
    let m = rows.len();
    let g = weighted(coeffs, rows, x);
    let e = row_values(rows, x);
    let v = reduce_seq(combine(coeffs, rows, width));
    assert forall|i: int| 0 <= i < m implies reduce(#[trigger] dot_term(coeffs, e)(i)) == reduce(
        row_sums(g, width)(i),
    ) by {
        let f = eval_term(rows[i], x);
        assert forall|k: int| 0 <= k < width implies #[trigger] row_slice(g, i)(k) == coeffs[i] * f(
            k,
        ) by {}
        lemma_sum_scale(f, row_slice(g, i), coeffs[i], width);
        lemma_reduce_mul(coeffs[i], poly_eval(rows[i], x));
        assert(row_sums(g, width)(i) == sum(row_slice(g, i), width));
    }
    lemma_sum_congruent(dot_term(coeffs, e), row_sums(g, width), m);
    assert forall|k: int| 0 <= k < width implies reduce(#[trigger] eval_term(v, x)(k)) == reduce(
        col_sums(g, m)(k),
    ) by {
        let c = column(rows, k);
        let f = dot_term(coeffs, c);
        let w = pow(x, k as nat);
        assert forall|i: int| 0 <= i < m implies #[trigger] col_slice(g, k)(i) == w * f(i) by {
            let a = coeffs[i];
            let b = rows[i][k];
            assert(a * (b * w) == w * (a * b)) by (nonlinear_arith);
        }
        lemma_sum_scale(f, col_slice(g, k), w, m);
        lemma_reduce_mul(dot(coeffs, c), w);
        assert(col_sums(g, m)(k) == sum(col_slice(g, k), m));
        assert(dot(coeffs, c) * w == w * dot(coeffs, c)) by (nonlinear_arith);
    }
    lemma_sum_congruent(eval_term(v, x), col_sums(g, m), width);
    lemma_sum_exchange(g, m, width);
}

/// Term `j` of the value at `z` of the polynomial `p`, with zeros behind
/// its last coefficient.
pub open spec fn padded_term(p: Seq<int>, z: int) -> spec_fn(int) -> int {
    |j: int| coeff_at(p, j) * pow(z, j as nat)
}

/// The first `n` terms give the value of a polynomial that has no
/// coefficient set from `n` on.
pub proof fn lemma_padded_eval(p: Seq<int>, z: int, n: nat)
    requires
        forall|j: int| n <= j < p.len() ==> p[j] == 0,
    ensures
        sum(padded_term(p, z), n) == poly_eval(p, z),
{
    let h = padded_term(p, z);
    let f = eval_term(p, z);
    if p.len() <= n {
        assert forall|j: int| p.len() <= j < n implies #[trigger] h(j) == 0 by {}
        lemma_sum_tail_zero(h, p.len(), n);
        assert forall|j: int| 0 <= j < p.len() implies #[trigger] h(j) == f(j) by {}
        lemma_sum_equal(h, f, p.len());
    } else {
        assert forall|j: int| n <= j < p.len() implies #[trigger] f(j) == 0 by {}
        lemma_sum_tail_zero(f, n, p.len());
        assert forall|j: int| 0 <= j < n implies #[trigger] h(j) == f(j) by {}
        lemma_sum_equal(h, f, n);
    }
}

/// The combined row gives the value: where the rows of the matrix are
/// combined with the coefficients for the polynomial number `which` at
/// `z`, the combined row, taken as a polynomial, has at `z` the value of
/// that polynomial.
pub proof fn lemma_combined_row_evaluates(
    polys: Seq<Seq<int>>,
    block: int,
    cols: int,
    which: int,
    z: int,
)
    requires
        block >= 1,
        cols >= 1,
        0 <= which < polys.len(),
        forall|j: int| block * cols <= j < polys[which].len() ==> (#[trigger] polys[which][j]) == 0,
    ensures
        reduce(
            dot(
                reduce_seq(
                    combine(
                        reduce_seq(row_coeffs(z, polys.len() as int, block, cols, which)),
                        layout(polys, block, cols),
                        cols as nat,
                    ),
                ),
                reduce_seq(powers(z, cols as nat)),
            ),
        ) == reduce(poly_eval(polys[which], z)),
{
    let p = polys[which];
    let width = cols as nat;
    let height = (polys.len() * block) as nat;
    assert(polys.len() * block >= 0) by (nonlinear_arith)
        requires
            block >= 1,
    ;
    let beta = row_coeffs(z, polys.len() as int, block, cols, which);
    let beta_r = reduce_seq(beta);
    let m = layout(polys, block, cols);
    let v = reduce_seq(combine(beta_r, m, width));
    let a = reduce_seq(powers(z, width));
    let g = weighted(beta, m, z);
    // The inner product, column by column.
    assert forall|k: int| 0 <= k < width implies reduce(#[trigger] dot_term(v, a)(k)) == reduce(
        col_sums(g, height)(k),
    ) by {
        let c = column(m, k);
        let w = pow(z, k as nat);
        let d = dot(beta_r, c);
        let f = dot_term(beta, c);
        assert forall|r: int| 0 <= r < height implies reduce(#[trigger] dot_term(beta_r, c)(r))
            == reduce(f(r)) by {
            lemma_reduce_mul(beta[r], c[r]);
        }
        lemma_sum_congruent(dot_term(beta_r, c), f, height);
        assert forall|r: int| 0 <= r < height implies #[trigger] col_slice(g, k)(r) == w * f(r) by {
            let x = beta[r];
            let y = m[r][k];
            assert(x * (y * w) == w * (x * y)) by (nonlinear_arith);
        }
        lemma_sum_scale(f, col_slice(g, k), w, height);
        lemma_reduce_mul(d, w);
        lemma_reduce_mul(sum(f, height), w);
        assert(col_sums(g, height)(k) == sum(col_slice(g, k), height));
        assert(sum(f, height) * w == w * sum(f, height)) by (nonlinear_arith);
    }
    lemma_sum_congruent(dot_term(v, a), col_sums(g, height), width);
    lemma_sum_exchange(g, height, width);
    // Row by row: only the rows of the polynomial count.
    let rs = row_sums(g, width);
    let h = padded_term(p, z);
    let blocks = block_slice(h, width);
    let start = which * block;
    assert(0 <= start && start + block <= height) by (nonlinear_arith)
        requires
            start == which * block,
            height == polys.len() * block,
            0 <= which < polys.len(),
            block >= 1,
    ;
    assert forall|r: int| 0 <= r < height && r / block != which implies #[trigger] rs(r) == 0 by {
        assert forall|k: int| 0 <= k < width implies #[trigger] row_slice(g, r)(k) == 0 by {
            assert(beta[r] == 0);
        }
        lemma_sum_zero(row_slice(g, r), width);
    }
    assert forall|q: int| 0 <= q < block implies #[trigger] rs(start + q) == row_sums(
        blocks,
        width,
    )(q) by {
        let r = start + q;
        lemma_fundamental_div_mod_converse(r, block, which, q);
        assert forall|k: int| 0 <= k < width implies #[trigger] row_slice(g, r)(k) == row_slice(
            blocks,
            q,
        )(k) by {
            let e1 = (cols * q) as nat;
            assert(cols * q >= 0 && cols * q == q * cols) by (nonlinear_arith)
                requires
                    cols >= 1,
                    q >= 0,
            ;
            lemma_pow_adds(z, e1, k as nat);
            let x = pow(z, e1);
            let y = coeff_at(p, q * cols + k);
            let w = pow(z, k as nat);
            assert(beta[r] == x);
            assert(m[r][k] == y);
            assert(x * (y * w) == y * (x * w)) by (nonlinear_arith);
            assert(blocks(q, k) == h(q * width + k));
        }
        lemma_sum_equal(row_slice(g, r), row_slice(blocks, q), width);
    }
    let r1 = |i: int| rs(start + i);
    let r2 = |i: int| r1(block + i);
    lemma_sum_split(rs, r1, start as nat, height);
    lemma_sum_split(r1, r2, block as nat, (height - start) as nat);
    assert forall|r: int| 0 <= r < start implies #[trigger] rs(r) == 0 by {
        lemma_fundamental_div_mod(r, block);
        if r / block == which {
            assert(block * (r / block) == start) by (nonlinear_arith)
                requires
                    r / block == which,
                    start == which * block,
            ;
        }
    }
    lemma_sum_zero(rs, start as nat);
    assert forall|i: int| 0 <= i < height - start - block implies #[trigger] r2(i) == 0 by {
        let r = start + block + i;
        lemma_fundamental_div_mod(r, block);
        if r / block == which {
            assert(block * (r / block) == start) by (nonlinear_arith)
                requires
                    r / block == which,
                    start == which * block,
            ;
        }
        assert(rs(r) == 0);
    }
    lemma_sum_zero(r2, (height - start - block) as nat);
    assert forall|q: int| 0 <= q < block implies #[trigger] r1(q) == row_sums(blocks, width)(q) by {
        assert(rs(start + q) == row_sums(blocks, width)(q));
    }
    lemma_sum_equal(r1, row_sums(blocks, width), block as nat);
    lemma_sum_blocks(h, block as nat, width);
    assert(block as nat * width == block * cols) by (nonlinear_arith)
        requires
            block >= 1,
            cols >= 1,
            width == cols,
    ;
    lemma_padded_eval(p, z, (block * cols) as nat);
}

/// An honest opening passes every check: where the commitment belongs to
/// the committer's state, the encoded matrix holds the codewords of the
/// rows, and the opening is the one that the state gives for the row
/// coefficients and for sampled columns that are columns of the code, the
/// verifier finds nothing wrong with it.
pub proof fn lemma_honest_opening_accepted<C: LinearCode>(
    code: C,
    c: Commitment,
    st: CommitmentState,
    coeffs: Seq<int>,
    indices: Seq<usize>,
    o: Opening,
    mismatch: Error,
)
    requires
        code.consistent(),
        c.n_rows == st.n_rows(),
        c.n_cols == st.n_cols(),
        c.n_ext_cols == st.n_ext_cols(),
        c.n_cols == code.input_length(),
        c.n_ext_cols == code.output_length(),
        c.root@ == st.root(),
        st.matrix().len() == c.n_rows,
        forall|i: int| 0 <= i < c.n_rows ==> (#[trigger] st.matrix()[i]).len() == c.n_cols,
        st.encoded_matrix() == encoded(code, st.matrix()),
        coeffs.len() == c.n_rows,
        all_below(indices, c.n_ext_cols as nat),
        opened_honestly(st, coeffs, indices, o),
    ensures
        opening_verdict(code, c, indices.len() as int, coeffs, o, indices, mismatch) == Ok::<
            (),
            Error,
        >(()),
{
    let t = indices.len() as int;
    let m = st.matrix();
    assert forall|j: int| 0 <= j < t implies #[trigger] column_len_ok(c, o, j) by {
        assert(opens(st, indices[j] as int, o.columns[j]@, o.paths[j]));
    }
    assert forall|j: int| 0 <= j < t implies #[trigger] index_ok(c, o, indices, j) by {
        assert(opens(st, indices[j] as int, o.columns[j]@, o.paths[j]));
    }
    assert forall|j: int| 0 <= j < t implies #[trigger] path_ok(c, o, j) by {
        assert(opens(st, indices[j] as int, o.columns[j]@, o.paths[j]));
    }
    assert forall|j: int| 0 <= j < t implies #[trigger] column_ok(code, coeffs, o, indices, j) by {
        assert(opens(st, indices[j] as int, o.columns[j]@, o.paths[j]));
        let at = indices[j] as int;
        assert(vals(o.columns[j]@) =~= Seq::new(m.len(), |i: int| code.codeword_of(m[i])[at]));
        code.lemma_linear(coeffs, m, at);
    }
}

/// The largest capacity is not below the capacity of any polynomial.
pub proof fn lemma_capacity_within_largest(polys: Seq<LabeledPolynomial>, n: nat, i: int)
    requires
        0 <= i < n,
    ensures
        polys[i].capacity() <= max_capacity(polys, n),
    decreases n,
{
    if i < n - 1 {
        lemma_capacity_within_largest(polys, (n - 1) as nat, i);
    }
}

/// Completeness: an honest proof is accepted. Where a commitment and its
/// state come from committing to `polys` under a code, the challenges are
/// as many columns of the code as the parameters ask for, and the proof is
/// the one that the state gives under these challenges for the polynomial
/// number `which` at `z`, the verifier accepts the value of that
/// polynomial at `z`.
pub proof fn theorem_completeness<C: LinearCode>(
    code: C,
    sec: Security,
    polys: Seq<LabeledPolynomial>,
    c: Commitment,
    st: CommitmentState,
    which: int,
    z: int,
    indices: Seq<usize>,
    wf: Option<(Seq<Fr>, Seq<usize>)>,
    proof: Proof,
)
    requires
        all_within_bound(polys),
        committed(code, polys, c, st),
        0 <= which < polys.len(),
        queries(sec, c.n_ext_cols as int) == Some(indices.len()),
        all_below(indices, c.n_ext_cols as nat),
        sec.check_well_formedness ==> wf.is_some() && wf.unwrap().0.len() == c.n_rows
            && wf.unwrap().1.len() == indices.len() && all_below(
            wf.unwrap().1,
            c.n_ext_cols as nat,
        ),
        proved_honestly(sec, c, st, which, z, indices, wf, proof),
    ensures
        check_verdict(
            code,
            sec,
            c,
            which,
            z,
            reduce(poly_eval(polys[which].values(), z)),
            proof,
            indices,
            wf,
        ) == Ok::<bool, Error>(true),
{
    let block = c.block();
    let cols = c.n_cols as int;
    let pv = poly_vals(polys);
    let m = st.matrix();
    let b = reduce_seq(row_coeffs(z, c.n_polys as int, block, cols, which));
    assert(c.n_polys * block >= c.n_polys) by (nonlinear_arith)
        requires
            block >= 1,
            c.n_polys >= 1,
    ;
    lemma_mod_multiples_basic(block, c.n_polys as int);
    assert(block * c.n_polys == c.n_polys * block) by (nonlinear_arith);
    assert(shape_fits(code, c));
    assert(m.len() == c.n_rows);
    assert forall|i: int| 0 <= i < c.n_rows implies (#[trigger] m[i]).len() == c.n_cols by {
        assert(m[i] == layout_row(pv, block, cols, i));
    }
    lemma_honest_opening_accepted(
        code,
        c,
        st,
        b,
        indices,
        proof.opening,
        Error::CodewordInconsistency,
    );
    if sec.check_well_formedness {
        lemma_honest_opening_accepted(
            code,
            c,
            st,
            vals(wf.unwrap().0),
            wf.unwrap().1,
            proof.well_formedness.unwrap(),
            Error::ProximityFailure,
        );
    }
    // The claimed value.
    let p = polys[which];
    lemma_capacity_within_largest(polys, polys.len(), which);
    assert(pv[which] == p.values());
    assert forall|j: int| block * cols <= j < pv[which].len() implies (#[trigger] pv[which][j])
        == 0 by {
        match p.degree_bound {
            Some(d) => {
                assert(p.coeffs[j]@ == 0);
            },
            None => {},
        }
    }
    lemma_combined_row_evaluates(pv, block, cols, which, z);
}

/// Whether the challenges are as many columns of the code as the
/// parameters ask for, and, where the well-formedness test is run, one
/// coefficient for every row and as many columns again.
pub open spec fn well_drawn(sec: Security, c: Commitment, ch: Challenges) -> bool {
    &&& queries(sec, c.n_ext_cols as int) == Some(ch.indices.len() as nat)
    &&& all_below(ch.indices@, c.n_ext_cols as nat)
    &&& sec.check_well_formedness ==> ch.wf_view().is_some() && ch.wf_view().unwrap().0.len()
        == c.n_rows && ch.wf_view().unwrap().1.len() == ch.indices.len() && all_below(
        ch.wf_view().unwrap().1,
        c.n_ext_cols as nat,
    )
}

/// Honest proofs are accepted from any polynomial on.
pub proof fn lemma_all_accepted_from<C: LinearCode>(
    code: C,
    sec: Security,
    polys: Seq<LabeledPolynomial>,
    c: Commitment,
    st: CommitmentState,
    z: int,
    values: Seq<Fr>,
    proofs: Seq<Proof>,
    chs: Seq<Challenges>,
    from: int,
)
    requires
        all_within_bound(polys),
        committed(code, polys, c, st),
        values.len() == polys.len(),
        proofs.len() == polys.len(),
        chs.len() == polys.len(),
        0 <= from <= polys.len(),
        forall|i: int|
            0 <= i < polys.len() ==> (#[trigger] values[i])@ == reduce(
                poly_eval(polys[i].values(), z),
            ),
        forall|i: int| 0 <= i < polys.len() ==> well_drawn(sec, c, #[trigger] chs[i]),
        all_proved_honestly(sec, c, st, z, chs, proofs, polys.len() as int),
    ensures
        check_all_from(code, sec, c, z, values, proofs, chs, from) == Ok::<bool, Error>(true),
    decreases polys.len() - from,
{
    if from < polys.len() {
        assert(well_drawn(sec, c, chs[from]));
        assert(proved_honestly(
            sec,
            c,
            st,
            from,
            z,
            chs[from].indices@,
            chs[from].wf_view(),
            proofs[from],
        ));
        theorem_completeness(
            code,
            sec,
            polys,
            c,
            st,
            from,
            z,
            chs[from].indices@,
            chs[from].wf_view(),
            proofs[from],
        );
        lemma_all_accepted_from(code, sec, polys, c, st, z, values, proofs, chs, from + 1);
    }
}

/// Completeness for all polynomials of a commitment: where every proof is
/// the one that the committer's state gives under well-drawn challenges,
/// and every claimed value is the value of its polynomial at `z`, the
/// verifier accepts them all.
pub proof fn theorem_completeness_of_all<C: LinearCode>(
    code: C,
    sec: Security,
    polys: Seq<LabeledPolynomial>,
    c: Commitment,
    st: CommitmentState,
    z: int,
    values: Seq<Fr>,
    proofs: Seq<Proof>,
    chs: Seq<Challenges>,
)
    requires
        all_within_bound(polys),
        committed(code, polys, c, st),
        values.len() == polys.len(),
        proofs.len() == polys.len(),
        chs.len() == polys.len(),
        forall|i: int|
            0 <= i < polys.len() ==> (#[trigger] values[i])@ == reduce(
                poly_eval(polys[i].values(), z),
            ),
        forall|i: int| 0 <= i < polys.len() ==> well_drawn(sec, c, #[trigger] chs[i]),
        all_proved_honestly(sec, c, st, z, chs, proofs, polys.len() as int),
    ensures
        check_all_verdict(code, sec, c, z, values, proofs, chs) == Ok::<bool, Error>(true),
{
    lemma_all_accepted_from(code, sec, polys, c, st, z, values, proofs, chs, 0);
}

} // verus!
