//! Sparse matrices over the field: for every column the entries that are
//! set, each with its row. They are the linear maps of the expander code.

use crate::algebra::{
    col_slice, col_sums, column, combine, dot, dot_term, lemma_accumulate, lemma_reduce_mul,
    lemma_sum_congruent, lemma_sum_exchange, lemma_sum_scale, reduce, reduce_seq, row_slice,
    row_sums, sum, vals,
};
use crate::field::Fr;
use vstd::prelude::*;

verus! {

/// The term of entry `e` of a column in the product of the row vector `v`
/// with the matrix.
pub open spec fn entry_term(v: Seq<int>, col: Seq<(usize, Fr)>) -> spec_fn(int) -> int {
    |e: int| v[col[e].0 as int] * col[e].1@
}

/// The entry, for one column, of the product of the row vector `v` with
/// the matrix.
pub open spec fn column_product(v: Seq<int>, col: Seq<(usize, Fr)>) -> int {
    reduce(sum(entry_term(v, col), col.len()))
}

/// The entries of the columns held by a vector of vectors.
pub open spec fn columns_of(cols: Seq<Vec<(usize, Fr)>>) -> Seq<Seq<(usize, Fr)>> {
    Seq::new(cols.len(), |j: int| cols[j]@)
}

/// Whether every entry of the columns stands in one of `n` rows.
pub open spec fn rows_within(cols: Seq<Seq<(usize, Fr)>>, n: nat) -> bool {
    forall|j: int, e: int|
        0 <= j < cols.len() && 0 <= e < cols[j].len() ==> (#[trigger] cols[j][e]).0 < n
}

/// The product of the row vector `v` with the matrix of the given columns.
pub open spec fn sparse_product(cols: Seq<Seq<(usize, Fr)>>, v: Seq<int>) -> Seq<int> {
    Seq::new(cols.len(), |j: int| column_product(v, cols[j]))
}

/// A sparse matrix of `n` rows and `m` columns.
#[derive(Debug)]
pub struct SparseMatrix {
    n: usize,
    m: usize,
    cols: Vec<Vec<(usize, Fr)>>,
}

impl SparseMatrix {
    #[verifier::type_invariant]
    pub closed spec fn wf(self) -> bool {
        &&& self.cols.len() == self.m
        &&& rows_within(columns_of(self.cols@), self.n as nat)
    }

    /// The number of rows.
    pub closed spec fn height(self) -> nat {
        self.n as nat
    }

    /// The number of columns.
    pub closed spec fn width(self) -> nat {
        self.m as nat
    }

    /// The entries of the columns.
    pub closed spec fn columns(self) -> Seq<Seq<(usize, Fr)>> {
        columns_of(self.cols@)
    }

    /// The product of the row vector `v` with the matrix.
    pub open spec fn product(self, v: Seq<int>) -> Seq<int> {
        sparse_product(self.columns(), v)
    }

    /// Whether the matrix has an entry list for every column, and every
    /// entry stands in one of its rows.
    pub open spec fn sound(self) -> bool {
        &&& self.columns().len() == self.width()
        &&& rows_within(self.columns(), self.height())
    }

    /// The matrix of `n` rows with the given columns, if every entry
    /// stands in one of its rows.
    pub fn new(n: usize, cols: Vec<Vec<(usize, Fr)>>) -> (r: Option<SparseMatrix>)
        ensures
            r.is_some() <==> rows_within(columns_of(cols@), n as nat),
            r.is_some() ==> {
                &&& r.unwrap().wf()
                &&& r.unwrap().height() == n
                &&& r.unwrap().width() == cols.len()
                &&& r.unwrap().columns() == columns_of(cols@)
            },
    {
        let mut j: usize = 0;
        while j < cols.len()
            invariant
                j <= cols.len(),
                forall|l: int, e: int|
                    0 <= l < j && 0 <= e < cols[l].len() ==> (#[trigger] columns_of(
                        cols@,
                    )[l][e]).0 < n,
            decreases cols.len() - j,
        {
            let mut e: usize = 0;
            while e < cols[j].len()
                invariant
                    j < cols.len(),
                    e <= cols[j as int].len(),
                    forall|k: int| 0 <= k < e ==> (#[trigger] cols[j as int][k]).0 < n,
                decreases cols[j as int].len() - e,
            {
                if cols[j][e].0 >= n {
                    proof {
                        assert(columns_of(cols@)[j as int][e as int] == cols[j as int][e as int]);
                    }
                    return None;
                }
                e += 1;
            }
            proof {
                assert forall|l: int, k: int|
                    0 <= l < j + 1 && 0 <= k < cols[l].len() implies (#[trigger] columns_of(
                    cols@,
                )[l][k]).0 < n by {
                    if l == j {
                        assert(cols[j as int][k].0 < n);
                    }
                }
            }
            j += 1;
        }
        let m = cols.len();
        Some(SparseMatrix { n, m, cols })
    }

    /// The number of rows.
    pub fn n_rows(&self) -> (n: usize)
        ensures
            n == self.height(),
            self.sound(),
    {
        proof {
            use_type_invariant(self);
        }
        self.n
    }

    /// The number of columns.
    pub fn n_cols(&self) -> (m: usize)
        ensures
            m == self.width(),
            self.sound(),
    {
        proof {
            use_type_invariant(self);
        }
        self.m
    }

    /// The product of the row vector `v` with the matrix.
    pub fn row_mul(&self, v: &Vec<Fr>) -> (r: Vec<Fr>)
        requires
            v.len() == self.height(),
        ensures
            r.len() == self.width(),
            vals(r@) == self.product(vals(v@)),
    {
        proof {
            use_type_invariant(self);
        }
        let mut r: Vec<Fr> = Vec::new();
        let mut j: usize = 0;
        while j < self.m
            invariant
                j <= self.m,
                self.wf(),
                v.len() == self.n,
                r.len() == j,
                forall|l: int|
                    0 <= l < j ==> (#[trigger] r[l])@ == column_product(vals(v@), self.columns()[l]),
            decreases self.m - j,
        {
            let col = &self.cols[j];
            let ghost f = entry_term(vals(v@), col@);
            let mut acc = Fr::zero();
            let mut e: usize = 0;
            proof {
                assert(self.columns()[j as int] == col@);
            }
            while e < col.len()
                invariant
                    e <= col.len(),
                    v.len() == self.n,
                    f == entry_term(vals(v@), col@),
                    forall|k: int| 0 <= k < col.len() ==> (#[trigger] col[k]).0 < self.n,
                    acc@ == reduce(sum(f, e as nat)),
                decreases col.len() - e,
            {
                let entry = &col[e];
                let t = v[entry.0].mul(&entry.1);
                proof {
                    lemma_accumulate(sum(f, e as nat), v[entry.0 as int]@, entry.1@);
                    assert(f(e as int) == v[entry.0 as int]@ * entry.1@);
                    assert(sum(f, (e + 1) as nat) == sum(f, e as nat) + f(e as int));
                }
                acc = acc.add(&t);
                e += 1;
            }
            r.push(acc);
            j += 1;
        }
        proof {
            assert(vals(r@) =~= self.product(vals(v@)));
        }
        r
    }
}

/// The term, for row `i` and entry `e` of a column, of the combination
/// with the coefficients `coeffs` of the products of the rows.
pub open spec fn weighted_entries(coeffs: Seq<int>, rows: Seq<Seq<int>>, col: Seq<(usize, Fr)>) -> spec_fn(
    int,
    int,
) -> int {
    |i: int, e: int| coeffs[i] * (rows[i][col[e].0 as int] * col[e].1@)
}

/// The products of the rows with one column.
pub open spec fn column_products(rows: Seq<Seq<int>>, col: Seq<(usize, Fr)>) -> Seq<int> {
    Seq::new(rows.len(), |i: int| column_product(rows[i], col))
}

/// The product with a column commutes with combining rows: the
/// combination of the products of the rows is the product of the
/// combination of the rows.
pub proof fn lemma_column_product_is_linear(
    col: Seq<(usize, Fr)>,
    width: nat,
    coeffs: Seq<int>,
    rows: Seq<Seq<int>>,
)
    requires
        coeffs.len() == rows.len(),
        forall|i: int| 0 <= i < rows.len() ==> (#[trigger] rows[i]).len() == width,
        forall|e: int| 0 <= e < col.len() ==> (#[trigger] col[e]).0 < width,
    ensures
        reduce(dot(coeffs, column_products(rows, col))) == column_product(
            reduce_seq(combine(coeffs, rows, width)),
            col,
        ),
{
    let m = rows.len();
    let n = col.len();
    let g = weighted_entries(coeffs, rows, col);
    let p = column_products(rows, col);
    let v = reduce_seq(combine(coeffs, rows, width));
    assert forall|i: int| 0 <= i < m implies reduce(#[trigger] dot_term(coeffs, p)(i)) == reduce(
        row_sums(g, n)(i),
    ) by {
        let f = entry_term(rows[i], col);
        assert forall|e: int| 0 <= e < n implies #[trigger] row_slice(g, i)(e) == coeffs[i] * f(
            e,
        ) by {}
        lemma_sum_scale(f, row_slice(g, i), coeffs[i], n);
        lemma_reduce_mul(coeffs[i], sum(f, n));
        assert(row_sums(g, n)(i) == sum(row_slice(g, i), n));
    }
    lemma_sum_congruent(dot_term(coeffs, p), row_sums(g, n), m);
    assert forall|e: int| 0 <= e < n implies reduce(#[trigger] entry_term(v, col)(e)) == reduce(
        col_sums(g, m)(e),
    ) by {
        let at = col[e].0 as int;
        let w = col[e].1@;
        let c = column(rows, at);
        let f = dot_term(coeffs, c);
        assert forall|i: int| 0 <= i < m implies #[trigger] col_slice(g, e)(i) == w * f(i) by {
            let a = coeffs[i];
            let b = rows[i][at];
            assert(a * (b * w) == w * (a * b)) by (nonlinear_arith);
        }
        lemma_sum_scale(f, col_slice(g, e), w, m);
        lemma_reduce_mul(dot(coeffs, c), w);
        assert(col_sums(g, m)(e) == sum(col_slice(g, e), m));
        assert(dot(coeffs, c) * w == w * dot(coeffs, c)) by (nonlinear_arith);
    }
    lemma_sum_congruent(entry_term(v, col), col_sums(g, m), n);
    lemma_sum_exchange(g, m, n);
}

} // verus!
