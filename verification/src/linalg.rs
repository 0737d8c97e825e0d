//! Vectors and matrices of field elements.

use crate::algebra::{
    column, combine, dot, dot_term, lemma_accumulate, min_len, reduce, reduce_seq, row_vals, sum,
    vals,
};
use crate::field::Fr;
use vstd::prelude::*;

verus! {

/// The inner product of two vectors, over the positions that both have.
pub fn inner_product(a: &Vec<Fr>, b: &Vec<Fr>) -> (r: Fr)
    ensures
        r@ == reduce(dot(vals(a@), vals(b@))),
{
    let n: usize = if a.len() <= b.len() {
        a.len()
    } else {
        b.len()
    };
    let ghost f = dot_term(vals(a@), vals(b@));
    let mut acc = Fr::zero();
    let mut i: usize = 0;
    while i < n
        invariant
            i <= n,
            n == min_len(vals(a@), vals(b@)),
            n <= a.len(),
            n <= b.len(),
            f == dot_term(vals(a@), vals(b@)),
            acc@ == reduce(sum(f, i as nat)),
        decreases n - i,
    {
        let t = a[i].mul(&b[i]);
        proof {
            lemma_accumulate(sum(f, i as nat), a[i as int]@, b[i as int]@);
            assert(f(i as int) == a[i as int]@ * b[i as int]@);
            assert(sum(f, (i + 1) as nat) == sum(f, i as nat) + f(i as int));
        }
        acc = acc.add(&t);
        i += 1;
    }
    acc
}

/// Whether `rows` are `n` rows of `m` entries each.
pub open spec fn rectangular<T>(rows: Seq<Seq<T>>, n: nat, m: nat) -> bool {
    &&& rows.len() == n
    &&& forall|i: int| 0 <= i < n ==> (#[trigger] rows[i]).len() == m
}

/// The rows held by a vector of vectors.
pub open spec fn rows_of(entries: Seq<Vec<Fr>>) -> Seq<Seq<Fr>> {
    Seq::new(entries.len(), |i: int| entries[i]@)
}

/// A matrix of `n` rows and `m` columns.
#[derive(Debug)]
pub struct Matrix {
    n: usize,
    m: usize,
    entries: Vec<Vec<Fr>>,
}

impl View for Matrix {
    type V = Seq<Seq<Fr>>;

    closed spec fn view(&self) -> Seq<Seq<Fr>> {
        rows_of(self.entries@)
    }
}

impl Matrix {
    #[verifier::type_invariant]
    pub closed spec fn wf(self) -> bool {
        rectangular(rows_of(self.entries@), self.n as nat, self.m as nat)
    }

    /// The number of rows.
    pub closed spec fn height(self) -> nat {
        self.n as nat
    }

    /// The number of columns.
    pub closed spec fn width(self) -> nat {
        self.m as nat
    }

    /// The values of the entries, row by row.
    pub open spec fn values(self) -> Seq<Seq<int>> {
        row_vals(self@)
    }

    /// The matrix whose rows are `rows`, if they all have the same length.
    pub fn new_from_rows(rows: Vec<Vec<Fr>>) -> (r: Option<Matrix>)
        ensures
            r.is_some() <==> exists|m: nat| rectangular(rows_of(rows@), rows.len() as nat, m),
            r.is_some() ==> {
                &&& r.unwrap()@ == rows_of(rows@)
                &&& r.unwrap().wf()
                &&& r.unwrap().height() == rows.len()
                &&& rectangular(r.unwrap()@, r.unwrap().height(), r.unwrap().width())
            },
    {
        let n = rows.len();
        let m: usize = if n == 0 {
            0
        } else {
            rows[0].len()
        };
        let mut i: usize = 0;
        while i < n
            invariant
                i <= n,
                n == rows.len(),
                n > 0 ==> m == rows[0].len(),
                forall|k: int| 0 <= k < i ==> (#[trigger] rows[k]).len() == m,
            decreases n - i,
        {
            if rows[i].len() != m {
                proof {
                    assert forall|w: nat| !rectangular(rows_of(rows@), rows.len() as nat, w) by {
                        if rectangular(rows_of(rows@), rows.len() as nat, w) {
                            assert(rows_of(rows@)[0].len() == w);
                            assert(rows_of(rows@)[i as int].len() == w);
                        }
                    }
                }
                return None;
            }
            i += 1;
        }
        proof {
            assert forall|k: int| 0 <= k < n implies (#[trigger] rows_of(rows@)[k]).len() == m by {
                assert(rows[k].len() == m);
            }
            assert(rectangular(rows_of(rows@), rows.len() as nat, m as nat));
        }
        Some(Matrix { n, m, entries: rows })
    }

    /// The matrix of `n` rows and `m` columns whose entries, row after row,
    /// are `flat`; none if `flat` does not hold `n * m` entries.
    pub fn new_from_flat(n: usize, m: usize, flat: &Vec<Fr>) -> (r: Option<Matrix>)
        ensures
            r.is_some() <==> n * m == flat.len(),
            r.is_some() ==> {
                &&& r.unwrap().wf()
                &&& r.unwrap().height() == n
                &&& r.unwrap().width() == m
                &&& rectangular(r.unwrap()@, n as nat, m as nat)
                &&& forall|i: int, j: int|
                    0 <= i < n && 0 <= j < m ==> #[trigger] r.unwrap()@[i][j] == flat[i * m + j]
            },
    {
        let total = match n.checked_mul(m) {
            Some(t) => t,
            None => {
                return None;
            },
        };
        if total != flat.len() {
            return None;
        }
        let mut rows: Vec<Vec<Fr>> = Vec::new();
        let mut i: usize = 0;
        let mut base: usize = 0;
        while i < n
            invariant
                i <= n,
                n * m == flat.len(),
                base == i * m,
                rows.len() == i,
                forall|k: int| 0 <= k < i ==> (#[trigger] rows[k]).len() == m,
                forall|k: int, j: int|
                    0 <= k < i && 0 <= j < m ==> #[trigger] rows[k][j] == flat[k * m + j],
            decreases n - i,
        {
            let mut row: Vec<Fr> = Vec::new();
            let mut j: usize = 0;
            proof {
                lemma_row_in_range(i as int, n as int, m as int);
            }
            while j < m
                invariant
                    j <= m,
                    row.len() == j,
                    base + m <= flat.len(),
                    forall|l: int| 0 <= l < j ==> #[trigger] row[l] == flat[base + l],
                decreases m - j,
            {
                row.push(flat[base + j]);
                j += 1;
            }
            rows.push(row);
            i += 1;
            base += m;
        }
        proof {
            assert forall|k: int| 0 <= k < n implies (#[trigger] rows_of(rows@)[k]).len() == m by {
                assert(rows[k].len() == m);
            }
        }
        Some(Matrix { n, m, entries: rows })
    }

    /// A matrix with a row of `m` entries is `m` columns wide.
    pub proof fn lemma_width(self, m: nat)
        requires
            self.wf(),
            self@.len() > 0,
            self@[0].len() == m,
        ensures
            self.width() == m,
    {
    }

    /// The number of rows.
    pub fn n_rows(&self) -> (n: usize)
        ensures
            n == self.height(),
            rectangular(self@, self.height(), self.width()),
    {
        proof {
            use_type_invariant(self);
        }
        self.n
    }

    /// The number of columns.
    pub fn n_cols(&self) -> (m: usize)
        ensures
            m == self.width(),
            rectangular(self@, self.height(), self.width()),
    {
        proof {
            use_type_invariant(self);
        }
        self.m
    }

    /// The entry in row `i` and column `j`.
    pub fn entry(&self, i: usize, j: usize) -> (e: Fr)
        requires
            i < self.height(),
            j < self.width(),
        ensures
            e == self@[i as int][j as int],
    {
        proof {
            use_type_invariant(self);
            assert(rows_of(self.entries@)[i as int].len() == self.m);
        }
        self.entries[i][j]
    }

    /// Row `i`.
    pub fn row(&self, i: usize) -> (r: &Vec<Fr>)
        requires
            i < self.height(),
        ensures
            r@ == self@[i as int],
            r.len() == self.width(),
    {
        proof {
            use_type_invariant(self);
            assert(rows_of(self.entries@)[i as int].len() == self.m);
        }
        &self.entries[i]
    }

    /// Column `j`.
    pub fn col(&self, j: usize) -> (c: Vec<Fr>)
        requires
            j < self.width(),
        ensures
            c.len() == self.height(),
            forall|i: int| 0 <= i < self.height() ==> #[trigger] c[i] == self@[i][j as int],
            vals(c@) == column(self.values(), j as int),
    {
        proof {
            use_type_invariant(self);
        }
        let mut c: Vec<Fr> = Vec::new();
        let mut i: usize = 0;
        while i < self.n
            invariant
                i <= self.n,
                j < self.m,
                self.wf(),
                c.len() == i,
                forall|k: int| 0 <= k < i ==> #[trigger] c[k] == self@[k][j as int],
            decreases self.n - i,
        {
            proof {
                assert(rows_of(self.entries@)[i as int].len() == self.m);
            }
            c.push(self.entries[i][j]);
            i += 1;
        }
        proof {
            assert(vals(c@) =~= column(self.values(), j as int));
        }
        c
    }

    /// The columns, first to last.
    pub fn cols(&self) -> (cs: Vec<Vec<Fr>>)
        ensures
            cs.len() == self.width(),
            forall|j: int|
                0 <= j < self.width() ==> {
                    &&& (#[trigger] cs[j]).len() == self.height()
                    &&& vals(cs[j]@) == column(self.values(), j)
                },
            forall|i: int, j: int|
                0 <= i < self.height() && 0 <= j < self.width() ==> #[trigger] cs[j][i]
                    == self@[i][j],
    {
        proof {
            use_type_invariant(self);
        }
        let mut cs: Vec<Vec<Fr>> = Vec::new();
        let mut j: usize = 0;
        while j < self.m
            invariant
                j <= self.m,
                self.wf(),
                cs.len() == j,
                forall|l: int|
                    0 <= l < j ==> {
                        &&& (#[trigger] cs[l]).len() == self.height()
                        &&& vals(cs[l]@) == column(self.values(), l)
                    },
                forall|i: int, l: int|
                    0 <= i < self.height() && 0 <= l < j ==> #[trigger] cs[l][i] == self@[i][l],
            decreases self.m - j,
        {
            let c = self.col(j);
            cs.push(c);
            j += 1;
        }
        cs
    }

    /// The product of the row vector `v` with the matrix: the combination of
    /// the rows with the coefficients `v`.
    pub fn row_mul(&self, v: &Vec<Fr>) -> (r: Vec<Fr>)
        requires
            v.len() == self.height(),
        ensures
            r.len() == self.width(),
            vals(r@) == reduce_seq(combine(vals(v@), self.values(), self.width())),
    {
        proof {
            use_type_invariant(self);
        }
        let mut r: Vec<Fr> = Vec::new();
        let mut j: usize = 0;
        while j < self.m
            invariant
                j <= self.m,
                self.wf(),
                v.len() == self.n,
                r.len() == j,
                forall|l: int|
                    0 <= l < j ==> (#[trigger] r[l])@ == reduce(
                        dot(vals(v@), column(self.values(), l)),
                    ),
            decreases self.m - j,
        {
            let c = self.col(j);
            let x = inner_product(v, &c);
            r.push(x);
            j += 1;
        }
        proof {
            assert(vals(r@) =~= reduce_seq(combine(vals(v@), self.values(), self.width())));
        }
        r
    }
}

/// Row `i` of an `n` by `m` matrix lies within its `n * m` entries.
proof fn lemma_row_in_range(i: int, n: int, m: int)
    requires
        0 <= i < n,
        0 <= m,
    ensures
        0 <= i * m,
        (i + 1) * m <= n * m,
        (i + 1) * m == i * m + m,
{
    assert(0 <= i * m) by (nonlinear_arith)
        requires
            0 <= i,
            0 <= m,
    ;
    assert((i + 1) * m <= n * m) by (nonlinear_arith)
        requires
            i + 1 <= n,
            0 <= m,
    ;
    assert((i + 1) * m == i * m + m) by (nonlinear_arith);
}

} // verus!
