//! Polynomials and their place in the coefficient matrix: every polynomial
//! fills a block of rows, row after row, with zeros behind its last
//! coefficient.

use crate::algebra::{
    eval_term, lemma_reduce_add, lemma_reduce_mul, poly_eval, reduce, sum, vals,
};
use crate::field::Fr;
use crate::hashing::FieldToBytesColHasher;
use crate::linalg::{rectangular, rows_of, Matrix};
use crate::params::lemma_next_power;
use vstd::arithmetic::div_mod::lemma_fundamental_div_mod_converse;
use vstd::arithmetic::power::{lemma_pow0, pow};
use vstd::prelude::*;

verus! {

/// A polynomial with a name and, where one is declared, a bound on its
/// degree. The coefficients stand lowest degree first.
#[derive(Clone, Debug)]
pub struct LabeledPolynomial {
    pub label: String,
    pub coeffs: Vec<Fr>,
    pub degree_bound: Option<usize>,
}

impl LabeledPolynomial {
    /// The polynomial with the given name, coefficients and degree bound.
    /// Nothing is hidden by this scheme, so a hiding bound has no effect.
    pub fn new(
        label: String,
        coeffs: Vec<Fr>,
        degree_bound: Option<usize>,
        _hiding_bound: Option<usize>,
    ) -> (p: LabeledPolynomial)
        ensures
            p.label == label,
            p.coeffs == coeffs,
            p.degree_bound == degree_bound,
    {
        LabeledPolynomial { label, coeffs, degree_bound }
    }

    /// The values of the coefficients.
    pub open spec fn values(self) -> Seq<int> {
        vals(self.coeffs@)
    }

    /// Whether no coefficient above the declared degree bound is set.
    pub open spec fn within_bound(self) -> bool {
        match self.degree_bound {
            Some(d) => forall|i: int| d < i < self.coeffs.len() ==> (#[trigger] self.coeffs[i])@ == 0,
            None => true,
        }
    }

    /// The number of coefficients that the polynomial may have: one more
    /// than its degree bound, or else the number that it has, and at least
    /// one.
    pub open spec fn capacity(self) -> int {
        match self.degree_bound {
            Some(d) => d + 1,
            None => if self.coeffs.len() == 0 {
                1
            } else {
                self.coeffs.len() as int
            },
        }
    }

    /// Whether no coefficient above the declared degree bound is set.
    pub fn check_bound(&self) -> (ok: bool)
        ensures
            ok == self.within_bound(),
    {
        match self.degree_bound {
            None => true,
            Some(d) => {
                if d >= self.coeffs.len() {
                    return true;
                }
                let zero = Fr::zero();
                let mut i: usize = d + 1;
                while i < self.coeffs.len()
                    invariant
                        d < i,
                        self.degree_bound == Some(d),
                        zero@ == 0,
                        forall|k: int| d < k < i && k < self.coeffs.len() ==> (
                        #[trigger] self.coeffs[k])@ == 0,
                    decreases self.coeffs.len() - i,
                {
                    if self.coeffs[i] != zero {
                        proof {
                            if self.coeffs[i as int]@ == 0 {
                                Fr::lemma_view_injective(self.coeffs[i as int], zero);
                            }
                        }
                        return false;
                    }
                    i += 1;
                }
                true
            },
        }
    }

    /// The value of the polynomial at `z`.
    pub fn evaluate(&self, z: &Fr) -> (y: Fr)
        ensures
            y@ == reduce(poly_eval(self.values(), z@)),
    {
        let ghost f = eval_term(self.values(), z@);
        let mut acc = Fr::zero();
        let mut zp = Fr::one();
        let mut i: usize = 0;
        proof {
            lemma_pow0(z@);
        }
        while i < self.coeffs.len()
            invariant
                i <= self.coeffs.len(),
                f == eval_term(self.values(), z@),
                acc@ == reduce(sum(f, i as nat)),
                zp@ == reduce(pow(z@, i as nat)),
            decreases self.coeffs.len() - i,
        {
            let term = self.coeffs[i].mul(&zp);
            proof {
                let c = self.coeffs[i as int]@;
                let w = pow(z@, i as nat);
                lemma_reduce_mul(c, w);
                lemma_reduce_add(sum(f, i as nat), c * w);
                assert(f(i as int) == c * w);
                assert(sum(f, (i + 1) as nat) == sum(f, i as nat) + f(i as int));
                lemma_reduce_mul(w, z@);
                lemma_next_power(z@, i as nat);
                assert(w * z@ == z@ * w) by (nonlinear_arith);
            }
            acc = acc.add(&term);
            zp = zp.mul(z);
            i += 1;
        }
        acc
    }
}

/// Reducing the base of a power first does not change its residue.
pub proof fn lemma_reduce_pow(x: int, e: nat)
    ensures
        reduce(pow(reduce(x), e)) == reduce(pow(x, e)),
    decreases e,
{
    if e == 0 {
        lemma_pow0(x);
        lemma_pow0(reduce(x));
    } else {
        let d = (e - 1) as nat;
        lemma_reduce_pow(x, d);
        lemma_next_power(x, d);
        lemma_next_power(reduce(x), d);
        lemma_reduce_mul(reduce(x), pow(reduce(x), d));
        lemma_reduce_mul(x, pow(x, d));
        lemma_reduce_mul(x, pow(reduce(x), d));
    }
}

/// `base` to the power `e`.
pub fn power(base: &Fr, e: usize) -> (r: Fr)
    ensures
        r@ == reduce(pow(base@, e as nat)),
{
    let mut r = Fr::one();
    let mut i: usize = 0;
    proof {
        lemma_pow0(base@);
    }
    while i < e
        invariant
            i <= e,
            r@ == reduce(pow(base@, i as nat)),
        decreases e - i,
    {
        proof {
            let w = pow(base@, i as nat);
            lemma_reduce_mul(w, base@);
            lemma_next_power(base@, i as nat);
            assert(w * base@ == base@ * w) by (nonlinear_arith);
        }
        r = r.mul(base);
        i += 1;
    }
    r
}

/// The first `count` powers of `base`, from the power zero on.
pub fn power_sequence(base: &Fr, count: usize) -> (r: Vec<Fr>)
    ensures
        r.len() == count,
        forall|i: int| 0 <= i < count ==> (#[trigger] r[i])@ == reduce(pow(base@, i as nat)),
{
    let mut r: Vec<Fr> = Vec::new();
    let mut cur = Fr::one();
    let mut i: usize = 0;
    proof {
        lemma_pow0(base@);
    }
    while i < count
        invariant
            i <= count,
            r.len() == i,
            cur@ == reduce(pow(base@, i as nat)),
            forall|k: int| 0 <= k < i ==> (#[trigger] r[k])@ == reduce(pow(base@, k as nat)),
        decreases count - i,
    {
        proof {
            let w = pow(base@, i as nat);
            lemma_reduce_mul(w, base@);
            lemma_next_power(base@, i as nat);
            assert(w * base@ == base@ * w) by (nonlinear_arith);
        }
        r.push(cur);
        cur = cur.mul(base);
        i += 1;
    }
    r
}

/// The values of the coefficients of a list of polynomials.
pub open spec fn poly_vals(polys: Seq<LabeledPolynomial>) -> Seq<Seq<int>> {
    Seq::new(polys.len(), |i: int| polys[i].values())
}

/// Coefficient `k` of a polynomial: zero behind its last coefficient.
pub open spec fn coeff_at(c: Seq<int>, k: int) -> int {
    if 0 <= k < c.len() {
        c[k]
    } else {
        0
    }
}

/// The entry in row `row` and column `col` of the matrix in which every
/// polynomial fills `block` rows of `cols` entries.
pub open spec fn layout_entry(polys: Seq<Seq<int>>, block: int, cols: int, row: int, col: int) -> int {
    coeff_at(polys[row / block], (row % block) * cols + col)
}

/// Row `row` of that matrix.
pub open spec fn layout_row(polys: Seq<Seq<int>>, block: int, cols: int, row: int) -> Seq<int> {
    Seq::new(cols as nat, |j: int| layout_entry(polys, block, cols, row, j))
}

/// The matrix in which every polynomial fills `block` rows of `cols`
/// entries.
pub open spec fn layout(polys: Seq<Seq<int>>, block: int, cols: int) -> Seq<Seq<int>> {
    Seq::new((polys.len() * block) as nat, |i: int| layout_row(polys, block, cols, i))
}

/// The digests of the columns of a matrix of `width` columns.
pub open spec fn column_digests(rows: Seq<Seq<int>>, width: nat) -> Seq<Seq<u8>> {
    Seq::new(width, |j: int| FieldToBytesColHasher::digest(crate::algebra::column(rows, j)))
}

/// One row of the matrix: `cols` coefficients of `coeffs` from the one at
/// `start` on, with zeros behind the last.
fn layout_one_row(coeffs: &Vec<Fr>, start: Ghost<int>, from: usize, cols: usize) -> (row: Vec<Fr>)
    requires
        0 <= start@,
        from <= coeffs.len(),
        from == if start@ < coeffs.len() {
            start@
        } else {
            coeffs.len() as int
        },
    ensures
        row.len() == cols,
        forall|j: int| 0 <= j < cols ==> (#[trigger] row[j])@ == coeff_at(vals(coeffs@), start@ + j),
{
    let mut row: Vec<Fr> = Vec::new();
    let mut pos: usize = from;
    let mut j: usize = 0;
    while j < cols
        invariant
            j <= cols,
            row.len() == j,
            0 <= start@,
            pos <= coeffs.len(),
            pos == if start@ + j < coeffs.len() {
                start@ + j
            } else {
                coeffs.len() as int
            },
            forall|l: int| 0 <= l < j ==> (#[trigger] row[l])@ == coeff_at(vals(coeffs@), start@ + l),
        decreases cols - j,
    {
        if pos < coeffs.len() {
            row.push(coeffs[pos]);
            pos += 1;
        } else {
            row.push(Fr::zero());
        }
        j += 1;
    }
    row
}

/// The matrix in which every polynomial of `polys` fills `block` rows of
/// `cols` entries.
pub fn layout_matrix(polys: &Vec<LabeledPolynomial>, block: usize, cols: usize) -> (mat: Matrix)
    requires
        polys.len() >= 1,
        block >= 1,
        cols >= 1,
    ensures
        mat.values() == layout(poly_vals(polys@), block as int, cols as int),
        mat.height() == polys.len() * block,
        mat.width() == cols,
{
    let mut rows: Vec<Vec<Fr>> = Vec::new();
    let ghost pv = poly_vals(polys@);
    let mut i: usize = 0;
    while i < polys.len()
        invariant
            i <= polys.len(),
            block >= 1,
            cols >= 1,
            pv == poly_vals(polys@),
            rows.len() == i * block,
            forall|r: int|
                0 <= r < rows.len() ==> (#[trigger] rows[r]).len() == cols && vals(rows[r]@)
                    == layout_row(pv, block as int, cols as int, r),
        decreases polys.len() - i,
    {
        let coeffs = &polys[i].coeffs;
        let mut q: usize = 0;
        let mut from: usize = 0;
        proof {
            assert(i * block + 0 == i * block);
            assert(0 * cols == 0);
        }
        while q < block
            invariant
                q <= block,
                i < polys.len(),
                block >= 1,
                cols >= 1,
                pv == poly_vals(polys@),
                coeffs == &polys[i as int].coeffs,
                rows.len() == i * block + q,
                from <= coeffs.len(),
                from == if q * cols < coeffs.len() {
                    q * cols
                } else {
                    coeffs.len() as int
                },
                forall|r: int|
                    0 <= r < rows.len() ==> (#[trigger] rows[r]).len() == cols && vals(rows[r]@)
                        == layout_row(pv, block as int, cols as int, r),
            decreases block - q,
        {
            let ghost start = q * cols;
            let ghost before = rows@;
            proof {
                assert(0 <= q * cols) by (nonlinear_arith)
                    requires
                        0 <= q,
                        0 <= cols,
                ;
            }
            let row = layout_one_row(coeffs, Ghost(start), from, cols);
            proof {
                let r = i * block + q;
                assert(0 <= i * block) by (nonlinear_arith)
                    requires
                        0 <= i,
                        0 <= block,
                ;
                lemma_fundamental_div_mod_converse(r, block as int, i as int, q as int);
                assert(pv[i as int] == vals(coeffs@));
                assert(vals(row@) =~= layout_row(pv, block as int, cols as int, r));
                assert((q + 1) * cols == q * cols + cols) by (nonlinear_arith);
            }
            from = if coeffs.len() - from >= cols {
                from + cols
            } else {
                coeffs.len()
            };
            rows.push(row);
            proof {
                assert forall|r: int| 0 <= r < rows.len() implies (#[trigger] rows[r]).len() == cols
                    && vals(rows[r]@) == layout_row(pv, block as int, cols as int, r) by {
                    if r < before.len() {
                        assert(rows[r] == before[r]);
                    }
                }
            }
            q += 1;
        }
        proof {
            assert((i + 1) * block == i * block + block) by (nonlinear_arith);
        }
        i += 1;
    }
    proof {
        assert forall|r: int| 0 <= r < rows.len() implies (#[trigger] rows_of(rows@)[r]).len()
            == cols by {
            assert(rows[r].len() == cols);
        }
        assert(rectangular(rows_of(rows@), rows.len() as nat, cols as nat));
    }
    let ghost height = rows.len();
    let ghost held = rows_of(rows@);
    let mat = Matrix::new_from_rows(rows).unwrap();
    proof {
        assert(mat@ == held);
        assert forall|r: int| 0 <= r < height implies #[trigger] mat.values()[r] == layout_row(
            pv,
            block as int,
            cols as int,
            r,
        ) by {
            assert(mat.values()[r] == vals(held[r]));
        }
        assert(mat.values() =~= layout(pv, block as int, cols as int));
        assert(polys.len() * block >= 1) by (nonlinear_arith)
            requires
                polys.len() >= 1,
                block >= 1,
        ;
        assert(held[0].len() == cols);
        mat.lemma_width(cols as nat);
    }
    mat
}

} // verus!
