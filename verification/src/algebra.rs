//! The arithmetic that the contracts speak of: finite sums over the integers,
//! inner products, linear combinations of rows and polynomial evaluation,
//! each taken as an integer and reduced by the field's modulus only where a
//! field element is meant.

use crate::field::{modulus, Fr};
use vstd::arithmetic::div_mod::{lemma_add_mod_noop, lemma_mul_mod_noop_general};
use vstd::arithmetic::power::pow;
use vstd::prelude::*;

verus! {

/// The canonical representative of `x` in the field.
pub open spec fn reduce(x: int) -> int {
    x % modulus()
}

/// The values of a sequence of field elements.
pub open spec fn vals(s: Seq<Fr>) -> Seq<int> {
    Seq::new(s.len(), |i: int| s[i]@)
}

/// The field element with the value `v`.
pub open spec fn element(v: int) -> Fr {
    choose|x: Fr| x@ == v
}

/// The field elements with the values `v`.
pub open spec fn elements(v: Seq<int>) -> Seq<Fr> {
    Seq::new(v.len(), |i: int| element(v[i]))
}

/// A field element is the one with its value.
pub proof fn lemma_element(x: Fr)
    ensures
        element(x@) == x,
{
    Fr::lemma_view_injective(element(x@), x);
}

/// Field elements are the ones with their values.
pub proof fn lemma_elements(s: Seq<Fr>)
    ensures
        elements(vals(s)) == s,
{
    assert forall|i: int| 0 <= i < s.len() implies #[trigger] elements(vals(s))[i] == s[i] by {
        lemma_element(s[i]);
    }
    assert(elements(vals(s)) =~= s);
}

/// The values of the rows of a matrix.
pub open spec fn row_vals(rows: Seq<Seq<Fr>>) -> Seq<Seq<int>> {
    Seq::new(rows.len(), |i: int| vals(rows[i]))
}

/// A sequence with every entry reduced.
pub open spec fn reduce_seq(s: Seq<int>) -> Seq<int> {
    Seq::new(s.len(), |i: int| reduce(s[i]))
}

/// `f(0) + f(1) + ... + f(n - 1)`.
pub open spec fn sum(f: spec_fn(int) -> int, n: nat) -> int
    decreases n,
{
    if n == 0 {
        0
    } else {
        sum(f, (n - 1) as nat) + f(n - 1)
    }
}

pub open spec fn min_len(a: Seq<int>, b: Seq<int>) -> nat {
    if a.len() <= b.len() {
        a.len()
    } else {
        b.len()
    }
}

pub open spec fn dot_term(a: Seq<int>, b: Seq<int>) -> spec_fn(int) -> int {
    |i: int| a[i] * b[i]
}

/// The inner product of `a` and `b`, over the positions that both have.
pub open spec fn dot(a: Seq<int>, b: Seq<int>) -> int {
    sum(dot_term(a, b), min_len(a, b))
}

pub open spec fn eval_term(c: Seq<int>, x: int) -> spec_fn(int) -> int {
    |i: int| c[i] * pow(x, i as nat)
}

/// The polynomial with coefficients `c`, lowest degree first, at `x`.
pub open spec fn poly_eval(c: Seq<int>, x: int) -> int {
    sum(eval_term(c, x), c.len())
}

/// Column `j` of a matrix given by its rows.
pub open spec fn column(rows: Seq<Seq<int>>, j: int) -> Seq<int> {
    Seq::new(rows.len(), |i: int| rows[i][j])
}

/// The combination of the rows of a matrix with the coefficients `v`: the
/// product of the row vector `v` with the matrix, `width` entries wide.
pub open spec fn combine(v: Seq<int>, rows: Seq<Seq<int>>, width: nat) -> Seq<int> {
    Seq::new(width, |j: int| dot(v, column(rows, j)))
}

/// `1, x, x^2, ..., x^(n - 1)`.
pub open spec fn powers(x: int, n: nat) -> Seq<int> {
    Seq::new(n, |i: int| pow(x, i as nat))
}

/// Adding a reduced product to a reduced sum is adding the product to the sum.
pub proof fn lemma_accumulate(s: int, x: int, y: int)
    ensures
        reduce(reduce(s) + reduce(x * y)) == reduce(s + x * y),
{
    lemma_add_mod_noop(s, x * y, modulus());
}

/// Reducing the factors of a product first does not change its residue.
pub proof fn lemma_reduce_mul(x: int, y: int)
    ensures
        reduce(reduce(x) * reduce(y)) == reduce(x * y),
        reduce(reduce(x) * y) == reduce(x * y),
        reduce(x * reduce(y)) == reduce(x * y),
{
    lemma_mul_mod_noop_general(x, y, modulus());
}

/// Reducing the terms of a sum first does not change its residue.
pub proof fn lemma_reduce_add(x: int, y: int)
    ensures
        reduce(reduce(x) + reduce(y)) == reduce(x + y),
        reduce(reduce(x) + y) == reduce(x + y),
        reduce(x + reduce(y)) == reduce(x + y),
{
    lemma_add_mod_noop(x, y, modulus());
}

/// Sums of termwise equal functions are equal.
pub proof fn lemma_sum_equal(f: spec_fn(int) -> int, g: spec_fn(int) -> int, n: nat)
    requires
        forall|i: int| 0 <= i < n ==> #[trigger] f(i) == g(i),
    ensures
        sum(f, n) == sum(g, n),
    decreases n,
{
    if n > 0 {
        lemma_sum_equal(f, g, (n - 1) as nat);
    }
}

/// Sums of termwise congruent functions are congruent.
pub proof fn lemma_sum_congruent(f: spec_fn(int) -> int, g: spec_fn(int) -> int, n: nat)
    requires
        forall|i: int| 0 <= i < n ==> reduce(#[trigger] f(i)) == reduce(g(i)),
    ensures
        reduce(sum(f, n)) == reduce(sum(g, n)),
    decreases n,
{
    if n > 0 {
        lemma_sum_congruent(f, g, (n - 1) as nat);
        lemma_reduce_add(sum(f, (n - 1) as nat), f(n - 1));
        lemma_reduce_add(sum(g, (n - 1) as nat), g(n - 1));
    }
}

/// A sum of zeros is zero.
pub proof fn lemma_sum_zero(f: spec_fn(int) -> int, n: nat)
    requires
        forall|i: int| 0 <= i < n ==> #[trigger] f(i) == 0,
    ensures
        sum(f, n) == 0,
    decreases n,
{
    if n > 0 {
        lemma_sum_zero(f, (n - 1) as nat);
    }
}

/// A factor common to all terms can be taken out of a sum.
pub proof fn lemma_sum_scale(f: spec_fn(int) -> int, h: spec_fn(int) -> int, c: int, n: nat)
    requires
        forall|i: int| 0 <= i < n ==> #[trigger] h(i) == c * f(i),
    ensures
        sum(h, n) == c * sum(f, n),
    decreases n,
{
    if n > 0 {
        let m = (n - 1) as nat;
        lemma_sum_scale(f, h, c, m);
        assert(c * (sum(f, m) + f(m as int)) == c * sum(f, m) + c * f(m as int))
            by (nonlinear_arith);
    }
}

/// The sum of termwise sums is the sum of the sums.
pub proof fn lemma_sum_add(
    f: spec_fn(int) -> int,
    g: spec_fn(int) -> int,
    h: spec_fn(int) -> int,
    n: nat,
)
    requires
        forall|i: int| 0 <= i < n ==> #[trigger] h(i) == f(i) + g(i),
    ensures
        sum(h, n) == sum(f, n) + sum(g, n),
    decreases n,
{
    if n > 0 {
        lemma_sum_add(f, g, h, (n - 1) as nat);
    }
}

/// A sum is the sum of its first terms and the sum of the others.
pub proof fn lemma_sum_split(f: spec_fn(int) -> int, rest: spec_fn(int) -> int, a: nat, n: nat)
    requires
        a <= n,
        forall|i: int| 0 <= i < n - a ==> #[trigger] rest(i) == f(a + i),
    ensures
        sum(f, n) == sum(f, a) + sum(rest, (n - a) as nat),
    decreases n - a,
{
    if a < n {
        lemma_sum_split(f, rest, a, (n - 1) as nat);
        assert(rest(n - 1 - a) == f(a + (n - 1 - a)));
    }
}

/// Row `i` of a function of two indices.
pub open spec fn row_slice(g: spec_fn(int, int) -> int, i: int) -> spec_fn(int) -> int {
    |j: int| g(i, j)
}

/// Column `j` of a function of two indices.
pub open spec fn col_slice(g: spec_fn(int, int) -> int, j: int) -> spec_fn(int) -> int {
    |i: int| g(i, j)
}

/// The sums of the rows over their first `m` entries.
pub open spec fn row_sums(g: spec_fn(int, int) -> int, m: nat) -> spec_fn(int) -> int {
    |i: int| sum(row_slice(g, i), m)
}

/// The sums of the columns over their first `n` entries.
pub open spec fn col_sums(g: spec_fn(int, int) -> int, n: nat) -> spec_fn(int) -> int {
    |j: int| sum(col_slice(g, j), n)
}

/// Summing by rows and summing by columns give the same.
pub proof fn lemma_sum_exchange(g: spec_fn(int, int) -> int, n: nat, m: nat)
    ensures
        sum(row_sums(g, m), n) == sum(col_sums(g, n), m),
    decreases n,
{
    if n == 0 {
        assert forall|j: int| 0 <= j < m implies #[trigger] col_sums(g, 0)(j) == 0 by {}
        lemma_sum_zero(col_sums(g, 0), m);
    } else {
        let k = (n - 1) as nat;
        lemma_sum_exchange(g, k, m);
        assert forall|j: int| 0 <= j < m implies #[trigger] col_sums(g, n)(j) == col_sums(g, k)(j)
            + row_slice(g, k as int)(j) by {
            assert(col_slice(g, j)(k as int) == g(k as int, j));
        }
        lemma_sum_add(col_sums(g, k), row_slice(g, k as int), col_sums(g, n), m);
        assert(row_sums(g, m)(k as int) == sum(row_slice(g, k as int), m));
    }
}

/// The entries of `width` consecutive blocks, block by block.
pub open spec fn block_slice(f: spec_fn(int) -> int, width: nat) -> spec_fn(int, int) -> int {
    |q: int, k: int| f(q * width + k)
}

/// A sum over `blocks` blocks of `width` terms is the sum of the sums of
/// the blocks.
pub proof fn lemma_sum_blocks(f: spec_fn(int) -> int, blocks: nat, width: nat)
    ensures
        sum(f, blocks * width) == sum(row_sums(block_slice(f, width), width), blocks),
    decreases blocks,
{
    if blocks == 0 {
        assert(blocks * width == 0);
    } else {
        let b = (blocks - 1) as nat;
        lemma_sum_blocks(f, b, width);
        let g = block_slice(f, width);
        assert(blocks * width == b * width + width) by (nonlinear_arith)
            requires
                blocks == b + 1,
        ;
        assert forall|k: int| 0 <= k < width implies #[trigger] row_slice(g, b as int)(k) == f(
            b * width + k,
        ) by {}
        lemma_sum_split(f, row_slice(g, b as int), b * width, blocks * width);
        assert(row_sums(g, width)(b as int) == sum(row_slice(g, b as int), width));
    }
}

/// Terms that are zero from `a` on add nothing to a sum.
pub proof fn lemma_sum_tail_zero(f: spec_fn(int) -> int, a: nat, n: nat)
    requires
        a <= n,
        forall|i: int| a <= i < n ==> #[trigger] f(i) == 0,
    ensures
        sum(f, n) == sum(f, a),
    decreases n - a,
{
    if a < n {
        lemma_sum_tail_zero(f, a, (n - 1) as nat);
    }
}

} // verus!
