//! The expander code: a message is sent through a sparse linear map, the
//! shorter result is encoded by the same rule, and the codeword of the
//! result is sent through a second sparse map; the codeword of the message
//! is the message, then the inner codeword, then the image of the inner
//! codeword. The shortest message is encoded with the Reed-Solomon code.

use crate::algebra::{
    column, combine, dot, dot_term, lemma_reduce_mul, lemma_sum_congruent, reduce, reduce_seq,
    vals,
};
use crate::code::{codeword, root_of_unity, LinearCode, ReedSolomon};
use crate::laws::{lemma_encoding_is_linear, row_values};
use crate::sparse::{column_products, lemma_column_product_is_linear};
use vstd::arithmetic::power::pow;
use crate::error::Error;
use crate::field::{check_canonical, modulus, Fr};
use crate::sparse::SparseMatrix;
use crate::transcript::copy_elements;
use vstd::arithmetic::div_mod::{lemma_mod_twice, lemma_small_mod};
use vstd::prelude::*;

verus! {

/// One level of the code: the map `a` that shortens the message, and the
/// map `b` that is applied to the inner codeword.
#[derive(Debug)]
pub struct Level {
    pub a: SparseMatrix,
    pub b: SparseMatrix,
}

/// The length of the messages of level `l`; behind the last level, of the
/// messages of the base code.
pub open spec fn input_len(levels: Seq<Level>, base: ReedSolomon, l: int) -> nat {
    if 0 <= l < levels.len() {
        levels[l].a.height()
    } else {
        base.message_len_spec()
    }
}

/// The length of the codewords of level `l`; behind the last level, of the
/// codewords of the base code.
pub open spec fn output_len(levels: Seq<Level>, base: ReedSolomon, l: int) -> nat
    decreases levels.len() - l,
{
    if 0 <= l < levels.len() {
        levels[l].a.height() + output_len(levels, base, l + 1) + levels[l].b.width()
    } else {
        base.codeword_len_spec()
    }
}

/// Whether level `l` fits the level behind it: its first map makes
/// messages of the next level, and its second map takes codewords of the
/// next level.
pub open spec fn fits(levels: Seq<Level>, base: ReedSolomon, l: int) -> bool {
    &&& levels[l].a.sound()
    &&& levels[l].b.sound()
    &&& levels[l].a.width() == input_len(levels, base, l + 1)
    &&& levels[l].b.height() == output_len(levels, base, l + 1)
}

/// Whether every level from `l` on fits the level behind it.
pub open spec fn chained(levels: Seq<Level>, base: ReedSolomon, l: int) -> bool {
    forall|k: int| l <= k < levels.len() && 0 <= k ==> #[trigger] fits(levels, base, k)
}

/// The codeword of `x` at level `l`.
pub open spec fn expand(levels: Seq<Level>, base: ReedSolomon, l: int, x: Seq<int>) -> Seq<int>
    decreases levels.len() - l,
{
    if 0 <= l < levels.len() {
        let inner = expand(levels, base, l + 1, levels[l].a.product(x));
        reduce_seq(x) + inner + levels[l].b.product(inner)
    } else {
        codeword(x, base.codeword_len_spec())
    }
}

/// A codeword of level `l` has the length of that level's codewords.
pub proof fn lemma_expand_len(levels: Seq<Level>, base: ReedSolomon, l: int, x: Seq<int>)
    requires
        0 <= l <= levels.len(),
        chained(levels, base, l),
        x.len() == input_len(levels, base, l),
    ensures
        expand(levels, base, l, x).len() == output_len(levels, base, l),
    decreases levels.len() - l,
{
    if l < levels.len() {
        assert(fits(levels, base, l));
        lemma_expand_len(levels, base, l + 1, levels[l].a.product(x));
    }
}

/// The codewords of a level are not shorter than those of the level behind
/// it.
pub proof fn lemma_output_len_grows(levels: Seq<Level>, base: ReedSolomon, l: int, k: int)
    requires
        0 <= l <= k <= levels.len(),
    ensures
        output_len(levels, base, k) <= output_len(levels, base, l),
    decreases k - l,
{
    if l < k {
        lemma_output_len_grows(levels, base, l + 1, k);
    }
}

/// `dst` with `src` behind it.
fn append(dst: &mut Vec<Fr>, src: &Vec<Fr>)
    ensures
        final(dst)@ == old(dst)@ + src@,
{
    let ghost before = dst@;
    let mut i: usize = 0;
    while i < src.len()
        invariant
            i <= src.len(),
            dst@ == before + src@.take(i as int),
        decreases src.len() - i,
    {
        dst.push(src[i]);
        proof {
            assert(src@.take(i + 1) =~= src@.take(i as int).push(src[i as int]));
            assert(dst@ =~= before + src@.take(i + 1));
        }
        i += 1;
    }
    proof {
        assert(src@.take(src.len() as int) =~= src@);
    }
}

/// The expander code.
#[derive(Debug)]
pub struct Brakedown {
    levels: Vec<Level>,
    base: ReedSolomon,
    message_len: usize,
    codeword_len: usize,
}

impl Brakedown {
    #[verifier::type_invariant]
    pub closed spec fn wf(self) -> bool {
        &&& chained(self.levels@, self.base, 0)
        &&& self.message_len == input_len(self.levels@, self.base, 0)
        &&& self.codeword_len == output_len(self.levels@, self.base, 0)
    }

    /// The levels, the outermost first.
    pub closed spec fn levels(self) -> Seq<Level> {
        self.levels@
    }

    /// The code of the shortest messages.
    pub closed spec fn base(self) -> ReedSolomon {
        self.base
    }

    /// The length of a message.
    pub open spec fn message_len_spec(self) -> nat {
        input_len(self.levels(), self.base(), 0)
    }

    /// The length of a codeword.
    pub open spec fn codeword_len_spec(self) -> nat {
        output_len(self.levels(), self.base(), 0)
    }

    /// The codeword of a message with the values `msg`.
    pub open spec fn codeword(self, msg: Seq<int>) -> Seq<int> {
        expand(self.levels(), self.base(), 0, msg)
    }

    /// The code with the given levels, the outermost first, over the given
    /// base code. Refuses levels that do not fit each other, and a code
    /// whose codewords would be longer than a vector can be.
    pub fn new(levels: Vec<Level>, base: ReedSolomon) -> (r: Result<Brakedown, Error>)
        ensures
            r.is_ok() <==> chained(levels@, base, 0) && output_len(levels@, base, 0) <= usize::MAX,
            r matches Err(e) ==> e == Error::InvalidParameters,
            r matches Ok(code) ==> code.wf() && code.levels() == levels@ && code.base() == base,
    {
        let depth = levels.len();
        let mut l: usize = depth;
        let mut inp: usize = base.message_len();
        let mut out: usize = base.codeword_len();
        while l > 0
            invariant
                l <= depth,
                depth == levels.len(),
                chained(levels@, base, l as int),
                inp == input_len(levels@, base, l as int),
                out == output_len(levels@, base, l as int),
            decreases l,
        {
            l -= 1;
            let level = &levels[l];
            let a_rows = level.a.n_rows();
            let a_cols = level.a.n_cols();
            let b_rows = level.b.n_rows();
            let b_cols = level.b.n_cols();
            if a_cols != inp || b_rows != out {
                proof {
                    assert(!fits(levels@, base, l as int));
                }
                return Err(Error::InvalidParameters);
            }
            proof {
                assert(fits(levels@, base, l as int));
                lemma_output_len_grows(levels@, base, 0, l as int);
            }
            let partial = match a_rows.checked_add(out) {
                Some(s) => s,
                None => {
                    return Err(Error::InvalidParameters);
                },
            };
            let total = match partial.checked_add(b_cols) {
                Some(s) => s,
                None => {
                    return Err(Error::InvalidParameters);
                },
            };
            inp = a_rows;
            out = total;
        }
        Ok(Brakedown { levels, base, message_len: inp, codeword_len: out })
    }

    /// The length of a message.
    pub fn message_len(&self) -> (n: usize)
        ensures
            n == self.message_len_spec(),
            chained(self.levels(), self.base(), 0),
    {
        proof {
            use_type_invariant(self);
        }
        self.message_len
    }

    /// The length of a codeword.
    pub fn codeword_len(&self) -> (n: usize)
        ensures
            n == self.codeword_len_spec(),
            chained(self.levels(), self.base(), 0),
    {
        proof {
            use_type_invariant(self);
        }
        self.codeword_len
    }

    /// The codeword of `row`. A row that is not exactly one message long
    /// is refused.
    pub fn encode(&self, row: &Vec<Fr>) -> (r: Result<Vec<Fr>, Error>)
        ensures
            r.is_err() <==> row.len() != self.message_len_spec(),
            r.is_err() ==> r == Err::<Vec<Fr>, Error>(Error::InvalidInputLength),
            r.is_ok() ==> {
                &&& r.unwrap().len() == self.codeword_len_spec()
                &&& vals(r.unwrap()@) == self.codeword(vals(row@))
            },
    {
        proof {
            use_type_invariant(self);
        }
        if row.len() != self.message_len {
            return Err(Error::InvalidInputLength);
        }
        let ghost levels = self.levels@;
        let ghost base = self.base;
        let depth = self.levels.len();
        check_canonical(row);
        // The messages of all levels, the outermost first.
        let mut messages: Vec<Vec<Fr>> = Vec::new();
        messages.push(copy_elements(row));
        proof {
            assert forall|i: int| 0 <= i < row.len() implies reduce(#[trigger] vals(row@)[i])
                == vals(row@)[i] by {
                lemma_small_mod(row[i]@ as nat, modulus() as nat);
            }
            assert(reduce_seq(vals(row@)) =~= vals(row@));
        }
        let mut l: usize = 0;
        while l < depth
            invariant
                l <= depth,
                depth == levels.len(),
                levels == self.levels@,
                base == self.base,
                chained(levels, base, 0),
                messages.len() == l + 1,
                messages[0]@ == row@,
                forall|k: int| 0 <= k <= l ==> #[trigger] is_message(levels, base, messages@, k),
            decreases depth - l,
        {
            proof {
                assert(fits(levels, base, l as int));
                assert(is_message(levels, base, messages@, l as int));
            }
            let ghost before = messages@;
            let next = self.levels[l].a.row_mul(&messages[l]);
            proof {
                let x = vals(messages[l as int]@);
                let y = levels[l as int].a.product(x);
                assert forall|i: int| 0 <= i < y.len() implies reduce(#[trigger] y[i]) == y[i] by {
                    let s = crate::algebra::sum(
                        crate::sparse::entry_term(x, levels[l as int].a.columns()[i]),
                        levels[l as int].a.columns()[i].len(),
                    );
                    lemma_mod_twice(s, modulus());
                }
                assert(reduce_seq(y) =~= y);
            }
            messages.push(next);
            proof {
                assert forall|k: int| 0 <= k <= l + 1 implies #[trigger] is_message(
                    levels,
                    base,
                    messages@,
                    k,
                ) by {
                    if k <= l {
                        assert(is_message(levels, base, before, k));
                        assert(messages[k] == before[k]);
                        if k > 0 {
                            assert(messages[k - 1] == before[k - 1]);
                        }
                    } else {
                        assert(messages[k - 1] == before[k - 1]);
                    }
                }
            }
            l += 1;
        }
        proof {
            assert(is_message(levels, base, messages@, depth as int));
        }
        let mut cw = self.base.encode(&messages[depth]).unwrap();
        while l > 0
            invariant
                l <= depth,
                depth == levels.len(),
                levels == self.levels@,
                base == self.base,
                chained(levels, base, 0),
                messages.len() == depth + 1,
                messages[0]@ == row@,
                forall|k: int| 0 <= k <= depth ==> #[trigger] is_message(levels, base, messages@, k),
                cw.len() == output_len(levels, base, l as int),
                vals(cw@) == expand(levels, base, l as int, vals(messages[l as int]@)),
            decreases l,
        {
            l -= 1;
            proof {
                assert(fits(levels, base, l as int));
                assert(is_message(levels, base, messages@, l as int));
                assert(is_message(levels, base, messages@, l + 1));
            }
            let tail = self.levels[l].b.row_mul(&cw);
            let mut outer = copy_elements(&messages[l]);
            append(&mut outer, &cw);
            append(&mut outer, &tail);
            proof {
                let x = vals(messages[l as int]@);
                let inner = vals(cw@);
                assert(vals(outer@) =~= reduce_seq(x) + inner + levels[l as int].b.product(inner));
            }
            cw = outer;
        }
        Ok(cw)
    }
}

/// Whether message `k` has the length of the messages of level `k`, holds
/// reduced values, and is the image of the message before it.
pub open spec fn is_message(
    levels: Seq<Level>,
    base: ReedSolomon,
    messages: Seq<Vec<Fr>>,
    k: int,
) -> bool {
    &&& messages[k].len() == input_len(levels, base, k)
    &&& reduce_seq(vals(messages[k]@)) == vals(messages[k]@)
    &&& k > 0 ==> vals(messages[k]@) == levels[k - 1].a.product(vals(messages[k - 1]@))
}

/// Symbol `j` of the codewords, at level `l`, of the rows.
pub open spec fn symbols(
    levels: Seq<Level>,
    base: ReedSolomon,
    l: int,
    rows: Seq<Seq<int>>,
    j: int,
) -> Seq<int> {
    Seq::new(rows.len(), |i: int| expand(levels, base, l, rows[i])[j])
}

/// The images of the rows under a sparse map.
pub open spec fn images(map: SparseMatrix, rows: Seq<Seq<int>>) -> Seq<Seq<int>> {
    Seq::new(rows.len(), |i: int| map.product(rows[i]))
}

/// The codewords, at level `l`, of the rows.
pub open spec fn codewords(
    levels: Seq<Level>,
    base: ReedSolomon,
    l: int,
    rows: Seq<Seq<int>>,
) -> Seq<Seq<int>> {
    Seq::new(rows.len(), |i: int| expand(levels, base, l, rows[i]))
}

/// A sparse map commutes with combining rows.
pub proof fn lemma_sparse_map_is_linear(
    map: SparseMatrix,
    coeffs: Seq<int>,
    rows: Seq<Seq<int>>,
)
    requires
        map.sound(),
        coeffs.len() == rows.len(),
        forall|i: int| 0 <= i < rows.len() ==> (#[trigger] rows[i]).len() == map.height(),
    ensures
        reduce_seq(combine(coeffs, images(map, rows), map.width())) == map.product(
            reduce_seq(combine(coeffs, rows, map.height())),
        ),
{
    let left = reduce_seq(combine(coeffs, images(map, rows), map.width()));
    let right = map.product(reduce_seq(combine(coeffs, rows, map.height())));
    assert forall|k: int| 0 <= k < map.width() implies #[trigger] left[k] == right[k] by {
        let col = map.columns()[k];
        assert forall|e: int| 0 <= e < col.len() implies (#[trigger] col[e]).0 < map.height() by {
            assert(map.columns()[k][e].0 < map.height());
        }
        lemma_column_product_is_linear(col, map.height(), coeffs, rows);
        assert(column(images(map, rows), k) =~= column_products(rows, col));
    }
    assert(left =~= right);
}

/// The expander code is linear: at every level, the combination of the
/// codewords of the rows is the codeword of the combination of the rows,
/// symbol by symbol.
pub proof fn lemma_expand_is_linear(
    levels: Seq<Level>,
    base: ReedSolomon,
    l: int,
    coeffs: Seq<int>,
    rows: Seq<Seq<int>>,
    j: int,
)
    requires
        0 <= l <= levels.len(),
        chained(levels, base, l),
        coeffs.len() == rows.len(),
        forall|i: int| 0 <= i < rows.len() ==> (#[trigger] rows[i]).len() == input_len(levels, base, l),
        0 <= j < output_len(levels, base, l),
    ensures
        reduce(dot(coeffs, symbols(levels, base, l, rows, j))) == expand(
            levels,
            base,
            l,
            reduce_seq(combine(coeffs, rows, input_len(levels, base, l))),
        )[j],
    decreases levels.len() - l,
{
    let m = rows.len();
    let n = input_len(levels, base, l);
    let combined = reduce_seq(combine(coeffs, rows, n));
    let here = symbols(levels, base, l, rows, j);
    if l == levels.len() {
        let size = base.codeword_len_spec();
        let x = pow(root_of_unity(size), j as nat);
        assert(here =~= row_values(rows, x));
        lemma_encoding_is_linear(coeffs, rows, n, x);
    } else {
        assert(fits(levels, base, l));
        let a = levels[l].a;
        let b = levels[l].b;
        let shorter = images(a, rows);
        let inner_len = output_len(levels, base, l + 1);
        lemma_sparse_map_is_linear(a, coeffs, rows);
        let inner = expand(levels, base, l + 1, a.product(combined));
        lemma_expand_len(levels, base, l + 1, a.product(combined));
        assert forall|i: int| 0 <= i < m implies (#[trigger] expand(
            levels,
            base,
            l + 1,
            shorter[i],
        )).len() == inner_len by {
            lemma_expand_len(levels, base, l + 1, shorter[i]);
        }
        if j < n {
            let c = column(rows, j);
            assert forall|i: int| 0 <= i < m implies reduce(#[trigger] dot_term(coeffs, here)(i))
                == reduce(dot_term(coeffs, c)(i)) by {
                lemma_reduce_mul(coeffs[i], rows[i][j]);
            }
            lemma_sum_congruent(dot_term(coeffs, here), dot_term(coeffs, c), m);
            lemma_mod_twice(dot(coeffs, c), modulus());
        } else if j < n + inner_len {
            assert(here =~= symbols(levels, base, l + 1, shorter, j - n));
            lemma_expand_is_linear(levels, base, l + 1, coeffs, shorter, j - n);
        } else {
            let k = j - n - inner_len;
            let col = b.columns()[k];
            let inners = codewords(levels, base, l + 1, shorter);
            assert forall|e: int| 0 <= e < col.len() implies (#[trigger] col[e]).0 < inner_len by {
                assert(b.columns()[k][e].0 < b.height());
            }
            assert(here =~= column_products(inners, col));
            lemma_column_product_is_linear(col, inner_len, coeffs, inners);
            let folded = reduce_seq(combine(coeffs, inners, inner_len));
            assert forall|i: int| 0 <= i < inner_len implies #[trigger] folded[i] == inner[i] by {
                assert(column(inners, i) =~= symbols(levels, base, l + 1, shorter, i));
                lemma_expand_is_linear(levels, base, l + 1, coeffs, shorter, i);
            }
            assert(folded =~= inner);
        }
    }
}

impl LinearCode for Brakedown {
    open spec fn consistent(&self) -> bool {
        chained(self.levels(), self.base(), 0)
    }

    open spec fn input_length(&self) -> nat {
        self.message_len_spec()
    }

    open spec fn output_length(&self) -> nat {
        self.codeword_len_spec()
    }

    open spec fn codeword_of(&self, msg: Seq<int>) -> Seq<int> {
        self.codeword(msg)
    }

    fn input_len(&self) -> (n: usize) {
        self.message_len()
    }

    fn output_len(&self) -> (n: usize) {
        self.codeword_len()
    }

    fn encode_row(&self, row: &Vec<Fr>) -> (r: Result<Vec<Fr>, Error>) {
        self.encode(row)
    }

    proof fn lemma_linear(&self, coeffs: Seq<int>, rows: Seq<Seq<int>>, j: int) {
        assert(Seq::new(rows.len(), |i: int| self.codeword_of(rows[i])[j]) =~= symbols(
            self.levels(),
            self.base(),
            0,
            rows,
            j,
        ));
        lemma_expand_is_linear(self.levels(), self.base(), 0, coeffs, rows, j);
    }
}

} // verus!
