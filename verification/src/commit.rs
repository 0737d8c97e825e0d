//! Committing to polynomials: their coefficients are laid out in a matrix,
//! every row is encoded, every column of the encoded matrix is hashed, and
//! the root of the hash tree over the columns is the commitment.

use crate::algebra::{column, combine, reduce_seq, vals};
use crate::code::{lemma_max_is_pow2, lemma_pow2_gap, LinearCode, ReedSolomon, MAX_CODEWORD_LEN};
use crate::error::Error;
use crate::field::Fr;
use crate::hashing::{FieldToBytesColHasher, TestMerkleTreeParams};
use crate::layout::{column_digests, layout, layout_matrix, poly_vals, LabeledPolynomial};
use crate::linalg::{rectangular, rows_of, Matrix};
use crate::merkle::{bytes_of, is_pow2, leaf_digests, merkle_root, MerklePath, MerkleTree};
use crate::params::{ceil_div, compute_dimensions, is_ceil_div, is_matrix_shape, CommitterKey};
use vstd::arithmetic::div_mod::lemma_div_multiples_vanish;
use vstd::prelude::*;

verus! {

/// The largest inverse rate that the engine works with.
pub const MAX_RHO_INV: usize = 0x8000;

/// A commitment: the root of the hash tree over the columns of the encoded
/// matrix, with the shape of the matrix and the number of polynomials in
/// it.
#[derive(Clone, Debug)]
pub struct Commitment {
    pub root: Vec<u8>,
    pub n_rows: usize,
    pub n_cols: usize,
    pub n_ext_cols: usize,
    pub n_polys: usize,
}

impl Commitment {
    /// The number of rows that every polynomial fills.
    pub open spec fn block(self) -> int {
        self.n_rows as int / self.n_polys as int
    }
}

/// What the committer keeps to answer openings: the matrix of
/// coefficients, the encoded matrix, the digests of its columns and the
/// tree over them.
#[derive(Debug)]
pub struct CommitmentState {
    mat: Matrix,
    ext_mat: Matrix,
    leaves: Vec<Vec<u8>>,
    tree: MerkleTree<TestMerkleTreeParams>,
}

/// The largest capacity among the first `n` polynomials.
pub open spec fn max_capacity(polys: Seq<LabeledPolynomial>, n: nat) -> int
    decreases n,
{
    if n == 0 {
        0
    } else {
        let rest = max_capacity(polys, (n - 1) as nat);
        let last = polys[n - 1].capacity();
        if last > rest {
            last
        } else {
            rest
        }
    }
}

/// Whether every polynomial keeps to its declared degree bound.
pub open spec fn all_within_bound(polys: Seq<LabeledPolynomial>) -> bool {
    forall|i: int| 0 <= i < polys.len() ==> (#[trigger] polys[i]).within_bound()
}

/// The matrix whose rows are the codewords of the rows of `rows`.
pub open spec fn encoded<C: LinearCode>(code: C, rows: Seq<Seq<int>>) -> Seq<Seq<int>> {
    Seq::new(rows.len(), |i: int| code.codeword_of(rows[i]))
}

/// Whether `s` is the number of leaves of the tree over `n` columns: the
/// smallest power of two that is not below `n`, and at least two.
pub open spec fn is_tree_size(n: int, s: int) -> bool {
    &&& is_pow2(s)
    &&& s >= 2
    &&& n <= s
    &&& s == 2 || s < 2 * n
}

/// The number of leaves of the tree over `n` columns.
pub open spec fn tree_size(n: int) -> int {
    choose|s: int| is_tree_size(n, s)
}

/// There is one number of leaves for `n` columns.
pub proof fn lemma_tree_size(n: int, s: int)
    requires
        is_tree_size(n, s),
    ensures
        tree_size(n) == s,
{
    let u = tree_size(n);
    assert(is_pow2(4)) by {
        reveal_with_fuel(is_pow2, 4);
    }
    assert(is_pow2(2)) by {
        reveal_with_fuel(is_pow2, 3);
    }
    if s == 2 {
        if u != 2 {
            lemma_pow2_gap(u, 2);
        }
    } else if u == 2 {
        lemma_pow2_gap(s, 2);
    } else {
        lemma_pow2_gap(s, u);
        lemma_pow2_gap(u, s);
    }
}

/// The leaves of the tree: the digests of the columns, and behind them as
/// many empty leaves as fill the tree.
pub open spec fn padded_leaves(digests: Seq<Seq<u8>>) -> Seq<Seq<u8>> {
    digests + Seq::new(
        (tree_size(digests.len() as int) - digests.len()) as nat,
        |i: int| Seq::<u8>::empty(),
    )
}

/// The root that binds an encoded matrix of `width` columns.
pub open spec fn root_of_columns(ext: Seq<Seq<int>>, width: nat) -> Seq<u8> {
    merkle_root::<TestMerkleTreeParams>(padded_leaves(column_digests(ext, width)))
}

/// The root that binds a matrix of coefficients under a code.
pub open spec fn root_of_matrix<C: LinearCode>(code: C, rows: Seq<Seq<int>>) -> Seq<u8> {
    root_of_columns(encoded(code, rows), code.output_length())
}

/// Whether the polynomials can be committed to under a code, each in
/// `block` rows: there is a polynomial, every polynomial keeps to its
/// degree bound and fits its block, and neither the polynomials nor the
/// codewords are longer than the longest codeword.
pub open spec fn committable_with<C: LinearCode>(
    code: C,
    polys: Seq<LabeledPolynomial>,
    block: int,
) -> bool {
    &&& polys.len() >= 1
    &&& all_within_bound(polys)
    &&& block >= 1
    &&& code.input_length() >= 1
    &&& max_capacity(polys, polys.len()) <= MAX_CODEWORD_LEN
    &&& max_capacity(polys, polys.len()) <= block * code.input_length()
    &&& polys.len() * block <= usize::MAX
    &&& 1 <= code.output_length() <= MAX_CODEWORD_LEN
}

/// Whether `c` and `st` are the commitment to `polys` under a code, and
/// its state.
pub open spec fn committed<C: LinearCode>(
    code: C,
    polys: Seq<LabeledPolynomial>,
    c: Commitment,
    st: CommitmentState,
) -> bool {
    let block = c.block();
    &&& code.consistent()
    &&& 1 <= block
    &&& 1 <= c.n_cols
    &&& c.n_cols == code.input_length()
    &&& c.n_ext_cols == code.output_length()
    &&& c.n_ext_cols <= MAX_CODEWORD_LEN
    &&& max_capacity(polys, polys.len()) <= block * c.n_cols
    &&& c.n_polys == polys.len()
    &&& c.n_rows == polys.len() * block
    &&& st.matrix() == layout(poly_vals(polys), block, c.n_cols as int)
    &&& st.encoded_matrix() == encoded(code, st.matrix())
    &&& st.n_rows() == c.n_rows
    &&& st.n_cols() == c.n_cols
    &&& st.n_ext_cols() == c.n_ext_cols
    &&& c.root@ == st.root()
    &&& c.root@ == root_of_matrix(code, st.matrix())
}

/// Whether the key and the polynomials can be committed to with the
/// Reed-Solomon code.
pub open spec fn committable(ck: CommitterKey, polys: Seq<LabeledPolynomial>) -> bool {
    &&& polys.len() >= 1
    &&& all_within_bound(polys)
    &&& max_capacity(polys, polys.len()) <= MAX_CODEWORD_LEN
    &&& 2 <= ck.rho_inv <= MAX_RHO_INV
    &&& forall|rows: int, cols: int| #[trigger]
        is_matrix_shape(max_capacity(polys, polys.len()), rows, cols) ==> polys.len() * rows
            <= usize::MAX
}

/// Whether `c` and `st` are the commitment to `polys` with the
/// Reed-Solomon code, and its state: the matrix has the shape that the
/// largest polynomial fixes, and the code has the rate of the key.
pub open spec fn committed_ligero(
    ck: CommitterKey,
    polys: Seq<LabeledPolynomial>,
    c: Commitment,
    st: CommitmentState,
) -> bool {
    &&& is_matrix_shape(max_capacity(polys, polys.len()), c.block(), c.n_cols as int)
    &&& c.n_cols <= 0x8000
    &&& is_pow2(c.n_ext_cols as int)
    &&& c.n_cols * ck.rho_inv <= c.n_ext_cols < 2 * (c.n_cols * ck.rho_inv)
    &&& committed(ReedSolomon::with_lengths(c.n_cols as nat, c.n_ext_cols as nat), polys, c, st)
}

/// The largest capacity among the polynomials, if it is within the longest
/// codeword.
fn largest_capacity(polys: &Vec<LabeledPolynomial>) -> (r: Option<usize>)
    ensures
        r.is_some() <==> max_capacity(polys@, polys.len() as nat) <= MAX_CODEWORD_LEN,
        r.is_some() ==> r.unwrap() == max_capacity(polys@, polys.len() as nat),
{
    let mut best: usize = 0;
    let mut i: usize = 0;
    while i < polys.len()
        invariant
            i <= polys.len(),
            best == max_capacity(polys@, i as nat),
            best <= MAX_CODEWORD_LEN,
        decreases polys.len() - i,
    {
        let cap: usize = match polys[i].degree_bound {
            Some(d) => {
                if d >= MAX_CODEWORD_LEN {
                    proof {
                        lemma_max_capacity_grows(polys@, (i + 1) as nat, polys.len() as nat);
                    }
                    return None;
                }
                d + 1
            },
            None => if polys[i].coeffs.len() == 0 {
                1
            } else {
                polys[i].coeffs.len()
            },
        };
        if cap > MAX_CODEWORD_LEN {
            proof {
                lemma_max_capacity_grows(polys@, (i + 1) as nat, polys.len() as nat);
            }
            return None;
        }
        if cap > best {
            best = cap;
        }
        i += 1;
    }
    Some(best)
}

/// The largest capacity among more polynomials is not smaller.
pub proof fn lemma_max_capacity_grows(polys: Seq<LabeledPolynomial>, n: nat, m: nat)
    requires
        n <= m,
    ensures
        max_capacity(polys, n) <= max_capacity(polys, m),
    decreases m - n,
{
    if n < m {
        lemma_max_capacity_grows(polys, n, (m - 1) as nat);
    }
}

/// Whether every polynomial keeps to its declared degree bound.
fn check_bounds(polys: &Vec<LabeledPolynomial>) -> (ok: bool)
    ensures
        ok == all_within_bound(polys@),
{
    let mut i: usize = 0;
    while i < polys.len()
        invariant
            i <= polys.len(),
            forall|k: int| 0 <= k < i ==> (#[trigger] polys[k]).within_bound(),
        decreases polys.len() - i,
    {
        if !polys[i].check_bound() {
            return false;
        }
        i += 1;
    }
    true
}

/// The matrix whose rows are the codewords of the rows of `mat`.
pub fn encode_rows<C: LinearCode>(mat: &Matrix, code: &C) -> (ext: Matrix)
    requires
        mat.width() == code.input_length(),
        mat.height() >= 1,
    ensures
        ext.height() == mat.height(),
        ext.width() == code.output_length(),
        ext.values() == encoded(*code, mat.values()),
{
    let n = mat.n_rows();
    let ghost n_ext = code.output_length();
    let mut rows: Vec<Vec<Fr>> = Vec::new();
    let mut i: usize = 0;
    while i < n
        invariant
            i <= n,
            n == mat.height(),
            n_ext == code.output_length(),
            mat.width() == code.input_length(),
            rectangular(mat@, mat.height(), mat.width()),
            rows.len() == i,
            forall|r: int|
                0 <= r < i ==> (#[trigger] rows[r]).len() == n_ext && vals(rows[r]@)
                    == code.codeword_of(mat.values()[r]),
        decreases n - i,
    {
        let row = mat.row(i);
        let cw = code.encode_row(row).unwrap();
        proof {
            assert(mat.values()[i as int] == vals(mat@[i as int]));
        }
        rows.push(cw);
        i += 1;
    }
    proof {
        assert forall|r: int| 0 <= r < rows.len() implies (#[trigger] rows_of(rows@)[r]).len()
            == n_ext by {
            assert(rows[r].len() == n_ext);
        }
        assert(rectangular(rows_of(rows@), rows.len() as nat, n_ext));
    }
    let ghost held = rows_of(rows@);
    let ext = Matrix::new_from_rows(rows).unwrap();
    proof {
        assert forall|r: int| 0 <= r < n implies #[trigger] ext.values()[r] == code.codeword_of(
            mat.values()[r],
        ) by {
            assert(ext.values()[r] == vals(held[r]));
        }
        assert(ext.values() =~= encoded(*code, mat.values()));
        assert(held[0].len() == n_ext);
        ext.lemma_width(n_ext);
    }
    ext
}

/// The digests of the columns of `ext`.
pub fn hash_columns(ext: &Matrix) -> (leaves: Vec<Vec<u8>>)
    ensures
        bytes_of(leaves@) == column_digests(ext.values(), ext.width()),
{
    let cols = ext.cols();
    let mut leaves: Vec<Vec<u8>> = Vec::new();
    let mut j: usize = 0;
    while j < cols.len()
        invariant
            j <= cols.len(),
            cols.len() == ext.width(),
            leaves.len() == j,
            forall|l: int|
                0 <= l < cols.len() ==> vals((#[trigger] cols[l])@) == column(ext.values(), l),
            forall|l: int|
                0 <= l < j ==> (#[trigger] leaves[l])@ == FieldToBytesColHasher::digest(
                    column(ext.values(), l),
                ),
        decreases cols.len() - j,
    {
        let digest = FieldToBytesColHasher::evaluate(&(), &cols[j]).unwrap();
        leaves.push(digest);
        j += 1;
    }
    proof {
        assert(bytes_of(leaves@) =~= column_digests(ext.values(), ext.width()));
    }
    leaves
}

/// The leaves of the tree: the digests of the columns, and behind them as
/// many empty leaves as fill the tree.
fn pad_leaves(digests: Vec<Vec<u8>>) -> (leaves: Vec<Vec<u8>>)
    requires
        digests.len() <= MAX_CODEWORD_LEN,
    ensures
        bytes_of(leaves@) == padded_leaves(bytes_of(digests@)),
        leaves.len() >= 2,
        leaves.len() >= digests.len(),
        is_pow2(leaves.len() as int),
{
    let n = digests.len();
    let mut size: usize = 2;
    proof {
        assert(is_pow2(2)) by {
            reveal_with_fuel(is_pow2, 3);
        }
    }
    while size < n
        invariant
            n <= MAX_CODEWORD_LEN,
            is_pow2(size as int),
            2 <= size,
            size == 2 || size < 2 * n,
            size <= MAX_CODEWORD_LEN,
        decreases 2 * n - size,
    {
        proof {
            lemma_max_is_pow2();
            if 2 * size > MAX_CODEWORD_LEN {
                assert(is_pow2(2 * size as int));
                lemma_pow2_gap(2 * size as int, MAX_CODEWORD_LEN as int);
            }
        }
        size = 2 * size;
    }
    proof {
        lemma_tree_size(n as int, size as int);
    }
    let ghost before = bytes_of(digests@);
    let mut leaves = digests;
    while leaves.len() < size
        invariant
            n <= size,
            n <= leaves.len() <= size,
            before.len() == n,
            bytes_of(leaves@) == before + Seq::new(
                (leaves.len() - n) as nat,
                |i: int| Seq::<u8>::empty(),
            ),
        decreases size - leaves.len(),
    {
        let ghost held = bytes_of(leaves@);
        leaves.push(Vec::new());
        proof {
            assert(bytes_of(leaves@) =~= held.push(Seq::<u8>::empty()));
            assert(bytes_of(leaves@) =~= before + Seq::new(
                (leaves.len() - n) as nat,
                |i: int| Seq::<u8>::empty(),
            ));
        }
    }
    leaves
}

impl CommitmentState {
    #[verifier::type_invariant]
    pub closed spec fn wf(self) -> bool {
        &&& self.mat.height() >= 1
        &&& self.mat.width() >= 1
        &&& self.ext_mat.height() == self.mat.height()
        &&& self.ext_mat.width() <= self.leaves.len()
        &&& bytes_of(self.leaves@) == padded_leaves(
            column_digests(self.ext_mat.values(), self.ext_mat.width()),
        )
        &&& self.tree.leaves() == leaf_digests::<TestMerkleTreeParams>(bytes_of(self.leaves@))
        &&& self.tree.root_spec() == merkle_root::<TestMerkleTreeParams>(bytes_of(self.leaves@))
    }

    /// The values of the coefficients, row by row.
    pub closed spec fn matrix(self) -> Seq<Seq<int>> {
        self.mat.values()
    }

    /// The values of the encoded matrix, row by row.
    pub closed spec fn encoded_matrix(self) -> Seq<Seq<int>> {
        self.ext_mat.values()
    }

    /// The number of rows of the matrix.
    pub closed spec fn n_rows(self) -> nat {
        self.mat.height()
    }

    /// The number of columns of the matrix.
    pub closed spec fn n_cols(self) -> nat {
        self.mat.width()
    }

    /// The length of a codeword.
    pub closed spec fn n_ext_cols(self) -> nat {
        self.ext_mat.width()
    }

    /// The root of the tree.
    pub closed spec fn root(self) -> Seq<u8> {
        self.tree.root_spec()
    }
}

/// Whether `col` and `path` open column `index` of the encoded matrix: the
/// column holds that column, and the path leads from its digest to the
/// root.
pub open spec fn opens(st: CommitmentState, index: int, col: Seq<Fr>, path: MerklePath) -> bool {
    &&& col.len() == st.n_rows()
    &&& vals(col) == column(st.encoded_matrix(), index)
    &&& path.leaf_index == index
    &&& path.root_from::<TestMerkleTreeParams>(FieldToBytesColHasher::digest(vals(col))) == st.root()
}

/// Whether every index is that of a column of a code of `n_ext` symbols.
pub open spec fn all_below(indices: Seq<usize>, n_ext: nat) -> bool {
    forall|j: int| 0 <= j < indices.len() ==> #[trigger] indices[j] < n_ext
}

impl CommitmentState {
    /// The number of rows of the matrix.
    pub fn row_count(&self) -> (n: usize)
        ensures
            n == self.n_rows(),
            n >= 1,
    {
        proof {
            use_type_invariant(self);
        }
        self.mat.n_rows()
    }

    /// The number of columns of the matrix.
    pub fn col_count(&self) -> (n: usize)
        ensures
            n == self.n_cols(),
            n >= 1,
    {
        proof {
            use_type_invariant(self);
        }
        self.mat.n_cols()
    }

    /// The length of a codeword.
    pub fn codeword_len(&self) -> (n: usize)
        ensures
            n == self.n_ext_cols(),
    {
        self.ext_mat.n_cols()
    }

    /// The combination of the rows of the matrix with the coefficients
    /// `coeffs`, one for every row.
    pub fn combine(&self, coeffs: &Vec<Fr>) -> (r: Result<Vec<Fr>, Error>)
        ensures
            r.is_ok() <==> coeffs.len() == self.n_rows(),
            r matches Err(e) ==> e == Error::InvalidInputLength,
            r matches Ok(v) ==> v.len() == self.n_cols() && vals(v@) == reduce_seq(
                combine(vals(coeffs@), self.matrix(), self.n_cols()),
            ),
    {
        if coeffs.len() != self.mat.n_rows() {
            return Err(Error::InvalidInputLength);
        }
        Ok(self.mat.row_mul(coeffs))
    }

    /// The columns of the encoded matrix at `indices`, each with its path
    /// to the root.
    pub fn open_columns(&self, indices: &Vec<usize>) -> (r: Result<
        (Vec<Vec<Fr>>, Vec<MerklePath>),
        Error,
    >)
        ensures
            r.is_ok() <==> all_below(indices@, self.n_ext_cols()),
            r matches Err(e) ==> e == Error::TranscriptDesync,
            r matches Ok(opened) ==> {
                &&& opened.0.len() == indices.len()
                &&& opened.1.len() == indices.len()
                &&& forall|j: int|
                    0 <= j < indices.len() ==> opens(
                        *self,
                        #[trigger] indices[j] as int,
                        opened.0[j]@,
                        opened.1[j],
                    )
            },
    {
        proof {
            use_type_invariant(self);
        }
        let n_ext = self.ext_mat.n_cols();
        let mut columns: Vec<Vec<Fr>> = Vec::new();
        let mut paths: Vec<MerklePath> = Vec::new();
        let mut j: usize = 0;
        while j < indices.len()
            invariant
                j <= indices.len(),
                self.wf(),
                n_ext == self.n_ext_cols(),
                rectangular(self.ext_mat@, self.ext_mat.height(), self.ext_mat.width()),
                columns.len() == j,
                paths.len() == j,
                forall|l: int| 0 <= l < j ==> #[trigger] indices[l] < n_ext,
                forall|l: int|
                    0 <= l < j ==> opens(*self, #[trigger] indices[l] as int, columns[l]@, paths[l]),
            decreases indices.len() - j,
        {
            let index = indices[j];
            if index >= n_ext {
                return Err(Error::TranscriptDesync);
            }
            let col = self.ext_mat.col(index);
            proof {
                assert(bytes_of(self.leaves@).len() >= n_ext);
                assert(self.tree.leaves().len() >= n_ext);
            }
            let path = self.tree.generate_proof(index).unwrap();
            proof {
                assert(self.tree.leaves()[index as int] == FieldToBytesColHasher::digest(
                    vals(col@),
                ));
                assert(opens(*self, index as int, col@, path));
            }
            columns.push(col);
            paths.push(path);
            j += 1;
        }
        Ok((columns, paths))
    }
}

/// Degree bounds are enforced: polynomials of which one has a coefficient
/// above its declared degree bound cannot be committed to, under any code
/// and any key.
pub proof fn law_degree_bound_enforced<C: LinearCode>(
    code: C,
    ck: CommitterKey,
    polys: Seq<LabeledPolynomial>,
    block: int,
    i: int,
)
    requires
        0 <= i < polys.len(),
        !polys[i].within_bound(),
    ensures
        !committable_with(code, polys, block),
        !committable(ck, polys),
{
}

/// Commits to `polys` under a code, every polynomial in `block` rows of
/// its own in one matrix. Refuses an empty list and a polynomial that has
/// a coefficient above its declared degree bound.
pub fn commit_with<C: LinearCode>(code: &C, polys: &Vec<LabeledPolynomial>, block: usize) -> (r:
    Result<(Commitment, CommitmentState), Error>)
    ensures
        r.is_ok() <==> committable_with(*code, polys@, block as int),
        r matches Err(e) ==> e == (if polys.len() == 0 || !all_within_bound(polys@) {
            Error::InvalidInputLength
        } else {
            Error::InvalidParameters
        }),
        r.is_ok() ==> committed(*code, polys@, r.unwrap().0, r.unwrap().1) && r.unwrap().0.block()
            == block,
{
    if polys.len() == 0 || !check_bounds(polys) {
        return Err(Error::InvalidInputLength);
    }
    let cols = code.input_len();
    let n_ext_cols = code.output_len();
    if block < 1 || cols < 1 || n_ext_cols < 1 || n_ext_cols > MAX_CODEWORD_LEN {
        return Err(Error::InvalidParameters);
    }
    let capacity = match largest_capacity(polys) {
        Some(capacity) => capacity,
        None => {
            return Err(Error::InvalidParameters);
        },
    };
    let fits = match block.checked_mul(cols) {
        Some(room) => capacity <= room,
        None => true,
    };
    if !fits {
        return Err(Error::InvalidParameters);
    }
    if polys.len().checked_mul(block).is_none() {
        return Err(Error::InvalidParameters);
    }
    let mat = layout_matrix(polys, block, cols);
    proof {
        assert(polys.len() * block >= 1) by (nonlinear_arith)
            requires
                polys.len() >= 1,
                block >= 1,
        ;
    }
    let ext_mat = encode_rows(&mat, code);
    let digests = hash_columns(&ext_mat);
    proof {
        assert(bytes_of(digests@).len() == n_ext_cols);
    }
    let leaves = pad_leaves(digests);
    let tree = MerkleTree::<TestMerkleTreeParams>::new(&leaves).unwrap();
    let root = tree.root();
    let n_rows = mat.n_rows();
    let st = CommitmentState { mat, ext_mat, leaves, tree };
    let c = Commitment { root, n_rows, n_cols: cols, n_ext_cols, n_polys: polys.len() };
    proof {
        lemma_div_multiples_vanish(block as int, polys.len() as int);
        assert(polys.len() * block == block * polys.len()) by (nonlinear_arith);
        assert(c.block() == block);
    }
    Ok((c, st))
}

/// Commits to `polys` under a code whose messages fix the width of the
/// matrix: every polynomial fills as many rows as the largest polynomial
/// needs.
pub fn commit_with_code<C: LinearCode>(code: &C, polys: &Vec<LabeledPolynomial>) -> (r: Result<
    (Commitment, CommitmentState),
    Error,
>)
    ensures
        r.is_ok() <==> exists|block: int|
            is_ceil_div(max_capacity(polys@, polys.len() as nat), code.input_length() as int, block)
                && #[trigger] committable_with(*code, polys@, block),
        r matches Err(e) ==> e == (if polys.len() == 0 || !all_within_bound(polys@) {
            Error::InvalidInputLength
        } else {
            Error::InvalidParameters
        }),
        r.is_ok() ==> committed(*code, polys@, r.unwrap().0, r.unwrap().1) && is_ceil_div(
            max_capacity(polys@, polys.len() as nat),
            code.input_length() as int,
            r.unwrap().0.block(),
        ),
{
    if polys.len() == 0 || !check_bounds(polys) {
        return Err(Error::InvalidInputLength);
    }
    let cols = code.input_len();
    let ghost most = max_capacity(polys@, polys.len() as nat);
    proof {
        lemma_max_capacity_grows(polys@, 1, polys.len() as nat);
        assert(max_capacity(polys@, 1) >= polys[0].capacity());
    }
    let capacity = match largest_capacity(polys) {
        Some(c) => c,
        None => {
            proof {
                assert forall|block: int|
                    !(is_ceil_div(most, cols as int, block) && #[trigger] committable_with(
                        *code,
                        polys@,
                        block,
                    )) by {
                    if is_ceil_div(most, cols as int, block) && committable_with(
                        *code,
                        polys@,
                        block,
                    ) {
                        lemma_block_room(most, cols as int, block);
                    }
                }
            }
            return Err(Error::InvalidParameters);
        },
    };
    if cols < 1 {
        return Err(Error::InvalidParameters);
    }
    let block = ceil_div(capacity, cols);
    let r = commit_with(code, polys, block);
    proof {
        assert forall|other: int|
            is_ceil_div(most, cols as int, other) && #[trigger] committable_with(
                *code,
                polys@,
                other,
            ) implies other == block by {
            lemma_ceil_div_unique(most, cols as int, block as int, other);
        }
    }
    r
}

/// A quotient has one rounding up.
pub proof fn lemma_ceil_div_unique(x: int, d: int, q: int, u: int)
    requires
        d >= 1,
        is_ceil_div(x, d, q),
        is_ceil_div(x, d, u),
    ensures
        q == u,
{
    if q < u {
        assert(q * d <= (u - 1) * d) by (nonlinear_arith)
            requires
                q <= u - 1,
                d >= 1,
        ;
    }
    if u < q {
        assert(u * d <= (q - 1) * d) by (nonlinear_arith)
            requires
                u <= q - 1,
                d >= 1,
        ;
    }
}

/// Rows that hold all coefficients, but no row more, hold fewer than a
/// row more than the coefficients.
pub proof fn lemma_block_room(x: int, d: int, q: int)
    requires
        d >= 1,
        is_ceil_div(x, d, q),
    ensures
        q * d < x + d,
{
    assert((q - 1) * d == q * d - d) by (nonlinear_arith);
}

/// Commits to `polys` with the Reed-Solomon code: all of them are laid
/// out in one matrix, each in a block of rows of its own, as wide as the
/// square root of the largest polynomial asks for. Refuses an empty list
/// and a polynomial that has a coefficient above its declared degree
/// bound.
pub fn commit(ck: &CommitterKey, polys: &Vec<LabeledPolynomial>) -> (r: Result<
    (Commitment, CommitmentState),
    Error,
>)
    ensures
        r.is_ok() <==> committable(*ck, polys@),
        r matches Err(e) ==> e == (if polys.len() == 0 || !all_within_bound(polys@) {
            Error::InvalidInputLength
        } else {
            Error::InvalidParameters
        }),
        r.is_ok() ==> committed_ligero(*ck, polys@, r.unwrap().0, r.unwrap().1),
{
    if polys.len() == 0 || !check_bounds(polys) {
        return Err(Error::InvalidInputLength);
    }
    let capacity = match largest_capacity(polys) {
        Some(c) => c,
        None => {
            return Err(Error::InvalidParameters);
        },
    };
    if ck.rho_inv < 2 || ck.rho_inv > MAX_RHO_INV {
        return Err(Error::InvalidParameters);
    }
    proof {
        lemma_max_capacity_grows(polys@, 1, polys.len() as nat);
        assert(max_capacity(polys@, 1) >= polys[0].capacity());
    }
    let (block, cols) = compute_dimensions(capacity).unwrap();
    proof {
        assert(cols * ck.rho_inv <= 0x8000 * 0x8000) by (nonlinear_arith)
            requires
                cols <= 0x8000,
                ck.rho_inv <= 0x8000,
        ;
        assert forall|rows2: int, cols2: int| #[trigger]
            is_matrix_shape(capacity as int, rows2, cols2) implies rows2 == block && cols2
            == cols by {
            crate::params::lemma_matrix_shape_unique(
                capacity as int,
                block as int,
                cols as int,
                rows2,
                cols2,
            );
        }
    }
    let code = ReedSolomon::new(cols, ck.rho_inv).unwrap();
    let r = commit_with(&code, polys, block);
    proof {
        let most = max_capacity(polys@, polys.len() as nat);
        assert(is_matrix_shape(most, block as int, cols as int));
        assert(code.input_length() == cols);
        assert(most <= block * cols);
        if committable(*ck, polys@) {
            assert(polys.len() * block <= usize::MAX);
            assert(committable_with(code, polys@, block as int));
        }
        if r.is_ok() {
            assert forall|rows2: int, cols2: int| #[trigger]
                is_matrix_shape(most, rows2, cols2) implies polys.len() * rows2 <= usize::MAX by {
                crate::params::lemma_matrix_shape_unique(
                    most,
                    block as int,
                    cols as int,
                    rows2,
                    cols2,
                );
            }
            assert(committable(*ck, polys@));
        }
    }
    r
}

} // verus!
