//! The parameters of the scheme, and what is derived from them: the shape
//! of the coefficient matrix and the number of columns that are sampled.

use crate::bignat::{
    big_add, big_from_u64, big_le, big_mul_small, big_value, lemma_push_value,
    lemma_radix_pow_step, radix,
};
use crate::code::{domain_size, ReedSolomon, MAX_CODEWORD_LEN};
use crate::error::Error;
use crate::field::modulus;
use crate::merkle::is_pow2;
use vstd::arithmetic::power::{lemma_pow0, pow};
use vstd::prelude::*;

verus! {

/// The largest security level, in bits, that can be asked for.
pub const MAX_SECURITY: usize = 256;

/// The largest number of columns that is ever sampled.
pub const MAX_QUERIES: usize = 4096;

/// The parameters that committer and verifier share.
#[derive(Clone, Copy, Debug, PartialEq, Eq, Structural)]
pub struct LigeroPCParams {
    /// The security level, in bits.
    pub sec_param: usize,
    /// The inverse of the code's rate.
    pub rho_inv: usize,
    /// Whether the well-formedness test is run.
    pub check_well_formedness: bool,
}

/// What the opening protocol needs to know of the parameters, whatever the
/// code: the security level, the relative distance of the code as a
/// fraction, and whether the well-formedness test is run.
#[derive(Clone, Copy, Debug, PartialEq, Eq, Structural)]
pub struct Security {
    pub sec_param: usize,
    pub distance_num: usize,
    pub distance_den: usize,
    pub check_well_formedness: bool,
}

/// The key of the committer.
pub type CommitterKey = LigeroPCParams;

/// The key of the verifier.
pub type VerifierKey = LigeroPCParams;

impl LigeroPCParams {
    /// The parameters for the given security level and rate. The hashes of
    /// this scheme have no parameters of their own.
    pub fn new(
        sec_param: usize,
        rho_inv: usize,
        check_well_formedness: bool,
        _leaf_hash_param: (),
        _two_to_one_hash_param: (),
        _col_hash_params: (),
    ) -> (pp: LigeroPCParams)
        ensures
            pp.sec_param == sec_param,
            pp.rho_inv == rho_inv,
            pp.check_well_formedness == check_well_formedness,
    {
        LigeroPCParams { sec_param, rho_inv, check_well_formedness }
    }

    /// What the opening protocol needs to know of the parameters.
    pub open spec fn security_spec(self) -> Security {
        Security {
            sec_param: self.sec_param,
            distance_num: if self.rho_inv >= 1 {
                (self.rho_inv - 1) as usize
            } else {
                0
            },
            distance_den: self.rho_inv,
            check_well_formedness: self.check_well_formedness,
        }
    }

    /// What the opening protocol needs to know of the parameters.
    pub fn security(&self) -> (sec: Security)
        ensures
            sec == self.security_spec(),
    {
        let distance_num: usize = if self.rho_inv >= 1 {
            self.rho_inv - 1
        } else {
            0
        };
        Security {
            sec_param: self.sec_param,
            distance_num,
            distance_den: self.rho_inv,
            check_well_formedness: self.check_well_formedness,
        }
    }

}

/// The parameters of the scheme at `sec_param` bits of security: rate one
/// quarter, with the well-formedness test.
pub fn setup(sec_param: usize) -> (pp: LigeroPCParams)
    ensures
        pp.sec_param == sec_param,
        pp.rho_inv == 4,
        pp.check_well_formedness,
{
    LigeroPCParams::new(sec_param, 4, true, (), (), ())
}

/// The keys of committer and verifier: both are the parameters themselves,
/// for every degree.
pub fn trim(pp: &LigeroPCParams, _supported_degree: usize) -> (keys: (
    CommitterKey,
    VerifierKey,
))
    ensures
        keys.0 == *pp,
        keys.1 == *pp,
{
    (*pp, *pp)
}

/// Whether `s` is the smallest number whose square is not below `x`.
pub open spec fn is_ceil_sqrt(x: int, s: int) -> bool {
    &&& 0 <= s
    &&& x <= s * s
    &&& s == 0 || (s - 1) * (s - 1) < x
}

/// Whether `q` is the quotient of `x` by `d`, rounded up.
pub open spec fn is_ceil_div(x: int, d: int, q: int) -> bool {
    (q - 1) * d < x <= q * d
}

/// The smallest number whose square is not below `x`.
pub fn ceil_sqrt(x: usize) -> (s: usize)
    requires
        x <= MAX_CODEWORD_LEN,
    ensures
        is_ceil_sqrt(x as int, s as int),
        s <= 0x8000,
{
    let mut s: usize = 0;
    let mut square: usize = 0;
    while s < 0x8000 && square < x
        invariant
            s <= 0x8000,
            square == s * s,
            s == 0 || (s - 1) * (s - 1) < x,
            x <= MAX_CODEWORD_LEN,
        decreases 0x8000 - s,
    {
        proof {
            assert((s + 1) * (s + 1) == s * s + 2 * s + 1) by (nonlinear_arith);
            assert(s * s <= 0x8000 * 0x8000) by (nonlinear_arith)
                requires
                    0 <= s <= 0x8000,
            ;
        }
        square = square + 2 * s + 1;
        s += 1;
    }
    proof {
        if s == 0x8000 {
            assert(s * s == 0x4000_0000);
        }
    }
    s
}

/// The quotient of `x` by `d`, rounded up.
pub fn ceil_div(x: usize, d: usize) -> (q: usize)
    requires
        d >= 1,
    ensures
        is_ceil_div(x as int, d as int, q as int),
        q <= x,
{
    let q: usize = x / d;
    let r: usize = x % d;
    proof {
        assert(x == q * d + r) by (nonlinear_arith)
            requires
                q == x as int / d as int,
                r == x as int % d as int,
                d >= 1,
        ;
        assert((q + 1) * d == q * d + d) by (nonlinear_arith);
        assert((q - 1) * d == q * d - d) by (nonlinear_arith);
        assert(q * d >= q) by (nonlinear_arith)
            requires
                d >= 1,
                q >= 0,
        ;
    }
    if r == 0 {
        q
    } else {
        q + 1
    }
}

/// The shape of the matrix for a polynomial of `num_coeffs` coefficients:
/// whether there are `rows` rows of `cols` entries, where `cols` is the
/// smallest power of two that is not below the square root of `num_coeffs`,
/// and the rows are as many as hold all coefficients.
pub open spec fn is_matrix_shape(num_coeffs: int, rows: int, cols: int) -> bool {
    exists|s: int|
        {
            &&& is_ceil_sqrt(num_coeffs, s)
            &&& is_pow2(cols)
            &&& #[trigger] shape_width(s, cols)
            &&& is_ceil_div(num_coeffs, cols, rows)
        }
}

/// Whether `cols` is not below `s` and below twice `s`.
pub open spec fn shape_width(s: int, cols: int) -> bool {
    s <= cols < 2 * s
}

/// The numbers of rows and of columns of the matrix that holds a polynomial
/// of `num_coeffs` coefficients.
pub fn compute_dimensions(num_coeffs: usize) -> (r: Result<(usize, usize), Error>)
    ensures
        r.is_ok() <==> 1 <= num_coeffs <= MAX_CODEWORD_LEN,
        r.is_err() ==> r == Err::<(usize, usize), Error>(Error::InvalidParameters),
        r.is_ok() ==> {
            let (rows, cols) = r.unwrap();
            &&& is_matrix_shape(num_coeffs as int, rows as int, cols as int)
            &&& is_ceil_div(num_coeffs as int, cols as int, rows as int)
            &&& 1 <= rows <= num_coeffs
            &&& 1 <= cols <= 0x8000
        },
{
    if num_coeffs == 0 || num_coeffs > MAX_CODEWORD_LEN {
        return Err(Error::InvalidParameters);
    }
    let s = ceil_sqrt(num_coeffs);
    let cols = match domain_size(s) {
        Some(c) => c,
        None => {
            return Err(Error::InvalidParameters);
        },
    };
    let rows = ceil_div(num_coeffs, cols);
    proof {
        assert(shape_width(s as int, cols as int));
        assert(is_pow2(0x8000)) by {
            reveal_with_fuel(is_pow2, 17);
        }
        crate::code::lemma_pow2_gap(cols as int, 0x8000);
        assert(rows >= 1) by (nonlinear_arith)
            requires
                num_coeffs >= 1,
                cols >= 1,
                is_ceil_div(num_coeffs as int, cols as int, rows as int),
        ;
    }
    Ok((rows, cols))
}

/// Whether `t` sampled columns reach `sec` bits of security for a code of
/// `n_ext` symbols and of relative distance `num / den`, over this field:
/// whether the chance `(1 - num / den)^t` that `t` columns miss every
/// error, and the chance `n_ext / |F|` that a combination of rows hides
/// one, are together at most `2^-sec`. Both sides are multiplied by
/// `2^sec * |F| * den^t`.
pub open spec fn sound(sec: nat, num: int, den: int, n_ext: int, t: nat) -> bool {
    pow(2, sec) * modulus() * pow(den - num, t) + pow(2, sec) * n_ext * pow(den, t) <= modulus()
        * pow(den, t)
}

/// Whether `t` sampled columns are enough: either they are all columns, or
/// they reach the security level.
pub open spec fn enough(sec: nat, num: int, den: int, n_ext: int, t: nat) -> bool {
    t >= n_ext || sound(sec, num, den, n_ext, t)
}

/// Whether the parameters can be worked with: the distance is a fraction
/// above zero and at most one, the security level is within the limit, and
/// the field is large enough for the code.
pub open spec fn derivable(sec: nat, num: int, den: int, n_ext: int) -> bool {
    &&& 1 <= num <= den <= u32::MAX
    &&& sec <= MAX_SECURITY
    &&& 1 <= n_ext
    &&& pow(2, sec) * n_ext <= modulus()
}

/// The order of the field, in digits.
fn modulus_digits() -> (d: Vec<u32>)
    ensures
        big_value(d@) == modulus(),
{
    let mut d: Vec<u32> = Vec::new();
    proof {
        lemma_pow0(radix());
        lemma_radix_pow_step(0);
        lemma_radix_pow_step(1);
        lemma_radix_pow_step(2);
        lemma_radix_pow_step(3);
        lemma_radix_pow_step(4);
        lemma_radix_pow_step(5);
        lemma_radix_pow_step(6);
        assert(pow(radix(), 1) == 0x1_0000_0000);
        assert(pow(radix(), 2) == 0x1_0000_0000_0000_0000);
        assert(pow(radix(), 3) == 0x1_0000_0000_0000_0000_0000_0000);
        assert(pow(radix(), 4) == 0x1_0000_0000_0000_0000_0000_0000_0000_0000);
        assert(pow(radix(), 5) == 0x1_0000_0000_0000_0000_0000_0000_0000_0000_0000_0000);
        assert(pow(radix(), 6) == 0x1_0000_0000_0000_0000_0000_0000_0000_0000_0000_0000_0000_0000);
        assert(pow(radix(), 7)
            == 0x1_0000_0000_0000_0000_0000_0000_0000_0000_0000_0000_0000_0000_0000_0000);
        lemma_push_value(d@, 0x0000_0001);
    }
    d.push(0x0000_0001);
    proof {
        lemma_push_value(d@, 0xffff_ffff);
    }
    d.push(0xffff_ffff);
    proof {
        lemma_push_value(d@, 0xfffe_5bfe);
    }
    d.push(0xfffe_5bfe);
    proof {
        lemma_push_value(d@, 0x53bd_a402);
    }
    d.push(0x53bd_a402);
    proof {
        lemma_push_value(d@, 0x09a1_d805);
    }
    d.push(0x09a1_d805);
    proof {
        lemma_push_value(d@, 0x3339_d808);
    }
    d.push(0x3339_d808);
    proof {
        lemma_push_value(d@, 0x299d_7d48);
    }
    d.push(0x299d_7d48);
    proof {
        lemma_push_value(d@, 0x73ed_a753);
    }
    d.push(0x73ed_a753);
    d
}

/// The number multiplied by `2^sec`.
fn big_shift(d: Vec<u32>, sec: usize) -> (r: Vec<u32>)
    ensures
        big_value(r@) == pow(2, sec as nat) * big_value(d@),
{
    let mut r = d;
    let mut i: usize = 0;
    proof {
        lemma_pow0(2);
    }
    while i < sec
        invariant
            i <= sec,
            big_value(r@) == pow(2, i as nat) * big_value(d@),
        decreases sec - i,
    {
        proof {
            lemma_next_power(2, i as nat);
            let v = big_value(d@);
            let w = pow(2, i as nat);
            assert((w * v) * 2 == (2 * w) * v) by (nonlinear_arith);
        }
        r = big_mul_small(&r, 2);
        i += 1;
    }
    r
}

/// The next power of a number.
pub proof fn lemma_next_power(b: int, e: nat)
    ensures
        pow(b, e + 1) == b * pow(b, e),
{
    reveal(pow);
}

/// The number of columns to sample: the smallest number that is enough,
/// up to all columns of the code and up to the limit on queries.
pub fn query_count(sec_param: usize, distance: (usize, usize), n_ext: usize) -> (r: Result<
    usize,
    Error,
>)
    ensures
        r.is_err() ==> r == Err::<usize, Error>(Error::InvalidParameters),
        r.is_ok() ==> is_query_count(
            sec_param as nat,
            distance.0 as int,
            distance.1 as int,
            n_ext as int,
            r.unwrap() as nat,
        ),
        r.is_err() <==> !derivable(
            sec_param as nat,
            distance.0 as int,
            distance.1 as int,
            n_ext as int,
        ) || forall|u: nat|
            1 <= u <= MAX_QUERIES ==> !#[trigger] enough(
                sec_param as nat,
                distance.0 as int,
                distance.1 as int,
                n_ext as int,
                u,
            ),
        match r {
            Ok(t) => query_count_spec(
                sec_param as nat,
                distance.0 as int,
                distance.1 as int,
                n_ext as int,
            ) == Some(t as nat),
            Err(_) => query_count_spec(
                sec_param as nat,
                distance.0 as int,
                distance.1 as int,
                n_ext as int,
            ).is_none(),
        },
{
    let r = query_count_search(sec_param, distance, n_ext);
    proof {
        let sec = sec_param as nat;
        let num = distance.0 as int;
        let den = distance.1 as int;
        match r {
            Ok(t) => {
                let u = choose|u: nat| is_query_count(sec, num, den, n_ext as int, u);
                lemma_query_count_unique(sec, num, den, n_ext as int, t as nat, u);
            },
            Err(_) => {
                assert forall|u: nat| !is_query_count(sec, num, den, n_ext as int, u) by {
                    if is_query_count(sec, num, den, n_ext as int, u) {
                        assert(enough(sec, num, den, n_ext as int, u));
                    }
                }
            },
        }
    }
    r
}

/// The search for the number of columns to sample.
fn query_count_search(sec_param: usize, distance: (usize, usize), n_ext: usize) -> (r: Result<
    usize,
    Error,
>)
    ensures
        r.is_err() ==> r == Err::<usize, Error>(Error::InvalidParameters),
        r.is_ok() ==> is_query_count(
            sec_param as nat,
            distance.0 as int,
            distance.1 as int,
            n_ext as int,
            r.unwrap() as nat,
        ),
        r.is_err() <==> !derivable(
            sec_param as nat,
            distance.0 as int,
            distance.1 as int,
            n_ext as int,
        ) || forall|u: nat|
            1 <= u <= MAX_QUERIES ==> !#[trigger] enough(
                sec_param as nat,
                distance.0 as int,
                distance.1 as int,
                n_ext as int,
                u,
            ),
{
    let (num, den) = distance;
    if num < 1 || num > den || den > 0xffff_ffff || sec_param > MAX_SECURITY || n_ext < 1 {
        return Err(Error::InvalidParameters);
    }
    let ghost sec = sec_param as nat;
    let ghost p = modulus();
    let p_digits = modulus_digits();
    let mut hit = big_shift(modulus_digits(), sec_param);
    let mut all = p_digits;
    let mut code = big_shift(big_from_u64(n_ext as u64), sec_param);
    if !big_le(&code, &all) {
        proof {
            assert(pow(2, sec) * n_ext == pow(2, sec) * (n_ext as int));
        }
        return Err(Error::InvalidParameters);
    }
    let miss: u32 = (den - num) as u32;
    let whole: u32 = den as u32;
    let mut t: usize = 0;
    proof {
        lemma_pow0(miss as int);
        lemma_pow0(whole as int);
        assert(pow(2, sec) * p * 1 == pow(2, sec) * p) by (nonlinear_arith);
        assert(pow(2, sec) * n_ext * 1 == pow(2, sec) * n_ext) by (nonlinear_arith);
    }
    while t < MAX_QUERIES
        invariant
            t <= MAX_QUERIES,
            t == 0 || t < n_ext,
            sec == sec_param as nat,
            p == modulus(),
            miss == distance.1 - distance.0,
            whole == distance.1,
            derivable(sec, distance.0 as int, distance.1 as int, n_ext as int),
            big_value(hit@) == pow(2, sec) * p * pow(miss as int, t as nat),
            big_value(all@) == p * pow(whole as int, t as nat),
            big_value(code@) == pow(2, sec) * n_ext * pow(whole as int, t as nat),
            forall|u: nat|
                1 <= u <= t ==> !#[trigger] enough(
                    sec,
                    distance.0 as int,
                    distance.1 as int,
                    n_ext as int,
                    u,
                ),
        decreases MAX_QUERIES - t,
    {
        proof {
            lemma_next_power(miss as int, t as nat);
            lemma_next_power(whole as int, t as nat);
            let a = pow(miss as int, t as nat);
            let b = pow(whole as int, t as nat);
            let s = pow(2, sec);
            assert((s * p * a) * miss == s * p * (miss * a)) by (nonlinear_arith);
            assert((p * b) * whole == p * (whole * b)) by (nonlinear_arith);
            assert((s * n_ext * b) * whole == s * n_ext * (whole * b)) by (nonlinear_arith);
        }
        hit = big_mul_small(&hit, miss);
        all = big_mul_small(&all, whole);
        code = big_mul_small(&code, whole);
        t += 1;
        let fails = big_add(&hit, &code);
        if t >= n_ext || big_le(&fails, &all) {
            proof {
                assert(enough(sec, distance.0 as int, distance.1 as int, n_ext as int, t as nat));
            }
            return Ok(t);
        }
    }
    Err(Error::InvalidParameters)
}

/// Whether the shape and the number of queries belong to a polynomial of
/// `num_coeffs` coefficients, which are not more than the longest codeword
/// has symbols: `rows` rows of `cols` entries, codewords of `ext_cols`
/// symbols, the smallest power of two that is not below `rho_inv` times
/// `cols`, and `t` sampled columns.
pub open spec fn is_derived(
    sec_param: usize,
    num_coeffs: usize,
    rho_inv: usize,
    distance: (usize, usize),
    rows: int,
    cols: int,
    ext_cols: int,
    t: int,
) -> bool {
    &&& is_matrix_shape(num_coeffs as int, rows, cols)
    &&& num_coeffs <= MAX_CODEWORD_LEN
    &&& rho_inv >= 2
    &&& is_pow2(ext_cols)
    &&& cols * rho_inv <= ext_cols < 2 * (cols * rho_inv)
    &&& cols * rho_inv <= MAX_CODEWORD_LEN
    &&& 0 <= t
    &&& is_query_count(sec_param as nat, distance.0 as int, distance.1 as int, ext_cols, t as nat)
}

/// A number has one rounded-up square root.
pub proof fn lemma_ceil_sqrt_unique(x: int, s: int, u: int)
    requires
        is_ceil_sqrt(x, s),
        is_ceil_sqrt(x, u),
    ensures
        s == u,
{
    if s < u {
        assert(s * s <= (u - 1) * (u - 1)) by (nonlinear_arith)
            requires
                0 <= s <= u - 1,
        ;
    }
    if u < s {
        assert(u * u <= (s - 1) * (s - 1)) by (nonlinear_arith)
            requires
                0 <= u <= s - 1,
        ;
    }
}

/// A polynomial has one matrix shape.
pub proof fn lemma_matrix_shape_unique(x: int, rows: int, cols: int, rows2: int, cols2: int)
    requires
        is_matrix_shape(x, rows, cols),
        is_matrix_shape(x, rows2, cols2),
    ensures
        rows == rows2,
        cols == cols2,
{
    let s = choose|s: int|
        is_ceil_sqrt(x, s) && is_pow2(cols) && #[trigger] shape_width(s, cols) && is_ceil_div(
            x,
            cols,
            rows,
        );
    let u = choose|u: int|
        is_ceil_sqrt(x, u) && is_pow2(cols2) && #[trigger] shape_width(u, cols2) && is_ceil_div(
            x,
            cols2,
            rows2,
        );
    lemma_ceil_sqrt_unique(x, s, u);
    crate::code::lemma_pow2_gap(cols, cols2);
    crate::code::lemma_pow2_gap(cols2, cols);
    if rows < rows2 {
        assert(rows * cols <= (rows2 - 1) * cols) by (nonlinear_arith)
            requires
                rows <= rows2 - 1,
                cols >= 0,
        ;
    }
    if rows2 < rows {
        assert(rows2 * cols <= (rows - 1) * cols) by (nonlinear_arith)
            requires
                rows2 <= rows - 1,
                cols >= 0,
        ;
    }
}

/// The shape of the matrix and the number of sampled columns for a
/// polynomial of `num_coeffs` coefficients: the numbers of rows and of
/// columns, the length of a codeword, and the number of queries. Refuses
/// parameters for which there are none.
pub fn derive(sec_param: usize, num_coeffs: usize, rho_inv: usize, distance: (usize, usize)) -> (r:
    Result<(usize, usize, usize, usize), Error>)
    ensures
        r.is_err() ==> r == Err::<(usize, usize, usize, usize), Error>(Error::InvalidParameters),
        r.is_ok() ==> is_derived(
            sec_param,
            num_coeffs,
            rho_inv,
            distance,
            r.unwrap().0 as int,
            r.unwrap().1 as int,
            r.unwrap().2 as int,
            r.unwrap().3 as int,
        ),
        r.is_err() ==> forall|rows: int, cols: int, ext_cols: int, t: int|
            !#[trigger] is_derived(sec_param, num_coeffs, rho_inv, distance, rows, cols, ext_cols, t),
{
    let (rows, cols) = match compute_dimensions(num_coeffs) {
        Ok(d) => d,
        Err(e) => {
            proof {
                assert forall|rows: int, cols: int, ext_cols: int, t: int|
                    !#[trigger] is_derived(
                        sec_param,
                        num_coeffs,
                        rho_inv,
                        distance,
                        rows,
                        cols,
                        ext_cols,
                        t,
                    ) by {
                    if is_matrix_shape(num_coeffs as int, rows, cols) {
                        lemma_shape_bounds(num_coeffs as int, rows, cols);
                    }
                }
            }
            return Err(e);
        },
    };
    let code = match ReedSolomon::new(cols, rho_inv) {
        Ok(c) => c,
        Err(e) => {
            proof {
                assert forall|rows2: int, cols2: int, ext_cols: int, t: int|
                    !#[trigger] is_derived(
                        sec_param,
                        num_coeffs,
                        rho_inv,
                        distance,
                        rows2,
                        cols2,
                        ext_cols,
                        t,
                    ) by {
                    if is_matrix_shape(num_coeffs as int, rows2, cols2) {
                        lemma_matrix_shape_unique(
                            num_coeffs as int,
                            rows as int,
                            cols as int,
                            rows2,
                            cols2,
                        );
                    }
                }
            }
            return Err(e);
        },
    };
    let ext_cols = code.codeword_len();
    let t = match query_count(sec_param, distance, ext_cols) {
        Ok(t) => t,
        Err(e) => {
            proof {
                assert forall|rows2: int, cols2: int, ext2: int, t: int|
                    !#[trigger] is_derived(
                        sec_param,
                        num_coeffs,
                        rho_inv,
                        distance,
                        rows2,
                        cols2,
                        ext2,
                        t,
                    ) by {
                    if is_derived(sec_param, num_coeffs, rho_inv, distance, rows2, cols2, ext2, t) {
                        lemma_matrix_shape_unique(
                            num_coeffs as int,
                            rows as int,
                            cols as int,
                            rows2,
                            cols2,
                        );
                        crate::code::lemma_pow2_gap(ext2, ext_cols as int);
                        crate::code::lemma_pow2_gap(ext_cols as int, ext2);
                        assert(enough(
                            sec_param as nat,
                            distance.0 as int,
                            distance.1 as int,
                            ext2,
                            t as nat,
                        ));
                    }
                }
            }
            return Err(e);
        },
    };
    Ok((rows, cols, ext_cols, t))
}

/// A matrix has a shape only for a polynomial that has a coefficient and
/// is not too long.
pub proof fn lemma_shape_bounds(x: int, rows: int, cols: int)
    requires
        is_matrix_shape(x, rows, cols),
    ensures
        1 <= x,
{
    let s = choose|s: int|
        is_ceil_sqrt(x, s) && is_pow2(cols) && #[trigger] shape_width(s, cols) && is_ceil_div(
            x,
            cols,
            rows,
        );
    if x <= 0 {
        assert(s == 0);
    }
}

/// The number of columns to sample for a code of `n_ext` symbols, where
/// there is one.
pub open spec fn queries(sec: Security, n_ext: int) -> Option<nat> {
    query_count_spec(sec.sec_param as nat, sec.distance_num as int, sec.distance_den as int, n_ext)
}

/// Whether `t` is the number of columns to sample: the smallest number
/// that is enough, within the limit on queries.
pub open spec fn is_query_count(sec: nat, num: int, den: int, n_ext: int, t: nat) -> bool {
    &&& derivable(sec, num, den, n_ext)
    &&& 1 <= t <= n_ext
    &&& t <= MAX_QUERIES
    &&& enough(sec, num, den, n_ext, t)
    &&& forall|u: nat| 1 <= u < t ==> !#[trigger] enough(sec, num, den, n_ext, u)
}

/// The number of columns to sample, where there is one.
pub open spec fn query_count_spec(sec: nat, num: int, den: int, n_ext: int) -> Option<nat> {
    if exists|t: nat| is_query_count(sec, num, den, n_ext, t) {
        Some(choose|t: nat| is_query_count(sec, num, den, n_ext, t))
    } else {
        None
    }
}

/// There is at most one number of columns to sample.
pub proof fn lemma_query_count_unique(sec: nat, num: int, den: int, n_ext: int, t: nat, u: nat)
    requires
        is_query_count(sec, num, den, n_ext, t),
        is_query_count(sec, num, den, n_ext, u),
    ensures
        t == u,
{
    if t < u {
        assert(enough(sec, num, den, n_ext, t));
    }
    if u < t {
        assert(enough(sec, num, den, n_ext, u));
    }
}

} // verus!
