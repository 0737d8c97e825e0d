//! Natural numbers of any size, as little-endian digits of 32 bits: what the
//! parameter derivation needs to compare powers exactly.

use crate::algebra::{lemma_sum_equal, sum};
use vstd::arithmetic::power::{lemma_pow0, lemma_pow_positive, pow};
use vstd::prelude::*;

verus! {

/// The base of the digits.
pub open spec fn radix() -> int {
    0x1_0000_0000
}

pub open spec fn digit_term(d: Seq<u32>) -> spec_fn(int) -> int {
    |i: int| d[i] as int * pow(radix(), i as nat)
}

/// The number that the first `n` digits stand for.
pub open spec fn low_value(d: Seq<u32>, n: nat) -> int {
    sum(digit_term(d), n)
}

/// The number that the digits stand for.
pub open spec fn big_value(d: Seq<u32>) -> int {
    low_value(d, d.len())
}

/// The next power of the base.
pub proof fn lemma_radix_pow_step(i: nat)
    ensures
        pow(radix(), i + 1) == radix() * pow(radix(), i),
        pow(radix(), i) > 0,
{
    lemma_pow_positive(radix(), i);
    reveal(pow);
}

/// Digits that agree below `n` stand for the same number below `n`.
pub proof fn lemma_low_value_agrees(a: Seq<u32>, b: Seq<u32>, n: nat)
    requires
        forall|i: int| 0 <= i < n ==> a[i] == b[i],
    ensures
        low_value(a, n) == low_value(b, n),
{
    assert forall|i: int| 0 <= i < n implies #[trigger] digit_term(a)(i) == digit_term(b)(i) by {}
    lemma_sum_equal(digit_term(a), digit_term(b), n);
}

/// One more digit adds its multiple of the power of the base.
pub proof fn lemma_push_value(d: Seq<u32>, x: u32)
    ensures
        big_value(d.push(x)) == big_value(d) + x as int * pow(radix(), d.len()),
{
    let e = d.push(x);
    lemma_low_value_agrees(e, d, d.len());
    assert(digit_term(e)(d.len() as int) == x as int * pow(radix(), d.len()));
}

/// The first `n` digits stand for a number below the `n`-th power of the
/// base.
pub proof fn lemma_low_value_bound(d: Seq<u32>, n: nat)
    ensures
        0 <= low_value(d, n) < pow(radix(), n),
    decreases n,
{
    if n == 0 {
        lemma_pow0(radix());
    } else {
        let m = (n - 1) as nat;
        lemma_low_value_bound(d, m);
        lemma_radix_pow_step(m);
        let w = pow(radix(), m);
        let x = d[m as int] as int;
        assert(digit_term(d)(m as int) == x * w);
        assert(0 <= x * w && x * w + w <= radix() * w) by (nonlinear_arith)
            requires
                0 <= x < radix(),
                w > 0,
        ;
    }
}

/// Where two numbers of `n` digits agree from digit `i` on, they differ by
/// what their first `i` digits differ by.
pub proof fn lemma_common_top(a: Seq<u32>, b: Seq<u32>, i: nat, n: nat)
    requires
        i <= n,
        forall|j: int| i <= j < n ==> a[j] == b[j],
    ensures
        low_value(a, n) - low_value(a, i) == low_value(b, n) - low_value(b, i),
    decreases n - i,
{
    if i < n {
        let m = (n - 1) as nat;
        lemma_common_top(a, b, i, m);
        assert(digit_term(a)(m as int) == digit_term(b)(m as int));
    }
}

/// A number of 64 bits.
pub(crate) fn big_from_u64(x: u64) -> (r: Vec<u32>)
    ensures
        big_value(r@) == x,
{
    let lo: u32 = (x % 0x1_0000_0000) as u32;
    let hi: u32 = (x / 0x1_0000_0000) as u32;
    let mut r: Vec<u32> = Vec::new();
    proof {
        lemma_pow0(radix());
        lemma_radix_pow_step(0);
        lemma_push_value(r@, lo);
        let unit = pow(radix(), r@.len());
        assert(lo as int * unit == lo as int) by (nonlinear_arith)
            requires
                unit == 1,
        ;
    }
    r.push(lo);
    proof {
        lemma_push_value(r@, hi);
        let base = pow(radix(), r@.len());
        assert(hi as int * base == hi as int * radix()) by (nonlinear_arith)
            requires
                base == radix(),
        ;
    }
    r.push(hi);
    r
}

/// The product of a number and a digit.
pub(crate) fn big_mul_small(d: &Vec<u32>, k: u32) -> (r: Vec<u32>)
    ensures
        big_value(r@) == big_value(d@) * k,
{
    let mut r: Vec<u32> = Vec::new();
    let mut carry: u64 = 0;
    let mut i: usize = 0;
    proof {
        lemma_pow0(radix());
    }
    while i < d.len()
        invariant
            i <= d.len(),
            r.len() == i,
            carry < 0x1_0000_0000,
            big_value(r@) + carry * pow(radix(), i as nat) == low_value(d@, i as nat) * k,
        decreases d.len() - i,
    {
        let x: u64 = d[i] as u64;
        assert(x * (k as u64) + carry <= 0xffff_ffff_0000_0000) by (nonlinear_arith)
            requires
                x <= 0xffff_ffff,
                k <= 0xffff_ffff,
                carry <= 0xffff_ffff,
        ;
        let t: u64 = x * (k as u64) + carry;
        let lo: u32 = (t % 0x1_0000_0000) as u32;
        let hi: u64 = t / 0x1_0000_0000;
        proof {
            let w = pow(radix(), i as nat);
            lemma_push_value(r@, lo);
            lemma_radix_pow_step(i as nat);
            assert(digit_term(d@)(i as int) == x * w);
            assert(low_value(d@, (i + 1) as nat) == low_value(d@, i as nat) + x * w);
            assert(lo as int * w + hi as int * (radix() * w) == (x * k + carry) * w)
                by (nonlinear_arith)
                requires
                    lo as int + hi as int * radix() == x * k + carry,
            ;
            assert((low_value(d@, i as nat) + x * w) * k == low_value(d@, i as nat) * k + (x * k)
                * w) by (nonlinear_arith);
            assert((x * k + carry) * w == (x * k) * w + carry * w) by (nonlinear_arith);
        }
        r.push(lo);
        carry = hi;
        i += 1;
    }
    proof {
        lemma_push_value(r@, carry as u32);
    }
    r.push(carry as u32);
    r
}

/// The number with zero digits added at its top until it has `n` digits.
pub(crate) fn big_pad(d: &Vec<u32>, n: usize) -> (r: Vec<u32>)
    ensures
        r.len() >= n,
        r.len() >= d.len(),
        r.len() == n || r.len() == d.len(),
        big_value(r@) == big_value(d@),
{
    let mut r: Vec<u32> = Vec::new();
    let mut i: usize = 0;
    while i < d.len()
        invariant
            i <= d.len(),
            r.len() == i,
            forall|j: int| 0 <= j < i ==> r[j] == d[j],
        decreases d.len() - i,
    {
        r.push(d[i]);
        i += 1;
    }
    proof {
        assert(r@ =~= d@);
    }
    while r.len() < n
        invariant
            r.len() >= d.len(),
            r.len() <= n || r.len() == d.len(),
            big_value(r@) == big_value(d@),
        decreases n - r.len(),
    {
        proof {
            lemma_push_value(r@, 0);
        }
        r.push(0);
    }
    r
}

/// The sum of two numbers.
pub(crate) fn big_add(a: &Vec<u32>, b: &Vec<u32>) -> (r: Vec<u32>)
    ensures
        big_value(r@) == big_value(a@) + big_value(b@),
{
    let x = big_pad(a, b.len());
    let y = big_pad(b, x.len());
    let n: usize = x.len();
    let mut r: Vec<u32> = Vec::new();
    let mut carry: u64 = 0;
    let mut i: usize = 0;
    proof {
        lemma_pow0(radix());
    }
    while i < n
        invariant
            i <= n,
            n == x.len(),
            n == y.len(),
            r.len() == i,
            carry <= 1,
            big_value(r@) + carry * pow(radix(), i as nat) == low_value(x@, i as nat) + low_value(
                y@,
                i as nat,
            ),
        decreases n - i,
    {
        let t: u64 = x[i] as u64 + y[i] as u64 + carry;
        let lo: u32 = (t % 0x1_0000_0000) as u32;
        let hi: u64 = t / 0x1_0000_0000;
        proof {
            let w = pow(radix(), i as nat);
            lemma_push_value(r@, lo);
            lemma_radix_pow_step(i as nat);
            assert(digit_term(x@)(i as int) == x[i as int] as int * w);
            assert(digit_term(y@)(i as int) == y[i as int] as int * w);
            assert(lo as int * w + hi as int * (radix() * w) == (x[i as int] as int + y[i as int]
                as int + carry) * w) by (nonlinear_arith)
                requires
                    lo as int + hi as int * radix() == x[i as int] as int + y[i as int] as int
                        + carry,
            ;
            assert((x[i as int] as int + y[i as int] as int + carry) * w == x[i as int] as int * w
                + y[i as int] as int * w + carry * w) by (nonlinear_arith);
        }
        r.push(lo);
        carry = hi;
        i += 1;
    }
    proof {
        lemma_push_value(r@, carry as u32);
    }
    r.push(carry as u32);
    r
}

/// Whether the first number is at most the second.
pub(crate) fn big_le(a: &Vec<u32>, b: &Vec<u32>) -> (r: bool)
    ensures
        r <==> big_value(a@) <= big_value(b@),
{
    let x = big_pad(a, b.len());
    let y = big_pad(b, x.len());
    let n: usize = x.len();
    let mut i: usize = n;
    while i > 0
        invariant
            i <= n,
            n == x.len(),
            n == y.len(),
            big_value(x@) == big_value(a@),
            big_value(y@) == big_value(b@),
            forall|j: int| i <= j < n ==> x[j] == y[j],
        decreases i,
    {
        i -= 1;
        if x[i] != y[i] {
            proof {
                let w = pow(radix(), i as nat);
                lemma_common_top(x@, y@, (i + 1) as nat, n as nat);
                lemma_low_value_bound(x@, i as nat);
                lemma_low_value_bound(y@, i as nat);
                assert(digit_term(x@)(i as int) == x[i as int] as int * w);
                assert(digit_term(y@)(i as int) == y[i as int] as int * w);
                let p = x[i as int] as int;
                let q = y[i as int] as int;
                assert(low_value(x@, (i + 1) as nat) == low_value(x@, i as nat) + p * w);
                assert(low_value(y@, (i + 1) as nat) == low_value(y@, i as nat) + q * w);
                if p < q {
                    assert(p * w + w <= q * w) by (nonlinear_arith)
                        requires
                            p + 1 <= q,
                            w > 0,
                    ;
                } else {
                    assert(q * w + w <= p * w) by (nonlinear_arith)
                        requires
                            q + 1 <= p,
                            w > 0,
                    ;
                }
            }
            return x[i] < y[i];
        }
    }
    proof {
        lemma_common_top(x@, y@, 0, n as nat);
    }
    true
}

} // verus!
