//! The scalar field of BLS12-381.
//!
//! An element is kept as the four little-endian 64-bit limbs of its canonical
//! representative; its view is that representative as an integer. The
//! arithmetic itself is done by `ark-ff`.

use ark_bls12_381::Fr as ArkFr;
use ark_ff::{BigInt, PrimeField};
use vstd::arithmetic::div_mod::lemma_fundamental_div_mod_converse;
use vstd::prelude::*;

verus! {

/// The order of the field, a 255-bit prime.
pub open spec fn modulus() -> int {
    0x73eda753299d7d483339d80809a1d80553bda402fffe5bfeffffffff00000001int
}

const MODULUS_L0: u64 = 0xffff_ffff_0000_0001;

const MODULUS_L1: u64 = 0x53bd_a402_fffe_5bfe;

const MODULUS_L2: u64 = 0x3339_d808_09a1_d805;

const MODULUS_L3: u64 = 0x73ed_a753_299d_7d48;

/// The number that four little-endian limbs stand for.
pub open spec fn limbs_value(l0: u64, l1: u64, l2: u64, l3: u64) -> int {
    (l0 as int) + (l1 as int) * 0x1_0000_0000_0000_0000int + (l2 as int)
        * 0x1_0000_0000_0000_0000_0000_0000_0000_0000int + (l3 as int)
        * 0x1_0000_0000_0000_0000_0000_0000_0000_0000_0000_0000_0000_0000int
}

/// Different limbs stand for different numbers.
pub proof fn lemma_limbs_injective(
    a0: u64,
    a1: u64,
    a2: u64,
    a3: u64,
    b0: u64,
    b1: u64,
    b2: u64,
    b3: u64,
)
    requires
        limbs_value(a0, a1, a2, a3) == limbs_value(b0, b1, b2, b3),
    ensures
        a0 == b0,
        a1 == b1,
        a2 == b2,
        a3 == b3,
{
    let base = 0x1_0000_0000_0000_0000int;
    let ha2 = a2 as int + (a3 as int) * base;
    let hb2 = b2 as int + (b3 as int) * base;
    let ha1 = a1 as int + ha2 * base;
    let hb1 = b1 as int + hb2 * base;
    let x = limbs_value(a0, a1, a2, a3);
    assert(x == ha1 * base + a0);
    assert(x == hb1 * base + b0);
    lemma_fundamental_div_mod_converse(x, base, ha1, a0 as int);
    lemma_fundamental_div_mod_converse(x, base, hb1, b0 as int);
    assert(ha1 == hb1);
    lemma_fundamental_div_mod_converse(ha1, base, ha2, a1 as int);
    lemma_fundamental_div_mod_converse(ha1, base, hb2, b1 as int);
    assert(ha2 == hb2);
    lemma_fundamental_div_mod_converse(ha2, base, a3 as int, a2 as int);
    lemma_fundamental_div_mod_converse(ha2, base, b3 as int, b2 as int);
}

/// An element of the field.
#[derive(Clone, Copy, Debug, PartialEq, Eq, Structural)]
pub struct Fr {
    l0: u64,
    l1: u64,
    l2: u64,
    l3: u64,
}

impl View for Fr {
    type V = int;

    closed spec fn view(&self) -> int {
        limbs_value(self.l0, self.l1, self.l2, self.l3)
    }
}

impl Fr {
    /// Every element is stored reduced.
    #[verifier::type_invariant]
    pub closed spec fn canonical(self) -> bool {
        limbs_value(self.l0, self.l1, self.l2, self.l3) < modulus()
    }

    /// Two elements with the same value are the same element.
    pub proof fn lemma_view_injective(a: Fr, b: Fr)
        requires
            a@ == b@,
        ensures
            a == b,
    {
        lemma_limbs_injective(a.l0, a.l1, a.l2, a.l3, b.l0, b.l1, b.l2, b.l3);
    }

    pub fn zero() -> (r: Fr)
        ensures
            r@ == 0,
    {
        Fr { l0: 0, l1: 0, l2: 0, l3: 0 }
    }

    pub fn one() -> (r: Fr)
        ensures
            r@ == 1,
    {
        Fr { l0: 1, l1: 0, l2: 0, l3: 0 }
    }

    pub fn from_u64(x: u64) -> (r: Fr)
        ensures
            r@ == x,
    {
        Fr { l0: x, l1: 0, l2: 0, l3: 0 }
    }

    /// The element with the given little-endian limbs, if they are reduced.
    pub fn from_limbs(limbs: [u64; 4]) -> (r: Option<Fr>)
        ensures
            r.is_some() <==> limbs_value(limbs[0], limbs[1], limbs[2], limbs[3]) < modulus(),
            r.is_some() ==> r.unwrap()@ == limbs_value(limbs[0], limbs[1], limbs[2], limbs[3]),
    {
        let l0: u64 = limbs[0];
        let l1: u64 = limbs[1];
        let l2: u64 = limbs[2];
        let l3: u64 = limbs[3];
        let below = l3 < MODULUS_L3 || (l3 == MODULUS_L3 && (l2 < MODULUS_L2 || (l2 == MODULUS_L2
            && (l1 < MODULUS_L1 || (l1 == MODULUS_L1 && l0 < MODULUS_L0)))));
        if below {
            Some(Fr { l0, l1, l2, l3 })
        } else {
            None
        }
    }

    /// The little-endian limbs of the element.
    pub fn to_limbs(&self) -> (limbs: [u64; 4])
        ensures
            limbs_value(limbs[0], limbs[1], limbs[2], limbs[3]) == self@,
            0 <= self@ < modulus(),
    {
        proof {
            use_type_invariant(self);
        }
        [self.l0, self.l1, self.l2, self.l3]
    }

    pub fn add(&self, rhs: &Fr) -> (r: Fr)
        ensures
            r@ == (self@ + rhs@) % modulus(),
    {
        proof {
            use_type_invariant(self);
            use_type_invariant(rhs);
        }
        ark_add(self, rhs)
    }

    pub fn mul(&self, rhs: &Fr) -> (r: Fr)
        ensures
            r@ == (self@ * rhs@) % modulus(),
    {
        proof {
            use_type_invariant(self);
            use_type_invariant(rhs);
        }
        ark_mul(self, rhs)
    }
}

/// `Add::add` of `ark_ff::Fp`: the sum of two field elements is the sum of
/// their canonical representatives, reduced by the modulus.
#[verifier::external_body]
fn ark_add(a: &Fr, b: &Fr) -> (r: Fr)
    requires
        0 <= a@ < modulus(),
        0 <= b@ < modulus(),
    ensures
        r@ == (a@ + b@) % modulus(),
{
    let x = ArkFr::from_bigint(BigInt::new([a.l0, a.l1, a.l2, a.l3])).unwrap();
    let y = ArkFr::from_bigint(BigInt::new([b.l0, b.l1, b.l2, b.l3])).unwrap();
    let s = (x + y).into_bigint().0;
    Fr { l0: s[0], l1: s[1], l2: s[2], l3: s[3] }
}

/// `Mul::mul` of `ark_ff::Fp`: the product of two field elements is the
/// product of their canonical representatives, reduced by the modulus.
#[verifier::external_body]
fn ark_mul(a: &Fr, b: &Fr) -> (r: Fr)
    requires
        0 <= a@ < modulus(),
        0 <= b@ < modulus(),
    ensures
        r@ == (a@ * b@) % modulus(),
{
    let x = ArkFr::from_bigint(BigInt::new([a.l0, a.l1, a.l2, a.l3])).unwrap();
    let y = ArkFr::from_bigint(BigInt::new([b.l0, b.l1, b.l2, b.l3])).unwrap();
    let s = (x * y).into_bigint().0;
    Fr { l0: s[0], l1: s[1], l2: s[2], l3: s[3] }
}

/// Learns, element by element, that all of `v` is stored reduced.
pub(crate) fn check_canonical(v: &Vec<Fr>)
    ensures
        forall|i: int| 0 <= i < v.len() ==> 0 <= (#[trigger] v[i])@ < modulus(),
{
    let mut i: usize = 0;
    while i < v.len()
        invariant
            i <= v.len(),
            forall|k: int| 0 <= k < i ==> 0 <= (#[trigger] v[k])@ < modulus(),
        decreases v.len() - i,
    {
        let x = &v[i];
        proof {
            use_type_invariant(x);
        }
        i += 1;
    }
}

} // verus!
