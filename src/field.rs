//! The scalar field of BLS12-381, held as a canonical 256-bit value in four
//! big-endian 64-bit limbs. Arithmetic is delegated to lambdaworks.
use vstd::prelude::*;

verus! {

use lambdaworks_math::elliptic_curve::short_weierstrass::curves::bls12_381::default_types::FrElement as LwFrElement;
use lambdaworks_math::unsigned_integer::element::UnsignedInteger;
use vstd::arithmetic::div_mod::{lemma_fundamental_div_mod_converse, lemma_mod_twice, lemma_small_mod};

/// 2^64, the base of one limb.
pub open spec fn limb_base() -> int {
    (0xffff_ffff_ffff_ffff + 1) as int
}

/// The order of the BLS12-381 scalar field.
pub open spec fn modulus() -> nat {
    (((0x73ed_a753_299d_7d48 * limb_base() + 0x3339_d808_09a1_d805) * limb_base()
        + 0x53bd_a402_fffe_5bfe) * limb_base() + 0xffff_ffff_0000_0001) as nat
}

/// The integer that four big-endian limbs stand for.
pub open spec fn limbs_value(l: [u64; 4]) -> nat {
    (((l[0] as int * limb_base() + l[1] as int) * limb_base() + l[2] as int) * limb_base()
        + l[3] as int) as nat
}

/// Field addition on canonical representatives.
pub open spec fn fr_add(a: nat, b: nat) -> nat {
    (a + b) % modulus()
}

/// Field multiplication on canonical representatives.
pub open spec fn fr_mul(a: nat, b: nat) -> nat {
    (a * b) % modulus()
}

/// `x` to the power `e` in the field.
pub open spec fn fr_pow(x: nat, e: nat) -> nat
    decreases e,
{
    if e == 0 {
        1
    } else {
        fr_mul(fr_pow(x, (e - 1) as nat), x)
    }
}

/// The values of a sequence of field elements.
pub open spec fn values(s: Seq<FrElement>) -> Seq<nat> {
    s.map_values(|x: FrElement| x@)
}

/// An element of the scalar field, always stored in canonical form.
#[derive(Clone, Copy, Debug)]
pub struct FrElement {
    limbs: [u64; 4],
}

impl View for FrElement {
    type V = nat;

    /// The canonical representative; the reduction only spells out that it
    /// lies below the field order, which the type invariant already keeps.
    closed spec fn view(&self) -> nat {
        limbs_value(self.limbs) % modulus()
    }
}

/// Relies on lambdaworks' `Add` for `FieldElement<FrField>`: addition modulo
/// the field order, with canonical limbs in and out.
#[verifier::external_body]
fn add_limbs(a: [u64; 4], b: [u64; 4]) -> (r: [u64; 4])
    requires
        limbs_value(a) < modulus(),
        limbs_value(b) < modulus(),
    ensures
        limbs_value(r) == fr_add(limbs_value(a), limbs_value(b)),
{
    let x = LwFrElement::new(UnsignedInteger::from_limbs(a));
    let y = LwFrElement::new(UnsignedInteger::from_limbs(b));
    (x + y).representative().limbs
}

/// Relies on lambdaworks' `Mul` for `FieldElement<FrField>`: multiplication
/// modulo the field order, with canonical limbs in and out.
#[verifier::external_body]
fn mul_limbs(a: [u64; 4], b: [u64; 4]) -> (r: [u64; 4])
    requires
        limbs_value(a) < modulus(),
        limbs_value(b) < modulus(),
    ensures
        limbs_value(r) == fr_mul(limbs_value(a), limbs_value(b)),
{
    let x = LwFrElement::new(UnsignedInteger::from_limbs(a));
    let y = LwFrElement::new(UnsignedInteger::from_limbs(b));
    (x * y).representative().limbs
}

proof fn lemma_limbs_unique(a: [u64; 4], b: [u64; 4])
    requires
        limbs_value(a) == limbs_value(b),
    ensures
        a == b,
{
    let bb = limb_base();
    let a2 = (a[0] as int * bb + a[1] as int) * bb + a[2] as int;
    let b2 = (b[0] as int * bb + b[1] as int) * bb + b[2] as int;
    let a1 = a[0] as int * bb + a[1] as int;
    let b1 = b[0] as int * bb + b[1] as int;
    lemma_fundamental_div_mod_converse(limbs_value(a) as int, bb, a2, a[3] as int);
    lemma_fundamental_div_mod_converse(limbs_value(a) as int, bb, b2, b[3] as int);
    lemma_fundamental_div_mod_converse(a2, bb, a1, a[2] as int);
    lemma_fundamental_div_mod_converse(a2, bb, b1, b[2] as int);
    lemma_fundamental_div_mod_converse(a1, bb, a[0] as int, a[1] as int);
    lemma_fundamental_div_mod_converse(a1, bb, b[0] as int, b[1] as int);
    assert(a@ =~= b@);
}

/// A smaller leading part stays smaller whatever digit follows.
proof fn lemma_lt_then_digit(x1: int, d1: int, x2: int, d2: int)
    requires
        0 <= x1 < x2,
        0 <= d1 < limb_base(),
        0 <= d2 < limb_base(),
    ensures
        x1 * limb_base() + d1 < x2 * limb_base() + d2,
{
    let b = limb_base();
    assert(x1 * b + d1 < x2 * b + d2) by (nonlinear_arith)
        requires
            0 <= x1 < x2,
            0 <= d1 < b,
            0 <= d2 < b,
    ;
}

/// Limbs compare like their values: the first differing limb decides.
proof fn lemma_limbs_lt(a: [u64; 4], b: [u64; 4], i: int)
    requires
        0 <= i < 4,
        forall|j: int| 0 <= j < i ==> a[j] == b[j],
        a[i] < b[i],
    ensures
        limbs_value(a) < limbs_value(b),
{
    let base = limb_base();
    let a1 = a[0] as int;
    let b1 = b[0] as int;
    let a2 = a1 * base + a[1] as int;
    let b2 = b1 * base + b[1] as int;
    let a3 = a2 * base + a[2] as int;
    let b3 = b2 * base + b[2] as int;
    assert(a1 >= 0 && a2 >= 0 && a3 >= 0) by (nonlinear_arith)
        requires
            a1 >= 0,
            a2 == a1 * base + a[1] as int,
            a3 == a2 * base + a[2] as int,
            base > 0,
            a[1] >= 0,
            a[2] >= 0,
    ;
    if i == 0 {
        lemma_lt_then_digit(a1, a[1] as int, b1, b[1] as int);
        lemma_lt_then_digit(a2, a[2] as int, b2, b[2] as int);
        lemma_lt_then_digit(a3, a[3] as int, b3, b[3] as int);
    } else if i == 1 {
        lemma_lt_then_digit(a2, a[2] as int, b2, b[2] as int);
        lemma_lt_then_digit(a3, a[3] as int, b3, b[3] as int);
    } else if i == 2 {
        lemma_lt_then_digit(a3, a[3] as int, b3, b[3] as int);
    }
}

impl FrElement {
    /// Every element's value lies below the field order.
    pub proof fn lemma_view_below_modulus(x: FrElement)
        ensures
            x@ < modulus(),
    {
        vstd::arithmetic::div_mod::lemma_mod_bound(limbs_value(x.limbs) as int, modulus() as int);
    }

    #[verifier::type_invariant]
    spec fn canonical(self) -> bool {
        limbs_value(self.limbs) < modulus()
    }

    fn small(v: u64) -> (r: FrElement)
        ensures
            r@ == v as nat,
    {
        let limbs: [u64; 4] = [0, 0, 0, v];
        assert(limbs[0] == 0 && limbs[1] == 0 && limbs[2] == 0 && limbs[3] == v);
        assert(limbs_value(limbs) == v);
        proof { lemma_small_mod(v as nat, modulus()); }
        FrElement { limbs }
    }

    /// The additive identity.
    pub fn zero() -> (r: FrElement)
        ensures
            r@ == 0,
    {
        FrElement::small(0)
    }

    /// The multiplicative identity.
    pub fn one() -> (r: FrElement)
        ensures
            r@ == 1,
    {
        FrElement::small(1)
    }

    /// The element that a machine integer stands for.
    pub fn from_u64(v: u64) -> (r: FrElement)
        ensures
            r@ == v as nat,
    {
        FrElement::small(v)
    }

    /// The element with the given big-endian limbs, if they stand for a value
    /// below the field order.
    pub fn from_limbs(limbs: [u64; 4]) -> (r: Option<FrElement>)
        ensures
            limbs_value(limbs) < modulus() ==> (r matches Some(x) && x@ == limbs_value(limbs)),
            limbs_value(limbs) >= modulus() ==> r is None,
    {
        let m: [u64; 4] = [
            0x73ed_a753_299d_7d48,
            0x3339_d808_09a1_d805,
            0x53bd_a402_fffe_5bfe,
            0xffff_ffff_0000_0001,
        ];
        assert(limbs_value(m) == modulus());
        let mut i: usize = 0;
        while i < 4
            invariant
                i <= 4,
                limbs_value(m) == modulus(),
                forall|j: int| 0 <= j < i ==> limbs[j] == m[j],
            decreases 4 - i,
        {
            if limbs[i] < m[i] {
                proof {
                    lemma_limbs_lt(limbs, m, i as int);
                    lemma_small_mod(limbs_value(limbs), modulus());
                }
                return Some(FrElement { limbs });
            }
            if limbs[i] > m[i] {
                proof {
                    lemma_limbs_lt(m, limbs, i as int);
                }
                return None;
            }
            i = i + 1;
        }
        assert(limbs@ =~= m@);
        None
    }

    /// The canonical big-endian limbs.
    pub fn to_limbs(&self) -> (r: [u64; 4])
        ensures
            limbs_value(r) == self@,
    {
        proof {
            use_type_invariant(self);
            lemma_small_mod(limbs_value(self.limbs), modulus());
        }
        self.limbs
    }

    /// Field addition.
    pub fn add(&self, other: &FrElement) -> (r: FrElement)
        ensures
            r@ == fr_add(self@, other@),
    {
        proof {
            use_type_invariant(self);
            use_type_invariant(other);
        }
        proof {
            lemma_small_mod(limbs_value(self.limbs), modulus());
            lemma_small_mod(limbs_value(other.limbs), modulus());
        }
        let l = add_limbs(self.limbs, other.limbs);
        proof { lemma_mod_twice((self@ + other@) as int, modulus() as int); }
        FrElement { limbs: l }
    }

    /// Field multiplication.
    pub fn mul(&self, other: &FrElement) -> (r: FrElement)
        ensures
            r@ == fr_mul(self@, other@),
    {
        proof {
            use_type_invariant(self);
            use_type_invariant(other);
        }
        proof {
            lemma_small_mod(limbs_value(self.limbs), modulus());
            lemma_small_mod(limbs_value(other.limbs), modulus());
        }
        let l = mul_limbs(self.limbs, other.limbs);
        proof { lemma_mod_twice((self@ * other@) as int, modulus() as int); }
        FrElement { limbs: l }
    }

    /// Field equality.
    pub fn equals(&self, other: &FrElement) -> (r: bool)
        ensures
            r == (self@ == other@),
    {
        let r = self.limbs[0] == other.limbs[0] && self.limbs[1] == other.limbs[1]
            && self.limbs[2] == other.limbs[2] && self.limbs[3] == other.limbs[3];
        proof {
            use_type_invariant(self);
            use_type_invariant(other);
            lemma_small_mod(limbs_value(self.limbs), modulus());
            lemma_small_mod(limbs_value(other.limbs), modulus());
            if self@ == other@ {
                lemma_limbs_unique(self.limbs, other.limbs);
            }
            if r {
                assert(self.limbs@ =~= other.limbs@);
            }
        }
        r
    }
}

impl PartialEq for FrElement {
    fn eq(&self, other: &FrElement) -> (r: bool) {
        self.equals(other)
    }
}

impl vstd::std_specs::cmp::PartialEqSpecImpl for FrElement {
    open spec fn obeys_eq_spec() -> bool {
        true
    }

    open spec fn eq_spec(&self, other: &FrElement) -> bool {
        self@ == other@
    }
}

impl Eq for FrElement {
}

} // verus!
