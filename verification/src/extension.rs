//! The quadratic extension of the field: the elements `c0 + c1 * X` with
//! `X * X = 7`. Opening points are drawn from it.

use crate::field::{fadd, fmul, fsub, Felt};
use crate::polynomial::PolynomialCoeffs;
use vstd::prelude::*;

verus! {

/// The square of the adjoined element.
pub const W: u64 = 7;

/// An element of the extension, over representatives.
pub struct ExtValue {
    pub c0: int,
    pub c1: int,
}

/// The multiplicative identity of the extension.
pub open spec fn ext_one() -> ExtValue {
    ExtValue { c0: 1, c1: 0 }
}

/// The additive identity of the extension.
pub open spec fn ext_zero() -> ExtValue {
    ExtValue { c0: 0, c1: 0 }
}

/// The element of the extension that the field element `a` is.
pub open spec fn ext_from_base(a: int) -> ExtValue {
    ExtValue { c0: a, c1: 0 }
}

pub open spec fn ext_add(a: ExtValue, b: ExtValue) -> ExtValue {
    ExtValue { c0: fadd(a.c0, b.c0), c1: fadd(a.c1, b.c1) }
}

pub open spec fn ext_sub(a: ExtValue, b: ExtValue) -> ExtValue {
    ExtValue { c0: fsub(a.c0, b.c0), c1: fsub(a.c1, b.c1) }
}

/// `(a0 + a1 X)(b0 + b1 X) = (a0 b0 + 7 a1 b1) + (a0 b1 + a1 b0) X`.
pub open spec fn ext_mul(a: ExtValue, b: ExtValue) -> ExtValue {
    ExtValue {
        c0: fadd(fmul(a.c0, b.c0), fmul(W as int, fmul(a.c1, b.c1))),
        c1: fadd(fmul(a.c0, b.c1), fmul(a.c1, b.c0)),
    }
}

/// The product of an element of the extension and a field element.
pub open spec fn ext_scalar_mul(a: ExtValue, s: int) -> ExtValue {
    ExtValue { c0: fmul(a.c0, s), c1: fmul(a.c1, s) }
}

/// `z` raised to the power `2^k`: `z` squared `k` times.
pub open spec fn ext_exp_power_of_2(z: ExtValue, k: nat) -> ExtValue
    decreases k,
{
    if k == 0 {
        z
    } else {
        let root = ext_exp_power_of_2(z, (k - 1) as nat);
        ext_mul(root, root)
    }
}

/// The value at `z` of the polynomial with coefficients `coeffs` in the
/// field.
pub open spec fn ext_poly_eval(coeffs: Seq<int>, z: ExtValue) -> ExtValue
    decreases coeffs.len(),
{
    if coeffs.len() == 0 {
        ext_zero()
    } else {
        ext_add(ext_mul(ext_poly_eval(coeffs.drop_first(), z), z), ext_from_base(coeffs[0]))
    }
}

/// An element of the extension.
#[derive(Clone, Copy, Debug, PartialEq, Eq)]
pub struct QuadraticExtension {
    pub c0: Felt,
    pub c1: Felt,
}

impl View for QuadraticExtension {
    type V = ExtValue;

    open spec fn view(&self) -> ExtValue {
        ExtValue { c0: self.c0@, c1: self.c1@ }
    }
}

impl QuadraticExtension {
    pub fn new(c0: Felt, c1: Felt) -> (r: QuadraticExtension)
        ensures
            r@ == (ExtValue { c0: c0@, c1: c1@ }),
    {
        QuadraticExtension { c0, c1 }
    }

    pub fn zero() -> (r: QuadraticExtension)
        ensures
            r@ == ext_zero(),
    {
        QuadraticExtension { c0: Felt::zero(), c1: Felt::zero() }
    }

    pub fn one() -> (r: QuadraticExtension)
        ensures
            r@ == ext_one(),
    {
        QuadraticExtension { c0: Felt::one(), c1: Felt::zero() }
    }

    /// The element of the extension that the field element `a` is.
    pub fn from_base(a: Felt) -> (r: QuadraticExtension)
        ensures
            r@ == ext_from_base(a@),
    {
        QuadraticExtension { c0: a, c1: Felt::zero() }
    }

    pub fn equals(self, rhs: QuadraticExtension) -> (r: bool)
        ensures
            r == (self@ == rhs@),
    {
        self.c0.equals(rhs.c0) && self.c1.equals(rhs.c1)
    }

    pub fn is_one(self) -> (r: bool)
        ensures
            r == (self@ == ext_one()),
    {
        self.c0.is_one() && self.c1.is_zero()
    }

    pub fn add(self, rhs: QuadraticExtension) -> (r: QuadraticExtension)
        ensures
            r@ == ext_add(self@, rhs@),
    {
        QuadraticExtension { c0: self.c0.add(rhs.c0), c1: self.c1.add(rhs.c1) }
    }

    pub fn sub(self, rhs: QuadraticExtension) -> (r: QuadraticExtension)
        ensures
            r@ == ext_sub(self@, rhs@),
    {
        QuadraticExtension { c0: self.c0.sub(rhs.c0), c1: self.c1.sub(rhs.c1) }
    }

    pub fn mul(self, rhs: QuadraticExtension) -> (r: QuadraticExtension)
        ensures
            r@ == ext_mul(self@, rhs@),
    {
        let w = Felt::new(W);
        proof {
            crate::field::lemma_reduce_canonical(W as int);
        }
        let c0 = self.c0.mul(rhs.c0).add(w.mul(self.c1.mul(rhs.c1)));
        let c1 = self.c0.mul(rhs.c1).add(self.c1.mul(rhs.c0));
        QuadraticExtension { c0, c1 }
    }

    /// The product with a field element.
    pub fn scalar_mul(self, s: Felt) -> (r: QuadraticExtension)
        ensures
            r@ == ext_scalar_mul(self@, s@),
    {
        QuadraticExtension { c0: self.c0.mul(s), c1: self.c1.mul(s) }
    }

    pub fn square(self) -> (r: QuadraticExtension)
        ensures
            r@ == ext_mul(self@, self@),
    {
        self.mul(self)
    }

    /// `self` raised to the power `2^power_log`, by repeated squaring.
    pub fn exp_power_of_2(self, power_log: usize) -> (r: QuadraticExtension)
        ensures
            r@ == ext_exp_power_of_2(self@, power_log as nat),
    {
        let mut res = self;
        let mut i: usize = 0;
        while i < power_log
            invariant
                i <= power_log,
                res@ == ext_exp_power_of_2(self@, i as nat),
            decreases power_log - i,
        {
            res = res.square();
            i = i + 1;
        }
        res
    }
}

impl PolynomialCoeffs {
    /// The value of the polynomial at a point of the extension.
    pub fn eval_extension(&self, z: QuadraticExtension) -> (r: QuadraticExtension)
        ensures
            r@ == ext_poly_eval(self@, z@),
    {
        let mut acc = QuadraticExtension::zero();
        let mut i: usize = self.coeffs.len();
        proof {
            assert(self@.skip(i as int) =~= Seq::<int>::empty());
        }
        while i > 0
            invariant
                i <= self.coeffs.len(),
                acc@ == ext_poly_eval(self@.skip(i as int), z@),
            decreases i,
        {
            i = i - 1;
            proof {
                assert(self@.skip(i as int).drop_first() =~= self@.skip(i + 1));
            }
            acc = acc.mul(z).add(QuadraticExtension::from_base(self.coeffs[i]));
        }
        proof {
            assert(self@.skip(0) =~= self@);
        }
        acc
    }
}

} // verus!
