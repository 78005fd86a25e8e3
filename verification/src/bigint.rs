//! The arbitrary-precision integer value type: a canonical limb vector with
//! value-producing operations, equality, and the algebraic laws that the
//! limb-level contracts imply.

use crate::limbs::{
    add_slices, lemma_val_singleton, lemma_wf_unique, pow_b, shift_left_slices, sub_slices, val,
    wf,
};
use vstd::prelude::*;

verus! {

/// An arbitrary-precision non-negative integer: base-`BASE` limbs stored
/// least-significant first, always in canonical form.
#[derive(Clone, Debug)]
pub struct BigInt {
    pub digits: Vec<u32>,
}

impl View for BigInt {
    type V = Seq<u32>;

    open spec fn view(&self) -> Seq<u32> {
        self.digits@
    }
}

impl BigInt {
    /// The limb sequence is canonical: non-empty, bounded limbs, no
    /// high-order zero limb unless the value is zero.
    pub open spec fn well_formed(&self) -> bool {
        wf(self@)
    }

    /// The non-negative integer this value stands for.
    pub open spec fn value(&self) -> nat {
        val(self@)
    }

    /// The zero value: exactly one zero limb.
    pub fn new() -> (r: BigInt)
        ensures
            r.well_formed(),
            r.value() == 0,
            r@ == seq![0u32],
    {
        let mut digits: Vec<u32> = Vec::new();
        digits.push(0);
        proof {
            assert(digits@ =~= seq![0u32]);
            lemma_val_singleton(0);
        }
        BigInt { digits }
    }

    /// The sum of two values.
    pub fn add(&self, other: &BigInt) -> (r: BigInt)
        requires
            self.well_formed(),
            other.well_formed(),
            self@.len() + other@.len() + 2 < usize::MAX,
        ensures
            r.well_formed(),
            r.value() == self.value() + other.value(),
    {
        BigInt { digits: add_slices(self.digits.as_slice(), other.digits.as_slice()) }
    }

    /// The difference of two values; callers guarantee the subtrahend does
    /// not exceed the minuend.
    pub fn sub(&self, other: &BigInt) -> (r: BigInt)
        requires
            self.well_formed(),
            other.well_formed(),
            other.value() <= self.value(),
        ensures
            r.well_formed(),
            r.value() == self.value() - other.value(),
    {
        BigInt { digits: sub_slices(self.digits.as_slice(), other.digits.as_slice()) }
    }

    /// The value multiplied by BASE^k; zero stays the single zero limb.
    pub fn shift_left(&self, k: usize) -> (r: BigInt)
        requires
            self.well_formed(),
            self@.len() + k < usize::MAX,
        ensures
            r.well_formed(),
            r.value() == self.value() * pow_b(k as nat),
            self.value() == 0 ==> r@ == self@,
    {
        BigInt { digits: shift_left_slices(self.digits.as_slice(), k) }
    }
}

impl PartialEq for BigInt {
    /// Limb-sequence equality; for well-formed values this coincides with
    /// value equality by canonicity.
    fn eq(&self, other: &BigInt) -> (r: bool) {
        if self.digits.len() != other.digits.len() {
            return false;
        }
        let mut i: usize = 0;
        while i < self.digits.len()
            invariant
                i <= self@.len(),
                self@.len() == other@.len(),
                forall|j: int| 0 <= j < i ==> self@[j] == other@[j],
            decreases self@.len() - i,
        {
            if self.digits[i] != other.digits[i] {
                return false;
            }
            i = i + 1;
        }
        proof {
            assert(self@ =~= other@);
        }
        true
    }
}

impl vstd::std_specs::cmp::PartialEqSpecImpl for BigInt {
    open spec fn obeys_eq_spec() -> bool {
        true
    }

    open spec fn eq_spec(&self, other: &BigInt) -> bool {
        self@ == other@
    }
}

/// Two well-formed values of equal numeric value are the same limb
/// sequence: the representation is canonical.
pub proof fn lemma_value_determines_limbs(x: BigInt, y: BigInt)
    requires
        x.well_formed(),
        y.well_formed(),
        x.value() == y.value(),
    ensures
        x@ == y@,
{
    lemma_wf_unique(x@, y@);
}

/// Additive identity: any well-formed result of adding zero to `a` is `a`
/// itself, limb for limb.
pub proof fn lemma_add_zero(a: Seq<u32>, r: Seq<u32>)
    requires
        wf(a),
        wf(r),
        val(r) == val(a) + 0,
    ensures
        r == a,
{
    lemma_wf_unique(r, a);
}

/// Commutativity of addition: the results of adding in either order are the
/// same limb sequence.
pub proof fn lemma_add_comm(a: Seq<u32>, b: Seq<u32>, r1: Seq<u32>, r2: Seq<u32>)
    requires
        wf(r1),
        wf(r2),
        val(r1) == val(a) + val(b),
        val(r2) == val(b) + val(a),
    ensures
        r1 == r2,
{
    lemma_wf_unique(r1, r2);
}

/// Multiplicative identity: any well-formed product of `a` with a value of
/// one is `a` itself.
pub proof fn lemma_mul_one(a: Seq<u32>, one: Seq<u32>, r: Seq<u32>)
    requires
        wf(a),
        wf(r),
        val(one) == 1,
        val(r) == val(a) * val(one),
    ensures
        r == a,
{
    assert(val(a) * val(one) == val(a)) by (nonlinear_arith)
        requires
            val(one) == 1,
    ;
    lemma_wf_unique(r, a);
}

/// Multiplication by zero: any well-formed product with a zero operand is
/// the single zero limb.
pub proof fn lemma_mul_zero(a: Seq<u32>, zero: Seq<u32>, r: Seq<u32>)
    requires
        wf(r),
        val(zero) == 0,
        val(r) == val(a) * val(zero),
    ensures
        r == seq![0u32],
        val(r) == 0,
{
    assert(val(a) * val(zero) == 0) by (nonlinear_arith)
        requires
            val(zero) == 0,
    ;
    lemma_val_singleton(0);
    lemma_wf_unique(r, seq![0u32]);
}

/// Shift correctness: shifting `a` left by `k` limbs produces the same limb
/// sequence as multiplying `a` by a value equal to BASE^k.
pub proof fn lemma_shift_is_mul_pow(a: Seq<u32>, k: nat, p: Seq<u32>, r1: Seq<u32>, r2: Seq<u32>)
    requires
        wf(r1),
        wf(r2),
        val(p) == pow_b(k),
        val(r1) == val(a) * pow_b(k),
        val(r2) == val(a) * val(p),
    ensures
        r1 == r2,
{
    lemma_wf_unique(r1, r2);
}

/// Algorithm equivalence: any two well-formed results that each represent
/// the exact product of the same operands are the same limb sequence. The
/// three multiplication algorithms all ensure exactly that, so their
/// results coincide on every pair of inputs, at and beyond the recursion
/// threshold alike.
pub proof fn lemma_mul_algorithms_agree(a: Seq<u32>, b: Seq<u32>, r1: Seq<u32>, r2: Seq<u32>)
    requires
        wf(r1),
        wf(r2),
        val(r1) == val(a) * val(b),
        val(r2) == val(a) * val(b),
    ensures
        r1 == r2,
{
    lemma_wf_unique(r1, r2);
}

} // verus!
