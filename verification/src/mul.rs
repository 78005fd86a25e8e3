//! Three multiplication algorithms over limb sequences — schoolbook, a
//! four-multiply divide-and-conquer split, and Karatsuba's three-multiply
//! split — each proved to return the canonical representation of the exact
//! product, so all three agree limb for limb.

use crate::limbs::{
    add_slices, lemma_pow_b_adds, lemma_pow_b_mono, lemma_pow_b_pos, lemma_pval_bound,
    lemma_val_bound, lemma_val_lower_bound, lemma_val_singleton, lemma_val_split, limbs_bounded,
    normalize, pow_b, pval, shift_left_slices, sub_slices, val, wf, BASE,
};
use vstd::prelude::*;
use vstd::slice::slice_subrange;

verus! {

/// Operand size (in limbs) at or below which the divide-and-conquer
/// algorithms delegate to schoolbook multiplication.
pub const THRESHOLD: usize = 32;

/// The larger of two lengths.
pub open spec fn max_len(a: nat, b: nat) -> nat {
    if a >= b {
        a
    } else {
        b
    }
}

/// Expanding a product of two values split into low and high blocks.
pub proof fn lemma_split_product(x0: nat, x1: nat, y0: nat, y1: nat, p: nat)
    ensures
        (x0 + x1 * p) * (y0 + y1 * p) == x0 * y0 + (x0 * y1 + x1 * y0) * p + (x1 * y1) * (p * p),
{
    assert((x0 + x1 * p) * (y0 + y1 * p) == x0 * y0 + (x0 * y1 + x1 * y0) * p + (x1 * y1) * (p
        * p)) by (nonlinear_arith);
}

/// A well-formed sequence with value below BASE^n has at most n limbs.
pub proof fn lemma_len_from_val(s: Seq<u32>, n: nat)
    requires
        wf(s),
        val(s) < pow_b(n),
        n >= 1,
    ensures
        s.len() <= n,
{
    if s.len() > n {
        assert(s.len() >= 2);
        lemma_val_lower_bound(s);
        lemma_pow_b_mono(n, (s.len() - 1) as nat);
    }
}

/// The canonical product of two bounded operands has at most as many limbs
/// as the operands together.
pub proof fn lemma_product_len(a: Seq<u32>, b: Seq<u32>, r: Seq<u32>)
    requires
        limbs_bounded(a),
        limbs_bounded(b),
        wf(r),
        val(r) == val(a) * val(b),
        a.len() >= 1,
        b.len() >= 1,
    ensures
        r.len() <= a.len() + b.len(),
{
    lemma_val_bound(a);
    lemma_val_bound(b);
    lemma_pow_b_pos(a.len());
    lemma_pow_b_pos(b.len());
    assert(val(a) * val(b) < pow_b(a.len()) * pow_b(b.len())) by (nonlinear_arith)
        requires
            val(a) < pow_b(a.len()),
            val(b) < pow_b(b.len()),
            pow_b(a.len()) >= 1,
            pow_b(b.len()) >= 1,
    ;
    lemma_pow_b_adds(a.len(), b.len());
    lemma_len_from_val(r, a.len() + b.len());
}

/// One row of schoolbook multiplication: a limb sequence times a single limb.
fn mul_by_limb(b: &[u32], x: u32) -> (r: Vec<u32>)
    requires
        limbs_bounded(b@),
        x < BASE,
    ensures
        wf(r@),
        val(r@) == val(b@) * x,
        r@.len() <= b@.len() + 1,
{
    let mut result: Vec<u32> = Vec::new();
    let mut carry: u64 = 0;
    let mut i: usize = 0;
    proof {
        assert(pval(b@, 0) * x == 0) by (nonlinear_arith)
            requires
                pval(b@, 0) == 0,
        ;
    }
    while i < b.len()
        invariant
            i <= b@.len(),
            x < BASE,
            limbs_bounded(b@),
            limbs_bounded(result@),
            result@.len() == i,
            carry < BASE,
            pval(result@, i as nat) + carry * pow_b(i as nat) == pval(b@, i as nat) * x,
        decreases b@.len() - i,
    {
        proof {
            assert((b@[i as int] as int) * (x as int) <= ((BASE - 1) as int) * ((BASE - 1) as int))
                by (nonlinear_arith)
                requires
                    b@[i as int] < BASE,
                    x < BASE,
            ;
        }
        let t: u64 = (b[i] as u64) * (x as u64) + carry;
        let limb: u32 = (t % BASE) as u32;
        let new_carry: u64 = t / BASE;
        proof {
            let s = result@;
            let n = i as nat;
            vstd::arithmetic::div_mod::lemma_fundamental_div_mod(t as int, BASE as int);
            assert(new_carry < BASE) by (nonlinear_arith)
                requires
                    t < (BASE as nat) * (BASE as nat),
                    t == new_carry * BASE + (t % BASE),
                    0 <= t % BASE < BASE,
            ;
            crate::limbs::lemma_val_push(s, limb);
            crate::limbs::lemma_pval_beyond(s, n);
            crate::limbs::lemma_pval_congruent(s.push(limb), s, n);
            assert(pval(s.push(limb), n + 1) + new_carry * pow_b(n + 1) == pval(b@, (n + 1) as nat)
                * x) by (nonlinear_arith)
                requires
                    pval(s.push(limb), n + 1) == pval(s, n) + (limb as nat) * pow_b(n),
                    pow_b(n + 1) == (BASE as nat) * pow_b(n),
                    (limb as nat) + new_carry * (BASE as nat) == t as nat,
                    t as nat == (b@[n as int] as nat) * (x as nat) + carry,
                    pval(s, n) + carry * pow_b(n) == pval(b@, n) * x,
                    pval(b@, (n + 1) as nat) == pval(b@, n) + (b@[n as int] as nat) * pow_b(n),
            ;
        }
        result.push(limb);
        carry = new_carry;
        i = i + 1;
    }
    proof {
        crate::limbs::lemma_pval_beyond(b@, b@.len());
    }
    if carry > 0 {
        proof {
            crate::limbs::lemma_val_push(result@, carry as u32);
            crate::limbs::lemma_pval_beyond(result@, result@.len());
        }
        result.push(carry as u32);
    } else {
        proof {
            assert(carry * pow_b(b@.len()) == 0) by (nonlinear_arith)
                requires
                    carry == 0,
            ;
        }
    }
    if result.len() == 0 {
        result.push(0);
        proof {
            assert(result@ =~= seq![0u32]);
            lemma_val_singleton(0);
            assert(val(b@) * x == 0) by (nonlinear_arith)
                requires
                    val(b@) == 0,
            ;
        }
    }
    normalize(&mut result);
    result
}

impl crate::bigint::BigInt {
    /// Schoolbook multiplication: for every pair of limb positions the
    /// partial product is accumulated with carry propagation. Exact product,
    /// in canonical form.
    pub fn mul_direct_slices(a: &[u32], b: &[u32]) -> (r: Vec<u32>)
        requires
            limbs_bounded(a@),
            limbs_bounded(b@),
            max_len(a@.len(), b@.len()) < usize::MAX / 16,
        ensures
            wf(r@),
            val(r@) == val(a@) * val(b@),
            r@.len() <= a@.len() + b@.len() + 1,
    {
        if a.len() == 0 || b.len() == 0 {
            let mut r: Vec<u32> = Vec::new();
            r.push(0);
            proof {
                assert(r@ =~= seq![0u32]);
                lemma_val_singleton(0);
                assert(val(a@) * val(b@) == 0) by (nonlinear_arith)
                    requires
                        val(a@) == 0 || val(b@) == 0,
                ;
            }
            return r;
        }
        let mut acc: Vec<u32> = Vec::new();
        acc.push(0);
        proof {
            assert(acc@ =~= seq![0u32]);
            lemma_val_singleton(0);
            assert(pval(a@, 0) * val(b@) == 0) by (nonlinear_arith)
                requires
                    pval(a@, 0) == 0,
            ;
        }
        let mut i: usize = 0;
        while i < a.len()
            invariant
                i <= a@.len(),
                1 <= a@.len(),
                1 <= b@.len(),
                limbs_bounded(a@),
                limbs_bounded(b@),
                max_len(a@.len(), b@.len()) < usize::MAX / 16,
                wf(acc@),
                acc@.len() <= a@.len() + b@.len(),
                val(acc@) == pval(a@, i as nat) * val(b@),
            decreases a@.len() - i,
        {
            let part = mul_by_limb(b, a[i]);
            let shifted = shift_left_slices(&part, i);
            let sum = add_slices(&acc, &shifted);
            proof {
                let n = i as nat;
                assert(val(sum@) == pval(a@, (n + 1) as nat) * val(b@)) by (nonlinear_arith)
                    requires
                        val(sum@) == pval(a@, n) * val(b@) + (val(b@) * (a@[n as int] as nat))
                            * pow_b(n),
                        pval(a@, (n + 1) as nat) == pval(a@, n) + (a@[n as int] as nat) * pow_b(n),
                ;
                lemma_pval_bound(a@, (n + 1) as nat);
                lemma_val_bound(b@);
                lemma_pow_b_pos((n + 1) as nat);
                lemma_pow_b_pos(b@.len());
                assert(pval(a@, (n + 1) as nat) * val(b@) < pow_b((n + 1) as nat) * pow_b(
                    b@.len(),
                )) by (nonlinear_arith)
                    requires
                        pval(a@, (n + 1) as nat) < pow_b((n + 1) as nat),
                        val(b@) < pow_b(b@.len()),
                        pow_b((n + 1) as nat) >= 1,
                        pow_b(b@.len()) >= 1,
                ;
                lemma_pow_b_adds((n + 1) as nat, b@.len());
                lemma_pow_b_mono((n + 1 + b@.len()) as nat, (a@.len() + b@.len()) as nat);
                lemma_len_from_val(sum@, (a@.len() + b@.len()) as nat);
            }
            acc = sum;
            i = i + 1;
        }
        proof {
            crate::limbs::lemma_pval_beyond(a@, a@.len());
        }
        acc
    }

    /// Four-multiply divide-and-conquer: split each operand at half the
    /// larger length and recurse into all four cross products. Same O(n^2)
    /// asymptotic class as schoolbook, kept as the comparison control.
    #[verifier::rlimit(100)]
    pub fn mul_dc_slices(a: &[u32], b: &[u32]) -> (r: Vec<u32>)
        requires
            limbs_bounded(a@),
            limbs_bounded(b@),
            max_len(a@.len(), b@.len()) < usize::MAX / 16,
        ensures
            wf(r@),
            val(r@) == val(a@) * val(b@),
            r@.len() <= a@.len() + b@.len() + 1,
        decreases max_len(a@.len(), b@.len()),
    {
        if a.len() == 0 || b.len() == 0 {
            let mut r: Vec<u32> = Vec::new();
            r.push(0);
            proof {
                assert(r@ =~= seq![0u32]);
                lemma_val_singleton(0);
                assert(val(a@) * val(b@) == 0) by (nonlinear_arith)
                    requires
                        val(a@) == 0 || val(b@) == 0,
                ;
            }
            return r;
        }
        let n: usize = if a.len() >= b.len() {
            a.len()
        } else {
            b.len()
        };
        if n <= THRESHOLD {
            return Self::mul_direct_slices(a, b);
        }
        let m: usize = n / 2;
        proof {
            vstd::arithmetic::div_mod::lemma_fundamental_div_mod(n as int, 2);
            assert(16 <= m && m < n && n - m < n && n - m + 1 < n);
        }
        let acut: usize = if m < a.len() {
            m
        } else {
            a.len()
        };
        let bcut: usize = if m < b.len() {
            m
        } else {
            b.len()
        };
        let a0 = slice_subrange(a, 0, acut);
        let a1 = slice_subrange(a, acut, a.len());
        let b0 = slice_subrange(b, 0, bcut);
        let b1 = slice_subrange(b, bcut, b.len());
        proof {
            lemma_operand_split(a@, a0@, a1@, acut as nat, m as nat);
            lemma_operand_split(b@, b0@, b1@, bcut as nat, m as nat);
        }
        let ghost x0 = val(a0@);
        let ghost x1 = val(a1@);
        let ghost y0 = val(b0@);
        let ghost y1 = val(b1@);
        let p = Self::mul_dc_slices(a0, b0);
        let q = Self::mul_dc_slices(a1, b1);
        let rr = Self::mul_dc_slices(a0, b1);
        let ss = Self::mul_dc_slices(a1, b0);
        let mid = add_slices(&rr, &ss);
        let q_shifted = shift_left_slices(&q, 2 * m);
        let mid_shifted = shift_left_slices(&mid, m);
        let temp = add_slices(&q_shifted, &mid_shifted);
        let result = add_slices(&temp, &p);
        proof {
            let pw = pow_b(m as nat);
            lemma_pow_b_adds(m as nat, m as nat);
            assert(pow_b((2 * m) as nat) == pw * pw);
            lemma_split_product(x0, x1, y0, y1, pw);
            assert(val(q_shifted@) == (x1 * y1) * (pw * pw));
            assert(val(mid_shifted@) == (x0 * y1 + x1 * y0) * pw);
            assert(val(result@) == x0 * y0 + (x0 * y1 + x1 * y0) * pw + (x1 * y1) * (pw * pw));
            assert(val(a@) * val(b@) == (x0 + x1 * pw) * (y0 + y1 * pw));
            assert(val(result@) == val(a@) * val(b@));
            lemma_product_len(a@, b@, result@);
        }
        result
    }

    /// Karatsuba's three-multiply split: the cross term is recovered as
    /// (a0+a1)(b0+b1) - a0*b0 - a1*b1, a true subtraction that is safe
    /// because that difference is exactly a0*b1 + a1*b0 >= 0.
    #[verifier::rlimit(100)]
    pub fn mul_karatsuba_slices(a: &[u32], b: &[u32]) -> (r: Vec<u32>)
        requires
            limbs_bounded(a@),
            limbs_bounded(b@),
            max_len(a@.len(), b@.len()) < usize::MAX / 16,
        ensures
            wf(r@),
            val(r@) == val(a@) * val(b@),
            r@.len() <= a@.len() + b@.len() + 1,
        decreases max_len(a@.len(), b@.len()),
    {
        if a.len() == 0 || b.len() == 0 {
            let mut r: Vec<u32> = Vec::new();
            r.push(0);
            proof {
                assert(r@ =~= seq![0u32]);
                lemma_val_singleton(0);
                assert(val(a@) * val(b@) == 0) by (nonlinear_arith)
                    requires
                        val(a@) == 0 || val(b@) == 0,
                ;
            }
            return r;
        }
        let n: usize = if a.len() >= b.len() {
            a.len()
        } else {
            b.len()
        };
        if n <= THRESHOLD {
            return Self::mul_direct_slices(a, b);
        }
        let m: usize = n / 2;
        proof {
            vstd::arithmetic::div_mod::lemma_fundamental_div_mod(n as int, 2);
            assert(16 <= m && m < n && n - m < n && n - m + 1 < n);
        }
        let acut: usize = if m < a.len() {
            m
        } else {
            a.len()
        };
        let bcut: usize = if m < b.len() {
            m
        } else {
            b.len()
        };
        let a0 = slice_subrange(a, 0, acut);
        let a1 = slice_subrange(a, acut, a.len());
        let b0 = slice_subrange(b, 0, bcut);
        let b1 = slice_subrange(b, bcut, b.len());
        proof {
            lemma_operand_split(a@, a0@, a1@, acut as nat, m as nat);
            lemma_operand_split(b@, b0@, b1@, bcut as nat, m as nat);
        }
        let ghost x0 = val(a0@);
        let ghost x1 = val(a1@);
        let ghost y0 = val(b0@);
        let ghost y1 = val(b1@);
        let p = Self::mul_karatsuba_slices(a0, b0);
        let q = Self::mul_karatsuba_slices(a1, b1);
        let sum_a = add_slices(a0, a1);
        let sum_b = add_slices(b0, b1);
        let u = Self::mul_karatsuba_slices(sum_a.as_slice(), sum_b.as_slice());
        let sum_pq = add_slices(&p, &q);
        proof {
            assert(x0 * y0 + x1 * y1 <= (x0 + x1) * (y0 + y1)) by (nonlinear_arith);
        }
        let mid = sub_slices(&u, &sum_pq);
        proof {
            assert((x0 + x1) * (y0 + y1) - (x0 * y0 + x1 * y1) == x0 * y1 + x1 * y0)
                by (nonlinear_arith);
            assert(val(mid@) == x0 * y1 + x1 * y0);
        }
        let q_shifted = shift_left_slices(&q, 2 * m);
        let mid_shifted = shift_left_slices(&mid, m);
        let temp = add_slices(&q_shifted, &mid_shifted);
        let result = add_slices(&temp, &p);
        proof {
            let pw = pow_b(m as nat);
            lemma_pow_b_adds(m as nat, m as nat);
            assert(pow_b((2 * m) as nat) == pw * pw);
            lemma_split_product(x0, x1, y0, y1, pw);
            assert(val(q_shifted@) == (x1 * y1) * (pw * pw));
            assert(val(mid_shifted@) == (x0 * y1 + x1 * y0) * pw);
            assert(val(result@) == x0 * y0 + (x0 * y1 + x1 * y0) * pw + (x1 * y1) * (pw * pw));
            assert(val(a@) * val(b@) == (x0 + x1 * pw) * (y0 + y1 * pw));
            assert(val(result@) == val(a@) * val(b@));
            lemma_product_len(a@, b@, result@);
        }
        result
    }

    /// Schoolbook multiplication of two values.
    pub fn mul_direct(&self, other: &crate::bigint::BigInt) -> (r: crate::bigint::BigInt)
        requires
            self.well_formed(),
            other.well_formed(),
            max_len(self@.len(), other@.len()) < usize::MAX / 16,
        ensures
            r.well_formed(),
            r.value() == self.value() * other.value(),
    {
        crate::bigint::BigInt {
            digits: Self::mul_direct_slices(self.digits.as_slice(), other.digits.as_slice()),
        }
    }

    /// Four-multiply divide-and-conquer multiplication of two values.
    pub fn mul_dc(&self, other: &crate::bigint::BigInt) -> (r: crate::bigint::BigInt)
        requires
            self.well_formed(),
            other.well_formed(),
            max_len(self@.len(), other@.len()) < usize::MAX / 16,
        ensures
            r.well_formed(),
            r.value() == self.value() * other.value(),
    {
        crate::bigint::BigInt {
            digits: Self::mul_dc_slices(self.digits.as_slice(), other.digits.as_slice()),
        }
    }

    /// Karatsuba multiplication of two values.
    pub fn mul_karatsuba(&self, other: &crate::bigint::BigInt) -> (r: crate::bigint::BigInt)
        requires
            self.well_formed(),
            other.well_formed(),
            max_len(self@.len(), other@.len()) < usize::MAX / 16,
        ensures
            r.well_formed(),
            r.value() == self.value() * other.value(),
    {
        crate::bigint::BigInt {
            digits: Self::mul_karatsuba_slices(self.digits.as_slice(), other.digits.as_slice()),
        }
    }
}

/// Splitting an operand at the cut point: low limbs plus high limbs scaled
/// by BASE^m, where the cut is min(m, len).
proof fn lemma_operand_split(s: Seq<u32>, lo: Seq<u32>, hi: Seq<u32>, cut: nat, m: nat)
    requires
        cut == if m < s.len() {
            m
        } else {
            s.len()
        },
        lo == s.subrange(0, cut as int),
        hi == s.subrange(cut as int, s.len() as int),
        limbs_bounded(s),
    ensures
        val(s) == val(lo) + val(hi) * pow_b(m),
        limbs_bounded(lo),
        limbs_bounded(hi),
        lo.len() <= m,
        hi.len() <= s.len(),
        s.len() > m ==> hi.len() == s.len() - m,
        s.len() <= m ==> hi.len() == 0,
{
    lemma_val_split(s, cut);
    assert(s.take(cut as int) == s.subrange(0, cut as int));
    assert(s.skip(cut as int) == s.subrange(cut as int, s.len() as int));
    if m < s.len() {
        assert(cut == m);
    } else {
        assert(hi.len() == 0);
        assert(val(hi) == 0);
        assert(val(hi) * pow_b(cut) == 0 && val(hi) * pow_b(m) == 0) by (nonlinear_arith)
            requires
                val(hi) == 0,
        ;
    }
    assert forall|i: int| 0 <= i < lo.len() implies lo[i] < BASE by {
        assert(lo[i] == s[i]);
    }
    assert forall|i: int| 0 <= i < hi.len() implies hi[i] < BASE by {
        assert(hi[i] == s[i + cut]);
    }
}

} // verus!
