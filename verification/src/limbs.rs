//! Limb-vector model and primitives: the value of a limb sequence in base
//! `BASE`, normalization, addition, subtraction, and shifting by whole limbs.

use vstd::prelude::*;

verus! {

/// The radix of the limb representation: each limb is a base-10^9 digit,
/// stored least-significant first.
pub const BASE: u64 = 1_000_000_000;

/// `BASE` raised to the power `k`.
pub open spec fn pow_b(k: nat) -> nat
    decreases k,
{
    if k == 0 {
        1
    } else {
        (BASE as nat) * pow_b((k - 1) as nat)
    }
}

/// The limb at position `i`, reading positions past the end as zero.
pub open spec fn limb_at(s: Seq<u32>, i: int) -> nat {
    if 0 <= i < s.len() {
        s[i] as nat
    } else {
        0
    }
}

/// The value of the first `n` positions of `s` (positions past the end count
/// as zero): sum over i < n of limb_at(s, i) * BASE^i.
pub open spec fn pval(s: Seq<u32>, n: nat) -> nat
    decreases n,
{
    if n == 0 {
        0
    } else {
        pval(s, (n - 1) as nat) + limb_at(s, n - 1) * pow_b((n - 1) as nat)
    }
}

/// The non-negative integer a limb sequence stands for.
pub open spec fn val(s: Seq<u32>) -> nat {
    pval(s, s.len())
}

/// Every limb is a valid base-`BASE` digit.
pub open spec fn limbs_bounded(s: Seq<u32>) -> bool {
    forall|i: int| 0 <= i < s.len() ==> s[i] < BASE
}

/// Canonical form: at least one limb, and no high-order zero limb unless the
/// value is zero (then exactly one zero limb).
pub open spec fn normalized(s: Seq<u32>) -> bool {
    s.len() >= 1 && (s.len() == 1 || s.last() != 0)
}

/// A well-formed limb sequence: canonical and with every limb in range.
pub open spec fn wf(s: Seq<u32>) -> bool {
    normalized(s) && limbs_bounded(s)
}

pub proof fn lemma_pow_b_pos(k: nat)
    ensures
        pow_b(k) >= 1,
    decreases k,
{
    if k > 0 {
        lemma_pow_b_pos((k - 1) as nat);
    }
}

pub proof fn lemma_pow_b_adds(a: nat, b: nat)
    ensures
        pow_b(a + b) == pow_b(a) * pow_b(b),
    decreases b,
{
    if b == 0 {
        assert(pow_b(a + 0) == pow_b(a) * 1);
    } else {
        lemma_pow_b_adds(a, (b - 1) as nat);
        assert(pow_b((a + b - 1) as nat) == pow_b(a) * pow_b((b - 1) as nat));
        assert(pow_b(a + b) == (BASE as nat) * pow_b((a + b - 1) as nat));
        assert((BASE as nat) * (pow_b(a) * pow_b((b - 1) as nat)) == pow_b(a) * ((BASE as nat)
            * pow_b((b - 1) as nat))) by (nonlinear_arith);
    }
}

/// Two sequences with the same limbs below `n` have the same partial value.
pub proof fn lemma_pval_congruent(s: Seq<u32>, t: Seq<u32>, n: nat)
    requires
        forall|i: int| 0 <= i < n ==> limb_at(s, i) == limb_at(t, i),
    ensures
        pval(s, n) == pval(t, n),
    decreases n,
{
    if n > 0 {
        lemma_pval_congruent(s, t, (n - 1) as nat);
    }
}

/// Positions at or past the end contribute nothing.
pub proof fn lemma_pval_beyond(s: Seq<u32>, n: nat)
    requires
        n >= s.len(),
    ensures
        pval(s, n) == val(s),
    decreases n,
{
    if n > s.len() {
        lemma_pval_beyond(s, (n - 1) as nat);
        assert(limb_at(s, n - 1) == 0);
        assert(pval(s, n) == pval(s, (n - 1) as nat) + 0 * pow_b((n - 1) as nat));
    } else {
        assert(pval(s, n) == pval(s, s.len()));
    }
}

/// Splitting the first `k + n` positions at `k`: the high part is the partial
/// value of the sequence with its first `k` limbs dropped, scaled by BASE^k.
pub proof fn lemma_pval_split(s: Seq<u32>, k: nat, n: nat)
    requires
        k <= s.len(),
    ensures
        pval(s, k + n) == pval(s, k) + pval(s.skip(k as int), n) * pow_b(k),
    decreases n,
{
    if n == 0 {
        assert(pval(s.skip(k as int), 0) * pow_b(k) == 0) by (nonlinear_arith);
    } else {
        lemma_pval_split(s, k, (n - 1) as nat);
        let t = s.skip(k as int);
        assert(limb_at(s, k + n - 1) == limb_at(t, n - 1));
        lemma_pow_b_adds(k, (n - 1) as nat);
        assert(limb_at(t, n - 1) * (pow_b(k) * pow_b((n - 1) as nat)) == (limb_at(t, n - 1)
            * pow_b((n - 1) as nat)) * pow_b(k)) by (nonlinear_arith);
        assert(pval(t, (n - 1) as nat) * pow_b(k) + (limb_at(t, n - 1) * pow_b((n - 1) as nat))
            * pow_b(k) == (pval(t, (n - 1) as nat) + limb_at(t, n - 1) * pow_b((n - 1) as nat))
            * pow_b(k)) by (nonlinear_arith);
    }
}

/// The value of a sequence splits at any cut point `k`.
pub proof fn lemma_val_split(s: Seq<u32>, k: nat)
    requires
        k <= s.len(),
    ensures
        val(s) == val(s.take(k as int)) + val(s.skip(k as int)) * pow_b(k),
{
    lemma_pval_split(s, k, (s.len() - k) as nat);
    lemma_pval_congruent(s, s.take(k as int), k);
}

/// A bounded limb sequence's value is below BASE^len.
pub proof fn lemma_pval_bound(s: Seq<u32>, n: nat)
    requires
        forall|i: int| 0 <= i < n ==> limb_at(s, i) < BASE,
    ensures
        pval(s, n) < pow_b(n),
    decreases n,
{
    if n == 0 {
    } else {
        lemma_pval_bound(s, (n - 1) as nat);
        lemma_pow_b_pos((n - 1) as nat);
        assert(limb_at(s, n - 1) * pow_b((n - 1) as nat) <= (BASE - 1) as nat * pow_b(
            (n - 1) as nat)) by (nonlinear_arith)
            requires
                limb_at(s, n - 1) <= (BASE - 1) as nat,
                pow_b((n - 1) as nat) >= 1,
        ;
        assert(pow_b((n - 1) as nat) + (BASE - 1) as nat * pow_b((n - 1) as nat) == (BASE as nat)
            * pow_b((n - 1) as nat)) by (nonlinear_arith);
    }
}

pub proof fn lemma_val_bound(s: Seq<u32>)
    requires
        limbs_bounded(s),
    ensures
        val(s) < pow_b(s.len()),
{
    lemma_pval_bound(s, s.len());
}

/// If the value fits below BASE^n, the first `n` positions already hold it.
pub proof fn lemma_pval_cut(s: Seq<u32>, n: nat)
    requires
        val(s) < pow_b(n),
    ensures
        pval(s, n) == val(s),
{
    if n >= s.len() {
        lemma_pval_beyond(s, n);
    } else {
        lemma_pval_split(s, n, (s.len() - n) as nat);
        let t = s.skip(n as int);
        let m = (s.len() - n) as nat;
        assert(val(s) == pval(s, n) + pval(t, m) * pow_b(n));
        if pval(t, m) >= 1 {
            lemma_pow_b_pos(n);
            assert(pval(t, m) * pow_b(n) >= pow_b(n)) by (nonlinear_arith)
                requires
                    pval(t, m) >= 1,
                    pow_b(n) >= 1,
            ;
            assert(false);
        }
        assert(pval(t, m) * pow_b(n) == 0) by (nonlinear_arith)
            requires
                pval(t, m) == 0,
        ;
    }
}

/// A normalized nonzero sequence's value reaches BASE^(len-1).
pub proof fn lemma_val_lower_bound(s: Seq<u32>)
    requires
        normalized(s),
        s.last() != 0,
    ensures
        val(s) >= pow_b((s.len() - 1) as nat),
{
    let n = s.len();
    assert(pval(s, n) == pval(s, (n - 1) as nat) + limb_at(s, n - 1) * pow_b((n - 1) as nat));
    lemma_pow_b_pos((n - 1) as nat);
    assert(limb_at(s, n - 1) * pow_b((n - 1) as nat) >= pow_b((n - 1) as nat)) by (nonlinear_arith)
        requires
            limb_at(s, n - 1) >= 1,
            pow_b((n - 1) as nat) >= 1,
    ;
}

/// Base-B digits are unique: two bounded sequences with the same partial
/// value agree on every position below `n`.
pub proof fn lemma_pval_unique(x: Seq<u32>, y: Seq<u32>, n: nat)
    requires
        forall|i: int| 0 <= i < n ==> limb_at(x, i) < BASE,
        forall|i: int| 0 <= i < n ==> limb_at(y, i) < BASE,
        pval(x, n) == pval(y, n),
    ensures
        forall|i: int| 0 <= i < n ==> limb_at(x, i) == limb_at(y, i),
    decreases n,
{
    if n > 0 {
        lemma_pval_bound(x, (n - 1) as nat);
        lemma_pval_bound(y, (n - 1) as nat);
        let p = pow_b((n - 1) as nat);
        lemma_pow_b_pos((n - 1) as nat);
        assert(limb_at(x, n - 1) == limb_at(y, n - 1) && pval(x, (n - 1) as nat) == pval(
            y,
            (n - 1) as nat,
        )) by (nonlinear_arith)
            requires
                pval(x, (n - 1) as nat) + limb_at(x, n - 1) * p == pval(y, (n - 1) as nat)
                    + limb_at(y, n - 1) * p,
                pval(x, (n - 1) as nat) < p,
                pval(y, (n - 1) as nat) < p,
                p >= 1,
        ;
        lemma_pval_unique(x, y, (n - 1) as nat);
    }
}

/// A well-formed sequence is the unique canonical representation of its
/// value: two well-formed sequences of equal value are limb-for-limb equal.
pub proof fn lemma_wf_unique(x: Seq<u32>, y: Seq<u32>)
    requires
        wf(x),
        wf(y),
        val(x) == val(y),
    ensures
        x == y,
{
    if x.len() < y.len() {
        lemma_val_bound(x);
        assert(y.len() >= 2);
        lemma_val_lower_bound(y);
        lemma_pow_b_mono(x.len(), (y.len() - 1) as nat);
        assert(false);
    } else if y.len() < x.len() {
        lemma_val_bound(y);
        assert(x.len() >= 2);
        lemma_val_lower_bound(x);
        lemma_pow_b_mono(y.len(), (x.len() - 1) as nat);
        assert(false);
    } else {
        let n = x.len();
        lemma_pval_unique(x, y, n);
        assert forall|i: int| 0 <= i < n implies x[i] == y[i] by {
            assert(limb_at(x, i) == limb_at(y, i));
        }
        assert(x =~= y);
    }
}

pub proof fn lemma_pow_b_mono(a: nat, b: nat)
    requires
        a <= b,
    ensures
        pow_b(a) <= pow_b(b),
{
    lemma_pow_b_adds(a, (b - a) as nat);
    lemma_pow_b_pos(a);
    lemma_pow_b_pos((b - a) as nat);
    assert(pow_b(a) * pow_b((b - a) as nat) >= pow_b(a) * 1) by (nonlinear_arith)
        requires
            pow_b((b - a) as nat) >= 1,
            pow_b(a) >= 1,
    ;
}

/// Appending a limb adds its scaled contribution.
pub proof fn lemma_val_push(s: Seq<u32>, x: u32)
    ensures
        val(s.push(x)) == val(s) + x * pow_b(s.len()),
{
    lemma_pval_congruent(s.push(x), s, s.len());
    assert(limb_at(s.push(x), s.len() as int) == x);
}

/// The value of a single limb is that limb.
pub proof fn lemma_val_singleton(x: u32)
    ensures
        val(seq![x]) == x,
{
    let s = seq![x];
    assert(pval(s, 1) == pval(s, 0) + limb_at(s, 0) * pow_b(0));
    assert(pval(s, 0) == 0);
    assert(limb_at(s, 0) * 1 == limb_at(s, 0)) by (nonlinear_arith);
}

/// Strip high-order zero limbs until the sequence is in canonical form.
#[verifier::rlimit(50)]
pub fn normalize(v: &mut Vec<u32>)
    requires
        old(v)@.len() >= 1,
    ensures
        normalized(final(v)@),
        val(final(v)@) == val(old(v)@),
        final(v)@.len() <= old(v)@.len(),
        forall|i: int| 0 <= i < final(v)@.len() ==> final(v)@[i] == old(v)@[i],
{
    let ghost orig = old(v)@;
    while v.len() > 1 && v[v.len() - 1] == 0
        invariant
            v@.len() >= 1,
            val(v@) == val(orig),
            v@.len() <= orig.len(),
            forall|i: int| 0 <= i < v@.len() ==> v@[i] == orig[i],
        decreases v@.len(),
    {
        let ghost s = v@;
        proof {
            lemma_pval_congruent(s, s.subrange(0, s.len() - 1), (s.len() - 1) as nat);
            assert(val(s) == pval(s, (s.len() - 1) as nat) + limb_at(s, s.len() - 1) * pow_b(
                (s.len() - 1) as nat));
            assert(limb_at(s, s.len() - 1) == 0);
            assert(limb_at(s, s.len() - 1) * pow_b((s.len() - 1) as nat) == 0) by (nonlinear_arith)
                requires
                    limb_at(s, s.len() - 1) == 0,
            ;
            assert(val(s.subrange(0, s.len() - 1)) == pval(s.subrange(0, s.len() - 1), (s.len()
                - 1) as nat));
        }
        v.pop();
        proof {
            assert(val(v@) == val(s));
        }
    }
}

/// Limb-wise sum with base-`BASE` carry propagation; the result is the
/// canonical representation of val(a) + val(b).
pub fn add_slices(a: &[u32], b: &[u32]) -> (r: Vec<u32>)
    requires
        limbs_bounded(a@),
        limbs_bounded(b@),
        a@.len() + b@.len() + 2 < usize::MAX,
    ensures
        wf(r@),
        val(r@) == val(a@) + val(b@),
        r@.len() <= (if a@.len() >= b@.len() {
            a@.len()
        } else {
            b@.len()
        }) + 1,
{
    let max_len: usize = if a.len() >= b.len() {
        a.len()
    } else {
        b.len()
    };
    let mut result: Vec<u32> = Vec::new();
    let mut carry: u64 = 0;
    let mut i: usize = 0;
    while i < max_len
        invariant
            i <= max_len,
            max_len == if a@.len() >= b@.len() {
                a@.len()
            } else {
                b@.len()
            },
            limbs_bounded(a@),
            limbs_bounded(b@),
            result@.len() == i,
            carry <= 1,
            limbs_bounded(result@),
            pval(result@, i as nat) + carry * pow_b(i as nat) == pval(a@, i as nat) + pval(
                b@,
                i as nat,
            ),
        decreases max_len - i,
    {
        let ai: u64 = if i < a.len() {
            a[i] as u64
        } else {
            0
        };
        let bi: u64 = if i < b.len() {
            b[i] as u64
        } else {
            0
        };
        let sum: u64 = ai + bi + carry;
        let limb: u32 = (sum % BASE) as u32;
        let new_carry: u64 = sum / BASE;
        proof {
            let s = result@;
            let n = i as nat;
            vstd::arithmetic::div_mod::lemma_fundamental_div_mod(sum as int, BASE as int);
            assert(new_carry <= 1) by (nonlinear_arith)
                requires
                    new_carry == sum as nat / BASE as nat,
                    sum < 2 * BASE,
            ;
            lemma_val_push(s, limb);
            lemma_pval_beyond(s, n);
            lemma_pval_congruent(s.push(limb), s, n);
            assert(pval(s.push(limb), n + 1) + new_carry * pow_b(n + 1) == pval(s, n) + (
            limb as nat + new_carry * (BASE as nat)) * pow_b(n)) by (nonlinear_arith)
                requires
                    pval(s.push(limb), n + 1) == pval(s, n) + (limb as nat) * pow_b(n),
                    pow_b(n + 1) == (BASE as nat) * pow_b(n),
            ;
            assert(limb as nat + new_carry * (BASE as nat) == sum as nat);
            assert(limb_at(a@, i as int) == ai && limb_at(b@, i as int) == bi);
            assert(pval(s, n) + (sum as nat) * pow_b(n) == pval(a@, n + 1) + pval(b@, n + 1)
                + new_carry * pow_b(n) - carry * pow_b(n) + carry * pow_b(n) - new_carry * pow_b(n))
                by (nonlinear_arith)
                requires
                    pval(s, n) + carry * pow_b(n) == pval(a@, n) + pval(b@, n),
                    sum == ai + bi + carry,
                    pval(a@, n + 1) == pval(a@, n) + ai * pow_b(n),
                    pval(b@, n + 1) == pval(b@, n) + bi * pow_b(n),
            ;
        }
        result.push(limb);
        carry = new_carry;
        i = i + 1;
    }
    proof {
        lemma_pval_beyond(a@, max_len as nat);
        lemma_pval_beyond(b@, max_len as nat);
    }
    if carry > 0 {
        proof {
            lemma_val_push(result@, carry as u32);
        }
        result.push(carry as u32);
    }
    if result.len() == 0 {
        result.push(0);
        proof {
            assert(result@ =~= seq![0u32]);
            lemma_val_singleton(0);
        }
    }
    normalize(&mut result);
    result
}

/// Limb-wise difference with borrow propagation; callers guarantee that the
/// subtrahend's value does not exceed the minuend's.
pub fn sub_slices(a: &[u32], b: &[u32]) -> (r: Vec<u32>)
    requires
        limbs_bounded(a@),
        limbs_bounded(b@),
        a@.len() >= 1,
        val(b@) <= val(a@),
    ensures
        wf(r@),
        val(r@) == val(a@) - val(b@),
        r@.len() <= a@.len(),
{
    let mut result: Vec<u32> = Vec::new();
    let mut borrow: u64 = 0;
    let mut i: usize = 0;
    while i < a.len()
        invariant
            i <= a@.len(),
            limbs_bounded(a@),
            limbs_bounded(b@),
            result@.len() == i,
            borrow <= 1,
            limbs_bounded(result@),
            pval(result@, i as nat) as int - borrow * pow_b(i as nat) == pval(a@, i as nat) as int
                - pval(b@, i as nat),
        decreases a@.len() - i,
    {
        let ai: u64 = a[i] as u64;
        let bi: u64 = if i < b.len() {
            b[i] as u64
        } else {
            0
        };
        let limb: u32;
        let new_borrow: u64;
        if ai >= bi + borrow {
            limb = (ai - bi - borrow) as u32;
            new_borrow = 0;
        } else {
            limb = (ai + BASE - bi - borrow) as u32;
            new_borrow = 1;
        }
        proof {
            let s = result@;
            let n = i as nat;
            assert(limb as int == ai - bi - borrow + new_borrow * BASE);
            lemma_val_push(s, limb);
            lemma_pval_beyond(s, n);
            assert(limb_at(a@, i as int) == ai && limb_at(b@, i as int) == bi);
            assert(pval(s.push(limb), n + 1) as int - new_borrow * pow_b(n + 1) == pval(s, n) + (
            ai - bi - borrow + new_borrow * (BASE as nat)) * pow_b(n) - new_borrow * ((BASE as nat)
                * pow_b(n))) by (nonlinear_arith)
                requires
                    pval(s.push(limb), n + 1) == pval(s, n) + (limb as nat) * pow_b(n),
                    limb as int == ai - bi - borrow + new_borrow * BASE,
                    pow_b(n + 1) == (BASE as nat) * pow_b(n),
            ;
            assert(pval(s, n) + (ai - bi - borrow + new_borrow * (BASE as nat)) * pow_b(n)
                - new_borrow * ((BASE as nat) * pow_b(n)) == pval(a@, n + 1) as int - pval(
                b@,
                n + 1,
            ) - new_borrow * pow_b(n + 1) + new_borrow * pow_b(n + 1) - borrow * pow_b(n) + borrow
                * pow_b(n)) by (nonlinear_arith)
                requires
                    pval(s, n) as int - borrow * pow_b(n) == pval(a@, n) as int - pval(b@, n),
                    pval(a@, n + 1) == pval(a@, n) + ai * pow_b(n),
                    pval(b@, n + 1) == pval(b@, n) + bi * pow_b(n),
                    pow_b(n + 1) == (BASE as nat) * pow_b(n),
            ;
        }
        result.push(limb);
        borrow = new_borrow;
        i = i + 1;
    }
    proof {
        let n = a@.len() as nat;
        lemma_pval_beyond(a@, n);
        lemma_val_bound(a@);
        lemma_pval_cut(b@, n);
        lemma_pval_bound(result@, n);
        if borrow == 1 {
            assert(pval(result@, n) as int == val(a@) as int - val(b@) + pow_b(n));
            assert(false);
        }
    }
    normalize(&mut result);
    result
}

/// Multiply by BASE^k by prepending `k` zero limbs; shifting the zero value
/// leaves it as the single zero limb.
pub fn shift_left_slices(digits: &[u32], k: usize) -> (r: Vec<u32>)
    requires
        wf(digits@),
        digits@.len() + k < usize::MAX,
    ensures
        wf(r@),
        val(r@) == val(digits@) * pow_b(k as nat),
        r@.len() <= digits@.len() + k,
        val(digits@) == 0 ==> r@ == digits@,
{
    if digits.len() == 1 && digits[0] == 0 {
        let mut r: Vec<u32> = Vec::new();
        r.push(0);
        proof {
            assert(r@ =~= seq![0u32]);
            assert(digits@ =~= seq![0u32]);
            lemma_val_singleton(0);
            assert(val(digits@) * pow_b(k as nat) == 0) by (nonlinear_arith)
                requires
                    val(digits@) == 0,
            ;
        }
        return r;
    }
    proof {
        if digits@.len() > 1 {
            lemma_val_lower_bound(digits@);
            lemma_pow_b_pos((digits@.len() - 1) as nat);
        } else {
            assert(digits@ =~= seq![digits@[0] as u32]);
            lemma_val_singleton(digits@[0]);
        }
        assert(val(digits@) > 0);
    }
    let mut res: Vec<u32> = Vec::new();
    let mut i: usize = 0;
    while i < k
        invariant
            i <= k,
            res@.len() == i,
            limbs_bounded(res@),
            pval(res@, i as nat) == 0,
        decreases k - i,
    {
        proof {
            lemma_val_push(res@, 0);
            lemma_pval_beyond(res@, i as nat);
            assert(0 * pow_b(i as nat) == 0) by (nonlinear_arith);
            lemma_pval_congruent(res@.push(0), res@, i as nat);
        }
        res.push(0);
        i = i + 1;
    }
    proof {
        assert(pval(digits@, 0) * pow_b(k as nat) == 0) by (nonlinear_arith)
            requires
                pval(digits@, 0) == 0,
        ;
    }
    let mut j: usize = 0;
    while j < digits.len()
        invariant
            j <= digits@.len(),
            k <= res@.len(),
            res@.len() == k + j,
            limbs_bounded(digits@),
            limbs_bounded(res@),
            forall|t: int| 0 <= t < j ==> res@[k + t] == digits@[t],
            pval(res@, (k + j) as nat) == pval(digits@, j as nat) * pow_b(k as nat),
        decreases digits@.len() - j,
    {
        let d = digits[j];
        proof {
            let s = res@;
            let n = (k + j) as nat;
            lemma_val_push(s, d);
            lemma_pval_beyond(s, n);
            lemma_pval_congruent(s.push(d), s, n);
            lemma_pow_b_adds(k as nat, j as nat);
            assert(pval(s.push(d), n + 1) == pval(digits@, (j + 1) as nat) * pow_b(k as nat))
                by (nonlinear_arith)
                requires
                    pval(s.push(d), n + 1) == pval(s, n) + (d as nat) * pow_b(n),
                    pval(s, n) == pval(digits@, j as nat) * pow_b(k as nat),
                    pow_b(n) == pow_b(k as nat) * pow_b(j as nat),
                    pval(digits@, (j + 1) as nat) == pval(digits@, j as nat) + (d as nat) * pow_b(
                        j as nat,
                    ),
            ;
        }
        res.push(d);
        j = j + 1;
    }
    proof {
        assert(res@[k + digits@.len() - 1] == digits@[digits@.len() - 1]);
        assert(pval(res@, res@.len()) == pval(digits@, digits@.len()) * pow_b(k as nat));
    }
    res
}

} // verus!
