//! Base-10 conversion: parsing a decimal digit string into limbs (nine
//! digits per limb, grouped from the least-significant end) and rendering a
//! value back to its canonical decimal string.

use crate::bigint::BigInt;
use crate::limbs::{
    lemma_val_push, lemma_val_singleton, lemma_val_split, limbs_bounded, normalize, pow_b, val,
    wf, BASE,
};
use vstd::arithmetic::div_mod::{lemma_fundamental_div_mod, lemma_fundamental_div_mod_converse};
use vstd::prelude::*;
use vstd::slice::slice_subrange;

verus! {

/// 10 raised to the power `k`.
pub open spec fn pow10(k: nat) -> nat
    decreases k,
{
    if k == 0 {
        1
    } else {
        10 * pow10((k - 1) as nat)
    }
}

/// An ASCII decimal digit byte.
pub open spec fn is_digit_byte(b: u8) -> bool {
    48 <= b <= 57
}

pub open spec fn all_digit_bytes(s: Seq<u8>) -> bool {
    forall|i: int| 0 <= i < s.len() ==> is_digit_byte(s[i])
}

/// A decimal digit character.
pub open spec fn is_digit_char(c: char) -> bool {
    '0' <= c && c <= '9'
}

pub open spec fn all_digit_chars(s: Seq<char>) -> bool {
    forall|i: int| 0 <= i < s.len() ==> is_digit_char(s[i])
}

/// The characters of a string, read as single bytes; meaningful for ASCII
/// strings, where each character encodes as exactly its own byte.
pub open spec fn chars_as_bytes(s: Seq<char>) -> Seq<u8> {
    Seq::new(s.len(), |i: int| s[i] as u8)
}

/// The number a big-endian decimal digit byte string stands for.
pub open spec fn dec_val_bytes(s: Seq<u8>) -> nat
    decreases s.len(),
{
    if s.len() == 0 {
        0
    } else {
        dec_val_bytes(s.drop_last()) * 10 + ((s.last() as int - 48) as nat)
    }
}

/// The number a decimal digit character string stands for.
pub open spec fn dec_val_chars(s: Seq<char>) -> nat {
    dec_val_bytes(chars_as_bytes(s))
}

/// The canonical decimal rendering of a number: no leading zeros, except
/// that zero itself renders as the single digit 0.
pub open spec fn dec_bytes_of(n: nat) -> Seq<u8>
    decreases n,
{
    if n < 10 {
        seq![(48 + n) as u8]
    } else {
        dec_bytes_of(n / 10).push((48 + n % 10) as u8)
    }
}

/// The number `x` rendered as exactly `k` decimal digits, zero-padded.
pub open spec fn pad_bytes(x: nat, k: nat) -> Seq<u8>
    decreases k,
{
    if k == 0 {
        Seq::empty()
    } else {
        pad_bytes(x / 10, (k - 1) as nat).push((48 + x % 10) as u8)
    }
}

/// A canonical decimal string: digits only, non-empty, and no leading zero
/// unless it is exactly "0".
pub open spec fn canonical_dec(s: Seq<char>) -> bool {
    all_digit_chars(s) && s.len() >= 1 && (s.len() == 1 || s[0] != '0')
}

pub proof fn lemma_pow10_pos(k: nat)
    ensures
        pow10(k) >= 1,
    decreases k,
{
    if k > 0 {
        lemma_pow10_pos((k - 1) as nat);
    }
}

pub proof fn lemma_pow10_adds(a: nat, b: nat)
    ensures
        pow10(a + b) == pow10(a) * pow10(b),
    decreases b,
{
    if b == 0 {
        assert(pow10(a) * 1 == pow10(a)) by (nonlinear_arith);
    } else {
        lemma_pow10_adds(a, (b - 1) as nat);
        assert(10 * (pow10(a) * pow10((b - 1) as nat)) == pow10(a) * (10 * pow10((b - 1) as nat)))
            by (nonlinear_arith);
    }
}

/// Nine decimal digits are one limb: 10^(9k) == BASE^k.
pub proof fn lemma_pow10_base(k: nat)
    ensures
        pow10(9 * k) == pow_b(k),
    decreases k,
{
    if k == 0 {
    } else {
        lemma_pow10_base((k - 1) as nat);
        lemma_pow10_adds((9 * (k - 1)) as nat, 9);
        assert(pow10(9) == BASE as nat) by {
            reveal_with_fuel(pow10, 10);
        }
        assert(pow_b((k - 1) as nat) * (BASE as nat) == (BASE as nat) * pow_b((k - 1) as nat))
            by (nonlinear_arith);
    }
}

/// A digit string of length n stands for a number below 10^n.
pub proof fn lemma_dec_val_bytes_bound(s: Seq<u8>)
    requires
        all_digit_bytes(s),
    ensures
        dec_val_bytes(s) < pow10(s.len()),
    decreases s.len(),
{
    if s.len() > 0 {
        lemma_dec_val_bytes_bound(s.drop_last());
        assert(dec_val_bytes(s.drop_last()) * 10 + 9 < 10 * pow10((s.len() - 1) as nat))
            by (nonlinear_arith)
            requires
                dec_val_bytes(s.drop_last()) < pow10((s.len() - 1) as nat),
        ;
    }
}

/// A digit string with a nonzero leading digit stands for at least
/// 10^(n-1).
pub proof fn lemma_dec_val_bytes_lower(s: Seq<u8>)
    requires
        all_digit_bytes(s),
        s.len() >= 1,
        s[0] != 48,
    ensures
        dec_val_bytes(s) >= pow10((s.len() - 1) as nat),
    decreases s.len(),
{
    if s.len() == 1 {
        assert(dec_val_bytes(s.drop_last()) * 10 == 0) by (nonlinear_arith)
            requires
                dec_val_bytes(s.drop_last()) == 0,
        ;
    } else {
        lemma_dec_val_bytes_lower(s.drop_last());
        assert(dec_val_bytes(s.drop_last()) * 10 >= pow10((s.len() - 2) as nat) * 10)
            by (nonlinear_arith)
            requires
                dec_val_bytes(s.drop_last()) >= pow10((s.len() - 2) as nat),
        ;
        assert(pow10((s.len() - 2) as nat) * 10 == 10 * pow10((s.len() - 2) as nat))
            by (nonlinear_arith);
    }
}

/// Splitting a digit string: the prefix is scaled by 10 to the length of
/// the suffix.
pub proof fn lemma_dec_val_bytes_split(s: Seq<u8>, k: int)
    requires
        0 <= k <= s.len(),
    ensures
        dec_val_bytes(s) == dec_val_bytes(s.take(k)) * pow10((s.len() - k) as nat) + dec_val_bytes(
            s.skip(k),
        ),
    decreases s.len(),
{
    if s.len() == k {
        assert(s.take(k) =~= s);
        assert(s.skip(k) =~= Seq::<u8>::empty());
        assert(dec_val_bytes(s) * 1 == dec_val_bytes(s)) by (nonlinear_arith);
    } else {
        let dl = s.drop_last();
        let d = (s.last() as int - 48) as nat;
        lemma_dec_val_bytes_split(dl, k);
        assert(dl.take(k) =~= s.take(k));
        assert(s.skip(k).drop_last() =~= dl.skip(k));
        assert(dec_val_bytes(s.skip(k)) == dec_val_bytes(dl.skip(k)) * 10 + d);
        let w = (s.len() - k - 1) as nat;
        assert((dec_val_bytes(s.take(k)) * pow10(w) + dec_val_bytes(dl.skip(k))) * 10
            + d == dec_val_bytes(s.take(k)) * (10 * pow10(w)) + (dec_val_bytes(dl.skip(k)) * 10
            + d)) by (nonlinear_arith);
        assert(pow10((s.len() - k) as nat) == 10 * pow10(w));
    }
}

/// Rendering a number whose low `k` digits are split off: the rendering of
/// v*10^k + d is the rendering of v followed by d zero-padded to k digits.
pub proof fn lemma_dec_bytes_pad(v: nat, d: nat, k: nat)
    requires
        v >= 1,
        d < pow10(k),
    ensures
        dec_bytes_of(v * pow10(k) + d) == dec_bytes_of(v) + pad_bytes(d, k),
    decreases k,
{
    if k == 0 {
        assert(d == 0);
        assert(v * 1 == v) by (nonlinear_arith);
        assert(dec_bytes_of(v) + pad_bytes(0, 0) =~= dec_bytes_of(v));
    } else {
        let n = v * pow10(k) + d;
        lemma_pow10_pos((k - 1) as nat);
        assert(pow10(k) == 10 * pow10((k - 1) as nat));
        assert(v * pow10(k) >= pow10(k) && pow10(k) >= 10) by (nonlinear_arith)
            requires
                v >= 1,
                pow10(k) == 10 * pow10((k - 1) as nat),
                pow10((k - 1) as nat) >= 1,
        ;
        lemma_fundamental_div_mod(d as int, 10);
        let dq = d / 10;
        let dr = d % 10;
        assert(n == 10 * (v * pow10((k - 1) as nat) + dq) + dr) by (nonlinear_arith)
            requires
                n == v * pow10(k) + d,
                pow10(k) == 10 * pow10((k - 1) as nat),
                d == 10 * dq + dr,
        ;
        lemma_fundamental_div_mod_converse(
            n as int,
            10,
            (v * pow10((k - 1) as nat) + dq) as int,
            dr as int,
        );
        assert(n / 10 == v * pow10((k - 1) as nat) + dq && n % 10 == dr);
        assert(dq < pow10((k - 1) as nat)) by (nonlinear_arith)
            requires
                d < 10 * pow10((k - 1) as nat),
                d == 10 * dq + dr,
                0 <= dr < 10,
        ;
        lemma_dec_bytes_pad(v, dq, (k - 1) as nat);
        assert(n >= 10);
        assert(dec_bytes_of(n) == dec_bytes_of(n / 10).push((48 + n % 10) as u8));
        assert(pad_bytes(d, k) == pad_bytes(dq, (k - 1) as nat).push((48 + dr) as u8));
        assert((dec_bytes_of(v) + pad_bytes(dq, (k - 1) as nat)).push((48 + dr) as u8)
            =~= dec_bytes_of(v) + pad_bytes(d, k));
    }
}

/// The canonical rendering consists of digit bytes and never has a leading
/// zero (unless the number is zero, which renders as the single digit 0).
pub proof fn lemma_dec_bytes_of_digits(n: nat)
    ensures
        all_digit_bytes(dec_bytes_of(n)),
        dec_bytes_of(n).len() >= 1,
        n > 0 ==> dec_bytes_of(n)[0] != 48,
    decreases n,
{
    if n < 10 {
    } else {
        lemma_fundamental_div_mod(n as int, 10);
        assert(n / 10 >= 1) by (nonlinear_arith)
            requires
                n >= 10,
                n == 10 * (n / 10) + n % 10,
                0 <= n % 10 < 10,
        ;
        lemma_dec_bytes_of_digits(n / 10);
    }
}

/// Round trip at the byte level: rendering the value of a canonical digit
/// string gives back exactly that string.
pub proof fn lemma_dec_bytes_round(s: Seq<u8>)
    requires
        all_digit_bytes(s),
        s.len() >= 1,
        s.len() == 1 || s[0] != 48,
    ensures
        dec_bytes_of(dec_val_bytes(s)) == s,
    decreases s.len(),
{
    if s.len() == 1 {
        assert(dec_val_bytes(s.drop_last()) * 10 == 0) by (nonlinear_arith)
            requires
                dec_val_bytes(s.drop_last()) == 0,
        ;
        let d = (s.last() as int - 48) as nat;
        assert(d < 10);
        assert(dec_bytes_of(d) =~= s);
    } else {
        let dl = s.drop_last();
        let d = (s.last() as int - 48) as nat;
        let v = dec_val_bytes(dl);
        lemma_dec_val_bytes_lower(dl);
        lemma_pow10_pos((dl.len() - 1) as nat);
        assert(v >= 1);
        let n = dec_val_bytes(s);
        assert(n == v * 10 + d);
        assert(n == 10 * v + d) by (nonlinear_arith)
            requires
                n == v * 10 + d,
        ;
        lemma_fundamental_div_mod_converse(n as int, 10, v as int, d as int);
        assert(n >= 10) by (nonlinear_arith)
            requires
                n == 10 * v + d,
                v >= 1,
                d >= 0,
        ;
        lemma_dec_bytes_round(dl);
        assert(dec_bytes_of(n) == dec_bytes_of(v).push((48 + d) as u8));
        assert((48 + d) as u8 == s.last());
        assert(dec_bytes_of(v).push(s.last()) =~= s);
    }
}

/// Digit characters are ASCII, and their UTF-8 encoding is their own bytes.
pub proof fn lemma_digit_chars_bytes(s: Seq<char>)
    requires
        all_digit_chars(s),
    ensures
        vstd::utf8::is_ascii_chars(s),
        vstd::utf8::encode_utf8(s) == chars_as_bytes(s),
        all_digit_bytes(chars_as_bytes(s)),
{
    assert forall|i: int| #![trigger s[i]] 0 <= i < s.len() implies '\0' <= s[i] && s[i]
        <= '\u{7f}' by {
        assert(is_digit_char(s[i]));
    }
    vstd::utf8::is_ascii_chars_encode_utf8(s);
    assert(vstd::utf8::encode_utf8(s) =~= chars_as_bytes(s));
    assert forall|i: int| 0 <= i < s.len() implies is_digit_byte(chars_as_bytes(s)[i]) by {
        assert(is_digit_char(s[i]));
        assert(48 <= s[i] as u32 <= 57);
        assert(s[i] as u8 == (s[i] as u32) as u8);
    }
}

pub proof fn lemma_pow10_mono(a: nat, b: nat)
    requires
        a <= b,
    ensures
        pow10(a) <= pow10(b),
{
    lemma_pow10_adds(a, (b - a) as nat);
    lemma_pow10_pos(a);
    lemma_pow10_pos((b - a) as nat);
    assert(pow10(a) * pow10((b - a) as nat) >= pow10(a) * 1) by (nonlinear_arith)
        requires
            pow10((b - a) as nat) >= 1,
            pow10(a) >= 1,
    ;
}

/// Dropping the first limb divides out one factor of BASE.
proof fn lemma_val_skip_step(s: Seq<u32>, i: int)
    requires
        0 <= i < s.len(),
    ensures
        val(s.skip(i)) == s[i] + (BASE as nat) * val(s.skip(i + 1)),
{
    let t = s.skip(i);
    lemma_val_split(t, 1);
    assert(t.take(1) =~= seq![s[i]]);
    lemma_val_singleton(s[i]);
    assert(t.skip(1) =~= s.skip(i + 1));
    assert(pow_b(1) == (BASE as nat) * pow_b(0));
    assert(val(s.skip(i + 1)) * pow_b(1) == (BASE as nat) * val(s.skip(i + 1)))
        by (nonlinear_arith)
        requires
            pow_b(1) == BASE as nat,
    ;
}

/// Relies on String::from_utf8: a vector of ASCII bytes is valid UTF-8 and
/// decodes to one character per byte, each the byte's own code point.
#[verifier::external_body]
pub(crate) fn string_from_ascii(bytes: Vec<u8>) -> (r: String)
    requires
        forall|i: int| 0 <= i < bytes@.len() ==> bytes@[i] < 128,
    ensures
        vstd::utf8::is_ascii_chars(r@),
        r@.len() == bytes@.len(),
        forall|i: int| 0 <= i < bytes@.len() ==> r@[i] as u8 == bytes@[i],
{
    String::from_utf8(bytes).unwrap()
}

/// The canonical decimal digits of a single number below BASE, without
/// padding.
fn u32_dec_bytes(x: u32) -> (r: Vec<u8>)
    ensures
        r@ == dec_bytes_of(x as nat),
    decreases x,
{
    if x < 10 {
        let mut v: Vec<u8> = Vec::new();
        v.push(48 + x as u8);
        proof {
            assert(v@ =~= seq![(48 + x as nat) as u8]);
        }
        v
    } else {
        let mut v = u32_dec_bytes(x / 10);
        v.push(48 + (x % 10) as u8);
        proof {
            assert(v@ =~= dec_bytes_of((x / 10) as nat).push((48 + (x as nat) % 10) as u8));
        }
        v
    }
}

/// A number rendered as exactly `k` decimal digits, zero-padded.
fn u32_pad_bytes(x: u32, k: usize) -> (r: Vec<u8>)
    ensures
        r@ == pad_bytes(x as nat, k as nat),
    decreases k,
{
    if k == 0 {
        let v: Vec<u8> = Vec::new();
        proof {
            assert(v@ =~= pad_bytes(x as nat, 0));
        }
        v
    } else {
        let mut v = u32_pad_bytes(x / 10, k - 1);
        v.push(48 + (x % 10) as u8);
        proof {
            assert(v@ =~= pad_bytes((x / 10) as nat, (k - 1) as nat).push(
                (48 + (x as nat) % 10) as u8,
            ));
        }
        v
    }
}

/// One up-to-nine-digit chunk parsed as a limb; a chunk holding anything
/// but digits counts as zero.
fn chunk_to_limb(c: &[u8]) -> (r: u32)
    requires
        c@.len() <= 9,
    ensures
        all_digit_bytes(c@) ==> r == dec_val_bytes(c@) && r < BASE,
        !all_digit_bytes(c@) ==> r == 0,
{
    let m = c.len();
    let mut j: usize = 0;
    while j < m
        invariant
            j <= m,
            m == c@.len(),
            forall|t: int| 0 <= t < j ==> is_digit_byte(c@[t]),
        decreases m - j,
    {
        let b = c[j];
        if b < 48 || b > 57 {
            proof {
                assert(!is_digit_byte(c@[j as int]));
            }
            return 0;
        }
        j = j + 1;
    }
    let mut v: u32 = 0;
    let mut i: usize = 0;
    proof {
        assert(c@.take(0) =~= Seq::<u8>::empty());
        reveal_with_fuel(pow10, 10);
    }
    while i < m
        invariant
            i <= m,
            m == c@.len() <= 9,
            all_digit_bytes(c@),
            v == dec_val_bytes(c@.take(i as int)),
            v < pow10(i as nat),
        decreases m - i,
    {
        proof {
            lemma_pow10_mono(i as nat, 8);
            assert(pow10(8) == 100000000) by {
                reveal_with_fuel(pow10, 10);
            }
            assert(is_digit_byte(c@[i as int]));
            assert(c@.take(i + 1).drop_last() =~= c@.take(i as int));
            assert(v * 10 + ((c@[i as int] as int - 48) as nat) < 10 * pow10(i as nat))
                by (nonlinear_arith)
                requires
                    v < pow10(i as nat),
                    ((c@[i as int] as int - 48) as nat) <= 9,
            ;
        }
        v = v * 10 + (c[i] - 48) as u32;
        i = i + 1;
    }
    proof {
        assert(c@.take(m as int) =~= c@);
        lemma_pow10_mono(m as nat, 9);
        assert(pow10(9) == BASE as nat) by {
            reveal_with_fuel(pow10, 10);
        }
    }
    v
}

impl BigInt {
    /// Parse a base-10 digit string: nine-digit chunks from the
    /// least-significant end become limbs; an empty string is zero; a chunk
    /// that is not all digits counts as the limb zero.
    pub fn from_str(s: &str) -> (r: BigInt)
        ensures
            r.well_formed(),
            all_digit_chars(s@) ==> r.value() == dec_val_chars(s@),
            vstd::utf8::is_ascii_chars(s@) && all_digit_bytes(chars_as_bytes(s@))
                ==> r.value() == dec_val_bytes(chars_as_bytes(s@)),
            s@.len() == 0 ==> r.value() == 0,
    {
        let bytes: &[u8] = s.as_bytes();
        proof {
            if all_digit_chars(s@) {
                lemma_digit_chars_bytes(s@);
                assert(bytes@ == chars_as_bytes(s@));
            }
            if vstd::utf8::is_ascii_chars(s@) {
                vstd::utf8::is_ascii_chars_encode_utf8(s@);
                assert(bytes@ =~= chars_as_bytes(s@));
            }
        }
        let len = bytes.len();
        let mut digits: Vec<u32> = Vec::new();
        let mut end: usize = len;
        proof {
            assert(bytes@.skip(len as int) =~= Seq::<u8>::empty());
        }
        while end > 0
            invariant
                end <= len,
                len == bytes@.len(),
                end > 0 ==> len - end == 9 * digits@.len(),
                limbs_bounded(digits@),
                all_digit_bytes(bytes@) ==> val(digits@) == dec_val_bytes(
                    bytes@.skip(end as int),
                ),
            decreases end,
        {
            let chunk_size: usize = if end < 9 {
                end
            } else {
                9
            };
            let start = end - chunk_size;
            let chunk = slice_subrange(bytes, start, end);
            let limb = chunk_to_limb(chunk);
            proof {
                lemma_val_push(digits@, limb);
                if all_digit_bytes(bytes@) {
                    assert forall|t: int| 0 <= t < chunk@.len() implies is_digit_byte(
                        chunk@[t],
                    ) by {
                        assert(chunk@[t] == bytes@[t + start]);
                        assert(is_digit_byte(bytes@[t + start]));
                    }
                    let sp = bytes@.skip(start as int);
                    lemma_dec_val_bytes_split(sp, chunk_size as int);
                    assert(sp.take(chunk_size as int) =~= chunk@);
                    assert(sp.skip(chunk_size as int) =~= bytes@.skip(end as int));
                    lemma_pow10_base(digits@.len());
                    assert((sp.len() - chunk_size) as nat == 9 * digits@.len());
                }
            }
            digits.push(limb);
            end = start;
        }
        if digits.len() == 0 {
            digits.push(0);
            proof {
                assert(digits@ =~= seq![0u32]);
                lemma_val_singleton(0);
            }
        }
        normalize(&mut digits);
        proof {
            assert(bytes@.skip(0) =~= bytes@);
        }
        BigInt { digits }
    }

    /// Render the value as its canonical base-10 string: the
    /// most-significant limb unpadded, every lower limb zero-padded to nine
    /// digits.
    pub fn to_string(&self) -> (r: String)
        requires
            self.well_formed(),
        ensures
            vstd::utf8::is_ascii_chars(r@),
            chars_as_bytes(r@) == dec_bytes_of(self.value()),
    {
        let n = self.digits.len();
        if n == 1 && self.digits[0] == 0 {
            let mut bytes: Vec<u8> = Vec::new();
            bytes.push(48);
            proof {
                assert(self@ =~= seq![0u32]);
                lemma_val_singleton(0);
                assert(bytes@ =~= seq![48u8]);
                assert(dec_bytes_of(0) =~= seq![48u8]);
            }
            let r = string_from_ascii(bytes);
            proof {
                assert(chars_as_bytes(r@) =~= dec_bytes_of(self.value()));
            }
            return r;
        }
        let mut out = u32_dec_bytes(self.digits[n - 1]);
        proof {
            assert(self@.skip(n - 1) =~= seq![self@[n - 1]]);
            lemma_val_singleton(self@[n - 1]);
            assert(self@[n - 1] != 0);
        }
        let mut i: usize = n - 1;
        while i > 0
            invariant
                n == self@.len(),
                1 <= n,
                i < n,
                wf(self@),
                val(self@.skip(i as int)) >= 1,
                out@ == dec_bytes_of(val(self@.skip(i as int))),
            decreases i,
        {
            let d = self.digits[i - 1];
            let mut pad = u32_pad_bytes(d, 9);
            proof {
                lemma_val_skip_step(self@, i - 1);
                let v = val(self@.skip(i as int));
                assert(pow10(9) == BASE as nat) by {
                    reveal_with_fuel(pow10, 10);
                }
                assert((BASE as nat) * v == v * pow10(9)) by (nonlinear_arith)
                    requires
                        pow10(9) == BASE as nat,
                ;
                lemma_pow10_pos(9);
                lemma_dec_bytes_pad(v, d as nat, 9);
                assert(v * pow10(9) >= 1) by (nonlinear_arith)
                    requires
                        v >= 1,
                        pow10(9) >= 1,
                ;
            }
            out.append(&mut pad);
            i = i - 1;
        }
        proof {
            assert(self@.skip(0) =~= self@);
            lemma_dec_bytes_of_digits(val(self@));
            assert forall|t: int| 0 <= t < out@.len() implies out@[t] < 128 by {
                assert(is_digit_byte(out@[t]));
            }
        }
        let r = string_from_ascii(out);
        proof {
            assert(chars_as_bytes(r@) =~= dec_bytes_of(self.value()));
        }
        r
    }
}

/// Round trip: a string whose bytes are the canonical rendering of the
/// value of a canonical decimal string `s` is `s` itself. Together with the
/// contracts of `from_str` and `to_string` this says that rendering a
/// parsed canonical string gives the string back.
pub proof fn lemma_decimal_round_trip(s: Seq<char>, t: Seq<char>)
    requires
        canonical_dec(s),
        vstd::utf8::is_ascii_chars(t),
        chars_as_bytes(t) == dec_bytes_of(dec_val_chars(s)),
    ensures
        t == s,
{
    lemma_digit_chars_bytes(s);
    let sb = chars_as_bytes(s);
    if s.len() > 1 && sb[0] == 48 {
        assert(is_digit_char(s[0]));
        assert(48 <= s[0] as u32 <= 57);
        assert(s[0] as u8 == (s[0] as u32) as u8);
        assert(s[0] as u32 == 48);
        vstd::utf8::char_u32_cast(s[0], 48);
        assert('0' as u32 == 48);
        vstd::utf8::char_u32_cast('0', 48);
        assert(s[0] == '0');
        assert(false);
    }
    lemma_dec_bytes_round(sb);
    assert(chars_as_bytes(t) == sb);
    assert forall|i: int| 0 <= i < s.len() implies t[i] == s[i] by {
        assert(chars_as_bytes(t)[i] == chars_as_bytes(s)[i]);
        assert(t[i] as u8 == s[i] as u8);
        assert('\0' <= t[i] <= '\u{7f}');
        assert(is_digit_char(s[i]));
        assert(48 <= s[i] as u32 <= 57);
        assert((t[i] as u32) < 128 && (s[i] as u32) < 128);
        assert(t[i] as u32 == s[i] as u32);
        vstd::utf8::char_u32_cast(t[i], t[i] as u32);
        vstd::utf8::char_u32_cast(s[i], s[i] as u32);
    }
    assert(t =~= s);
}

} // verus!
