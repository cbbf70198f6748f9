//! The aspect-ratio threshold, held exactly as its decimal digits and a power of ten.
use vstd::prelude::*;

verus! {

/// The byte `.` that separates the whole and fractional digits.
pub const DOT: u8 = 46;

pub const PLUS: u8 = 43;

pub const MINUS: u8 = 45;

pub open spec fn is_digit(b: u8) -> bool {
    48 <= b <= 57
}

pub open spec fn pow10(n: nat) -> nat
    decreases n,
{
    if n == 0 {
        1
    } else {
        10 * pow10((n - 1) as nat)
    }
}

/// The number written by the digits of `s`, dots left out.
pub open spec fn digit_value(s: Seq<u8>) -> nat
    decreases s.len(),
{
    if s.len() == 0 {
        0
    } else if s.last() == DOT {
        digit_value(s.drop_last())
    } else {
        digit_value(s.drop_last()) * 10 + (s.last() - 48) as nat
    }
}

/// How many bytes of `s` are not dots.
pub open spec fn digit_count(s: Seq<u8>) -> nat
    decreases s.len(),
{
    if s.len() == 0 {
        0
    } else if s.last() == DOT {
        digit_count(s.drop_last())
    } else {
        digit_count(s.drop_last()) + 1
    }
}

pub open spec fn dot_count(s: Seq<u8>) -> nat
    decreases s.len(),
{
    if s.len() == 0 {
        0
    } else if s.last() == DOT {
        dot_count(s.drop_last()) + 1
    } else {
        dot_count(s.drop_last())
    }
}

/// How many bytes follow the first dot of `s` (none when `s` has no dot).
pub open spec fn fraction_len(s: Seq<u8>) -> nat
    decreases s.len(),
{
    if s.len() == 0 || s.last() == DOT || dot_count(s.drop_last()) == 0 {
        0
    } else {
        fraction_len(s.drop_last()) + 1
    }
}

pub open spec fn is_exponent_mark(b: u8) -> bool {
    b == 101 || b == 69
}

/// Index of the last `e` or `E` of `s`, or -1 when it has none.
pub open spec fn last_mark(s: Seq<u8>) -> int
    decreases s.len(),
{
    if s.len() == 0 {
        -1
    } else if is_exponent_mark(s.last()) {
        s.len() - 1
    } else {
        last_mark(s.drop_last())
    }
}

/// The text without a leading `+`.
pub open spec fn unsigned_part(s: Seq<u8>) -> Seq<u8> {
    if s.len() > 0 && s[0] == PLUS {
        s.skip(1)
    } else {
        s
    }
}

/// The digits and dot before the exponent.
pub open spec fn mantissa_part(s: Seq<u8>) -> Seq<u8> {
    let u = unsigned_part(s);
    if last_mark(u) < 0 {
        u
    } else {
        u.take(last_mark(u))
    }
}

/// What follows the exponent mark, if there is one.
pub open spec fn exponent_part(s: Seq<u8>) -> Seq<u8> {
    let u = unsigned_part(s);
    if last_mark(u) < 0 {
        Seq::empty()
    } else {
        u.skip(last_mark(u) + 1)
    }
}

pub open spec fn all_digits(s: Seq<u8>) -> bool {
    forall|i: int| 0 <= i < s.len() ==> is_digit(#[trigger] s[i])
}

/// An exponent: an optional sign, then at least one digit.
pub open spec fn is_exponent_text(x: Seq<u8>) -> bool {
    if x.len() > 0 && (x[0] == PLUS || x[0] == MINUS) {
        x.len() > 1 && all_digits(x.skip(1))
    } else {
        x.len() > 0 && all_digits(x)
    }
}

pub open spec fn exponent_value(x: Seq<u8>) -> int {
    if x.len() > 0 && x[0] == MINUS {
        -digit_value(x.skip(1))
    } else if x.len() > 0 && x[0] == PLUS {
        digit_value(x.skip(1)) as int
    } else {
        digit_value(x) as int
    }
}

/// A finite positive number in the decimal notation of floating-point
/// literals: an optional `+`, digits with at most one dot among them, then
/// optionally `e` or `E`, an optional sign and digits.
pub open spec fn is_ratio_text(s: Seq<u8>) -> bool {
    let m = mantissa_part(s);
    &&& forall|i: int| 0 <= i < m.len() ==> is_digit(#[trigger] m[i]) || m[i] == DOT
    &&& dot_count(m) <= 1
    &&& digit_count(m) >= 1
    &&& digit_value(m) > 0
    &&& (last_mark(unsigned_part(s)) >= 0 ==> is_exponent_text(exponent_part(s)))
}

/// The power of ten that the mantissa's digits are scaled by: the text's
/// value is `digit_value(mantissa_part(s)) * 10^scale(s)`.
pub open spec fn scale(s: Seq<u8>) -> int {
    let m = mantissa_part(s);
    let x = if last_mark(unsigned_part(s)) >= 0 {
        exponent_value(exponent_part(s))
    } else {
        0
    };
    x - fraction_len(m)
}

/// Exponents of larger magnitude put every value past the range of image
/// ratios.
pub const EXPONENT_CAP: i128 = 0x10_0000_0000_0000_0000_0000_0000;

/// A positive threshold `digits * 10^exponent`, where `digits` are the ASCII
/// decimal digits of a number.
#[derive(Debug, PartialEq, Eq)]
pub struct Threshold {
    pub digits: Vec<u8>,
    pub exponent: i128,
}

impl Threshold {
    pub open spec fn wf(&self) -> bool {
        &&& all_digits(self.digits@)
        &&& digit_value(self.digits@) > 0
    }

    /// The value of the threshold.
    pub open spec fn coefficient(&self) -> nat {
        digit_value(self.digits@)
    }

    /// Below this scale a value of these digits is under every ratio of two
    /// positive `u32` values.
    pub open spec fn low_scale(&self) -> int {
        -(self.digits@.len() + 10)
    }

    /// The threshold holds the digits of the text, and its scale, where that
    /// scale is at most ten powers of ten beyond the range of image ratios; an
    /// exponent beyond `EXPONENT_CAP` in magnitude is held at the cap.
    pub open spec fn written_by(&self, s: Seq<u8>) -> bool {
        &&& self.coefficient() == digit_value(mantissa_part(s))
        &&& self.digits@.len() == digit_count(mantissa_part(s))
        &&& {
            ||| self.exponent == scale(s)
            ||| self.exponent >= 10 && scale(s) >= 10
            ||| self.exponent <= self.low_scale() && scale(s) <= self.low_scale()
        }
    }

    /// Reads a positive number such as `1.5`, `+2`, `.75`, `3.`, `1e3` or
    /// `0.25E-1`, with any number of digits.
    #[verifier::rlimit(50)]
    pub fn from_decimal(text: &[u8]) -> (r: Option<Threshold>)
        ensures
            r is Some <==> is_ratio_text(text@),
            r matches Some(t) ==> t.wf() && t.written_by(text@),
    {
        let n: usize = text.len();
        let start: usize = if n > 0 && text[0] == PLUS { 1 } else { 0 };
        let ghost u = unsigned_part(text@);
        assert(u =~= text@.subrange(start as int, n as int));
        let mut k: usize = n;
        assert(text@.subrange(start as int, k as int) == u);
        while k > start && !(text[k - 1] == 101 || text[k - 1] == 69)
            invariant
                start <= k <= n,
                n == text@.len(),
                u == text@.subrange(start as int, n as int),
                last_mark(u) == last_mark(text@.subrange(start as int, k as int)),
            decreases k,
        {
            let ghost p = text@.subrange(start as int, k as int);
            assert(p.drop_last() =~= text@.subrange(start as int, k - 1));
            k = k - 1;
        }
        proof {
            let p = text@.subrange(start as int, k as int);
            if k == start {
                assert(p.len() == 0);
            } else {
                assert(p.last() == text@[k - 1]);
            }
        }
        let end: usize = if k == start { n } else { k - 1 };
        assert(mantissa_part(text@) =~= text@.subrange(start as int, end as int));
        let (digits, frac) = match parse_mantissa(text, start, end) {
            Some(b) => b,
            None => { return None; },
        };
        let x: i128 = if k == start {
            0
        } else {
            assert(exponent_part(text@) =~= text@.subrange(k as int, n as int));
            match parse_exponent(text, k, n) {
                Some(x) => x,
                None => { return None; },
            }
        };
        let exponent: i128 = x - frac as i128;
        proof {
            let xs = if k == start { 0 } else { exponent_value(exponent_part(text@)) };
            assert(scale(text@) == xs - frac);
            assert(n <= usize::MAX);
            lemma_capped_scale(frac as int, digits@.len() as int, n as int, x as int, xs, exponent as int);
        }
        Some(Threshold { digits, exponent })
    }
}

/// An exponent held at its cap puts the scale in the same range as the
/// exponent itself does.
proof fn lemma_capped_scale(frac: int, len: int, n: int, xv: int, xs: int, e: int)
    requires
        0 <= frac <= n,
        0 <= len <= n,
        n <= 0xffff_ffff_ffff_ffff,
        e == xv - frac,
        (xv == xs && -EXPONENT_CAP < xv < EXPONENT_CAP) || (xv == EXPONENT_CAP && xs
            >= EXPONENT_CAP) || (xv == -EXPONENT_CAP && xs <= -EXPONENT_CAP),
    ensures
        e == xs - frac || (e >= 10 && xs - frac >= 10) || (e <= -(len + 10) && xs - frac <= -(len + 10)),
{
}

/// Reads the digits and dot of `text[lo..hi]` into its digits, dot left out,
/// and the number of its fraction digits.
fn parse_mantissa(text: &[u8], lo: usize, hi: usize) -> (r: Option<(Vec<u8>, usize)>)
    requires
        lo <= hi <= text@.len(),
    ensures
        ({
            let m = text@.subrange(lo as int, hi as int);
            &&& r is Some <==> {
                &&& forall|i: int| 0 <= i < m.len() ==> is_digit(#[trigger] m[i]) || m[i] == DOT
                &&& dot_count(m) <= 1
                &&& digit_count(m) >= 1
                &&& digit_value(m) > 0
            }
            &&& r matches Some(v) ==> {
                &&& all_digits(v.0@)
                &&& digit_value(v.0@) == digit_value(m)
                &&& v.0@.len() == digit_count(m)
                &&& v.1 == fraction_len(m)
                &&& v.0@.len() <= hi && v.1 <= hi
            }
        }),
{
    let ghost m = text@.subrange(lo as int, hi as int);
    let mut digits: Vec<u8> = Vec::new();
    let mut f: usize = 0;
    let mut seen_dot = false;
    let mut i: usize = lo;
    while i < hi
        invariant
            lo <= i <= hi <= text@.len(),
            m == text@.subrange(lo as int, hi as int),
            forall|j: int| 0 <= j < text@.subrange(lo as int, i as int).len() ==> is_digit(#[trigger] text@.subrange(lo as int, i as int)[j]) || text@.subrange(lo as int, i as int)[j] == DOT,
            dot_count(text@.subrange(lo as int, i as int)) <= 1,
            seen_dot <==> dot_count(text@.subrange(lo as int, i as int)) == 1,
            all_digits(digits@),
            digit_value(digits@) == digit_value(text@.subrange(lo as int, i as int)),
            digits@.len() == digit_count(text@.subrange(lo as int, i as int)),
            f == fraction_len(text@.subrange(lo as int, i as int)),
            digits@.len() <= i - lo && f <= i - lo,
        decreases hi - i,
    {
        let b = text[i];
        let ghost p = text@.subrange(lo as int, i as int);
        let ghost q = text@.subrange(lo as int, i + 1);
        let ghost d0 = digits@;
        assert(q.drop_last() =~= p);
        assert(q.last() == b);
        assert(q =~= m.take(i + 1 - lo));
        if b == DOT {
            if seen_dot {
                proof {
                    lemma_prefix_counts(m, i + 1 - lo);
                }
                return None;
            }
            seen_dot = true;
            f = 0;
        } else if 48 <= b && b <= 57 {
            digits.push(b);
            assert(digits@.drop_last() == d0);
            assert(all_digits(digits@)) by {
                assert forall|j: int| 0 <= j < digits@.len() implies is_digit(#[trigger] digits@[j]) by {
                    if j < d0.len() {
                        assert(digits@[j] == d0[j]);
                    }
                }
            }
            if seen_dot {
                f = f + 1;
            }
        } else {
            assert(!(is_digit(m[i - lo]) || m[i - lo] == DOT));
            return None;
        }
        i = i + 1;
    }
    assert(text@.subrange(lo as int, i as int) == m);
    if digits.len() == 0 {
        return None;
    }
    if !has_nonzero(&digits) {
        return None;
    }
    Some((digits, f))
}

/// Whether some digit is not zero, that is, whether the digits' value is positive.
fn has_nonzero(digits: &Vec<u8>) -> (r: bool)
    requires
        all_digits(digits@),
    ensures
        r == (digit_value(digits@) > 0),
{
    let mut i: usize = 0;
    while i < digits.len()
        invariant
            0 <= i <= digits@.len(),
            all_digits(digits@),
            digit_value(digits@.take(i as int)) == 0,
        decreases digits@.len() - i,
    {
        let ghost q = digits@.take(i + 1);
        assert(q.drop_last() =~= digits@.take(i as int));
        assert(q.last() == digits@[i as int]);
        assert(is_digit(digits@[i as int]));
        if digits[i] != 48 {
            proof {
                lemma_prefix_value(digits@, i + 1);
            }
            return true;
        }
        i = i + 1;
    }
    assert(digits@.take(i as int) == digits@);
    false
}

/// Reading more digits never lowers the value.
proof fn lemma_prefix_value(s: Seq<u8>, k: int)
    requires
        0 <= k <= s.len(),
        all_digits(s),
    ensures
        digit_value(s.take(k)) <= digit_value(s),
    decreases s.len() - k,
{
    if k < s.len() {
        lemma_prefix_value(s, k + 1);
        let q = s.take(k + 1);
        assert(q.drop_last() =~= s.take(k));
        assert(is_digit(s[k]));
        assert(q.last() == s[k]);
    } else {
        assert(s.take(k) == s);
    }
}

/// Reads an exponent `text[lo..hi]`; a magnitude beyond `EXPONENT_CAP` is held
/// as that cap, with its sign.
fn parse_exponent(text: &[u8], lo: usize, hi: usize) -> (r: Option<i128>)
    requires
        lo <= hi <= text@.len(),
    ensures
        ({
            let x = text@.subrange(lo as int, hi as int);
            &&& r is Some <==> is_exponent_text(x)
            &&& r matches Some(v) ==> {
                ||| v == exponent_value(x) && -EXPONENT_CAP < v < EXPONENT_CAP
                ||| v == EXPONENT_CAP && exponent_value(x) >= EXPONENT_CAP
                ||| v == -EXPONENT_CAP && exponent_value(x) <= -EXPONENT_CAP
            }
        }),
{
    let ghost x = text@.subrange(lo as int, hi as int);
    let signed = lo < hi && (text[lo] == PLUS || text[lo] == MINUS);
    let negative = lo < hi && text[lo] == MINUS;
    let s: usize = if signed { lo + 1 } else { lo };
    assert(lo < hi ==> x[0] == text@[lo as int]);
    assert(signed ==> x.skip(1) =~= text@.subrange(s as int, hi as int));
    assert(!signed ==> x =~= text@.subrange(s as int, hi as int));
    if s == hi {
        assert(signed ==> x.len() == 1);
        assert(!signed ==> x.len() == 0);
        return None;
    }
    let mut v: u128 = 0;
    let mut i: usize = s;
    while i < hi
        invariant
            s <= i <= hi <= text@.len(),
            x == text@.subrange(lo as int, hi as int),
            signed ==> x.skip(1) == text@.subrange(s as int, hi as int),
            !signed ==> x == text@.subrange(s as int, hi as int),
            signed ==> x.len() > 1 && (x[0] == PLUS || x[0] == MINUS),
            !signed ==> !(x.len() > 0 && (x[0] == PLUS || x[0] == MINUS)),
            negative <==> (x.len() > 0 && x[0] == MINUS),
            ({
                let q = text@.subrange(s as int, i as int);
                &&& all_digits(q)
                &&& v == if digit_value(q) >= EXPONENT_CAP { EXPONENT_CAP as nat } else { digit_value(q) }
            }),
        decreases hi - i,
    {
        let b = text[i];
        let ghost q = text@.subrange(s as int, i as int);
        let ghost q2 = text@.subrange(s as int, i + 1);
        assert(q2.drop_last() =~= q);
        if !(48 <= b && b <= 57) {
            assert(!is_digit(text@.subrange(s as int, hi as int)[i - s]));
            proof {
                if signed {
                    assert(!all_digits(x.skip(1)));
                } else {
                    assert(!all_digits(x));
                }
            }
            return None;
        }
        if v < EXPONENT_CAP as u128 {
            v = v * 10 + (b - 48) as u128;
            if v > EXPONENT_CAP as u128 {
                v = EXPONENT_CAP as u128;
            }
        }
        assert(all_digits(q2)) by {
            assert forall|j: int| 0 <= j < q2.len() implies is_digit(#[trigger] q2[j]) by {
                if j < q.len() {
                    assert(q2[j] == q[j]);
                }
            }
        }
        i = i + 1;
    }
    assert(text@.subrange(s as int, hi as int) == text@.subrange(s as int, i as int));
    let w = v as i128;
    if negative {
        Some(-w)
    } else {
        Some(w)
    }
}

pub proof fn lemma_pow10_monotone(a: nat, b: nat)
    requires
        a <= b,
    ensures
        1 <= pow10(a) <= pow10(b),
    decreases b,
{
    if a < b {
        lemma_pow10_monotone(a, (b - 1) as nat);
    } else if b > 0 {
        lemma_pow10_monotone((b - 1) as nat, (b - 1) as nat);
    }
}

pub proof fn lemma_pow10_add(a: nat, b: nat)
    ensures
        pow10(a + b) == pow10(a) * pow10(b),
    decreases b,
{
    if b > 0 {
        let b1 = (b - 1) as nat;
        lemma_pow10_add(a, b1);
        assert(pow10(a + b) == 10 * pow10(a + b1));
        assert(pow10(b) == 10 * pow10(b1));
        let x = pow10(a + b);
        let y = pow10(a + b1);
        let pa = pow10(a);
        let q = pow10(b1);
        let pb = pow10(b);
        assert(x == pa * pb) by (nonlinear_arith)
            requires
                x == 10 * y,
                y == pa * q,
                pb == 10 * q,
        ;
    } else {
        assert(pow10(0) == 1);
        assert(a + b == a);
    }
}

/// A prefix of `s` has no more digits and no more dots than `s`.
proof fn lemma_prefix_counts(s: Seq<u8>, k: int)
    requires
        0 <= k <= s.len(),
    ensures
        digit_count(s.take(k)) <= digit_count(s),
        dot_count(s.take(k)) <= dot_count(s),
    decreases s.len() - k,
{
    if k < s.len() {
        lemma_prefix_counts(s, k + 1);
        assert(s.take(k + 1).drop_last() == s.take(k));
    } else {
        assert(s.take(k) == s);
    }
}

} // verus!
