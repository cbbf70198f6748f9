//! Whether an image is wide enough to be moved, and what a run over a set of
//! files decides.
use vstd::prelude::*;

use crate::image::{
    decoded_size, format_of_name, read_dimensions, starts_jpeg, starts_png, Dimensions, ImageFormat,
};
use crate::threshold::{
    all_digits, digit_value, is_digit, lemma_pow10_add, lemma_pow10_monotone, mantissa_part, pow10, scale,
    Threshold,
};

verus! {

/// `width / height > c * 10^e` as rationals, for an image of nonzero height.
pub open spec fn wider_than_value(d: Dimensions, c: nat, e: int) -> bool {
    d.height > 0 && if e >= 0 {
        d.width > c * pow10(e as nat) * d.height
    } else {
        d.width * pow10((-e) as nat) > c * d.height
    }
}

/// The image's ratio is strictly greater than the threshold's value; an
/// image of zero height is never wider than a threshold.
pub open spec fn wider_than(d: Dimensions, t: Threshold) -> bool {
    wider_than_value(d, t.coefficient(), t.exponent as int)
}

/// The digits of `s` split at `i`: the value of the first `i` shifted past the
/// rest, and the rest below that shift.
pub proof fn lemma_split_value(s: Seq<u8>, i: int)
    requires
        all_digits(s),
        0 <= i <= s.len(),
    ensures
        digit_value(s) == digit_value(s.take(i)) * pow10((s.len() - i) as nat) + digit_value(
            s.skip(i),
        ),
        digit_value(s.skip(i)) < pow10((s.len() - i) as nat),
    decreases s.len(),
{
    if i == s.len() {
        assert(s.take(i) == s);
        assert(s.skip(i).len() == 0);
        assert(pow10(0) == 1);
        assert(digit_value(s) * 1 == digit_value(s));
    } else {
        let t = s.drop_last();
        assert(all_digits(t)) by {
            assert forall|j: int| 0 <= j < t.len() implies is_digit(#[trigger] t[j]) by {
                assert(t[j] == s[j]);
            }
        }
        lemma_split_value(t, i);
        assert(t.take(i) == s.take(i));
        assert(s.skip(i).drop_last() =~= t.skip(i));
        assert(s.skip(i).last() == s.last());
        assert(is_digit(s[s.len() - 1]));
        let k = (s.len() - i) as nat;
        assert(pow10(k) == 10 * pow10((k - 1) as nat));
        let a = digit_value(s.take(i));
        let r = digit_value(t.skip(i));
        let p = pow10((k - 1) as nat);
        let dg = (s.last() - 48) as nat;
        assert(((t.len() - i) as nat) == (k - 1) as nat);
        assert(digit_value(t) == a * p + r);
        assert(digit_value(s) == digit_value(t) * 10 + dg);
        assert(digit_value(s.skip(i)) == r * 10 + dg);
        assert((a * p + r) * 10 + dg == a * (10 * p) + (r * 10 + dg)) by (nonlinear_arith);
        assert(digit_value(s) == a * pow10(k) + digit_value(s.skip(i)));
        assert(r * 10 + dg < 10 * p) by (nonlinear_arith)
            requires r < p, dg <= 9;
    }
}

/// A threshold's value is beyond every image ratio when its scale is beyond
/// the range that `exceeds_threshold` reads digit by digit.
pub proof fn lemma_extreme_scales(d: Dimensions, c: nat, len: nat, e: int)
    requires
        1 <= c < pow10(len),
    ensures
        e >= 10 ==> !wider_than_value(d, c, e),
        e <= -(len + 10) ==> (wider_than_value(d, c, e) <==> (d.height > 0 && d.width > 0)),
{
    let w = d.width as int;
    let h = d.height as int;
    assert(pow10(10) == 10000000000) by {
        reveal_with_fuel(pow10, 11);
    }
    if e >= 10 && h > 0 {
        lemma_pow10_monotone(10, e as nat);
        let p = pow10(e as nat);
        assert(c * p * h >= 10000000000) by (nonlinear_arith)
            requires c >= 1, p >= 10000000000, h >= 1;
    }
    if e <= -(len + 10) && h > 0 {
        let f = (-e) as nat;
        lemma_pow10_add(len, 10);
        lemma_pow10_monotone(len + 10, f);
        let p = pow10(f);
        let q = pow10(len);
        if w > 0 {
            assert(w * p > c * h) by (nonlinear_arith)
                requires
                    w >= 1,
                    p >= q * 10000000000,
                    c < q,
                    h <= 0xffff_ffff,
            ;
        } else {
            assert(c * h >= 0) by (nonlinear_arith)
                requires h >= 0;
            assert(w * p == 0) by (nonlinear_arith)
                requires w == 0;
        }
    }
}

/// Whether the aspect ratio `d.width / d.height` is strictly greater than the
/// threshold. The comparison is exact: the image's ratio is set against the
/// threshold's digits one at a time, as in long division, so no rounding
/// enters it and no digit is dropped.
#[verifier::rlimit(60)]
pub fn exceeds_threshold(d: &Dimensions, t: &Threshold) -> (r: bool)
    requires
        t.wf(),
    ensures
        r == wider_than(*d, *t),
{
    let ghost s = t.digits@;
    let ghost c = t.coefficient();
    proof {
        lemma_split_value(s, 0);
        assert(s.take(0).len() == 0);
        assert(s.skip(0) == s);
        lemma_extreme_scales(*d, c, s.len(), t.exponent as int);
    }
    if d.height == 0 || d.width == 0 {
        proof {
            if d.height > 0 {
                let p = pow10((if t.exponent >= 0 { t.exponent as int } else { -t.exponent }) as nat);
                assert(c * p * d.height as int >= 0) by (nonlinear_arith);
                assert(c * d.height as int >= 0) by (nonlinear_arith);
            }
        }
        return false;
    }
    let len: usize = t.digits.len();
    let e: i128 = t.exponent;
    if e >= 10 {
        return false;
    }
    if e <= -(len as i128 + 10) {
        return true;
    }
    let w = d.width as i128;
    let h = d.height as i128;
    // The digits before the decimal point: each keeps `h * prefix <= w`.
    let whole: i128 = if e >= 0 { len as i128 } else { len as i128 + e };
    let stop: usize = if whole > 0 { whole as usize } else { 0 };
    let mut i: usize = 0;
    let mut acc: i128 = 0;
    while i < stop
        invariant
            stop as int == (if whole > 0 { whole as int } else { 0 }),
            i <= stop,
            0 <= w <= 0xffff_ffff,
            h <= 0xffff_ffff,
            len == s.len(),
            s == t.digits@,
            all_digits(s),
            0 <= i <= len,
            c == digit_value(s),
            c == t.coefficient(),
            e == t.exponent,
            -(len + 10) < e < 10,
            whole <= len,
            0 <= acc <= w,
            w == d.width,
            h == d.height,
            h >= 1,
            acc == h * digit_value(s.take(i as int)),
            whole == (if e >= 0 { len as int } else { len + e }),
        decreases whole - i,
    {
        assert(is_digit(s[i as int]));
        let dg = (t.digits[i] - 48) as i128;
        let ghost q = s.take(i + 1);
        assert(q.drop_last() =~= s.take(i as int));
        assert(q.last() == s[i as int]);
        assert(0 <= dg <= 9);
        assert(h * dg <= 0xffff_ffff * 9) by (nonlinear_arith)
            requires h <= 0xffff_ffff, 0 <= dg <= 9;
        assert(h * digit_value(q) == 10 * acc + h * dg) by (nonlinear_arith)
            requires
                digit_value(q) == digit_value(s.take(i as int)) * 10 + dg,
                acc == h * digit_value(s.take(i as int)),
        ;
        acc = 10 * acc + h * dg;
        if acc > w {
            proof {
                lemma_split_value(s, i + 1);
                let f = if e >= 0 { 0nat } else { (-e) as nat };
                lemma_pow10_monotone(f, (len - (i + 1)) as nat);
                let a = digit_value(s.take(i + 1));
                let k = pow10((len - (i + 1)) as nat);
                let pf = pow10(f);
                assert(h * c >= acc * k) by (nonlinear_arith)
                    requires
                        c == a * k + digit_value(s.skip(i + 1)),
                        acc == h * a,
                        h >= 1,
                ;
                assert(w * pf < acc * k) by (nonlinear_arith)
                    requires w < acc, pf <= k, pf >= 1, w >= 0;
                if e >= 0 {
                    lemma_pow10_monotone(0, e as nat);
                    let pe = pow10(e as nat);
                    assert(c * pe * h >= h * c) by (nonlinear_arith)
                        requires pe >= 1, h >= 1;
                    assert(pf == 1);
                    assert(w * 1 == w);
                } else {
                    assert(c * h == h * c) by (nonlinear_arith);
                }
            }
            return false;
        }
        i = i + 1;
    }
    if e >= 0 {
        // Whole number: compare with `h * digits * 10^e`.
        assert(i == len);
        assert(s.take(len as int) == s);
        assert(acc == h * c);
        assert(pow10(0) == 1);
        assert(h * c * 1 == h * c) by (nonlinear_arith);
        let mut j: i128 = 0;
        while j < e
            invariant
                0 <= j <= e < 10,
                0 <= acc <= w,
                w == d.width,
                h == d.height,
                h >= 1,
                w <= 0xffff_ffff,
                c == digit_value(t.digits@),
                c == t.coefficient(),
                e == t.exponent,
                acc == h * c * pow10(j as nat),
            decreases e - j,
        {
            assert(pow10((j + 1) as nat) == 10 * pow10(j as nat));
            assert(h * c * pow10((j + 1) as nat) == 10 * acc) by (nonlinear_arith)
                requires
                    pow10((j + 1) as nat) == 10 * pow10(j as nat),
                    acc == h * c * pow10(j as nat),
            ;
            acc = 10 * acc;
            j = j + 1;
            if acc > w {
                proof {
                    lemma_pow10_monotone(j as nat, e as nat);
                    let pj = pow10(j as nat);
                    let pe = pow10(e as nat);
                    assert(h * c * pe >= h * c * pj) by (nonlinear_arith)
                        requires pe >= pj, h >= 1;
                    assert(c * pe * h == h * c * pe) by (nonlinear_arith);
                }
                return false;
            }
        }
        assert(c * pow10(e as nat) * h == h * c * pow10(e as nat)) by (nonlinear_arith);
        return w > acc;
    }
    // Fraction digits: `rem == w * 10^(i - whole) - h * prefix`.
    let f: i128 = -e;
    let mut rem: i128 = if whole >= 0 {
        w - acc
    } else {
        scaled(w, (-whole) as u32)
    };
    proof {
        if whole >= 0 {
            assert(i == whole);
            assert(pow10(0) == 1);
            assert(w * 1 == w);
        } else {
            assert(i == 0);
            assert(s.take(0).len() == 0);
            assert(digit_value(s.take(0)) == 0);
            assert(h * 0 == 0);
        }
    }
    while i < len
        invariant
            len == s.len(),
            s == t.digits@,
            all_digits(s),
            0 <= i <= len,
            c == digit_value(s),
            c == t.coefficient(),
            e == t.exponent,
            e < 0,
            i >= whole,
            whole == len - f,
            f == -e,
            w == d.width,
            h == d.height,
            h >= 1,
            rem == w * pow10((i - whole) as nat) - h * digit_value(s.take(i as int)),
            -9 * h <= rem < 0x10_0000_0000_0000_0000_0000,
            h <= 0xffff_ffff,
        decreases len - i,
    {
        if rem >= h || rem < 0 {
            proof {
                lemma_split_value(s, i as int);
                lemma_pow10_add((i - whole) as nat, (len - i) as nat);
                let a = digit_value(s.take(i as int));
                let rest = digit_value(s.skip(i as int));
                let k = pow10((len - i) as nat);
                let pa = pow10((i - whole) as nat);
                let pf = pow10(f as nat);
                assert(((i - whole) as nat + (len - i) as nat) == f as nat);
                assert(w * pf - h * c == k * rem - h * rest) by (nonlinear_arith)
                    requires
                        pf == pa * k,
                        c == a * k + rest,
                        rem == w * pa - h * a,
                ;
                assert(c * h == h * c) by (nonlinear_arith);
                if rem >= h {
                    assert(k * rem - h * rest > 0) by (nonlinear_arith)
                        requires rem >= h, rest < k, h >= 1, rest >= 0;
                } else {
                    assert(k * rem - h * rest < 0) by (nonlinear_arith)
                        requires rem < 0, k >= 1, h >= 1, rest >= 0;
                    lemma_pow10_monotone(0, (len - i) as nat);
                }
            }
            return rem >= h;
        }
        assert(is_digit(s[i as int]));
        let dg = (t.digits[i] - 48) as i128;
        let ghost q = s.take(i + 1);
        assert(q.drop_last() =~= s.take(i as int));
        assert(q.last() == s[i as int]);
        assert(0 <= dg <= 9);
        assert(h * dg <= 0xffff_ffff * 9) by (nonlinear_arith)
            requires h <= 0xffff_ffff, 0 <= dg <= 9;
        assert(h * dg <= 9 * h && h * dg >= 0) by (nonlinear_arith)
            requires h >= 0, 0 <= dg <= 9;
        proof {
            let pa = pow10((i - whole) as nat);
            assert(pow10((i + 1 - whole) as nat) == 10 * pa);
            assert(10 * rem - h * dg == w * (10 * pa) - h * (digit_value(s.take(i as int)) * 10 + dg))
                by (nonlinear_arith)
                requires
                    rem == w * pa - h * digit_value(s.take(i as int)),
            ;
        }
        rem = 10 * rem - h * dg;
        i = i + 1;
    }
    assert(s.take(len as int) == s);
    assert((len - whole) == f);
    rem > 0
}

/// `w * 10^k`, for a `u32` value and `k` below ten.
fn scaled(w: i128, k: u32) -> (r: i128)
    requires
        0 <= w <= 0xffff_ffff,
        k < 10,
    ensures
        r == w * pow10(k as nat),
        r < 0x10_0000_0000_0000_0000_0000,
{
    let mut r: i128 = w;
    let mut j: u32 = 0;
    assert(pow10(0) == 1);
    assert(pow10(10) == 10000000000) by {
        reveal_with_fuel(pow10, 11);
    }
    while j < k
        invariant
            j <= k < 10,
            0 <= w <= 0xffff_ffff,
            r == w * pow10(j as nat),
            pow10(10) == 10000000000,
        decreases k - j,
    {
        proof {
            lemma_pow10_monotone((j + 1) as nat, 10);
        }
        assert(pow10((j + 1) as nat) == 10 * pow10(j as nat));
        assert(w * pow10((j + 1) as nat) <= 0xffff_ffff * 10000000000) by (nonlinear_arith)
            requires 0 <= w <= 0xffff_ffff, pow10((j + 1) as nat) <= 10000000000;
        assert(w * pow10((j + 1) as nat) == 10 * r) by (nonlinear_arith)
            requires r == w * pow10(j as nat), pow10((j + 1) as nat) == 10 * pow10(j as nat);
        r = 10 * r;
        j = j + 1;
    }
    proof {
        lemma_pow10_monotone(k as nat, 10);
    }
    assert(w * pow10(k as nat) <= 0xffff_ffff * 10000000000) by (nonlinear_arith)
        requires 0 <= w <= 0xffff_ffff, pow10(k as nat) <= 10000000000;
    r
}

/// The threshold read from a text decides about every image as the text's
/// own value does, also where an exponent beyond its cap was held at the cap.
pub proof fn lemma_written_threshold_decides_exactly(s: Seq<u8>, t: Threshold, d: Dimensions)
    requires
        t.wf(),
        t.written_by(s),
    ensures
        wider_than(d, t) == wider_than_value(d, digit_value(mantissa_part(s)), scale(s)),
{
    lemma_split_value(t.digits@, 0);
    assert(t.digits@.take(0).len() == 0);
    assert(t.digits@.skip(0) == t.digits@);
    lemma_extreme_scales(d, t.coefficient(), t.digits@.len(), t.exponent as int);
    lemma_extreme_scales(d, t.coefficient(), t.digits@.len(), scale(s));
}

/// What becomes of one image candidate.
#[derive(Clone, Copy, Debug, PartialEq, Eq, Structural)]
pub enum Verdict {
    /// Its header was read and it is wider than the threshold.
    Move(Dimensions),
    /// Its header was read and it is not wider than the threshold.
    Keep(Dimensions),
    /// Its header could not be read; the file stays where it is.
    Undecodable,
}

pub open spec fn verdict_of(format: ImageFormat, contents: Seq<u8>, t: Threshold) -> Verdict {
    match decoded_size(format, contents) {
        Some(d) => if wider_than(d, t) {
            Verdict::Move(d)
        } else {
            Verdict::Keep(d)
        },
        None => Verdict::Undecodable,
    }
}

/// Decides about an image candidate of the given format from its file's
/// contents: it is to be moved exactly when its header was read and its aspect
/// ratio is strictly greater than the threshold. A file too short to hold a
/// header is never moved.
pub fn classify(format: ImageFormat, contents: &[u8], threshold: &Threshold) -> (r: Verdict)
    requires
        threshold.wf(),
    ensures
        r == verdict_of(format, contents@, *threshold),
        r is Move <==> (decoded_size(format, contents@) matches Some(d) && wider_than(
            d,
            *threshold,
        )),
        r matches Verdict::Move(d) ==> decoded_size(format, contents@) == Some(d),
        r matches Verdict::Keep(d) ==> decoded_size(format, contents@) == Some(d),
        contents@.len() < 2 ==> r is Undecodable,
        format == ImageFormat::Jpeg && !starts_jpeg(contents@) ==> r is Undecodable,
        format == ImageFormat::Png && !starts_png(contents@) ==> r is Undecodable,
{
    match read_dimensions(format, contents) {
        Some(d) => if exceeds_threshold(&d, threshold) {
            Verdict::Move(d)
        } else {
            Verdict::Keep(d)
        },
        None => Verdict::Undecodable,
    }
}

/// A file found by a run, by its name and contents.
pub struct FileEntry {
    pub name: Seq<u8>,
    pub contents: Seq<u8>,
}

/// Whether a run with threshold `t` moves the file: it must be an image
/// candidate by name, and be judged wide enough.
pub open spec fn is_moved(e: FileEntry, t: Threshold) -> bool {
    match format_of_name(e.name) {
        Some(f) => verdict_of(f, e.contents, t) is Move,
        None => false,
    }
}

/// The files that a run moves out of the source tree.
pub open spec fn moved_by_run(entries: Seq<FileEntry>, t: Threshold) -> Seq<FileEntry> {
    entries.filter(|e: FileEntry| is_moved(e, t))
}

/// The files that a run leaves in the source tree.
pub open spec fn left_by_run(entries: Seq<FileEntry>, t: Threshold) -> Seq<FileEntry> {
    entries.filter(|e: FileEntry| !is_moved(e, t))
}

/// A file whose name is not an image candidate is never moved.
pub proof fn lemma_non_candidates_stay(e: FileEntry, t: Threshold)
    requires
        format_of_name(e.name) is None,
    ensures
        !is_moved(e, t),
{
}

/// Running again with the same threshold over what a run left behind moves
/// nothing more.
pub proof fn lemma_second_run_moves_nothing(entries: Seq<FileEntry>, t: Threshold)
    ensures
        moved_by_run(left_by_run(entries, t), t).len() == 0,
    decreases entries.len(),
{
    reveal(Seq::filter);
    if entries.len() > 0 {
        let rest = entries.drop_last();
        lemma_second_run_moves_nothing(rest, t);
        if is_moved(entries.last(), t) {
            assert(left_by_run(entries, t) == left_by_run(rest, t));
        } else {
            let left = left_by_run(entries, t);
            assert(left == left_by_run(rest, t).push(entries.last()));
            assert(left.drop_last() == left_by_run(rest, t));
        }
    }
}

/// Each file is decided on its own: adding one file to a run, a corrupt one
/// for instance, changes nothing about which of the other files are moved.
pub proof fn lemma_files_decided_independently(
    before: Seq<FileEntry>,
    e: FileEntry,
    after: Seq<FileEntry>,
    t: Threshold,
)
    ensures
        moved_by_run(before + seq![e] + after, t) == moved_by_run(before, t) + moved_by_run(
            seq![e],
            t,
        ) + moved_by_run(after, t),
        !is_moved(e, t) ==> moved_by_run(before + seq![e] + after, t) == moved_by_run(
            before + after,
            t,
        ),
{
    broadcast use Seq::filter_distributes_over_add;

    reveal(Seq::filter);
    let one = seq![e];
    assert(one.drop_last() =~= Seq::<FileEntry>::empty());
    assert(one.last() == e);
    assert(one.drop_last().filter(|x: FileEntry| is_moved(x, t)).len() == 0);
    if !is_moved(e, t) {
        assert(one.filter(|x: FileEntry| is_moved(x, t)) == one.drop_last().filter(
            |x: FileEntry| is_moved(x, t),
        ));
        assert(moved_by_run(seq![e], t) =~= Seq::<FileEntry>::empty());
        assert(moved_by_run(before, t) + Seq::<FileEntry>::empty() =~= moved_by_run(before, t));
    }
}

/// Every file is either moved or left, never both: the two parts of a run
/// together hold as many files as were found.
pub proof fn lemma_run_partitions(entries: Seq<FileEntry>, t: Threshold)
    ensures
        moved_by_run(entries, t).len() + left_by_run(entries, t).len() == entries.len(),
    decreases entries.len(),
{
    reveal(Seq::filter);
    if entries.len() > 0 {
        lemma_run_partitions(entries.drop_last(), t);
    }
}

} // verus!
