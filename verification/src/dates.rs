//! Calendar dates: flexible parsing of `Y-M-D` tokens, canonical
//! zero-padded rendering, and calendar order.

use vstd::prelude::*;

verus! {

/// A calendar value.  No validity checking is done beyond the parts being
/// decimal numbers: a day of 32 is stored as given.
#[derive(Clone, Copy, PartialEq, Eq, Structural, Debug)]
pub struct Date {
    pub year: u64,
    pub month: u64,
    pub day: u64,
}

/// Calendar order: year, then month, then day.
pub open spec fn date_lt(a: Date, b: Date) -> bool {
    a.year < b.year || (a.year == b.year && (a.month < b.month || (a.month == b.month
        && a.day < b.day)))
}

pub open spec fn date_le(a: Date, b: Date) -> bool {
    date_lt(a, b) || a == b
}

pub fn date_lt_exec(a: &Date, b: &Date) -> (r: bool)
    ensures
        r == date_lt(*a, *b),
{
    a.year < b.year || (a.year == b.year && (a.month < b.month || (a.month == b.month
        && a.day < b.day)))
}

pub fn date_le_exec(a: &Date, b: &Date) -> (r: bool)
    ensures
        r == date_le(*a, *b),
{
    date_lt_exec(a, b) || (a.year == b.year && a.month == b.month && a.day == b.day)
}

pub open spec fn is_digit(c: char) -> bool {
    48 <= c as u32 && c as u32 <= 57
}

pub open spec fn digit_val(c: char) -> int {
    c as u32 - 48
}

/// Reads decimal digits starting at `pos`, folding them into `acc`;
/// returns the accumulated value and the index of the first non-digit.
pub open spec fn scan_num(s: Seq<char>, pos: int, acc: int) -> (int, int)
    decreases s.len() - pos,
{
    if 0 <= pos < s.len() && is_digit(s[pos]) {
        scan_num(s, pos + 1, acc * 10 + digit_val(s[pos]))
    } else {
        (acc, pos)
    }
}

/// The accumulated value never shrinks while scanning.
pub proof fn lemma_scan_num_ge(s: Seq<char>, pos: int, acc: int)
    requires
        acc >= 0,
    ensures
        scan_num(s, pos, acc).0 >= acc,
    decreases s.len() - pos,
{
    if 0 <= pos < s.len() && is_digit(s[pos]) {
        lemma_scan_num_ge(s, pos + 1, acc * 10 + digit_val(s[pos]));
    }
}

/// A number token at `pos`: at least one digit, value within `u64`.
pub open spec fn spec_parse_num(s: Seq<char>, pos: int) -> Option<(int, int)> {
    if 0 <= pos < s.len() && is_digit(s[pos]) {
        let (v, e) = scan_num(s, pos, 0);
        if v <= u64::MAX {
            Some((v, e))
        } else {
            None
        }
    } else {
        None
    }
}

/// A date token is exactly three number tokens joined by `-`.
pub open spec fn spec_parse_date(s: Seq<char>) -> Option<Date> {
    match spec_parse_num(s, 0) {
        None => None,
        Some((y, p)) => if p < s.len() && s[p] == '-' {
            match spec_parse_num(s, p + 1) {
                None => None,
                Some((m, q)) => if q < s.len() && s[q] == '-' {
                    match spec_parse_num(s, q + 1) {
                        None => None,
                        Some((d, r)) => if r == s.len() {
                            Some(Date { year: y as u64, month: m as u64, day: d as u64 })
                        } else {
                            None
                        },
                    }
                } else {
                    None
                },
            }
        } else {
            None
        },
    }
}

pub fn is_digit_exec(c: char) -> (r: bool)
    ensures
        r == is_digit(c),
{
    let v = c as u32;
    48 <= v && v <= 57
}

/// Reads one decimal number starting at `pos`; rejects values that do not
/// fit in a `u64`.
pub fn parse_num(s: &Vec<char>, pos: usize) -> (r: Option<(u64, usize)>)
    requires
        pos <= s.len(),
    ensures
        match r {
            Some((v, e)) => spec_parse_num(s@, pos as int) == Some((v as int, e as int))
                && pos < e <= s.len(),
            None => spec_parse_num(s@, pos as int) is None,
        },
{
    if pos >= s.len() || !is_digit_exec(s[pos]) {
        return None;
    }
    let mut i: usize = pos;
    let mut acc: u64 = 0;
    while i < s.len() && is_digit_exec(s[i])
        invariant
            pos <= i <= s.len(),
            scan_num(s@, pos as int, 0) == scan_num(s@, i as int, acc as int),
        decreases s.len() - i,
    {
        let d = (s[i] as u32 - 48) as u64;
        if acc > (u64::MAX - d) / 10 {
            proof {
                assert(acc * 10 + d > u64::MAX) by (nonlinear_arith)
                    requires
                        acc > (u64::MAX - d) / 10,
                        d <= 9,
                ;
                lemma_scan_num_ge(s@, i + 1, acc * 10 + d);
            }
            return None;
        }
        acc = acc * 10 + d;
        i = i + 1;
    }
    Some((acc, i))
}

/// Parses a full `Y-M-D` token; the whole token must be consumed.
pub fn parse_date(s: &Vec<char>) -> (r: Option<Date>)
    ensures
        r == spec_parse_date(s@),
{
    match parse_num(s, 0) {
        None => None,
        Some((y, p)) => if p < s.len() && s[p] == '-' {
            match parse_num(s, p + 1) {
                None => None,
                Some((m, q)) => if q < s.len() && s[q] == '-' {
                    match parse_num(s, q + 1) {
                        None => None,
                        Some((d, r)) => if r == s.len() {
                            Some(Date { year: y, month: m, day: d })
                        } else {
                            None
                        },
                    }
                } else {
                    None
                },
            }
        } else {
            None
        },
    }
}

pub open spec fn digit_char(d: int) -> char {
    if d == 0 {
        '0'
    } else if d == 1 {
        '1'
    } else if d == 2 {
        '2'
    } else if d == 3 {
        '3'
    } else if d == 4 {
        '4'
    } else if d == 5 {
        '5'
    } else if d == 6 {
        '6'
    } else if d == 7 {
        '7'
    } else if d == 8 {
        '8'
    } else {
        '9'
    }
}

/// The decimal digits of `n`, most significant first, no sign and no
/// leading zero (a single `0` for zero itself).
pub open spec fn dec_digits(n: int) -> Seq<char>
    decreases n,
{
    if n < 10 {
        seq![digit_char(n)]
    } else {
        dec_digits(n / 10).push(digit_char(n % 10))
    }
}

pub open spec fn zeros(n: int) -> Seq<char>
    decreases n,
{
    if n <= 0 {
        Seq::empty()
    } else {
        zeros(n - 1).push('0')
    }
}

/// Left-pads with `0` up to width `w`; never truncates.
pub open spec fn pad_left(s: Seq<char>, w: int) -> Seq<char> {
    if s.len() >= w {
        s
    } else {
        zeros(w - s.len()) + s
    }
}

/// The canonical text of a date: year zero-padded to at least four
/// digits, month and day to two, joined by `-`.
pub open spec fn spec_render_date(d: Date) -> Seq<char> {
    pad_left(dec_digits(d.year as int), 4) + seq!['-'] + pad_left(dec_digits(d.month as int), 2)
        + seq!['-'] + pad_left(dec_digits(d.day as int), 2)
}

fn digit_char_exec(d: u64) -> (c: char)
    requires
        d < 10,
    ensures
        c == digit_char(d as int),
{
    if d == 0 {
        '0'
    } else if d == 1 {
        '1'
    } else if d == 2 {
        '2'
    } else if d == 3 {
        '3'
    } else if d == 4 {
        '4'
    } else if d == 5 {
        '5'
    } else if d == 6 {
        '6'
    } else if d == 7 {
        '7'
    } else if d == 8 {
        '8'
    } else {
        '9'
    }
}

/// Appends the decimal digits of `n`.
pub fn push_dec(out: &mut Vec<char>, n: u64)
    ensures
        final(out)@ == old(out)@ + dec_digits(n as int),
    decreases n,
{
    if n < 10 {
        out.push(digit_char_exec(n));
        proof {
            assert(out@ =~= old(out)@ + dec_digits(n as int));
        }
    } else {
        push_dec(out, n / 10);
        out.push(digit_char_exec(n % 10));
        proof {
            assert(out@ =~= old(out)@ + dec_digits(n as int));
        }
    }
}

/// Appends the decimal digits of `n`, left-padded with `0` to width `w`.
pub fn push_padded_dec(out: &mut Vec<char>, n: u64, w: usize)
    ensures
        final(out)@ == old(out)@ + pad_left(dec_digits(n as int), w as int),
    decreases n,
{
    let mut tmp: Vec<char> = Vec::new();
    push_dec(&mut tmp, n);
    proof {
        assert(tmp@ =~= dec_digits(n as int));
    }
    let ghost base = out@;
    let mut k: usize = tmp.len();
    while k < w
        invariant
            tmp.len() <= k,
            k <= w || k == tmp.len(),
            tmp@ == dec_digits(n as int),
            out@ == base + zeros(k - tmp.len()),
        decreases w - k,
    {
        out.push('0');
        k = k + 1;
    }
    let ghost mid = out@;
    let mut j: usize = 0;
    while j < tmp.len()
        invariant
            j <= tmp.len(),
            tmp@ == dec_digits(n as int),
            out@ == mid + tmp@.take(j as int),
        decreases tmp.len() - j,
    {
        out.push(tmp[j]);
        proof {
            assert(mid + tmp@.take(j as int) + seq![tmp@[j as int]] =~= mid + tmp@.take(
                j + 1,
            ));
        }
        j = j + 1;
    }
    proof {
        assert(tmp@.take(tmp@.len() as int) =~= tmp@);
        if tmp@.len() >= w {
            assert(zeros(0) =~= Seq::<char>::empty());
            assert(out@ =~= base + pad_left(dec_digits(n as int), w as int));
        } else {
            assert(out@ =~= base + pad_left(dec_digits(n as int), w as int));
        }
    }
}

pub open spec fn pow10(k: nat) -> int
    decreases k,
{
    if k == 0 {
        1
    } else {
        10 * pow10((k - 1) as nat)
    }
}

/// The number a digit string denotes, leading zeros allowed.
pub open spec fn digits_value(ds: Seq<char>) -> int
    decreases ds.len(),
{
    if ds.len() == 0 {
        0
    } else {
        digits_value(ds.drop_last()) * 10 + digit_val(ds.last())
    }
}

pub open spec fn all_digits(ds: Seq<char>) -> bool {
    forall|i: int| 0 <= i < ds.len() ==> is_digit(#[trigger] ds[i])
}

pub proof fn lemma_digit_char_val(d: int)
    requires
        0 <= d < 10,
    ensures
        is_digit(digit_char(d)),
        digit_val(digit_char(d)) == d,
{
}

pub proof fn lemma_dec_digits_all(n: int)
    requires
        n >= 0,
    ensures
        all_digits(dec_digits(n)),
        dec_digits(n).len() >= 1,
    decreases n,
{
    if n < 10 {
        lemma_digit_char_val(n);
    } else {
        lemma_dec_digits_all(n / 10);
        lemma_digit_char_val(n % 10);
        let ds = dec_digits(n);
        assert forall|i: int| 0 <= i < ds.len() implies is_digit(#[trigger] ds[i]) by {
            if i < ds.len() - 1 {
                assert(ds[i] == dec_digits(n / 10)[i]);
            }
        }
    }
}

/// A digit string denotes the number its digits spell.
pub proof fn lemma_dec_digits_value(n: int)
    requires
        n >= 0,
    ensures
        digits_value(dec_digits(n)) == n,
    decreases n,
{
    if n < 10 {
        lemma_digit_char_val(n);
        assert(dec_digits(n) == seq![digit_char(n)]);
        assert(dec_digits(n).len() == 1);
        assert(dec_digits(n).last() == digit_char(n));
        assert(dec_digits(n).drop_last() =~= Seq::<char>::empty());
        assert(digits_value(dec_digits(n).drop_last()) == 0);
    } else {
        lemma_dec_digits_value(n / 10);
        lemma_digit_char_val(n % 10);
        assert(dec_digits(n) == dec_digits(n / 10).push(digit_char(n % 10)));
        assert(dec_digits(n).drop_last() =~= dec_digits(n / 10));
        assert(dec_digits(n).last() == digit_char(n % 10));
        assert(n / 10 * 10 + n % 10 == n);
    }
}

pub proof fn lemma_zeros_all(k: int)
    ensures
        all_digits(zeros(k)),
        digits_value(zeros(k)) == 0,
        zeros(k).len() == if k >= 0 {
            k
        } else {
            0
        },
    decreases k,
{
    if k > 0 {
        lemma_zeros_all(k - 1);
        let ds = zeros(k);
        assert(ds.drop_last() =~= zeros(k - 1));
        assert forall|i: int| 0 <= i < ds.len() implies is_digit(#[trigger] ds[i]) by {
            if i < ds.len() - 1 {
                assert(ds[i] == zeros(k - 1)[i]);
            }
        }
    }
}

/// Leading zeros do not change the number a digit string denotes.
pub proof fn lemma_zeros_prefix_value(k: int, t: Seq<char>)
    requires
        k >= 0,
    ensures
        digits_value(zeros(k) + t) == digits_value(t),
    decreases t.len(),
{
    if t.len() == 0 {
        lemma_zeros_all(k);
        assert(zeros(k) + t =~= zeros(k));
    } else {
        lemma_zeros_prefix_value(k, t.drop_last());
        assert((zeros(k) + t).drop_last() =~= zeros(k) + t.drop_last());
        assert((zeros(k) + t).last() == t.last());
    }
}

/// A number below `10^k` spells with at most `k` digits.
pub proof fn lemma_dec_digits_len(n: int, k: nat)
    requires
        0 <= n < pow10(k),
        k >= 1,
    ensures
        dec_digits(n).len() <= k,
    decreases n,
{
    if n >= 10 {
        assert(pow10(k) == 10 * pow10((k - 1) as nat));
        lemma_dec_digits_len(n / 10, (k - 1) as nat);
    }
}

/// A digit string of length `k` denotes a number below `10^k`.
pub proof fn lemma_digits_value_bound(ds: Seq<char>)
    requires
        all_digits(ds),
    ensures
        0 <= digits_value(ds) < pow10(ds.len()),
    decreases ds.len(),
{
    if ds.len() > 0 {
        let sub = ds.drop_last();
        assert(forall|i: int| 0 <= i < sub.len() ==> sub[i] == ds[i]);
        lemma_digits_value_bound(sub);
        assert(is_digit(ds[ds.len() - 1]));
        assert(pow10(ds.len()) == 10 * pow10(sub.len()));
    }
}

/// Splitting the leading digit off a digit string.
pub proof fn lemma_digits_value_first(ds: Seq<char>)
    requires
        ds.len() >= 1,
    ensures
        digits_value(ds) == digit_val(ds[0]) * pow10((ds.len() - 1) as nat) + digits_value(
            ds.drop_first(),
        ),
    decreases ds.len(),
{
    if ds.len() == 1 {
        assert(ds.drop_last() =~= Seq::<char>::empty());
        assert(ds.drop_first() =~= Seq::<char>::empty());
        assert(ds.last() == ds[0]);
        assert(pow10((ds.len() - 1) as nat) == 1);
        assert(digits_value(ds.drop_first()) == 0);
        assert(digits_value(ds) == digit_val(ds[0]));
    } else {
        let dl = ds.drop_last();
        let df = ds.drop_first();
        lemma_digits_value_first(dl);
        assert(dl[0] == ds[0]);
        assert(dl.drop_first() =~= df.drop_last());
        assert(df.last() == ds.last());
        let p = pow10((ds.len() - 2) as nat);
        assert(pow10((ds.len() - 1) as nat) == 10 * p);
        assert(digits_value(ds) == digits_value(dl) * 10 + digit_val(ds.last()));
        assert(digits_value(df) == digits_value(df.drop_last()) * 10 + digit_val(df.last()));
        assert(digits_value(dl) == digit_val(ds[0]) * p + digits_value(df.drop_last()));
        assert((digit_val(ds[0]) * p + digits_value(df.drop_last())) * 10 == digit_val(ds[0]) * (
        10 * p) + digits_value(df.drop_last()) * 10) by (nonlinear_arith);
        assert(digits_value(ds) == digit_val(ds[0]) * (10 * p) + digits_value(df));
    }
}

/// For equal-length digit strings, numeric order is character order.
pub proof fn lemma_digits_value_order(a: Seq<char>, b: Seq<char>)
    requires
        all_digits(a),
        all_digits(b),
        a.len() == b.len(),
        digits_value(a) < digits_value(b),
    ensures
        exists|i: int|
            0 <= i < a.len() && (a[i] as u32) < (b[i] as u32) && forall|k: int|
                0 <= k < i ==> a[k] == b[k],
    decreases a.len(),
{
    assert(a.len() > 0);
    lemma_digits_value_first(a);
    lemma_digits_value_first(b);
    let adf = a.drop_first();
    let bdf = b.drop_first();
    assert(forall|i: int| 0 <= i < adf.len() ==> adf[i] == a[i + 1]);
    assert(forall|i: int| 0 <= i < bdf.len() ==> bdf[i] == b[i + 1]);
    assert(all_digits(adf));
    assert(all_digits(bdf));
    let p = pow10((a.len() - 1) as nat);
    lemma_digits_value_bound(adf);
    lemma_digits_value_bound(bdf);
    if digit_val(a[0]) == digit_val(b[0]) {
        assert(a[0] == b[0]) by {
            vstd::utf8::char_u32_cast(a[0], a[0] as u32);
            vstd::utf8::char_u32_cast(b[0], b[0] as u32);
        }
        assert(digits_value(adf) < digits_value(bdf));
        lemma_digits_value_order(adf, bdf);
        let i = choose|i: int|
            0 <= i < adf.len() && (adf[i] as u32) < (bdf[i] as u32) && forall|k: int|
                0 <= k < i ==> adf[k] == bdf[k];
        assert forall|k: int| 0 <= k < i + 1 implies a[k] == b[k] by {
            if k > 0 {
                assert(adf[k - 1] == bdf[k - 1]);
            }
        }
        assert((a[i + 1] as u32) < (b[i + 1] as u32));
    } else {
        assert(digit_val(a[0]) < digit_val(b[0])) by {
            if digit_val(a[0]) > digit_val(b[0]) {
                assert(digit_val(a[0]) * p >= (digit_val(b[0]) + 1) * p) by (nonlinear_arith)
                    requires
                        digit_val(a[0]) >= digit_val(b[0]) + 1,
                        p > 0,
                ;
                assert((digit_val(b[0]) + 1) * p == digit_val(b[0]) * p + p)
                    by (nonlinear_arith);
            }
        }
        assert((a[0] as u32) < (b[0] as u32));
        assert(forall|k: int| 0 <= k < 0 ==> a[k] == b[k]);
    }
}

/// Appends the canonical text of a date.
pub fn push_date(out: &mut Vec<char>, d: &Date)
    ensures
        final(out)@ == old(out)@ + spec_render_date(*d),
{
    push_padded_dec(out, d.year, 4);
    out.push('-');
    push_padded_dec(out, d.month, 2);
    out.push('-');
    push_padded_dec(out, d.day, 2);
    proof {
        assert(out@ =~= old(out)@ + spec_render_date(*d));
    }
}

} // verus!
