//! The general properties of the library, stated and proved once over the
//! spec functions that the executable functions' contracts use.

use vstd::prelude::*;

use crate::dates::{Date, date_lt, spec_parse_date, spec_render_date, dec_digits, zeros, pad_left,
    pow10, digits_value, all_digits, digit_val, lemma_dec_digits_all, lemma_dec_digits_value,
    lemma_dec_digits_len, lemma_zeros_all, lemma_zeros_prefix_value, lemma_digits_value_bound,
    lemma_digits_value_first, lemma_digits_value_order};
use crate::filter::SExpr;
use crate::store::{SRec, rec_lt, matching, keeping, sort_recs, sorted_strict, pairs_distinct,
    has_pair, spec_add, lemma_matching_sub, lemma_sort_recs_elems, lemma_sort_recs_sorted,
    lemma_partition_len};
use crate::interp::{line_of, lines_of, found_line};
use crate::text::{lex_lt, lemma_lex_from_witness, lemma_lex_concat, lemma_lex_asymmetric};

verus! {

/// How many stored records carry a given (date, event) pair.
pub open spec fn count_pair(m: Seq<SRec>, d: Date, e: Seq<char>) -> int
    decreases m.len(),
{
    if m.len() == 0 {
        0
    } else if m.last().date == d && m.last().event == e {
        count_pair(m.drop_last(), d, e) + 1
    } else {
        count_pair(m.drop_last(), d, e)
    }
}

proof fn lemma_count_pair_push(m: Seq<SRec>, r: SRec, d: Date, e: Seq<char>)
    ensures
        count_pair(m.push(r), d, e) == count_pair(m, d, e) + if r.date == d && r.event == e {
            1int
        } else {
            0int
        },
{
    assert(m.push(r).drop_last() =~= m);
}

proof fn lemma_count_pair_none(m: Seq<SRec>, d: Date, e: Seq<char>)
    requires
        !has_pair(m, d, e),
    ensures
        count_pair(m, d, e) == 0,
    decreases m.len(),
{
    if m.len() > 0 {
        let sub = m.drop_last();
        assert(forall|i: int| 0 <= i < sub.len() ==> sub[i] == m[i]);
        assert(!has_pair(sub, d, e));
        lemma_count_pair_none(sub, d, e);
        assert(m[m.len() - 1] == m.last());
    }
}

/// In a store without duplicate pairs, a pair is present exactly when one
/// record carries it.
proof fn lemma_count_pair_distinct(m: Seq<SRec>, d: Date, e: Seq<char>)
    requires
        pairs_distinct(m),
    ensures
        count_pair(m, d, e) == if has_pair(m, d, e) {
            1int
        } else {
            0int
        },
    decreases m.len(),
{
    if m.len() == 0 {
    } else {
        let sub = m.drop_last();
        assert(forall|i: int| 0 <= i < sub.len() ==> sub[i] == m[i]);
        assert(pairs_distinct(sub));
        lemma_count_pair_distinct(sub, d, e);
        if m.last().date == d && m.last().event == e {
            assert(m[m.len() - 1] == m.last());
            assert(has_pair(m, d, e));
            if has_pair(sub, d, e) {
                let i = choose|i: int| 0 <= i < sub.len() && sub[i].date == d && sub[i].event
                    == e;
                assert(crate::store::same_pair(m[i], m[m.len() - 1]));
            }
        } else {
            assert(has_pair(m, d, e) == has_pair(sub, d, e)) by {
                if has_pair(m, d, e) {
                    let i = choose|i: int| 0 <= i < m.len() && m[i].date == d && m[i].event
                        == e;
                    assert(i < m.len() - 1);
                    assert(sub[i] == m[i]);
                }
            }
        }
    }
}

/// Adding the same (date, event) twice in a row stores it exactly once:
/// the second add is a no-op, and exactly one record carries the pair.
pub proof fn lemma_add_idempotent(m: Seq<SRec>, next: int, d: Date, e: Seq<char>)
    requires
        e.len() > 0,
        next < u64::MAX as int,
        pairs_distinct(m),
    ensures
        ({
            let (m1, n1) = spec_add(m, next, d, e);
            spec_add(m1, n1, d, e) == (m1, n1) && count_pair(m1, d, e) == 1
        }),
{
    let (m1, n1) = spec_add(m, next, d, e);
    if has_pair(m, d, e) {
        lemma_count_pair_distinct(m, d, e);
    } else {
        let r = SRec { date: d, event: e, seqno: next };
        assert(m1 == m.push(r));
        assert(m1[m.len() as int] == r);
        assert(has_pair(m1, d, e));
        lemma_count_pair_none(m, d, e);
        lemma_count_pair_push(m, r, d, e);
    }
}

/// Two spellings of one date dedup against each other, and both render as
/// the same canonical text: parsing yields a date value, not a spelling.
pub proof fn lemma_normalization(t1: Seq<char>, t2: Seq<char>, d: Date, e: Seq<char>, m: Seq<
    SRec,
>, next: int)
    requires
        spec_parse_date(t1) == Some(d),
        spec_parse_date(t2) == Some(d),
        e.len() > 0,
        next < u64::MAX as int,
        pairs_distinct(m),
    ensures
        ({
            let (m1, n1) = spec_add(m, next, d, e);
            spec_add(m1, n1, d, e) == (m1, n1) && count_pair(m1, d, e) == 1
                && spec_render_date(spec_parse_date(t1)->Some_0) == spec_render_date(
                spec_parse_date(t2)->Some_0,
            )
        }),
{
    lemma_add_idempotent(m, next, d, e);
}

/// What `Find` and `Print` emit is strictly increasing by (date, event):
/// for any two distinct records of the selection, one strictly precedes
/// the other, and the selection holds exactly the matching records.
pub proof fn lemma_output_sorted(m: Seq<SRec>, e: SExpr)
    requires
        pairs_distinct(m),
    ensures
        sorted_strict(sort_recs(matching(m, e))),
        sort_recs(matching(m, e)).len() == matching(m, e).len(),
        forall|y: SRec| sort_recs(matching(m, e)).contains(y) <==> matching(m, e).contains(y),
    decreases m.len(),
{
    lemma_matching_sub(m, e);
    lemma_sort_recs_sorted(matching(m, e));
    lemma_sort_recs_elems(matching(m, e));
}

/// The reported counts are the exact cardinality of the matching set:
/// `Removed n` plus what stays is the whole store, and `Found n` counts
/// exactly the lines printed before it.
pub proof fn lemma_count_accuracy(m: Seq<SRec>, e: SExpr)
    ensures
        matching(m, e).len() + keeping(m, e).len() == m.len(),
        lines_of(sort_recs(matching(m, e))).len() == matching(m, e).len(),
{
    lemma_partition_len(m, e);
    lemma_sort_recs_elems(matching(m, e));
}

/// `Print` on an empty store emits no line at all, while `Find` always
/// emits its trailing count line, so an empty result still shows one line.
pub proof fn lemma_empty_asymmetry(m: Seq<SRec>, e: SExpr)
    ensures
        m.len() == 0 ==> lines_of(sort_recs(m)).len() == 0,
        lines_of(sort_recs(matching(m, e))).push(
            found_line(matching(m, e).len() as int),
        ).len() == matching(m, e).len() + 1,
        m.len() == 0 ==> matching(m, e).len() == 0,
{
    lemma_sort_recs_elems(m);
    lemma_sort_recs_elems(matching(m, e));
}

/// Padding never changes the digits' value, whatever the width.
proof fn lemma_pad_value(n: int, w: int)
    requires
        n >= 0,
    ensures
        all_digits(pad_left(dec_digits(n), w)),
        digits_value(pad_left(dec_digits(n), w)) == n,
        pad_left(dec_digits(n), w).len() >= 1,
{
    lemma_dec_digits_all(n);
    lemma_dec_digits_value(n);
    let ds = dec_digits(n);
    if ds.len() >= w {
        assert(pad_left(ds, w) == ds);
    } else {
        let k = w - ds.len();
        lemma_zeros_all(k);
        lemma_zeros_prefix_value(k, ds);
        let f = zeros(k) + ds;
        assert forall|i: int| 0 <= i < f.len() implies crate::dates::is_digit(
            #[trigger] f[i],
        ) by {
            if i < k {
                assert(f[i] == zeros(k)[i]);
            } else {
                assert(f[i] == ds[i - k]);
            }
        }
    }
}

/// Scanning a run of digits bounded by a non-digit folds exactly the run's
/// value into the accumulator.
proof fn lemma_scan_over_digits(s: Seq<char>, pos: int, len_d: int, acc: int)
    requires
        0 <= pos,
        0 <= len_d,
        pos + len_d <= s.len(),
        forall|k: int| pos <= k < pos + len_d ==> crate::dates::is_digit(#[trigger] s[k]),
        pos + len_d == s.len() || !crate::dates::is_digit(s[pos + len_d]),
        acc >= 0,
    ensures
        crate::dates::scan_num(s, pos, acc) == (
            acc * pow10(len_d as nat) + digits_value(s.subrange(pos, pos + len_d)),
            pos + len_d,
        ),
    decreases len_d,
{
    if len_d == 0 {
        assert(s.subrange(pos, pos) =~= Seq::<char>::empty());
        assert(acc * 1 == acc);
    } else {
        assert(crate::dates::is_digit(s[pos]));
        let dv = digit_val(s[pos]);
        lemma_scan_over_digits(s, pos + 1, len_d - 1, acc * 10 + dv);
        let ds = s.subrange(pos, pos + len_d);
        assert(ds[0] == s[pos]);
        assert(ds.drop_first() =~= s.subrange(pos + 1, pos + len_d));
        lemma_digits_value_first(ds);
        let p = pow10((len_d - 1) as nat);
        assert(pow10(len_d as nat) == 10 * p);
        assert((acc * 10 + dv) * p == acc * (10 * p) + dv * p) by (nonlinear_arith);
    }
}

/// Rendering a date and parsing the text back yields the same date: the
/// canonical form is itself a valid spelling of the same value.
pub proof fn lemma_parse_render_roundtrip(d: Date)
    ensures
        spec_parse_date(spec_render_date(d)) == Some(d),
{
    let y = pad_left(dec_digits(d.year as int), 4);
    let mo = pad_left(dec_digits(d.month as int), 2);
    let dy = pad_left(dec_digits(d.day as int), 2);
    lemma_pad_value(d.year as int, 4);
    lemma_pad_value(d.month as int, 2);
    lemma_pad_value(d.day as int, 2);
    let s = spec_render_date(d);
    let l1 = y.len() as int;
    let l2 = mo.len() as int;
    let l3 = dy.len() as int;
    assert(s.len() == l1 + l2 + l3 + 2);
    assert forall|k: int| 0 <= k < l1 implies s[k] == y[k] by {}
    assert(s[l1] == '-');
    assert forall|k: int| 0 <= k < l2 implies s[l1 + 1 + k] == mo[k] by {}
    assert(s[l1 + 1 + l2] == '-');
    assert forall|k: int| 0 <= k < l3 implies s[l1 + l2 + 2 + k] == dy[k] by {}
    assert(s.subrange(0, l1) =~= y);
    assert(s.subrange(l1 + 1, l1 + 1 + l2) =~= mo);
    assert(s.subrange(l1 + l2 + 2, s.len() as int) =~= dy);
    assert(!crate::dates::is_digit('-'));
    lemma_scan_over_digits(s, 0, l1, 0);
    assert(crate::dates::scan_num(s, 0, 0) == (d.year as int, l1));
    assert(crate::dates::spec_parse_num(s, 0) == Some((d.year as int, l1)));
    lemma_scan_over_digits(s, l1 + 1, l2, 0);
    assert(crate::dates::scan_num(s, l1 + 1, 0) == (d.month as int, l1 + 1 + l2));
    assert(crate::dates::spec_parse_num(s, l1 + 1) == Some((d.month as int, l1 + 1 + l2)));
    lemma_scan_over_digits(s, l1 + l2 + 2, l3, 0);
    assert(crate::dates::scan_num(s, l1 + l2 + 2, 0) == (d.day as int, s.len() as int));
    assert(crate::dates::spec_parse_num(s, l1 + l2 + 2) == Some((
        d.day as int,
        s.len() as int,
    )));
}

/// A zero-padded field of width `w`: all digits, exact width, value kept.
proof fn lemma_padded_field(n: int, w: int)
    requires
        w >= 1,
        0 <= n < pow10(w as nat),
    ensures
        all_digits(pad_left(dec_digits(n), w)),
        pad_left(dec_digits(n), w).len() == w,
        digits_value(pad_left(dec_digits(n), w)) == n,
{
    lemma_dec_digits_all(n);
    lemma_dec_digits_len(n, w as nat);
    lemma_dec_digits_value(n);
    let ds = dec_digits(n);
    if ds.len() >= w {
        assert(pad_left(ds, w) == ds);
    } else {
        let k = w - ds.len();
        lemma_zeros_all(k);
        lemma_zeros_prefix_value(k, ds);
        let f = zeros(k) + ds;
        assert forall|i: int| 0 <= i < f.len() implies crate::dates::is_digit(
            #[trigger] f[i],
        ) by {
            if i < k {
                assert(f[i] == zeros(k)[i]);
            } else {
                assert(f[i] == ds[i - k]);
            }
        }
    }
}

/// Equal-length digit strings denoting equal numbers are equal texts.
proof fn lemma_digits_value_injective(a: Seq<char>, b: Seq<char>)
    requires
        all_digits(a),
        all_digits(b),
        a.len() == b.len(),
        digits_value(a) == digits_value(b),
    ensures
        a == b,
    decreases a.len(),
{
    if a.len() == 0 {
        assert(a =~= b);
    } else {
        lemma_digits_value_first(a);
        lemma_digits_value_first(b);
        let adf = a.drop_first();
        let bdf = b.drop_first();
        assert(forall|i: int| 0 <= i < adf.len() ==> #[trigger] adf[i] == a[i + 1]);
        assert(forall|i: int| 0 <= i < bdf.len() ==> #[trigger] bdf[i] == b[i + 1]);
        assert(all_digits(adf) && all_digits(bdf));
        lemma_digits_value_bound(adf);
        lemma_digits_value_bound(bdf);
        let p = pow10((a.len() - 1) as nat);
        assert(digit_val(a[0]) == digit_val(b[0])) by {
            if digit_val(a[0]) < digit_val(b[0]) {
                assert((digit_val(a[0]) + 1) * p == digit_val(a[0]) * p + p)
                    by (nonlinear_arith);
                assert(digit_val(b[0]) * p >= (digit_val(a[0]) + 1) * p) by (nonlinear_arith)
                    requires
                        digit_val(b[0]) >= digit_val(a[0]) + 1,
                        p > 0,
                ;
            }
            if digit_val(a[0]) > digit_val(b[0]) {
                assert((digit_val(b[0]) + 1) * p == digit_val(b[0]) * p + p)
                    by (nonlinear_arith);
                assert(digit_val(a[0]) * p >= (digit_val(b[0]) + 1) * p) by (nonlinear_arith)
                    requires
                        digit_val(a[0]) >= digit_val(b[0]) + 1,
                        p > 0,
                ;
            }
        }
        assert(a[0] == b[0]) by {
            vstd::utf8::char_u32_cast(a[0], a[0] as u32);
            vstd::utf8::char_u32_cast(b[0], b[0] as u32);
        }
        lemma_digits_value_injective(adf, bdf);
        assert forall|i: int| 0 <= i < a.len() implies a[i] == b[i] by {
            if i > 0 {
                assert(adf[i - 1] == bdf[i - 1]);
            }
        }
        assert(a =~= b);
    }
}

/// Equal-length digit strings order as the numbers they denote.
proof fn lemma_digit_text_order(a: Seq<char>, b: Seq<char>)
    requires
        all_digits(a),
        all_digits(b),
        a.len() == b.len(),
    ensures
        lex_lt(a, b) == (digits_value(a) < digits_value(b)),
        (a == b) == (digits_value(a) == digits_value(b)),
{
    if digits_value(a) < digits_value(b) {
        lemma_digits_value_order(a, b);
        let i = choose|i: int|
            0 <= i < a.len() && (a[i] as u32) < (b[i] as u32) && forall|k: int|
                0 <= k < i ==> a[k] == b[k];
        lemma_lex_from_witness(a, b, i);
    } else if digits_value(a) == digits_value(b) {
        lemma_digits_value_injective(a, b);
        if lex_lt(a, b) {
            lemma_lex_asymmetric(a, b);
        }
    } else {
        lemma_digits_value_order(b, a);
        let i = choose|i: int|
            0 <= i < b.len() && (b[i] as u32) < (a[i] as u32) && forall|k: int|
                0 <= k < i ==> b[k] == a[k];
        lemma_lex_from_witness(b, a, i);
        lemma_lex_asymmetric(b, a);
    }
}

proof fn lemma_lex_dash_step(t1: Seq<char>, t2: Seq<char>, c: char)
    ensures
        lex_lt(seq![c] + t1, seq![c] + t2) == lex_lt(t1, t2),
        (seq![c] + t1 == seq![c] + t2) == (t1 == t2),
{
    assert(!lex_lt(seq![c], seq![c])) by {
        let u = seq![c];
        assert(u.drop_first() =~= Seq::<char>::empty());
        assert(!lex_lt(Seq::<char>::empty(), Seq::<char>::empty()));
    }
    lemma_lex_concat(seq![c], t1, seq![c], t2);
    assert((seq![c] + t1 == seq![c] + t2) == (t1 == t2)) by {
        if seq![c] + t1 == seq![c] + t2 {
            assert(t1 =~= t2) by {
                assert(forall|k: int|
                    0 <= k < t1.len() ==> t1[k] == (seq![c] + t1)[k + 1] && (seq![c] + t2)[k + 1]
                        == t2[k]);
            }
        }
    }
}

/// The bounds under which a date's canonical text is exactly ten
/// characters wide: four-digit year, two-digit month and day.
pub open spec fn date_bounded(d: Date) -> bool {
    d.year < 10000 && d.month < 100 && d.day < 100
}

/// Calendar order of two dates is lexicographic order of their canonical
/// texts, and the text determines the date.
pub proof fn lemma_date_text_order(a: Date, b: Date)
    requires
        date_bounded(a),
        date_bounded(b),
    ensures
        lex_lt(spec_render_date(a), spec_render_date(b)) == date_lt(a, b),
        (spec_render_date(a) == spec_render_date(b)) == (a == b),
{
    assert(pow10(0) == 1);
    assert(pow10(1) == 10);
    assert(pow10(2) == 100);
    assert(pow10(3) == 1000);
    assert(pow10(4) == 10000);
    let ya = pad_left(dec_digits(a.year as int), 4);
    let yb = pad_left(dec_digits(b.year as int), 4);
    let ma = pad_left(dec_digits(a.month as int), 2);
    let mb = pad_left(dec_digits(b.month as int), 2);
    let da = pad_left(dec_digits(a.day as int), 2);
    let db = pad_left(dec_digits(b.day as int), 2);
    lemma_padded_field(a.year as int, 4);
    lemma_padded_field(b.year as int, 4);
    lemma_padded_field(a.month as int, 2);
    lemma_padded_field(b.month as int, 2);
    lemma_padded_field(a.day as int, 2);
    lemma_padded_field(b.day as int, 2);
    let ta = seq!['-'] + ma + seq!['-'] + da;
    let tb = seq!['-'] + mb + seq!['-'] + db;
    assert(spec_render_date(a) =~= ya + ta);
    assert(spec_render_date(b) =~= yb + tb);
    lemma_lex_concat(ya, ta, yb, tb);
    lemma_lex_concat(yb, tb, ya, ta);
    lemma_digit_text_order(ya, yb);
    lemma_digit_text_order(yb, ya);
    let ua = ma + seq!['-'] + da;
    let ub = mb + seq!['-'] + db;
    assert(ta =~= seq!['-'] + ua);
    assert(tb =~= seq!['-'] + ub);
    lemma_lex_dash_step(ua, ub, '-');
    lemma_lex_dash_step(ub, ua, '-');
    lemma_lex_concat(ma, seq!['-'] + da, mb, seq!['-'] + db);
    lemma_lex_concat(mb, seq!['-'] + db, ma, seq!['-'] + da);
    assert(ua =~= ma + (seq!['-'] + da));
    assert(ub =~= mb + (seq!['-'] + db));
    lemma_digit_text_order(ma, mb);
    lemma_digit_text_order(mb, ma);
    lemma_lex_dash_step(da, db, '-');
    lemma_lex_dash_step(db, da, '-');
    lemma_digit_text_order(da, db);
    lemma_digit_text_order(db, da);
    if spec_render_date(a) == spec_render_date(b) && a != b {
        if date_lt(a, b) {
            assert(lex_lt(spec_render_date(a), spec_render_date(b)));
            lemma_lex_asymmetric(spec_render_date(a), spec_render_date(a));
        } else {
            assert(date_lt(b, a));
            assert(lex_lt(spec_render_date(b), spec_render_date(a)));
            lemma_lex_asymmetric(spec_render_date(b), spec_render_date(b));
        }
    }
}

/// Display order of two records is lexicographic order of their output
/// lines, as long as the dates render at the fixed ten-character width.
pub proof fn lemma_line_text_order(x: SRec, y: SRec)
    requires
        date_bounded(x.date),
        date_bounded(y.date),
    ensures
        lex_lt(line_of(x), line_of(y)) == rec_lt(x, y),
{
    assert(pow10(0) == 1);
    assert(pow10(1) == 10);
    assert(pow10(2) == 100);
    assert(pow10(3) == 1000);
    assert(pow10(4) == 10000);
    let rx = spec_render_date(x.date);
    let ry = spec_render_date(y.date);
    lemma_padded_field(x.date.year as int, 4);
    lemma_padded_field(y.date.year as int, 4);
    lemma_padded_field(x.date.month as int, 2);
    lemma_padded_field(y.date.month as int, 2);
    lemma_padded_field(x.date.day as int, 2);
    lemma_padded_field(y.date.day as int, 2);
    assert(rx.len() == 10);
    assert(ry.len() == 10);
    assert(line_of(x) =~= rx + (seq![' '] + x.event));
    assert(line_of(y) =~= ry + (seq![' '] + y.event));
    lemma_lex_concat(rx, seq![' '] + x.event, ry, seq![' '] + y.event);
    lemma_date_text_order(x.date, y.date);
    lemma_lex_dash_step(x.event, y.event, ' ');
}

pub open spec fn dates_bounded(m: Seq<SRec>) -> bool {
    forall|i: int| 0 <= i < m.len() ==> date_bounded((#[trigger] m[i]).date)
}

/// The output of `Find` and `Print` is strictly increasing in plain text
/// order: display order by (date, event) is lexicographic order on the
/// canonical lines whenever every date renders at the fixed width.
pub proof fn lemma_output_lines_increasing(m: Seq<SRec>, e: SExpr)
    requires
        pairs_distinct(m),
        dates_bounded(m),
    ensures
        forall|i: int, j: int|
            0 <= i < j < sort_recs(matching(m, e)).len() ==> lex_lt(
                line_of(#[trigger] sort_recs(matching(m, e))[i]),
                line_of(#[trigger] sort_recs(matching(m, e))[j]),
            ),
{
    lemma_output_sorted(m, e);
    lemma_matching_sub(m, e);
    let s = sort_recs(matching(m, e));
    assert forall|i: int, j: int| 0 <= i < j < s.len() implies lex_lt(
        line_of(#[trigger] s[i]),
        line_of(#[trigger] s[j]),
    ) by {
        assert(rec_lt(s[i], s[j]));
        assert(date_bounded(s[i].date) && date_bounded(s[j].date)) by {
            assert(s.contains(s[i]) && s.contains(s[j]));
            assert(matching(m, e).contains(s[i]) && matching(m, e).contains(s[j]));
            let ii = choose|ii: int|
                0 <= ii < matching(m, e).len() && matching(m, e)[ii] == s[i];
            let jj = choose|jj: int|
                0 <= jj < matching(m, e).len() && matching(m, e)[jj] == s[j];
            assert(m.contains(matching(m, e)[ii]) && m.contains(matching(m, e)[jj]));
            let i2 = choose|i2: int| 0 <= i2 < m.len() && m[i2] == s[i];
            let j2 = choose|j2: int| 0 <= j2 < m.len() && m[j2] == s[j];
            assert(date_bounded(m[i2].date) && date_bounded(m[j2].date));
        }
        lemma_line_text_order(s[i], s[j]);
    }
}

/// The same, for `Print`, which shows the whole store.
pub proof fn lemma_print_lines_increasing(m: Seq<SRec>)
    requires
        pairs_distinct(m),
        dates_bounded(m),
    ensures
        forall|i: int, j: int|
            0 <= i < j < sort_recs(m).len() ==> lex_lt(
                line_of(#[trigger] sort_recs(m)[i]),
                line_of(#[trigger] sort_recs(m)[j]),
            ),
{
    crate::store::lemma_matching_always(m);
    lemma_output_lines_increasing(m, SExpr::Always);
}

} // verus!
