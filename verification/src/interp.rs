//! The command dispatcher: one logical line in, zero or more output lines
//! out.  `spec_step` is the definition of what one line does; `spec_run`
//! folds it over a line sequence.

use vstd::prelude::*;

use crate::dates::{spec_parse_date, parse_date, spec_render_date, push_date, dec_digits,
    push_dec};
use crate::filter::{spec_parse_filter, parse_filter, is_ws, ws_end, find_ws_end, copy_range};
use crate::store::{SRec, Record, Store, recs_view, matching, keeping, sort_recs, spec_latest,
    spec_add, lemma_sort_recs_elems};

verus! {

/// First index at or after `pos` that is whitespace, or the length: the
/// end of a whitespace-delimited token.
pub open spec fn token_end(s: Seq<char>, pos: int) -> int
    decreases s.len() - pos,
{
    if 0 <= pos < s.len() && !is_ws(s[pos]) {
        token_end(s, pos + 1)
    } else {
        pos
    }
}

pub fn find_token_end(s: &Vec<char>, pos: usize) -> (r: usize)
    requires
        pos <= s.len(),
    ensures
        r == token_end(s@, pos as int),
        pos <= r <= s.len(),
{
    let mut i: usize = pos;
    while i < s.len() && !crate::filter::is_ws_exec(s[i])
        invariant
            pos <= i <= s.len(),
            token_end(s@, pos as int) == token_end(s@, i as int),
        decreases s.len() - i,
    {
        i = i + 1;
    }
    i
}

pub open spec fn is_kw_add(s: Seq<char>) -> bool {
    s.len() == 3 && s[0] == 'A' && s[1] == 'd' && s[2] == 'd'
}

pub open spec fn is_kw_del(s: Seq<char>) -> bool {
    s.len() == 3 && s[0] == 'D' && s[1] == 'e' && s[2] == 'l'
}

pub open spec fn is_kw_find(s: Seq<char>) -> bool {
    s.len() == 4 && s[0] == 'F' && s[1] == 'i' && s[2] == 'n' && s[3] == 'd'
}

pub open spec fn is_kw_last(s: Seq<char>) -> bool {
    s.len() == 4 && s[0] == 'L' && s[1] == 'a' && s[2] == 's' && s[3] == 't'
}

pub open spec fn is_kw_print(s: Seq<char>) -> bool {
    s.len() == 5 && s[0] == 'P' && s[1] == 'r' && s[2] == 'i' && s[3] == 'n' && s[4] == 't'
}

/// One output line for one record: canonical date, one space, the event
/// text verbatim.
pub open spec fn line_of(r: SRec) -> Seq<char> {
    spec_render_date(r.date) + seq![' '] + r.event
}

pub open spec fn lines_of(s: Seq<SRec>) -> Seq<Seq<char>> {
    s.map_values(|r: SRec| line_of(r))
}

pub open spec fn removed_line(n: int) -> Seq<char> {
    "Removed "@ + dec_digits(n) + " entries"@
}

pub open spec fn found_line(n: int) -> Seq<char> {
    "Found "@ + dec_digits(n) + " entries"@
}

pub open spec fn no_entries_line() -> Seq<char> {
    "No entries"@
}

/// What one command line does to the store, and what it prints.
/// A blank line, an unknown keyword, a malformed date token and a
/// malformed clause are all discarded: no state change, no output.
pub open spec fn spec_step(m: Seq<SRec>, next: int, line: Seq<char>) -> (
    (Seq<SRec>, int),
    Seq<Seq<char>>,
) {
    let a = ws_end(line, 0);
    let b = token_end(line, a);
    let kw = line.subrange(a, b);
    if a == line.len() {
        ((m, next), Seq::empty())
    } else if is_kw_add(kw) {
        let a2 = ws_end(line, b);
        let t = token_end(line, a2);
        match spec_parse_date(line.subrange(a2, t)) {
            None => ((m, next), Seq::empty()),
            Some(d) => {
                let ev = line.subrange(ws_end(line, t), line.len() as int);
                (spec_add(m, next, d, ev), Seq::empty())
            },
        }
    } else if is_kw_del(kw) {
        match spec_parse_filter(line.subrange(b, line.len() as int)) {
            None => ((m, next), Seq::empty()),
            Some(e) => ((keeping(m, e), next), seq![removed_line(matching(m, e).len() as int)]),
        }
    } else if is_kw_find(kw) {
        match spec_parse_filter(line.subrange(b, line.len() as int)) {
            None => ((m, next), Seq::empty()),
            Some(e) => (
                (m, next),
                lines_of(sort_recs(matching(m, e))).push(
                    found_line(matching(m, e).len() as int),
                ),
            ),
        }
    } else if is_kw_last(kw) {
        let a2 = ws_end(line, b);
        let t = token_end(line, a2);
        if ws_end(line, t) != line.len() {
            ((m, next), Seq::empty())
        } else {
            match spec_parse_date(line.subrange(a2, t)) {
                None => ((m, next), Seq::empty()),
                Some(bound) => (
                    (m, next),
                    match spec_latest(m, bound) {
                        None => seq![no_entries_line()],
                        Some(r) => seq![line_of(r)],
                    },
                ),
            }
        }
    } else if is_kw_print(kw) {
        if ws_end(line, b) != line.len() {
            ((m, next), Seq::empty())
        } else {
            ((m, next), lines_of(sort_recs(m)))
        }
    } else {
        ((m, next), Seq::empty())
    }
}

pub open spec fn lines_view(v: Seq<Vec<char>>) -> Seq<Seq<char>> {
    v.map_values(|l: Vec<char>| l@)
}

/// Appends the characters of a string literal.
pub fn push_str(out: &mut Vec<char>, s: &str)
    ensures
        final(out)@ == old(out)@ + s@,
{
    let n = s.unicode_len();
    let mut i: usize = 0;
    while i < n
        invariant
            i <= n,
            n == s@.len(),
            out@ == old(out)@ + s@.take(i as int),
        decreases n - i,
    {
        out.push(s.get_char(i));
        proof {
            assert(old(out)@ + s@.take(i as int) + seq![s@[i as int]] =~= old(out)@ + s@.take(
                i + 1,
            ));
        }
        i = i + 1;
    }
    proof {
        assert(old(out)@ + s@.take(n as int) =~= old(out)@ + s@);
    }
}

/// Appends a copy of a character vector.
pub fn push_chars(out: &mut Vec<char>, s: &Vec<char>)
    ensures
        final(out)@ == old(out)@ + s@,
{
    let mut i: usize = 0;
    while i < s.len()
        invariant
            i <= s.len(),
            out@ == old(out)@ + s@.take(i as int),
        decreases s.len() - i,
    {
        out.push(s[i]);
        proof {
            assert(old(out)@ + s@.take(i as int) + seq![s@[i as int]] =~= old(out)@ + s@.take(
                i + 1,
            ));
        }
        i = i + 1;
    }
    proof {
        assert(old(out)@ + s@.take(s@.len() as int) =~= old(out)@ + s@);
    }
}

/// `Removed <n> entries` or `Found <n> entries`.
fn count_line(prefix: &str, n: usize, suffix: &str) -> (r: Vec<char>)
    ensures
        r@ == prefix@ + dec_digits(n as int) + suffix@,
{
    let mut lv: Vec<char> = Vec::new();
    push_str(&mut lv, prefix);
    push_dec(&mut lv, n as u64);
    push_str(&mut lv, suffix);
    lv
}

/// One output line for one record.
fn record_line(r: &Record) -> (lv: Vec<char>)
    ensures
        lv@ == line_of(r@),
{
    let mut lv: Vec<char> = Vec::new();
    push_date(&mut lv, &r.date);
    lv.push(' ');
    push_chars(&mut lv, &r.event);
    proof {
        assert(lv@ =~= line_of(r@));
    }
    lv
}

fn kw_eq(line: &Vec<char>, a: usize, b: usize, kw: &str) -> (r: bool)
    requires
        a <= b <= line.len(),
    ensures
        r == (line@.subrange(a as int, b as int) == kw@),
{
    let n = kw.unicode_len();
    if b - a != n {
        proof {
            assert(line@.subrange(a as int, b as int).len() != kw@.len());
        }
        return false;
    }
    let mut i: usize = 0;
    while i < n
        invariant
            i <= n,
            a <= b <= line.len(),
            n == kw@.len(),
            b - a == n,
            forall|k: int| 0 <= k < i ==> line@[a + k] == kw@[k],
        decreases n - i,
    {
        if line[a + i] != kw.get_char(i) {
            proof {
                assert(line@.subrange(a as int, b as int)[i as int] != kw@[i as int]);
            }
            return false;
        }
        i = i + 1;
    }
    proof {
        assert(line@.subrange(a as int, b as int) =~= kw@);
    }
    true
}

/// The interpreter: the store plus the line protocol around it.
pub struct Interp {
    pub store: Store,
}

impl Interp {
    pub open spec fn wf(self) -> bool {
        self.store.wf()
    }

    pub fn new() -> (r: Interp)
        ensures
            r.wf(),
            r.store.model() == Seq::<SRec>::empty(),
            r.store.next_seqno == 0,
    {
        Interp { store: Store::new() }
    }

    /// Executes one command line: exactly what [`spec_step`] says.
    pub fn run_line_chars(&mut self, line: &Vec<char>) -> (out: Vec<Vec<char>>)
        requires
            old(self).wf(),
        ensures
            final(self).wf(),
            ({
                let (st, outs) = spec_step(
                    old(self).store.model(),
                    old(self).store.next_seqno as int,
                    line@,
                );
                final(self).store.model() == st.0 && final(self).store.next_seqno as int == st.1
                    && lines_view(out@) == outs
            }),
    {
        let mut out: Vec<Vec<char>> = Vec::new();
        proof {
            assert(lines_view(out@) =~= Seq::<Seq<char>>::empty());
        }
        let a = find_ws_end(line, 0);
        if a == line.len() {
            return out;
        }
        let b = find_token_end(line, a);
        proof {
            reveal_strlit("Add");
            reveal_strlit("Del");
            reveal_strlit("Find");
            reveal_strlit("Last");
            reveal_strlit("Print");
            let kw = line@.subrange(a as int, b as int);
            assert(is_kw_add(kw) <==> kw == "Add"@) by {
                if is_kw_add(kw) {
                    assert(kw =~= "Add"@);
                }
            }
            assert(is_kw_del(kw) <==> kw == "Del"@) by {
                if is_kw_del(kw) {
                    assert(kw =~= "Del"@);
                }
            }
            assert(is_kw_find(kw) <==> kw == "Find"@) by {
                if is_kw_find(kw) {
                    assert(kw =~= "Find"@);
                }
            }
            assert(is_kw_last(kw) <==> kw == "Last"@) by {
                if is_kw_last(kw) {
                    assert(kw =~= "Last"@);
                }
            }
            assert(is_kw_print(kw) <==> kw == "Print"@) by {
                if is_kw_print(kw) {
                    assert(kw =~= "Print"@);
                }
            }
        }
        if kw_eq(line, a, b, "Add") {
            let a2 = find_ws_end(line, b);
            let t = find_token_end(line, a2);
            let tok = copy_range(line, a2, t);
            match parse_date(&tok) {
                None => {},
                Some(d) => {
                    let es = find_ws_end(line, t);
                    let ev = copy_range(line, es, line.len());
                    self.store.add(d, ev);
                },
            }
            out
        } else if kw_eq(line, a, b, "Del") {
            let rest = copy_range(line, b, line.len());
            match parse_filter(&rest) {
                None => {},
                Some(ex) => {
                    let n = self.store.remove_matching(&ex);
                    let lv = count_line("Removed ", n, " entries");
                    out.push(lv);
                    proof {
                        assert(lines_view(out@) =~= seq![removed_line(n as int)]);
                    }
                },
            }
            out
        } else if kw_eq(line, a, b, "Find") {
            let rest = copy_range(line, b, line.len());
            match parse_filter(&rest) {
                None => {},
                Some(ex) => {
                    let sel = self.store.select_matching(&ex);
                    let ghost sorted = sort_recs(matching(self.store.model(), ex@));
                    let mut i: usize = 0;
                    proof {
                        assert(lines_view(out@) =~= lines_of(sorted.take(0)));
                    }
                    while i < sel.len()
                        invariant
                            i <= sel.len(),
                            recs_view(sel@) == sorted,
                            lines_view(out@) == lines_of(sorted.take(i as int)),
                        decreases sel.len() - i,
                    {
                        let ghost out0 = out@;
                        let lv = record_line(&sel[i]);
                        out.push(lv);
                        proof {
                            assert(sel@[i as int]@ == sorted[i as int]);
                            assert(lines_view(out0).len() == out0.len());
                            assert(out0.len() == i as int);
                            assert forall|k: int| 0 <= k < i + 1 implies lines_view(out@)[k]
                                == lines_of(sorted.take(i + 1))[k] by {
                                if k < i {
                                    assert(lines_view(out@)[k] == out0[k]@);
                                    assert(lines_view(out0)[k] == lines_of(
                                        sorted.take(i as int),
                                    )[k]);
                                    assert(sorted.take(i as int)[k] == sorted[k]);
                                    assert(sorted.take(i + 1)[k] == sorted[k]);
                                } else {
                                    assert(lines_view(out@)[k] == lv@);
                                    assert(sorted.take(i + 1)[k] == sorted[k]);
                                }
                            }
                            assert(lines_view(out@) =~= lines_of(sorted.take(i + 1)));
                        }
                        i = i + 1;
                    }
                    proof {
                        assert(sorted.take(sorted.len() as int) =~= sorted);
                        lemma_sort_recs_elems(matching(self.store.model(), ex@));
                    }
                    let lv = count_line("Found ", sel.len(), " entries");
                    out.push(lv);
                    proof {
                        assert(lines_view(out@) =~= lines_of(sorted).push(
                            found_line(matching(self.store.model(), ex@).len() as int),
                        ));
                    }
                },
            }
            out
        } else if kw_eq(line, a, b, "Last") {
            let a2 = find_ws_end(line, b);
            let t = find_token_end(line, a2);
            if find_ws_end(line, t) != line.len() {
                return out;
            }
            let tok = copy_range(line, a2, t);
            match parse_date(&tok) {
                None => {},
                Some(bound) => {
                    match self.store.latest_before(&bound) {
                        None => {
                            let mut lv: Vec<char> = Vec::new();
                            push_str(&mut lv, "No entries");
                            out.push(lv);
                            proof {
                                assert(lv@ =~= no_entries_line());
                                assert(lines_view(out@) =~= seq![no_entries_line()]);
                            }
                        },
                        Some(rec) => {
                            let lv = record_line(&rec);
                            out.push(lv);
                            proof {
                                assert(lines_view(out@) =~= seq![line_of(rec@)]);
                            }
                        },
                    }
                },
            }
            out
        } else if kw_eq(line, a, b, "Print") {
            if find_ws_end(line, b) != line.len() {
                return out;
            }
            let sel = self.store.all_sorted();
            let ghost sorted = sort_recs(self.store.model());
            let mut i: usize = 0;
            proof {
                assert(lines_view(out@) =~= lines_of(sorted.take(0)));
            }
            while i < sel.len()
                invariant
                    i <= sel.len(),
                    recs_view(sel@) == sorted,
                    lines_view(out@) == lines_of(sorted.take(i as int)),
                decreases sel.len() - i,
            {
                let ghost out0 = out@;
                let lv = record_line(&sel[i]);
                out.push(lv);
                proof {
                    assert(sel@[i as int]@ == sorted[i as int]);
                    assert(lines_view(out0).len() == out0.len());
                    assert(out0.len() == i as int);
                    assert forall|k: int| 0 <= k < i + 1 implies lines_view(out@)[k] == lines_of(
                        sorted.take(i + 1),
                    )[k] by {
                        if k < i {
                            assert(lines_view(out@)[k] == out0[k]@);
                            assert(lines_view(out0)[k] == lines_of(sorted.take(i as int))[k]);
                            assert(sorted.take(i as int)[k] == sorted[k]);
                            assert(sorted.take(i + 1)[k] == sorted[k]);
                        } else {
                            assert(lines_view(out@)[k] == lv@);
                            assert(sorted.take(i + 1)[k] == sorted[k]);
                        }
                    }
                    assert(lines_view(out@) =~= lines_of(sorted.take(i + 1)));
                }
                i = i + 1;
            }
            proof {
                assert(sorted.take(sorted.len() as int) =~= sorted);
            }
            out
        } else {
            out
        }
    }
}

/// First index at or after `pos` holding a line break, or the length.
pub open spec fn nl_end(s: Seq<char>, pos: int) -> int
    decreases s.len() - pos,
{
    if 0 <= pos < s.len() {
        if s[pos] == '\n' {
            pos
        } else {
            nl_end(s, pos + 1)
        }
    } else {
        pos
    }
}

pub fn find_nl_end(s: &Vec<char>, pos: usize) -> (r: usize)
    requires
        pos <= s.len(),
    ensures
        r == nl_end(s@, pos as int),
        pos <= r <= s.len(),
{
    let mut i: usize = pos;
    while i < s.len() && s[i] != '\n'
        invariant
            pos <= i <= s.len(),
            nl_end(s@, pos as int) == nl_end(s@, i as int),
        decreases s.len() - i,
    {
        i = i + 1;
    }
    i
}

/// The logical lines from `pos` on, split at line breaks; the text after
/// the last break is a line too (so text without a trailing break still
/// ends in one line, and empty text is one empty line, which the
/// dispatcher skips as blank).
pub open spec fn split_from(s: Seq<char>, pos: int) -> Seq<Seq<char>>
    decreases s.len() - pos,
{
    let e = nl_end(s, pos);
    if 0 <= pos <= e < s.len() {
        seq![s.subrange(pos, e)] + split_from(s, e + 1)
    } else {
        seq![s.subrange(pos, s.len() as int)]
    }
}

/// Executable counterpart of [`split_from`].
pub fn split_lines_from(s: &Vec<char>, pos: usize) -> (r: Vec<Vec<char>>)
    requires
        pos <= s.len(),
    ensures
        lines_view(r@) == split_from(s@, pos as int),
    decreases s.len() - pos,
{
    let e = find_nl_end(s, pos);
    if e < s.len() {
        let mut rest = split_lines_from(s, e + 1);
        let ghost rest0 = rest@;
        rest.insert(0, copy_range(s, pos, e));
        proof {
            assert(lines_view(rest@) =~= seq![s@.subrange(pos as int, e as int)] + lines_view(
                rest0,
            ));
        }
        rest
    } else {
        let mut r: Vec<Vec<char>> = Vec::new();
        r.push(copy_range(s, pos, s.len()));
        proof {
            assert(lines_view(r@) =~= seq![s@.subrange(pos as int, s@.len() as int)]);
        }
        r
    }
}

/// Folds [`spec_step`] over a line sequence, concatenating the output.
pub open spec fn spec_run(m: Seq<SRec>, next: int, lines: Seq<Seq<char>>) -> (
    (Seq<SRec>, int),
    Seq<Seq<char>>,
)
    decreases lines.len(),
{
    if lines.len() == 0 {
        ((m, next), Seq::empty())
    } else {
        let (st1, o1) = spec_step(m, next, lines[0]);
        let (st2, o2) = spec_run(st1.0, st1.1, lines.drop_first());
        (st2, o1 + o2)
    }
}

/// What a whole input text does, and what it prints: split into lines,
/// run each in order, one output line per result unit, each ended by a
/// line break.
pub open spec fn spec_run_text(m: Seq<SRec>, next: int, input: Seq<char>) -> (
    (Seq<SRec>, int),
    Seq<char>,
) {
    let (st, outs) = spec_run(m, next, split_from(input, 0));
    (st, flatten_lines(outs))
}

pub open spec fn flatten_lines(ls: Seq<Seq<char>>) -> Seq<char>
    decreases ls.len(),
{
    if ls.len() == 0 {
        Seq::empty()
    } else {
        flatten_lines(ls.drop_last()) + ls.last() + seq!['\n']
    }
}

/// Builds a `String` back from characters.
/// Relies on std's `FromIterator` for `String`: collecting characters
/// yields exactly that character sequence.
#[verifier::external_body]
fn chars_to_string(v: &Vec<char>) -> (r: String)
    ensures
        r@ == v@,
{
    v.iter().collect()
}

/// The characters of a string slice.
pub fn str_to_chars(s: &str) -> (r: Vec<char>)
    ensures
        r@ == s@,
{
    let n = s.unicode_len();
    let mut r: Vec<char> = Vec::new();
    let mut i: usize = 0;
    while i < n
        invariant
            i <= n,
            n == s@.len(),
            r@ == s@.take(i as int),
        decreases n - i,
    {
        r.push(s.get_char(i));
        proof {
            assert(s@.take(i as int).push(s@[i as int]) =~= s@.take(i + 1));
        }
        i = i + 1;
    }
    proof {
        assert(s@.take(n as int) =~= s@);
    }
    r
}

impl Interp {
    /// Runs every line of the input text in order and returns the whole
    /// output text: exactly what [`spec_run_text`] says.
    pub fn run_text(&mut self, input: &str) -> (out: String)
        requires
            old(self).wf(),
        ensures
            final(self).wf(),
            ({
                let (st, otext) = spec_run_text(
                    old(self).store.model(),
                    old(self).store.next_seqno as int,
                    input@,
                );
                final(self).store.model() == st.0 && final(self).store.next_seqno as int == st.1
                    && out@ == otext
            }),
    {
        let chars = str_to_chars(input);
        let lines = split_lines_from(&chars, 0);
        let ghost lv = lines_view(lines@);
        let ghost m0 = self.store.model();
        let ghost n0 = self.store.next_seqno as int;
        let mut outs: Vec<Vec<char>> = Vec::new();
        proof {
            assert(lines_view(outs@) =~= Seq::<Seq<char>>::empty());
            assert(lv.skip(0) =~= lv);
        }
        let mut i: usize = 0;
        while i < lines.len()
            invariant
                i <= lines.len(),
                self.wf(),
                lines_view(lines@) == lv,
                spec_run(m0, n0, lv) == ({
                    let (st2, o2) = spec_run(
                        self.store.model(),
                        self.store.next_seqno as int,
                        lv.skip(i as int),
                    );
                    (st2, lines_view(outs@) + o2)
                }),
            decreases lines.len() - i,
        {
            let ghost outs0 = outs@;
            let ghost mcur = self.store.model();
            let ghost ncur = self.store.next_seqno as int;
            let o1 = self.run_line_chars(&lines[i]);
            let mut j: usize = 0;
            let ghost o1v = lines_view(o1@);
            proof {
                assert(lines_view(o1@).take(0) =~= Seq::<Seq<char>>::empty());
            }
            while j < o1.len()
                invariant
                    j <= o1.len(),
                    lines_view(o1@) == o1v,
                    lines_view(outs@) == lines_view(outs0) + o1v.take(j as int),
                decreases o1.len() - j,
            {
                let ghost outs1 = outs@;
                let line_j = copy_vec(&o1, j);
                outs.push(line_j);
                proof {
                    let len0 = outs0.len() as int;
                    assert(lines_view(outs0).len() == len0);
                    assert(lines_view(outs1).len() == outs1.len());
                    assert(o1v.len() == o1@.len());
                    assert(outs1.len() == len0 + j);
                    assert forall|k: int| 0 <= k < outs@.len() implies lines_view(outs@)[k] == (
                    lines_view(outs0) + o1v.take(j + 1))[k] by {
                        if k < outs1.len() {
                            assert(lines_view(outs@)[k] == outs1[k]@);
                            assert(lines_view(outs1)[k] == outs1[k]@);
                            if k >= len0 {
                                assert(o1v.take(j as int)[k - len0] == o1v[k - len0]);
                                assert(o1v.take(j + 1)[k - len0] == o1v[k - len0]);
                            }
                        } else {
                            assert(lines_view(outs@)[k] == o1@[j as int]@);
                            assert(o1v[j as int] == o1@[j as int]@);
                            assert(o1v.take(j + 1)[k - len0] == o1v[j as int]);
                        }
                    }
                    assert(lines_view(outs@) =~= lines_view(outs0) + o1v.take(j + 1));
                }
                j = j + 1;
            }
            proof {
                assert(o1v.take(o1v.len() as int) =~= o1v);
                assert(lv[i as int] == lines@[i as int]@);
                assert(lv.skip(i as int)[0] == lv[i as int]);
                assert(lv.skip(i as int).drop_first() =~= lv.skip(i + 1));
                let (st2a, o2a) = spec_run(mcur, ncur, lv.skip(i as int));
                let (st2b, o2b) = spec_run(
                    self.store.model(),
                    self.store.next_seqno as int,
                    lv.skip(i + 1),
                );
                assert(o2a =~= o1v + o2b);
                assert(lines_view(outs0) + (o1v + o2b) =~= (lines_view(outs0) + o1v) + o2b);
            }
            i = i + 1;
        }
        proof {
            assert(lv.skip(lines@.len() as int) =~= Seq::<Seq<char>>::empty());
        }
        let mut acc: Vec<char> = Vec::new();
        let ghost ov = lines_view(outs@);
        let mut j: usize = 0;
        proof {
            assert(acc@ =~= flatten_lines(ov.take(0)));
        }
        while j < outs.len()
            invariant
                j <= outs.len(),
                lines_view(outs@) == ov,
                acc@ == flatten_lines(ov.take(j as int)),
            decreases outs.len() - j,
        {
            push_chars(&mut acc, &outs[j]);
            acc.push('\n');
            proof {
                assert(ov.take(j + 1).drop_last() =~= ov.take(j as int));
                assert(ov.take(j + 1).last() == ov[j as int]);
                assert(outs@[j as int]@ == ov[j as int]);
            }
            j = j + 1;
        }
        proof {
            assert(ov.take(ov.len() as int) =~= ov);
        }
        chars_to_string(&acc)
    }
}

/// A copy of one entry of a vector of lines.
fn copy_vec(v: &Vec<Vec<char>>, i: usize) -> (r: Vec<char>)
    requires
        i < v.len(),
    ensures
        r@ == v@[i as int]@,
{
    let r = copy_range(&v[i], 0, v[i].len());
    proof {
        assert(r@ =~= v@[i as int]@);
    }
    r
}

} // verus!
