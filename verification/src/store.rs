//! The record store: an insertion-ordered collection of (date, event)
//! records, unique by that pair, each carrying a monotonically increasing
//! sequence number used only to break ties in `Last`.

use vstd::prelude::*;

use crate::dates::{Date, date_le, date_lt, date_le_exec, date_lt_exec};
use crate::text::{lex_lt, lex_lt_exec, chars_eq, lemma_lex_total, lemma_lex_transitive};
use crate::filter::{Expr, SExpr, sp_eval, eval, copy_range};

verus! {

/// One stored record.
pub struct Record {
    pub date: Date,
    pub event: Vec<char>,
    pub seqno: u64,
}

/// The mathematical shape of a record.
pub struct SRec {
    pub date: Date,
    pub event: Seq<char>,
    pub seqno: int,
}

impl View for Record {
    type V = SRec;

    open spec fn view(&self) -> SRec {
        SRec { date: self.date, event: self.event@, seqno: self.seqno as int }
    }
}

impl Record {
    /// An identical copy.
    pub fn duplicate(&self) -> (r: Record)
        ensures
            r@ == self@,
    {
        let ev = copy_range(&self.event, 0, self.event.len());
        proof {
            assert(ev@ =~= self.event@);
        }
        Record { date: self.date, event: ev, seqno: self.seqno }
    }
}

pub open spec fn recs_view(v: Seq<Record>) -> Seq<SRec> {
    v.map_values(|r: Record| r@)
}

/// Display order: by date, then by event text.
pub open spec fn rec_lt(a: SRec, b: SRec) -> bool {
    date_lt(a.date, b.date) || (a.date == b.date && lex_lt(a.event, b.event))
}

/// Two records with the same (date, event) pair, whatever their seqno.
pub open spec fn same_pair(a: SRec, b: SRec) -> bool {
    a.date == b.date && a.event == b.event
}

pub proof fn lemma_rec_lt_total(a: SRec, b: SRec)
    requires
        !rec_lt(a, b),
        !same_pair(a, b),
    ensures
        rec_lt(b, a),
{
    if a.date == b.date {
        lemma_lex_total(a.event, b.event);
    }
}

pub proof fn lemma_rec_lt_transitive(a: SRec, b: SRec, c: SRec)
    requires
        rec_lt(a, b),
        rec_lt(b, c),
    ensures
        rec_lt(a, c),
{
    if a.date == b.date && b.date == c.date {
        lemma_lex_transitive(a.event, b.event, c.event);
    }
}

/// The records a clause selects, in stored order.
pub open spec fn matching(m: Seq<SRec>, e: SExpr) -> Seq<SRec>
    decreases m.len(),
{
    if m.len() == 0 {
        Seq::empty()
    } else if sp_eval(e, m.last().date, m.last().event) {
        matching(m.drop_last(), e).push(m.last())
    } else {
        matching(m.drop_last(), e)
    }
}

/// The records a clause does not select, in stored order.
pub open spec fn keeping(m: Seq<SRec>, e: SExpr) -> Seq<SRec>
    decreases m.len(),
{
    if m.len() == 0 {
        Seq::empty()
    } else if !sp_eval(e, m.last().date, m.last().event) {
        keeping(m.drop_last(), e).push(m.last())
    } else {
        keeping(m.drop_last(), e)
    }
}

/// Every record either matches a clause or does not: the two selections
/// split the store, so the reported counts are exact cardinalities.
pub proof fn lemma_partition_len(m: Seq<SRec>, e: SExpr)
    ensures
        matching(m, e).len() + keeping(m, e).len() == m.len(),
    decreases m.len(),
{
    if m.len() > 0 {
        lemma_partition_len(m.drop_last(), e);
    }
}

pub open spec fn pairs_distinct(m: Seq<SRec>) -> bool {
    forall|i: int, j: int| 0 <= i < j < m.len() ==> !same_pair(m[i], m[j])
}

pub open spec fn seqnos_increasing(m: Seq<SRec>) -> bool {
    forall|i: int, j: int| 0 <= i < j < m.len() ==> m[i].seqno < m[j].seqno
}

pub open spec fn seqnos_below(m: Seq<SRec>, b: int) -> bool {
    forall|i: int| 0 <= i < m.len() ==> m[i].seqno < b
}

/// A subsequence selected by a clause keeps distinct pairs, increasing
/// sequence numbers, and membership in the original.
pub proof fn lemma_matching_sub(m: Seq<SRec>, e: SExpr)
    ensures
        forall|i: int| 0 <= i < matching(m, e).len() ==> m.contains(#[trigger] matching(m, e)[i]),
        pairs_distinct(m) ==> pairs_distinct(matching(m, e)),
        seqnos_increasing(m) ==> seqnos_increasing(matching(m, e)),
        forall|b: int| seqnos_below(m, b) ==> seqnos_below(matching(m, e), b),
    decreases m.len(),
{
    if m.len() > 0 {
        let sub = m.drop_last();
        lemma_matching_sub(sub, e);
        assert(forall|i: int| 0 <= i < sub.len() ==> sub[i] == m[i]);
        assert forall|i: int| 0 <= i < matching(m, e).len() implies m.contains(
            #[trigger] matching(m, e)[i],
        ) by {
            let mm = matching(m, e);
            if sp_eval(e, m.last().date, m.last().event) && i == mm.len() - 1 {
                assert(mm[i] == m[m.len() - 1]);
            } else {
                assert(mm[i] == matching(sub, e)[i]);
                assert(sub.contains(mm[i]));
                let j = choose|j: int| 0 <= j < sub.len() && sub[j] == mm[i];
                assert(m[j] == mm[i]);
            }
        }
        if pairs_distinct(m) {
            assert(pairs_distinct(sub));
            assert forall|i: int, j: int|
                0 <= i < j < matching(m, e).len() implies !same_pair(
                #[trigger] matching(m, e)[i],
                #[trigger] matching(m, e)[j],
            ) by {
                let mm = matching(m, e);
                if sp_eval(e, m.last().date, m.last().event) && j == mm.len() - 1 {
                    assert(mm[i] == matching(sub, e)[i]);
                    assert(sub.contains(mm[i]));
                    let k = choose|k: int| 0 <= k < sub.len() && sub[k] == mm[i];
                    assert(!same_pair(m[k], m[m.len() - 1]));
                } else {
                    assert(mm[i] == matching(sub, e)[i] && mm[j] == matching(sub, e)[j]);
                }
            }
        }
        if seqnos_increasing(m) {
            assert(seqnos_increasing(sub));
            assert forall|i: int, j: int|
                0 <= i < j < matching(m, e).len() implies (#[trigger] matching(m, e)[i]).seqno < (
            #[trigger] matching(m, e)[j]).seqno by {
                let mm = matching(m, e);
                if sp_eval(e, m.last().date, m.last().event) && j == mm.len() - 1 {
                    assert(mm[i] == matching(sub, e)[i]);
                    assert(sub.contains(mm[i]));
                    let k = choose|k: int| 0 <= k < sub.len() && sub[k] == mm[i];
                    assert(m[k].seqno < m[m.len() - 1].seqno);
                } else {
                    assert(mm[i] == matching(sub, e)[i] && mm[j] == matching(sub, e)[j]);
                }
            }
        }
        assert forall|b: int| seqnos_below(m, b) implies seqnos_below(matching(m, e), b) by {
            assert forall|i: int| 0 <= i < matching(m, e).len() implies (#[trigger] matching(
                m,
                e,
            )[i]).seqno < b by {
                let mm = matching(m, e);
                if sp_eval(e, m.last().date, m.last().event) && i == mm.len() - 1 {
                    assert(mm[i] == m[m.len() - 1]);
                } else {
                    assert(mm[i] == matching(sub, e)[i]);
                    assert(seqnos_below(sub, b));
                }
            }
        }
    }
}

/// Whether some stored record already has this (date, event) pair.
pub open spec fn has_pair(m: Seq<SRec>, d: Date, e: Seq<char>) -> bool {
    exists|i: int| 0 <= i < m.len() && m[i].date == d && m[i].event == e
}

/// What `add` does to the store contents and the counter: a no-op on an
/// empty event text, on a duplicate pair, or on an exhausted counter;
/// otherwise it appends a record stamped with the counter.
pub open spec fn spec_add(m: Seq<SRec>, next: int, d: Date, e: Seq<char>) -> (Seq<SRec>, int) {
    if e.len() == 0 || has_pair(m, d, e) || next >= u64::MAX as int {
        (m, next)
    } else {
        (m.push(SRec { date: d, event: e, seqno: next }), next + 1)
    }
}

/// The store itself: the records in insertion order, plus the counter for
/// the next sequence number.
pub struct Store {
    pub recs: Vec<Record>,
    pub next_seqno: u64,
}

impl Store {
    pub open spec fn model(self) -> Seq<SRec> {
        recs_view(self.recs@)
    }

    /// Uniqueness by (date, event); insertion order is seqno order; all
    /// seqnos lie below the counter.
    pub open spec fn wf(self) -> bool {
        &&& pairs_distinct(self.model())
        &&& seqnos_increasing(self.model())
        &&& seqnos_below(self.model(), self.next_seqno as int)
    }

    pub fn new() -> (r: Store)
        ensures
            r.wf(),
            r.model() == Seq::<SRec>::empty(),
            r.next_seqno == 0,
    {
        let s = Store { recs: Vec::new(), next_seqno: 0 };
        proof {
            assert(s.model() =~= Seq::<SRec>::empty());
        }
        s
    }

    /// Adds a record unless the event text is empty or the pair is
    /// already present; assigns the next sequence number.
    pub fn add(&mut self, d: Date, ev: Vec<char>)
        requires
            old(self).wf(),
        ensures
            final(self).wf(),
            (final(self).model(), final(self).next_seqno as int) == spec_add(
                old(self).model(),
                old(self).next_seqno as int,
                d,
                ev@,
            ),
    {
        if ev.len() == 0 {
            return;
        }
        if self.next_seqno == u64::MAX {
            // the counter is exhausted; further adds are ignored
            return;
        }
        let mut i: usize = 0;
        while i < self.recs.len()
            invariant
                i <= self.recs.len(),
                forall|k: int|
                    0 <= k < i ==> !((#[trigger] self.model()[k]).date == d
                        && self.model()[k].event == ev@),
                self.recs@ == old(self).recs@,
                self.next_seqno == old(self).next_seqno,
                old(self).wf(),
            decreases self.recs.len() - i,
        {
            let same_date = self.recs[i].date == d;
            if same_date && chars_eq(&self.recs[i].event, &ev) {
                proof {
                    assert(self.model()[i as int].date == d && self.model()[i as int].event
                        == ev@);
                    assert(has_pair(self.model(), d, ev@));
                }
                return;
            }
            i = i + 1;
        }
        proof {
            assert(!has_pair(self.model(), d, ev@));
        }
        let ghost m0 = self.model();
        let stamp = self.next_seqno;
        self.recs.push(Record { date: d, event: ev, seqno: stamp });
        self.next_seqno = stamp + 1;
        proof {
            assert(self.model() =~= m0.push(SRec { date: d, event: ev@, seqno: stamp as int }));
            let m1 = self.model();
            assert forall|i: int, j: int| 0 <= i < j < m1.len() implies !same_pair(
                m1[i],
                m1[j],
            ) by {
                if j == m1.len() - 1 {
                    assert(m1[i] == m0[i]);
                    if same_pair(m1[i], m1[j]) {
                        assert(has_pair(m0, d, ev@));
                    }
                }
            }
        }
    }

    /// Deletes every record the clause selects; returns how many went.
    pub fn remove_matching(&mut self, e: &Expr) -> (n: usize)
        requires
            old(self).wf(),
        ensures
            final(self).wf(),
            final(self).model() == keeping(old(self).model(), e@),
            final(self).next_seqno == old(self).next_seqno,
            n as int == matching(old(self).model(), e@).len(),
    {
        let ghost orig = self.model();
        let total = self.recs.len();
        let mut kept: Vec<Record> = Vec::new();
        let ghost k: int = 0;
        proof {
            assert(orig.take(0) =~= Seq::<SRec>::empty());
            assert(orig.skip(0) =~= orig);
            assert(recs_view(kept@) =~= Seq::<SRec>::empty());
        }
        let mut k_exec: usize = 0;
        while self.recs.len() > 0
            invariant
                0 <= k_exec as int <= orig.len(),
                total as int == orig.len(),
                orig.len() == k_exec as int + self.recs@.len(),
                recs_view(self.recs@) == orig.skip(k_exec as int),
                recs_view(kept@) == keeping(orig.take(k_exec as int), e@),
                self.next_seqno == old(self).next_seqno,
            decreases self.recs.len(),
        {
            let ghost kk = k_exec as int;
            let r = self.recs.remove(0);
            proof {
                assert(r@ == recs_view(self.recs@.insert(0, r))[0]);
                assert(orig.skip(kk)[0] == orig[kk]);
                assert(recs_view(self.recs@) =~= orig.skip(kk).drop_first());
                assert(orig.skip(kk).drop_first() =~= orig.skip(kk + 1));
                assert(orig.take(kk + 1).drop_last() =~= orig.take(kk));
                assert(orig.take(kk + 1).last() == orig[kk]);
            }
            let keep = !eval(e, &r.date, &r.event);
            if keep {
                let ghost kept0 = kept@;
                kept.push(r);
                proof {
                    assert(recs_view(kept@) =~= recs_view(kept0).push(orig[kk]));
                }
            }
            k_exec = k_exec + 1;
        }
        proof {
            assert(orig.take(orig.len() as int) =~= orig);
            assert(recs_view(self.recs@).len() == 0);
            lemma_partition_len(orig, e@);
            assert(recs_view(kept@).len() == kept@.len());
        }
        let n = total - kept.len();
        self.recs = kept;
        proof {
            lemma_keeping_wf(orig, e@, old(self).next_seqno as int);
        }
        n
    }
}

/// Where a record lands when inserted into an already sorted run: before
/// the first entry it sorts below.
pub open spec fn ins_sorted(x: SRec, s: Seq<SRec>) -> Seq<SRec>
    decreases s.len(),
{
    if s.len() == 0 {
        seq![x]
    } else if rec_lt(x, s[0]) {
        seq![x] + s
    } else {
        seq![s[0]] + ins_sorted(x, s.drop_first())
    }
}

/// Insertion sort by (date, event).
pub open spec fn sort_recs(s: Seq<SRec>) -> Seq<SRec>
    decreases s.len(),
{
    if s.len() == 0 {
        s
    } else {
        ins_sorted(s.last(), sort_recs(s.drop_last()))
    }
}

/// Strictly increasing by (date, event).
pub open spec fn sorted_strict(s: Seq<SRec>) -> bool {
    forall|i: int, j: int| 0 <= i < j < s.len() ==> rec_lt(s[i], s[j])
}

/// Inserting at the first position that sorts above `x` is exactly
/// [`ins_sorted`].
pub proof fn lemma_ins_sorted_at(x: SRec, s: Seq<SRec>, j: int)
    requires
        0 <= j <= s.len(),
        forall|k: int| 0 <= k < j ==> !rec_lt(x, #[trigger] s[k]),
        j < s.len() ==> rec_lt(x, s[j]),
    ensures
        ins_sorted(x, s) == s.take(j) + seq![x] + s.skip(j),
    decreases j,
{
    if j == 0 {
        if s.len() == 0 {
            assert(ins_sorted(x, s) =~= s.take(0) + seq![x] + s.skip(0));
        } else {
            assert(rec_lt(x, s[0]));
            assert(seq![x] + s =~= s.take(0) + seq![x] + s.skip(0));
        }
    } else {
        assert(!rec_lt(x, s[0]));
        let sd = s.drop_first();
        assert(forall|k: int| 0 <= k < j - 1 ==> #[trigger] sd[k] == s[k + 1]);
        lemma_ins_sorted_at(x, sd, j - 1);
        assert(seq![s[0]] + (sd.take(j - 1) + seq![x] + sd.skip(j - 1)) =~= s.take(j) + seq![x]
            + s.skip(j));
    }
}

/// The inserted run holds exactly the old entries and the new one.
pub proof fn lemma_ins_sorted_elems(x: SRec, s: Seq<SRec>)
    ensures
        ins_sorted(x, s).len() == s.len() + 1,
        forall|y: SRec| ins_sorted(x, s).contains(y) <==> (y == x || s.contains(y)),
        ins_sorted(x, s).contains(x),
    decreases s.len(),
{
    if s.len() == 0 {
        assert(ins_sorted(x, s)[0] == x);
    } else if rec_lt(x, s[0]) {
        assert(ins_sorted(x, s)[0] == x);
        assert forall|y: SRec| ins_sorted(x, s).contains(y) implies (y == x || s.contains(y)) by {
            let t = ins_sorted(x, s);
            let i = choose|i: int| 0 <= i < t.len() && t[i] == y;
            if i > 0 {
                assert(s[i - 1] == y);
            }
        }
        assert forall|y: SRec| (y == x || s.contains(y)) implies ins_sorted(x, s).contains(y) by {
            let t = ins_sorted(x, s);
            if y == x {
                assert(t[0] == y);
            } else {
                let i = choose|i: int| 0 <= i < s.len() && s[i] == y;
                assert(t[i + 1] == y);
            }
        }
    } else {
        let sd = s.drop_first();
        lemma_ins_sorted_elems(x, sd);
        let u = ins_sorted(x, sd);
        let t = ins_sorted(x, s);
        assert(t == seq![s[0]] + u);
        assert(u.contains(x));
        let kx = choose|kx: int| 0 <= kx < u.len() && u[kx] == x;
        assert(t[kx + 1] == x);
        assert(t.contains(x));
        assert forall|y: SRec| t.contains(y) implies (y == x || s.contains(y)) by {
            let i = choose|i: int| 0 <= i < t.len() && t[i] == y;
            if i == 0 {
                assert(s[0] == y);
            } else {
                assert(u[i - 1] == y);
                assert(u.contains(y));
                if y != x {
                    assert(sd.contains(y));
                    let k = choose|k: int| 0 <= k < sd.len() && sd[k] == y;
                    assert(sd[k] == s[k + 1]);
                    assert(s[k + 1] == y);
                }
            }
        }
        assert forall|y: SRec| (y == x || s.contains(y)) implies t.contains(y) by {
            if y == x {
            } else {
                let i = choose|i: int| 0 <= i < s.len() && s[i] == y;
                if i == 0 {
                    assert(t[0] == y);
                } else {
                    assert(sd[i - 1] == y);
                    assert(sd.contains(y));
                    assert(u.contains(y));
                    let k = choose|k: int| 0 <= k < u.len() && u[k] == y;
                    assert(t[k + 1] == y);
                }
            }
        }
    }
}

/// Inserting a record whose pair is fresh keeps the run strictly sorted.
pub proof fn lemma_ins_sorted_sorted(x: SRec, s: Seq<SRec>)
    requires
        sorted_strict(s),
        forall|k: int| 0 <= k < s.len() ==> !same_pair(x, #[trigger] s[k]),
    ensures
        sorted_strict(ins_sorted(x, s)),
    decreases s.len(),
{
    if s.len() == 0 {
    } else if rec_lt(x, s[0]) {
        let t = ins_sorted(x, s);
        assert forall|i: int, j: int| 0 <= i < j < t.len() implies rec_lt(t[i], t[j]) by {
            if i == 0 {
                assert(t[j] == s[j - 1]);
                if j > 1 {
                    lemma_rec_lt_transitive(x, s[0], s[j - 1]);
                }
            } else {
                assert(t[i] == s[i - 1] && t[j] == s[j - 1]);
            }
        }
    } else {
        let sd = s.drop_first();
        assert(forall|k: int| 0 <= k < sd.len() ==> #[trigger] sd[k] == s[k + 1]);
        lemma_rec_lt_total(x, s[0]);
        lemma_ins_sorted_sorted(x, sd);
        lemma_ins_sorted_elems(x, sd);
        let u = ins_sorted(x, sd);
        let t = ins_sorted(x, s);
        assert(t == seq![s[0]] + u);
        assert forall|i: int, j: int| 0 <= i < j < t.len() implies rec_lt(t[i], t[j]) by {
            if i == 0 {
                assert(t[j] == u[j - 1]);
                assert(u.contains(u[j - 1]));
                if u[j - 1] == x {
                    assert(rec_lt(s[0], x));
                } else {
                    assert(sd.contains(u[j - 1]));
                    let k = choose|k: int| 0 <= k < sd.len() && sd[k] == u[j - 1];
                    assert(sd[k] == s[k + 1]);
                    assert(rec_lt(s[0], s[k + 1]));
                }
            } else {
                assert(t[i] == u[i - 1] && t[j] == u[j - 1]);
            }
        }
    }
}

/// Sorting keeps the length and exactly the elements.
pub proof fn lemma_sort_recs_elems(s: Seq<SRec>)
    ensures
        sort_recs(s).len() == s.len(),
        forall|y: SRec| sort_recs(s).contains(y) <==> s.contains(y),
    decreases s.len(),
{
    if s.len() > 0 {
        let sub = s.drop_last();
        lemma_sort_recs_elems(sub);
        lemma_ins_sorted_elems(s.last(), sort_recs(sub));
        assert(s =~= sub.push(s.last()));
        assert forall|y: SRec| s.contains(y) implies sort_recs(s).contains(y) by {
            let i = choose|i: int| 0 <= i < s.len() && s[i] == y;
            if i < s.len() - 1 {
                assert(sub[i] == y);
                assert(sub.contains(y));
                assert(sort_recs(sub).contains(y));
                assert(ins_sorted(s.last(), sort_recs(sub)).contains(y));
            } else {
                assert(y == s.last());
                assert(ins_sorted(s.last(), sort_recs(sub)).contains(y));
            }
        }
        assert forall|y: SRec| sort_recs(s).contains(y) implies s.contains(y) by {
            if y != s.last() {
                assert(sub.contains(y));
                let i = choose|i: int| 0 <= i < sub.len() && sub[i] == y;
                assert(s[i] == y);
            } else {
                assert(s[s.len() - 1] == y);
            }
        }
    }
}

/// Sorting a store with distinct pairs gives a strictly increasing run:
/// of two distinct stored records, one sorts strictly first.
pub proof fn lemma_sort_recs_sorted(s: Seq<SRec>)
    requires
        pairs_distinct(s),
    ensures
        sorted_strict(sort_recs(s)),
    decreases s.len(),
{
    if s.len() > 0 {
        let sub = s.drop_last();
        assert(forall|i: int| 0 <= i < sub.len() ==> #[trigger] sub[i] == s[i]);
        assert(pairs_distinct(sub));
        lemma_sort_recs_sorted(sub);
        lemma_sort_recs_elems(sub);
        assert forall|k: int| 0 <= k < sort_recs(sub).len() implies !same_pair(
            s.last(),
            #[trigger] sort_recs(sub)[k],
        ) by {
            assert(sort_recs(sub).contains(sort_recs(sub)[k]));
            assert(sub.contains(sort_recs(sub)[k]));
            let i = choose|i: int| 0 <= i < sub.len() && sub[i] == sort_recs(sub)[k];
            assert(!same_pair(s[i], s[s.len() - 1]));
        }
        lemma_ins_sorted_sorted(s.last(), sort_recs(sub));
    }
}

/// The stored record with the greatest date at or before the bound; on a
/// date tie, the latest inserted (scanning in insertion order keeps the
/// later record on equal dates).
pub open spec fn spec_latest(m: Seq<SRec>, bound: Date) -> Option<SRec>
    decreases m.len(),
{
    if m.len() == 0 {
        None
    } else {
        let x = m.last();
        match spec_latest(m.drop_last(), bound) {
            None => if date_le(x.date, bound) {
                Some(x)
            } else {
                None
            },
            Some(q) => if date_le(x.date, bound) && date_le(q.date, x.date) {
                Some(x)
            } else {
                Some(q)
            },
        }
    }
}

/// `Last` returns the record with the maximum date at or before the bound,
/// tie-broken by the most recent insertion, and nothing exactly when no
/// stored date lies at or before the bound.
pub proof fn lemma_latest_correct(m: Seq<SRec>, bound: Date)
    requires
        seqnos_increasing(m),
    ensures
        match spec_latest(m, bound) {
            None => forall|i: int| 0 <= i < m.len() ==> !date_le(#[trigger] m[i].date, bound),
            Some(x) => {
                &&& m.contains(x)
                &&& date_le(x.date, bound)
                &&& forall|i: int|
                    0 <= i < m.len() && date_le(#[trigger] m[i].date, bound) ==> date_le(
                        m[i].date,
                        x.date,
                    )
                &&& forall|i: int|
                    0 <= i < m.len() && (#[trigger] m[i].date) == x.date ==> m[i].seqno <= x.seqno
            },
        },
    decreases m.len(),
{
    if m.len() > 0 {
        let sub = m.drop_last();
        assert(forall|i: int| 0 <= i < sub.len() ==> #[trigger] sub[i] == m[i]);
        assert(seqnos_increasing(sub));
        lemma_latest_correct(sub, bound);
        let x = m.last();
        match spec_latest(sub, bound) {
            None => {
                if !date_le(x.date, bound) {
                    assert forall|i: int| 0 <= i < m.len() implies !date_le(
                        #[trigger] m[i].date,
                        bound,
                    ) by {
                        if i < m.len() - 1 {
                            assert(sub[i] == m[i]);
                            assert(!date_le(sub[i].date, bound));
                        }
                    }
                }
                if date_le(x.date, bound) {
                    assert(m[m.len() - 1] == x);
                    assert(m.contains(x));
                    assert forall|i: int|
                        0 <= i < m.len() && date_le(#[trigger] m[i].date, bound) implies date_le(
                        m[i].date,
                        x.date,
                    ) by {
                        if i < m.len() - 1 {
                            assert(sub[i] == m[i]);
                            assert(!date_le(sub[i].date, bound));
                        }
                    }
                    assert forall|i: int|
                        0 <= i < m.len() && (#[trigger] m[i].date) == x.date implies m[i].seqno
                        <= x.seqno by {
                        if i < m.len() - 1 {
                            assert(m[i].seqno < m[m.len() - 1].seqno);
                        }
                    }
                }
            },
            Some(q) => {
                assert(sub.contains(q));
                let qi = choose|qi: int| 0 <= qi < sub.len() && sub[qi] == q;
                assert(m[qi] == q);
                assert(m.contains(q));
                if date_le(x.date, bound) && date_le(q.date, x.date) {
                    assert(m[m.len() - 1] == x);
                    assert(m.contains(x));
                    assert forall|i: int|
                        0 <= i < m.len() && date_le(#[trigger] m[i].date, bound) implies date_le(
                        m[i].date,
                        x.date,
                    ) by {
                        if i < m.len() - 1 {
                            assert(sub[i] == m[i]);
                            assert(date_le(sub[i].date, bound));
                            assert(date_le(sub[i].date, q.date));
                        }
                    }
                    assert forall|i: int|
                        0 <= i < m.len() && (#[trigger] m[i].date) == x.date implies m[i].seqno
                        <= x.seqno by {
                        if i < m.len() - 1 {
                            assert(m[i].seqno < m[m.len() - 1].seqno);
                        }
                    }
                } else {
                    assert forall|i: int|
                        0 <= i < m.len() && date_le(#[trigger] m[i].date, bound) implies date_le(
                        m[i].date,
                        q.date,
                    ) by {
                        if i < m.len() - 1 {
                            assert(sub[i] == m[i]);
                            assert(date_le(sub[i].date, bound));
                            assert(date_le(sub[i].date, q.date));
                        } else {
                            assert(date_lt(x.date, q.date) || date_lt(q.date, x.date) || q.date
                                == x.date);
                        }
                    }
                    assert forall|i: int|
                        0 <= i < m.len() && (#[trigger] m[i].date) == q.date implies m[i].seqno
                        <= q.seqno by {
                        if i < m.len() - 1 {
                            assert(sub[i] == m[i]);
                            assert(sub[i].date == q.date);
                            assert(sub[i].seqno <= q.seqno);
                        } else {
                            // the last record's date is not q's: either it is
                            // past the bound, or strictly below q's date
                            if m[i].date == q.date {
                                assert(date_le(x.date, bound));
                                assert(date_le(q.date, x.date));
                            }
                        }
                    }

                }
            },
        }
    }
}

/// What a clause keeps is well-formed whenever the store was.
pub proof fn lemma_keeping_wf(m: Seq<SRec>, e: SExpr, b: int)
    requires
        pairs_distinct(m),
        seqnos_increasing(m),
        seqnos_below(m, b),
    ensures
        pairs_distinct(keeping(m, e)),
        seqnos_increasing(keeping(m, e)),
        seqnos_below(keeping(m, e), b),
    decreases m.len(),
{
    if m.len() > 0 {
        let sub = m.drop_last();
        assert(forall|i: int| 0 <= i < sub.len() ==> sub[i] == m[i]);
        assert(pairs_distinct(sub) && seqnos_increasing(sub) && seqnos_below(sub, b));
        lemma_keeping_wf(sub, e, b);
        lemma_keeping_sub(sub, e);
        if !sp_eval(e, m.last().date, m.last().event) {
            let kk = keeping(m, e);
            assert(kk == keeping(sub, e).push(m.last()));
            assert forall|i: int, j: int| 0 <= i < j < kk.len() implies !same_pair(kk[i], kk[j])
                && kk[i].seqno < kk[j].seqno by {
                if j == kk.len() - 1 {
                    assert(kk[i] == keeping(sub, e)[i]);
                    assert(sub.contains(kk[i]));
                    let t = choose|t: int| 0 <= t < sub.len() && sub[t] == kk[i];
                    assert(!same_pair(m[t], m[m.len() - 1]));
                    assert(m[t].seqno < m[m.len() - 1].seqno);
                } else {
                    assert(kk[i] == keeping(sub, e)[i] && kk[j] == keeping(sub, e)[j]);
                }
            }
            assert forall|i: int| 0 <= i < kk.len() implies (#[trigger] kk[i]).seqno < b by {
                if i == kk.len() - 1 {
                    assert(kk[i] == m[m.len() - 1]);
                } else {
                    assert(kk[i] == keeping(sub, e)[i]);
                    assert(seqnos_below(keeping(sub, e), b));
                }
            }
        }
    }
}

/// Like [`lemma_matching_sub`], for what a clause keeps.
pub proof fn lemma_keeping_sub(m: Seq<SRec>, e: SExpr)
    ensures
        forall|i: int| 0 <= i < keeping(m, e).len() ==> m.contains(#[trigger] keeping(m, e)[i]),
    decreases m.len(),
{
    if m.len() > 0 {
        let sub = m.drop_last();
        lemma_keeping_sub(sub, e);
        assert(forall|i: int| 0 <= i < sub.len() ==> sub[i] == m[i]);
        assert forall|i: int| 0 <= i < keeping(m, e).len() implies m.contains(
            #[trigger] keeping(m, e)[i],
        ) by {
            let kk = keeping(m, e);
            if !sp_eval(e, m.last().date, m.last().event) && i == kk.len() - 1 {
                assert(kk[i] == m[m.len() - 1]);
            } else {
                assert(kk[i] == keeping(sub, e)[i]);
                assert(sub.contains(kk[i]));
                let j = choose|j: int| 0 <= j < sub.len() && sub[j] == kk[i];
                assert(m[j] == kk[i]);
            }
        }
    }
}

/// The empty clause selects every record.
pub proof fn lemma_matching_always(m: Seq<SRec>)
    ensures
        matching(m, SExpr::Always) == m,
    decreases m.len(),
{
    if m.len() > 0 {
        lemma_matching_always(m.drop_last());
        assert(matching(m, SExpr::Always) =~= m);
    } else {
        assert(matching(m, SExpr::Always) =~= m);
    }
}

/// Compares two records in display order.
pub fn rec_lt_exec(a: &Record, b: &Record) -> (r: bool)
    ensures
        r == rec_lt(a@, b@),
{
    if date_lt_exec(&a.date, &b.date) {
        true
    } else if a.date == b.date {
        lex_lt_exec(&a.event, &b.event)
    } else {
        false
    }
}

/// Inserts a record into a vector kept in display order.
fn insert_sorted_exec(out: &mut Vec<Record>, r: Record)
    ensures
        recs_view(final(out)@) == ins_sorted(r@, recs_view(old(out)@)),
{
    let ghost s = recs_view(out@);
    let mut idx: usize = 0;
    while idx < out.len() && !rec_lt_exec(&r, &out[idx])
        invariant
            idx <= out.len(),
            out@ == old(out)@,
            s == recs_view(out@),
            forall|k: int| 0 <= k < idx ==> !rec_lt(r@, #[trigger] s[k]),
        decreases out.len() - idx,
    {
        idx = idx + 1;
    }
    proof {
        lemma_ins_sorted_at(r@, s, idx as int);
    }
    out.insert(idx, r);
    proof {
        assert(recs_view(out@) =~= s.take(idx as int) + seq![r@] + s.skip(idx as int));
    }
}

impl Store {
    /// Every record the clause selects, in display order: by date, then by
    /// event text.
    pub fn select_matching(&self, e: &Expr) -> (out: Vec<Record>)
        ensures
            recs_view(out@) == sort_recs(matching(self.model(), e@)),
    {
        let mut out: Vec<Record> = Vec::new();
        proof {
            assert(self.model().take(0) =~= Seq::<SRec>::empty());
            assert(recs_view(out@) =~= Seq::<SRec>::empty());
        }
        let mut i: usize = 0;
        while i < self.recs.len()
            invariant
                i <= self.recs.len(),
                recs_view(out@) == sort_recs(matching(self.model().take(i as int), e@)),
            decreases self.recs.len() - i,
        {
            let ghost m = self.model();
            proof {
                assert(m.take(i + 1).drop_last() =~= m.take(i as int));
                assert(m.take(i + 1).last() == m[i as int]);
            }
            let rr = &self.recs[i];
            proof {
                assert(m[i as int] == self.recs@[i as int]@);
            }
            if eval(e, &rr.date, &rr.event) {
                let cp = rr.duplicate();
                insert_sorted_exec(&mut out, cp);
                proof {
                    let f = matching(m.take(i as int), e@);
                    let g = f.push(m[i as int]);
                    assert(matching(m.take(i + 1), e@) == g);
                    assert(g.drop_last() =~= f);
                    assert(g.last() == m[i as int]);
                    assert(sort_recs(g) == ins_sorted(m[i as int], sort_recs(f)));
                }
            }
            i = i + 1;
        }
        proof {
            assert(self.model().take(self.model().len() as int) =~= self.model());
        }
        out
    }

    /// All records in display order, for `Print`.
    pub fn all_sorted(&self) -> (out: Vec<Record>)
        ensures
            recs_view(out@) == sort_recs(self.model()),
    {
        let out = self.select_matching(&Expr::Always);
        proof {
            lemma_matching_always(self.model());
        }
        out
    }

    /// The record `Last` reports for a bound, if any.
    pub fn latest_before(&self, bound: &Date) -> (r: Option<Record>)
        ensures
            match r {
                Some(rec) => spec_latest(self.model(), *bound) == Some(rec@),
                None => spec_latest(self.model(), *bound) is None,
            },
    {
        let mut best: Option<Record> = None;
        proof {
            assert(self.model().take(0) =~= Seq::<SRec>::empty());
        }
        let mut i: usize = 0;
        while i < self.recs.len()
            invariant
                i <= self.recs.len(),
                match best {
                    Some(b) => spec_latest(self.model().take(i as int), *bound) == Some(b@),
                    None => spec_latest(self.model().take(i as int), *bound) is None,
                },
            decreases self.recs.len() - i,
        {
            let ghost m = self.model();
            proof {
                assert(m.take(i + 1).drop_last() =~= m.take(i as int));
                assert(m.take(i + 1).last() == m[i as int]);
            }
            let rr = &self.recs[i];
            let taken = if date_le_exec(&rr.date, bound) {
                match &best {
                    None => true,
                    Some(b) => date_le_exec(&b.date, &rr.date),
                }
            } else {
                false
            };
            if taken {
                best = Some(rr.duplicate());
            }
            i = i + 1;
        }
        proof {
            assert(self.model().take(self.model().len() as int) =~= self.model());
        }
        best
    }
}

} // verus!
