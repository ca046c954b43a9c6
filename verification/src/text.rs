//! Lexicographic order on character sequences, as used for the `event`
//! field: code-point order, case-sensitive, a strict prefix sorts first.

use vstd::prelude::*;

verus! {

/// Strict lexicographic order.
pub open spec fn lex_lt(a: Seq<char>, b: Seq<char>) -> bool
    decreases a.len(),
{
    if b.len() == 0 {
        false
    } else if a.len() == 0 {
        true
    } else if a[0] != b[0] {
        (a[0] as u32) < (b[0] as u32)
    } else {
        lex_lt(a.drop_first(), b.drop_first())
    }
}

pub open spec fn lex_le(a: Seq<char>, b: Seq<char>) -> bool {
    lex_lt(a, b) || a == b
}

/// Compares two character vectors lexicographically.
pub fn lex_lt_exec(a: &Vec<char>, b: &Vec<char>) -> (r: bool)
    ensures
        r == lex_lt(a@, b@),
{
    proof {
        assert(a@.skip(0) =~= a@);
        assert(b@.skip(0) =~= b@);
    }
    let mut i: usize = 0;
    while i < a.len() && i < b.len() && a[i] == b[i]
        invariant
            i <= a.len(),
            i <= b.len(),
            lex_lt(a@, b@) == lex_lt(a@.skip(i as int), b@.skip(i as int)),
            forall|k: int| 0 <= k < i ==> a@[k] == b@[k],
        decreases a.len() - i,
    {
        proof {
            let x = a@.skip(i as int);
            let y = b@.skip(i as int);
            assert(x.drop_first() =~= a@.skip(i + 1));
            assert(y.drop_first() =~= b@.skip(i + 1));
        }
        i = i + 1;
    }
    if i < a.len() && i < b.len() {
        proof {
            let x = a@.skip(i as int);
            let y = b@.skip(i as int);
            assert(x[0] == a@[i as int] && y[0] == b@[i as int]);
        }
        (a[i] as u32) < (b[i] as u32)
    } else {
        proof {
            if i >= a.len() && i >= b.len() {
                assert(a@ =~= b@);
            }
        }
        i >= a.len() && i < b.len()
    }
}

/// Equality of two character vectors.
pub fn chars_eq(a: &Vec<char>, b: &Vec<char>) -> (r: bool)
    ensures
        r == (a@ == b@),
{
    if a.len() != b.len() {
        proof {
            assert(a@ != b@);
        }
        return false;
    }
    let mut i: usize = 0;
    while i < a.len()
        invariant
            i <= a.len(),
            a.len() == b.len(),
            forall|k: int| 0 <= k < i ==> a@[k] == b@[k],
        decreases a.len() - i,
    {
        if a[i] != b[i] {
            return false;
        }
        i = i + 1;
    }
    proof {
        assert(a@ =~= b@);
    }
    true
}

/// A strict prefix sorts strictly before the longer text.
pub proof fn lemma_prefix_lt(a: Seq<char>, b: Seq<char>)
    requires
        a.len() < b.len(),
        a == b.take(a.len() as int),
    ensures
        lex_lt(a, b),
    decreases a.len(),
{
    if a.len() > 0 {
        assert(a[0] == b[0]);
        assert(a.drop_first() =~= b.drop_first().take(a.len() - 1));
        lemma_prefix_lt(a.drop_first(), b.drop_first());
    }
}

/// Lexicographic order is total: of two distinct texts one sorts first.
pub proof fn lemma_lex_total(a: Seq<char>, b: Seq<char>)
    requires
        !lex_lt(a, b),
        a != b,
    ensures
        lex_lt(b, a),
    decreases a.len(),
{
    if b.len() == 0 {
        if a.len() == 0 {
            assert(a =~= b);
        }
    } else if a.len() == 0 {
        assert(false);
    } else if a[0] != b[0] {
        vstd::utf8::char_u32_cast(a[0], a[0] as u32);
        vstd::utf8::char_u32_cast(b[0], b[0] as u32);
        assert((a[0] as u32) != (b[0] as u32));
    } else {
        let ad = a.drop_first();
        let bd = b.drop_first();
        if ad == bd {
            assert(ad.len() == bd.len());
            assert(a.len() == b.len());
            assert forall|k: int| 0 <= k < a.len() implies a[k] == b[k] by {
                if k > 0 {
                    assert(a[k] == ad[k - 1]);
                    assert(b[k] == bd[k - 1]);
                }
            }
            assert(a =~= b);
        }
        lemma_lex_total(ad, bd);
    }
}

/// Lexicographic order is irreflexive and asymmetric.
pub proof fn lemma_lex_asymmetric(a: Seq<char>, b: Seq<char>)
    requires
        lex_lt(a, b),
    ensures
        !lex_lt(b, a),
        a != b,
    decreases a.len(),
{
    if b.len() == 0 {
        assert(false);
    } else if a.len() == 0 {
    } else if a[0] != b[0] {
    } else {
        lemma_lex_asymmetric(a.drop_first(), b.drop_first());
        if a == b {
            assert(a.drop_first() =~= b.drop_first());
        }
    }
}

/// A first differing position with a smaller character decides the order.
pub proof fn lemma_lex_from_witness(a: Seq<char>, b: Seq<char>, i: int)
    requires
        0 <= i < a.len(),
        i < b.len(),
        forall|k: int| 0 <= k < i ==> a[k] == b[k],
        (a[i] as u32) < (b[i] as u32),
    ensures
        lex_lt(a, b),
    decreases i,
{
    if i == 0 {
        assert(a[0] != b[0]) by {
            if a[0] == b[0] {
                assert((a[0] as u32) == (b[0] as u32));
            }
        }
    } else {
        let ad = a.drop_first();
        let bd = b.drop_first();
        assert(forall|k: int| 0 <= k < ad.len() ==> #[trigger] ad[k] == a[k + 1]);
        assert(forall|k: int| 0 <= k < bd.len() ==> #[trigger] bd[k] == b[k + 1]);
        lemma_lex_from_witness(ad, bd, i - 1);
    }
}

/// Comparing two texts with equal-length prefixes: the prefixes decide,
/// and on equal prefixes the tails do.
pub proof fn lemma_lex_concat(a1: Seq<char>, r1: Seq<char>, b1: Seq<char>, r2: Seq<char>)
    requires
        a1.len() == b1.len(),
    ensures
        lex_lt(a1 + r1, b1 + r2) == (lex_lt(a1, b1) || (a1 == b1 && lex_lt(r1, r2))),
    decreases a1.len(),
{
    if a1.len() == 0 {
        assert(a1 + r1 =~= r1);
        assert(b1 + r2 =~= r2);
        assert(a1 =~= b1);
    } else {
        let x = a1 + r1;
        let y = b1 + r2;
        assert(x[0] == a1[0] && y[0] == b1[0]);
        assert(x.len() > 0 && y.len() > 0);
        if a1[0] != b1[0] {
            assert(lex_lt(x, y) == ((a1[0] as u32) < (b1[0] as u32)));
            assert(a1 != b1) by {
                if a1 == b1 {
                    assert(a1[0] == b1[0]);
                }
            }
        } else {
            assert(x.drop_first() =~= a1.drop_first() + r1);
            assert(y.drop_first() =~= b1.drop_first() + r2);
            lemma_lex_concat(a1.drop_first(), r1, b1.drop_first(), r2);
            assert((a1 == b1) == (a1.drop_first() == b1.drop_first())) by {
                if a1.drop_first() == b1.drop_first() {
                    assert forall|k: int| 0 <= k < a1.len() implies a1[k] == b1[k] by {
                        if k > 0 {
                            assert(a1[k] == a1.drop_first()[k - 1]);
                            assert(b1[k] == b1.drop_first()[k - 1]);
                        }
                    }
                    assert(a1 =~= b1);
                }
            }
        }
    }
}

/// Lexicographic order is transitive.
pub proof fn lemma_lex_transitive(a: Seq<char>, b: Seq<char>, c: Seq<char>)
    requires
        lex_lt(a, b),
        lex_lt(b, c),
    ensures
        lex_lt(a, c),
    decreases a.len() + b.len() + c.len(),
{
    if a.len() == 0 {
        assert(b.len() > 0 && c.len() > 0);
    } else {
        assert(b.len() > 0 && c.len() > 0);
        if a[0] == b[0] && b[0] == c[0] {
            lemma_lex_transitive(a.drop_first(), b.drop_first(), c.drop_first());
        }
    }
}

} // verus!
