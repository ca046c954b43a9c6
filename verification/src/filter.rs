//! The filter expression language of `Del` and `Find`: comparisons on the
//! `date` and `event` fields, combined with `AND`, `OR` and parentheses
//! (`AND` binds tighter).  An empty clause means "match everything".
//!
//! Tokenizer and parser are written twice: once as spec functions, which
//! are the definition of the grammar, and once as executable functions
//! proved to return exactly what the spec functions say.

use vstd::prelude::*;

use crate::dates::{Date, date_le, date_lt, date_le_exec, date_lt_exec, spec_parse_date,
    parse_date};
use crate::text::{lex_lt, lex_lt_exec, chars_eq};

verus! {

#[derive(Clone, Copy, PartialEq, Eq, Structural, Debug)]
pub enum TokKind {
    LParen,
    RParen,
    AndKw,
    OrKw,
    FieldDate,
    FieldEvent,
    OpEq,
    OpNe,
    OpLt,
    OpLe,
    OpGt,
    OpGe,
    Word,
    StrLit,
}

/// One token; `chars` is empty except for `Word` and `StrLit`.
#[derive(Debug)]
pub struct Token {
    pub kind: TokKind,
    pub chars: Vec<char>,
}

pub struct STok {
    pub kind: TokKind,
    pub chars: Seq<char>,
}

impl View for Token {
    type V = STok;

    open spec fn view(&self) -> STok {
        STok { kind: self.kind, chars: self.chars@ }
    }
}

pub open spec fn toks_view(v: Seq<Token>) -> Seq<STok> {
    v.map_values(|t: Token| t@)
}

pub open spec fn is_ws(c: char) -> bool {
    c == ' ' || c == '\t' || c == '\r'
}

pub open spec fn is_op_char(c: char) -> bool {
    c == '=' || c == '!' || c == '<' || c == '>'
}

pub open spec fn is_word_char(c: char) -> bool {
    !is_ws(c) && !is_op_char(c) && c != '(' && c != ')' && c != '"'
}

pub fn is_ws_exec(c: char) -> (r: bool)
    ensures
        r == is_ws(c),
{
    c == ' ' || c == '\t' || c == '\r'
}

pub fn is_op_char_exec(c: char) -> (r: bool)
    ensures
        r == is_op_char(c),
{
    c == '=' || c == '!' || c == '<' || c == '>'
}

pub fn is_word_char_exec(c: char) -> (r: bool)
    ensures
        r == is_word_char(c),
{
    !is_ws_exec(c) && !is_op_char_exec(c) && c != '(' && c != ')' && c != '"'
}

/// First index at or after `pos` that is not a whitespace character.
pub open spec fn ws_end(s: Seq<char>, pos: int) -> int
    decreases s.len() - pos,
{
    if 0 <= pos < s.len() && is_ws(s[pos]) {
        ws_end(s, pos + 1)
    } else {
        pos
    }
}

/// First index at or after `pos` that is not an operator character.
pub open spec fn op_end(s: Seq<char>, pos: int) -> int
    decreases s.len() - pos,
{
    if 0 <= pos < s.len() && is_op_char(s[pos]) {
        op_end(s, pos + 1)
    } else {
        pos
    }
}

/// First index at or after `pos` that is not a word character.
pub open spec fn word_end(s: Seq<char>, pos: int) -> int
    decreases s.len() - pos,
{
    if 0 <= pos < s.len() && is_word_char(s[pos]) {
        word_end(s, pos + 1)
    } else {
        pos
    }
}

/// First index at or after `pos` holding a double quote, or the length.
pub open spec fn quote_end(s: Seq<char>, pos: int) -> int
    decreases s.len() - pos,
{
    if 0 <= pos < s.len() {
        if s[pos] == '"' {
            pos
        } else {
            quote_end(s, pos + 1)
        }
    } else {
        pos
    }
}

pub fn find_ws_end(s: &Vec<char>, pos: usize) -> (r: usize)
    requires
        pos <= s.len(),
    ensures
        r == ws_end(s@, pos as int),
        pos <= r <= s.len(),
{
    let mut i: usize = pos;
    while i < s.len() && is_ws_exec(s[i])
        invariant
            pos <= i <= s.len(),
            ws_end(s@, pos as int) == ws_end(s@, i as int),
        decreases s.len() - i,
    {
        i = i + 1;
    }
    i
}

pub fn find_op_end(s: &Vec<char>, pos: usize) -> (r: usize)
    requires
        pos <= s.len(),
    ensures
        r == op_end(s@, pos as int),
        pos <= r <= s.len(),
{
    let mut i: usize = pos;
    while i < s.len() && is_op_char_exec(s[i])
        invariant
            pos <= i <= s.len(),
            op_end(s@, pos as int) == op_end(s@, i as int),
        decreases s.len() - i,
    {
        i = i + 1;
    }
    i
}

pub fn find_word_end(s: &Vec<char>, pos: usize) -> (r: usize)
    requires
        pos <= s.len(),
    ensures
        r == word_end(s@, pos as int),
        pos <= r <= s.len(),
{
    let mut i: usize = pos;
    while i < s.len() && is_word_char_exec(s[i])
        invariant
            pos <= i <= s.len(),
            word_end(s@, pos as int) == word_end(s@, i as int),
        decreases s.len() - i,
    {
        i = i + 1;
    }
    i
}

pub fn find_quote_end(s: &Vec<char>, pos: usize) -> (r: usize)
    requires
        pos <= s.len(),
    ensures
        r == quote_end(s@, pos as int),
        pos <= r <= s.len(),
{
    let mut i: usize = pos;
    while i < s.len() && s[i] != '"'
        invariant
            pos <= i <= s.len(),
            quote_end(s@, pos as int) == quote_end(s@, i as int),
        decreases s.len() - i,
    {
        i = i + 1;
    }
    i
}

/// Copies `s[from..to]` into a fresh vector.
pub fn copy_range(s: &Vec<char>, from: usize, to: usize) -> (r: Vec<char>)
    requires
        from <= to <= s.len(),
    ensures
        r@ == s@.subrange(from as int, to as int),
{
    let mut r: Vec<char> = Vec::new();
    let mut i: usize = from;
    while i < to
        invariant
            from <= i <= to <= s.len(),
            r@ == s@.subrange(from as int, i as int),
        decreases to - i,
    {
        r.push(s[i]);
        proof {
            assert(s@.subrange(from as int, i as int).push(s@[i as int]) =~= s@.subrange(
                from as int,
                i + 1,
            ));
        }
        i = i + 1;
    }
    r
}

/// The operator spelled by a run of operator characters, if any.
pub open spec fn op_kind_of(s: Seq<char>) -> Option<TokKind> {
    if s.len() == 1 {
        if s[0] == '<' {
            Some(TokKind::OpLt)
        } else if s[0] == '>' {
            Some(TokKind::OpGt)
        } else {
            None
        }
    } else if s.len() == 2 {
        if s[0] == '=' && s[1] == '=' {
            Some(TokKind::OpEq)
        } else if s[0] == '!' && s[1] == '=' {
            Some(TokKind::OpNe)
        } else if s[0] == '<' && s[1] == '=' {
            Some(TokKind::OpLe)
        } else if s[0] == '>' && s[1] == '=' {
            Some(TokKind::OpGe)
        } else {
            None
        }
    } else {
        None
    }
}

/// Which keyword a bare word is, or `Word` for anything else.
pub open spec fn kw_kind_of(s: Seq<char>) -> TokKind {
    if s.len() == 4 && s[0] == 'd' && s[1] == 'a' && s[2] == 't' && s[3] == 'e' {
        TokKind::FieldDate
    } else if s.len() == 5 && s[0] == 'e' && s[1] == 'v' && s[2] == 'e' && s[3] == 'n'
        && s[4] == 't' {
        TokKind::FieldEvent
    } else if s.len() == 3 && s[0] == 'A' && s[1] == 'N' && s[2] == 'D' {
        TokKind::AndKw
    } else if s.len() == 2 && s[0] == 'O' && s[1] == 'R' {
        TokKind::OrKw
    } else {
        TokKind::Word
    }
}

pub open spec fn cons_tok(t: STok, rest: Option<Seq<STok>>) -> Option<Seq<STok>> {
    match rest {
        Some(r) => Some(seq![t] + r),
        None => None,
    }
}

/// Tokenizes the clause text from `pos` on.  `None` on an unterminated
/// quoted string or an unknown operator run.
pub open spec fn spec_tokenize_from(s: Seq<char>, pos: int) -> Option<Seq<STok>>
    decreases s.len() - pos,
{
    if pos < 0 || pos > s.len() {
        None
    } else if pos == s.len() {
        Some(Seq::empty())
    } else if is_ws(s[pos]) {
        spec_tokenize_from(s, pos + 1)
    } else if s[pos] == '(' {
        cons_tok(STok { kind: TokKind::LParen, chars: Seq::empty() }, spec_tokenize_from(
            s,
            pos + 1,
        ))
    } else if s[pos] == ')' {
        cons_tok(STok { kind: TokKind::RParen, chars: Seq::empty() }, spec_tokenize_from(
            s,
            pos + 1,
        ))
    } else if s[pos] == '"' {
        let q = quote_end(s, pos + 1);
        if pos + 1 <= q < s.len() {
            cons_tok(STok { kind: TokKind::StrLit, chars: s.subrange(pos + 1, q) },
                spec_tokenize_from(s, q + 1))
        } else {
            None
        }
    } else if is_op_char(s[pos]) {
        let e = op_end(s, pos);
        if pos < e <= s.len() {
            match op_kind_of(s.subrange(pos, e)) {
                Some(k) => cons_tok(STok { kind: k, chars: Seq::empty() }, spec_tokenize_from(
                    s,
                    e,
                )),
                None => None,
            }
        } else {
            None
        }
    } else {
        let e = word_end(s, pos);
        if pos < e <= s.len() {
            let w = s.subrange(pos, e);
            let k = kw_kind_of(w);
            cons_tok(STok { kind: k, chars: if k == TokKind::Word {
                w
            } else {
                Seq::empty()
            } }, spec_tokenize_from(s, e))
        } else {
            None
        }
    }
}

proof fn lemma_toks_view_cons(t: Token, r: Seq<Token>)
    ensures
        toks_view(seq![t] + r) == seq![t@] + toks_view(r),
{
    assert(toks_view(seq![t] + r) =~= seq![t@] + toks_view(r));
}

/// Executable tokenizer, equal to [`spec_tokenize_from`].
pub fn tokenize_from(s: &Vec<char>, pos: usize) -> (r: Option<Vec<Token>>)
    requires
        pos <= s.len(),
    ensures
        match r {
            Some(v) => spec_tokenize_from(s@, pos as int) == Some(toks_view(v@)),
            None => spec_tokenize_from(s@, pos as int) is None,
        },
    decreases s.len() - pos,
{
    if pos == s.len() {
        let v: Vec<Token> = Vec::new();
        proof {
            assert(toks_view(v@) =~= Seq::<STok>::empty());
        }
        return Some(v);
    }
    let c = s[pos];
    if is_ws_exec(c) {
        tokenize_from(s, pos + 1)
    } else if c == '(' {
        prepend_tok(Token { kind: TokKind::LParen, chars: Vec::new() }, tokenize_from(s, pos + 1))
    } else if c == ')' {
        prepend_tok(Token { kind: TokKind::RParen, chars: Vec::new() }, tokenize_from(s, pos + 1))
    } else if c == '"' {
        let q = find_quote_end(s, pos + 1);
        if q < s.len() {
            let w = copy_range(s, pos + 1, q);
            prepend_tok(Token { kind: TokKind::StrLit, chars: w }, tokenize_from(s, q + 1))
        } else {
            None
        }
    } else if is_op_char_exec(c) {
        let e = find_op_end(s, pos + 1);
        proof {
            assert(op_end(s@, pos as int) == op_end(s@, pos + 1));
        }
        let k = op_kind_of_exec(s, pos, e);
        match k {
            Some(k) => prepend_tok(Token { kind: k, chars: Vec::new() }, tokenize_from(s, e)),
            None => None,
        }
    } else {
        let e = find_word_end(s, pos + 1);
        proof {
            assert(word_end(s@, pos as int) == word_end(s@, pos + 1));
        }
        let k = kw_kind_of_exec(s, pos, e);
        let w = if k == TokKind::Word {
            copy_range(s, pos, e)
        } else {
            Vec::new()
        };
        proof {
            if k != TokKind::Word {
                assert(w@ =~= Seq::<char>::empty());
            }
        }
        prepend_tok(Token { kind: k, chars: w }, tokenize_from(s, e))
    }
}

/// Puts a token in front of an already-tokenized tail.
fn prepend_tok(t: Token, rest: Option<Vec<Token>>) -> (r: Option<Vec<Token>>)
    ensures
        match r {
            Some(v) => rest matches Some(v0) && toks_view(v@) == seq![t@] + toks_view(v0@),
            None => rest is None,
        },
{
    match rest {
        Some(mut v) => {
            let ghost v0 = v@;
            v.insert(0, t);
            proof {
                assert(v@ =~= seq![t] + v0);
                lemma_toks_view_cons(t, v0);
            }
            Some(v)
        },
        None => None,
    }
}

fn op_kind_of_exec(s: &Vec<char>, pos: usize, e: usize) -> (r: Option<TokKind>)
    requires
        pos <= e <= s.len(),
    ensures
        r == op_kind_of(s@.subrange(pos as int, e as int)),
{
    if e - pos == 1 {
        if s[pos] == '<' {
            Some(TokKind::OpLt)
        } else if s[pos] == '>' {
            Some(TokKind::OpGt)
        } else {
            None
        }
    } else if e - pos == 2 {
        let a = s[pos];
        let b = s[pos + 1];
        if a == '=' && b == '=' {
            Some(TokKind::OpEq)
        } else if a == '!' && b == '=' {
            Some(TokKind::OpNe)
        } else if a == '<' && b == '=' {
            Some(TokKind::OpLe)
        } else if a == '>' && b == '=' {
            Some(TokKind::OpGe)
        } else {
            None
        }
    } else {
        None
    }
}

fn kw_kind_of_exec(s: &Vec<char>, pos: usize, e: usize) -> (r: TokKind)
    requires
        pos <= e <= s.len(),
    ensures
        r == kw_kind_of(s@.subrange(pos as int, e as int)),
{
    let n = e - pos;
    if n == 4 && s[pos] == 'd' && s[pos + 1] == 'a' && s[pos + 2] == 't' && s[pos + 3] == 'e' {
        TokKind::FieldDate
    } else if n == 5 && s[pos] == 'e' && s[pos + 1] == 'v' && s[pos + 2] == 'e' && s[pos + 3]
        == 'n' && s[pos + 4] == 't' {
        TokKind::FieldEvent
    } else if n == 3 && s[pos] == 'A' && s[pos + 1] == 'N' && s[pos + 2] == 'D' {
        TokKind::AndKw
    } else if n == 2 && s[pos] == 'O' && s[pos + 1] == 'R' {
        TokKind::OrKw
    } else {
        TokKind::Word
    }
}

#[derive(Clone, Copy, PartialEq, Eq, Structural, Debug)]
pub enum CmpOp {
    CEq,
    CNe,
    CLt,
    CLe,
    CGt,
    CGe,
}

/// A parsed filter clause.
#[derive(Debug)]
pub enum Expr {
    /// The empty clause: true of every record.
    Always,
    CmpDate(CmpOp, Date),
    CmpEvent(CmpOp, Vec<char>),
    And(Box<Expr>, Box<Expr>),
    Or(Box<Expr>, Box<Expr>),
}

/// The mathematical shape of a filter clause.
pub enum SExpr {
    Always,
    CmpDate(CmpOp, Date),
    CmpEvent(CmpOp, Seq<char>),
    And(Box<SExpr>, Box<SExpr>),
    Or(Box<SExpr>, Box<SExpr>),
}

impl View for Expr {
    type V = SExpr;

    open spec fn view(&self) -> SExpr
        decreases self,
    {
        match self {
            Expr::Always => SExpr::Always,
            Expr::CmpDate(op, d) => SExpr::CmpDate(*op, *d),
            Expr::CmpEvent(op, ev) => SExpr::CmpEvent(*op, ev@),
            Expr::And(l, r) => SExpr::And(Box::new((**l)@), Box::new((**r)@)),
            Expr::Or(l, r) => SExpr::Or(Box::new((**l)@), Box::new((**r)@)),
        }
    }
}

pub open spec fn op_of_kind(k: TokKind) -> Option<CmpOp> {
    match k {
        TokKind::OpEq => Some(CmpOp::CEq),
        TokKind::OpNe => Some(CmpOp::CNe),
        TokKind::OpLt => Some(CmpOp::CLt),
        TokKind::OpLe => Some(CmpOp::CLe),
        TokKind::OpGt => Some(CmpOp::CGt),
        TokKind::OpGe => Some(CmpOp::CGe),
        _ => None,
    }
}

/// One comparison, or a parenthesized expression.
pub open spec fn sp_primary(t: Seq<STok>, pos: int) -> Option<(SExpr, int)>
    decreases t.len() - pos, 0int,
{
    if pos < 0 || pos >= t.len() {
        None
    } else if t[pos].kind == TokKind::LParen {
        match sp_or(t, pos + 1) {
            Some((e, p)) => if p < t.len() && t[p].kind == TokKind::RParen {
                Some((e, p + 1))
            } else {
                None
            },
            None => None,
        }
    } else if t[pos].kind == TokKind::FieldDate {
        if pos + 2 < t.len() {
            match op_of_kind(t[pos + 1].kind) {
                Some(op) => if t[pos + 2].kind == TokKind::Word {
                    match spec_parse_date(t[pos + 2].chars) {
                        Some(d) => Some((SExpr::CmpDate(op, d), pos + 3)),
                        None => None,
                    }
                } else {
                    None
                },
                None => None,
            }
        } else {
            None
        }
    } else if t[pos].kind == TokKind::FieldEvent {
        if pos + 2 < t.len() {
            match op_of_kind(t[pos + 1].kind) {
                Some(op) => if t[pos + 2].kind == TokKind::StrLit {
                    Some((SExpr::CmpEvent(op, t[pos + 2].chars), pos + 3))
                } else {
                    None
                },
                None => None,
            }
        } else {
            None
        }
    } else {
        None
    }
}

/// A chain of comparisons joined by `AND`.
pub open spec fn sp_and(t: Seq<STok>, pos: int) -> Option<(SExpr, int)>
    decreases t.len() - pos, 1int,
{
    match sp_primary(t, pos) {
        Some((e, p)) => if pos < p <= t.len() {
            sp_and_rest(t, p, e)
        } else {
            None
        },
        None => None,
    }
}

pub open spec fn sp_and_rest(t: Seq<STok>, pos: int, acc: SExpr) -> Option<(SExpr, int)>
    decreases t.len() - pos, 2int,
{
    if 0 <= pos < t.len() && t[pos].kind == TokKind::AndKw {
        match sp_primary(t, pos + 1) {
            Some((e2, p2)) => if pos + 1 < p2 <= t.len() {
                sp_and_rest(t, p2, SExpr::And(Box::new(acc), Box::new(e2)))
            } else {
                None
            },
            None => None,
        }
    } else {
        Some((acc, pos))
    }
}

/// A chain of `AND`-terms joined by `OR`; `AND` binds tighter.
pub open spec fn sp_or(t: Seq<STok>, pos: int) -> Option<(SExpr, int)>
    decreases t.len() - pos, 3int,
{
    match sp_and(t, pos) {
        Some((e, p)) => if pos < p <= t.len() {
            sp_or_rest(t, p, e)
        } else {
            None
        },
        None => None,
    }
}

pub open spec fn sp_or_rest(t: Seq<STok>, pos: int, acc: SExpr) -> Option<(SExpr, int)>
    decreases t.len() - pos, 4int,
{
    if 0 <= pos < t.len() && t[pos].kind == TokKind::OrKw {
        match sp_and(t, pos + 1) {
            Some((e2, p2)) => if pos + 1 < p2 <= t.len() {
                sp_or_rest(t, p2, SExpr::Or(Box::new(acc), Box::new(e2)))
            } else {
                None
            },
            None => None,
        }
    } else {
        Some((acc, pos))
    }
}

/// A whole token list as one expression; empty means "match everything",
/// trailing tokens are an error.
pub open spec fn spec_parse_tokens(t: Seq<STok>) -> Option<SExpr> {
    if t.len() == 0 {
        Some(SExpr::Always)
    } else {
        match sp_or(t, 0) {
            Some((e, p)) => if p == t.len() {
                Some(e)
            } else {
                None
            },
            None => None,
        }
    }
}

/// A whole clause text as one expression.
pub open spec fn spec_parse_filter(s: Seq<char>) -> Option<SExpr> {
    match spec_tokenize_from(s, 0) {
        Some(t) => spec_parse_tokens(t),
        None => None,
    }
}

/// Executable counterpart of [`sp_primary`].
pub fn parse_primary(t: &Vec<Token>, pos: usize) -> (r: Option<(Expr, usize)>)
    requires
        pos <= t.len(),
    ensures
        match r {
            Some((e, p)) => sp_primary(toks_view(t@), pos as int) == Some((e@, p as int))
                && pos < p <= t.len(),
            None => sp_primary(toks_view(t@), pos as int) is None,
        },
    decreases t.len() - pos, 0int,
{
    if pos >= t.len() {
        return None;
    }
    match t[pos].kind {
        TokKind::LParen => {
            match parse_or(t, pos + 1) {
                Some((e, p)) => {
                    if p < t.len() && t[p].kind == TokKind::RParen {
                        Some((e, p + 1))
                    } else {
                        None
                    }
                },
                None => None,
            }
        },
        TokKind::FieldDate => {
            if t.len() - pos > 2 {
                match op_of_kind_exec(t[pos + 1].kind) {
                    Some(op) => {
                        if t[pos + 2].kind == TokKind::Word {
                            match parse_date(&t[pos + 2].chars) {
                                Some(d) => Some((Expr::CmpDate(op, d), pos + 3)),
                                None => None,
                            }
                        } else {
                            None
                        }
                    },
                    None => None,
                }
            } else {
                None
            }
        },
        TokKind::FieldEvent => {
            if t.len() - pos > 2 {
                match op_of_kind_exec(t[pos + 1].kind) {
                    Some(op) => {
                        if t[pos + 2].kind == TokKind::StrLit {
                            let ev = copy_range(&t[pos + 2].chars, 0, t[pos + 2].chars.len());
                            proof {
                                assert(ev@ =~= t@[pos + 2].chars@);
                            }
                            Some((Expr::CmpEvent(op, ev), pos + 3))
                        } else {
                            None
                        }
                    },
                    None => None,
                }
            } else {
                None
            }
        },
        _ => None,
    }
}

fn op_of_kind_exec(k: TokKind) -> (r: Option<CmpOp>)
    ensures
        r == op_of_kind(k),
{
    match k {
        TokKind::OpEq => Some(CmpOp::CEq),
        TokKind::OpNe => Some(CmpOp::CNe),
        TokKind::OpLt => Some(CmpOp::CLt),
        TokKind::OpLe => Some(CmpOp::CLe),
        TokKind::OpGt => Some(CmpOp::CGt),
        TokKind::OpGe => Some(CmpOp::CGe),
        _ => None,
    }
}

/// Executable counterpart of [`sp_and`].
pub fn parse_and(t: &Vec<Token>, pos: usize) -> (r: Option<(Expr, usize)>)
    requires
        pos <= t.len(),
    ensures
        match r {
            Some((e, p)) => sp_and(toks_view(t@), pos as int) == Some((e@, p as int)) && pos < p
                <= t.len(),
            None => sp_and(toks_view(t@), pos as int) is None,
        },
    decreases t.len() - pos, 1int,
{
    match parse_primary(t, pos) {
        Some((e, p)) => parse_and_rest(t, p, e, Ghost(pos as int)),
        None => None,
    }
}

/// Executable counterpart of [`sp_and_rest`].
fn parse_and_rest(t: &Vec<Token>, pos: usize, acc: Expr, Ghost(lo): Ghost<int>) -> (r: Option<
    (Expr, usize),
>)
    requires
        0 <= lo < pos <= t.len(),
    ensures
        match r {
            Some((e, p)) => sp_and_rest(toks_view(t@), pos as int, acc@) == Some((e@, p as int))
                && lo < p <= t.len(),
            None => sp_and_rest(toks_view(t@), pos as int, acc@) is None,
        },
    decreases t.len() - pos, 2int,
{
    if pos < t.len() && t[pos].kind == TokKind::AndKw {
        match parse_primary(t, pos + 1) {
            Some((e2, p2)) => parse_and_rest(
                t,
                p2,
                Expr::And(Box::new(acc), Box::new(e2)),
                Ghost(lo),
            ),
            None => None,
        }
    } else {
        Some((acc, pos))
    }
}

/// Executable counterpart of [`sp_or`].
pub fn parse_or(t: &Vec<Token>, pos: usize) -> (r: Option<(Expr, usize)>)
    requires
        pos <= t.len(),
    ensures
        match r {
            Some((e, p)) => sp_or(toks_view(t@), pos as int) == Some((e@, p as int)) && pos < p
                <= t.len(),
            None => sp_or(toks_view(t@), pos as int) is None,
        },
    decreases t.len() - pos, 3int,
{
    match parse_and(t, pos) {
        Some((e, p)) => parse_or_rest(t, p, e, Ghost(pos as int)),
        None => None,
    }
}

/// Executable counterpart of [`sp_or_rest`].
fn parse_or_rest(t: &Vec<Token>, pos: usize, acc: Expr, Ghost(lo): Ghost<int>) -> (r: Option<
    (Expr, usize),
>)
    requires
        0 <= lo < pos <= t.len(),
    ensures
        match r {
            Some((e, p)) => sp_or_rest(toks_view(t@), pos as int, acc@) == Some((e@, p as int))
                && lo < p <= t.len(),
            None => sp_or_rest(toks_view(t@), pos as int, acc@) is None,
        },
    decreases t.len() - pos, 4int,
{
    if pos < t.len() && t[pos].kind == TokKind::OrKw {
        match parse_and(t, pos + 1) {
            Some((e2, p2)) => parse_or_rest(
                t,
                p2,
                Expr::Or(Box::new(acc), Box::new(e2)),
                Ghost(lo),
            ),
            None => None,
        }
    } else {
        Some((acc, pos))
    }
}

/// Parses a whole clause text; `None` discards the enclosing command.
pub fn parse_filter(s: &Vec<char>) -> (r: Option<Expr>)
    ensures
        match r {
            Some(e) => spec_parse_filter(s@) == Some(e@),
            None => spec_parse_filter(s@) is None,
        },
{
    match tokenize_from(s, 0) {
        Some(toks) => {
            if toks.len() == 0 {
                Some(Expr::Always)
            } else {
                match parse_or(&toks, 0) {
                    Some((e, p)) => {
                        if p == toks.len() {
                            Some(e)
                        } else {
                            None
                        }
                    },
                    None => None,
                }
            }
        },
        None => None,
    }
}

/// What a comparison on the `date` field means.
pub open spec fn cmp_date_op(op: CmpOp, a: Date, b: Date) -> bool {
    match op {
        CmpOp::CEq => a == b,
        CmpOp::CNe => a != b,
        CmpOp::CLt => date_lt(a, b),
        CmpOp::CLe => date_le(a, b),
        CmpOp::CGt => date_lt(b, a),
        CmpOp::CGe => date_le(b, a),
    }
}

/// What a comparison on the `event` field means: lexicographic,
/// case-sensitive, a strict prefix sorts first.
pub open spec fn cmp_event_op(op: CmpOp, a: Seq<char>, b: Seq<char>) -> bool {
    match op {
        CmpOp::CEq => a == b,
        CmpOp::CNe => a != b,
        CmpOp::CLt => lex_lt(a, b),
        CmpOp::CLe => lex_lt(a, b) || a == b,
        CmpOp::CGt => lex_lt(b, a),
        CmpOp::CGe => lex_lt(b, a) || a == b,
    }
}

/// What a filter clause means on one record.
pub open spec fn sp_eval(e: SExpr, d: Date, ev: Seq<char>) -> bool
    decreases e,
{
    match e {
        SExpr::Always => true,
        SExpr::CmpDate(op, b) => cmp_date_op(op, d, b),
        SExpr::CmpEvent(op, b) => cmp_event_op(op, ev, b),
        SExpr::And(l, r) => sp_eval(*l, d, ev) && sp_eval(*r, d, ev),
        SExpr::Or(l, r) => sp_eval(*l, d, ev) || sp_eval(*r, d, ev),
    }
}

/// Evaluates a filter clause on one record.
pub fn eval(e: &Expr, d: &Date, ev: &Vec<char>) -> (r: bool)
    ensures
        r == sp_eval(e@, *d, ev@),
    decreases e,
{
    match e {
        Expr::Always => true,
        Expr::CmpDate(op, b) => {
            match op {
                CmpOp::CEq => d.year == b.year && d.month == b.month && d.day == b.day,
                CmpOp::CNe => !(d.year == b.year && d.month == b.month && d.day == b.day),
                CmpOp::CLt => date_lt_exec(d, b),
                CmpOp::CLe => date_le_exec(d, b),
                CmpOp::CGt => date_lt_exec(b, d),
                CmpOp::CGe => date_le_exec(b, d),
            }
        },
        Expr::CmpEvent(op, b) => {
            match op {
                CmpOp::CEq => chars_eq(ev, b),
                CmpOp::CNe => !chars_eq(ev, b),
                CmpOp::CLt => lex_lt_exec(ev, b),
                CmpOp::CLe => lex_lt_exec(ev, b) || chars_eq(ev, b),
                CmpOp::CGt => lex_lt_exec(b, ev),
                CmpOp::CGe => lex_lt_exec(b, ev) || chars_eq(ev, b),
            }
        },
        Expr::And(l, r) => eval(l, d, ev) && eval(r, d, ev),
        Expr::Or(l, r) => eval(l, d, ev) || eval(r, d, ev),
    }
}

} // verus!
