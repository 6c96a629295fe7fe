//! The formula parser: a recursive descent over nested tokens.
//!
//! Precedence, loosest first: `||`, `&&`, the comparisons (non-associative),
//! `>>` (left-associative in text; the lowering re-nests the chain to the
//! right), `+ -`, `* /`, unary `!`, then atoms: integer and boolean literals,
//! identifiers, calls, parenthesised formulas and the three annotation
//! macros, whose argument tokens are carried along unparsed.
//!
//! Each function carries explicit fuel so that the executable parser and its
//! mathematical mirror agree step for step.

use vstd::prelude::*;

use crate::ast::{
    BinOp, Delim, Expr, ExprV, MacroKind, Token, TokenV, UnOp, duplicate_tokens,
    lemma_view_tokens_index, lemma_view_tokens_len, view_exprs, view_token, view_tokens,
};

verus! {

/// Saturating addition on machine words.
pub open spec fn sat_add(a: usize, b: usize) -> usize {
    if a + b > usize::MAX {
        usize::MAX
    } else {
        (a + b) as usize
    }
}

/// The size of one token; groups count their contents.
pub open spec fn size_tok(t: TokenV) -> usize
    decreases t,
{
    match t {
        TokenV::Group(_, inner) => sat_add(1, size_toks(inner)),
        _ => 1,
    }
}

/// The size of a token sequence.
pub open spec fn size_toks(ts: Seq<TokenV>) -> usize
    decreases ts,
{
    if ts.len() == 0 {
        0
    } else {
        sat_add(size_tok(ts[0]), size_toks(ts.drop_first()))
    }
}

/// The fuel the parser starts with: ample for any formula whose nesting is
/// bounded by its size.
pub open spec fn fuel_for(ts: Seq<TokenV>) -> usize {
    if size_toks(ts) > (usize::MAX - 32) / 32 {
        usize::MAX
    } else {
        (size_toks(ts) * 32 + 32) as usize
    }
}

pub open spec fn is_punct_tok(t: TokenV, b: u8) -> bool {
    t is Punct && t->Punct_0 == b
}

/// Two joint punctuation tokens spelling a two-byte operator.
pub open spec fn is_op2(ts: Seq<TokenV>, i: int, a: u8, b: u8) -> bool {
    0 <= i && i + 1 < ts.len() && is_punct_tok(ts[i], a) && ts[i]->Punct_1 == true && is_punct_tok(
        ts[i + 1],
        b,
    )
}

pub open spec fn is_op1(ts: Seq<TokenV>, i: int, a: u8) -> bool {
    0 <= i < ts.len() && is_punct_tok(ts[i], a)
}

pub open spec fn kw_true() -> Seq<u8> {
    seq![('t' as u8), ('r' as u8), ('u' as u8), ('e' as u8)]
}

pub open spec fn kw_false() -> Seq<u8> {
    seq![('f' as u8), ('a' as u8), ('l' as u8), ('s' as u8), ('e' as u8)]
}

/// Which annotation macro a name denotes.
pub open spec fn macro_kind_of(name: Seq<u8>) -> Option<MacroKind> {
    if name == crate::print::macro_name_spec(MacroKind::Pre) {
        Some(MacroKind::Pre)
    } else if name == crate::print::macro_name_spec(MacroKind::Post) {
        Some(MacroKind::Post)
    } else if name == crate::print::macro_name_spec(MacroKind::Invariant) {
        Some(MacroKind::Invariant)
    } else {
        None
    }
}

pub open spec fn mk_bin(op: BinOp, l: ExprV, r: ExprV) -> ExprV {
    ExprV::Binary(op, Box::new(l), Box::new(r))
}

/// `||` chains, left-associative.
pub open spec fn p_or(ts: Seq<TokenV>, i: int, fuel: nat) -> Option<(ExprV, int)>
    decreases fuel,
{
    if fuel == 0 {
        None
    } else {
        match p_and(ts, i, (fuel - 1) as nat) {
            Some((l, j)) => p_or_more(ts, j, l, (fuel - 1) as nat),
            None => None,
        }
    }
}

pub open spec fn p_or_more(ts: Seq<TokenV>, i: int, acc: ExprV, fuel: nat) -> Option<(ExprV, int)>
    decreases fuel,
{
    if fuel == 0 {
        None
    } else if is_op2(ts, i, ('|' as u8), ('|' as u8)) {
        match p_and(ts, i + 2, (fuel - 1) as nat) {
            Some((r, j)) => p_or_more(ts, j, mk_bin(BinOp::Or, acc, r), (fuel - 1) as nat),
            None => None,
        }
    } else {
        Some((acc, i))
    }
}

/// `&&` chains, left-associative.
pub open spec fn p_and(ts: Seq<TokenV>, i: int, fuel: nat) -> Option<(ExprV, int)>
    decreases fuel,
{
    if fuel == 0 {
        None
    } else {
        match p_cmp(ts, i, (fuel - 1) as nat) {
            Some((l, j)) => p_and_more(ts, j, l, (fuel - 1) as nat),
            None => None,
        }
    }
}

pub open spec fn p_and_more(ts: Seq<TokenV>, i: int, acc: ExprV, fuel: nat) -> Option<
    (ExprV, int),
>
    decreases fuel,
{
    if fuel == 0 {
        None
    } else if is_op2(ts, i, ('&' as u8), ('&' as u8)) {
        match p_cmp(ts, i + 2, (fuel - 1) as nat) {
            Some((r, j)) => p_and_more(ts, j, mk_bin(BinOp::And, acc, r), (fuel - 1) as nat),
            None => None,
        }
    } else {
        Some((acc, i))
    }
}

/// One optional comparison, non-associative.
pub open spec fn p_cmp(ts: Seq<TokenV>, i: int, fuel: nat) -> Option<(ExprV, int)>
    decreases fuel,
{
    if fuel == 0 {
        None
    } else {
        match p_shift(ts, i, (fuel - 1) as nat) {
            Some((l, j)) => {
                let op = if is_op2(ts, j, ('=' as u8), ('=' as u8)) {
                    Some((BinOp::Eq, 2int))
                } else if is_op2(ts, j, ('<' as u8), ('=' as u8)) {
                    Some((BinOp::Le, 2int))
                } else if is_op2(ts, j, ('>' as u8), ('=' as u8)) {
                    Some((BinOp::Ge, 2int))
                } else if is_op1(ts, j, ('<' as u8)) {
                    Some((BinOp::Lt, 1int))
                } else if is_op1(ts, j, ('>' as u8)) {
                    Some((BinOp::Gt, 1int))
                } else {
                    None
                };
                match op {
                    Some((o, w)) => match p_shift(ts, j + w, (fuel - 1) as nat) {
                        Some((r, k)) => Some((mk_bin(o, l, r), k)),
                        None => None,
                    },
                    None => Some((l, j)),
                }
            },
            None => None,
        }
    }
}

/// `>>` chains, left-associative.
pub open spec fn p_shift(ts: Seq<TokenV>, i: int, fuel: nat) -> Option<(ExprV, int)>
    decreases fuel,
{
    if fuel == 0 {
        None
    } else {
        match p_add(ts, i, (fuel - 1) as nat) {
            Some((l, j)) => p_shift_more(ts, j, l, (fuel - 1) as nat),
            None => None,
        }
    }
}

pub open spec fn p_shift_more(ts: Seq<TokenV>, i: int, acc: ExprV, fuel: nat) -> Option<
    (ExprV, int),
>
    decreases fuel,
{
    if fuel == 0 {
        None
    } else if is_op2(ts, i, ('>' as u8), ('>' as u8)) {
        match p_add(ts, i + 2, (fuel - 1) as nat) {
            Some((r, j)) => p_shift_more(ts, j, mk_bin(BinOp::Imp, acc, r), (fuel - 1) as nat),
            None => None,
        }
    } else {
        Some((acc, i))
    }
}

/// `+` and `-` chains, left-associative.
pub open spec fn p_add(ts: Seq<TokenV>, i: int, fuel: nat) -> Option<(ExprV, int)>
    decreases fuel,
{
    if fuel == 0 {
        None
    } else {
        match p_mul(ts, i, (fuel - 1) as nat) {
            Some((l, j)) => p_add_more(ts, j, l, (fuel - 1) as nat),
            None => None,
        }
    }
}

pub open spec fn p_add_more(ts: Seq<TokenV>, i: int, acc: ExprV, fuel: nat) -> Option<
    (ExprV, int),
>
    decreases fuel,
{
    if fuel == 0 {
        None
    } else if is_op1(ts, i, ('+' as u8)) {
        match p_mul(ts, i + 1, (fuel - 1) as nat) {
            Some((r, j)) => p_add_more(ts, j, mk_bin(BinOp::Add, acc, r), (fuel - 1) as nat),
            None => None,
        }
    } else if is_op1(ts, i, ('-' as u8)) {
        match p_mul(ts, i + 1, (fuel - 1) as nat) {
            Some((r, j)) => p_add_more(ts, j, mk_bin(BinOp::Sub, acc, r), (fuel - 1) as nat),
            None => None,
        }
    } else {
        Some((acc, i))
    }
}

/// `*` and `/` chains, left-associative.
pub open spec fn p_mul(ts: Seq<TokenV>, i: int, fuel: nat) -> Option<(ExprV, int)>
    decreases fuel,
{
    if fuel == 0 {
        None
    } else {
        match p_unary(ts, i, (fuel - 1) as nat) {
            Some((l, j)) => p_mul_more(ts, j, l, (fuel - 1) as nat),
            None => None,
        }
    }
}

pub open spec fn p_mul_more(ts: Seq<TokenV>, i: int, acc: ExprV, fuel: nat) -> Option<
    (ExprV, int),
>
    decreases fuel,
{
    if fuel == 0 {
        None
    } else if is_op1(ts, i, ('*' as u8)) {
        match p_unary(ts, i + 1, (fuel - 1) as nat) {
            Some((r, j)) => p_mul_more(ts, j, mk_bin(BinOp::Mul, acc, r), (fuel - 1) as nat),
            None => None,
        }
    } else if is_op1(ts, i, ('/' as u8)) {
        match p_unary(ts, i + 1, (fuel - 1) as nat) {
            Some((r, j)) => p_mul_more(ts, j, mk_bin(BinOp::Div, acc, r), (fuel - 1) as nat),
            None => None,
        }
    } else {
        Some((acc, i))
    }
}

/// Unary negation.
pub open spec fn p_unary(ts: Seq<TokenV>, i: int, fuel: nat) -> Option<(ExprV, int)>
    decreases fuel,
{
    if fuel == 0 {
        None
    } else if is_op1(ts, i, ('!' as u8)) {
        match p_unary(ts, i + 1, (fuel - 1) as nat) {
            Some((e, j)) => Some((ExprV::Unary(UnOp::Not, Box::new(e)), j)),
            None => None,
        }
    } else {
        p_primary(ts, i, (fuel - 1) as nat)
    }
}

/// Atoms: literals, identifiers, calls, annotation macros and parenthesised
/// formulas.
pub open spec fn p_primary(ts: Seq<TokenV>, i: int, fuel: nat) -> Option<(ExprV, int)>
    decreases fuel,
{
    if fuel == 0 || i < 0 || i >= ts.len() {
        None
    } else {
        match ts[i] {
            TokenV::Lit(text) => Some((ExprV::Lit(text), i + 1)),
            TokenV::Ident(name) => if name == kw_true() {
                Some((ExprV::BoolLit(true), i + 1))
            } else if name == kw_false() {
                Some((ExprV::BoolLit(false), i + 1))
            } else if i + 2 < ts.len() && is_punct_tok(ts[i + 1], ('!' as u8)) && ts[i + 2]
                is Group && ts[i + 2]->Group_0 == Delim::Paren {
                match macro_kind_of(name) {
                    Some(k) => Some((ExprV::MacroCall(k, ts[i + 2]->Group_1), i + 3)),
                    None => None,
                }
            } else if i + 1 < ts.len() && ts[i + 1] is Group && ts[i + 1]->Group_0
                == Delim::Paren {
                let inner = ts[i + 1]->Group_1;
                match p_args(inner, 0, (fuel - 1) as nat) {
                    Some((args, j2)) => if j2 == inner.len() {
                        Some((ExprV::Call(Box::new(ExprV::Var(name)), args), i + 2))
                    } else {
                        None
                    },
                    None => None,
                }
            } else {
                Some((ExprV::Var(name), i + 1))
            },
            TokenV::Group(Delim::Paren, inner) => match p_or(inner, 0, (fuel - 1) as nat) {
                Some((e, j)) => if j == inner.len() {
                    Some((ExprV::Paren(Box::new(e)), i + 1))
                } else {
                    None
                },
                None => None,
            },
            _ => None,
        }
    }
}

/// A comma-separated argument list, consumed to the end of the group.
pub open spec fn p_args(ts: Seq<TokenV>, i: int, fuel: nat) -> Option<(Seq<ExprV>, int)>
    decreases fuel,
{
    if fuel == 0 {
        None
    } else if i >= ts.len() {
        Some((Seq::empty(), i))
    } else {
        match p_or(ts, i, (fuel - 1) as nat) {
            Some((e, j)) => if j >= ts.len() {
                Some((seq![e], j))
            } else if is_op1(ts, j, (',' as u8)) {
                match p_args(ts, j + 1, (fuel - 1) as nat) {
                    Some((rest, k)) => Some((seq![e] + rest, k)),
                    None => None,
                }
            } else {
                None
            },
            None => None,
        }
    }
}

/// What `parse_formula` returns: the full-token parse of the stream.
pub open spec fn parse_formula_spec(ts: Seq<TokenV>) -> Option<ExprV> {
    match p_or(ts, 0, fuel_for(ts) as nat) {
        Some((e, j)) => if j == ts.len() {
            Some(e)
        } else {
            None
        },
        None => None,
    }
}

/// Compares a name with a keyword's spelling.
fn name_matches(name: &[u8], kw: &Vec<u8>) -> (r: bool)
    ensures
        r == (name@ == kw@),
{
    crate::bytes_eq(name, kw.as_slice())
}

fn e_macro_kind_of(name: &[u8]) -> (r: Option<MacroKind>)
    ensures
        r == macro_kind_of(name@),
{
    let pre = crate::print::macro_name_bytes(MacroKind::Pre);
    let post = crate::print::macro_name_bytes(MacroKind::Post);
    let inv = crate::print::macro_name_bytes(MacroKind::Invariant);
    if name_matches(name, &pre) {
        Some(MacroKind::Pre)
    } else if name_matches(name, &post) {
        Some(MacroKind::Post)
    } else if name_matches(name, &inv) {
        Some(MacroKind::Invariant)
    } else {
        None
    }
}

/// Whether the token at `i` is the punctuation byte `a`.
fn e_is_op1(ts: &Vec<Token>, i: usize, a: u8) -> (r: bool)
    ensures
        r == is_op1(view_tokens(ts@), i as int, a),
{
    broadcast use lemma_view_tokens_len, lemma_view_tokens_index;

    if i < ts.len() {
        match &ts[i] {
            Token::Punct(b, _) => *b == a,
            _ => false,
        }
    } else {
        false
    }
}

/// Whether the tokens at `i` spell the two-byte operator `a b`.
fn e_is_op2(ts: &Vec<Token>, i: usize, a: u8, b: u8) -> (r: bool)
    ensures
        r == is_op2(view_tokens(ts@), i as int, a, b),
{
    broadcast use lemma_view_tokens_len, lemma_view_tokens_index;

    if i < ts.len() && i + 1 < ts.len() {
        let first = match &ts[i] {
            Token::Punct(x, joint) => *x == a && *joint,
            _ => false,
        };
        let second = match &ts[i + 1] {
            Token::Punct(x, _) => *x == b,
            _ => false,
        };
        first && second
    } else {
        false
    }
}

pub fn e_or(ts: &Vec<Token>, i: usize, fuel: usize) -> (r: Option<(Expr, usize)>)
    ensures
        match r {
            Some(p) => p_or(view_tokens(ts@), i as int, fuel as nat) == Some((p.0@, p.1 as int))
                && i <= p.1 <= ts@.len(),
            None => p_or(view_tokens(ts@), i as int, fuel as nat) == None::<(ExprV, int)>,
        },
    decreases fuel,
{
    broadcast use lemma_view_tokens_len, vstd::std_specs::vec::axiom_spec_len;

    proof {
        assert(ts.len() == ts@.len());
    }
    if fuel == 0 {
        return None;
    }
    match e_and(ts, i, fuel - 1) {
        Some((l, j)) => e_or_more(ts, j, l, fuel - 1),
        None => None,
    }
}

fn e_or_more(ts: &Vec<Token>, i: usize, acc: Expr, fuel: usize) -> (r: Option<(Expr, usize)>)
    requires
        i <= ts@.len(),
    ensures
        match r {
            Some(p) => p_or_more(view_tokens(ts@), i as int, acc@, fuel as nat) == Some(
                (p.0@, p.1 as int),
            ) && i <= p.1 <= ts@.len(),
            None => p_or_more(view_tokens(ts@), i as int, acc@, fuel as nat) == None::<
                (ExprV, int),
            >,
        },
    decreases fuel,
{
    broadcast use lemma_view_tokens_len, vstd::std_specs::vec::axiom_spec_len;

    proof {
        assert(ts.len() == ts@.len());
    }
    if fuel == 0 {
        return None;
    }
    if e_is_op2(ts, i, ('|' as u8), ('|' as u8)) {
        match e_and(ts, i + 2, fuel - 1) {
            Some((rhs, j)) => e_or_more(
                ts,
                j,
                Expr::Binary(BinOp::Or, Box::new(acc), Box::new(rhs)),
                fuel - 1,
            ),
            None => None,
        }
    } else {
        Some((acc, i))
    }
}

pub fn e_and(ts: &Vec<Token>, i: usize, fuel: usize) -> (r: Option<(Expr, usize)>)
    ensures
        match r {
            Some(p) => p_and(view_tokens(ts@), i as int, fuel as nat) == Some((p.0@, p.1 as int))
                && i <= p.1 <= ts@.len(),
            None => p_and(view_tokens(ts@), i as int, fuel as nat) == None::<(ExprV, int)>,
        },
    decreases fuel,
{
    broadcast use lemma_view_tokens_len, vstd::std_specs::vec::axiom_spec_len;

    proof {
        assert(ts.len() == ts@.len());
    }
    if fuel == 0 {
        return None;
    }
    match e_cmp(ts, i, fuel - 1) {
        Some((l, j)) => e_and_more(ts, j, l, fuel - 1),
        None => None,
    }
}

fn e_and_more(ts: &Vec<Token>, i: usize, acc: Expr, fuel: usize) -> (r: Option<(Expr, usize)>)
    requires
        i <= ts@.len(),
    ensures
        match r {
            Some(p) => p_and_more(view_tokens(ts@), i as int, acc@, fuel as nat) == Some(
                (p.0@, p.1 as int),
            ) && i <= p.1 <= ts@.len(),
            None => p_and_more(view_tokens(ts@), i as int, acc@, fuel as nat) == None::<
                (ExprV, int),
            >,
        },
    decreases fuel,
{
    broadcast use lemma_view_tokens_len, vstd::std_specs::vec::axiom_spec_len;

    proof {
        assert(ts.len() == ts@.len());
    }
    if fuel == 0 {
        return None;
    }
    if e_is_op2(ts, i, ('&' as u8), ('&' as u8)) {
        match e_cmp(ts, i + 2, fuel - 1) {
            Some((rhs, j)) => e_and_more(
                ts,
                j,
                Expr::Binary(BinOp::And, Box::new(acc), Box::new(rhs)),
                fuel - 1,
            ),
            None => None,
        }
    } else {
        Some((acc, i))
    }
}

#[verifier::rlimit(100)]
fn e_cmp(ts: &Vec<Token>, i: usize, fuel: usize) -> (r: Option<(Expr, usize)>)
    ensures
        match r {
            Some(p) => p_cmp(view_tokens(ts@), i as int, fuel as nat) == Some((p.0@, p.1 as int))
                && i <= p.1 <= ts@.len(),
            None => p_cmp(view_tokens(ts@), i as int, fuel as nat) == None::<(ExprV, int)>,
        },
    decreases fuel,
{
    broadcast use lemma_view_tokens_len, vstd::std_specs::vec::axiom_spec_len;

    proof {
        assert(ts.len() == ts@.len());
    }
    if fuel == 0 {
        return None;
    }
    match e_shift(ts, i, fuel - 1) {
        Some((l, j)) => {
            let op: Option<(BinOp, usize)> = if e_is_op2(ts, j, ('=' as u8), ('=' as u8)) {
                Some((BinOp::Eq, 2usize))
            } else if e_is_op2(ts, j, ('<' as u8), ('=' as u8)) {
                Some((BinOp::Le, 2))
            } else if e_is_op2(ts, j, ('>' as u8), ('=' as u8)) {
                Some((BinOp::Ge, 2))
            } else if e_is_op1(ts, j, ('<' as u8)) {
                Some((BinOp::Lt, 1))
            } else if e_is_op1(ts, j, ('>' as u8)) {
                Some((BinOp::Gt, 1))
            } else {
                None
            };
            match op {
                Some((o, w)) => match e_shift(ts, j + w, fuel - 1) {
                    Some((rhs, k)) => Some(
                        (Expr::Binary(o, Box::new(l), Box::new(rhs)), k),
                    ),
                    None => None,
                },
                None => Some((l, j)),
            }
        },
        None => None,
    }
}

fn e_shift(ts: &Vec<Token>, i: usize, fuel: usize) -> (r: Option<(Expr, usize)>)
    ensures
        match r {
            Some(p) => p_shift(view_tokens(ts@), i as int, fuel as nat) == Some(
                (p.0@, p.1 as int),
            ) && i <= p.1 <= ts@.len(),
            None => p_shift(view_tokens(ts@), i as int, fuel as nat) == None::<(ExprV, int)>,
        },
    decreases fuel,
{
    broadcast use lemma_view_tokens_len, vstd::std_specs::vec::axiom_spec_len;

    proof {
        assert(ts.len() == ts@.len());
    }
    if fuel == 0 {
        return None;
    }
    match e_add(ts, i, fuel - 1) {
        Some((l, j)) => e_shift_more(ts, j, l, fuel - 1),
        None => None,
    }
}

fn e_shift_more(ts: &Vec<Token>, i: usize, acc: Expr, fuel: usize) -> (r: Option<(Expr, usize)>)
    requires
        i <= ts@.len(),
    ensures
        match r {
            Some(p) => p_shift_more(view_tokens(ts@), i as int, acc@, fuel as nat) == Some(
                (p.0@, p.1 as int),
            ) && i <= p.1 <= ts@.len(),
            None => p_shift_more(view_tokens(ts@), i as int, acc@, fuel as nat) == None::<
                (ExprV, int),
            >,
        },
    decreases fuel,
{
    broadcast use lemma_view_tokens_len, vstd::std_specs::vec::axiom_spec_len;

    proof {
        assert(ts.len() == ts@.len());
    }
    if fuel == 0 {
        return None;
    }
    if e_is_op2(ts, i, ('>' as u8), ('>' as u8)) {
        match e_add(ts, i + 2, fuel - 1) {
            Some((rhs, j)) => e_shift_more(
                ts,
                j,
                Expr::Binary(BinOp::Imp, Box::new(acc), Box::new(rhs)),
                fuel - 1,
            ),
            None => None,
        }
    } else {
        Some((acc, i))
    }
}

fn e_add(ts: &Vec<Token>, i: usize, fuel: usize) -> (r: Option<(Expr, usize)>)
    ensures
        match r {
            Some(p) => p_add(view_tokens(ts@), i as int, fuel as nat) == Some((p.0@, p.1 as int))
                && i <= p.1 <= ts@.len(),
            None => p_add(view_tokens(ts@), i as int, fuel as nat) == None::<(ExprV, int)>,
        },
    decreases fuel,
{
    broadcast use lemma_view_tokens_len, vstd::std_specs::vec::axiom_spec_len;

    proof {
        assert(ts.len() == ts@.len());
    }
    if fuel == 0 {
        return None;
    }
    match e_mul(ts, i, fuel - 1) {
        Some((l, j)) => e_add_more(ts, j, l, fuel - 1),
        None => None,
    }
}

fn e_add_more(ts: &Vec<Token>, i: usize, acc: Expr, fuel: usize) -> (r: Option<(Expr, usize)>)
    requires
        i <= ts@.len(),
    ensures
        match r {
            Some(p) => p_add_more(view_tokens(ts@), i as int, acc@, fuel as nat) == Some(
                (p.0@, p.1 as int),
            ) && i <= p.1 <= ts@.len(),
            None => p_add_more(view_tokens(ts@), i as int, acc@, fuel as nat) == None::<
                (ExprV, int),
            >,
        },
    decreases fuel,
{
    broadcast use lemma_view_tokens_len, vstd::std_specs::vec::axiom_spec_len;

    proof {
        assert(ts.len() == ts@.len());
    }
    if fuel == 0 {
        return None;
    }
    if e_is_op1(ts, i, ('+' as u8)) {
        match e_mul(ts, i + 1, fuel - 1) {
            Some((rhs, j)) => e_add_more(
                ts,
                j,
                Expr::Binary(BinOp::Add, Box::new(acc), Box::new(rhs)),
                fuel - 1,
            ),
            None => None,
        }
    } else if e_is_op1(ts, i, ('-' as u8)) {
        match e_mul(ts, i + 1, fuel - 1) {
            Some((rhs, j)) => e_add_more(
                ts,
                j,
                Expr::Binary(BinOp::Sub, Box::new(acc), Box::new(rhs)),
                fuel - 1,
            ),
            None => None,
        }
    } else {
        Some((acc, i))
    }
}

fn e_mul(ts: &Vec<Token>, i: usize, fuel: usize) -> (r: Option<(Expr, usize)>)
    ensures
        match r {
            Some(p) => p_mul(view_tokens(ts@), i as int, fuel as nat) == Some((p.0@, p.1 as int))
                && i <= p.1 <= ts@.len(),
            None => p_mul(view_tokens(ts@), i as int, fuel as nat) == None::<(ExprV, int)>,
        },
    decreases fuel,
{
    broadcast use lemma_view_tokens_len, vstd::std_specs::vec::axiom_spec_len;

    proof {
        assert(ts.len() == ts@.len());
    }
    if fuel == 0 {
        return None;
    }
    match e_unary(ts, i, fuel - 1) {
        Some((l, j)) => e_mul_more(ts, j, l, fuel - 1),
        None => None,
    }
}

fn e_mul_more(ts: &Vec<Token>, i: usize, acc: Expr, fuel: usize) -> (r: Option<(Expr, usize)>)
    requires
        i <= ts@.len(),
    ensures
        match r {
            Some(p) => p_mul_more(view_tokens(ts@), i as int, acc@, fuel as nat) == Some(
                (p.0@, p.1 as int),
            ) && i <= p.1 <= ts@.len(),
            None => p_mul_more(view_tokens(ts@), i as int, acc@, fuel as nat) == None::<
                (ExprV, int),
            >,
        },
    decreases fuel,
{
    broadcast use lemma_view_tokens_len, vstd::std_specs::vec::axiom_spec_len;

    proof {
        assert(ts.len() == ts@.len());
    }
    if fuel == 0 {
        return None;
    }
    if e_is_op1(ts, i, ('*' as u8)) {
        match e_unary(ts, i + 1, fuel - 1) {
            Some((rhs, j)) => e_mul_more(
                ts,
                j,
                Expr::Binary(BinOp::Mul, Box::new(acc), Box::new(rhs)),
                fuel - 1,
            ),
            None => None,
        }
    } else if e_is_op1(ts, i, ('/' as u8)) {
        match e_unary(ts, i + 1, fuel - 1) {
            Some((rhs, j)) => e_mul_more(
                ts,
                j,
                Expr::Binary(BinOp::Div, Box::new(acc), Box::new(rhs)),
                fuel - 1,
            ),
            None => None,
        }
    } else {
        Some((acc, i))
    }
}

fn e_unary(ts: &Vec<Token>, i: usize, fuel: usize) -> (r: Option<(Expr, usize)>)
    ensures
        match r {
            Some(p) => p_unary(view_tokens(ts@), i as int, fuel as nat) == Some(
                (p.0@, p.1 as int),
            ) && i <= p.1 <= ts@.len(),
            None => p_unary(view_tokens(ts@), i as int, fuel as nat) == None::<(ExprV, int)>,
        },
    decreases fuel,
{
    broadcast use lemma_view_tokens_len, vstd::std_specs::vec::axiom_spec_len;

    proof {
        assert(ts.len() == ts@.len());
    }
    if fuel == 0 {
        return None;
    }
    if e_is_op1(ts, i, ('!' as u8)) {
        match e_unary(ts, i + 1, fuel - 1) {
            Some((e, j)) => Some((Expr::Unary(UnOp::Not, Box::new(e)), j)),
            None => None,
        }
    } else {
        e_primary(ts, i, fuel - 1)
    }
}

#[verifier::rlimit(100)]
fn e_primary(ts: &Vec<Token>, i: usize, fuel: usize) -> (r: Option<(Expr, usize)>)
    ensures
        match r {
            Some(p) => p_primary(view_tokens(ts@), i as int, fuel as nat) == Some(
                (p.0@, p.1 as int),
            ) && i <= p.1 <= ts@.len(),
            None => p_primary(view_tokens(ts@), i as int, fuel as nat) == None::<(ExprV, int)>,
        },
    decreases fuel,
{
    broadcast use lemma_view_tokens_len, lemma_view_tokens_index,
        vstd::std_specs::vec::axiom_spec_len;

    proof {
        assert(ts.len() == ts@.len());
    }
    if fuel == 0 || i >= ts.len() {
        return None;
    }
    let ghost tv = view_tokens(ts@);
    proof {
        assert(tv[i as int] == view_token(ts@[i as int]));
    }
    match &ts[i] {
        Token::Lit(text) => Some((Expr::Lit(text.clone()), i + 1)),
        Token::Ident(name) => {
            let mut tru: Vec<u8> = Vec::new();
            tru.push(('t' as u8));
            tru.push(('r' as u8));
            tru.push(('u' as u8));
            tru.push(('e' as u8));
            let mut fls: Vec<u8> = Vec::new();
            fls.push(('f' as u8));
            fls.push(('a' as u8));
            fls.push(('l' as u8));
            fls.push(('s' as u8));
            fls.push(('e' as u8));
            proof {
                assert(tru@ =~= kw_true());
                assert(fls@ =~= kw_false());
            }
            if name_matches(name.as_slice(), &tru) {
                Some((Expr::BoolLit(true), i + 1))
            } else if name_matches(name.as_slice(), &fls) {
                Some((Expr::BoolLit(false), i + 1))
            } else {
                let bang_group = ts.len() - i > 2 && e_is_op1(ts, i + 1, ('!' as u8)) && (
                match &ts[i + 2] {
                    Token::Group(Delim::Paren, _) => true,
                    _ => false,
                });
                if bang_group {
                    proof {
                        assert(is_punct_tok(tv[i as int + 1], ('!' as u8)));
                        assert(tv[i + 2] is Group && tv[i + 2]->Group_0 == Delim::Paren);
                    }
                    match e_macro_kind_of(name.as_slice()) {
                        Some(k) => {
                            let inner = match &ts[i + 2] {
                                Token::Group(_, inner) => inner,
                                _ => {
                                    proof {
                                        assert(false);
                                    }
                                    return None;
                                },
                            };
                            Some((Expr::MacroCall(k, duplicate_tokens(inner)), i + 3))
                        },
                        None => None,
                    }
                } else {
                    let call_group = ts.len() - i > 1 && (match &ts[i + 1] {
                        Token::Group(Delim::Paren, _) => true,
                        _ => false,
                    });
                    if call_group {
                        proof {
                            assert(tv[i + 1] is Group && tv[i + 1]->Group_0 == Delim::Paren);
                        }
                        let inner = match &ts[i + 1] {
                            Token::Group(_, inner) => inner,
                            _ => {
                                proof {
                                    assert(false);
                                }
                                return None;
                            },
                        };
                        match e_args(inner, 0, fuel - 1) {
                            Some((args, j2)) => {
                                if j2 == inner.len() {
                                    let func = Expr::Var(name.clone());
                                    proof {
                                        assert(func@ == ExprV::Var(name@));
                                    }
                                    Some((Expr::Call(Box::new(func), args), i + 2))
                                } else {
                                    None
                                }
                            },
                            None => None,
                        }
                    } else {
                        Some((Expr::Var(name.clone()), i + 1))
                    }
                }
            }
        },
        Token::Group(d, inner) => {
            let is_paren = match d {
                Delim::Paren => true,
                _ => false,
            };
            if is_paren {
                proof {
                    assert(tv[i as int] is Group && tv[i as int]->Group_0 == Delim::Paren);
                }
                match e_or(inner, 0, fuel - 1) {
                    Some((e, j)) => {
                        if j == inner.len() {
                            Some((Expr::Paren(Box::new(e)), i + 1))
                        } else {
                            None
                        }
                    },
                    None => None,
                }
            } else {
                None
            }
        },
        _ => None,
    }
}

#[verifier::rlimit(100)]
fn e_args(ts: &Vec<Token>, i: usize, fuel: usize) -> (r: Option<(Vec<Expr>, usize)>)
    requires
        i <= ts@.len(),
    ensures
        match r {
            Some(p) => p_args(view_tokens(ts@), i as int, fuel as nat) == Some(
                (view_exprs(p.0@), p.1 as int),
            ) && i <= p.1 <= ts@.len(),
            None => p_args(view_tokens(ts@), i as int, fuel as nat) == None::<(Seq<ExprV>, int)>,
        },
    decreases fuel,
{
    broadcast use lemma_view_tokens_len, vstd::std_specs::vec::axiom_spec_len;

    proof {
        assert(ts.len() == ts@.len());
    }
    if fuel == 0 {
        return None;
    }
    if i >= ts.len() {
        let empty: Vec<Expr> = Vec::new();
        proof {
            assert(view_exprs(empty@) =~= Seq::<ExprV>::empty());
        }
        return Some((empty, i));
    }
    match e_or(ts, i, fuel - 1) {
        Some((e, j)) => {
            if j >= ts.len() {
                let mut one: Vec<Expr> = Vec::new();
                let ghost ev = e@;
                one.push(e);
                proof {
                    assert(view_exprs(one@) =~= seq![ev]) by {
                        reveal_with_fuel(view_exprs, 2);
                        assert(one@.drop_first() =~= Seq::<Expr>::empty());
                    }
                }
                Some((one, j))
            } else if e_is_op1(ts, j, (',' as u8)) {
                match e_args(ts, j + 1, fuel - 1) {
                    Some((rest, k)) => {
                        let mut out: Vec<Expr> = Vec::new();
                        let ghost ev = e@;
                        let ghost restv = view_exprs(rest@);
                        let ghost restvec = rest@;
                        out.push(e);
                        let mut rest = rest;
                        out.append(&mut rest);
                        proof {
                            assert(view_exprs(out@) =~= seq![ev] + restv) by {
                                assert(out@ =~= Seq::<Expr>::empty().push(out@[0]) + restvec);
                                crate::ast::lemma_view_exprs_concat(
                                    Seq::<Expr>::empty().push(out@[0]),
                                    restvec,
                                );
                                assert(view_exprs(Seq::<Expr>::empty().push(out@[0])) =~= seq![
                                    ev,
                                ]) by {
                                    reveal_with_fuel(view_exprs, 2);
                                    assert(Seq::<Expr>::empty().push(out@[0]).drop_first() =~= Seq::<
                                        Expr,
                                    >::empty());
                                }
                            }
                        }
                        Some((out, k))
                    },
                    None => None,
                }
            } else {
                None
            }
        },
        None => None,
    }
}

/// The size of a token list, saturating at the machine-word bound.
pub fn size_toks_exec(ts: &Vec<Token>, from: usize) -> (r: usize)
    requires
        from <= ts@.len(),
    ensures
        r == size_toks(view_tokens(ts@).skip(from as int)),
    decreases ts@.skip(from as int),
{
    broadcast use lemma_view_tokens_len, lemma_view_tokens_index;

    let ghost tail = view_tokens(ts@).skip(from as int);
    if from >= ts.len() {
        proof {
            assert(tail =~= Seq::<TokenV>::empty());
        }
        0
    } else {
        proof {
            assert(ts@.skip(from as int)[0] == ts@[from as int]);
            assert(tail[0] == view_tokens(ts@)[from as int]);
        }
        let head_size: usize = match &ts[from] {
            Token::Group(_, inner) => {
                proof {
                    assert(inner@.skip(0) =~= inner@);
                    assert(view_tokens(inner@).skip(0) =~= view_tokens(inner@));
                }
                let inner_size = size_toks_exec(inner, 0);
                let h = if inner_size > usize::MAX - 1 {
                    usize::MAX
                } else {
                    1 + inner_size
                };
                proof {
                    assert(h == size_tok(tail[0]));
                }
                h
            },
            _ => {
                proof {
                    assert(size_tok(tail[0]) == 1);
                }
                1
            },
        };
        proof {
            assert(ts@.skip(from as int).drop_first() =~= ts@.skip(from as int + 1));
        }
        let rest = size_toks_exec(ts, from + 1);
        proof {
            assert(tail.drop_first() =~= view_tokens(ts@).skip(from as int + 1));
        }
        if head_size > usize::MAX - rest {
            usize::MAX
        } else {
            head_size + rest
        }
    }
}

/// Parses a complete token stream as one formula of the grammar.
#[verifier::rlimit(100)]
pub fn parse_formula(ts: &Vec<Token>) -> (r: Option<Expr>)
    ensures
        match r {
            Some(e) => parse_formula_spec(view_tokens(ts@)) == Some(e@),
            None => parse_formula_spec(view_tokens(ts@)) == None::<ExprV>,
        },
{
    broadcast use lemma_view_tokens_len;

    proof {
        assert(view_tokens(ts@).skip(0) =~= view_tokens(ts@));
    }
    let size = size_toks_exec(ts, 0);
    let fuel: usize = if size > (usize::MAX - 32) / 32 {
        usize::MAX
    } else {
        size * 32 + 32
    };
    proof {
        assert(fuel == fuel_for(view_tokens(ts@)));
    }
    match e_or(ts, 0, fuel) {
        Some((e, j)) => {
            if j == ts.len() {
                Some(e)
            } else {
                None
            }
        },
        None => None,
    }
}

/// What `parse_formula_text` returns: lexing followed by parsing.
pub open spec fn parse_text_spec(s: Seq<u8>) -> Option<ExprV> {
    match crate::lex::lex_spec(s) {
        Some(ts) => parse_formula_spec(ts),
        None => None,
    }
}

/// Lexes and parses a formula text.
pub fn parse_formula_text(s: &[u8]) -> (r: Option<Expr>)
    ensures
        match r {
            Some(e) => parse_text_spec(s@) == Some(e@),
            None => parse_text_spec(s@) == None::<ExprV>,
        },
{
    match crate::lex::lex(s) {
        Some(ts) => parse_formula(&ts),
        None => None,
    }
}

} // verus!
