//! Capture-free textual substitution of a variable by an expression.
//!
//! Identifiers matching the target variable are replaced by the parenthesised
//! replacement; binary, unary, paren, call, if and block nodes are rebuilt
//! recursively. The argument streams of annotation macros are rewritten
//! token-by-token: an identifier token matching the target is spliced out for
//! the replacement's token form, groups recurse, and every other token passes
//! through unchanged.

use vstd::prelude::*;

use crate::ast::{
    Delim, Expr, ExprV, Token, TokenV, duplicate_tokens, free_in, free_in_seq, free_in_token,
    free_in_tokens, lemma_view_exprs_index, lemma_view_exprs_len, lemma_view_tokens_concat,
    lemma_view_tokens_index, lemma_view_tokens_len, lemma_view_tokens_unsnoc, view_exprs,
    view_token, view_tokens,
};
use crate::print::{expr_to_tokens, tokens_of_expr};

verus! {

/// The token sequence one token rewrites to: a matching identifier becomes
/// the replacement tokens `rts`, a group recurses, anything else stays.
pub open spec fn subst_token(t: TokenV, v: Seq<u8>, rts: Seq<TokenV>) -> Seq<TokenV>
    decreases t,
{
    match t {
        TokenV::Ident(name) => if name == v {
            rts
        } else {
            seq![t]
        },
        TokenV::Group(d, inner) => seq![TokenV::Group(d, subst_tokens(inner, v, rts))],
        _ => seq![t],
    }
}

/// Token-by-token substitution over a token sequence.
pub open spec fn subst_tokens(ts: Seq<TokenV>, v: Seq<u8>, rts: Seq<TokenV>) -> Seq<TokenV>
    decreases ts,
{
    if ts.len() == 0 {
        Seq::empty()
    } else {
        subst_token(ts[0], v, rts) + subst_tokens(ts.drop_first(), v, rts)
    }
}

/// Substitution of the variable `v` by the parenthesised replacement `r`
/// throughout an expression.
pub open spec fn subst_expr(e: ExprV, v: Seq<u8>, r: ExprV) -> ExprV
    decreases e,
{
    match e {
        ExprV::Var(name) => if name == v {
            ExprV::Paren(Box::new(r))
        } else {
            e
        },
        ExprV::Lit(_) => e,
        ExprV::BoolLit(_) => e,
        ExprV::Unary(op, inner) => ExprV::Unary(op, Box::new(subst_expr(*inner, v, r))),
        ExprV::Binary(op, l, r2) => ExprV::Binary(
            op,
            Box::new(subst_expr(*l, v, r)),
            Box::new(subst_expr(*r2, v, r)),
        ),
        ExprV::Paren(inner) => ExprV::Paren(Box::new(subst_expr(*inner, v, r))),
        ExprV::Call(f, args) => ExprV::Call(
            Box::new(subst_expr(*f, v, r)),
            subst_exprs(args, v, r),
        ),
        ExprV::If(c, t, els) => ExprV::If(
            Box::new(subst_expr(*c, v, r)),
            subst_exprs(t, v, r),
            match els {
                Some(e2) => Some(Box::new(subst_expr(*e2, v, r))),
                None => None,
            },
        ),
        ExprV::Block(stmts) => ExprV::Block(subst_exprs(stmts, v, r)),
        ExprV::MacroCall(k, ts) => ExprV::MacroCall(
            k,
            subst_tokens(ts, v, tokens_of_expr(ExprV::Paren(Box::new(r)))),
        ),
        ExprV::Opaque(_) => e,
    }
}

/// Substitution mapped over an expression sequence.
pub open spec fn subst_exprs(es: Seq<ExprV>, v: Seq<u8>, r: ExprV) -> Seq<ExprV>
    decreases es,
{
    if es.len() == 0 {
        Seq::empty()
    } else {
        seq![subst_expr(es[0], v, r)] + subst_exprs(es.drop_first(), v, r)
    }
}

/// Substitution maps a sequence elementwise, keeping its length.
pub proof fn lemma_subst_exprs_len(es: Seq<ExprV>, v: Seq<u8>, r: ExprV)
    ensures
        subst_exprs(es, v, r).len() == es.len(),
        forall|i: int|
            0 <= i < es.len() ==> subst_exprs(es, v, r)[i] == subst_expr(es[i], v, r),
    decreases es,
{
    if es.len() > 0 {
        lemma_subst_exprs_len(es.drop_first(), v, r);
    }
}

/// Substitution is the identity on an expression in which the target
/// variable does not occur: `subst(e, x, r) == e` whenever `x` is not free
/// in `e`.
pub proof fn lemma_subst_identity(e: ExprV, v: Seq<u8>, r: ExprV)
    requires
        !free_in(e, v),
    ensures
        subst_expr(e, v, r) == e,
    decreases e,
{
    match e {
        ExprV::Unary(op, inner) => {
            lemma_subst_identity(*inner, v, r);
        },
        ExprV::Binary(op, l, r2) => {
            lemma_subst_identity(*l, v, r);
            lemma_subst_identity(*r2, v, r);
        },
        ExprV::Paren(inner) => {
            lemma_subst_identity(*inner, v, r);
        },
        ExprV::Call(f, args) => {
            lemma_subst_identity(*f, v, r);
            lemma_subst_exprs_identity(args, v, r);
        },
        ExprV::If(c, t, els) => {
            lemma_subst_identity(*c, v, r);
            lemma_subst_exprs_identity(t, v, r);
            match els {
                Some(e2) => {
                    lemma_subst_identity(*e2, v, r);
                },
                None => {},
            }
        },
        ExprV::Block(stmts) => {
            lemma_subst_exprs_identity(stmts, v, r);
        },
        ExprV::MacroCall(k, ts) => {
            lemma_subst_tokens_identity(ts, v, tokens_of_expr(ExprV::Paren(Box::new(r))));
        },
        _ => {},
    }
}

/// The sequence form of the substitution identity law.
pub proof fn lemma_subst_exprs_identity(es: Seq<ExprV>, v: Seq<u8>, r: ExprV)
    requires
        !free_in_seq(es, v),
    ensures
        subst_exprs(es, v, r) == es,
    decreases es,
{
    if es.len() > 0 {
        lemma_subst_identity(es[0], v, r);
        lemma_subst_exprs_identity(es.drop_first(), v, r);
        assert(subst_exprs(es, v, r) =~= es);
    } else {
        assert(subst_exprs(es, v, r) =~= es);
    }
}

/// The token form of the substitution identity law: a token stream free of
/// the target identifier is returned unchanged.
pub proof fn lemma_subst_tokens_identity(ts: Seq<TokenV>, v: Seq<u8>, rts: Seq<TokenV>)
    requires
        !free_in_tokens(ts, v),
    ensures
        subst_tokens(ts, v, rts) == ts,
    decreases ts,
{
    if ts.len() > 0 {
        lemma_subst_token_identity(ts[0], v, rts);
        lemma_subst_tokens_identity(ts.drop_first(), v, rts);
        assert(subst_tokens(ts, v, rts) =~= ts);
    } else {
        assert(subst_tokens(ts, v, rts) =~= ts);
    }
}

/// The single-token form of the substitution identity law.
pub proof fn lemma_subst_token_identity(t: TokenV, v: Seq<u8>, rts: Seq<TokenV>)
    requires
        !free_in_token(t, v),
    ensures
        subst_token(t, v, rts) == seq![t],
    decreases t,
{
    match t {
        TokenV::Group(d, inner) => {
            lemma_subst_tokens_identity(inner, v, rts);
        },
        _ => {},
    }
}

/// Substitution preserves shape: on a binary node it returns a binary node
/// with the same operator, on an if it returns an if whose branch list keeps
/// its length and whose else-branch presence is unchanged, on a call it
/// returns a call with the same number of arguments, and on a unary or macro
/// node the operator or macro kind is kept.
pub proof fn lemma_subst_shape(e: ExprV, v: Seq<u8>, r: ExprV)
    ensures
        e is Binary ==> subst_expr(e, v, r) is Binary && subst_expr(e, v, r)->Binary_0 == e->Binary_0,
        e is If ==> subst_expr(e, v, r) is If && subst_expr(e, v, r)->If_1.len() == e->If_1.len()
            && (subst_expr(e, v, r)->If_2 is Some <==> e->If_2 is Some),
        e is Call ==> subst_expr(e, v, r) is Call && subst_expr(e, v, r)->Call_1.len()
            == e->Call_1.len(),
        e is Unary ==> subst_expr(e, v, r) is Unary && subst_expr(e, v, r)->Unary_0
            == e->Unary_0,
        e is MacroCall ==> subst_expr(e, v, r) is MacroCall && subst_expr(e, v, r)->MacroCall_0
            == e->MacroCall_0,
{
    match e {
        ExprV::Call(f, args) => {
            lemma_subst_exprs_len(args, v, r);
        },
        ExprV::If(c, t, els) => {
            lemma_subst_exprs_len(t, v, r);
        },
        _ => {},
    }
}

/// Rewrites the token list suffix starting at `i`, replacing identifier
/// tokens equal to `var` by the replacement tokens `rts`.
fn subst_tokens_from(ts: &Vec<Token>, i: usize, var: &[u8], rts: &Vec<Token>) -> (res: Vec<
    Token,
>)
    requires
        i <= ts@.len(),
    ensures
        view_tokens(res@) == subst_tokens(view_tokens(ts@).skip(i as int), var@, view_tokens(rts@)),
    decreases ts@.skip(i as int),
{
    broadcast use lemma_view_tokens_concat, lemma_view_tokens_len, lemma_view_tokens_index;

    let ghost tail = view_tokens(ts@).skip(i as int);
    if i >= ts.len() {
        let res: Vec<Token> = Vec::new();
        proof {
            assert(tail =~= Seq::<TokenV>::empty());
            assert(view_tokens(res@) =~= subst_tokens(tail, var@, view_tokens(rts@)));
        }
        res
    } else {
        proof {
            assert(ts@.skip(i as int)[0] == ts@[i as int]);
            assert(tail[0] == view_tokens(ts@)[i as int]);
        }
        let mut head = subst_one_token(&ts[i], var, rts);
        let ghost headv = head@;
        proof {
            assert(ts@.skip(i as int).drop_first() =~= ts@.skip(i as int + 1));
        }
        let mut rest = subst_tokens_from(ts, i + 1, var, rts);
        let ghost restv = rest@;
        head.append(&mut rest);
        proof {
            assert(tail.drop_first() =~= view_tokens(ts@).skip(i as int + 1));
            assert(head@ =~= headv + restv);
            assert(view_tokens(head@) =~= subst_tokens(tail, var@, view_tokens(rts@)));
        }
        head
    }
}

/// Rewrites one token.
fn subst_one_token(t: &Token, var: &[u8], rts: &Vec<Token>) -> (res: Vec<Token>)
    ensures
        view_tokens(res@) == subst_token(t@, var@, view_tokens(rts@)),
    decreases *t,
{
    match t {
        Token::Ident(name) => {
            if crate::bytes_eq(name.as_slice(), var) {
                duplicate_tokens(rts)
            } else {
                let mut res: Vec<Token> = Vec::new();
                res.push(t.clone());
                proof {
                    lemma_view_tokens_unsnoc(res@);
                    assert(res@.drop_last() =~= Seq::<Token>::empty());
                    assert(view_tokens(res@) =~= subst_token(t@, var@, view_tokens(rts@)));
                }
                res
            }
        },
        Token::Group(d, inner) => {
            proof {
                assert(inner@.skip(0) =~= inner@);
            }
            let new_inner = subst_tokens_from(inner, 0, var, rts);
            let mut res: Vec<Token> = Vec::new();
            res.push(Token::Group(*d, new_inner));
            proof {
                assert(view_tokens(inner@).skip(0) =~= view_tokens(inner@));
                lemma_view_tokens_unsnoc(res@);
                assert(res@.drop_last() =~= Seq::<Token>::empty());
                assert(view_tokens(res@) =~= subst_token(t@, var@, view_tokens(rts@)));
            }
            res
        },
        _ => {
            let mut res: Vec<Token> = Vec::new();
            res.push(t.clone());
            proof {
                lemma_view_tokens_unsnoc(res@);
                assert(res@.drop_last() =~= Seq::<Token>::empty());
                assert(view_tokens(res@) =~= subst_token(t@, var@, view_tokens(rts@)));
            }
            res
        },
    }
}

/// Token-level substitution over an annotation macro's argument stream.
pub fn substitute_in_token_stream(tokens: &Vec<Token>, var: &[u8], replacement: &Expr) -> (res:
    Vec<Token>)
    ensures
        view_tokens(res@) == subst_tokens(
            view_tokens(tokens@),
            var@,
            tokens_of_expr(ExprV::Paren(Box::new(replacement@))),
        ),
{
    let wrapped = Expr::Paren(Box::new(replacement.duplicate()));
    let rts = expr_to_tokens(&wrapped);
    proof {
        assert(tokens@.skip(0) =~= tokens@);
        assert(view_tokens(tokens@).skip(0) =~= view_tokens(tokens@));
    }
    subst_tokens_from(tokens, 0, var, &rts)
}

/// Structural substitution of `var` by the parenthesised `replacement`
/// throughout `expr`.
pub fn recursive_substitution(expr: &Expr, var: &[u8], replacement: &Expr) -> (res: Expr)
    ensures
        res@ == subst_expr(expr@, var@, replacement@),
    decreases *expr,
{
    match expr {
        Expr::Var(name) => {
            if crate::bytes_eq(name.as_slice(), var) {
                Expr::Paren(Box::new(replacement.duplicate()))
            } else {
                expr.duplicate()
            }
        },
        Expr::Lit(_) => expr.duplicate(),
        Expr::BoolLit(_) => expr.duplicate(),
        Expr::Opaque(_) => expr.duplicate(),
        Expr::Unary(op, inner) => Expr::Unary(
            *op,
            Box::new(recursive_substitution(inner, var, replacement)),
        ),
        Expr::Binary(op, l, r) => Expr::Binary(
            *op,
            Box::new(recursive_substitution(l, var, replacement)),
            Box::new(recursive_substitution(r, var, replacement)),
        ),
        Expr::Paren(inner) => Expr::Paren(
            Box::new(recursive_substitution(inner, var, replacement)),
        ),
        Expr::Call(f, args) => {
            let new_f = recursive_substitution(f, var, replacement);
            proof {
                assert(args@.skip(0) =~= args@);
                assert(view_exprs(args@).skip(0) =~= view_exprs(args@));
            }
            let new_args = subst_exprs_from(args, 0, var, replacement);
            Expr::Call(Box::new(new_f), new_args)
        },
        Expr::If(c, t, els) => {
            let new_c = recursive_substitution(c, var, replacement);
            proof {
                assert(t@.skip(0) =~= t@);
                assert(view_exprs(t@).skip(0) =~= view_exprs(t@));
            }
            let new_t = subst_exprs_from(t, 0, var, replacement);
            let new_els = match els {
                Some(e2) => Some(Box::new(recursive_substitution(e2, var, replacement))),
                None => None,
            };
            Expr::If(Box::new(new_c), new_t, new_els)
        },
        Expr::Block(stmts) => {
            proof {
                assert(stmts@.skip(0) =~= stmts@);
                assert(view_exprs(stmts@).skip(0) =~= view_exprs(stmts@));
            }
            Expr::Block(subst_exprs_from(stmts, 0, var, replacement))
        },
        Expr::MacroCall(k, tokens) => Expr::MacroCall(
            *k,
            substitute_in_token_stream(tokens, var, replacement),
        ),
    }
}

/// Substitution mapped over the expression list suffix starting at `i`.
fn subst_exprs_from(es: &Vec<Expr>, i: usize, var: &[u8], replacement: &Expr) -> (res: Vec<Expr>)
    requires
        i <= es@.len(),
    ensures
        view_exprs(res@) == subst_exprs(view_exprs(es@).skip(i as int), var@, replacement@),
    decreases es@.skip(i as int),
{
    broadcast use lemma_view_exprs_len, lemma_view_exprs_index;

    let ghost tail = view_exprs(es@).skip(i as int);
    if i >= es.len() {
        let res: Vec<Expr> = Vec::new();
        proof {
            assert(tail =~= Seq::<ExprV>::empty());
            assert(view_exprs(res@) =~= subst_exprs(tail, var@, replacement@));
        }
        res
    } else {
        proof {
            assert(es@.skip(i as int)[0] == es@[i as int]);
            assert(tail[0] == view_exprs(es@)[i as int]);
        }
        let head = recursive_substitution(&es[i], var, replacement);
        proof {
            assert(es@.skip(i as int).drop_first() =~= es@.skip(i as int + 1));
        }
        let mut rest = subst_exprs_from(es, i + 1, var, replacement);
        let ghost restv = rest@;
        let mut res: Vec<Expr> = Vec::new();
        let ghost headv = head@;
        res.push(head);
        res.append(&mut rest);
        proof {
            assert(tail.drop_first() =~= view_exprs(es@).skip(i as int + 1));
            assert(res@ =~= Seq::<Expr>::empty().push(res@[0]) + restv);
            assert(view_exprs(res@) =~= seq![headv] + view_exprs(restv)) by {
                crate::ast::lemma_view_exprs_concat(
                    Seq::<Expr>::empty().push(res@[0]),
                    restv,
                );
                assert(view_exprs(Seq::<Expr>::empty().push(res@[0])) =~= seq![headv]) by {
                    reveal_with_fuel(view_exprs, 2);
                    assert(Seq::<Expr>::empty().push(res@[0]).drop_first() =~= Seq::<
                        Expr,
                    >::empty());
                }
            }
            assert(view_exprs(res@) =~= subst_exprs(tail, var@, replacement@));
        }
        res
    }
}

} // verus!
