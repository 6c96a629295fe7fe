//! Rendering expressions back to token sequences and to text.
//!
//! The token form is what substitution splices into annotation macros; the
//! byte form is what node labels and weakest-precondition formulas are made
//! of. Tokens are joined by single spaces, except that a punctuation token
//! marked as joint is glued to its successor.

use vstd::prelude::*;

use crate::ast::{
    BinOp, Delim, Expr, ExprV, MacroKind, Token, TokenV, UnOp, duplicate_tokens, view_token,
    lemma_view_exprs_index, lemma_view_exprs_len, lemma_view_tokens_concat,
    lemma_view_tokens_index, lemma_view_tokens_len, lemma_view_tokens_unsnoc, view_exprs,
    view_tokens,
};

verus! {

/// The token spelling of a binary operator. Multi-byte operators are two
/// joint punctuation tokens.
pub open spec fn op_tokens(op: BinOp) -> Seq<TokenV> {
    match op {
        BinOp::And => seq![TokenV::Punct(('&' as u8), true), TokenV::Punct(('&' as u8), false)],
        BinOp::Or => seq![TokenV::Punct(('|' as u8), true), TokenV::Punct(('|' as u8), false)],
        BinOp::Imp => seq![TokenV::Punct(('>' as u8), true), TokenV::Punct(('>' as u8), false)],
        BinOp::Eq => seq![TokenV::Punct(('=' as u8), true), TokenV::Punct(('=' as u8), false)],
        BinOp::Le => seq![TokenV::Punct(('<' as u8), true), TokenV::Punct(('=' as u8), false)],
        BinOp::Lt => seq![TokenV::Punct(('<' as u8), false)],
        BinOp::Ge => seq![TokenV::Punct(('>' as u8), true), TokenV::Punct(('=' as u8), false)],
        BinOp::Gt => seq![TokenV::Punct(('>' as u8), false)],
        BinOp::Add => seq![TokenV::Punct(('+' as u8), false)],
        BinOp::Sub => seq![TokenV::Punct(('-' as u8), false)],
        BinOp::Mul => seq![TokenV::Punct(('*' as u8), false)],
        BinOp::Div => seq![TokenV::Punct(('/' as u8), false)],
    }
}

/// The token spelling of an annotation macro's name.
pub open spec fn macro_name_spec(k: MacroKind) -> Seq<u8> {
    match k {
        MacroKind::Pre => seq![('p' as u8), ('r' as u8), ('e' as u8)],
        MacroKind::Post => seq![('p' as u8), ('o' as u8), ('s' as u8), ('t' as u8)],
        MacroKind::Invariant => seq![
            ('i' as u8), ('n' as u8), ('v' as u8), ('a' as u8), ('r' as u8), ('i' as u8), ('a' as u8), ('n' as u8), ('t' as u8),
        ],
    }
}

/// The token sequence an expression prints to.
///
/// An `Opaque` node renders as a single verbatim token holding its text.
pub open spec fn tokens_of_expr(e: ExprV) -> Seq<TokenV>
    decreases e,
{
    match e {
        ExprV::Var(name) => seq![TokenV::Ident(name)],
        ExprV::Lit(text) => seq![TokenV::Lit(text)],
        ExprV::BoolLit(b) => seq![
            TokenV::Ident(
                if b {
                    seq![('t' as u8), ('r' as u8), ('u' as u8), ('e' as u8)]
                } else {
                    seq![('f' as u8), ('a' as u8), ('l' as u8), ('s' as u8), ('e' as u8)]
                },
            ),
        ],
        ExprV::Unary(UnOp::Not, inner) => seq![TokenV::Punct(('!' as u8), false)] + tokens_of_expr(
            *inner,
        ),
        ExprV::Binary(op, l, r) => tokens_of_expr(*l) + op_tokens(op) + tokens_of_expr(*r),
        ExprV::Paren(inner) => seq![TokenV::Group(Delim::Paren, tokens_of_expr(*inner))],
        ExprV::Call(f, args) => tokens_of_expr(*f) + seq![
            TokenV::Group(Delim::Paren, comma_tokens(args)),
        ],
        ExprV::If(c, t, els) => seq![
            TokenV::Ident(seq![('i' as u8), ('f' as u8)]),
        ] + tokens_of_expr(*c) + seq![TokenV::Group(Delim::Brace, semi_tokens(t))] + match els {
            Some(e2) => seq![
                TokenV::Ident(seq![('e' as u8), ('l' as u8), ('s' as u8), ('e' as u8)]),
            ] + tokens_of_expr(*e2),
            None => Seq::empty(),
        },
        ExprV::Block(stmts) => seq![TokenV::Group(Delim::Brace, semi_tokens(stmts))],
        ExprV::MacroCall(k, ts) => seq![
            TokenV::Ident(macro_name_spec(k)),
            TokenV::Punct(('!' as u8), false),
            TokenV::Group(Delim::Paren, ts),
        ],
        ExprV::Opaque(text) => seq![TokenV::Lit(text)],
    }
}

/// The elements of a call argument list, separated by commas.
pub open spec fn comma_tokens(es: Seq<ExprV>) -> Seq<TokenV>
    decreases es,
{
    if es.len() == 0 {
        Seq::empty()
    } else if es.len() == 1 {
        tokens_of_expr(es[0])
    } else {
        tokens_of_expr(es[0]) + seq![TokenV::Punct((',' as u8), false)] + comma_tokens(es.drop_first())
    }
}

/// The statements of a block, separated by semicolons.
pub open spec fn semi_tokens(es: Seq<ExprV>) -> Seq<TokenV>
    decreases es,
{
    if es.len() == 0 {
        Seq::empty()
    } else if es.len() == 1 {
        tokens_of_expr(es[0])
    } else {
        tokens_of_expr(es[0]) + seq![TokenV::Punct((';' as u8), false)] + semi_tokens(es.drop_first())
    }
}

/// The opening byte of a delimiter.
pub open spec fn open_delim(d: Delim) -> u8 {
    match d {
        Delim::Paren => ('(' as u8),
        Delim::Bracket => ('[' as u8),
        Delim::Brace => ('{' as u8),
    }
}

/// The closing byte of a delimiter.
pub open spec fn close_delim(d: Delim) -> u8 {
    match d {
        Delim::Paren => (')' as u8),
        Delim::Bracket => (']' as u8),
        Delim::Brace => ('}' as u8),
    }
}

/// The text of one token. A group renders its delimiters around its inner
/// token sequence.
pub open spec fn bytes_of_token(t: TokenV) -> Seq<u8>
    decreases t,
{
    match t {
        TokenV::Ident(name) => name,
        TokenV::Lit(text) => text,
        TokenV::Punct(b, _) => seq![b],
        TokenV::Group(d, inner) => seq![open_delim(d)] + bytes_of_tokens(inner) + seq![
            close_delim(d),
        ],
    }
}

/// Whether a space follows this token when another token comes after it.
pub open spec fn spaced_after(t: TokenV) -> bool {
    match t {
        TokenV::Punct(_, joint) => !joint,
        _ => true,
    }
}

/// The text of a token sequence: tokens are joined by single spaces, except
/// after a joint punctuation token.
pub open spec fn bytes_of_tokens(ts: Seq<TokenV>) -> Seq<u8>
    decreases ts,
{
    if ts.len() == 0 {
        Seq::empty()
    } else if ts.len() == 1 {
        bytes_of_token(ts[0])
    } else {
        bytes_of_token(ts[0]) + (if spaced_after(ts[0]) {
            seq![(' ' as u8)]
        } else {
            Seq::<u8>::empty()
        }) + bytes_of_tokens(ts.drop_first())
    }
}

/// The text an expression prints to.
pub open spec fn bytes_of_expr(e: ExprV) -> Seq<u8> {
    bytes_of_tokens(tokens_of_expr(e))
}

/// The byte spelling of an annotation macro's name.
pub fn macro_name_bytes(k: MacroKind) -> (r: Vec<u8>)
    ensures
        r@ == macro_name_spec(k),
{
    let mut v: Vec<u8> = Vec::new();
    match k {
        MacroKind::Pre => {
            v.push(('p' as u8));
            v.push(('r' as u8));
            v.push(('e' as u8));
        },
        MacroKind::Post => {
            v.push(('p' as u8));
            v.push(('o' as u8));
            v.push(('s' as u8));
            v.push(('t' as u8));
        },
        MacroKind::Invariant => {
            v.push(('i' as u8));
            v.push(('n' as u8));
            v.push(('v' as u8));
            v.push(('a' as u8));
            v.push(('r' as u8));
            v.push(('i' as u8));
            v.push(('a' as u8));
            v.push(('n' as u8));
            v.push(('t' as u8));
        },
    }
    proof {
        assert(v@ =~= macro_name_spec(k));
    }
    v
}

/// The token spelling of a binary operator, in executable form.
pub fn op_tokens_exec(op: BinOp) -> (r: Vec<Token>)
    ensures
        view_tokens(r@) == op_tokens(op),
{
    let mut v: Vec<Token> = Vec::new();
    match op {
        BinOp::And => {
            v.push(Token::Punct(('&' as u8), true));
            v.push(Token::Punct(('&' as u8), false));
        },
        BinOp::Or => {
            v.push(Token::Punct(('|' as u8), true));
            v.push(Token::Punct(('|' as u8), false));
        },
        BinOp::Imp => {
            v.push(Token::Punct(('>' as u8), true));
            v.push(Token::Punct(('>' as u8), false));
        },
        BinOp::Eq => {
            v.push(Token::Punct(('=' as u8), true));
            v.push(Token::Punct(('=' as u8), false));
        },
        BinOp::Le => {
            v.push(Token::Punct(('<' as u8), true));
            v.push(Token::Punct(('=' as u8), false));
        },
        BinOp::Lt => {
            v.push(Token::Punct(('<' as u8), false));
        },
        BinOp::Ge => {
            v.push(Token::Punct(('>' as u8), true));
            v.push(Token::Punct(('=' as u8), false));
        },
        BinOp::Gt => {
            v.push(Token::Punct(('>' as u8), false));
        },
        BinOp::Add => {
            v.push(Token::Punct(('+' as u8), false));
        },
        BinOp::Sub => {
            v.push(Token::Punct(('-' as u8), false));
        },
        BinOp::Mul => {
            v.push(Token::Punct(('*' as u8), false));
        },
        BinOp::Div => {
            v.push(Token::Punct(('/' as u8), false));
        },
    }
    proof {
        reveal_with_fuel(view_tokens, 3);
        assert(view_tokens(v@) =~= op_tokens(op));
    }
    v
}

/// Renders an expression to its token sequence.
pub fn expr_to_tokens(e: &Expr) -> (r: Vec<Token>)
    ensures
        view_tokens(r@) == tokens_of_expr(e@),
    decreases *e,
{
    broadcast use lemma_view_tokens_concat;

    match e {
        Expr::Var(name) => {
            let mut v: Vec<Token> = Vec::new();
            v.push(Token::Ident(name.clone()));
            proof {
                reveal_with_fuel(view_tokens, 2);
                assert(view_tokens(v@) =~= tokens_of_expr(e@));
            }
            v
        },
        Expr::Lit(text) => {
            let mut v: Vec<Token> = Vec::new();
            v.push(Token::Lit(text.clone()));
            proof {
                reveal_with_fuel(view_tokens, 2);
                assert(view_tokens(v@) =~= tokens_of_expr(e@));
            }
            v
        },
        Expr::BoolLit(b) => {
            let mut name: Vec<u8> = Vec::new();
            if *b {
                name.push(('t' as u8));
                name.push(('r' as u8));
                name.push(('u' as u8));
                name.push(('e' as u8));
            } else {
                name.push(('f' as u8));
                name.push(('a' as u8));
                name.push(('l' as u8));
                name.push(('s' as u8));
                name.push(('e' as u8));
            }
            proof {
                if *b {
                    assert(name@ =~= seq![('t' as u8), ('r' as u8), ('u' as u8), ('e' as u8)]);
                } else {
                    assert(name@ =~= seq![('f' as u8), ('a' as u8), ('l' as u8), ('s' as u8), ('e' as u8)]);
                }
            }
            let mut v: Vec<Token> = Vec::new();
            v.push(Token::Ident(name));
            proof {
                reveal_with_fuel(view_tokens, 2);
                assert(view_tokens(v@) =~= tokens_of_expr(e@));
            }
            v
        },
        Expr::Unary(op, inner) => {
            let mut v: Vec<Token> = Vec::new();
            v.push(Token::Punct(('!' as u8), false));
            let ghost head = v@;
            let mut rest = expr_to_tokens(inner);
            v.append(&mut rest);
            proof {
                lemma_view_tokens_unsnoc(head);
                assert(head.drop_last() =~= Seq::<Token>::empty());
                assert(view_tokens(head) =~= seq![TokenV::Punct(('!' as u8), false)]);
                assert(view_tokens(v@) =~= tokens_of_expr(e@));
            }
            v
        },
        Expr::Binary(op, l, r) => {
            let mut v = expr_to_tokens(l);
            let mut ops = op_tokens_exec(*op);
            let mut rv = expr_to_tokens(r);
            let ghost lv = v@;
            let ghost opsv = ops@;
            let ghost rvv = rv@;
            v.append(&mut ops);
            v.append(&mut rv);
            proof {
                assert(view_tokens(v@) =~= tokens_of_expr(e@)) by {
                    assert(v@ =~= lv + opsv + rvv);
                    assert(view_tokens(lv + opsv + rvv) == view_tokens(lv) + view_tokens(opsv)
                        + view_tokens(rvv));
                }
            }
            v
        },
        Expr::Paren(inner) => {
            let inner_toks = expr_to_tokens(inner);
            let mut v: Vec<Token> = Vec::new();
            v.push(Token::Group(Delim::Paren, inner_toks));
            proof {
                reveal_with_fuel(view_tokens, 2);
                assert(view_tokens(v@) =~= tokens_of_expr(e@));
            }
            v
        },
        Expr::Call(f, args) => {
            let mut v = expr_to_tokens(f);
            proof {
                assert(args@.skip(0) =~= args@);
            }
            let inner = comma_join(args, 0);
            let ghost fv = v@;
            let ghost innerv = inner@;
            v.push(Token::Group(Delim::Paren, inner));
            proof {
                assert(args@.skip(0) =~= args@);
                assert(view_exprs(args@).skip(0) =~= view_exprs(args@));
                lemma_view_tokens_unsnoc(v@);
                assert(v@.drop_last() =~= fv);
                assert(view_token(v@.last()) == TokenV::Group(Delim::Paren, view_tokens(innerv)));
                assert(view_tokens(v@) =~= tokens_of_expr(e@));
            }
            v
        },
        Expr::If(c, t, els) => {
            let mut v: Vec<Token> = Vec::new();
            let mut name: Vec<u8> = Vec::new();
            name.push(('i' as u8));
            name.push(('f' as u8));
            proof {
                assert(name@ =~= seq![('i' as u8), ('f' as u8)]);
            }
            let if_tok = Token::Ident(name);
            v.push(if_tok);
            let ghost head = v@;
            let mut cv = expr_to_tokens(c);
            let ghost cvv = cv@;
            v.append(&mut cv);
            proof {
                assert(t@.skip(0) =~= t@);
            }
            let body = semi_join(t, 0);
            let ghost bodyv = body@;
            v.push(Token::Group(Delim::Brace, body));
            let ghost with_body = v@;
            proof {
                assert(t@.skip(0) =~= t@);
                assert(view_exprs(t@).skip(0) =~= view_exprs(t@));
                assert(view_tokens(head) =~= seq![TokenV::Ident(seq![('i' as u8), ('f' as u8)])])
                    by {
                    lemma_view_tokens_unsnoc(head);
                    assert(head.drop_last() =~= Seq::<Token>::empty());
                }
                assert(view_tokens(with_body) =~= view_tokens(head) + view_tokens(cvv) + seq![
                    TokenV::Group(Delim::Brace, view_tokens(bodyv)),
                ]) by {
                    lemma_view_tokens_unsnoc(with_body);
                    assert(with_body.drop_last() =~= head + cvv);
                }
            }
            match els {
                Some(e2) => {
                    let mut ename: Vec<u8> = Vec::new();
                    ename.push(('e' as u8));
                    ename.push(('l' as u8));
                    ename.push(('s' as u8));
                    ename.push(('e' as u8));
                    proof {
                        assert(ename@ =~= seq![('e' as u8), ('l' as u8), ('s' as u8), ('e' as u8)]);
                    }
                    v.push(Token::Ident(ename));
                    let ghost with_else = v@;
                    let mut ev = expr_to_tokens(e2);
                    let ghost evv = ev@;
                    v.append(&mut ev);
                    proof {
                        assert(view_tokens(with_else) =~= view_tokens(with_body) + seq![
                            TokenV::Ident(seq![('e' as u8), ('l' as u8), ('s' as u8), ('e' as u8)]),
                        ]) by {
                            lemma_view_tokens_unsnoc(with_else);
                            assert(with_else.drop_last() =~= with_body);
                        }
                        assert(view_tokens(v@) =~= tokens_of_expr(e@));
                    }
                },
                None => {
                    proof {
                        assert(tokens_of_expr(e@) =~= view_tokens(with_body) + Seq::<
                            TokenV,
                        >::empty());
                        assert(view_tokens(v@) =~= tokens_of_expr(e@));
                    }
                },
            }
            v
        },
        Expr::Block(stmts) => {
            proof {
                assert(stmts@.skip(0) =~= stmts@);
            }
            let body = semi_join(stmts, 0);
            let mut v: Vec<Token> = Vec::new();
            v.push(Token::Group(Delim::Brace, body));
            proof {
                reveal_with_fuel(view_tokens, 2);
                assert(stmts@.skip(0) =~= stmts@);
                assert(view_exprs(stmts@).skip(0) =~= view_exprs(stmts@));
                assert(view_tokens(v@) =~= tokens_of_expr(e@));
            }
            v
        },
        Expr::MacroCall(k, ts) => {
            let mut v: Vec<Token> = Vec::new();
            v.push(Token::Ident(macro_name_bytes(*k)));
            v.push(Token::Punct(('!' as u8), false));
            v.push(Token::Group(Delim::Paren, duplicate_tokens(ts)));
            proof {
                reveal_with_fuel(view_tokens, 4);
                assert(view_tokens(v@) =~= tokens_of_expr(e@));
            }
            v
        },
        Expr::Opaque(text) => {
            let mut v: Vec<Token> = Vec::new();
            v.push(Token::Lit(text.clone()));
            proof {
                reveal_with_fuel(view_tokens, 2);
                assert(view_tokens(v@) =~= tokens_of_expr(e@));
            }
            v
        },
    }
}

/// Renders the argument list suffix starting at `i`, comma-separated.
fn comma_join(args: &Vec<Expr>, i: usize) -> (r: Vec<Token>)
    requires
        i <= args@.len(),
    ensures
        view_tokens(r@) == comma_tokens(view_exprs(args@).skip(i as int)),
    decreases args@.skip(i as int),
{
    broadcast use lemma_view_tokens_concat, lemma_view_exprs_len, lemma_view_exprs_index;

    let ghost tail = view_exprs(args@).skip(i as int);
    if i >= args.len() {
        let v: Vec<Token> = Vec::new();
        proof {
            assert(tail =~= Seq::<ExprV>::empty());
            assert(view_tokens(v@) =~= comma_tokens(tail));
        }
        v
    } else {
        proof {
            assert(args@.skip(i as int)[0] == args@[i as int]);
        }
        let mut v = expr_to_tokens(&args[i]);
        proof {
            assert(tail[0] == view_exprs(args@)[i as int]);
        }
        if i + 1 < args.len() {
            let ghost v0 = v@;
            v.push(Token::Punct((',' as u8), false));
            let ghost head = v@;
            proof {
                assert(args@.skip(i as int).drop_first() =~= args@.skip(i as int + 1));
            }
            let mut rest = comma_join(args, i + 1);
            v.append(&mut rest);
            proof {
                assert(tail.drop_first() =~= view_exprs(args@).skip(i as int + 1));
                lemma_view_tokens_unsnoc(head);
                assert(head.drop_last() =~= v0);
                assert(view_tokens(head) =~= tokens_of_expr(tail[0]) + seq![
                    TokenV::Punct((',' as u8), false),
                ]);
                assert(view_tokens(v@) =~= comma_tokens(tail));
            }
        } else {
            proof {
                assert(tail.len() == 1);
                assert(view_tokens(v@) =~= comma_tokens(tail));
            }
        }
        v
    }
}

/// Renders the statement list suffix starting at `i`, semicolon-separated.
fn semi_join(stmts: &Vec<Expr>, i: usize) -> (r: Vec<Token>)
    requires
        i <= stmts@.len(),
    ensures
        view_tokens(r@) == semi_tokens(view_exprs(stmts@).skip(i as int)),
    decreases stmts@.skip(i as int),
{
    broadcast use lemma_view_tokens_concat, lemma_view_exprs_len, lemma_view_exprs_index;

    let ghost tail = view_exprs(stmts@).skip(i as int);
    if i >= stmts.len() {
        let v: Vec<Token> = Vec::new();
        proof {
            assert(tail =~= Seq::<ExprV>::empty());
            assert(view_tokens(v@) =~= semi_tokens(tail));
        }
        v
    } else {
        proof {
            assert(stmts@.skip(i as int)[0] == stmts@[i as int]);
        }
        let mut v = expr_to_tokens(&stmts[i]);
        proof {
            assert(tail[0] == view_exprs(stmts@)[i as int]);
        }
        if i + 1 < stmts.len() {
            let ghost v0 = v@;
            v.push(Token::Punct((';' as u8), false));
            let ghost head = v@;
            proof {
                assert(stmts@.skip(i as int).drop_first() =~= stmts@.skip(i as int + 1));
            }
            let mut rest = semi_join(stmts, i + 1);
            v.append(&mut rest);
            proof {
                assert(tail.drop_first() =~= view_exprs(stmts@).skip(i as int + 1));
                lemma_view_tokens_unsnoc(head);
                assert(head.drop_last() =~= v0);
                assert(view_tokens(head) =~= tokens_of_expr(tail[0]) + seq![
                    TokenV::Punct((';' as u8), false),
                ]);
                assert(view_tokens(v@) =~= semi_tokens(tail));
            }
        } else {
            proof {
                assert(tail.len() == 1);
                assert(view_tokens(v@) =~= semi_tokens(tail));
            }
        }
        v
    }
}

/// Renders one token to text.
pub fn token_to_bytes(t: &Token) -> (r: Vec<u8>)
    ensures
        r@ == bytes_of_token(t@),
    decreases *t,
{
    match t {
        Token::Ident(name) => name.clone(),
        Token::Lit(text) => text.clone(),
        Token::Punct(b, _) => {
            let mut v: Vec<u8> = Vec::new();
            v.push(*b);
            proof {
                assert(v@ =~= bytes_of_token(t@));
            }
            v
        },
        Token::Group(d, inner) => {
            let mut v: Vec<u8> = Vec::new();
            let open = match d {
                Delim::Paren => ('(' as u8),
                Delim::Bracket => ('[' as u8),
                Delim::Brace => ('{' as u8),
            };
            let close = match d {
                Delim::Paren => (')' as u8),
                Delim::Bracket => (']' as u8),
                Delim::Brace => ('}' as u8),
            };
            v.push(open);
            proof {
                assert(inner@.skip(0) =~= inner@);
            }
            let mut body = tokens_to_bytes_from(inner, 0);
            v.append(&mut body);
            v.push(close);
            proof {
                assert(view_tokens(inner@).skip(0) =~= view_tokens(inner@));
                assert(v@ =~= bytes_of_token(t@));
            }
            v
        },
    }
}

/// Renders the token list suffix starting at `i` to text.
pub fn tokens_to_bytes_from(ts: &Vec<Token>, i: usize) -> (r: Vec<u8>)
    requires
        i <= ts@.len(),
    ensures
        r@ == bytes_of_tokens(view_tokens(ts@).skip(i as int)),
    decreases ts@.skip(i as int),
{
    broadcast use lemma_view_tokens_len, lemma_view_tokens_index;

    let ghost tail = view_tokens(ts@).skip(i as int);
    if i >= ts.len() {
        let v: Vec<u8> = Vec::new();
        proof {
            assert(tail =~= Seq::<TokenV>::empty());
        }
        v
    } else {
        proof {
            assert(ts@.skip(i as int)[0] == ts@[i as int]);
        }
        let mut v = token_to_bytes(&ts[i]);
        proof {
            assert(tail[0] == view_tokens(ts@)[i as int]);
        }
        if i + 1 < ts.len() {
            let spaced = match &ts[i] {
                Token::Punct(_, joint) => !*joint,
                _ => true,
            };
            if spaced {
                v.push((' ' as u8));
            }
            let ghost head = v@;
            proof {
                assert(ts@.skip(i as int).drop_first() =~= ts@.skip(i as int + 1));
            }
            let mut rest = tokens_to_bytes_from(ts, i + 1);
            v.append(&mut rest);
            proof {
                assert(tail.drop_first() =~= view_tokens(ts@).skip(i as int + 1));
                assert(v@ =~= bytes_of_tokens(tail));
            }
        } else {
            proof {
                assert(tail.len() == 1);
                assert(v@ =~= bytes_of_tokens(tail));
            }
        }
        v
    }
}

/// Renders a whole token list to text.
pub fn tokens_to_bytes(ts: &Vec<Token>) -> (r: Vec<u8>)
    ensures
        r@ == bytes_of_tokens(view_tokens(ts@)),
{
    let r = tokens_to_bytes_from(ts, 0);
    proof {
        assert(view_tokens(ts@).skip(0) =~= view_tokens(ts@));
    }
    r
}

/// Renders an expression to text.
pub fn expr_to_bytes(e: &Expr) -> (r: Vec<u8>)
    ensures
        r@ == bytes_of_expr(e@),
{
    let toks = expr_to_tokens(e);
    tokens_to_bytes(&toks)
}

} // verus!
