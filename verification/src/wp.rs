//! The weakest-precondition calculus over basic paths.
//!
//! Each path is walked in reverse with an accumulator. An assignment
//! statement substitutes its right-hand side for its variable throughout the
//! accumulator; a condition joins the chain as itself on the true branch and
//! negated on the false branch; every annotation joins the chain by
//! implication. The result prints as a right-nested implication chain.

use vstd::prelude::*;

use crate::ast::{BinOp, CondKind, Expr, ExprV, Token, TokenV, UnOp, view_tokens};
use crate::builder::{CfgBuilder, binv};
use crate::cfg::{Cfg, CfgNode, Edge, EdgeLabel, NodeV};
use crate::lex::lex_spec;
use crate::parse::{is_op1, is_op2, parse_formula_spec};
use crate::print::{bytes_of_expr, bytes_of_tokens, expr_to_bytes};
use crate::subst::subst_expr;

verus! {

/// The negation of a condition: `!(c)`.
pub open spec fn negate_spec(e: ExprV) -> ExprV {
    ExprV::Unary(UnOp::Not, Box::new(ExprV::Paren(Box::new(e))))
}

/// Builds `!(c)` from a condition.
pub fn negate_condition(expr: &Expr) -> (r: Expr)
    ensures
        r@ == negate_spec(expr@),
{
    let inner = Expr::Paren(Box::new(expr.duplicate()));
    proof {
        assert(inner@ == ExprV::Paren(Box::new(expr@)));
    }
    Expr::Unary(UnOp::Not, Box::new(inner))
}

/// Wraps a condition in parentheses.
pub fn wrap_with_parens(expr: &Expr) -> (r: Expr)
    ensures
        r@ == ExprV::Paren(Box::new(expr@)),
{
    Expr::Paren(Box::new(expr.duplicate()))
}

/// The spelling of `let`.
pub open spec fn let_kw() -> Seq<u8> {
    seq![('l' as u8), ('e' as u8), ('t' as u8)]
}

/// The spelling of `mut`.
pub open spec fn mut_kw() -> Seq<u8> {
    seq![('m' as u8), ('u' as u8), ('t' as u8)]
}

/// The compound-assignment operators.
pub open spec fn compound_op(b: u8) -> Option<BinOp> {
    if b == ('+' as u8) {
        Some(BinOp::Add)
    } else if b == ('-' as u8) {
        Some(BinOp::Sub)
    } else if b == ('*' as u8) {
        Some(BinOp::Mul)
    } else if b == ('/' as u8) {
        Some(BinOp::Div)
    } else {
        None
    }
}

/// A right-hand side: its parse, or its text as an opaque leaf when it lies
/// outside the grammar.
pub open spec fn rhs_of(ts: Seq<TokenV>) -> ExprV {
    match parse_formula_spec(ts) {
        Some(e) => e,
        None => ExprV::Opaque(bytes_of_tokens(ts)),
    }
}

/// What `parse_assignment` recognises in a statement's text: a plain
/// assignment `x = e`, a compound assignment `x op= e` read as
/// `x = x op e`, or a simple `let` binding; each possibly ending with a
/// semicolon.
pub open spec fn parse_assignment_spec(s: Seq<u8>) -> Option<(Seq<u8>, ExprV)> {
    match lex_spec(s) {
        None => None,
        Some(ts0) => {
            let ts = if ts0.len() > 0 && is_op1(ts0, ts0.len() - 1, (';' as u8)) {
                ts0.drop_last()
            } else {
                ts0
            };
            parse_assignment_tokens(ts)
        },
    }
}

pub open spec fn parse_assignment_tokens(ts: Seq<TokenV>) -> Option<(Seq<u8>, ExprV)> {
    if ts.len() >= 2 && ts[0] is Ident && ts[0]->Ident_0 == let_kw() {
        let i: int = if ts[1] is Ident && ts[1]->Ident_0 == mut_kw() {
            2
        } else {
            1
        };
        if i + 1 < ts.len() && ts[i] is Ident && is_op1(ts, i + 1, ('=' as u8)) && !is_op2(
            ts,
            i + 1,
            ('=' as u8),
            ('=' as u8),
        ) {
            Some((ts[i]->Ident_0, rhs_of(ts.skip(i + 2))))
        } else {
            None
        }
    } else if ts.len() >= 3 && ts[0] is Ident && is_op1(ts, 1, ('=' as u8)) && !is_op2(
        ts,
        1,
        ('=' as u8),
        ('=' as u8),
    ) {
        Some((ts[0]->Ident_0, rhs_of(ts.skip(2))))
    } else if ts.len() >= 4 && ts[0] is Ident && ts[1] is Punct && ts[1]->Punct_1 == true
        && ts[1]->Punct_0 != ('=' as u8) && is_op1(ts, 2, ('=' as u8)) {
        let b = ts[1]->Punct_0;
        let rhs = match compound_op(b) {
            Some(op) => ExprV::Binary(
                op,
                Box::new(ExprV::Var(ts[0]->Ident_0)),
                Box::new(rhs_of(ts.skip(3))),
            ),
            // an operator outside the formula algebra still rewrites, with
            // the whole right-hand side carried as opaque text
            None => ExprV::Opaque(
                bytes_of_tokens(seq![ts[0], TokenV::Punct(b, false)] + ts.skip(3)),
            ),
        };
        Some((ts[0]->Ident_0, rhs))
    } else {
        None
    }
}

/// Copies the token suffix starting at `i`.
fn suffix_tokens(ts: &Vec<Token>, i: usize) -> (r: Vec<Token>)
    requires
        i <= ts@.len(),
    ensures
        view_tokens(r@) == view_tokens(ts@).skip(i as int),
{
    broadcast use crate::ast::lemma_view_tokens_len, crate::ast::lemma_view_tokens_index,
        vstd::std_specs::vec::axiom_spec_len;

    let mut r: Vec<Token> = Vec::new();
    let mut k = i;
    while k < ts.len()
        invariant
            i <= k <= ts@.len(),
            view_tokens(r@) == view_tokens(ts@).subrange(i as int, k as int),
        decreases ts@.len() - k,
    {
        let ghost r0 = r@;
        let t = ts[k].duplicate();
        r.push(t);
        proof {
            crate::ast::lemma_view_tokens_unsnoc(r@);
            assert(r@.drop_last() =~= r0);
            assert(ts.len() == ts@.len());
            crate::ast::lemma_view_tokens_index(ts@, k as int);
            assert(view_tokens(ts@)[k as int] == crate::ast::view_token(ts@[k as int]));
            assert(crate::ast::view_token(r@.last()) == view_tokens(ts@)[k as int]);
            assert(view_tokens(r@) =~= view_tokens(ts@).subrange(i as int, k as int + 1));
        }
        k += 1;
    }
    proof {
        assert(view_tokens(ts@).subrange(i as int, ts@.len() as int) =~= view_tokens(ts@).skip(
            i as int,
        ));
    }
    r
}

/// The right-hand side in executable form.
fn rhs_exec(rest: Vec<Token>) -> (r: Expr)
    ensures
        r@ == rhs_of(view_tokens(rest@)),
{
    match crate::parse::parse_formula(&rest) {
        Some(e) => e,
        None => Expr::Opaque(crate::print::tokens_to_bytes(&rest)),
    }
}

/// Recognises an assignment in a statement's text and returns the assigned
/// variable with its (parenthesisable) right-hand side.
pub fn parse_assignment(stmt: &[u8]) -> (r: Option<(Vec<u8>, Expr)>)
    ensures
        match r {
            Some(p) => parse_assignment_spec(stmt@) == Some((p.0@, p.1@)),
            None => parse_assignment_spec(stmt@) == None::<(Seq<u8>, ExprV)>,
        },
{
    broadcast use crate::ast::lemma_view_tokens_len, crate::ast::lemma_view_tokens_index,
        vstd::std_specs::vec::axiom_spec_len;

    let mut ts = match crate::lex::lex(stmt) {
        Some(ts) => ts,
        None => {
            return None;
        },
    };
    proof {
        assert(ts.len() == ts@.len());
    }
    let ghost ts0v = view_tokens(ts@);
    let ghost tsvec0 = ts@;
    let has_semi = ts.len() > 0 && (match &ts[ts.len() - 1] {
        Token::Punct(b, _) => *b == (';' as u8),
        _ => false,
    });
    proof {
        if ts@.len() > 0 {
            assert(ts0v[ts0v.len() - 1] == crate::ast::view_token(ts@[ts@.len() - 1]));
        }
        assert(has_semi == (ts0v.len() > 0 && is_op1(ts0v, ts0v.len() - 1, (';' as u8))));
    }
    if has_semi {
        let popped = ts.pop();
        proof {
            crate::ast::lemma_view_tokens_unsnoc(tsvec0);
            assert(ts@ =~= tsvec0.drop_last());
            assert(view_tokens(ts@) =~= ts0v.drop_last());
        }
    }
    let ghost tsv = view_tokens(ts@);
    proof {
        assert(parse_assignment_spec(stmt@) == parse_assignment_tokens(tsv));
    }
    parse_assignment_from_tokens(ts)
}

/// The token-level shape recognition.
fn parse_assignment_from_tokens(ts: Vec<Token>) -> (r: Option<(Vec<u8>, Expr)>)
    ensures
        match r {
            Some(p) => parse_assignment_tokens(view_tokens(ts@)) == Some((p.0@, p.1@)),
            None => parse_assignment_tokens(view_tokens(ts@)) == None::<(Seq<u8>, ExprV)>,
        },
{
    broadcast use crate::ast::lemma_view_tokens_len, crate::ast::lemma_view_tokens_index,
        vstd::std_specs::vec::axiom_spec_len;

    proof {
        assert(ts.len() == ts@.len());
    }
    let ghost tsv = view_tokens(ts@);
    let mut letkw: Vec<u8> = Vec::new();
    letkw.push(('l' as u8));
    letkw.push(('e' as u8));
    letkw.push(('t' as u8));
    let mut mutkw: Vec<u8> = Vec::new();
    mutkw.push(('m' as u8));
    mutkw.push(('u' as u8));
    mutkw.push(('t' as u8));
    proof {
        assert(letkw@ =~= let_kw());
        assert(mutkw@ =~= mut_kw());
    }
    let is_let = ts.len() >= 2 && (match &ts[0] {
        Token::Ident(name) => crate::bytes_eq(name.as_slice(), letkw.as_slice()),
        _ => false,
    });
    if is_let {
        let has_mut = match &ts[1] {
            Token::Ident(name) => crate::bytes_eq(name.as_slice(), mutkw.as_slice()),
            _ => false,
        };
        let i: usize = if has_mut {
            2
        } else {
            1
        };
        let shape = i + 1 < ts.len() && (match &ts[i] {
            Token::Ident(_) => true,
            _ => false,
        }) && e_is_op1_tok(&ts, i + 1, ('=' as u8)) && !e_is_op2_tok(
            &ts,
            i + 1,
            ('=' as u8),
            ('=' as u8),
        );
        if shape {
            let var = match &ts[i] {
                Token::Ident(name) => name.clone(),
                _ => {
                    proof {
                        assert(false);
                    }
                    Vec::new()
                },
            };
            let rest = suffix_tokens(&ts, i + 2);
            let rhs = rhs_exec(rest);
            Some((var, rhs))
        } else {
            None
        }
    } else {
        let plain = ts.len() >= 3 && (match &ts[0] {
            Token::Ident(_) => true,
            _ => false,
        }) && e_is_op1_tok(&ts, 1, ('=' as u8)) && !e_is_op2_tok(
            &ts,
            1,
            ('=' as u8),
            ('=' as u8),
        );
        if plain {
            let var = match &ts[0] {
                Token::Ident(name) => name.clone(),
                _ => {
                    proof {
                        assert(false);
                    }
                    Vec::new()
                },
            };
            let rest = suffix_tokens(&ts, 2);
            let rhs = rhs_exec(rest);
            Some((var, rhs))
        } else {
            let compound_byte: Option<u8> = if ts.len() >= 4 {
                match &ts[1] {
                    Token::Punct(b, joint) => if *joint && *b != ('=' as u8) {
                        Some(*b)
                    } else {
                        None
                    },
                    _ => None,
                }
            } else {
                None
            };
            let compound = (match compound_byte {
                Some(_) => true,
                None => false,
            }) && (match &ts[0] {
                Token::Ident(_) => true,
                _ => false,
            }) && e_is_op1_tok(&ts, 2, ('=' as u8));
            if compound {
                let b = match compound_byte {
                    Some(x) => x,
                    None => {
                        proof {
                            assert(false);
                        }
                        0
                    },
                };
                let var = match &ts[0] {
                    Token::Ident(name) => name.clone(),
                    _ => {
                        proof {
                            assert(false);
                        }
                        Vec::new()
                    },
                };
                let op: Option<BinOp> = if b == ('+' as u8) {
                    Some(BinOp::Add)
                } else if b == ('-' as u8) {
                    Some(BinOp::Sub)
                } else if b == ('*' as u8) {
                    Some(BinOp::Mul)
                } else if b == ('/' as u8) {
                    Some(BinOp::Div)
                } else {
                    None
                };
                match op {
                    Some(op) => {
                        let rest = suffix_tokens(&ts, 3);
                        let rhs = rhs_exec(rest);
                        let lhs = Expr::Var(var.clone());
                        proof {
                            assert(lhs@ == ExprV::Var(var@));
                        }
                        Some((var, Expr::Binary(op, Box::new(lhs), Box::new(rhs))))
                    },
                    None => {
                        let mut rhs_toks: Vec<Token> = Vec::new();
                        rhs_toks.push(Token::Ident(var.clone()));
                        rhs_toks.push(Token::Punct(b, false));
                        let ghost head2 = rhs_toks@;
                        let mut rest = suffix_tokens(&ts, 3);
                        let ghost restv = rest@;
                        rhs_toks.append(&mut rest);
                        let text_bytes = crate::print::tokens_to_bytes(&rhs_toks);
                        proof {
                            assert(view_tokens(head2) =~= seq![
                                tsv[0], crate::ast::TokenV::Punct(b, false),
                            ]) by {
                                crate::ast::lemma_view_tokens_unsnoc(head2);
                                assert(head2.drop_last() =~= seq![head2[0]]);
                                crate::ast::lemma_view_tokens_unsnoc(seq![head2[0]]);
                                assert(seq![head2[0]].drop_last() =~= Seq::<Token>::empty());
                                assert(crate::ast::view_token(head2[0])
                                    == crate::ast::TokenV::Ident(var@));
                            }
                            assert(rhs_toks@ =~= head2 + restv);
                            crate::ast::lemma_view_tokens_concat(head2, restv);
                            assert(view_tokens(rhs_toks@) =~= seq![
                                tsv[0], crate::ast::TokenV::Punct(b, false),
                            ] + tsv.skip(3));
                            assert(text_bytes@ == bytes_of_tokens(
                                seq![tsv[0], crate::ast::TokenV::Punct(b, false)] + tsv.skip(3),
                            ));
                        }
                        Some((var, Expr::Opaque(text_bytes)))
                    },
                }
            } else {
                None
            }
        }
    }
}

/// Whether the token at `i` is the punctuation byte `a`.
fn e_is_op1_tok(ts: &Vec<Token>, i: usize, a: u8) -> (r: bool)
    ensures
        r == is_op1(view_tokens(ts@), i as int, a),
{
    broadcast use crate::ast::lemma_view_tokens_len, crate::ast::lemma_view_tokens_index,
        vstd::std_specs::vec::axiom_spec_len;

    if i < ts.len() {
        match &ts[i] {
            Token::Punct(b, _) => *b == a,
            _ => false,
        }
    } else {
        false
    }
}

/// Whether the tokens at `i` spell the two-byte operator `a b`.
fn e_is_op2_tok(ts: &Vec<Token>, i: usize, a: u8, b: u8) -> (r: bool)
    ensures
        r == is_op2(view_tokens(ts@), i as int, a, b),
{
    broadcast use crate::ast::lemma_view_tokens_len, crate::ast::lemma_view_tokens_index,
        vstd::std_specs::vec::axiom_spec_len;

    if i < ts.len() && ts.len() - i > 1 {
        let first = match &ts[i] {
            Token::Punct(x, joint) => *x == a && *joint,
            _ => false,
        };
        let second = match &ts[i + 1] {
            Token::Punct(x, _) => *x == b,
            _ => false,
        };
        first && second
    } else {
        false
    }
}

} // verus!

verus! {

/// The position of the first occurrence of `node` in the path, or -1.
pub open spec fn first_pos(path: Seq<usize>, node: usize) -> int
    decreases path,
{
    if path.len() == 0 {
        -1
    } else if path[0] == node {
        0
    } else {
        let r = first_pos(path.drop_first(), node);
        if r < 0 {
            -1
        } else {
            r + 1
        }
    }
}

/// The label of the first edge from `a` to `b`, if any.
pub open spec fn first_label(edges: Seq<Edge>, a: usize, b: usize) -> Option<EdgeLabel>
    decreases edges,
{
    if edges.len() == 0 {
        None
    } else if edges[0].src == a && edges[0].dst == b {
        Some(edges[0].label)
    } else {
        first_label(edges.drop_first(), a, b)
    }
}

/// Whether the walk reaches the node after the (first occurrence of the)
/// condition along a `false` edge.
pub open spec fn is_false_branch_spec(g: Cfg, path: Seq<usize>, node: usize) -> bool {
    let p = first_pos(path, node);
    if 0 <= p && p + 1 < path.len() {
        match first_label(g.edges@, node, path[p + 1]) {
            Some(l) => l == EdgeLabel::False,
            None => false,
        }
    } else {
        false
    }
}

/// Joins a formula onto the accumulator by implication.
pub open spec fn chain(f: ExprV, w: Option<ExprV>) -> ExprV {
    match w {
        Some(wc) => ExprV::Binary(BinOp::Imp, Box::new(f), Box::new(wc)),
        None => f,
    }
}

/// The effect of one path node, walked in reverse, on the accumulator.
pub open spec fn wp_node(g: Cfg, path: Seq<usize>, k: int, w: Option<ExprV>) -> Option<ExprV> {
    match g.node_at(path[k] as int) {
        NodeV::Statement(text) => match parse_assignment_spec(text) {
            Some(a) => match w {
                Some(wc) => Some(subst_expr(wc, a.0, a.1)),
                None => None,
            },
            None => w,
        },
        NodeV::Condition(_, kind, c) => {
            let ce = if kind == CondKind::For {
                c
            } else if is_false_branch_spec(g, path, path[k]) {
                negate_spec(c)
            } else {
                ExprV::Paren(Box::new(c))
            };
            Some(chain(ce, w))
        },
        NodeV::Postcondition(_, f) => match f {
            Some(fe) => Some(chain(fe, w)),
            None => w,
        },
        NodeV::Invariant(_, f) => match f {
            Some(fe) => Some(chain(fe, w)),
            None => w,
        },
        NodeV::Precondition(_, f) => match f {
            Some(fe) => Some(chain(fe, w)),
            None => w,
        },
        _ => w,
    }
}

/// The accumulator after walking the path suffix that starts at `k`, in
/// reverse.
pub open spec fn wp_from(g: Cfg, path: Seq<usize>, k: int) -> Option<ExprV>
    decreases path.len() - k,
{
    if k < 0 || k >= path.len() {
        None
    } else {
        wp_node(g, path, k, wp_from(g, path, k + 1))
    }
}

/// The weakest-precondition formula of one basic path.
pub open spec fn wp_path_spec(g: Cfg, path: Seq<usize>) -> Option<ExprV> {
    wp_from(g, path, 0)
}

/// The formula texts of a list of paths, in order; paths yielding no formula
/// are skipped.
pub open spec fn wp_texts(g: Cfg, ps: Seq<Vec<usize>>) -> Seq<Seq<u8>>
    decreases ps,
{
    if ps.len() == 0 {
        Seq::empty()
    } else {
        (match wp_path_spec(g, ps[0]@) {
            Some(e) => seq![bytes_of_expr(e)],
            None => Seq::<Seq<u8>>::empty(),
        }) + wp_texts(g, ps.drop_first())
    }
}

proof fn lemma_wp_texts_snoc(g: Cfg, ps: Seq<Vec<usize>>, k: int)
    requires
        0 <= k < ps.len(),
    ensures
        wp_texts(g, ps.take(k + 1)) == wp_texts(g, ps.take(k)) + (match wp_path_spec(
            g,
            ps[k]@,
        ) {
            Some(e) => seq![bytes_of_expr(e)],
            None => Seq::<Seq<u8>>::empty(),
        }),
    decreases k,
{
    if k == 0 {
        assert(ps.take(1) =~= seq![ps[0]]);
        assert(ps.take(0) =~= Seq::<Vec<usize>>::empty());
        assert(ps.take(1).drop_first() =~= Seq::<Vec<usize>>::empty());
        assert(wp_texts(g, ps.take(k + 1)) =~= wp_texts(g, ps.take(k)) + (match wp_path_spec(
            g,
            ps[k]@,
        ) {
            Some(e) => seq![bytes_of_expr(e)],
            None => Seq::<Seq<u8>>::empty(),
        }));
    } else {
        lemma_wp_texts_snoc(g, ps.drop_first(), k - 1);
        assert(ps.take(k + 1).drop_first() =~= ps.drop_first().take(k));
        assert(ps.take(k).drop_first() =~= ps.drop_first().take(k - 1));
        assert(ps.take(k + 1)[0] == ps[0]);
        assert(ps.take(k)[0] == ps[0]);
        assert(wp_texts(g, ps.take(k + 1)) =~= wp_texts(g, ps.take(k)) + (match wp_path_spec(
            g,
            ps[k]@,
        ) {
            Some(e) => seq![bytes_of_expr(e)],
            None => Seq::<Seq<u8>>::empty(),
        }));
    }
}

impl CfgBuilder {
    /// Whether the path leaves the condition `node` along a `false` edge.
    pub fn is_false_branch(&self, path: &Vec<usize>, node: usize) -> (r: bool)
        ensures
            r == is_false_branch_spec(self.graph, path@, node),
    {
        broadcast use vstd::std_specs::vec::axiom_spec_len;

        proof {
            assert(path.len() == path@.len());
        }
        let mut p: usize = 0;
        let mut found: bool = false;
        while p < path.len() && !found
            invariant
                0 <= p <= path@.len(),
                !found ==> (forall|j: int| 0 <= j < p ==> (#[trigger] path@[j]) != node),
                found ==> 0 <= (p as int) < path@.len() && path@[p as int] == node && (forall|
                    j: int,
                |
                    0 <= j < p ==> (#[trigger] path@[j]) != node),
            decreases path@.len() - p + (if found {
                0int
            } else {
                1int
            }),
        {
            if path[p] == node {
                found = true;
            } else {
                p += 1;
            }
        }
        proof {
            if found {
                lemma_first_pos_is(path@, node, p as int);
            } else {
                lemma_first_pos_none(path@, node);
            }
        }
        if !found {
            return false;
        }
        if p + 1 >= path.len() {
            return false;
        }
        let nxt = path[p + 1];
        let mut k: usize = 0;
        while k < self.graph.edges.len()
            invariant
                0 <= k <= self.graph.edges@.len(),
                first_pos(path@, node) == p as int,
                p as int + 1 < path@.len(),
                nxt == path@[p as int + 1],
                forall|j: int|
                    0 <= j < k ==> !((#[trigger] self.graph.edges@[j]).src == node
                        && self.graph.edges@[j].dst == nxt),
            decreases self.graph.edges@.len() - k,
        {
            let e = self.graph.edges[k];
            if e.src == node && e.dst == nxt {
                proof {
                    lemma_first_label_is(self.graph.edges@, node, nxt, k as int);
                }
                let rr = match e.label {
                    EdgeLabel::False => true,
                    _ => false,
                };
                proof {
                    assert(first_pos(path@, node) == p as int);
                    assert(first_label(self.graph.edges@, node, path@[p as int + 1])
                        == Some(e.label));
                    assert(rr == (e.label == EdgeLabel::False));
                    assert(rr == is_false_branch_spec(self.graph, path@, node));
                }
                return rr;
            }
            k += 1;
        }
        proof {
            lemma_first_label_none(self.graph.edges@, node, nxt);
        }
        false
    }

    /// The weakest-precondition formula of one path, walked in reverse.
    pub fn wp_of_path(&self, path: &Vec<usize>) -> (r: Option<Expr>)
        requires
            binv(*self),
            forall|j: int| 0 <= j < path@.len() ==> (#[trigger] path@[j]) < self.graph.n(),
        ensures
            match r {
                Some(e) => wp_path_spec(self.graph, path@) == Some(e@),
                None => wp_path_spec(self.graph, path@) == None::<ExprV>,
            },
    {
        broadcast use vstd::std_specs::vec::axiom_spec_len;

        proof {
            assert(path.len() == path@.len());
        }
        let mut working: Option<Expr> = None;
        let mut k: usize = path.len();
        while k > 0
            invariant
                binv(*self),
                0 <= k <= path@.len(),
                forall|j: int| 0 <= j < path@.len() ==> (#[trigger] path@[j]) < self.graph.n(),
                match working {
                    Some(e) => wp_from(self.graph, path@, k as int) == Some(e@),
                    None => wp_from(self.graph, path@, k as int) == None::<ExprV>,
                },
            decreases k,
        {
            k -= 1;
            let ghost w0 = wp_from(self.graph, path@, k as int + 1);
            let idx = path[k];
            let step: Option<Expr> = match self.graph.node(idx) {
                CfgNode::Statement(text) => {
                    match parse_assignment(text.as_slice()) {
                        Some((var, rhs)) => match working {
                            Some(w) => {
                                let sub = crate::subst::recursive_substitution(
                                    &w,
                                    var.as_slice(),
                                    &rhs,
                                );
                                Some(sub)
                            },
                            None => None,
                        },
                        None => working,
                    }
                },
                CfgNode::Condition(_, kind, c) => {
                    let is_for = matches!(kind, CondKind::For);
                    let ce = if is_for {
                        c.duplicate()
                    } else if self.is_false_branch(path, idx) {
                        negate_condition(c)
                    } else {
                        wrap_with_parens(c)
                    };
                    let ghost cev = ce@;
                    let joined = match working {
                        Some(w) => Expr::Binary(BinOp::Imp, Box::new(ce), Box::new(w)),
                        None => ce,
                    };
                    proof {
                        assert(joined@ == chain(cev, w0));
                    }
                    Some(joined)
                },
                CfgNode::Postcondition(_, f) => match f {
                    Some(fe) => {
                        let fd = fe.duplicate();
                        let ghost fv = fd@;
                        let joined = match working {
                            Some(w) => Expr::Binary(BinOp::Imp, Box::new(fd), Box::new(w)),
                            None => fd,
                        };
                        proof {
                            assert(joined@ == chain(fv, w0));
                        }
                        Some(joined)
                    },
                    None => working,
                },
                CfgNode::Invariant(_, f) => match f {
                    Some(fe) => {
                        let fd = fe.duplicate();
                        let ghost fv = fd@;
                        let joined = match working {
                            Some(w) => Expr::Binary(BinOp::Imp, Box::new(fd), Box::new(w)),
                            None => fd,
                        };
                        proof {
                            assert(joined@ == chain(fv, w0));
                        }
                        Some(joined)
                    },
                    None => working,
                },
                CfgNode::Precondition(_, f) => match f {
                    Some(fe) => {
                        let fd = fe.duplicate();
                        let ghost fv = fd@;
                        let joined = match working {
                            Some(w) => Expr::Binary(BinOp::Imp, Box::new(fd), Box::new(w)),
                            None => fd,
                        };
                        proof {
                            assert(joined@ == chain(fv, w0));
                        }
                        Some(joined)
                    },
                    None => working,
                },
                _ => working,
            };
            working = step;
        }
        working
    }

    /// The weakest-precondition texts of a list of basic paths, each a
    /// right-nested implication chain.
    pub fn apply_wp_calculus(&self, paths: &Vec<Vec<usize>>) -> (r: Vec<Vec<u8>>)
        requires
            binv(*self),
            forall|p: int, j: int|
                0 <= p < paths@.len() && 0 <= j < (#[trigger] paths@[p])@.len() ==> (
                #[trigger] paths@[p]@[j]) < self.graph.n(),
        ensures
            r@.map_values(|t: Vec<u8>| t@) == wp_texts(self.graph, paths@),
    {
        broadcast use vstd::std_specs::vec::axiom_spec_len;

        proof {
            assert(paths.len() == paths@.len());
        }
        let mut r: Vec<Vec<u8>> = Vec::new();
        let mut p: usize = 0;
        proof {
            assert(paths@.take(0) =~= Seq::<Vec<usize>>::empty());
            assert(r@.map_values(|t: Vec<u8>| t@) =~= wp_texts(self.graph, paths@.take(0)));
        }
        while p < paths.len()
            invariant
                binv(*self),
                0 <= p <= paths@.len(),
                forall|q: int, j: int|
                    0 <= q < paths@.len() && 0 <= j < (#[trigger] paths@[q])@.len() ==> (
                    #[trigger] paths@[q]@[j]) < self.graph.n(),
                r@.map_values(|t: Vec<u8>| t@) == wp_texts(self.graph, paths@.take(p as int)),
            decreases paths@.len() - p,
        {
            let ghost r0 = r@;
            match self.wp_of_path(&paths[p]) {
                Some(e) => {
                    let text = expr_to_bytes(&e);
                    r.push(text);
                    proof {
                        assert(r@.map_values(|t: Vec<u8>| t@) =~= r0.map_values(
                            |t: Vec<u8>| t@,
                        ).push(r@.last()@));
                    }
                },
                None => {},
            }
            proof {
                lemma_wp_texts_snoc(self.graph, paths@, p as int);
                assert(r@.map_values(|t: Vec<u8>| t@) =~= wp_texts(
                    self.graph,
                    paths@.take(p as int + 1),
                ));
            }
            p += 1;
        }
        proof {
            assert(paths@.take(paths@.len() as int) =~= paths@);
        }
        r
    }
}

proof fn lemma_first_pos_is(path: Seq<usize>, node: usize, p: int)
    requires
        0 <= p < path.len(),
        path[p] == node,
        forall|j: int| 0 <= j < p ==> (#[trigger] path[j]) != node,
    ensures
        first_pos(path, node) == p,
    decreases p,
{
    if p > 0 {
        lemma_first_pos_is(path.drop_first(), node, p - 1);
    }
}

proof fn lemma_first_pos_none(path: Seq<usize>, node: usize)
    requires
        forall|j: int| 0 <= j < path.len() ==> (#[trigger] path[j]) != node,
    ensures
        first_pos(path, node) == -1,
    decreases path,
{
    if path.len() > 0 {
        lemma_first_pos_none(path.drop_first(), node);
    }
}

proof fn lemma_first_label_is(edges: Seq<Edge>, a: usize, b: usize, k: int)
    requires
        0 <= k < edges.len(),
        edges[k].src == a && edges[k].dst == b,
        forall|j: int|
            0 <= j < k ==> !((#[trigger] edges[j]).src == a && edges[j].dst == b),
    ensures
        first_label(edges, a, b) == Some(edges[k].label),
    decreases k,
{
    if k > 0 {
        lemma_first_label_is(edges.drop_first(), a, b, k - 1);
    }
}

proof fn lemma_first_label_none(edges: Seq<Edge>, a: usize, b: usize)
    requires
        forall|j: int|
            0 <= j < edges.len() ==> !((#[trigger] edges[j]).src == a && edges[j].dst == b),
    ensures
        first_label(edges, a, b) == None::<EdgeLabel>,
    decreases edges,
{
    if edges.len() > 0 {
        lemma_first_label_none(edges.drop_first(), a, b);
    }
}

} // verus!
