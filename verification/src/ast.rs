//! The expression algebra shared by annotations, branch conditions and
//! weakest-precondition formulas.
//!
//! Each executable type has a mathematical twin (`TokenV`, `ExprV`) built from
//! `Seq` values; contracts throughout the crate speak about those views.
//! Annotation macro arguments are kept as raw token sequences, mirroring the
//! textual form the annotations had in the source.

use vstd::prelude::*;

verus! {

/// The delimiter of a token group.
#[derive(Clone, Copy, PartialEq, Eq, Structural, Debug)]
pub enum Delim {
    Paren,
    Bracket,
    Brace,
}

/// One token of an annotation macro's argument stream.
///
/// Multi-character operators appear as consecutive `Punct` tokens; a `Punct`
/// whose flag is true is immediately followed by another punctuation byte
/// with no intervening space.
#[derive(PartialEq, Eq, Debug)]
pub enum Token {
    Ident(Vec<u8>),
    Lit(Vec<u8>),
    Punct(u8, bool),
    Group(Delim, Vec<Token>),
}

/// The mathematical form of a `Token`.
pub enum TokenV {
    Ident(Seq<u8>),
    Lit(Seq<u8>),
    Punct(u8, bool),
    Group(Delim, Seq<TokenV>),
}

/// A binary operator of the formula language. `Imp` is the implication
/// operator, written `>>` in text form.
#[derive(Clone, Copy, PartialEq, Eq, Structural, Debug)]
pub enum BinOp {
    And,
    Or,
    Imp,
    Eq,
    Le,
    Lt,
    Ge,
    Gt,
    Add,
    Sub,
    Mul,
    Div,
}

/// A unary operator; only logical negation exists in the formula language.
#[derive(Clone, Copy, PartialEq, Eq, Structural, Debug)]
pub enum UnOp {
    Not,
}

/// Which kind of conditional construct a branch node came from.
#[derive(Clone, Copy, PartialEq, Eq, Structural, Debug)]
pub enum CondKind {
    If,
    While,
    For,
}

/// Which annotation macro a `MacroCall` expression wraps.
#[derive(Clone, Copy, PartialEq, Eq, Structural, Debug)]
pub enum MacroKind {
    Pre,
    Post,
    Invariant,
}

/// An expression of the formula language.
///
/// `Opaque` carries the textual form of a construct outside the supported
/// grammar; substitution leaves it untouched and lowering rejects it.
#[derive(PartialEq, Eq, Debug)]
pub enum Expr {
    Var(Vec<u8>),
    Lit(Vec<u8>),
    BoolLit(bool),
    Unary(UnOp, Box<Expr>),
    Binary(BinOp, Box<Expr>, Box<Expr>),
    Paren(Box<Expr>),
    Call(Box<Expr>, Vec<Expr>),
    If(Box<Expr>, Vec<Expr>, Option<Box<Expr>>),
    Block(Vec<Expr>),
    MacroCall(MacroKind, Vec<Token>),
    Opaque(Vec<u8>),
}

/// The mathematical form of an `Expr`.
pub enum ExprV {
    Var(Seq<u8>),
    Lit(Seq<u8>),
    BoolLit(bool),
    Unary(UnOp, Box<ExprV>),
    Binary(BinOp, Box<ExprV>, Box<ExprV>),
    Paren(Box<ExprV>),
    Call(Box<ExprV>, Seq<ExprV>),
    If(Box<ExprV>, Seq<ExprV>, Option<Box<ExprV>>),
    Block(Seq<ExprV>),
    MacroCall(MacroKind, Seq<TokenV>),
    Opaque(Seq<u8>),
}

pub open spec fn view_token(t: Token) -> TokenV
    decreases t,
{
    match t {
        Token::Ident(name) => TokenV::Ident(name@),
        Token::Lit(text) => TokenV::Lit(text@),
        Token::Punct(b, joint) => TokenV::Punct(b, joint),
        Token::Group(d, inner) => TokenV::Group(d, view_tokens(inner@)),
    }
}

pub open spec fn view_tokens(ts: Seq<Token>) -> Seq<TokenV>
    decreases ts,
{
    if ts.len() == 0 {
        Seq::empty()
    } else {
        seq![view_token(ts[0])] + view_tokens(ts.drop_first())
    }
}

impl View for Token {
    type V = TokenV;

    open spec fn view(&self) -> TokenV {
        view_token(*self)
    }
}

pub open spec fn view_expr(e: Expr) -> ExprV
    decreases e,
{
    match e {
        Expr::Var(name) => ExprV::Var(name@),
        Expr::Lit(text) => ExprV::Lit(text@),
        Expr::BoolLit(b) => ExprV::BoolLit(b),
        Expr::Unary(op, inner) => ExprV::Unary(op, Box::new(view_expr(*inner))),
        Expr::Binary(op, l, r) => ExprV::Binary(
            op,
            Box::new(view_expr(*l)),
            Box::new(view_expr(*r)),
        ),
        Expr::Paren(inner) => ExprV::Paren(Box::new(view_expr(*inner))),
        Expr::Call(f, args) => ExprV::Call(Box::new(view_expr(*f)), view_exprs(args@)),
        Expr::If(c, t, els) => ExprV::If(
            Box::new(view_expr(*c)),
            view_exprs(t@),
            match els {
                Some(e2) => Some(Box::new(view_expr(*e2))),
                None => None,
            },
        ),
        Expr::Block(stmts) => ExprV::Block(view_exprs(stmts@)),
        Expr::MacroCall(k, tokens) => ExprV::MacroCall(k, view_tokens(tokens@)),
        Expr::Opaque(text) => ExprV::Opaque(text@),
    }
}

pub open spec fn view_exprs(es: Seq<Expr>) -> Seq<ExprV>
    decreases es,
{
    if es.len() == 0 {
        Seq::empty()
    } else {
        seq![view_expr(es[0])] + view_exprs(es.drop_first())
    }
}

impl View for Expr {
    type V = ExprV;

    open spec fn view(&self) -> ExprV {
        view_expr(*self)
    }
}

pub broadcast proof fn lemma_view_tokens_len(ts: Seq<Token>)
    ensures
        (#[trigger] view_tokens(ts)).len() == ts.len(),
    decreases ts,
{
    if ts.len() > 0 {
        lemma_view_tokens_len(ts.drop_first());
    }
}

pub broadcast proof fn lemma_view_tokens_index(ts: Seq<Token>, i: int)
    requires
        0 <= i < ts.len(),
    ensures
        view_tokens(ts).len() == ts.len(),
        #[trigger] view_tokens(ts)[i] == view_token(ts[i]),
    decreases ts,
{
    lemma_view_tokens_len(ts);
    if i > 0 {
        lemma_view_tokens_index(ts.drop_first(), i - 1);
    }
}

pub broadcast proof fn lemma_view_exprs_len(es: Seq<Expr>)
    ensures
        (#[trigger] view_exprs(es)).len() == es.len(),
    decreases es,
{
    if es.len() > 0 {
        lemma_view_exprs_len(es.drop_first());
    }
}

pub broadcast proof fn lemma_view_exprs_index(es: Seq<Expr>, i: int)
    requires
        0 <= i < es.len(),
    ensures
        view_exprs(es).len() == es.len(),
        #[trigger] view_exprs(es)[i] == view_expr(es[i]),
    decreases es,
{
    lemma_view_exprs_len(es);
    if i > 0 {
        lemma_view_exprs_index(es.drop_first(), i - 1);
    }
}

pub broadcast proof fn lemma_view_tokens_concat(a: Seq<Token>, b: Seq<Token>)
    ensures
        #[trigger] view_tokens(a + b) == view_tokens(a) + view_tokens(b),
    decreases a,
{
    if a.len() == 0 {
        assert(a + b =~= b);
        assert(view_tokens(a) + view_tokens(b) =~= view_tokens(b));
    } else {
        lemma_view_tokens_concat(a.drop_first(), b);
        assert((a + b).drop_first() =~= a.drop_first() + b);
        assert((a + b)[0] == a[0]);
        assert(view_tokens(a + b) =~= view_tokens(a) + view_tokens(b));
    }
}

pub proof fn lemma_view_tokens_unsnoc(s: Seq<Token>)
    requires
        s.len() > 0,
    ensures
        view_tokens(s) == view_tokens(s.drop_last()) + seq![view_token(s.last())],
{
    let t = s.last();
    lemma_view_tokens_concat(s.drop_last(), seq![t]);
    assert(s =~= s.drop_last() + seq![t]);
    assert(view_tokens(seq![t]) =~= seq![view_token(t)]) by {
        reveal_with_fuel(view_tokens, 2);
        assert(seq![t].drop_first() =~= Seq::<Token>::empty());
    }
}

pub broadcast proof fn lemma_view_exprs_concat(a: Seq<Expr>, b: Seq<Expr>)
    ensures
        #[trigger] view_exprs(a + b) == view_exprs(a) + view_exprs(b),
    decreases a,
{
    if a.len() == 0 {
        assert(a + b =~= b);
        assert(view_exprs(a) + view_exprs(b) =~= view_exprs(b));
    } else {
        lemma_view_exprs_concat(a.drop_first(), b);
        assert((a + b).drop_first() =~= a.drop_first() + b);
        assert((a + b)[0] == a[0]);
        assert(view_exprs(a + b) =~= view_exprs(a) + view_exprs(b));
    }
}

/// Whether the variable `v` occurs free in `e`. Occurrences inside `Opaque`
/// text are not tracked: an opaque node is a closed leaf of the algebra.
pub open spec fn free_in(e: ExprV, v: Seq<u8>) -> bool
    decreases e,
{
    match e {
        ExprV::Var(name) => name == v,
        ExprV::Lit(_) => false,
        ExprV::BoolLit(_) => false,
        ExprV::Unary(_, inner) => free_in(*inner, v),
        ExprV::Binary(_, l, r) => free_in(*l, v) || free_in(*r, v),
        ExprV::Paren(inner) => free_in(*inner, v),
        ExprV::Call(f, args) => free_in(*f, v) || free_in_seq(args, v),
        ExprV::If(c, t, els) => free_in(*c, v) || free_in_seq(t, v) || match els {
            Some(e2) => free_in(*e2, v),
            None => false,
        },
        ExprV::Block(stmts) => free_in_seq(stmts, v),
        ExprV::MacroCall(_, tokens) => free_in_tokens(tokens, v),
        ExprV::Opaque(_) => false,
    }
}

/// Whether `v` occurs free in any expression of the sequence.
pub open spec fn free_in_seq(es: Seq<ExprV>, v: Seq<u8>) -> bool
    decreases es,
{
    if es.len() == 0 {
        false
    } else {
        free_in(es[0], v) || free_in_seq(es.drop_first(), v)
    }
}

/// Whether `v` occurs as an identifier token anywhere in the token sequence,
/// recursing into groups.
pub open spec fn free_in_tokens(ts: Seq<TokenV>, v: Seq<u8>) -> bool
    decreases ts,
{
    if ts.len() == 0 {
        false
    } else {
        free_in_token(ts[0], v) || free_in_tokens(ts.drop_first(), v)
    }
}

/// Whether `v` occurs as an identifier token in a single token.
pub open spec fn free_in_token(t: TokenV, v: Seq<u8>) -> bool
    decreases t,
{
    match t {
        TokenV::Ident(name) => name == v,
        TokenV::Group(_, inner) => free_in_tokens(inner, v),
        _ => false,
    }
}

impl Token {
    /// A deep copy.
    pub fn duplicate(&self) -> (res: Token)
        ensures
            res@ == self@,
        decreases *self,
    {
        match self {
            Token::Ident(name) => Token::Ident(name.clone()),
            Token::Lit(text) => Token::Lit(text.clone()),
            Token::Punct(b, joint) => Token::Punct(*b, *joint),
            Token::Group(d, inner) => Token::Group(*d, duplicate_tokens(inner)),
        }
    }
}

/// A deep copy of a token list.
pub fn duplicate_tokens(ts: &Vec<Token>) -> (res: Vec<Token>)
    ensures
        view_tokens(res@) == view_tokens(ts@),
    decreases ts@,
{
    let mut res: Vec<Token> = Vec::new();
    let mut i: usize = 0;
    while i < ts.len()
        invariant
            0 <= i <= ts.len(),
            res@.len() == i,
            forall|j: int| 0 <= j < i ==> (#[trigger] res@[j])@ == ts@[j]@,
        decreases ts.len() - i,
    {
        assert(decreases_to!(ts@ => ts@[i as int]));
        let t = ts[i].duplicate();
        res.push(t);
        i += 1;
    }
    proof {
        lemma_views_equal_tokens(res@, ts@);
    }
    res
}

/// Two token lists whose elements have equal views have equal views.
proof fn lemma_views_equal_tokens(a: Seq<Token>, b: Seq<Token>)
    requires
        a.len() == b.len(),
        forall|j: int| 0 <= j < a.len() ==> (#[trigger] a[j])@ == b[j]@,
    ensures
        view_tokens(a) == view_tokens(b),
    decreases a,
{
    if a.len() > 0 {
        lemma_views_equal_tokens(a.drop_first(), b.drop_first());
    }
}

impl Clone for Token {
    fn clone(&self) -> (res: Token)
        ensures
            res@ == self@,
    {
        self.duplicate()
    }
}

impl Expr {
    /// A deep copy.
    pub fn duplicate(&self) -> (res: Expr)
        ensures
            res@ == self@,
        decreases *self,
    {
        match self {
            Expr::Var(name) => Expr::Var(name.clone()),
            Expr::Lit(text) => Expr::Lit(text.clone()),
            Expr::BoolLit(b) => Expr::BoolLit(*b),
            Expr::Unary(op, inner) => Expr::Unary(*op, Box::new(inner.duplicate())),
            Expr::Binary(op, l, r) => Expr::Binary(
                *op,
                Box::new(l.duplicate()),
                Box::new(r.duplicate()),
            ),
            Expr::Paren(inner) => Expr::Paren(Box::new(inner.duplicate())),
            Expr::Call(f, args) => Expr::Call(Box::new(f.duplicate()), duplicate_exprs(args)),
            Expr::If(c, t, els) => Expr::If(
                Box::new(c.duplicate()),
                duplicate_exprs(t),
                match els {
                    Some(e2) => Some(Box::new(e2.duplicate())),
                    None => None,
                },
            ),
            Expr::Block(stmts) => Expr::Block(duplicate_exprs(stmts)),
            Expr::MacroCall(k, tokens) => Expr::MacroCall(*k, duplicate_tokens(tokens)),
            Expr::Opaque(text) => Expr::Opaque(text.clone()),
        }
    }
}

/// A deep copy of an expression list.
pub fn duplicate_exprs(es: &Vec<Expr>) -> (res: Vec<Expr>)
    ensures
        view_exprs(res@) == view_exprs(es@),
    decreases es@,
{
    let mut res: Vec<Expr> = Vec::new();
    let mut i: usize = 0;
    while i < es.len()
        invariant
            0 <= i <= es.len(),
            res@.len() == i,
            forall|j: int| 0 <= j < i ==> (#[trigger] res@[j])@ == es@[j]@,
        decreases es.len() - i,
    {
        assert(decreases_to!(es@ => es@[i as int]));
        let e = es[i].duplicate();
        res.push(e);
        i += 1;
    }
    proof {
        lemma_views_equal_exprs(res@, es@);
    }
    res
}

/// Two expression lists whose elements have equal views have equal views.
proof fn lemma_views_equal_exprs(a: Seq<Expr>, b: Seq<Expr>)
    requires
        a.len() == b.len(),
        forall|j: int| 0 <= j < a.len() ==> (#[trigger] a[j])@ == b[j]@,
    ensures
        view_exprs(a) == view_exprs(b),
    decreases a,
{
    if a.len() > 0 {
        lemma_views_equal_exprs(a.drop_first(), b.drop_first());
    }
}

impl Clone for Expr {
    fn clone(&self) -> (res: Expr)
        ensures
            res@ == self@,
    {
        self.duplicate()
    }
}

} // verus!
