//! The surface form of an annotated function, as handed to the CFG builder.
//!
//! Each statement carries both the structure the builder dispatches on and
//! the printed text that becomes a node label. Branch and loop conditions
//! arrive already in the formula algebra; a construct outside it appears as
//! an opaque expression carrying its text.

use vstd::prelude::*;

use crate::ast::{Expr, Token};

verus! {

/// A whole source file: the functions it holds.
pub struct SrcFile {
    pub functions: Vec<SrcFn>,
}

/// One function: its name and its body statements.
pub struct SrcFn {
    pub name: Vec<u8>,
    pub body: Vec<SrcStmt>,
}

/// A statement of a function body.
pub enum SrcStmt {
    /// A local binding, carried as its printed text.
    Local(Vec<u8>),
    /// An expression statement.
    ExprStmt(SrcExpr),
}

/// An `if` construct.
pub struct IfStmt {
    pub cond_text: Vec<u8>,
    pub cond: Expr,
    pub then_branch: Vec<SrcStmt>,
    pub else_branch: Option<Box<SrcElse>>,
}

/// What follows `else`.
pub enum SrcElse {
    ElseIf(IfStmt),
    Block(Vec<SrcStmt>),
    Single(SrcExpr),
}

/// A `while` loop.
pub struct WhileStmt {
    pub cond_text: Vec<u8>,
    pub cond: Expr,
    pub body: Vec<SrcStmt>,
}

/// A `for` loop.
pub struct ForStmt {
    pub pat_text: Vec<u8>,
    pub iter_text: Vec<u8>,
    pub iter: Expr,
    pub body: Vec<SrcStmt>,
}

/// An expression the builder dispatches on.
pub enum SrcExpr {
    If(IfStmt),
    While(WhileStmt),
    For(ForStmt),
    Return(Vec<u8>),
    /// A free function call: whether the callee is the vector-literal macro,
    /// the printed argument list, and the argument expressions.
    Call(bool, Vec<u8>, Vec<SrcExpr>),
    /// A method call: the method name and the printed call text.
    MethodCall(Vec<u8>, Vec<u8>),
    /// A macro call: its name, its argument tokens and its printed text.
    MacroCall(Vec<u8>, Vec<Token>, Vec<u8>),
    /// An array literal; its elements are visited for nested annotations.
    Array(Vec<SrcExpr>),
    /// Any other expression, carried as its printed text.
    Other(Vec<u8>),
}

/// Whether processing this statement always inserts at least one node.
pub open spec fn stmt_adds_node(s: SrcStmt) -> bool
    decreases s,
{
    match s {
        SrcStmt::Local(_) => true,
        SrcStmt::ExprStmt(e) => expr_adds_node(e),
    }
}

/// Whether processing this expression always inserts at least one node.
pub open spec fn expr_adds_node(e: SrcExpr) -> bool
    decreases e,
{
    match e {
        SrcExpr::If(_) => true,
        SrcExpr::While(_) => true,
        SrcExpr::For(_) => true,
        SrcExpr::Return(_) => true,
        SrcExpr::Call(is_vec, _, args) => is_vec || exprs_add_node(args@),
        SrcExpr::MethodCall(_, _) => true,
        SrcExpr::MacroCall(name, _, _) => name@ != build_cfg_name(),
        SrcExpr::Array(elems) => exprs_add_node(elems@),
        SrcExpr::Other(_) => true,
    }
}

pub open spec fn exprs_add_node(es: Seq<SrcExpr>) -> bool
    decreases es,
{
    if es.len() == 0 {
        false
    } else {
        expr_adds_node(es[0]) || exprs_add_node(es.drop_first())
    }
}

pub open spec fn stmts_add_node(ss: Seq<SrcStmt>) -> bool
    decreases ss,
{
    if ss.len() == 0 {
        false
    } else {
        stmt_adds_node(ss[0]) || stmts_add_node(ss.drop_first())
    }
}

/// The spelling of `post`.
pub open spec fn post_name() -> Seq<u8> {
    seq![('p' as u8), ('o' as u8), ('s' as u8), ('t' as u8)]
}

/// The spelling of `build_cfg`.
pub open spec fn build_cfg_name() -> Seq<u8> {
    seq![
        ('b' as u8), ('u' as u8), ('i' as u8), ('l' as u8), ('d' as u8), ('_' as u8), ('c' as u8),
        ('f' as u8), ('g' as u8),
    ]
}

/// Whether every loop in this statement has a body that inserts a node: the
/// shape under which every loop gains its `true`-labelled edge.
pub open spec fn loops_ok_stmt(s: SrcStmt) -> bool
    decreases s,
{
    match s {
        SrcStmt::Local(_) => true,
        SrcStmt::ExprStmt(e) => loops_ok_expr(e),
    }
}

pub open spec fn loops_ok_expr(e: SrcExpr) -> bool
    decreases e,
{
    match e {
        SrcExpr::If(i) => loops_ok_if(i),
        SrcExpr::While(w) => stmts_add_node(w.body@) && loops_ok_stmts(w.body@),
        SrcExpr::For(f) => stmts_add_node(f.body@) && loops_ok_stmts(f.body@),
        SrcExpr::Call(_, _, args) => loops_ok_exprs(args@),
        SrcExpr::Array(elems) => loops_ok_exprs(elems@),
        _ => true,
    }
}

pub open spec fn loops_ok_if(i: IfStmt) -> bool
    decreases i,
{
    loops_ok_stmts(i.then_branch@) && match i.else_branch {
        Some(els) => loops_ok_else(*els),
        None => true,
    }
}

pub open spec fn loops_ok_else(e: SrcElse) -> bool
    decreases e,
{
    match e {
        SrcElse::ElseIf(i) => loops_ok_if(i),
        SrcElse::Block(ss) => loops_ok_stmts(ss@),
        SrcElse::Single(x) => loops_ok_expr(x),
    }
}

pub open spec fn loops_ok_stmts(ss: Seq<SrcStmt>) -> bool
    decreases ss,
{
    if ss.len() == 0 {
        true
    } else {
        loops_ok_stmt(ss[0]) && loops_ok_stmts(ss.drop_first())
    }
}

pub open spec fn loops_ok_exprs(es: Seq<SrcExpr>) -> bool
    decreases es,
{
    if es.len() == 0 {
        true
    } else {
        loops_ok_expr(es[0]) && loops_ok_exprs(es.drop_first())
    }
}

/// Whether every loop of every function body has a node-inserting body.
pub open spec fn loops_ok_file(f: SrcFile) -> bool {
    forall|k: int|
        0 <= k < f.functions@.len() ==> loops_ok_stmts((#[trigger] f.functions@[k]).body@)
}

/// Pointwise extraction from the list forms of the loop-shape predicates.
pub proof fn lemma_loops_ok_stmts_index(ss: Seq<SrcStmt>, k: int)
    requires
        loops_ok_stmts(ss),
        0 <= k < ss.len(),
    ensures
        loops_ok_stmt(ss[k]),
    decreases ss,
{
    if k > 0 {
        lemma_loops_ok_stmts_index(ss.drop_first(), k - 1);
    }
}

pub proof fn lemma_loops_ok_exprs_index(es: Seq<SrcExpr>, k: int)
    requires
        loops_ok_exprs(es),
        0 <= k < es.len(),
    ensures
        loops_ok_expr(es[k]),
    decreases es,
{
    if k > 0 {
        lemma_loops_ok_exprs_index(es.drop_first(), k - 1);
    }
}

/// Extending a prefix by one statement.
pub proof fn lemma_stmts_add_snoc(ss: Seq<SrcStmt>, k: int)
    requires
        0 <= k < ss.len(),
    ensures
        stmts_add_node(ss.take(k + 1)) == (stmts_add_node(ss.take(k)) || stmt_adds_node(ss[k])),
    decreases k,
{
    if k == 0 {
        assert(ss.take(1) =~= seq![ss[0]]);
        assert(ss.take(0) =~= Seq::<SrcStmt>::empty());
        assert(ss.take(1).drop_first() =~= Seq::<SrcStmt>::empty());
    } else {
        lemma_stmts_add_snoc(ss.drop_first(), k - 1);
        assert(ss.take(k + 1).drop_first() =~= ss.drop_first().take(k));
        assert(ss.take(k).drop_first() =~= ss.drop_first().take(k - 1));
        assert(ss.take(k + 1)[0] == ss[0]);
        assert(ss.take(k)[0] == ss[0]);
    }
}

/// Extending a prefix by one expression.
pub proof fn lemma_exprs_add_snoc(es: Seq<SrcExpr>, k: int)
    requires
        0 <= k < es.len(),
    ensures
        exprs_add_node(es.take(k + 1)) == (exprs_add_node(es.take(k)) || expr_adds_node(es[k])),
    decreases k,
{
    if k == 0 {
        assert(es.take(1) =~= seq![es[0]]);
        assert(es.take(0) =~= Seq::<SrcExpr>::empty());
        assert(es.take(1).drop_first() =~= Seq::<SrcExpr>::empty());
    } else {
        lemma_exprs_add_snoc(es.drop_first(), k - 1);
        assert(es.take(k + 1).drop_first() =~= es.drop_first().take(k));
        assert(es.take(k).drop_first() =~= es.drop_first().take(k - 1));
        assert(es.take(k + 1)[0] == es[0]);
        assert(es.take(k)[0] == es[0]);
    }
}

} // verus!
