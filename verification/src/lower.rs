//! Lowering a formula to solver terms.
//!
//! Identifiers become integer constants, allocated on first use; the three
//! annotation macros are transparent wrappers around their argument formula;
//! `>>` chains are re-associated into right-nested implications. A construct
//! outside the supported grammar stops the lowering with an error. The final
//! verdict maps the solver's answer on the negated formula: unsatisfiable
//! means valid, satisfiable yields a counterexample model, and an unknown
//! answer leaves the obligation undetermined.

use vstd::prelude::*;

use crate::ast::{BinOp, Expr, ExprV, MacroKind, Token, TokenV, UnOp, view_tokens};
use crate::parse::{parse_formula, parse_formula_spec};

verus! {

/// An integer-sorted solver term.
#[derive(PartialEq, Eq, Debug)]
pub enum IntTerm {
    Const(i64),
    Var(Vec<u8>),
    Add(Box<IntTerm>, Box<IntTerm>),
    Sub(Box<IntTerm>, Box<IntTerm>),
    Mul(Box<IntTerm>, Box<IntTerm>),
    Div(Box<IntTerm>, Box<IntTerm>),
}

/// The mathematical form of an `IntTerm`.
pub enum IntTermV {
    Const(i64),
    Var(Seq<u8>),
    Add(Box<IntTermV>, Box<IntTermV>),
    Sub(Box<IntTermV>, Box<IntTermV>),
    Mul(Box<IntTermV>, Box<IntTermV>),
    Div(Box<IntTermV>, Box<IntTermV>),
}

/// A boolean-sorted solver term.
#[derive(PartialEq, Eq, Debug)]
pub enum BoolTerm {
    Const(bool),
    Not(Box<BoolTerm>),
    And(Box<BoolTerm>, Box<BoolTerm>),
    Or(Box<BoolTerm>, Box<BoolTerm>),
    Implies(Box<BoolTerm>, Box<BoolTerm>),
    EqInt(Box<IntTerm>, Box<IntTerm>),
    EqBool(Box<BoolTerm>, Box<BoolTerm>),
    Le(Box<IntTerm>, Box<IntTerm>),
    Lt(Box<IntTerm>, Box<IntTerm>),
    Ge(Box<IntTerm>, Box<IntTerm>),
    Gt(Box<IntTerm>, Box<IntTerm>),
}

/// The mathematical form of a `BoolTerm`.
pub enum BoolTermV {
    Const(bool),
    Not(Box<BoolTermV>),
    And(Box<BoolTermV>, Box<BoolTermV>),
    Or(Box<BoolTermV>, Box<BoolTermV>),
    Implies(Box<BoolTermV>, Box<BoolTermV>),
    EqInt(Box<IntTermV>, Box<IntTermV>),
    EqBool(Box<BoolTermV>, Box<BoolTermV>),
    Le(Box<IntTermV>, Box<IntTermV>),
    Lt(Box<IntTermV>, Box<IntTermV>),
    Ge(Box<IntTermV>, Box<IntTermV>),
    Gt(Box<IntTermV>, Box<IntTermV>),
}

pub open spec fn view_int_term(t: IntTerm) -> IntTermV
    decreases t,
{
    match t {
        IntTerm::Const(v) => IntTermV::Const(v),
        IntTerm::Var(name) => IntTermV::Var(name@),
        IntTerm::Add(a, b) => IntTermV::Add(
            Box::new(view_int_term(*a)),
            Box::new(view_int_term(*b)),
        ),
        IntTerm::Sub(a, b) => IntTermV::Sub(
            Box::new(view_int_term(*a)),
            Box::new(view_int_term(*b)),
        ),
        IntTerm::Mul(a, b) => IntTermV::Mul(
            Box::new(view_int_term(*a)),
            Box::new(view_int_term(*b)),
        ),
        IntTerm::Div(a, b) => IntTermV::Div(
            Box::new(view_int_term(*a)),
            Box::new(view_int_term(*b)),
        ),
    }
}

impl View for IntTerm {
    type V = IntTermV;

    open spec fn view(&self) -> IntTermV {
        view_int_term(*self)
    }
}

pub open spec fn view_bool_term(t: BoolTerm) -> BoolTermV
    decreases t,
{
    match t {
        BoolTerm::Const(b) => BoolTermV::Const(b),
        BoolTerm::Not(a) => BoolTermV::Not(Box::new(view_bool_term(*a))),
        BoolTerm::And(a, b) => BoolTermV::And(
            Box::new(view_bool_term(*a)),
            Box::new(view_bool_term(*b)),
        ),
        BoolTerm::Or(a, b) => BoolTermV::Or(
            Box::new(view_bool_term(*a)),
            Box::new(view_bool_term(*b)),
        ),
        BoolTerm::Implies(a, b) => BoolTermV::Implies(
            Box::new(view_bool_term(*a)),
            Box::new(view_bool_term(*b)),
        ),
        BoolTerm::EqInt(a, b) => BoolTermV::EqInt(Box::new(view_int_term(*a)), Box::new(view_int_term(*b))),
        BoolTerm::EqBool(a, b) => BoolTermV::EqBool(
            Box::new(view_bool_term(*a)),
            Box::new(view_bool_term(*b)),
        ),
        BoolTerm::Le(a, b) => BoolTermV::Le(Box::new(view_int_term(*a)), Box::new(view_int_term(*b))),
        BoolTerm::Lt(a, b) => BoolTermV::Lt(Box::new(view_int_term(*a)), Box::new(view_int_term(*b))),
        BoolTerm::Ge(a, b) => BoolTermV::Ge(Box::new(view_int_term(*a)), Box::new(view_int_term(*b))),
        BoolTerm::Gt(a, b) => BoolTermV::Gt(Box::new(view_int_term(*a)), Box::new(view_int_term(*b))),
    }
}

impl View for BoolTerm {
    type V = BoolTermV;

    open spec fn view(&self) -> BoolTermV {
        view_bool_term(*self)
    }
}

/// Why a lowering stopped.
#[derive(Clone, Copy, PartialEq, Eq, Structural, Debug)]
pub enum LowerError {
    /// The construct lies outside the supported grammar.
    UnsupportedExpr,
    /// A boolean operand was required.
    ExpectedBool,
    /// An integer operand was required.
    ExpectedInt,
    /// A literal is not a plain integer in range.
    BadLiteral,
    /// An annotation macro's argument does not parse as a formula.
    BadMacroArgument,
    /// The formula nests too deeply to lower.
    OutOfFuel,
}

/// A lowered term of either sort.
pub enum LoweredV {
    B(BoolTermV),
    I(IntTermV),
}

/// A lowered term of either sort, in executable form.
pub enum Lowered {
    B(BoolTerm),
    I(IntTerm),
}

/// The value of a digit string, or nothing on overflow past `i64::MAX`.
pub open spec fn digits_val_from(s: Seq<u8>, i: int, acc: int) -> Option<i64>
    decreases s.len() - i,
{
    if i < 0 || i >= s.len() {
        Some(acc as i64)
    } else if !crate::lex::is_digit(s[i]) {
        None
    } else {
        let a2 = acc * 10 + (s[i] - ('0' as u8));
        if a2 > i64::MAX {
            None
        } else {
            digits_val_from(s, i + 1, a2)
        }
    }
}

pub open spec fn digits_val(s: Seq<u8>) -> Option<i64> {
    if s.len() == 0 {
        Some(0i64)
    } else {
        digits_val_from(s, 0, 0)
    }
}

/// Reads a base-ten literal.
fn digits_exec(s: &[u8]) -> (r: Option<i64>)
    ensures
        r == digits_val(s@),
{
    if s.len() == 0 {
        return Some(0);
    }
    let mut acc: i64 = 0;
    let mut i: usize = 0;
    while i < s.len()
        invariant
            0 <= i <= s@.len(),
            0 <= acc,
            digits_val_from(s@, 0, 0) == digits_val_from(s@, i as int, acc as int),
        decreases s@.len() - i,
    {
        let b = s[i];
        if !(('0' as u8) <= b && b <= ('9' as u8)) {
            proof {
                assert(digits_val_from(s@, i as int, acc as int) == None::<i64>);
            }
            return None;
        }
        let d = b - ('0' as u8);
        if acc > (i64::MAX - (d as i64)) / 10 {
            proof {
                assert(acc * 10 + d > i64::MAX) by {
                    assert(acc >= (i64::MAX - d) / 10 + 1);
                    assert(acc * 10 >= ((i64::MAX - d) / 10 + 1) * 10) by (nonlinear_arith)
                        requires
                            acc >= (i64::MAX - d) / 10 + 1,
                    ;
                    assert(((i64::MAX - d) / 10 + 1) * 10 > i64::MAX - d);
                }
                assert(digits_val_from(s@, i as int, acc as int) == None::<i64>);
            }
            return None;
        }
        acc = acc * 10 + (d as i64);
        i += 1;
    }
    Some(acc)
}

/// The fuel the lowering starts with; ample for any formula whose annotation
/// nesting is bounded by its printed size.
pub open spec fn lower_fuel(e: ExprV) -> nat {
    0x10000000
}

/// Lowers one formula node.
pub open spec fn lower_expr(e: ExprV, fuel: nat) -> Result<LoweredV, LowerError>
    decreases fuel,
{
    if fuel == 0 {
        Err(LowerError::OutOfFuel)
    } else {
        match e {
            ExprV::Var(name) => Ok(LoweredV::I(IntTermV::Var(name))),
            ExprV::Lit(text) => match digits_val(text) {
                Some(v) => Ok(LoweredV::I(IntTermV::Const(v))),
                None => Err(LowerError::BadLiteral),
            },
            ExprV::BoolLit(b) => Ok(LoweredV::B(BoolTermV::Const(b))),
            ExprV::Paren(inner) => lower_expr(*inner, (fuel - 1) as nat),
            ExprV::Unary(UnOp::Not, inner) => match lower_bool(*inner, (fuel - 1) as nat) {
                Ok(t) => Ok(LoweredV::B(BoolTermV::Not(Box::new(t)))),
                Err(err) => Err(err),
            },
            ExprV::MacroCall(_, ts) => match parse_formula_spec(ts) {
                Some(inner) => lower_expr(inner, (fuel - 1) as nat),
                None => Err(LowerError::BadMacroArgument),
            },
            ExprV::Binary(op, l, r) => lower_binary(op, *l, *r, (fuel - 1) as nat),
            _ => Err(LowerError::UnsupportedExpr),
        }
    }
}

/// Lowers a node that must come out boolean.
pub open spec fn lower_bool(e: ExprV, fuel: nat) -> Result<BoolTermV, LowerError>
    decreases fuel,
{
    if fuel == 0 {
        Err(LowerError::OutOfFuel)
    } else {
        match lower_expr(e, (fuel - 1) as nat) {
            Ok(LoweredV::B(t)) => Ok(t),
            Ok(LoweredV::I(_)) => Err(LowerError::ExpectedBool),
            Err(err) => Err(err),
        }
    }
}

/// Lowers a node that must come out integer.
pub open spec fn lower_int(e: ExprV, fuel: nat) -> Result<IntTermV, LowerError>
    decreases fuel,
{
    if fuel == 0 {
        Err(LowerError::OutOfFuel)
    } else {
        match lower_expr(e, (fuel - 1) as nat) {
            Ok(LoweredV::I(t)) => Ok(t),
            Ok(LoweredV::B(_)) => Err(LowerError::ExpectedInt),
            Err(err) => Err(err),
        }
    }
}

/// Lowers a binary node. An implication chain `a >> b >> c`, left-nested by
/// the parser, is re-associated into `a => (b => c)`.
pub open spec fn lower_binary(op: BinOp, l: ExprV, r: ExprV, fuel: nat) -> Result<
    LoweredV,
    LowerError,
>
    decreases fuel,
{
    if fuel == 0 {
        Err(LowerError::OutOfFuel)
    } else {
        match op {
            BinOp::And => match (lower_bool(l, (fuel - 1) as nat), lower_bool(
                r,
                (fuel - 1) as nat,
            )) {
                (Ok(a), Ok(b)) => Ok(LoweredV::B(BoolTermV::And(Box::new(a), Box::new(b)))),
                (Err(err), _) => Err(err),
                (_, Err(err)) => Err(err),
            },
            BinOp::Or => match (lower_bool(l, (fuel - 1) as nat), lower_bool(
                r,
                (fuel - 1) as nat,
            )) {
                (Ok(a), Ok(b)) => Ok(LoweredV::B(BoolTermV::Or(Box::new(a), Box::new(b)))),
                (Err(err), _) => Err(err),
                (_, Err(err)) => Err(err),
            },
            BinOp::Eq => match (lower_expr(l, (fuel - 1) as nat), lower_expr(
                r,
                (fuel - 1) as nat,
            )) {
                (Ok(LoweredV::I(a)), Ok(LoweredV::I(b))) => Ok(
                    LoweredV::B(BoolTermV::EqInt(Box::new(a), Box::new(b))),
                ),
                (Ok(LoweredV::B(a)), Ok(LoweredV::B(b))) => Ok(
                    LoweredV::B(BoolTermV::EqBool(Box::new(a), Box::new(b))),
                ),
                (Err(err), _) => Err(err),
                (_, Err(err)) => Err(err),
                _ => Err(LowerError::ExpectedInt),
            },
            BinOp::Le => match (lower_int(l, (fuel - 1) as nat), lower_int(r, (fuel - 1) as nat)) {
                (Ok(a), Ok(b)) => Ok(LoweredV::B(BoolTermV::Le(Box::new(a), Box::new(b)))),
                (Err(err), _) => Err(err),
                (_, Err(err)) => Err(err),
            },
            BinOp::Lt => match (lower_int(l, (fuel - 1) as nat), lower_int(r, (fuel - 1) as nat)) {
                (Ok(a), Ok(b)) => Ok(LoweredV::B(BoolTermV::Lt(Box::new(a), Box::new(b)))),
                (Err(err), _) => Err(err),
                (_, Err(err)) => Err(err),
            },
            BinOp::Ge => match (lower_int(l, (fuel - 1) as nat), lower_int(r, (fuel - 1) as nat)) {
                (Ok(a), Ok(b)) => Ok(LoweredV::B(BoolTermV::Ge(Box::new(a), Box::new(b)))),
                (Err(err), _) => Err(err),
                (_, Err(err)) => Err(err),
            },
            BinOp::Gt => match (lower_int(l, (fuel - 1) as nat), lower_int(r, (fuel - 1) as nat)) {
                (Ok(a), Ok(b)) => Ok(LoweredV::B(BoolTermV::Gt(Box::new(a), Box::new(b)))),
                (Err(err), _) => Err(err),
                (_, Err(err)) => Err(err),
            },
            BinOp::Add => match (lower_int(l, (fuel - 1) as nat), lower_int(
                r,
                (fuel - 1) as nat,
            )) {
                (Ok(a), Ok(b)) => Ok(LoweredV::I(IntTermV::Add(Box::new(a), Box::new(b)))),
                (Err(err), _) => Err(err),
                (_, Err(err)) => Err(err),
            },
            BinOp::Sub => match (lower_int(l, (fuel - 1) as nat), lower_int(
                r,
                (fuel - 1) as nat,
            )) {
                (Ok(a), Ok(b)) => Ok(LoweredV::I(IntTermV::Sub(Box::new(a), Box::new(b)))),
                (Err(err), _) => Err(err),
                (_, Err(err)) => Err(err),
            },
            BinOp::Mul => match (lower_int(l, (fuel - 1) as nat), lower_int(
                r,
                (fuel - 1) as nat,
            )) {
                (Ok(a), Ok(b)) => Ok(LoweredV::I(IntTermV::Mul(Box::new(a), Box::new(b)))),
                (Err(err), _) => Err(err),
                (_, Err(err)) => Err(err),
            },
            BinOp::Div => match (lower_int(l, (fuel - 1) as nat), lower_int(
                r,
                (fuel - 1) as nat,
            )) {
                (Ok(a), Ok(b)) => Ok(LoweredV::I(IntTermV::Div(Box::new(a), Box::new(b)))),
                (Err(err), _) => Err(err),
                (_, Err(err)) => Err(err),
            },
            BinOp::Imp => match lower_bool(r, (fuel - 1) as nat) {
                Ok(rb) => match lower_imp_left(l, rb, (fuel - 1) as nat) {
                    Ok(t) => Ok(LoweredV::B(t)),
                    Err(err) => Err(err),
                },
                Err(err) => Err(err),
            },
        }
    }
}

/// Folds the left spine of an implication chain into a right-nested term:
/// the continuation is what everything to the right already became.
pub open spec fn lower_imp_left(l: ExprV, cont: BoolTermV, fuel: nat) -> Result<
    BoolTermV,
    LowerError,
>
    decreases fuel,
{
    if fuel == 0 {
        Err(LowerError::OutOfFuel)
    } else if l is Binary && l->Binary_0 == BinOp::Imp {
        match lower_bool(*l->Binary_2, (fuel - 1) as nat) {
            Ok(rb) => lower_imp_left(
                *l->Binary_1,
                BoolTermV::Implies(Box::new(rb), Box::new(cont)),
                (fuel - 1) as nat,
            ),
            Err(err) => Err(err),
        }
    } else {
        match lower_bool(l, (fuel - 1) as nat) {
            Ok(lb) => Ok(BoolTermV::Implies(Box::new(lb), Box::new(cont))),
            Err(err) => Err(err),
        }
    }
}

} // verus!

verus! {

pub open spec fn view_lowered(l: Lowered) -> LoweredV {
    match l {
        Lowered::B(t) => LoweredV::B(view_bool_term(t)),
        Lowered::I(t) => LoweredV::I(view_int_term(t)),
    }
}

/// Lowers one formula node, in executable form.
pub fn e_lower(e: &Expr, fuel: usize) -> (r: Result<Lowered, LowerError>)
    ensures
        match r {
            Ok(l) => lower_expr(e@, fuel as nat) == Ok::<LoweredV, LowerError>(view_lowered(l)),
            Err(err) => lower_expr(e@, fuel as nat) == Err::<LoweredV, LowerError>(err),
        },
    decreases fuel, 2int,
{
    if fuel == 0 {
        return Err(LowerError::OutOfFuel);
    }
    match e {
        Expr::Var(name) => {
            let t = IntTerm::Var(name.clone());
            proof {
                assert(t@ == IntTermV::Var(name@));
            }
            Ok(Lowered::I(t))
        },
        Expr::Lit(text) => match digits_exec(text.as_slice()) {
            Some(v) => Ok(Lowered::I(IntTerm::Const(v))),
            None => Err(LowerError::BadLiteral),
        },
        Expr::BoolLit(b) => Ok(Lowered::B(BoolTerm::Const(*b))),
        Expr::Paren(inner) => e_lower(inner, fuel - 1),
        Expr::Unary(op, inner) => match e_lower_bool(inner, fuel - 1) {
            Ok(t) => {
                let ghost tv = t@;
                let out = BoolTerm::Not(Box::new(t));
                proof {
                    assert(out@ == BoolTermV::Not(Box::new(tv)));
                }
                Ok(Lowered::B(out))
            },
            Err(err) => Err(err),
        },
        Expr::MacroCall(_, ts) => {
            match parse_formula(ts) {
                Some(inner) => e_lower(&inner, fuel - 1),
                None => Err(LowerError::BadMacroArgument),
            }
        },
        Expr::Binary(op, l, r) => e_lower_binary(*op, l, r, fuel - 1),
        _ => Err(LowerError::UnsupportedExpr),
    }
}

/// Lowers a node that must come out boolean, in executable form.
fn e_lower_bool(e: &Expr, fuel: usize) -> (r: Result<BoolTerm, LowerError>)
    ensures
        match r {
            Ok(t) => lower_bool(e@, fuel as nat) == Ok::<BoolTermV, LowerError>(t@),
            Err(err) => lower_bool(e@, fuel as nat) == Err::<BoolTermV, LowerError>(err),
        },
    decreases fuel, 2int,
{
    if fuel == 0 {
        return Err(LowerError::OutOfFuel);
    }
    match e_lower(e, fuel - 1) {
        Ok(Lowered::B(t)) => Ok(t),
        Ok(Lowered::I(_)) => Err(LowerError::ExpectedBool),
        Err(err) => Err(err),
    }
}

/// Lowers a node that must come out integer, in executable form.
fn e_lower_int(e: &Expr, fuel: usize) -> (r: Result<IntTerm, LowerError>)
    ensures
        match r {
            Ok(t) => lower_int(e@, fuel as nat) == Ok::<IntTermV, LowerError>(t@),
            Err(err) => lower_int(e@, fuel as nat) == Err::<IntTermV, LowerError>(err),
        },
    decreases fuel, 2int,
{
    if fuel == 0 {
        return Err(LowerError::OutOfFuel);
    }
    match e_lower(e, fuel - 1) {
        Ok(Lowered::I(t)) => Ok(t),
        Ok(Lowered::B(_)) => Err(LowerError::ExpectedInt),
        Err(err) => Err(err),
    }
}

/// Lowers a binary node, in executable form.
#[verifier::rlimit(100)]
#[verifier::spinoff_prover]
fn e_lower_binary(op: BinOp, l: &Expr, r: &Expr, fuel: usize) -> (res: Result<
    Lowered,
    LowerError,
>)
    ensures
        match res {
            Ok(t) => lower_binary(op, l@, r@, fuel as nat) == Ok::<LoweredV, LowerError>(
                view_lowered(t),
            ),
            Err(err) => lower_binary(op, l@, r@, fuel as nat) == Err::<LoweredV, LowerError>(err),
        },
    decreases fuel, 1int,
{
    if fuel == 0 {
        return Err(LowerError::OutOfFuel);
    }
    match op {
        BinOp::And => match (e_lower_bool(l, fuel - 1), e_lower_bool(r, fuel - 1)) {
            (Ok(a), Ok(b)) => {
                let ghost av = a@;
                let ghost bv = b@;
                let out = BoolTerm::And(Box::new(a), Box::new(b));
                proof {
                    assert(out@ == BoolTermV::And(Box::new(av), Box::new(bv)));
                }
                Ok(Lowered::B(out))
            },
            (Err(err), _) => Err(err),
            (_, Err(err)) => Err(err),
        },
        BinOp::Or => match (e_lower_bool(l, fuel - 1), e_lower_bool(r, fuel - 1)) {
            (Ok(a), Ok(b)) => {
                let ghost av = a@;
                let ghost bv = b@;
                let out = BoolTerm::Or(Box::new(a), Box::new(b));
                proof {
                    assert(out@ == BoolTermV::Or(Box::new(av), Box::new(bv)));
                }
                Ok(Lowered::B(out))
            },
            (Err(err), _) => Err(err),
            (_, Err(err)) => Err(err),
        },
        BinOp::Eq => match (e_lower(l, fuel - 1), e_lower(r, fuel - 1)) {
            (Ok(Lowered::I(a)), Ok(Lowered::I(b))) => {
                let ghost av = a@;
                let ghost bv = b@;
                let out = BoolTerm::EqInt(Box::new(a), Box::new(b));
                proof {
                    assert(out@ == BoolTermV::EqInt(Box::new(av), Box::new(bv)));
                }
                Ok(Lowered::B(out))
            },
            (Ok(Lowered::B(a)), Ok(Lowered::B(b))) => {
                let ghost av = a@;
                let ghost bv = b@;
                let out = BoolTerm::EqBool(Box::new(a), Box::new(b));
                proof {
                    assert(out@ == BoolTermV::EqBool(Box::new(av), Box::new(bv)));
                }
                Ok(Lowered::B(out))
            },
            (Err(err), _) => Err(err),
            (_, Err(err)) => Err(err),
            _ => Err(LowerError::ExpectedInt),
        },
        BinOp::Imp => match e_lower_bool(r, fuel - 1) {
            Ok(rb) => match e_lower_imp_left(l, rb, fuel - 1) {
                Ok(t) => Ok(Lowered::B(t)),
                Err(err) => Err(err),
            },
            Err(err) => Err(err),
        },
        _ => e_lower_arith_cmp(op, l, r, fuel),
    }
}

/// Lowers the comparison and arithmetic operators, whose operands are both
/// integer-sorted.
#[verifier::rlimit(100)]
#[verifier::spinoff_prover]
fn e_lower_arith_cmp(op: BinOp, l: &Expr, r: &Expr, fuel: usize) -> (res: Result<
    Lowered,
    LowerError,
>)
    requires
        fuel > 0,
        !(op == BinOp::And || op == BinOp::Or || op == BinOp::Eq || op == BinOp::Imp),
    ensures
        match res {
            Ok(t) => lower_binary(op, l@, r@, fuel as nat) == Ok::<LoweredV, LowerError>(
                view_lowered(t),
            ),
            Err(err) => lower_binary(op, l@, r@, fuel as nat) == Err::<LoweredV, LowerError>(err),
        },
    decreases fuel, 0int,
{
    match op {
        BinOp::Le => match (e_lower_int(l, fuel - 1), e_lower_int(r, fuel - 1)) {
            (Ok(a), Ok(b)) => {
                let ghost av = a@;
                let ghost bv = b@;
                let out = BoolTerm::Le(Box::new(a), Box::new(b));
                proof {
                    assert(out@ == BoolTermV::Le(Box::new(av), Box::new(bv)));
                }
                Ok(Lowered::B(out))
            },
            (Err(err), _) => Err(err),
            (_, Err(err)) => Err(err),
        },
        BinOp::Lt => match (e_lower_int(l, fuel - 1), e_lower_int(r, fuel - 1)) {
            (Ok(a), Ok(b)) => {
                let ghost av = a@;
                let ghost bv = b@;
                let out = BoolTerm::Lt(Box::new(a), Box::new(b));
                proof {
                    assert(out@ == BoolTermV::Lt(Box::new(av), Box::new(bv)));
                }
                Ok(Lowered::B(out))
            },
            (Err(err), _) => Err(err),
            (_, Err(err)) => Err(err),
        },
        BinOp::Ge => match (e_lower_int(l, fuel - 1), e_lower_int(r, fuel - 1)) {
            (Ok(a), Ok(b)) => {
                let ghost av = a@;
                let ghost bv = b@;
                let out = BoolTerm::Ge(Box::new(a), Box::new(b));
                proof {
                    assert(out@ == BoolTermV::Ge(Box::new(av), Box::new(bv)));
                }
                Ok(Lowered::B(out))
            },
            (Err(err), _) => Err(err),
            (_, Err(err)) => Err(err),
        },
        BinOp::Gt => match (e_lower_int(l, fuel - 1), e_lower_int(r, fuel - 1)) {
            (Ok(a), Ok(b)) => {
                let ghost av = a@;
                let ghost bv = b@;
                let out = BoolTerm::Gt(Box::new(a), Box::new(b));
                proof {
                    assert(out@ == BoolTermV::Gt(Box::new(av), Box::new(bv)));
                }
                Ok(Lowered::B(out))
            },
            (Err(err), _) => Err(err),
            (_, Err(err)) => Err(err),
        },
        BinOp::Add => match (e_lower_int(l, fuel - 1), e_lower_int(r, fuel - 1)) {
            (Ok(a), Ok(b)) => {
                let ghost av = a@;
                let ghost bv = b@;
                let out = IntTerm::Add(Box::new(a), Box::new(b));
                proof {
                    assert(out@ == IntTermV::Add(Box::new(av), Box::new(bv)));
                }
                Ok(Lowered::I(out))
            },
            (Err(err), _) => Err(err),
            (_, Err(err)) => Err(err),
        },
        BinOp::Sub => match (e_lower_int(l, fuel - 1), e_lower_int(r, fuel - 1)) {
            (Ok(a), Ok(b)) => {
                let ghost av = a@;
                let ghost bv = b@;
                let out = IntTerm::Sub(Box::new(a), Box::new(b));
                proof {
                    assert(out@ == IntTermV::Sub(Box::new(av), Box::new(bv)));
                }
                Ok(Lowered::I(out))
            },
            (Err(err), _) => Err(err),
            (_, Err(err)) => Err(err),
        },
        BinOp::Mul => match (e_lower_int(l, fuel - 1), e_lower_int(r, fuel - 1)) {
            (Ok(a), Ok(b)) => {
                let ghost av = a@;
                let ghost bv = b@;
                let out = IntTerm::Mul(Box::new(a), Box::new(b));
                proof {
                    assert(out@ == IntTermV::Mul(Box::new(av), Box::new(bv)));
                }
                Ok(Lowered::I(out))
            },
            (Err(err), _) => Err(err),
            (_, Err(err)) => Err(err),
        },
        BinOp::Div => match (e_lower_int(l, fuel - 1), e_lower_int(r, fuel - 1)) {
            (Ok(a), Ok(b)) => {
                let ghost av = a@;
                let ghost bv = b@;
                let out = IntTerm::Div(Box::new(a), Box::new(b));
                proof {
                    assert(out@ == IntTermV::Div(Box::new(av), Box::new(bv)));
                }
                Ok(Lowered::I(out))
            },
            (Err(err), _) => Err(err),
            (_, Err(err)) => Err(err),
        },
        _ => {
            proof {
                assert(false);
            }
            Err(LowerError::UnsupportedExpr)
        },
    }
}

/// Folds an implication chain's left spine, in executable form.
fn e_lower_imp_left(l: &Expr, cont: BoolTerm, fuel: usize) -> (res: Result<BoolTerm, LowerError>)
    ensures
        match res {
            Ok(t) => lower_imp_left(l@, cont@, fuel as nat) == Ok::<BoolTermV, LowerError>(t@),
            Err(err) => lower_imp_left(l@, cont@, fuel as nat) == Err::<BoolTermV, LowerError>(
                err,
            ),
        },
    decreases fuel, 2int,
{
    if fuel == 0 {
        return Err(LowerError::OutOfFuel);
    }
    let is_imp = match l {
        Expr::Binary(BinOp::Imp, _, _) => true,
        _ => false,
    };
    if is_imp {
        match l {
            Expr::Binary(_, l2, r2) => match e_lower_bool(r2, fuel - 1) {
                Ok(rb) => {
                    let ghost rbv = rb@;
                    let ghost contv = cont@;
                    let next = BoolTerm::Implies(Box::new(rb), Box::new(cont));
                    proof {
                        assert(next@ == BoolTermV::Implies(Box::new(rbv), Box::new(contv)));
                    }
                    e_lower_imp_left(l2, next, fuel - 1)
                },
                Err(err) => Err(err),
            },
            _ => {
                proof {
                    assert(false);
                }
                Err(LowerError::UnsupportedExpr)
            },
        }
    } else {
        match e_lower_bool(l, fuel - 1) {
            Ok(lb) => {
                let ghost lbv = lb@;
                let ghost contv = cont@;
                let out = BoolTerm::Implies(Box::new(lb), Box::new(cont));
                proof {
                    assert(out@ == BoolTermV::Implies(Box::new(lbv), Box::new(contv)));
                }
                Ok(out)
            },
            Err(err) => Err(err),
        }
    }
}

/// The identifier list view.
pub open spec fn names_view(vs: Seq<Vec<u8>>) -> Seq<Seq<u8>> {
    vs.map_values(|v: Vec<u8>| v@)
}

/// Appends a variable unless already present.
pub open spec fn add_var(acc: Seq<Seq<u8>>, v: Seq<u8>) -> Seq<Seq<u8>> {
    if acc.contains(v) {
        acc
    } else {
        acc.push(v)
    }
}

/// The variables of an integer term, first occurrence first.
pub open spec fn vars_int(t: IntTermV, acc: Seq<Seq<u8>>) -> Seq<Seq<u8>>
    decreases t,
{
    match t {
        IntTermV::Const(_) => acc,
        IntTermV::Var(name) => add_var(acc, name),
        IntTermV::Add(a, b) => vars_int(*b, vars_int(*a, acc)),
        IntTermV::Sub(a, b) => vars_int(*b, vars_int(*a, acc)),
        IntTermV::Mul(a, b) => vars_int(*b, vars_int(*a, acc)),
        IntTermV::Div(a, b) => vars_int(*b, vars_int(*a, acc)),
    }
}

/// The variables of a boolean term, first occurrence first.
pub open spec fn vars_bool(t: BoolTermV, acc: Seq<Seq<u8>>) -> Seq<Seq<u8>>
    decreases t,
{
    match t {
        BoolTermV::Const(_) => acc,
        BoolTermV::Not(a) => vars_bool(*a, acc),
        BoolTermV::And(a, b) => vars_bool(*b, vars_bool(*a, acc)),
        BoolTermV::Or(a, b) => vars_bool(*b, vars_bool(*a, acc)),
        BoolTermV::Implies(a, b) => vars_bool(*b, vars_bool(*a, acc)),
        BoolTermV::EqInt(a, b) => vars_int(*b, vars_int(*a, acc)),
        BoolTermV::EqBool(a, b) => vars_bool(*b, vars_bool(*a, acc)),
        BoolTermV::Le(a, b) => vars_int(*b, vars_int(*a, acc)),
        BoolTermV::Lt(a, b) => vars_int(*b, vars_int(*a, acc)),
        BoolTermV::Ge(a, b) => vars_int(*b, vars_int(*a, acc)),
        BoolTermV::Gt(a, b) => vars_int(*b, vars_int(*a, acc)),
    }
}

/// Whether the list already holds this name.
fn names_contain(acc: &Vec<Vec<u8>>, v: &Vec<u8>) -> (r: bool)
    ensures
        r == names_view(acc@).contains(v@),
{
    broadcast use vstd::std_specs::vec::axiom_spec_len;

    proof {
        assert(acc.len() == acc@.len());
    }
    let mut i: usize = 0;
    while i < acc.len()
        invariant
            0 <= i <= acc@.len(),
            forall|j: int| 0 <= j < i ==> (#[trigger] acc@[j])@ != v@,
        decreases acc@.len() - i,
    {
        if crate::bytes_eq(acc[i].as_slice(), v.as_slice()) {
            proof {
                assert(names_view(acc@)[i as int] == v@);
            }
            return true;
        }
        i += 1;
    }
    proof {
        if names_view(acc@).contains(v@) {
            let j = choose|j: int|
                0 <= j < names_view(acc@).len() && names_view(acc@)[j] == v@;
            assert(acc@[j]@ == v@);
        }
    }
    false
}

/// Collects the variables of an integer term into `acc`.
fn e_vars_int(t: &IntTerm, acc: Vec<Vec<u8>>) -> (r: Vec<Vec<u8>>)
    ensures
        names_view(r@) == vars_int(t@, names_view(acc@)),
    decreases *t,
{
    match t {
        IntTerm::Const(_) => acc,
        IntTerm::Var(name) => {
            if names_contain(&acc, name) {
                acc
            } else {
                let ghost acc0 = acc@;
                let mut acc = acc;
                acc.push(name.clone());
                proof {
                    assert(names_view(acc@) =~= names_view(acc0).push(name@));
                }
                acc
            }
        },
        IntTerm::Add(a, b) => {
            let acc = e_vars_int(a, acc);
            e_vars_int(b, acc)
        },
        IntTerm::Sub(a, b) => {
            let acc = e_vars_int(a, acc);
            e_vars_int(b, acc)
        },
        IntTerm::Mul(a, b) => {
            let acc = e_vars_int(a, acc);
            e_vars_int(b, acc)
        },
        IntTerm::Div(a, b) => {
            let acc = e_vars_int(a, acc);
            e_vars_int(b, acc)
        },
    }
}

/// Collects the variables of a boolean term into `acc`.
fn e_vars_bool(t: &BoolTerm, acc: Vec<Vec<u8>>) -> (r: Vec<Vec<u8>>)
    ensures
        names_view(r@) == vars_bool(t@, names_view(acc@)),
    decreases *t,
{
    match t {
        BoolTerm::Const(_) => acc,
        BoolTerm::Not(a) => e_vars_bool(a, acc),
        BoolTerm::And(a, b) => {
            let acc = e_vars_bool(a, acc);
            e_vars_bool(b, acc)
        },
        BoolTerm::Or(a, b) => {
            let acc = e_vars_bool(a, acc);
            e_vars_bool(b, acc)
        },
        BoolTerm::Implies(a, b) => {
            let acc = e_vars_bool(a, acc);
            e_vars_bool(b, acc)
        },
        BoolTerm::EqInt(a, b) => {
            let acc = e_vars_int(a, acc);
            e_vars_int(b, acc)
        },
        BoolTerm::EqBool(a, b) => {
            let acc = e_vars_bool(a, acc);
            e_vars_bool(b, acc)
        },
        BoolTerm::Le(a, b) => {
            let acc = e_vars_int(a, acc);
            e_vars_int(b, acc)
        },
        BoolTerm::Lt(a, b) => {
            let acc = e_vars_int(a, acc);
            e_vars_int(b, acc)
        },
        BoolTerm::Ge(a, b) => {
            let acc = e_vars_int(a, acc);
            e_vars_int(b, acc)
        },
        BoolTerm::Gt(a, b) => {
            let acc = e_vars_int(a, acc);
            e_vars_int(b, acc)
        },
    }
}

/// What `generate_condition_and_vars` returns: the boolean lowering of the
/// formula together with its identifiers, in first-use order.
pub open spec fn condition_and_vars_spec(e: ExprV) -> Result<
    (BoolTermV, Seq<Seq<u8>>),
    LowerError,
> {
    match lower_expr(e, lower_fuel(e)) {
        Ok(LoweredV::B(t)) => Ok((t, vars_bool(t, Seq::empty()))),
        Ok(LoweredV::I(_)) => Err(LowerError::ExpectedBool),
        Err(err) => Err(err),
    }
}

/// Lowers a formula to a boolean solver term and gathers its identifiers.
pub fn generate_condition_and_vars(expr: &Expr) -> (r: Result<
    (BoolTerm, Vec<Vec<u8>>),
    LowerError,
>)
    ensures
        match r {
            Ok(p) => condition_and_vars_spec(expr@) == Ok::<(BoolTermV, Seq<Seq<u8>>), LowerError>(
                (p.0@, names_view(p.1@)),
            ),
            Err(err) => condition_and_vars_spec(expr@) == Err::<
                (BoolTermV, Seq<Seq<u8>>),
                LowerError,
            >(err),
        },
{
    let fuel: usize = 0x10000000;
    match e_lower(expr, fuel) {
        Ok(Lowered::B(t)) => {
            let empty: Vec<Vec<u8>> = Vec::new();
            proof {
                assert(names_view(empty@) =~= Seq::<Seq<u8>>::empty());
            }
            let vars = e_vars_bool(&t, empty);
            Ok((t, vars))
        },
        Ok(Lowered::I(_)) => Err(LowerError::ExpectedBool),
        Err(err) => Err(err),
    }
}

/// What the solver reported for the negated formula, with the model
/// rendered as name-value text pairs when one exists.
pub enum SolverOutcome {
    Unsat,
    Sat(Vec<(Vec<u8>, Vec<u8>)>),
    Unknown,
}

/// The verdict on one obligation.
#[derive(PartialEq, Eq, Debug)]
pub enum Verdict {
    /// The negation is unsatisfiable: the obligation holds.
    Valid,
    /// The negation is satisfiable: the model is a counterexample.
    Invalid(Vec<(Vec<u8>, Vec<u8>)>),
    /// The solver could not decide.
    Undetermined,
}

/// The verdict for one solver answer on a negated formula: unsatisfiable
/// means the obligation holds, a satisfying model is a counterexample, and
/// anything else leaves the obligation undetermined.
pub fn verdict_of(outcome: SolverOutcome) -> (r: Verdict)
    ensures
        (outcome is Unsat <==> r is Valid),
        (outcome is Sat <==> r is Invalid),
        (outcome is Unknown <==> r is Undetermined),
        outcome is Sat ==> r->Invalid_0 == outcome->Sat_0,
{
    match outcome {
        SolverOutcome::Unsat => Verdict::Valid,
        SolverOutcome::Sat(model) => Verdict::Invalid(model),
        SolverOutcome::Unknown => Verdict::Undetermined,
    }
}

} // verus!
