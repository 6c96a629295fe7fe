//! The lexer for formula and statement text.
//!
//! Lexing happens in two stages: a flat scan of the bytes into identifiers,
//! integer literals, punctuation and delimiters, and a grouping fold that
//! nests delimited stretches into group tokens. The executable lexer makes
//! one pass with an explicit stack; its result equals the two composed
//! stages.

use vstd::prelude::*;

use crate::ast::{Delim, Token, TokenV, view_token, view_tokens};
use crate::cleanup::is_ws;

verus! {

/// A token of the flat scan, before grouping.
pub enum FlatTokV {
    Ident(Seq<u8>),
    Lit(Seq<u8>),
    Punct(u8, bool),
    Open(Delim),
    Close(Delim),
}

pub open spec fn is_ident_start(b: u8) -> bool {
    (('a' as u8) <= b <= ('z' as u8)) || (('A' as u8) <= b <= ('Z' as u8)) || b == ('_' as u8)
}

pub open spec fn is_digit(b: u8) -> bool {
    ('0' as u8) <= b <= ('9' as u8)
}

pub open spec fn is_ident_cont(b: u8) -> bool {
    is_ident_start(b) || is_digit(b)
}

/// The punctuation bytes the lexer accepts.
pub open spec fn is_punct_byte(b: u8) -> bool {
    b == ('+' as u8) || b == ('-' as u8) || b == ('*' as u8) || b == ('/' as u8) || b == (
    '<' as u8) || b == ('>' as u8) || b == ('=' as u8) || b == ('!' as u8) || b == ('&' as u8)
        || b == ('|' as u8) || b == ('.' as u8) || b == (',' as u8) || b == (';' as u8) || b == (
    ':' as u8) || b == ('#' as u8) || b == ('?' as u8) || b == ('%' as u8) || b == ('^' as u8)
        || b == ('~' as u8) || b == ('@' as u8)
}

pub open spec fn open_delim_of(b: u8) -> Option<Delim> {
    if b == ('(' as u8) {
        Some(Delim::Paren)
    } else if b == ('[' as u8) {
        Some(Delim::Bracket)
    } else if b == ('{' as u8) {
        Some(Delim::Brace)
    } else {
        None
    }
}

pub open spec fn close_delim_of(b: u8) -> Option<Delim> {
    if b == (')' as u8) {
        Some(Delim::Paren)
    } else if b == (']' as u8) {
        Some(Delim::Bracket)
    } else if b == ('}' as u8) {
        Some(Delim::Brace)
    } else {
        None
    }
}

/// The first index at or after `i` that does not continue an identifier.
pub open spec fn ident_end(s: Seq<u8>, i: int) -> int
    decreases s.len() - i,
{
    if 0 <= i < s.len() && is_ident_cont(s[i]) {
        ident_end(s, i + 1)
    } else {
        i
    }
}

/// The first index at or after `i` that is not a digit.
pub open spec fn digit_end(s: Seq<u8>, i: int) -> int
    decreases s.len() - i,
{
    if 0 <= i < s.len() && is_digit(s[i]) {
        digit_end(s, i + 1)
    } else {
        i
    }
}

pub proof fn lemma_ident_end(s: Seq<u8>, i: int)
    requires
        0 <= i <= s.len(),
    ensures
        i <= ident_end(s, i) <= s.len(),
        i < s.len() && is_ident_cont(s[i]) ==> ident_end(s, i) > i,
        forall|k: int| i <= k < ident_end(s, i) ==> is_ident_cont(#[trigger] s[k]),
        ident_end(s, i) < s.len() ==> !is_ident_cont(s[ident_end(s, i)]),
    decreases s.len() - i,
{
    if 0 <= i < s.len() && is_ident_cont(s[i]) {
        lemma_ident_end(s, i + 1);
    }
}

pub proof fn lemma_digit_end(s: Seq<u8>, i: int)
    requires
        0 <= i <= s.len(),
    ensures
        i <= digit_end(s, i) <= s.len(),
        i < s.len() && is_digit(s[i]) ==> digit_end(s, i) > i,
        forall|k: int| i <= k < digit_end(s, i) ==> is_digit(#[trigger] s[k]),
        digit_end(s, i) < s.len() ==> !is_digit(s[digit_end(s, i)]),
    decreases s.len() - i,
{
    if 0 <= i < s.len() && is_digit(s[i]) {
        lemma_digit_end(s, i + 1);
    }
}

/// The flat token stream from byte `i` on, or nothing if an unexpected byte
/// appears.
pub open spec fn flat_lex(s: Seq<u8>, i: int) -> Option<Seq<FlatTokV>>
    decreases s.len() - i,
    via flat_lex_decreases
{
    if i < 0 || i >= s.len() {
        Some(Seq::empty())
    } else if is_ws(s[i]) {
        flat_lex(s, i + 1)
    } else if is_ident_start(s[i]) {
        match flat_lex(s, ident_end(s, i)) {
            Some(rest) => Some(seq![FlatTokV::Ident(s.subrange(i, ident_end(s, i)))] + rest),
            None => None,
        }
    } else if is_digit(s[i]) {
        match flat_lex(s, digit_end(s, i)) {
            Some(rest) => Some(seq![FlatTokV::Lit(s.subrange(i, digit_end(s, i)))] + rest),
            None => None,
        }
    } else if open_delim_of(s[i]) is Some {
        match flat_lex(s, i + 1) {
            Some(rest) => Some(seq![FlatTokV::Open(open_delim_of(s[i]).unwrap())] + rest),
            None => None,
        }
    } else if close_delim_of(s[i]) is Some {
        match flat_lex(s, i + 1) {
            Some(rest) => Some(seq![FlatTokV::Close(close_delim_of(s[i]).unwrap())] + rest),
            None => None,
        }
    } else if is_punct_byte(s[i]) {
        let joint = i + 1 < s.len() && is_punct_byte(s[i + 1]);
        match flat_lex(s, i + 1) {
            Some(rest) => Some(seq![FlatTokV::Punct(s[i], joint)] + rest),
            None => None,
        }
    } else {
        None
    }
}

#[via_fn]
proof fn flat_lex_decreases(s: Seq<u8>, i: int) {
    if 0 <= i < s.len() {
        lemma_ident_end(s, i);
        lemma_digit_end(s, i);
    }
}

/// Folds a flat token stream into nested token groups. `stack` holds the
/// unfinished enclosing groups, `cur` the tokens of the innermost one.
pub open spec fn group_fold(
    rest: Seq<FlatTokV>,
    stack: Seq<(Delim, Seq<TokenV>)>,
    cur: Seq<TokenV>,
) -> Option<Seq<TokenV>>
    decreases rest,
{
    if rest.len() == 0 {
        if stack.len() == 0 {
            Some(cur)
        } else {
            None
        }
    } else {
        match rest[0] {
            FlatTokV::Open(d) => group_fold(rest.drop_first(), stack.push((d, cur)), Seq::empty()),
            FlatTokV::Close(d) => if stack.len() > 0 && stack.last().0 == d {
                group_fold(
                    rest.drop_first(),
                    stack.drop_last(),
                    stack.last().1.push(TokenV::Group(d, cur)),
                )
            } else {
                None
            },
            FlatTokV::Ident(name) => group_fold(
                rest.drop_first(),
                stack,
                cur.push(TokenV::Ident(name)),
            ),
            FlatTokV::Lit(text) => group_fold(rest.drop_first(), stack, cur.push(TokenV::Lit(text))),
            FlatTokV::Punct(b, joint) => group_fold(
                rest.drop_first(),
                stack,
                cur.push(TokenV::Punct(b, joint)),
            ),
        }
    }
}

/// What `lex` returns: the nested token stream of `s`, or nothing when a
/// byte is unexpected or the delimiters do not balance.
pub open spec fn lex_spec(s: Seq<u8>) -> Option<Seq<TokenV>> {
    match flat_lex(s, 0) {
        Some(flat) => group_fold(flat, Seq::empty(), Seq::empty()),
        None => None,
    }
}

/// The view of the lexer's in-progress stack.
pub open spec fn stack_view(st: Seq<(Delim, Vec<Token>)>) -> Seq<(Delim, Seq<TokenV>)> {
    st.map_values(|p: (Delim, Vec<Token>)| (p.0, view_tokens(p.1@)))
}

/// Lexes `s` into a nested token stream.
pub fn lex(s: &[u8]) -> (r: Option<Vec<Token>>)
    ensures
        match r {
            Some(ts) => lex_spec(s@) == Some(view_tokens(ts@)),
            None => lex_spec(s@) == None::<Seq<TokenV>>,
        },
{
    let mut stack: Vec<(Delim, Vec<Token>)> = Vec::new();
    let mut cur: Vec<Token> = Vec::new();
    let mut i: usize = 0;
    proof {
        assert(stack_view(stack@) =~= Seq::<(Delim, Seq<TokenV>)>::empty());
        assert(view_tokens(cur@) =~= Seq::<TokenV>::empty());
    }
    while i < s.len()
        invariant
            0 <= i <= s@.len(),
            match flat_lex(s@, i as int) {
                Some(rest) => lex_spec(s@) == group_fold(
                    rest,
                    stack_view(stack@),
                    view_tokens(cur@),
                ),
                None => lex_spec(s@) == None::<Seq<TokenV>>,
            },
        decreases s@.len() - i,
    {
        let b = s[i];
        if is_ws_exec(b) {
            i += 1;
        } else if is_ident_start_exec(b) {
            let start = i;
            let mut j = i;
            while j < s.len() && is_ident_cont_exec(s[j])
                invariant
                    start <= j <= s@.len(),
                    forall|k: int| start <= k < j ==> is_ident_cont(#[trigger] s@[k]),
                decreases s@.len() - j,
            {
                j += 1;
            }
            proof {
                lemma_ident_end_is(s@, start as int, j as int);
            }
            let mut name: Vec<u8> = Vec::new();
            let mut k = start;
            while k < j
                invariant
                    start <= k <= j <= s@.len(),
                    name@ == s@.subrange(start as int, k as int),
                decreases j - k,
            {
                name.push(s[k]);
                proof {
                    assert(s@.subrange(start as int, k as int + 1) =~= s@.subrange(
                        start as int,
                        k as int,
                    ).push(s@[k as int]));
                }
                k += 1;
            }
            let ghost cur0 = view_tokens(cur@);
            let ghost curv0 = cur@;
            let ghost tokv = TokenV::Ident(s@.subrange(start as int, j as int));
            cur.push(Token::Ident(name));
            proof {
                crate::ast::lemma_view_tokens_unsnoc(cur@);
                assert(cur@.drop_last() =~= curv0);
                assert(view_tokens(cur@) =~= cur0.push(tokv));
                match flat_lex(s@, j as int) {
                    Some(rest) => {
                        assert(flat_lex(s@, i as int) == Some(seq![FlatTokV::Ident(
                            s@.subrange(i as int, j as int),
                        )] + rest));
                        assert((seq![FlatTokV::Ident(s@.subrange(i as int, j as int))]
                            + rest).drop_first() =~= rest);
                        assert(group_fold(
                            seq![FlatTokV::Ident(s@.subrange(i as int, j as int))] + rest,
                            stack_view(stack@),
                            cur0,
                        ) == group_fold(rest, stack_view(stack@), cur0.push(tokv)));
                    },
                    None => {
                        assert(flat_lex(s@, i as int) == None::<Seq<FlatTokV>>);
                    },
                }
            }
            i = j;
        } else if is_digit_exec(b) {
            let start = i;
            let mut j = i;
            while j < s.len() && is_digit_exec(s[j])
                invariant
                    start <= j <= s@.len(),
                    forall|k: int| start <= k < j ==> is_digit(#[trigger] s@[k]),
                decreases s@.len() - j,
            {
                j += 1;
            }
            proof {
                lemma_digit_end_is(s@, start as int, j as int);
            }
            let mut text: Vec<u8> = Vec::new();
            let mut k = start;
            while k < j
                invariant
                    start <= k <= j <= s@.len(),
                    text@ == s@.subrange(start as int, k as int),
                decreases j - k,
            {
                text.push(s[k]);
                proof {
                    assert(s@.subrange(start as int, k as int + 1) =~= s@.subrange(
                        start as int,
                        k as int,
                    ).push(s@[k as int]));
                }
                k += 1;
            }
            let ghost cur0 = view_tokens(cur@);
            let ghost curv0 = cur@;
            let ghost tokv = TokenV::Lit(s@.subrange(start as int, j as int));
            cur.push(Token::Lit(text));
            proof {
                crate::ast::lemma_view_tokens_unsnoc(cur@);
                assert(cur@.drop_last() =~= curv0);
                assert(view_tokens(cur@) =~= cur0.push(tokv));
                match flat_lex(s@, j as int) {
                    Some(rest) => {
                        assert(flat_lex(s@, i as int) == Some(seq![FlatTokV::Lit(
                            s@.subrange(i as int, j as int),
                        )] + rest));
                        assert((seq![FlatTokV::Lit(s@.subrange(i as int, j as int))]
                            + rest).drop_first() =~= rest);
                        assert(group_fold(
                            seq![FlatTokV::Lit(s@.subrange(i as int, j as int))] + rest,
                            stack_view(stack@),
                            cur0,
                        ) == group_fold(rest, stack_view(stack@), cur0.push(tokv)));
                    },
                    None => {
                        assert(flat_lex(s@, i as int) == None::<Seq<FlatTokV>>);
                    },
                }
            }
            i = j;
        } else if b == ('(' as u8) || b == ('[' as u8) || b == ('{' as u8) {
            let d = if b == ('(' as u8) {
                Delim::Paren
            } else if b == ('[' as u8) {
                Delim::Bracket
            } else {
                Delim::Brace
            };
            let ghost st0 = stack_view(stack@);
            let ghost cur0 = view_tokens(cur@);
            let full = cur;
            cur = Vec::new();
            stack.push((d, full));
            proof {
                assert(open_delim_of(b) == Some(d));
                assert(stack_view(stack@) =~= st0.push((d, cur0)));
                assert(view_tokens(cur@) =~= Seq::<TokenV>::empty());
                match flat_lex(s@, i as int + 1) {
                    Some(rest) => {
                        assert(flat_lex(s@, i as int) == Some(seq![FlatTokV::Open(d)] + rest));
                        assert((seq![FlatTokV::Open(d)] + rest).drop_first() =~= rest);
                        assert(group_fold(seq![FlatTokV::Open(d)] + rest, st0, cur0)
                            == group_fold(rest, st0.push((d, cur0)), Seq::empty()));
                    },
                    None => {
                        assert(flat_lex(s@, i as int) == None::<Seq<FlatTokV>>);
                    },
                }
            }
            i += 1;
        } else if b == (')' as u8) || b == (']' as u8) || b == ('}' as u8) {
            let d = if b == (')' as u8) {
                Delim::Paren
            } else if b == (']' as u8) {
                Delim::Bracket
            } else {
                Delim::Brace
            };
            let ghost st0 = stack_view(stack@);
            let ghost cur0 = view_tokens(cur@);
            proof {
                assert(close_delim_of(b) == Some(d));
            }
            if stack.len() == 0 {
                proof {
                    assert(st0.len() == 0);
                    match flat_lex(s@, i as int + 1) {
                        Some(rest) => {
                            assert(flat_lex(s@, i as int) == Some(seq![FlatTokV::Close(d)]
                                + rest));
                            assert((seq![FlatTokV::Close(d)] + rest)[0] == FlatTokV::Close(d));
                            assert(group_fold(seq![FlatTokV::Close(d)] + rest, st0, cur0)
                                == None::<Seq<TokenV>>);
                        },
                        None => {},
                    }
                }
                return None;
            }
            let (d2, outer) = match stack.pop() {
                Some(p) => p,
                None => {
                    proof {
                        assert(false);
                    }
                    (Delim::Paren, Vec::new())
                },
            };
            let ghost outer0 = view_tokens(outer@);
            proof {
                assert(st0.last() == (d2, outer0));
                assert(st0.drop_last() =~= stack_view(stack@));
            }
            if !delim_eq(d2, d) {
                proof {
                    match flat_lex(s@, i as int + 1) {
                        Some(rest) => {
                            assert(flat_lex(s@, i as int) == Some(seq![FlatTokV::Close(d)]
                                + rest));
                            assert((seq![FlatTokV::Close(d)] + rest)[0] == FlatTokV::Close(d));
                            assert(group_fold(seq![FlatTokV::Close(d)] + rest, st0, cur0)
                                == None::<Seq<TokenV>>);
                        },
                        None => {},
                    }
                }
                return None;
            }
            let inner = cur;
            cur = outer;
            let ghost curv1 = cur@;
            cur.push(Token::Group(d, inner));
            proof {
                crate::ast::lemma_view_tokens_unsnoc(cur@);
                assert(cur@.drop_last() =~= curv1);
                assert(view_token(cur@.last()) == TokenV::Group(d, cur0));
                assert(view_tokens(cur@) =~= outer0.push(TokenV::Group(d, cur0)));
                match flat_lex(s@, i as int + 1) {
                    Some(rest) => {
                        assert(flat_lex(s@, i as int) == Some(seq![FlatTokV::Close(d)] + rest));
                        assert((seq![FlatTokV::Close(d)] + rest).drop_first() =~= rest);
                        assert(group_fold(seq![FlatTokV::Close(d)] + rest, st0, cur0)
                            == group_fold(
                            rest,
                            st0.drop_last(),
                            outer0.push(TokenV::Group(d, cur0)),
                        ));
                    },
                    None => {
                        assert(flat_lex(s@, i as int) == None::<Seq<FlatTokV>>);
                    },
                }
            }
            i += 1;
        } else if is_punct_byte_exec(b) {
            let joint = i + 1 < s.len() && is_punct_byte_exec(s[i + 1]);
            let ghost cur0 = view_tokens(cur@);
            let ghost curv0 = cur@;
            cur.push(Token::Punct(b, joint));
            proof {
                crate::ast::lemma_view_tokens_unsnoc(cur@);
                assert(cur@.drop_last() =~= curv0);
                assert(view_tokens(cur@) =~= cur0.push(TokenV::Punct(b, joint)));
                match flat_lex(s@, i as int + 1) {
                    Some(rest) => {
                        assert(flat_lex(s@, i as int) == Some(seq![FlatTokV::Punct(b, joint)]
                            + rest));
                        assert((seq![FlatTokV::Punct(b, joint)] + rest).drop_first() =~= rest);
                        assert(group_fold(seq![FlatTokV::Punct(b, joint)] + rest, stack_view(
                            stack@,
                        ), cur0) == group_fold(rest, stack_view(stack@), cur0.push(
                            TokenV::Punct(b, joint),
                        )));
                    },
                    None => {
                        assert(flat_lex(s@, i as int) == None::<Seq<FlatTokV>>);
                    },
                }
            }
            i += 1;
        } else {
            proof {
                assert(flat_lex(s@, i as int) == None::<Seq<FlatTokV>>);
            }
            return None;
        }
    }
    proof {
        assert(flat_lex(s@, s@.len() as int) == Some(Seq::<FlatTokV>::empty()));
    }
    if stack.len() == 0 {
        proof {
            assert(stack_view(stack@).len() == 0);
        }
        Some(cur)
    } else {
        proof {
            assert(stack_view(stack@).len() == stack@.len());
        }
        None
    }
}

/// The scanned stretch `[start, j)` is exactly what `ident_end` yields.
proof fn lemma_ident_end_is(s: Seq<u8>, start: int, j: int)
    requires
        0 <= start <= j <= s.len(),
        forall|k: int| start <= k < j ==> is_ident_cont(#[trigger] s[k]),
        j == s.len() || !is_ident_cont(s[j]),
    ensures
        ident_end(s, start) == j,
    decreases j - start,
{
    if start < j {
        lemma_ident_end_is(s, start + 1, j);
    }
}

/// The scanned stretch `[start, j)` is exactly what `digit_end` yields.
proof fn lemma_digit_end_is(s: Seq<u8>, start: int, j: int)
    requires
        0 <= start <= j <= s.len(),
        forall|k: int| start <= k < j ==> is_digit(#[trigger] s[k]),
        j == s.len() || !is_digit(s[j]),
    ensures
        digit_end(s, start) == j,
    decreases j - start,
{
    if start < j {
        lemma_digit_end_is(s, start + 1, j);
    }
}

fn is_ws_exec(b: u8) -> (r: bool)
    ensures
        r == is_ws(b),
{
    b == (' ' as u8) || b == ('\t' as u8) || b == ('\n' as u8) || b == ('\r' as u8)
}

fn is_ident_start_exec(b: u8) -> (r: bool)
    ensures
        r == is_ident_start(b),
{
    (('a' as u8) <= b && b <= ('z' as u8)) || (('A' as u8) <= b && b <= ('Z' as u8)) || b == (
    '_' as u8)
}

fn is_digit_exec(b: u8) -> (r: bool)
    ensures
        r == is_digit(b),
{
    ('0' as u8) <= b && b <= ('9' as u8)
}

fn is_ident_cont_exec(b: u8) -> (r: bool)
    ensures
        r == is_ident_cont(b),
{
    is_ident_start_exec(b) || is_digit_exec(b)
}

fn is_punct_byte_exec(b: u8) -> (r: bool)
    ensures
        r == is_punct_byte(b),
{
    b == ('+' as u8) || b == ('-' as u8) || b == ('*' as u8) || b == ('/' as u8) || b == (
    '<' as u8) || b == ('>' as u8) || b == ('=' as u8) || b == ('!' as u8) || b == ('&' as u8)
        || b == ('|' as u8) || b == ('.' as u8) || b == (',' as u8) || b == (';' as u8) || b == (
    ':' as u8) || b == ('#' as u8) || b == ('?' as u8) || b == ('%' as u8) || b == ('^' as u8)
        || b == ('~' as u8) || b == ('@' as u8)
}

fn delim_eq(a: Delim, b: Delim) -> (r: bool)
    ensures
        r == (a == b),
{
    match (a, b) {
        (Delim::Paren, Delim::Paren) => true,
        (Delim::Bracket, Delim::Bracket) => true,
        (Delim::Brace, Delim::Brace) => true,
        _ => false,
    }
}

} // verus!
