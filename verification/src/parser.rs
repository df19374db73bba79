//! Precedence-climbing parser from tokens to an expression tree.
//!
//! The grammar: `+` and `-` bind at level 1 (left), `*` and `/` at
//! level 2 (left), unary `+`/`-` at level 3 (prefix), `^` at level 4
//! (right), and parentheses reset the level. The specification-level
//! parser is the trio `parse_primary` / `parse_expr` / `parse_bin_loop`;
//! the executable functions are proved to return exactly what it does.

use vstd::prelude::*;

use crate::error::Error;
use crate::token::Token;
use crate::tokenizer::{lemma_lex_step_progress, lemma_lex_step_wf, lex, lex_step, tokenize};
use crate::value::Value;

verus! {

/// An arithmetic expression tree.
#[derive(Debug)]
pub enum Expr {
    Num(Value),
    Add(Box<Expr>, Box<Expr>),
    Sub(Box<Expr>, Box<Expr>),
    Mul(Box<Expr>, Box<Expr>),
    Div(Box<Expr>, Box<Expr>),
    Pow(Box<Expr>, Box<Expr>),
    Neg(Box<Expr>),
}

/// Every number leaf holds a well-formed value.
pub open spec fn expr_wf(e: Expr) -> bool
    decreases e,
{
    match e {
        Expr::Num(v) => v.wf(),
        Expr::Add(l, r) => expr_wf(*l) && expr_wf(*r),
        Expr::Sub(l, r) => expr_wf(*l) && expr_wf(*r),
        Expr::Mul(l, r) => expr_wf(*l) && expr_wf(*r),
        Expr::Div(l, r) => expr_wf(*l) && expr_wf(*r),
        Expr::Pow(l, r) => expr_wf(*l) && expr_wf(*r),
        Expr::Neg(x) => expr_wf(*x),
    }
}

pub open spec fn toks_wf(ts: Seq<Token>) -> bool {
    forall|n: int|
        0 <= n < ts.len() ==> ((#[trigger] ts[n]) matches Token::Num(v) ==> v.wf())
}

pub open spec fn is_bin(t: Token) -> bool {
    t is Add || t is Subtract || t is Multiply || t is Divide || t is Caret
}

pub open spec fn bin_prec(t: Token) -> nat {
    match t {
        Token::Add => 1,
        Token::Subtract => 1,
        Token::Multiply => 2,
        Token::Divide => 2,
        Token::Caret => 4,
        _ => 0,
    }
}

/// The minimum level for the right-hand side of a binary operator:
/// its own level for the right-associative `^`, one more for the
/// left-associative others.
pub open spec fn next_min(t: Token) -> nat {
    if t is Caret {
        4
    } else {
        bin_prec(t) + 1
    }
}

pub open spec fn combine(t: Token, l: Expr, r: Expr) -> Expr {
    match t {
        Token::Add => Expr::Add(Box::new(l), Box::new(r)),
        Token::Subtract => Expr::Sub(Box::new(l), Box::new(r)),
        Token::Multiply => Expr::Mul(Box::new(l), Box::new(r)),
        Token::Divide => Expr::Div(Box::new(l), Box::new(r)),
        Token::Caret => Expr::Pow(Box::new(l), Box::new(r)),
        _ => l,
    }
}

/// Parse one primary: a number, a parenthesized expression, or a
/// unary-prefixed primary. Anything else cannot start a primary.
pub open spec fn parse_primary(ts: Seq<Token>, i: nat) -> Result<(Expr, nat), Error>
    decreases ts.len() - i, 0int,
{
    if i >= ts.len() {
        Err(Error::UnexpectedToken)
    } else {
        match ts[i as int] {
            Token::Num(v) => Ok((Expr::Num(v), (i + 1) as nat)),
            Token::LeftParen => if i + 1 < ts.len() && ts[i + 1 as int] is RightParen {
                Err(Error::EmptyInput)
            } else {
                match parse_expr(ts, (i + 1) as nat, 0) {
                    Err(e) => Err(e),
                    Ok((e, j)) => if j < ts.len() && ts[j as int] is RightParen {
                        Ok((e, (j + 1) as nat))
                    } else {
                        Err(Error::MissingRParen)
                    },
                }
            },
            Token::Add => parse_expr(ts, (i + 1) as nat, 3),
            Token::Subtract => match parse_expr(ts, (i + 1) as nat, 3) {
                Err(e) => Err(e),
                Ok((e, j)) => Ok((Expr::Neg(Box::new(e)), j)),
            },
            _ => Err(Error::UnexpectedToken),
        }
    }
}

/// Parse a whole expression at or above `min_prec`: a primary followed
/// by the binary-operator climb.
pub open spec fn parse_expr(ts: Seq<Token>, i: nat, min_prec: nat) -> Result<(Expr, nat), Error>
    decreases ts.len() - i, 1int,
{
    match parse_primary(ts, i) {
        Err(e) => Err(e),
        Ok((lhs, j)) => if i < j && j <= ts.len() {
            // `lemma_primary_progress` shows this guard always holds here.
            parse_bin_loop(ts, j, lhs, min_prec)
        } else {
            Err(Error::UnexpectedToken)
        },
    }
}

/// Fold binary operators of level `min_prec` or higher onto `lhs`.
pub open spec fn parse_bin_loop(ts: Seq<Token>, i: nat, lhs: Expr, min_prec: nat) -> Result<
    (Expr, nat),
    Error,
>
    decreases ts.len() - i, 2int,
{
    if i < ts.len() && is_bin(ts[i as int]) && bin_prec(ts[i as int]) >= min_prec {
        let op = ts[i as int];
        match parse_expr(ts, (i + 1) as nat, next_min(op)) {
            Err(e) => Err(e),
            Ok((rhs, k)) => if i < k && k <= ts.len() {
                // `lemma_expr_progress` shows this guard always holds here.
                parse_bin_loop(ts, k, combine(op, lhs, rhs), min_prec)
            } else {
                Err(Error::UnexpectedToken)
            },
        }
    } else {
        Ok((lhs, i))
    }
}

/// Parse a complete token list: empty input is an error, and so is any
/// token left over after the expression.
pub open spec fn spec_parse_tokens(ts: Seq<Token>) -> Result<Expr, Error> {
    if ts.len() == 0 {
        Err(Error::EmptyInput)
    } else {
        match parse_expr(ts, 0, 0) {
            Err(e) => Err(e),
            Ok((e, j)) => if j == ts.len() {
                Ok(e)
            } else {
                Err(Error::TrailingGarbage)
            },
        }
    }
}

/// Tokenize, then parse.
pub open spec fn spec_parse(s: Seq<char>) -> Result<Expr, Error> {
    match lex(s, 0) {
        Err(e) => Err(e),
        Ok(ts) => spec_parse_tokens(ts),
    }
}

/// A successful primary parse consumes at least one token.
pub proof fn lemma_primary_progress(ts: Seq<Token>, i: nat)
    requires
        i <= ts.len(),
    ensures
        parse_primary(ts, i) matches Ok((e, j)) ==> i < j <= ts.len(),
    decreases ts.len() - i, 0int,
{
    if i < ts.len() {
        match ts[i as int] {
            Token::LeftParen => {
                lemma_expr_progress(ts, (i + 1) as nat, 0);
            },
            Token::Add => {
                lemma_expr_progress(ts, (i + 1) as nat, 3);
            },
            Token::Subtract => {
                lemma_expr_progress(ts, (i + 1) as nat, 3);
            },
            _ => {},
        }
    }
}

/// A successful expression parse consumes at least one token.
pub proof fn lemma_expr_progress(ts: Seq<Token>, i: nat, min_prec: nat)
    requires
        i <= ts.len(),
    ensures
        parse_expr(ts, i, min_prec) matches Ok((e, j)) ==> i < j <= ts.len(),
    decreases ts.len() - i, 1int,
{
    lemma_primary_progress(ts, i);
    match parse_primary(ts, i) {
        Ok((lhs, j)) => {
            if i < j && j <= ts.len() {
                lemma_bin_loop_progress(ts, j, lhs, min_prec);
            }
        },
        Err(_) => {},
    }
}

/// The binary climb never moves backwards.
pub proof fn lemma_bin_loop_progress(ts: Seq<Token>, i: nat, lhs: Expr, min_prec: nat)
    requires
        i <= ts.len(),
    ensures
        parse_bin_loop(ts, i, lhs, min_prec) matches Ok((e, j)) ==> i <= j <= ts.len(),
    decreases ts.len() - i, 2int,
{
    if i < ts.len() && is_bin(ts[i as int]) && bin_prec(ts[i as int]) >= min_prec {
        let op = ts[i as int];
        lemma_expr_progress(ts, (i + 1) as nat, next_min(op));
        match parse_expr(ts, (i + 1) as nat, next_min(op)) {
            Ok((rhs, k)) => {
                if i < k && k <= ts.len() {
                    lemma_bin_loop_progress(ts, k, combine(op, lhs, rhs), min_prec);
                }
            },
            Err(_) => {},
        }
    }
}

/// Every number token the scanner emits holds a well-formed value.
pub proof fn lemma_lex_wf(s: Seq<char>, i: nat)
    requires
        i <= s.len(),
    ensures
        lex(s, i) matches Ok(ts) ==> toks_wf(ts),
    decreases s.len() - i,
{
    lemma_lex_step_progress(s, i);
    lemma_lex_step_wf(s, i);
    match lex_step(s, i) {
        Ok((t, j)) => {
            if !(t is EOF) && i < j && j <= s.len() {
                lemma_lex_wf(s, j);
                match lex(s, j) {
                    Ok(rest) => {
                        match lex(s, i) {
                            Ok(all) => {
                                assert(all == seq![t] + rest);
                                assert(all[0] == t);
                                assert(forall|n: int|
                                    1 <= n < all.len() ==> all[n] == rest[n - 1]);
                            },
                            Err(_) => {},
                        }
                    },
                    Err(_) => {},
                }
            }
        },
        Err(_) => {},
    }
}

fn is_bin_exec(t: &Token) -> (r: bool)
    ensures
        r == is_bin(*t),
{
    match t {
        Token::Add => true,
        Token::Subtract => true,
        Token::Multiply => true,
        Token::Divide => true,
        Token::Caret => true,
        _ => false,
    }
}

fn bin_prec_exec(t: &Token) -> (r: usize)
    ensures
        r == bin_prec(*t),
{
    match t {
        Token::Add => 1,
        Token::Subtract => 1,
        Token::Multiply => 2,
        Token::Divide => 2,
        Token::Caret => 4,
        _ => 0,
    }
}

fn next_min_exec(t: &Token) -> (r: usize)
    ensures
        r == next_min(*t),
{
    match t {
        Token::Caret => 4,
        _ => bin_prec_exec(t) + 1,
    }
}

fn combine_exec(t: &Token, l: Expr, r: Expr) -> (res: Expr)
    requires
        is_bin(*t),
    ensures
        res == combine(*t, l, r),
{
    match t {
        Token::Add => Expr::Add(Box::new(l), Box::new(r)),
        Token::Subtract => Expr::Sub(Box::new(l), Box::new(r)),
        Token::Multiply => Expr::Mul(Box::new(l), Box::new(r)),
        Token::Divide => Expr::Div(Box::new(l), Box::new(r)),
        _ => Expr::Pow(Box::new(l), Box::new(r)),
    }
}

fn parse_primary_exec(toks: &Vec<Token>, i: usize) -> (r: Result<(Expr, usize), Error>)
    requires
        toks_wf(toks@),
        i <= toks@.len(),
    ensures
        match parse_primary(toks@, i as nat) {
            Ok((e, j)) => r matches Ok(p) && p.0 == e && p.1 as nat == j && expr_wf(e),
            Err(er) => r == Err::<(Expr, usize), Error>(er),
        },
    decreases toks@.len() - i, 0int,
{
    if i >= toks.len() {
        return Err(Error::UnexpectedToken);
    }
    match toks[i] {
        Token::Num(v) => Ok((Expr::Num(v), i + 1)),
        Token::LeftParen => {
            if i + 1 < toks.len() && is_rparen(&toks[i + 1]) {
                return Err(Error::EmptyInput);
            }
            match parse_expr_exec(toks, i + 1, 0) {
                Err(e) => Err(e),
                Ok((e, j)) => {
                    proof {
                        lemma_expr_progress(toks@, (i + 1) as nat, 0);
                    }
                    if j < toks.len() && is_rparen(&toks[j]) {
                        Ok((e, j + 1))
                    } else {
                        Err(Error::MissingRParen)
                    }
                },
            }
        },
        Token::Add => parse_expr_exec(toks, i + 1, 3),
        Token::Subtract => match parse_expr_exec(toks, i + 1, 3) {
            Err(e) => Err(e),
            Ok((e, j)) => Ok((Expr::Neg(Box::new(e)), j)),
        },
        _ => Err(Error::UnexpectedToken),
    }
}

fn is_rparen(t: &Token) -> (r: bool)
    ensures
        r == (*t is RightParen),
{
    match t {
        Token::RightParen => true,
        _ => false,
    }
}

fn parse_expr_exec(toks: &Vec<Token>, i: usize, min_prec: usize) -> (r: Result<
    (Expr, usize),
    Error,
>)
    requires
        toks_wf(toks@),
        i <= toks@.len(),
    ensures
        match parse_expr(toks@, i as nat, min_prec as nat) {
            Ok((e, j)) => r matches Ok(p) && p.0 == e && p.1 as nat == j && expr_wf(e),
            Err(er) => r == Err::<(Expr, usize), Error>(er),
        },
    decreases toks@.len() - i, 1int,
{
    let (lhs, j) = match parse_primary_exec(toks, i) {
        Err(e) => {
            return Err(e);
        },
        Ok(p) => p,
    };
    proof {
        lemma_primary_progress(toks@, i as nat);
    }
    parse_bin_loop_exec(toks, j, lhs, min_prec)
}

fn parse_bin_loop_exec(toks: &Vec<Token>, i: usize, lhs: Expr, min_prec: usize) -> (r: Result<
    (Expr, usize),
    Error,
>)
    requires
        toks_wf(toks@),
        i <= toks@.len(),
        expr_wf(lhs),
    ensures
        match parse_bin_loop(toks@, i as nat, lhs, min_prec as nat) {
            Ok((e, j)) => r matches Ok(p) && p.0 == e && p.1 as nat == j && expr_wf(e),
            Err(er) => r == Err::<(Expr, usize), Error>(er),
        },
    decreases toks@.len() - i, 2int,
{
    if i < toks.len() {
        let t = toks[i];
        if is_bin_exec(&t) && bin_prec_exec(&t) >= min_prec {
            let nm = next_min_exec(&t);
            match parse_expr_exec(toks, i + 1, nm) {
                Err(e) => {
                    return Err(e);
                },
                Ok((rhs, k)) => {
                    proof {
                        lemma_expr_progress(toks@, (i + 1) as nat, nm as nat);
                    }
                    let folded = combine_exec(&t, lhs, rhs);
                    return parse_bin_loop_exec(toks, k, folded, min_prec);
                },
            }
        }
    }
    Ok((lhs, i))
}

/// Parse a complete token list into an expression tree.
pub fn parse_tokens(toks: &Vec<Token>) -> (r: Result<Expr, Error>)
    requires
        toks_wf(toks@),
    ensures
        r == spec_parse_tokens(toks@),
        r matches Ok(e) ==> expr_wf(e),
{
    if toks.len() == 0 {
        return Err(Error::EmptyInput);
    }
    match parse_expr_exec(toks, 0, 0) {
        Err(e) => Err(e),
        Ok((e, j)) => if j == toks.len() {
            Ok(e)
        } else {
            Err(Error::TrailingGarbage)
        },
    }
}

/// Tokenize an input string and parse the result.
pub fn parse(input: &str) -> (r: Result<Expr, Error>)
    ensures
        r == spec_parse(input@),
        r matches Ok(e) ==> expr_wf(e),
{
    match tokenize(input) {
        Err(e) => Err(e),
        Ok(toks) => {
            proof {
                lemma_lex_wf(input@, 0);
            }
            parse_tokens(&toks)
        },
    }
}

} // verus!
