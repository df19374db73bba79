//! Evaluation of an expression tree over exact rationals.
//!
//! Division by an exact zero is an error; `0^0` is `1`; an exponent
//! with a fractional part, or any intermediate result outside the
//! representable range, is reported as non-finite. Children are
//! evaluated left before right, and the left error wins.

use vstd::prelude::*;

use crate::error::Error;
use crate::parser::{expr_wf, parse, spec_parse, Expr};
use crate::value::{
    spec_add, spec_div, spec_mul, spec_neg, spec_pow_nat, spec_recip, spec_sub, Value,
};

verus! {

/// `b^e` for a rational exponent: only integer exponents are
/// representable; a negative exponent inverts the base first, which a
/// zero base cannot survive.
pub open spec fn spec_pow_val(b: Value, e: Value) -> Result<Value, Error> {
    if e.den != 1 {
        Err(Error::NonFinite)
    } else if e.num >= 0 {
        match spec_pow_nat(b, e.num as nat) {
            Some(v) => Ok(v),
            None => Err(Error::NonFinite),
        }
    } else if b.num == 0 {
        Err(Error::DivisionByZero)
    } else {
        match spec_pow_nat(spec_recip(b), (-e.num) as nat) {
            Some(v) => Ok(v),
            None => Err(Error::NonFinite),
        }
    }
}

/// The value of an expression tree.
pub open spec fn spec_eval(e: Expr) -> Result<Value, Error>
    decreases e,
{
    match e {
        Expr::Num(v) => Ok(v),
        Expr::Add(l, r) => match (spec_eval(*l), spec_eval(*r)) {
            (Ok(a), Ok(b)) => match spec_add(a, b) {
                Some(v) => Ok(v),
                None => Err(Error::NonFinite),
            },
            (Err(e1), _) => Err(e1),
            (_, Err(e2)) => Err(e2),
        },
        Expr::Sub(l, r) => match (spec_eval(*l), spec_eval(*r)) {
            (Ok(a), Ok(b)) => match spec_sub(a, b) {
                Some(v) => Ok(v),
                None => Err(Error::NonFinite),
            },
            (Err(e1), _) => Err(e1),
            (_, Err(e2)) => Err(e2),
        },
        Expr::Mul(l, r) => match (spec_eval(*l), spec_eval(*r)) {
            (Ok(a), Ok(b)) => match spec_mul(a, b) {
                Some(v) => Ok(v),
                None => Err(Error::NonFinite),
            },
            (Err(e1), _) => Err(e1),
            (_, Err(e2)) => Err(e2),
        },
        Expr::Div(l, r) => match (spec_eval(*l), spec_eval(*r)) {
            (Ok(a), Ok(b)) => if b.num == 0 {
                Err(Error::DivisionByZero)
            } else {
                match spec_div(a, b) {
                    Some(v) => Ok(v),
                    None => Err(Error::NonFinite),
                }
            },
            (Err(e1), _) => Err(e1),
            (_, Err(e2)) => Err(e2),
        },
        Expr::Pow(l, r) => match (spec_eval(*l), spec_eval(*r)) {
            (Ok(a), Ok(b)) => spec_pow_val(a, b),
            (Err(e1), _) => Err(e1),
            (_, Err(e2)) => Err(e2),
        },
        Expr::Neg(x) => match spec_eval(*x) {
            Ok(a) => Ok(spec_neg(a)),
            Err(e1) => Err(e1),
        },
    }
}

/// Tokenize, parse, evaluate.
pub open spec fn spec_eval_str(s: Seq<char>) -> Result<Value, Error> {
    match spec_parse(s) {
        Err(e) => Err(e),
        Ok(ex) => spec_eval(ex),
    }
}

fn pow_val(b: Value, e: Value) -> (r: Result<Value, Error>)
    requires
        b.wf(),
        e.wf(),
    ensures
        r == spec_pow_val(b, e),
        r matches Ok(v) ==> v.wf(),
{
    if e.den() != 1 {
        Err(Error::NonFinite)
    } else if e.num() >= 0 {
        match b.pow_nat(e.num() as u64) {
            Some(v) => Ok(v),
            None => Err(Error::NonFinite),
        }
    } else if b.is_zero() {
        Err(Error::DivisionByZero)
    } else {
        match b.recip().pow_nat((-e.num()) as u64) {
            Some(v) => Ok(v),
            None => Err(Error::NonFinite),
        }
    }
}

/// Compute the value of an expression tree, left child before right.
pub fn evaluate(e: &Expr) -> (r: Result<Value, Error>)
    requires
        expr_wf(*e),
    ensures
        r == spec_eval(*e),
        r matches Ok(v) ==> v.wf(),
    decreases *e,
{
    match e {
        Expr::Num(v) => Ok(*v),
        Expr::Add(l, rr) => {
            let a = match evaluate(&**l) {
                Ok(a) => a,
                Err(er) => {
                    return Err(er);
                },
            };
            let b = match evaluate(&**rr) {
                Ok(b) => b,
                Err(er) => {
                    return Err(er);
                },
            };
            match a.add(b) {
                Some(v) => Ok(v),
                None => Err(Error::NonFinite),
            }
        },
        Expr::Sub(l, rr) => {
            let a = match evaluate(&**l) {
                Ok(a) => a,
                Err(er) => {
                    return Err(er);
                },
            };
            let b = match evaluate(&**rr) {
                Ok(b) => b,
                Err(er) => {
                    return Err(er);
                },
            };
            match a.sub(b) {
                Some(v) => Ok(v),
                None => Err(Error::NonFinite),
            }
        },
        Expr::Mul(l, rr) => {
            let a = match evaluate(&**l) {
                Ok(a) => a,
                Err(er) => {
                    return Err(er);
                },
            };
            let b = match evaluate(&**rr) {
                Ok(b) => b,
                Err(er) => {
                    return Err(er);
                },
            };
            match a.mul(b) {
                Some(v) => Ok(v),
                None => Err(Error::NonFinite),
            }
        },
        Expr::Div(l, rr) => {
            let a = match evaluate(&**l) {
                Ok(a) => a,
                Err(er) => {
                    return Err(er);
                },
            };
            let b = match evaluate(&**rr) {
                Ok(b) => b,
                Err(er) => {
                    return Err(er);
                },
            };
            if b.is_zero() {
                Err(Error::DivisionByZero)
            } else {
                match a.div(b) {
                    Some(v) => Ok(v),
                    None => Err(Error::NonFinite),
                }
            }
        },
        Expr::Pow(l, rr) => {
            let a = match evaluate(&**l) {
                Ok(a) => a,
                Err(er) => {
                    return Err(er);
                },
            };
            let b = match evaluate(&**rr) {
                Ok(b) => b,
                Err(er) => {
                    return Err(er);
                },
            };
            pow_val(a, b)
        },
        Expr::Neg(x) => {
            match evaluate(&**x) {
                Ok(a) => Ok(a.neg()),
                Err(er) => Err(er),
            }
        },
    }
}

/// Evaluate an input string end to end: tokenize, parse, evaluate.
pub fn eval(input: &str) -> (r: Result<Value, Error>)
    ensures
        r == spec_eval_str(input@),
        r matches Ok(v) ==> v.wf(),
{
    match parse(input) {
        Err(e) => Err(e),
        Ok(ex) => evaluate(&ex),
    }
}

} // verus!
