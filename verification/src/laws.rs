//! Laws of the evaluator that hold for whole families of inputs,
//! stated and proved over the specification-level pipeline.

use vstd::prelude::*;

use crate::error::Error;
use crate::eval::{spec_eval, spec_eval_str};
use crate::parser::{parse_expr, parse_primary, spec_parse, spec_parse_tokens, Expr};
use crate::token::Token;
use crate::tokenizer::{
    digits_end, digits_val, is_digit, is_ws, lemma_digits_end, lemma_digits_end_exact,
    lemma_digits_val_bound, lemma_lex_step_progress, lemma_pow10_add, lemma_pow10_mono,
    lemma_pow10_pos, lemma_skip_ws, lex, lex_step, num_spans, scan_num_from, skip_ws,
};
use crate::value::{lemma_norm_fits, pow10, spec_norm, Value};

verus! {

/// Round-trip of literals: a plain decimal literal of at most fifteen
/// digits — `p` integer digits, optionally followed by `.` and the
/// remaining fractional digits — evaluates to exactly the rational it
/// denotes, in lowest terms.
pub proof fn lemma_literal_eval(s: Seq<char>, p: nat)
    requires
        1 <= p <= s.len(),
        forall|n: int| 0 <= n < p ==> is_digit(s[n]),
        p < s.len() ==> s[p as int] == '.',
        forall|n: int| p < n < s.len() ==> is_digit(s[n]),
        p == s.len() ==> s.len() <= 15,
        p < s.len() ==> s.len() <= 16,
    ensures
        ({
            let f = if p < s.len() {
                (s.len() - p - 1) as nat
            } else {
                0nat
            };
            let m = if p < s.len() {
                digits_val(s, (p + 1) as nat, s.len(), digits_val(s, 0, p, 0))
            } else {
                digits_val(s, 0, p, 0)
            };
            &&& spec_eval_str(s) matches Ok(v)
            &&& spec_norm(m, pow10(f)) == Some::<Value>(
                spec_eval_str(s)->Ok_0,
            )
        }),
{
    let len = s.len();
    let f = if p < len {
        (len - p - 1) as nat
    } else {
        0nat
    };
    let m1 = digits_val(s, 0, p, 0);
    let m = if p < len {
        digits_val(s, (p + 1) as nat, len, m1)
    } else {
        m1
    };
    // The scanner finds one number lexeme covering the whole input.
    assert(skip_ws(s, 0) == 0);
    lemma_digits_end_exact(s, 0, p);
    if p < len {
        lemma_digits_end_exact(s, (p + 1) as nat, len);
    }
    assert(num_spans(s, 0) == if p < len {
        (p, (p + 1) as nat, len)
    } else {
        (p, p, p)
    });
    // The mantissa of at most fifteen digits and its denominator fit.
    lemma_digits_val_bound(s, 0, p, 0);
    lemma_pow10_pos(f);
    lemma_pow10_pos(p);
    assert(pow10(15) == 1_000_000_000_000_000) by {
        reveal_with_fuel(pow10, 16);
    }
    if p < len {
        lemma_digits_val_bound(s, (p + 1) as nat, len, m1);
        vstd::arithmetic::mul::lemma_mul_inequality(m1 + 1, pow10(p), pow10(f));
        lemma_pow10_add(p, f);
        lemma_pow10_mono((p + f) as nat, 15);
    } else {
        lemma_pow10_mono(p, 15);
    }
    lemma_pow10_mono(f, 15);
    assert(0 <= m <= i64::MAX);
    assert(1 <= pow10(f) <= i64::MAX);
    lemma_norm_fits(m, pow10(f));
    let v = spec_norm(m, pow10(f))->Some_0;
    assert(scan_num_from(s, 0, num_spans(s, 0).0, num_spans(s, 0).1, num_spans(s, 0).2) == Ok::<
        (Value, nat),
        Error,
    >((v, len)));
    assert(lex_step(s, 0) == Ok::<(Token, nat), Error>((Token::Num(v), len)));
    // The rest of the input is empty, so the token list is the one number.
    assert(skip_ws(s, len) == len);
    assert(lex_step(s, len) == Ok::<(Token, nat), Error>((Token::EOF, len)));
    assert(lex(s, len) == Ok::<Seq<Token>, Error>(Seq::empty()));
    let ts = seq![Token::Num(v)];
    assert(seq![Token::Num(v)] + Seq::<Token>::empty() =~= ts);
    assert(lex(s, 0) == Ok::<Seq<Token>, Error>(ts));
    // One number parses to one leaf, which evaluates to its value.
    assert(parse_primary(ts, 0) == Ok::<(Expr, nat), Error>((Expr::Num(v), 1)));
    assert(parse_expr(ts, 0, 0) == Ok::<(Expr, nat), Error>((Expr::Num(v), 1)));
    assert(spec_parse_tokens(ts) == Ok::<Expr, Error>(Expr::Num(v)));
    assert(spec_parse(s) == Ok::<Expr, Error>(Expr::Num(v)));
    assert(spec_eval(Expr::Num(v)) == Ok::<Value, Error>(v));
}

/// A character that can be part of a number lexeme.
pub open spec fn num_char(ch: char) -> bool {
    is_digit(ch) || ch == '.'
}

proof fn lemma_shift_skip_ws(s: Seq<char>, k: int, c: char, i: int)
    requires
        0 <= k <= i <= s.len(),
    ensures
        skip_ws(s.insert(k, c), (i + 1) as nat) == skip_ws(s, i as nat) + 1,
    decreases s.len() - i,
{
    s.insert_ensures(k, c);
    if i < s.len() && is_ws(s[i]) {
        lemma_shift_skip_ws(s, k, c, i + 1);
    }
}

proof fn lemma_shift_digits_end(s: Seq<char>, k: int, c: char, i: int)
    requires
        0 <= k <= i <= s.len(),
    ensures
        digits_end(s.insert(k, c), (i + 1) as nat) == digits_end(s, i as nat) + 1,
    decreases s.len() - i,
{
    s.insert_ensures(k, c);
    if i < s.len() && is_digit(s[i]) {
        lemma_shift_digits_end(s, k, c, i + 1);
    }
}

proof fn lemma_shift_digits_val(s: Seq<char>, k: int, c: char, i: int, j: int, acc: int)
    requires
        0 <= k <= i <= j <= s.len(),
    ensures
        digits_val(s.insert(k, c), (i + 1) as nat, (j + 1) as nat, acc) == digits_val(
            s,
            i as nat,
            j as nat,
            acc,
        ),
    decreases j - i,
{
    s.insert_ensures(k, c);
    if i < j {
        lemma_shift_digits_val(s, k, c, i + 1, j, acc * 10 + crate::tokenizer::digit_val(s[i]));
    }
}

/// A scanner step on a shifted suffix: after an insertion at `k`, the
/// scan from any `i + 1` with `i >= k` finds the token the original
/// scan finds from `i`, one position later.
proof fn lemma_shift_lex_step(s: Seq<char>, k: int, c: char, i: int)
    requires
        0 <= k <= i <= s.len(),
        is_ws(c),
    ensures
        lex_step(s, i as nat) matches Ok((t, j)) ==> lex_step(s.insert(k, c), (i + 1) as nat)
            == Ok::<(Token, nat), Error>((t, (j + 1) as nat)),
{
    s.insert_ensures(k, c);
    lemma_shift_skip_ws(s, k, c, i);
    lemma_skip_ws(s, i as nat);
    let a = skip_ws(s, i as nat);
    if a < s.len() {
        let ch = s[a as int];
        if ch == '.' {
            // What stands one position before the dot: the inserted
            // whitespace when the dot sits right at the insertion
            // point, the shifted predecessor otherwise.
            if a as int == k {
                assert(s.insert(k, c)[k] == c);
            } else {
                let ghost b = a as int - 1;
                assert(s.insert(k, c)[b + 1] == s[b]);
            }
        }
        if is_digit(ch) {
            lemma_digits_end(s, a);
            lemma_shift_digits_end(s, k, c, a as int);
            let j = digits_end(s, a);
            lemma_shift_digits_val(s, k, c, a as int, j as int, 0);
            if j < s.len() && s[j as int] == '.' {
                lemma_digits_end(s, (j + 1) as nat);
                lemma_shift_digits_end(s, k, c, (j + 1) as int);
                let fe = digits_end(s, (j + 1) as nat);
                lemma_shift_digits_val(
                    s,
                    k,
                    c,
                    (j + 1) as int,
                    fe as int,
                    digits_val(s, a, j, 0),
                );
            } else {
                lemma_shift_digits_val(s, k, c, j as int, j as int, digits_val(s, a, j, 0));
            }
        } else if ch == '.' {
            if a + 1 < s.len() && is_digit(s[a + 1 as int]) {
                lemma_digits_end(s, (a + 1) as nat);
                lemma_shift_digits_end(s, k, c, (a + 1) as int);
                let fe = digits_end(s, (a + 1) as nat);
                lemma_shift_digits_val(s, k, c, a as int, a as int, 0);
                lemma_shift_digits_val(s, k, c, (a + 1) as int, fe as int, digits_val(s, a, a, 0));
            }
        }
    }
}

proof fn lemma_prefix_skip_ws(s: Seq<char>, k: int, c: char, x: int)
    requires
        0 <= x <= s.len(),
        0 <= k <= s.len(),
        skip_ws(s, x as nat) < k,
    ensures
        skip_ws(s.insert(k, c), x as nat) == skip_ws(s, x as nat),
    decreases s.len() - x,
{
    s.insert_ensures(k, c);
    lemma_skip_ws(s, x as nat);
    if x < s.len() && is_ws(s[x]) {
        lemma_skip_ws(s, (x + 1) as nat);
        lemma_prefix_skip_ws(s, k, c, x + 1);
    }
}

proof fn lemma_prefix_digits_end(s: Seq<char>, k: int, c: char, x: int)
    requires
        0 <= x <= s.len(),
        0 <= k <= s.len(),
        is_ws(c),
        x <= k,
        digits_end(s, x as nat) <= k,
    ensures
        digits_end(s.insert(k, c), x as nat) == digits_end(s, x as nat),
    decreases s.len() - x,
{
    s.insert_ensures(k, c);
    lemma_digits_end(s, x as nat);
    if x < s.len() && is_digit(s[x]) {
        lemma_prefix_digits_end(s, k, c, x + 1);
    }
}

proof fn lemma_prefix_digits_val(s: Seq<char>, k: int, c: char, x: int, y: int, acc: int)
    requires
        0 <= x <= y <= k <= s.len(),
    ensures
        digits_val(s.insert(k, c), x as nat, y as nat, acc) == digits_val(
            s,
            x as nat,
            y as nat,
            acc,
        ),
    decreases y - x,
{
    s.insert_ensures(k, c);
    if x < y {
        lemma_prefix_digits_val(s, k, c, x + 1, y, acc * 10 + crate::tokenizer::digit_val(s[x]));
    }
}

/// Skipping whitespace across the insertion point: when the original
/// scan skips past `k`, the inserted whitespace is skipped as well.
proof fn lemma_skip_ws_cross(s: Seq<char>, k: int, c: char, i: int)
    requires
        0 <= i <= k <= s.len(),
        is_ws(c),
        k <= skip_ws(s, i as nat),
    ensures
        skip_ws(s.insert(k, c), i as nat) == skip_ws(s, i as nat) + 1,
    decreases k - i,
{
    s.insert_ensures(k, c);
    lemma_skip_ws(s, i as nat);
    if i < k {
        lemma_skip_ws_cross(s, k, c, i + 1);
    } else {
        lemma_shift_skip_ws(s, k, c, k);
    }
}

/// One scanner step looks at the input only through `skip_ws`.
proof fn lemma_lex_step_same_skip(s: Seq<char>, i1: nat, i2: nat)
    requires
        skip_ws(s, i1) == skip_ws(s, i2),
    ensures
        lex_step(s, i1) == lex_step(s, i2),
{
}

/// A token that ends at or before the insertion point is scanned
/// unchanged.
#[verifier::rlimit(60)]
proof fn lemma_local_step(s: Seq<char>, k: int, c: char, i: int)
    requires
        0 <= i <= s.len(),
        0 <= k <= s.len(),
        is_ws(c),
        skip_ws(s, i as nat) < k,
    ensures
        lex_step(s, i as nat) matches Ok((t, j)) ==> (j <= k ==> lex_step(s.insert(k, c), i as nat)
            == Ok::<(Token, nat), Error>((t, j))),
{
    s.insert_ensures(k, c);
    lemma_prefix_skip_ws(s, k, c, i);
    lemma_skip_ws(s, i as nat);
    let a = skip_ws(s, i as nat);
    let ch = s[a as int];
    if lex_step(s, i as nat) matches Ok((t, j)) && j <= k {
        if is_digit(ch) {
            lemma_digits_end(s, a);
            let ie = digits_end(s, a);
            if ie < s.len() && s[ie as int] == '.' {
                lemma_digits_end(s, (ie + 1) as nat);
                let fe = digits_end(s, (ie + 1) as nat);
                lemma_prefix_digits_end(s, k, c, a as int);
                lemma_prefix_digits_end(s, k, c, (ie + 1) as int);
                lemma_prefix_digits_val(s, k, c, a as int, ie as int, 0);
                lemma_prefix_digits_val(
                    s,
                    k,
                    c,
                    (ie + 1) as int,
                    fe as int,
                    digits_val(s, a, ie, 0),
                );
            } else {
                lemma_prefix_digits_end(s, k, c, a as int);
                lemma_prefix_digits_val(s, k, c, a as int, ie as int, 0);
                lemma_prefix_digits_val(s, k, c, ie as int, ie as int, digits_val(s, a, ie, 0));
            }
        } else if ch == '.' {
            if a + 1 < s.len() && is_digit(s[a + 1 as int]) {
                lemma_digits_end(s, (a + 1) as nat);
                let fe = digits_end(s, (a + 1) as nat);
                lemma_prefix_digits_end(s, k, c, (a + 1) as int);
                lemma_prefix_digits_val(s, k, c, a as int, a as int, 0);
                lemma_prefix_digits_val(s, k, c, (a + 1) as int, fe as int, digits_val(s, a, a, 0));
            }
        }
    }
}

/// Scanning the rest of the input from `i >= k` is unaffected by an
/// insertion at `k`.
proof fn lemma_lex_shift(s: Seq<char>, k: int, c: char, i: int)
    requires
        0 <= k <= i <= s.len(),
        is_ws(c),
    ensures
        lex(s, i as nat) matches Ok(ts) ==> lex(s.insert(k, c), (i + 1) as nat) == Ok::<
            Seq<Token>,
            Error,
        >(ts),
    decreases s.len() - i,
{
    s.insert_ensures(k, c);
    lemma_lex_step_progress(s, i as nat);
    lemma_shift_lex_step(s, k, c, i);
    match lex_step(s, i as nat) {
        Ok((t, j)) => {
            if !(t is EOF) {
                lemma_lex_shift(s, k, c, j as int);
            }
        },
        Err(_) => {},
    }
}

/// Inserting one whitespace character at `k` leaves the tokens of a
/// valid scan from any `i <= k` unchanged, provided `k` does not cut a
/// number lexeme in two.
#[verifier::rlimit(60)]
proof fn lemma_lex_insert(s: Seq<char>, k: int, c: char, i: int)
    requires
        0 <= i <= k <= s.len(),
        is_ws(c),
        !(0 < k < s.len() && num_char(s[k - 1]) && num_char(s[k])),
    ensures
        lex(s, i as nat) matches Ok(ts) ==> lex(s.insert(k, c), i as nat) == Ok::<
            Seq<Token>,
            Error,
        >(ts),
    decreases s.len() - i,
{
    let s2 = s.insert(k, c);
    s.insert_ensures(k, c);
    lemma_lex_step_progress(s, i as nat);
    lemma_skip_ws(s, i as nat);
    let a = skip_ws(s, i as nat);
    match lex_step(s, i as nat) {
        Err(_) => {},
        Ok((t, j)) => {
            if a >= k {
                lemma_skip_ws_cross(s, k, c, i);
                lemma_shift_skip_ws(s, k, c, a as int);
                lemma_lex_step_same_skip(s, i as nat, a);
                lemma_lex_step_same_skip(s2, i as nat, (a + 1) as nat);
                lemma_shift_lex_step(s, k, c, a as int);
                if !(t is EOF) {
                    lemma_lex_shift(s, k, c, j as int);
                }
            } else {
                lemma_local_step(s, k, c, i);
                if j <= k {
                    lemma_lex_insert(s, k, c, j as int);
                } else {
                    // Only a number lexeme covers more than one
                    // position, so it would span `k`, which the
                    // precondition rules out.
                    let ch = s[a as int];
                    lemma_digits_end(s, a);
                    if is_digit(ch) {
                        let ie = digits_end(s, a);
                        if ie < s.len() && s[ie as int] == '.' {
                            lemma_digits_end(s, (ie + 1) as nat);
                            let fe = digits_end(s, (ie + 1) as nat);
                            assert forall|p: int| a <= p < j implies num_char(s[p]) by {
                                if p < ie {
                                } else if p == ie {
                                } else {
                                }
                            }
                        } else {
                            assert forall|p: int| a <= p < j implies num_char(s[p]) by {}
                        }
                        assert(num_char(s[k - 1]) && num_char(s[k]));
                        assert(false);
                    } else if ch == '.' {
                        if a + 1 < s.len() && is_digit(s[a + 1 as int]) {
                            lemma_digits_end(s, (a + 1) as nat);
                            assert forall|p: int| a <= p < j implies num_char(s[p]) by {
                                if p == a {
                                }
                            }
                            assert(num_char(s[k - 1]) && num_char(s[k]));
                        }
                        assert(false);
                    } else {
                        assert(false);
                    }
                }
            }
        },
    }
}

/// Whitespace invariance: inserting an ASCII whitespace character at
/// any position of an input the tokenizer accepts — except in the
/// middle of a number lexeme, where it would cut the number in two —
/// changes neither the token stream nor the evaluated result. Read
/// right to left, the same equalities cover removing such a character.
pub proof fn lemma_ws_insensitive(s: Seq<char>, k: int, c: char)
    requires
        0 <= k <= s.len(),
        is_ws(c),
        !(0 < k < s.len() && num_char(s[k - 1]) && num_char(s[k])),
        lex(s, 0) is Ok,
    ensures
        lex(s.insert(k, c), 0) == lex(s, 0),
        spec_eval_str(s.insert(k, c)) == spec_eval_str(s),
{
    lemma_lex_insert(s, k, c, 0);
}

} // verus!

