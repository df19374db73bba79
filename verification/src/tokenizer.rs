//! Lexical analysis: a pull-based tokenizer over a character sequence.
//!
//! The specification-level scanner is `lex_step` (one token) and `lex`
//! (the whole rest of the input); the executable `Tokenizer` is proved to
//! follow them step by step.
//!
//! Lexical rules: ASCII whitespace is skipped; a maximal run shaped
//! `digits ('.' digits?)?` or `'.' digits` is a number, so numbers never
//! span a non-numeric character — on `1.2.3` the scan emits the number
//! `1.2` and only the next pull reports the error. A `.` directly after
//! a digit (one a number run has just ended on), and a `.` that no digit
//! follows, are malformed numbers; the seven operator and parenthesis
//! characters map to their tokens; anything else is an unexpected
//! character. Error offsets count characters, which equals the byte
//! offset because every character scanned before an error position is
//! 7-bit ASCII.

use vstd::prelude::*;
use vstd::string::StrSliceExecFns;

use crate::error::Error;
use crate::token::Token;
use crate::value::{pow10, spec_norm, Value};

verus! {

pub open spec fn is_ws(c: char) -> bool {
    c == ' ' || c == '\t' || c == '\r' || c == '\n'
}

pub open spec fn is_digit(c: char) -> bool {
    48 <= c as u32 <= 57
}

pub open spec fn digit_val(c: char) -> int {
    c as u32 - 48
}

/// First index at or after `i` that does not hold whitespace.
pub open spec fn skip_ws(s: Seq<char>, i: nat) -> nat
    decreases s.len() - i,
{
    if i < s.len() && is_ws(s[i as int]) {
        skip_ws(s, i + 1)
    } else {
        i
    }
}

/// First index at or after `i` that does not hold a digit.
pub open spec fn digits_end(s: Seq<char>, i: nat) -> nat
    decreases s.len() - i,
{
    if i < s.len() && is_digit(s[i as int]) {
        digits_end(s, i + 1)
    } else {
        i
    }
}

/// The decimal value of the digits in `s[i..j)` appended to `acc`.
pub open spec fn digits_val(s: Seq<char>, i: nat, j: nat, acc: int) -> int
    decreases j - i,
{
    if i < j {
        digits_val(s, i + 1, j, acc * 10 + digit_val(s[i as int]))
    } else {
        acc
    }
}

/// The spans of a number lexeme starting at `a`: end of the integer
/// digits, then start and end of the fractional digits (an empty range
/// when there are none).
pub open spec fn num_spans(s: Seq<char>, a: nat) -> (nat, nat, nat) {
    if is_digit(s[a as int]) {
        let j = digits_end(s, a);
        if j < s.len() && s[j as int] == '.' {
            (j, (j + 1) as nat, digits_end(s, j + 1))
        } else {
            (j, j, j)
        }
    } else {
        (a, (a + 1) as nat, digits_end(s, a + 1))
    }
}

/// Turn a scanned number lexeme into a token: reject an
/// unrepresentable mantissa or denominator, and otherwise reduce
/// `mantissa / 10^fraction_digits`.
pub open spec fn scan_num_from(s: Seq<char>, is_: nat, ie: nat, fs: nat, fe: nat) -> Result<
    (Value, nat),
    Error,
> {
    let m = digits_val(s, fs, fe, digits_val(s, is_, ie, 0));
    let f = (fe - fs) as nat;
    if m > i128::MAX as int {
        Err(Error::NonFinite)
    } else if pow10(f) > i128::MAX as int {
        Err(Error::NonFinite)
    } else {
        match spec_norm(m, pow10(f)) {
            Some(v) => Ok((v, fe)),
            None => Err(Error::NonFinite),
        }
    }
}

/// One step of the scanner: the next token and the index just past it.
/// At the end of the input the token is `EOF` and the index stays put.
pub open spec fn lex_step(s: Seq<char>, i: nat) -> Result<(Token, nat), Error> {
    let a = skip_ws(s, i);
    if a >= s.len() {
        Ok((Token::EOF, a))
    } else {
        let c = s[a as int];
        if is_digit(c) {
            let (ie, fs, fe) = num_spans(s, a);
            match scan_num_from(s, a, ie, fs, fe) {
                Ok((v, end)) => Ok((Token::Num(v), end)),
                Err(e) => Err(e),
            }
        } else if c == '.' {
            if a > 0 && is_digit(s[a - 1 as int]) {
                // The `.` directly follows a number run: numbers never
                // span it, so it is an error, reported one pull after
                // the number itself.
                Err(Error::MalformedNumber(a as usize))
            } else if a + 1 < s.len() && is_digit(s[a + 1 as int]) {
                let (ie, fs, fe) = num_spans(s, a);
                match scan_num_from(s, a, ie, fs, fe) {
                    Ok((v, end)) => Ok((Token::Num(v), end)),
                    Err(e) => Err(e),
                }
            } else {
                Err(Error::MalformedNumber(a as usize))
            }
        } else if c == '+' {
            Ok((Token::Add, (a + 1) as nat))
        } else if c == '-' {
            Ok((Token::Subtract, (a + 1) as nat))
        } else if c == '*' {
            Ok((Token::Multiply, (a + 1) as nat))
        } else if c == '/' {
            Ok((Token::Divide, (a + 1) as nat))
        } else if c == '^' {
            Ok((Token::Caret, (a + 1) as nat))
        } else if c == '(' {
            Ok((Token::LeftParen, (a + 1) as nat))
        } else if c == ')' {
            Ok((Token::RightParen, (a + 1) as nat))
        } else {
            Err(Error::UnexpectedChar(a as usize))
        }
    }
}

/// The token sequence of `s[i..]`, without the closing `EOF`.
pub open spec fn lex(s: Seq<char>, i: nat) -> Result<Seq<Token>, Error>
    decreases s.len() - i,
{
    match lex_step(s, i) {
        Err(e) => Err(e),
        Ok((t, j)) => if t is EOF {
            Ok(Seq::empty())
        } else if i < j && j <= s.len() {
            // `lemma_lex_step_progress` shows this guard always holds here.
            match lex(s, j) {
                Err(e) => Err(e),
                Ok(ts) => Ok(seq![t] + ts),
            }
        } else {
            Err(Error::UnexpectedChar(0))
        },
    }
}

pub proof fn lemma_skip_ws(s: Seq<char>, i: nat)
    requires
        i <= s.len(),
    ensures
        i <= skip_ws(s, i) <= s.len(),
        skip_ws(s, i) < s.len() ==> !is_ws(s[skip_ws(s, i) as int]),
        forall|j: int| i <= j < skip_ws(s, i) ==> is_ws(s[j]),
    decreases s.len() - i,
{
    if i < s.len() && is_ws(s[i as int]) {
        lemma_skip_ws(s, i + 1);
    }
}

pub proof fn lemma_digits_end(s: Seq<char>, i: nat)
    requires
        i <= s.len(),
    ensures
        i <= digits_end(s, i) <= s.len(),
        digits_end(s, i) < s.len() ==> !is_digit(s[digits_end(s, i) as int]),
        forall|j: int| i <= j < digits_end(s, i) ==> is_digit(s[j]),
        i < s.len() && is_digit(s[i as int]) ==> digits_end(s, i) >= i + 1,
    decreases s.len() - i,
{
    if i < s.len() && is_digit(s[i as int]) {
        lemma_digits_end(s, i + 1);
    }
}

pub proof fn lemma_pow10_pos(k: nat)
    ensures
        1 <= pow10(k),
    decreases k,
{
    if k > 0 {
        lemma_pow10_pos((k - 1) as nat);
    }
}

pub proof fn lemma_pow10_mono(i: nat, j: nat)
    requires
        i <= j,
    ensures
        1 <= pow10(i) <= pow10(j),
    decreases j,
{
    lemma_pow10_pos(i);
    if i < j {
        lemma_pow10_mono(i, (j - 1) as nat);
        lemma_pow10_pos((j - 1) as nat);
    }
}

/// A scanner step lands inside the input and, unless it produced `EOF`,
/// strictly advances.
pub proof fn lemma_lex_step_progress(s: Seq<char>, i: nat)
    requires
        i <= s.len(),
    ensures
        lex_step(s, i) matches Ok((t, j)) ==> j <= s.len() && i <= j && skip_ws(s, i) <= j && (!(t
            is EOF) ==> i < j),
{
    lemma_skip_ws(s, i);
    let a = skip_ws(s, i);
    if a < s.len() {
        let c = s[a as int];
        if is_digit(c) {
            lemma_digits_end(s, a);
            let j = digits_end(s, a);
            if j < s.len() && s[j as int] == '.' {
                lemma_digits_end(s, (j + 1) as nat);
            }
        } else if c == '.' {
            if a + 1 < s.len() && is_digit(s[a + 1 as int]) {
                lemma_digits_end(s, (a + 1) as nat);
            }
        }
    }
}

/// `digits_end` stops exactly where the digits do.
pub proof fn lemma_digits_end_exact(s: Seq<char>, i: nat, e: nat)
    requires
        i <= e <= s.len(),
        forall|n: int| i <= n < e ==> is_digit(s[n]),
        e < s.len() ==> !is_digit(s[e as int]),
    ensures
        digits_end(s, i) == e,
    decreases e - i,
{
    if i < e {
        lemma_digits_end_exact(s, i + 1, e);
    }
}

/// A run of `j - i` digits appended to `acc` lands in
/// `[acc, (acc + 1) * 10^(j - i))`.
pub proof fn lemma_digits_val_bound(s: Seq<char>, i: nat, j: nat, acc: int)
    requires
        i <= j <= s.len(),
        0 <= acc,
        forall|n: int| i <= n < j ==> is_digit(s[n]),
    ensures
        acc <= digits_val(s, i, j, acc),
        digits_val(s, i, j, acc) < (acc + 1) * pow10((j - i) as nat),
    decreases j - i,
{
    lemma_pow10_pos((j - i) as nat);
    if i < j {
        let d = digit_val(s[i as int]);
        let acc2 = acc * 10 + d;
        lemma_digits_val_bound(s, i + 1, j, acc2);
        lemma_pow10_pos((j - i - 1) as nat);
        assert(pow10((j - i) as nat) == 10 * pow10((j - i - 1) as nat));
        vstd::arithmetic::mul::lemma_mul_inequality(
            acc2 + 1,
            (acc + 1) * 10,
            pow10((j - i - 1) as nat),
        );
        assert(((acc + 1) * 10) * pow10((j - i - 1) as nat) == (acc + 1) * pow10((j - i) as nat))
            by (nonlinear_arith)
            requires
                pow10((j - i) as nat) == 10 * pow10((j - i - 1) as nat),
        ;
    }
}

/// Powers of ten multiply by adding exponents.
pub proof fn lemma_pow10_add(a: nat, b: nat)
    ensures
        pow10(a) * pow10(b) == pow10((a + b) as nat),
    decreases b,
{
    if b == 0 {
        assert(pow10(0) == 1);
    } else {
        lemma_pow10_add(a, (b - 1) as nat);
        assert(pow10(a) * pow10(b) == pow10((a + b) as nat)) by (nonlinear_arith)
            requires
                pow10(b) == 10 * pow10((b - 1) as nat),
                pow10(a) * pow10((b - 1) as nat) == pow10((a + b - 1) as nat),
                pow10((a + b) as nat) == 10 * pow10((a + b - 1) as nat),
        ;
    }
}

/// A number token produced by one scanner step is well formed.
pub proof fn lemma_lex_step_wf(s: Seq<char>, i: nat)
    requires
        i <= s.len(),
    ensures
        lex_step(s, i) matches Ok((t, j)) ==> (t matches Token::Num(v) ==> v.wf()),
{
    lemma_skip_ws(s, i);
    let a = skip_ws(s, i);
    if a < s.len() {
        let c = s[a as int];
        if is_digit(c) || c == '.' {
            let (ie, fs, fe) = num_spans(s, a);
            lemma_pow10_pos((fe - fs) as nat);
            crate::value::lemma_norm_wf(
                digits_val(s, fs, fe, digits_val(s, a, ie, 0)),
                pow10((fe - fs) as nat),
            );
        }
    }
}

pub(crate) fn is_ws_char(c: char) -> (r: bool)
    ensures
        r == is_ws(c),
{
    c == ' ' || c == '\t' || c == '\r' || c == '\n'
}

fn is_digit_char(c: char) -> (r: bool)
    ensures
        r == is_digit(c),
{
    let u = c as u32;
    48 <= u && u <= 57
}

/// `i128::MAX`, divided by ten and rounded down: the largest value that
/// ten still multiplies into the representable range.
const TENTH_OF_MAX: u128 = 17014118346046923173168730371588410572;

/// `10^f` when it is representable, `None` otherwise.
fn pow10_i128(f: usize) -> (r: Option<i128>)
    ensures
        pow10(f as nat) <= i128::MAX as int ==> r == Some((pow10(f as nat)) as i128),
        pow10(f as nat) > i128::MAX as int ==> r is None,
{
    let mut p: u128 = 1;
    let mut k: usize = 0;
    proof {
        lemma_pow10_pos(f as nat);
    }
    while k < f
        invariant
            k <= f,
            p == pow10(k as nat),
            p <= i128::MAX as u128,
        decreases f - k,
    {
        if p > TENTH_OF_MAX {
            proof {
                lemma_pow10_mono((k + 1) as nat, f as nat);
                assert(pow10((k + 1) as nat) == 10 * pow10(k as nat));
                assert(pow10(f as nat) > i128::MAX as int);
            }
            return None;
        }
        p = p * 10;
        k = k + 1;
    }
    Some(p as i128)
}

/// A pull-based tokenizer: the source as characters and a scan position.
/// On a lexical error the position jumps to the end of the input, so
/// later pulls keep reporting exhaustion.
pub struct Tokenizer {
    chars: Vec<char>,
    pos: usize,
}

impl Tokenizer {
    /// The characters being scanned.
    pub closed spec fn src(self) -> Seq<char> {
        self.chars@
    }

    /// The current scan position.
    pub closed spec fn at(self) -> nat {
        self.pos as nat
    }

    pub closed spec fn wf(self) -> bool {
        self.pos <= self.chars@.len()
    }

    pub fn new(new_expr: &str) -> (r: Tokenizer)
        ensures
            r.src() == new_expr@,
            r.at() == 0,
            r.wf(),
    {
        let n = new_expr.unicode_len();
        let mut chars: Vec<char> = Vec::new();
        let mut i: usize = 0;
        while i < n
            invariant
                i <= n,
                n == new_expr@.len(),
                chars@ == new_expr@.subrange(0, i as int),
            decreases n - i,
        {
            chars.push(new_expr.get_char(i));
            proof {
                assert(chars@ =~= new_expr@.subrange(0, i + 1 as int));
            }
            i = i + 1;
        }
        proof {
            assert(chars@ =~= new_expr@);
        }
        Tokenizer { chars, pos: 0 }
    }

    /// Consume one maximal digit run, extending the decimal value read
    /// so far. `acc` is that value unless `over` reports that it has
    /// already outgrown `i128`; `true_val` carries the unbounded value.
    fn scan_digits(&mut self, acc: u128, over: bool, true_val: Ghost<int>) -> (r: (
        u128,
        bool,
        Ghost<int>,
    ))
        requires
            old(self).wf(),
            0 <= true_val@,
            !over ==> acc == true_val@ && true_val@ <= i128::MAX as int,
            over ==> true_val@ > i128::MAX as int,
        ensures
            final(self).wf(),
            final(self).src() == old(self).src(),
            final(self).at() == digits_end(old(self).src(), old(self).at()),
            r.2@ == digits_val(old(self).src(), old(self).at(), digits_end(old(self).src(), old(self).at()), true_val@),
            0 <= true_val@ <= r.2@,
            !r.1 ==> r.0 == r.2@ && r.2@ <= i128::MAX as int,
            r.1 ==> r.2@ > i128::MAX as int,
    {
        let ghost s = self.chars@;
        let ghost j = digits_end(s, self.pos as nat);
        proof {
            lemma_digits_end(s, self.pos as nat);
        }
        let mut acc = acc;
        let mut over = over;
        let ghost mut tv = true_val@;
        while self.pos < self.chars.len() && is_digit_char(self.chars[self.pos])
            invariant
                self.wf(),
                self.chars@ == s,
                old(self).at() <= self.at() <= j,
                j == digits_end(s, self.at()),
                j <= s.len(),
                digits_val(s, old(self).at(), j, true_val@) == digits_val(s, self.at(), j, tv),
                0 <= true_val@ <= tv,
                !over ==> acc == tv && tv <= i128::MAX as int,
                over ==> tv > i128::MAX as int,
            decreases s.len() - self.at(),
        {
            let c = self.chars[self.pos];
            let d: u128 = (c as u32 - 48) as u128;
            proof {
                lemma_digits_end(s, self.at());
                assert(self.at() < j);
            }
            if !over {
                if acc > TENTH_OF_MAX {
                    over = true;
                } else {
                    let t: u128 = acc * 10 + d;
                    if t > i128::MAX as u128 {
                        over = true;
                    } else {
                        acc = t;
                    }
                }
            }
            proof {
                assert(digits_val(s, self.at(), j, tv) == digits_val(
                    s,
                    (self.at() + 1) as nat,
                    j,
                    tv * 10 + digit_val(c),
                ));
                tv = tv * 10 + digit_val(c);
            }
            self.pos = self.pos + 1;
        }
        (acc, over, Ghost(tv))
    }

    /// Scan the number lexeme that starts at the current position.
    fn scan_number(&mut self) -> (r: Result<Token, Error>)
        requires
            old(self).wf(),
            old(self).at() < old(self).src().len(),
            is_digit(old(self).src()[old(self).at() as int]) || (old(self).src()[old(self).at() as int]
                == '.' && old(self).at() + 1 < old(self).src().len() && is_digit(
                old(self).src()[old(self).at() + 1 as int],
            )),
        ensures
            final(self).wf(),
            final(self).src() == old(self).src(),
            ({
                let s = old(self).src();
                let a = old(self).at();
                let (ie, fs, fe) = num_spans(s, a);
                match scan_num_from(s, a, ie, fs, fe) {
                    Ok((v, end)) => r == Ok::<Token, Error>(Token::Num(v)) && final(self).at()
                        == end,
                    Err(e) => r == Err::<Token, Error>(e) && final(self).at() == s.len(),
                }
            }),
    {
        let ghost s = self.chars@;
        let ghost a = self.pos as nat;
        proof {
            lemma_digits_end(s, a);
        }
        let mut acc: u128 = 0;
        let mut over: bool = false;
        let ghost mut tv: int = 0;
        let mut fs: usize = self.pos;
        // Integer digits (empty when the lexeme starts with `.`).
        let c0 = self.chars[self.pos];
        if is_digit_char(c0) {
            let (acc2, over2, tv2) = self.scan_digits(acc, over, Ghost(0));
            acc = acc2;
            over = over2;
            proof {
                tv = tv2@;
            }
            fs = self.pos;
        }
        let ghost ie = self.pos as nat;
        // Fractional digits, after a `.` that continues the run.
        if self.pos < self.chars.len() && self.chars[self.pos] == '.' {
            self.pos = self.pos + 1;
            fs = self.pos;
            proof {
                lemma_digits_end(s, fs as nat);
            }
            let (acc2, over2, tv2) = self.scan_digits(acc, over, Ghost(tv));
            acc = acc2;
            over = over2;
            proof {
                tv = tv2@;
            }
        }
        let ghost spans = num_spans(s, a);
        let fe = self.pos;
        proof {
            assert(spans.0 == ie && spans.1 == fs as nat && spans.2 == fe as nat);
            assert(tv == digits_val(s, fs as nat, fe as nat, digits_val(s, a, ie, 0)));
        }
        if over {
            self.pos = self.chars.len();
            return Err(Error::NonFinite);
        }
        proof {
            assert(fs <= fe);
        }
        let frac_count = fe - fs;
        let den = match pow10_i128(frac_count) {
            Some(d) => d,
            None => {
                self.pos = self.chars.len();
                return Err(Error::NonFinite);
            },
        };
        proof {
            lemma_pow10_pos(frac_count as nat);
        }
        match Value::norm_i128(acc as i128, den) {
            Some(v) => Ok(Token::Num(v)),
            None => {
                self.pos = self.chars.len();
                Err(Error::NonFinite)
            },
        }
    }

    /// Pull the next token, or report the lexical error that stops the
    /// scan; afterwards the position sits just past the token (at the
    /// end of the input after an error or `EOF`).
    pub fn next_token(&mut self) -> (r: Result<Token, Error>)
        requires
            old(self).wf(),
        ensures
            final(self).wf(),
            final(self).src() == old(self).src(),
            match lex_step(old(self).src(), old(self).at()) {
                Ok((t, j)) => r == Ok::<Token, Error>(t) && final(self).at() == j,
                Err(e) => r == Err::<Token, Error>(e) && final(self).at() == old(
                    self,
                ).src().len(),
            },
    {
        let ghost s = self.chars@;
        let ghost i0 = self.pos as nat;
        while self.pos < self.chars.len() && is_ws_char(self.chars[self.pos])
            invariant
                self.wf(),
                self.chars@ == s,
                i0 <= self.at(),
                skip_ws(s, i0) == skip_ws(s, self.at()),
            decreases s.len() - self.at(),
        {
            self.pos = self.pos + 1;
        }
        if self.pos >= self.chars.len() {
            return Ok(Token::EOF);
        }
        let c = self.chars[self.pos];
        if is_digit_char(c) {
            self.scan_number()
        } else if c == '.' {
            if self.pos > 0 && is_digit_char(self.chars[self.pos - 1]) {
                // The `.` directly follows a number run: the previous
                // pull returned that number, this one reports the error.
                let at = self.pos;
                self.pos = self.chars.len();
                Err(Error::MalformedNumber(at))
            } else if self.pos + 1 < self.chars.len() && is_digit_char(self.chars[self.pos + 1]) {
                self.scan_number()
            } else {
                let at = self.pos;
                self.pos = self.chars.len();
                Err(Error::MalformedNumber(at))
            }
        } else if c == '+' {
            self.pos = self.pos + 1;
            Ok(Token::Add)
        } else if c == '-' {
            self.pos = self.pos + 1;
            Ok(Token::Subtract)
        } else if c == '*' {
            self.pos = self.pos + 1;
            Ok(Token::Multiply)
        } else if c == '/' {
            self.pos = self.pos + 1;
            Ok(Token::Divide)
        } else if c == '^' {
            self.pos = self.pos + 1;
            Ok(Token::Caret)
        } else if c == '(' {
            self.pos = self.pos + 1;
            Ok(Token::LeftParen)
        } else if c == ')' {
            self.pos = self.pos + 1;
            Ok(Token::RightParen)
        } else {
            let at = self.pos;
            self.pos = self.chars.len();
            Err(Error::UnexpectedChar(at))
        }
    }

    /// The plain pull interface: a token on success (with `EOF` at and
    /// after the end), `None` on a lexical error. `next_token` reports
    /// the error itself.
    pub fn next(&mut self) -> (r: Option<Token>)
        requires
            old(self).wf(),
        ensures
            final(self).wf(),
            final(self).src() == old(self).src(),
            match lex_step(old(self).src(), old(self).at()) {
                Ok((t, j)) => r == Some(t) && final(self).at() == j,
                Err(_) => r is None && final(self).at() == old(self).src().len(),
            },
    {
        match self.next_token() {
            Ok(t) => Some(t),
            Err(_) => None,
        }
    }
}

/// Scan a whole input eagerly into its token list (without the closing
/// `EOF`), or report its first lexical error.
pub fn tokenize(input: &str) -> (r: Result<Vec<Token>, Error>)
    ensures
        lex(input@, 0) matches Ok(ts) ==> r matches Ok(v) && v@ == ts,
        lex(input@, 0) matches Err(e) ==> r == Err::<Vec<Token>, Error>(e),
{
    let mut tk = Tokenizer::new(input);
    let mut out: Vec<Token> = Vec::new();
    let ghost s = input@;
    proof {
        match lex(s, 0) {
            Ok(ts) => {
                assert(Seq::<Token>::empty() + ts =~= ts);
            },
            Err(_) => {},
        }
        assert(out@ =~= Seq::<Token>::empty());
    }
    loop
        invariant
            s == input@,
            tk.wf(),
            tk.src() == s,
            match lex(s, tk.at()) {
                Ok(ts) => lex(s, 0) == Ok::<Seq<Token>, Error>(out@ + ts),
                Err(e) => lex(s, 0) == Err::<Seq<Token>, Error>(e),
            },
        ensures
            lex(s, 0) == Ok::<Seq<Token>, Error>(out@),
        decreases s.len() - tk.at(),
    {
        let ghost i_before = tk.at();
        proof {
            lemma_lex_step_progress(s, i_before);
        }
        let t = match tk.next_token() {
            Err(e) => {
                proof {
                    assert(lex(s, i_before) == Err::<Seq<Token>, Error>(e));
                    assert(lex(s, 0) == Err::<Seq<Token>, Error>(e));
                }
                return Err(e);
            },
            Ok(t) => t,
        };
        match t {
            Token::EOF => {
                proof {
                    assert(out@ + Seq::<Token>::empty() =~= out@);
                }
                break;
            },
            _ => {
                let ghost prev = out@;
                out.push(t);
                proof {
                    assert(out@ =~= prev + seq![t]);
                    match lex(s, tk.at()) {
                        Ok(ts2) => {
                            assert(lex(s, i_before) == Ok::<Seq<Token>, Error>(seq![t] + ts2));
                            assert(prev + (seq![t] + ts2) =~= (prev + seq![t]) + ts2);
                        },
                        Err(_) => {},
                    }
                }
            },
        }
    }
    Ok(out)
}

} // verus!
