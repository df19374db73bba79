use parsemath::error::Error;
use parsemath::token::Token;
use parsemath::tokenizer::{tokenize, Tokenizer};
use parsemath::value::Value;

fn frac(n: i64, d: i64) -> Value {
    Value::from_int(n).div(Value::from_int(d)).unwrap()
}

#[test]
fn tokenizer_pulls_tokens_in_order() {
    let mut t = Tokenizer::new("2 + 17.5*(3-1)^4 / .5");
    assert_eq!(t.next(), Some(Token::Num(Value::from_int(2))));
    assert_eq!(t.next(), Some(Token::Add));
    assert_eq!(t.next(), Some(Token::Num(frac(35, 2))));
    assert_eq!(t.next(), Some(Token::Multiply));
    assert_eq!(t.next(), Some(Token::LeftParen));
    assert_eq!(t.next(), Some(Token::Num(Value::from_int(3))));
    assert_eq!(t.next(), Some(Token::Subtract));
    assert_eq!(t.next(), Some(Token::Num(Value::from_int(1))));
    assert_eq!(t.next(), Some(Token::RightParen));
    assert_eq!(t.next(), Some(Token::Caret));
    assert_eq!(t.next(), Some(Token::Num(Value::from_int(4))));
    assert_eq!(t.next(), Some(Token::Divide));
    assert_eq!(t.next(), Some(Token::Num(frac(1, 2))));
    assert_eq!(t.next(), Some(Token::EOF));
    assert_eq!(t.next(), Some(Token::EOF));
}

#[test]
fn tokenizer_error_yields_none_then_eof() {
    let mut t = Tokenizer::new("3$1");
    assert_eq!(t.next(), Some(Token::Num(Value::from_int(3))));
    assert_eq!(t.next(), None);
    assert_eq!(t.next(), Some(Token::EOF));
}

#[test]
fn tokenizer_next_token_reports_offsets() {
    let mut t = Tokenizer::new("1 + $");
    assert_eq!(t.next_token(), Ok(Token::Num(Value::from_int(1))));
    assert_eq!(t.next_token(), Ok(Token::Add));
    assert_eq!(t.next_token(), Err(Error::UnexpectedChar(4)));
}

#[test]
fn tokenize_collects_all_tokens() {
    let ts = tokenize("1 + 2").unwrap();
    assert_eq!(
        ts,
        vec![
            Token::Num(Value::from_int(1)),
            Token::Add,
            Token::Num(Value::from_int(2))
        ]
    );
    assert_eq!(tokenize("1.2.3"), Err(Error::MalformedNumber(3)));
}

#[test]
fn number_emitted_before_error_on_second_dot() {
    let mut t = Tokenizer::new("1.2.3");
    assert_eq!(t.next(), Some(Token::Num(frac(6, 5))));
    assert_eq!(t.next(), None);
    assert_eq!(t.next(), Some(Token::EOF));

    let mut t = Tokenizer::new("1.2.3");
    assert_eq!(t.next_token(), Ok(Token::Num(frac(6, 5))));
    assert_eq!(t.next_token(), Err(Error::MalformedNumber(3)));
}

#[test]
fn dot_after_a_nondigit_starts_a_number() {
    let ts = tokenize("1..2").unwrap();
    assert_eq!(
        ts,
        vec![Token::Num(Value::from_int(1)), Token::Num(frac(1, 5))]
    );
}

#[test]
fn number_scan_is_maximal() {
    let ts = tokenize("12.5(").unwrap();
    assert_eq!(ts, vec![Token::Num(frac(25, 2)), Token::LeftParen]);
}
