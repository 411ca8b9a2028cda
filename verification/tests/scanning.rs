use expression_tree::base::OperatorKind;
use expression_tree::literal::Literal;
use expression_tree::tokenizer::{is_whitespace, to_digit, LexError, Token, TokenKind, Tokenizer};

fn tokens(text: &str) -> Result<Vec<Token>, LexError> {
    let mut tokenizer = Tokenizer::new(&text.to_string());
    let mut out = Vec::new();
    loop {
        tokenizer.next_token()?;
        match tokenizer.token() {
            Token::EOF => {
                out.push(Token::EOF);
                return Ok(out);
            }
            Token::Number(n) => out.push(Token::Number(n.clone())),
            Token::Operator(op) => out.push(Token::Operator(*op)),
            Token::BraceOpen => out.push(Token::BraceOpen),
            Token::BraceClose => out.push(Token::BraceClose),
        }
    }
}

fn number(text: &str) -> Token {
    let mut value = Literal::zero();
    for c in text.chars() {
        value = value.push_digit(c.to_digit(10).unwrap() as u8);
    }
    Token::Number(value)
}

#[test]
fn new_tokenizer_holds_end_of_input() {
    let tokenizer = Tokenizer::new(&"12".to_string());
    assert_eq!(*tokenizer.token(), Token::EOF);
}

#[test]
fn empty_input_is_end_of_input() {
    assert_eq!(tokens(""), Ok(vec![Token::EOF]));
}

#[test]
fn white_space_only_is_end_of_input() {
    assert_eq!(tokens(" \t\r\n  "), Ok(vec![Token::EOF]));
    assert_eq!(tokens("\u{a0}\u{1680}\u{2028}"), Ok(vec![Token::EOF]));
}

#[test]
fn end_of_input_repeats() {
    let mut tokenizer = Tokenizer::new(&"7".to_string());
    tokenizer.next_token().unwrap();
    assert_eq!(*tokenizer.token(), number("7"));
    tokenizer.next_token().unwrap();
    assert_eq!(*tokenizer.token(), Token::EOF);
    tokenizer.next_token().unwrap();
    assert_eq!(*tokenizer.token(), Token::EOF);
}

#[test]
fn every_symbol_has_its_token() {
    assert_eq!(
        tokens("+-*/^()"),
        Ok(vec![
            Token::Operator(OperatorKind::ADD),
            Token::Operator(OperatorKind::SUB),
            Token::Operator(OperatorKind::MULT),
            Token::Operator(OperatorKind::DIV),
            Token::Operator(OperatorKind::POW),
            Token::BraceOpen,
            Token::BraceClose,
            Token::EOF,
        ])
    );
}

#[test]
fn digits_run_to_the_first_other_character() {
    assert_eq!(
        tokens("12+345 6"),
        Ok(vec![
            number("12"),
            Token::Operator(OperatorKind::ADD),
            number("345"),
            number("6"),
            Token::EOF,
        ])
    );
}

#[test]
fn number_value_is_base_ten() {
    let all = tokens("1234567890").unwrap();
    match &all[0] {
        Token::Number(n) => assert_eq!(n.to_string(), "1234567890"),
        other => panic!("not a number: {:?}", other),
    }
}

#[test]
fn leading_zeros_do_not_count() {
    assert_eq!(tokens("007"), Ok(vec![number("7"), Token::EOF]));
    assert_eq!(tokens("000"), Ok(vec![number("0"), Token::EOF]));
    let all = tokens("0010").unwrap();
    match &all[0] {
        Token::Number(n) => assert_eq!(n.to_string(), "10"),
        other => panic!("not a number: {:?}", other),
    }
}

#[test]
fn numbers_of_any_length_are_kept_exactly() {
    let text = "340282366920938463463374607431768211456000000000000000001";
    let all = tokens(text).unwrap();
    match &all[0] {
        Token::Number(n) => assert_eq!(n.to_string(), text),
        other => panic!("not a number: {:?}", other),
    }
}

#[test]
fn unknown_character_fails_and_leaves_the_token() {
    let mut tokenizer = Tokenizer::new(&"5 $ 6".to_string());
    tokenizer.next_token().unwrap();
    assert_eq!(*tokenizer.token(), number("5"));
    assert_eq!(tokenizer.next_token(), Err(LexError { character: '$' }));
    assert_eq!(*tokenizer.token(), number("5"));
    assert_eq!(tokenizer.next_token(), Err(LexError { character: '$' }));
}

#[test]
fn letters_and_points_are_unknown() {
    assert_eq!(tokens("a"), Err(LexError { character: 'a' }));
    assert_eq!(tokens("1.5"), Err(LexError { character: '.' }));
    assert_eq!(tokens("2 × 3"), Err(LexError { character: '×' }));
    assert_eq!(tokens("٣"), Err(LexError { character: '٣' }));
}

#[test]
fn white_space_is_the_unicode_property() {
    let mut c = 0u32;
    while c <= 0x10FFFF {
        if let Some(ch) = char::from_u32(c) {
            assert_eq!(is_whitespace(ch), ch.is_whitespace(), "U+{:04X}", c);
        }
        c += 1;
    }
}

#[test]
fn digits_are_the_ten_ascii_digits() {
    let mut c = 0u32;
    while c <= 0x10FFFF {
        if let Some(ch) = char::from_u32(c) {
            assert_eq!(to_digit(ch), ch.to_digit(10).map(|d| d as u8), "U+{:04X}", c);
        }
        c += 1;
    }
    assert_eq!(to_digit('0'), Some(0));
    assert_eq!(to_digit('9'), Some(9));
    assert_eq!(to_digit('a'), None);
}

#[test]
fn token_names_are_their_kinds() {
    assert_eq!(number("3").to_string(), "Number");
    assert_eq!(Token::Operator(OperatorKind::ADD).to_string(), "Operator");
    assert_eq!(Token::BraceOpen.to_string(), "BraceOpen");
    assert_eq!(Token::BraceClose.to_string(), "BraceClose");
    assert_eq!(Token::EOF.to_string(), "EOF");
    assert_eq!(number("3").kind(), TokenKind::Number);
    assert_eq!(Token::EOF.kind(), TokenKind::EOF);
    assert_eq!(TokenKind::Operator.to_string(), "Operator");
}

#[test]
fn operators_and_symbols_correspond() {
    for (kind, symbol) in [
        (OperatorKind::ADD, '+'),
        (OperatorKind::SUB, '-'),
        (OperatorKind::MULT, '*'),
        (OperatorKind::DIV, '/'),
        (OperatorKind::POW, '^'),
    ] {
        assert_eq!(kind.symbol(), symbol);
        assert_eq!(OperatorKind::from_symbol(symbol), Some(kind));
    }
    assert_eq!(OperatorKind::from_symbol('('), None);
    assert_eq!(OperatorKind::from_symbol('x'), None);
}

#[test]
fn literal_digits_accumulate() {
    let seven = Literal::zero().push_digit(7);
    assert_eq!(seven.to_string(), "7");
    assert_eq!(seven.clone().push_digit(0).to_string(), "70");
    assert_eq!(Literal::zero().to_string(), "0");
    assert_eq!(Literal::zero().push_digit(0).to_string(), "0");
    assert_eq!(Literal::zero().push_digit(0).push_digit(4), Literal::zero().push_digit(4));
}

#[test]
fn literal_from_an_integer() {
    assert_eq!(Literal::from_u64(0).to_string(), "0");
    assert_eq!(Literal::from_u64(7), Literal::zero().push_digit(7));
    assert_eq!(Literal::from_u64(1234567890).to_string(), "1234567890");
    assert_eq!(Literal::from_u64(u64::MAX).to_string(), "18446744073709551615");
    assert_eq!(
        Literal::from_u64(u64::MAX).push_digit(0).to_string(),
        "184467440737095516150"
    );
    assert_eq!(tokens("1000"), Ok(vec![Token::Number(Literal::from_u64(1000)), Token::EOF]));
}
