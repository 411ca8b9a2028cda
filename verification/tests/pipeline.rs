use expression_tree::base::OperatorKind;
use expression_tree::literal::Literal;
use expression_tree::parser::{parse_line, ParseError, SyntaxError};
use expression_tree::pipeline::parse_and_draw;
use expression_tree::tokenizer::{LexError, TokenKind};
use expression_tree::tree::{draw_outline, draw_string, Node};

fn number(digits: &[u8]) -> Box<Node> {
    let mut value = Literal::zero();
    for d in digits {
        value = value.push_digit(*d);
    }
    Box::new(Node::Number(value))
}

#[test]
fn line_gives_tree_and_diagram() {
    let (tree, diagram) = parse_and_draw(&"2+3*4\n".to_string()).unwrap();
    assert_eq!(
        tree,
        Box::new(Node::Operation(
            OperatorKind::ADD,
            number(&[2]),
            Box::new(Node::Operation(OperatorKind::MULT, number(&[3]), number(&[4]))),
        ))
    );
    assert_eq!(diagram, "+\n|---2\n|---*\n    |---3\n    |---4\n    \n");
    assert_eq!(diagram, draw_string(&tree));
}

#[test]
fn line_with_an_error_gives_the_error() {
    assert_eq!(
        parse_and_draw(&"(2+3".to_string()),
        Err(ParseError::Syntax(SyntaxError::UnclosedParenthesis))
    );
    assert_eq!(
        parse_and_draw(&"2+#3".to_string()),
        Err(ParseError::Lex(LexError { character: '#' }))
    );
}

#[test]
fn same_line_gives_same_diagram() {
    for text in ["1+2", "(4-1)*(6/3)^2", "12 * (3 + 4) - 5 / 6", "77"] {
        let first = parse_and_draw(&text.to_string());
        let second = parse_and_draw(&text.to_string());
        assert!(first.is_ok());
        assert_eq!(first, second);
        assert_eq!(first, parse_and_draw(&format!("  {} \n", text)));
    }
}

#[test]
fn diagnostics_name_the_offender() {
    assert_eq!(
        ParseError::Lex(LexError { character: '#' }).to_string(),
        "Unexpected character: #"
    );
    assert_eq!(
        ParseError::Syntax(SyntaxError::ExpectedOperand(TokenKind::EOF)).to_string(),
        "Expected number or brace open: Found EOF"
    );
    assert_eq!(
        ParseError::Syntax(SyntaxError::ExpectedOperand(TokenKind::BraceClose)).to_string(),
        "Expected number or brace open: Found BraceClose"
    );
    assert_eq!(
        ParseError::Syntax(SyntaxError::UnexpectedOperator(OperatorKind::POW)).to_string(),
        "Unexpected operator: ^"
    );
    assert_eq!(
        ParseError::Syntax(SyntaxError::UnmatchedClose).to_string(),
        "Unexpected close bracket"
    );
    assert_eq!(
        ParseError::Syntax(SyntaxError::UnexpectedToken(TokenKind::Number)).to_string(),
        "Unexpected token: Number"
    );
    assert_eq!(
        ParseError::Syntax(SyntaxError::UnclosedParenthesis).to_string(),
        "Bracket not closed"
    );
}

#[test]
fn diagnostic_of_a_parsed_line() {
    let error = parse_line(&"2+#3".to_string()).unwrap_err();
    assert!(error.to_string().contains('#'));
}

#[test]
fn outline_indents_by_tabs() {
    assert_eq!(draw_outline(&number(&[4, 2]), String::new()), "42");
    let tree = parse_line(&"(1+2)*3".to_string()).unwrap();
    assert_eq!(draw_outline(&tree, String::new()), "*\n\t+\n\t\t1\n\t\t2\n\t3");
    assert_eq!(
        draw_outline(&tree, "> ".to_string()),
        "> *\n> \t+\n> \t\t1\n> \t\t2\n> \t3"
    );
}
