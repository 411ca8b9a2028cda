use expression_tree::base::OperatorKind;
use expression_tree::literal::Literal;
use expression_tree::parser::parse_line;
use expression_tree::tree::{draw_string, make_padding, Node};

fn num(text: &str) -> Box<Node> {
    let mut value = Literal::zero();
    for c in text.chars() {
        value = value.push_digit(c.to_digit(10).unwrap() as u8);
    }
    Box::new(Node::Number(value))
}

fn op(kind: OperatorKind, left: Box<Node>, right: Box<Node>) -> Box<Node> {
    Box::new(Node::Operation(kind, left, right))
}

fn draw(text: &str) -> String {
    draw_string(&parse_line(&text.to_string()).unwrap())
}

#[test]
fn leaf_is_its_digits() {
    assert_eq!(draw_string(&num("42")), "42");
    assert_eq!(draw("007"), "7");
}

#[test]
fn operator_stands_above_its_operands() {
    assert_eq!(draw("2+3"), "+\n|---2\n|---3\n");
}

#[test]
fn left_subtree_keeps_the_bar_of_its_parent() {
    assert_eq!(
        draw("(1+2)*3"),
        "*\n|---+\n|   |---1\n|   |---2\n|   \n|---3\n"
    );
}

#[test]
fn right_subtree_has_no_bar_of_its_parent() {
    assert_eq!(
        draw("1+2*3"),
        "+\n|---1\n|---*\n    |---2\n    |---3\n    \n"
    );
}

#[test]
fn three_levels_draw_every_pending_bar() {
    assert_eq!(
        draw("((1-2)/3)^(4*(5+6))"),
        concat_lines(&[
            "^",
            "|---/",
            "|   |----",
            "|   |   |---1",
            "|   |   |---2",
            "|   |   ",
            "|   |---3",
            "|   ",
            "|---*",
            "    |---4",
            "    |---+",
            "        |---5",
            "        |---6",
            "        ",
            "    ",
            "",
        ])
    );
}

fn concat_lines(lines: &[&str]) -> String {
    lines.join("\n")
}

#[test]
fn every_operator_draws_its_symbol() {
    for (kind, symbol) in [
        (OperatorKind::ADD, "+"),
        (OperatorKind::SUB, "-"),
        (OperatorKind::MULT, "*"),
        (OperatorKind::DIV, "/"),
        (OperatorKind::POW, "^"),
    ] {
        let tree = op(kind, num("1"), num("2"));
        assert_eq!(draw_string(&tree), format!("{}\n|---1\n|---2\n", symbol));
    }
}

#[test]
fn drawing_is_repeatable() {
    for text in ["2+3*4", "(1+2)*(3+4)", "9"] {
        assert_eq!(draw(text), draw(text));
    }
}

#[test]
fn drawing_is_no_input_for_the_parser() {
    let text = "2+3".to_string();
    let tree = parse_line(&text).unwrap();
    let drawn = draw_string(&tree);
    assert_ne!(parse_line(&drawn), Ok(tree));
    assert!(parse_line(&drawn).is_err());
}

#[test]
fn depth_is_counted_in_operators() {
    let tree = parse_line(&"(1+2)*3".to_string()).unwrap();
    assert!(tree.depth_within(2));
    assert!(!tree.depth_within(1));
    assert!(num("5").depth_within(0));
}

#[test]
fn padding_without_bars() {
    let mut bars: Vec<(usize, usize)> = Vec::new();
    assert_eq!(make_padding(&mut bars, 0, false), "");
    assert_eq!(make_padding(&mut bars, 4, false), "----");
    assert_eq!(make_padding(&mut bars, 6, false), "  ----");
    assert_eq!(make_padding(&mut bars, 6, true), "      ");
    assert_eq!(make_padding(&mut bars, 3, false), "---");
    assert!(bars.is_empty());
}

#[test]
fn padding_draws_bars_and_counts_down() {
    let mut bars = vec![(0, 1), (4, 2)];
    assert_eq!(make_padding(&mut bars, 8, false), "|   |---");
    assert_eq!(bars, vec![(0, 1), (4, 1)]);
    assert_eq!(make_padding(&mut bars, 8, false), "|   |---");
    assert_eq!(bars, vec![(0, 1)]);
    assert_eq!(make_padding(&mut bars, 4, true), "|   ");
    assert_eq!(bars, vec![(0, 1)]);
    assert_eq!(make_padding(&mut bars, 4, false), "|---");
    assert!(bars.is_empty());
}

#[test]
fn padding_skips_bars_beyond_its_width() {
    let mut bars = vec![(2, 3), (9, 5)];
    assert_eq!(make_padding(&mut bars, 6, true), "  |   ");
    assert_eq!(bars, vec![(2, 3), (9, 5)]);
    assert_eq!(make_padding(&mut bars, 6, false), "  |---");
    assert_eq!(bars, vec![(2, 3), (9, 4)]);
}

#[test]
fn padding_stops_at_a_bar_out_of_order() {
    let mut bars = vec![(4, 1), (0, 1), (6, 1)];
    assert_eq!(make_padding(&mut bars, 8, true), "    |   ");
    let mut bars = vec![(3, 1), (3, 1), (5, 1)];
    assert_eq!(make_padding(&mut bars, 8, true), "   |    ");
}
