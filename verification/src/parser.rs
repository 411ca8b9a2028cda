use crate::base::OperatorKind;
use crate::tokenizer::{
    kind_name, lemma_lexemes_len, lemma_scan_consumes, lemma_skip_white_space, lexemes, scan,
    LexError, Lexeme, Token, TokenKind, Tokenizer,
};
use crate::tree::{Expr, Node};
use vstd::prelude::*;

verus! {

/// A violation of the grammar.
#[derive(Clone, Copy, Debug, PartialEq, Eq)]
pub enum SyntaxError {
    /// A number or `(` was expected; a token of the given kind was found.
    ExpectedOperand(TokenKind),
    /// An operator stands where `+`, `-`, `)` or the end was expected.
    UnexpectedOperator(OperatorKind),
    /// A `)` that closes no `(`.
    UnmatchedClose,
    /// A token of the given kind stands where an operator, `)` or the end
    /// was expected.
    UnexpectedToken(TokenKind),
    /// The input ended inside a parenthesis.
    UnclosedParenthesis,
}

/// Why no tree was produced.
#[derive(Clone, Copy, Debug, PartialEq, Eq)]
pub enum ParseError {
    Lex(LexError),
    Syntax(SyntaxError),
}

/// The diagnostic for an error. It names the offending character, operator
/// or kind of token, and no position.
pub open spec fn message(error: ParseError) -> Seq<char> {
    match error {
        ParseError::Lex(e) => "Unexpected character: "@.push(e.character),
        ParseError::Syntax(SyntaxError::ExpectedOperand(found)) =>
            "Expected number or brace open: Found "@ + kind_name(found),
        ParseError::Syntax(SyntaxError::UnexpectedOperator(op)) => "Unexpected operator: "@.push(
            op.spec_symbol(),
        ),
        ParseError::Syntax(SyntaxError::UnmatchedClose) => "Unexpected close bracket"@,
        ParseError::Syntax(SyntaxError::UnexpectedToken(found)) => "Unexpected token: "@
            + kind_name(found),
        ParseError::Syntax(SyntaxError::UnclosedParenthesis) => "Bracket not closed"@,
    }
}

impl ParseError {
    /// The diagnostic for the error.
    pub fn to_string(&self) -> (s: String)
        ensures
            s@ == message(*self),
    {
        match self {
            ParseError::Lex(e) => {
                let mut s = String::from_str("Unexpected character: ");
                s.push(e.character);
                s
            },
            ParseError::Syntax(SyntaxError::ExpectedOperand(found)) => {
                let mut s = String::from_str("Expected number or brace open: Found ");
                s.append(found.to_string().as_str());
                s
            },
            ParseError::Syntax(SyntaxError::UnexpectedOperator(op)) => {
                let mut s = String::from_str("Unexpected operator: ");
                s.push(op.symbol());
                s
            },
            ParseError::Syntax(SyntaxError::UnmatchedClose) => String::from_str(
                "Unexpected close bracket",
            ),
            ParseError::Syntax(SyntaxError::UnexpectedToken(found)) => {
                let mut s = String::from_str("Unexpected token: ");
                s.append(found.to_string().as_str());
                s
            },
            ParseError::Syntax(SyntaxError::UnclosedParenthesis) => String::from_str(
                "Bracket not closed",
            ),
        }
    }
}

/// What a grammar rule makes of a token sequence: the tree or the error, and
/// the tokens from the current one on where the rule stopped.
pub struct Parsed {
    pub result: Result<Expr, ParseError>,
    pub rest: Seq<Lexeme>,
}

/// The current token of a sequence; `EOF` where the sequence is empty.
pub open spec fn head(ts: Seq<Lexeme>) -> Lexeme {
    if ts.len() > 0 {
        ts[0]
    } else {
        Lexeme::EOF
    }
}

/// Moving past the current token: the sequence without it, or the lex error
/// where an unknown character comes next.
pub open spec fn advance(ts: Seq<Lexeme>) -> Result<Seq<Lexeme>, ParseError> {
    if ts.len() >= 2 && ts[1] is Unknown {
        Err(ParseError::Lex(LexError { character: ts[1]->Unknown_0 }))
    } else {
        Ok(ts.drop_first())
    }
}

/// A rule that failed with `error` at `ts`.
pub open spec fn failed(error: ParseError, ts: Seq<Lexeme>) -> Parsed {
    Parsed { result: Err(error), rest: ts }
}

/// The error for a token that is found where none of its kind may stand.
pub open spec fn misplaced(l: Lexeme, error: SyntaxError) -> ParseError {
    match l {
        Lexeme::Unknown(c) => ParseError::Lex(LexError { character: c }),
        _ => ParseError::Syntax(error),
    }
}

/// primary := Number | `(` expression `)`
pub open spec fn primary(ts: Seq<Lexeme>) -> Parsed
    decreases ts.len(), 0nat,
{
    match head(ts) {
        Lexeme::BraceOpen => match advance(ts) {
            Ok(inner) => expression(inner, true),
            Err(e) => failed(e, ts),
        },
        Lexeme::Number(n) => match advance(ts) {
            Ok(rest) => Parsed { result: Ok(Expr::Number(n)), rest },
            Err(e) => failed(e, ts),
        },
        other => failed(misplaced(other, SyntaxError::ExpectedOperand(other.kind())), ts),
    }
}

/// power-term := primary [ `^` primary ]
///
/// The power is applied at most once: a further `^` is left where it stands.
///
/// Here and in the rules below, a test that a rule handed back no more
/// tokens than it was given stands before the rule goes on. It always holds
/// (`lemma_primary_consumes` and the lemmas after it); it is there so that
/// the definitions are seen to end.
pub open spec fn power_term(ts: Seq<Lexeme>) -> Parsed
    decreases ts.len(), 1nat,
{
    let base = primary(ts);
    match base.result {
        Ok(left) if head(base.rest) == Lexeme::Operator(OperatorKind::POW) && base.rest.len()
            <= ts.len() => match advance(base.rest) {
            Ok(after) => {
                let exponent = primary(after);
                match exponent.result {
                    Ok(right) => Parsed {
                        result: Ok(
                            Expr::Operation(OperatorKind::POW, Box::new(left), Box::new(right)),
                        ),
                        rest: exponent.rest,
                    },
                    Err(_) => exponent,
                }
            },
            Err(e) => failed(e, base.rest),
        },
        _ => base,
    }
}

/// The continuation of a factor-term whose operands so far make `left`:
/// zero or more `(* | /) power-term`, folded to the left.
pub open spec fn factor_tail(left: Expr, ts: Seq<Lexeme>) -> Parsed
    decreases ts.len(), 2nat,
{
    match head(ts) {
        Lexeme::Operator(op) if op == OperatorKind::MULT || op == OperatorKind::DIV => {
            match advance(ts) {
                Ok(after) => {
                    let operand = power_term(after);
                    match operand.result {
                        Ok(right) if operand.rest.len() < ts.len() => factor_tail(
                            Expr::Operation(op, Box::new(left), Box::new(right)),
                            operand.rest,
                        ),
                        _ => operand,
                    }
                },
                Err(e) => failed(e, ts),
            }
        },
        _ => Parsed { result: Ok(left), rest: ts },
    }
}

/// factor-term := power-term { (`*` | `/`) power-term }
pub open spec fn factor_term(ts: Seq<Lexeme>) -> Parsed
    decreases ts.len(), 3nat,
{
    let first = power_term(ts);
    match first.result {
        Ok(left) if first.rest.len() <= ts.len() => factor_tail(left, first.rest),
        _ => first,
    }
}

/// The continuation of an expression whose operands so far make `left`: zero
/// or more `(+ | -) factor-term`, folded to the left, up to the end of the
/// input or, inside a parenthesis, up to and with the `)` that closes it.
pub open spec fn expression_tail(left: Expr, ts: Seq<Lexeme>, inside_brace: bool) -> Parsed
    decreases ts.len(), 4nat,
{
    match head(ts) {
        Lexeme::Operator(op) => if op == OperatorKind::ADD || op == OperatorKind::SUB {
            match advance(ts) {
                Ok(after) => {
                    let operand = factor_term(after);
                    match operand.result {
                        Ok(right) if operand.rest.len() < ts.len() => expression_tail(
                            Expr::Operation(op, Box::new(left), Box::new(right)),
                            operand.rest,
                            inside_brace,
                        ),
                        _ => operand,
                    }
                },
                Err(e) => failed(e, ts),
            }
        } else {
            failed(ParseError::Syntax(SyntaxError::UnexpectedOperator(op)), ts)
        },
        Lexeme::EOF => if inside_brace {
            failed(ParseError::Syntax(SyntaxError::UnclosedParenthesis), ts)
        } else {
            Parsed { result: Ok(left), rest: ts }
        },
        Lexeme::BraceClose => if inside_brace {
            match advance(ts) {
                Ok(rest) => Parsed { result: Ok(left), rest },
                Err(e) => failed(e, ts),
            }
        } else {
            failed(ParseError::Syntax(SyntaxError::UnmatchedClose), ts)
        },
        other => failed(misplaced(other, SyntaxError::UnexpectedToken(other.kind())), ts),
    }
}

/// expression := factor-term { (`+` | `-`) factor-term }
///
/// At the top level (`inside_brace` false) the expression runs to the end of
/// the input; inside a parenthesis it runs to the closing `)`, which it
/// consumes.
pub open spec fn expression(ts: Seq<Lexeme>, inside_brace: bool) -> Parsed
    decreases ts.len(), 5nat,
{
    let first = factor_term(ts);
    match first.result {
        Ok(left) if first.rest.len() <= ts.len() => expression_tail(left, first.rest, inside_brace),
        _ => first,
    }
}

/// The tree of a line of text, or the first error that parsing it meets.
pub open spec fn parse_text(s: Seq<char>) -> Result<Expr, ParseError> {
    expression(lexemes(s), false).result
}

/// No rule hands back more tokens than it was given, and a rule that makes a
/// tree has consumed at least one token for each level of the tree.
pub proof fn lemma_primary_consumes(ts: Seq<Lexeme>)
    ensures
        primary(ts).rest.len() <= ts.len(),
        primary(ts).result matches Ok(tree) ==> tree.depth() + primary(ts).rest.len() < ts.len(),
    decreases ts.len(), 0nat,
{
    if head(ts) is BraceOpen && advance(ts) is Ok {
        lemma_expression_consumes(ts.drop_first(), true);
    }
}

/// As `lemma_primary_consumes`, for a power-term.
pub proof fn lemma_power_term_consumes(ts: Seq<Lexeme>)
    ensures
        power_term(ts).rest.len() <= ts.len(),
        power_term(ts).result matches Ok(tree) ==> tree.depth() + power_term(ts).rest.len()
            < ts.len(),
    decreases ts.len(), 1nat,
{
    lemma_primary_consumes(ts);
    let base = primary(ts);
    if base.result is Ok && head(base.rest) == Lexeme::Operator(OperatorKind::POW) && advance(
        base.rest,
    ) is Ok {
        lemma_primary_consumes(base.rest.drop_first());
    }
}

/// The continuation of a factor-term hands back no more tokens than it was
/// given, and its tree is deeper than `left` by no more than the tokens that
/// it consumed.
pub proof fn lemma_factor_tail_consumes(left: Expr, ts: Seq<Lexeme>)
    ensures
        factor_tail(left, ts).rest.len() <= ts.len(),
        factor_tail(left, ts).result matches Ok(tree) ==> tree.depth() + factor_tail(
            left,
            ts,
        ).rest.len() <= left.depth() + ts.len(),
    decreases ts.len(), 2nat,
{
    if let Lexeme::Operator(op) = head(ts) {
        if (op == OperatorKind::MULT || op == OperatorKind::DIV) && advance(ts) is Ok {
            let operand = power_term(ts.drop_first());
            lemma_power_term_consumes(ts.drop_first());
            if let Ok(right) = operand.result {
                lemma_factor_tail_consumes(
                    Expr::Operation(op, Box::new(left), Box::new(right)),
                    operand.rest,
                );
            }
        }
    }
}

/// As `lemma_primary_consumes`, for a factor-term.
pub proof fn lemma_factor_term_consumes(ts: Seq<Lexeme>)
    ensures
        factor_term(ts).rest.len() <= ts.len(),
        factor_term(ts).result matches Ok(tree) ==> tree.depth() + factor_term(ts).rest.len()
            < ts.len(),
    decreases ts.len(), 3nat,
{
    lemma_power_term_consumes(ts);
    let first = power_term(ts);
    if let Ok(left) = first.result {
        lemma_factor_tail_consumes(left, first.rest);
    }
}

/// As `lemma_factor_tail_consumes`, for the continuation of an expression.
pub proof fn lemma_expression_tail_consumes(left: Expr, ts: Seq<Lexeme>, inside_brace: bool)
    ensures
        expression_tail(left, ts, inside_brace).rest.len() <= ts.len(),
        expression_tail(left, ts, inside_brace).result matches Ok(tree) ==> tree.depth()
            + expression_tail(left, ts, inside_brace).rest.len() <= left.depth() + ts.len(),
    decreases ts.len(), 4nat,
{
    if let Lexeme::Operator(op) = head(ts) {
        if (op == OperatorKind::ADD || op == OperatorKind::SUB) && advance(ts) is Ok {
            let operand = factor_term(ts.drop_first());
            lemma_factor_term_consumes(ts.drop_first());
            if let Ok(right) = operand.result {
                lemma_expression_tail_consumes(
                    Expr::Operation(op, Box::new(left), Box::new(right)),
                    operand.rest,
                    inside_brace,
                );
            }
        }
    }
}

/// As `lemma_primary_consumes`, for an expression.
pub proof fn lemma_expression_consumes(ts: Seq<Lexeme>, inside_brace: bool)
    ensures
        expression(ts, inside_brace).rest.len() <= ts.len(),
        expression(ts, inside_brace).result matches Ok(tree) ==> tree.depth() + expression(
            ts,
            inside_brace,
        ).rest.len() < ts.len(),
    decreases ts.len(), 5nat,
{
    lemma_factor_term_consumes(ts);
    let first = factor_term(ts);
    if let Ok(left) = first.result {
        lemma_expression_tail_consumes(left, first.rest, inside_brace);
    }
}

/// The tree of a text is less deep than the text is long.
pub proof fn lemma_parse_text_depth(s: Seq<char>)
    ensures
        parse_text(s) matches Ok(tree) ==> tree.depth() <= s.len(),
{
    lemma_lexemes_len(s);
    lemma_expression_consumes(lexemes(s), false);
}

/// Whether what a parsing function returned and left behind is what the
/// grammar rule says.
pub open spec fn agrees(
    r: Result<Box<Node>, ParseError>,
    left_at: Seq<Lexeme>,
    rule: Parsed,
) -> bool {
    &&& left_at == rule.rest
    &&& match rule.result {
        Ok(tree) => r matches Ok(node) && node@ == tree,
        Err(error) => r == Err::<Box<Node>, ParseError>(error),
    }
}

/// A recursive-descent parser over the tokens of a tokenizer that it borrows.
pub struct Parser<'a> {
    pub tokenizer: &'a mut Tokenizer,
}

impl<'a> View for Parser<'a> {
    type V = Seq<Lexeme>;

    /// The tokens from the current one on.
    open spec fn view(&self) -> Seq<Lexeme> {
        self.tokenizer@.stream()
    }
}

impl<'a> Parser<'a> {
    /// A parser that reads from `tk`, whose current token is the first that
    /// it will look at: call `next_token` once before parsing a fresh line.
    /// When the borrow ends the tokenizer is as the parser left it.
    pub fn new(tk: &'a mut Tokenizer) -> (p: Parser<'a>)
        ensures
            *p.tokenizer == *old(tk),
            *final(p.tokenizer) == *final(tk),
    {
        Parser { tokenizer: tk }
    }

    fn advance(&mut self) -> (r: Result<(), ParseError>)
        requires
            head(old(self)@) !is EOF,
        ensures
            match advance(old(self)@) {
                Ok(rest) => r is Ok && final(self)@ == rest,
                Err(error) => r == Err::<(), ParseError>(error) && final(self)@ == old(self)@,
            },
            *final(final(self).tokenizer) == *final(old(self).tokenizer),
    {
        let ghost before = self.tokenizer@;
        proof {
            lemma_scan_consumes(before.rest);
            lemma_skip_white_space(before.rest);
        }
        match self.tokenizer.next_token() {
            Ok(()) => {
                proof {
                    assert(self@ =~= old(self)@.drop_first());
                }
                Ok(())
            },
            Err(e) => {
                proof {
                    assert(scan(scan(before.rest).1) == scan(before.rest));
                    assert(self@ =~= old(self)@);
                }
                Err(ParseError::Lex(e))
            },
        }
    }

    fn parse_term_base_item(&mut self) -> (r: Result<Box<Node>, ParseError>)
        ensures
            agrees(r, final(self)@, primary(old(self)@)),
            *final(final(self).tokenizer) == *final(old(self).tokenizer),
        decreases old(self)@.len(), 0nat,
    {
        match self.tokenizer.token() {
            Token::BraceOpen => {
                match self.advance() {
                    Ok(()) => self.parse_expression(true),
                    Err(e) => Err(e),
                }
            },
            Token::Number(num) => {
                let value = num.clone();
                match self.advance() {
                    Ok(()) => Ok(Box::new(Node::Number(value))),
                    Err(e) => Err(e),
                }
            },
            other => Err(ParseError::Syntax(SyntaxError::ExpectedOperand(other.kind()))),
        }
    }

    fn parse_term_item(&mut self) -> (r: Result<Box<Node>, ParseError>)
        ensures
            agrees(r, final(self)@, power_term(old(self)@)),
            *final(final(self).tokenizer) == *final(old(self).tokenizer),
        decreases old(self)@.len(), 1nat,
    {
        proof {
            lemma_primary_consumes(self@);
        }
        let left = match self.parse_term_base_item() {
            Ok(node) => node,
            Err(e) => {
                return Err(e);
            },
        };
        if let Token::Operator(op) = self.tokenizer.token() {
            let op = *op;
            if op == OperatorKind::POW {
                match self.advance() {
                    Ok(()) => {},
                    Err(e) => {
                        return Err(e);
                    },
                }
                let right = match self.parse_term_base_item() {
                    Ok(node) => node,
                    Err(e) => {
                        return Err(e);
                    },
                };
                return Ok(Box::new(Node::Operation(op, left, right)));
            }
        }
        Ok(left)
    }

    fn parse_term(&mut self) -> (r: Result<Box<Node>, ParseError>)
        ensures
            agrees(r, final(self)@, factor_term(old(self)@)),
            *final(final(self).tokenizer) == *final(old(self).tokenizer),
        decreases old(self)@.len(), 3nat,
    {
        proof {
            lemma_power_term_consumes(self@);
        }
        let mut left = match self.parse_term_item() {
            Ok(node) => node,
            Err(e) => {
                return Err(e);
            },
        };
        loop
            invariant
                self@.len() <= old(self)@.len(),
                factor_term(old(self)@) == factor_tail(left@, self@),
                *final(self.tokenizer) == *final(old(self).tokenizer),
            decreases self@.len(),
        {
            let op = match self.tokenizer.token() {
                Token::Operator(op) => *op,
                _ => {
                    return Ok(left);
                },
            };
            if !(op == OperatorKind::MULT || op == OperatorKind::DIV) {
                return Ok(left);
            }
            match self.advance() {
                Ok(()) => {},
                Err(e) => {
                    return Err(e);
                },
            }
            proof {
                lemma_power_term_consumes(self@);
            }
            let right = match self.parse_term_item() {
                Ok(node) => node,
                Err(e) => {
                    return Err(e);
                },
            };
            left = Box::new(Node::Operation(op, left, right));
        }
    }

    /// Parses an expression from the current token on. At the top level
    /// (`inside_brace` false) it must run to the end of the input; inside a
    /// parenthesis it must end with the closing `)`, which is consumed. The
    /// result and the tokens left are those of the rule `expression`; after
    /// an error the parser stands where the error was met. The parser goes
    /// on borrowing the same tokenizer (the last clause), so the owner of
    /// the tokenizer finds it as the parser left it.
    pub fn parse_expression(&mut self, inside_brace: bool) -> (r: Result<Box<Node>, ParseError>)
        ensures
            agrees(r, final(self)@, expression(old(self)@, inside_brace)),
            *final(final(self).tokenizer) == *final(old(self).tokenizer),
        decreases old(self)@.len(), 5nat,
    {
        proof {
            lemma_factor_term_consumes(self@);
        }
        let mut left = match self.parse_term() {
            Ok(node) => node,
            Err(e) => {
                return Err(e);
            },
        };
        loop
            invariant
                self@.len() <= old(self)@.len(),
                expression(old(self)@, inside_brace) == expression_tail(left@, self@, inside_brace),
                *final(self.tokenizer) == *final(old(self).tokenizer),
            decreases self@.len(),
        {
            match self.tokenizer.token() {
                Token::Operator(op) => {
                    let op = *op;
                    if !(op == OperatorKind::ADD || op == OperatorKind::SUB) {
                        return Err(ParseError::Syntax(SyntaxError::UnexpectedOperator(op)));
                    }
                    match self.advance() {
                        Ok(()) => {},
                        Err(e) => {
                            return Err(e);
                        },
                    }
                    proof {
                        lemma_factor_term_consumes(self@);
                    }
                    let right = match self.parse_term() {
                        Ok(node) => node,
                        Err(e) => {
                            return Err(e);
                        },
                    };
                    left = Box::new(Node::Operation(op, left, right));
                },
                Token::EOF => {
                    if inside_brace {
                        return Err(ParseError::Syntax(SyntaxError::UnclosedParenthesis));
                    }
                    return Ok(left);
                },
                Token::BraceClose => {
                    if !inside_brace {
                        return Err(ParseError::Syntax(SyntaxError::UnmatchedClose));
                    }
                    return match self.advance() {
                        Ok(()) => Ok(left),
                        Err(e) => Err(e),
                    };
                },
                other => {
                    return Err(ParseError::Syntax(SyntaxError::UnexpectedToken(other.kind())));
                },
            }
        }
    }
}

/// Parses a line of text: the tree of the expression that the whole line
/// holds, or the first error met.
pub fn parse_line(line: &String) -> (r: Result<Box<Node>, ParseError>)
    ensures
        match parse_text(line@) {
            Ok(tree) => r matches Ok(node) && node@ == tree,
            Err(error) => r == Err::<Box<Node>, ParseError>(error),
        },
{
    let mut tokenizer = Tokenizer::new(line);
    match tokenizer.next_token() {
        Ok(()) => {},
        Err(e) => {
            return Err(ParseError::Lex(e));
        },
    }
    proof {
        lemma_scan_consumes(line@);
        assert(tokenizer@.stream() =~= lexemes(line@));
    }
    let mut parser = Parser::new(&mut tokenizer);
    parser.parse_expression(false)
}

} // verus!
