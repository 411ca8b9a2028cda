use crate::base::OperatorKind;
use crate::parser::{
    advance, expression, expression_tail, factor_tail, factor_term, head,
    lemma_expression_consumes, lemma_factor_term_consumes, lemma_power_term_consumes,
    lemma_primary_consumes, parse_text, power_term, primary, ParseError, Parsed,
};
use crate::tokenizer::{lemma_lexemes_end, lexemes, Lexeme};
use crate::tree::Expr;
use vstd::prelude::*;

verus! {

/// An expression as it is written: a tree that keeps its parentheses.
pub enum Phrase {
    Number(nat),
    Group(Box<Phrase>),
    Binary(OperatorKind, Box<Phrase>, Box<Phrase>),
}

impl Phrase {
    /// primary := Number | `(` expression `)`
    pub open spec fn is_primary(self) -> bool
        decreases self, 0nat,
    {
        match self {
            Phrase::Number(_) => true,
            Phrase::Group(inner) => inner.is_expression(),
            Phrase::Binary(_, _, _) => false,
        }
    }

    /// power-term := primary [ `^` primary ]
    pub open spec fn is_power_term(self) -> bool
        decreases self, 1nat,
    {
        ||| self.is_primary()
        ||| self matches Phrase::Binary(op, left, right) && op == OperatorKind::POW
            && left.is_primary() && right.is_primary()
    }

    /// factor-term := power-term | factor-term (`*` | `/`) power-term
    pub open spec fn is_factor_term(self) -> bool
        decreases self, 2nat,
    {
        ||| self.is_power_term()
        ||| self matches Phrase::Binary(op, left, right) && (op == OperatorKind::MULT || op
            == OperatorKind::DIV) && left.is_factor_term() && right.is_power_term()
    }

    /// expression := factor-term | expression (`+` | `-`) factor-term
    pub open spec fn is_expression(self) -> bool
        decreases self, 3nat,
    {
        ||| self.is_factor_term()
        ||| self matches Phrase::Binary(op, left, right) && (op == OperatorKind::ADD || op
            == OperatorKind::SUB) && left.is_expression() && right.is_factor_term()
    }

    /// The tokens that the phrase is written with.
    pub open spec fn spelling(self) -> Seq<Lexeme>
        decreases self,
    {
        match self {
            Phrase::Number(n) => seq![Lexeme::Number(n)],
            Phrase::Group(inner) => seq![Lexeme::BraceOpen] + inner.spelling()
                + seq![Lexeme::BraceClose],
            Phrase::Binary(op, left, right) => left.spelling() + seq![Lexeme::Operator(op)]
                + right.spelling(),
        }
    }

    /// The tree of the phrase: the phrase without its parentheses.
    pub open spec fn tree(self) -> Expr
        decreases self,
    {
        match self {
            Phrase::Number(n) => Expr::Number(n),
            Phrase::Group(inner) => inner.tree(),
            Phrase::Binary(op, left, right) => Expr::Operation(
                op,
                Box::new(left.tree()),
                Box::new(right.tree()),
            ),
        }
    }
}

/// Whether a token may follow a power-term: any but `^` and an unknown
/// character.
pub open spec fn ends_power_term(l: Lexeme) -> bool {
    l !is Unknown && l != Lexeme::Operator(OperatorKind::POW)
}

/// Whether a token may follow a factor-term: one that may follow a
/// power-term and is neither `*` nor `/`.
pub open spec fn ends_factor_term(l: Lexeme) -> bool {
    &&& ends_power_term(l)
    &&& l != Lexeme::Operator(OperatorKind::MULT)
    &&& l != Lexeme::Operator(OperatorKind::DIV)
}

/// A spelling begins with a number or with `(`.
pub proof fn lemma_spelling_begins(p: Phrase)
    ensures
        p.spelling().len() > 0,
        p.spelling()[0] is Number || p.spelling()[0] is BraceOpen,
    decreases p,
{
    match p {
        Phrase::Number(_) => {},
        Phrase::Group(_) => {},
        Phrase::Binary(_, left, _) => {
            lemma_spelling_begins(*left);
        },
    }
}

/// The rule `primary` reads a primary phrase in full, whatever follows it
/// but an unknown character.
pub proof fn lemma_primary_complete(p: Phrase, follow: Seq<Lexeme>)
    requires
        p.is_primary(),
        head(follow) !is Unknown,
    ensures
        primary(p.spelling() + follow) == (Parsed { result: Ok(p.tree()), rest: follow }),
    decreases p, 0nat,
{
    let ts = p.spelling() + follow;
    match p {
        Phrase::Number(n) => {
            assert(ts.drop_first() =~= follow);
        },
        Phrase::Group(inner) => {
            lemma_spelling_begins(*inner);
            let closing = seq![Lexeme::BraceClose] + follow;
            assert(ts.drop_first() =~= inner.spelling() + closing);
            assert(ts[1] == inner.spelling()[0]);
            lemma_expression_complete(*inner, closing, true);
            assert(closing.drop_first() =~= follow);
        },
        Phrase::Binary(_, _, _) => {},
    }
}

/// The rule `power_term` reads a power-term phrase in full, whatever
/// follows it but `^` and an unknown character.
pub proof fn lemma_power_term_complete(p: Phrase, follow: Seq<Lexeme>)
    requires
        p.is_power_term(),
        ends_power_term(head(follow)),
    ensures
        power_term(p.spelling() + follow) == (Parsed { result: Ok(p.tree()), rest: follow }),
    decreases p, 1nat,
{
    let ts = p.spelling() + follow;
    if p.is_primary() {
        lemma_primary_complete(p, follow);
    } else {
        match p {
            Phrase::Binary(op, left, right) => {
                lemma_spelling_begins(*left);
                lemma_spelling_begins(*right);
                let power = seq![Lexeme::Operator(op)] + (right.spelling() + follow);
                assert(ts =~= left.spelling() + power);
                lemma_primary_complete(*left, power);
                assert(power.drop_first() =~= right.spelling() + follow);
                assert(power[1] == right.spelling()[0]);
                lemma_primary_complete(*right, follow);
            },
            _ => {},
        }
    }
}

/// The rule `factor_term` reads a factor-term phrase and goes on with what
/// follows it.
pub proof fn lemma_factor_term_continues(p: Phrase, follow: Seq<Lexeme>)
    requires
        p.is_factor_term(),
        ends_power_term(head(follow)),
    ensures
        factor_term(p.spelling() + follow) == factor_tail(p.tree(), follow),
    decreases p, 2nat,
{
    let ts = p.spelling() + follow;
    if p.is_power_term() {
        lemma_power_term_complete(p, follow);
    } else {
        match p {
            Phrase::Binary(op, left, right) => {
                lemma_spelling_begins(*left);
                lemma_spelling_begins(*right);
                let product = seq![Lexeme::Operator(op)] + (right.spelling() + follow);
                assert(ts =~= left.spelling() + product);
                lemma_factor_term_continues(*left, product);
                assert(product.drop_first() =~= right.spelling() + follow);
                assert(product[1] == right.spelling()[0]);
                lemma_power_term_complete(*right, follow);
            },
            _ => {},
        }
    }
}

/// The rule `expression` reads an expression phrase and goes on with what
/// follows it.
pub proof fn lemma_expression_continues(p: Phrase, follow: Seq<Lexeme>, inside_brace: bool)
    requires
        p.is_expression(),
        ends_factor_term(head(follow)),
    ensures
        expression(p.spelling() + follow, inside_brace) == expression_tail(
            p.tree(),
            follow,
            inside_brace,
        ),
    decreases p, 3nat,
{
    let ts = p.spelling() + follow;
    lemma_spelling_begins(p);
    if p.is_factor_term() {
        lemma_factor_term_continues(p, follow);
    } else {
        match p {
            Phrase::Binary(op, left, right) => {
                lemma_spelling_begins(*left);
                lemma_spelling_begins(*right);
                let sum = seq![Lexeme::Operator(op)] + (right.spelling() + follow);
                assert(ts =~= left.spelling() + sum);
                lemma_expression_continues(*left, sum, inside_brace);
                assert(sum.drop_first() =~= right.spelling() + follow);
                assert(sum[1] == right.spelling()[0]);
                lemma_factor_term_continues(*right, follow);
            },
            _ => {},
        }
    }
}

/// The rule `expression` reads an expression phrase in full: at the top
/// level where the input ends after it, inside a parenthesis where `)`
/// follows it, which the rule consumes.
pub proof fn lemma_expression_complete(p: Phrase, follow: Seq<Lexeme>, inside_brace: bool)
    requires
        p.is_expression(),
        if inside_brace {
            head(follow) is BraceClose && !(follow.len() >= 2 && follow[1] is Unknown)
        } else {
            head(follow) is EOF
        },
    ensures
        expression(p.spelling() + follow, inside_brace) == (Parsed {
            result: Ok(p.tree()),
            rest: if inside_brace {
                follow.drop_first()
            } else {
                follow
            },
        }),
    decreases p, 4nat,
{
    lemma_expression_continues(p, follow, inside_brace);
}

/// A tree that the rule `primary` makes is the tree of a primary phrase,
/// and the tokens that the rule consumed are the spelling of that phrase.
pub proof fn lemma_primary_sound(ts: Seq<Lexeme>) -> (p: Phrase)
    requires
        primary(ts).result is Ok,
    ensures
        p.is_primary(),
        primary(ts).result == Ok::<Expr, ParseError>(p.tree()),
        ts == p.spelling() + primary(ts).rest,
    decreases ts.len(), 0nat,
{
    let rest = primary(ts).rest;
    let after = ts.drop_first();
    assert(ts =~= seq![ts[0]] + after);
    match head(ts) {
        Lexeme::BraceOpen => {
            let inner = lemma_expression_sound(after, true);
            let p = Phrase::Group(Box::new(inner));
            let open = seq![Lexeme::BraceOpen];
            let close = seq![Lexeme::BraceClose];
            assert(after == inner.spelling() + close + rest);
            assert(open + (inner.spelling() + close + rest) =~= open + inner.spelling() + close
                + rest);
            p
        },
        Lexeme::Number(n) => Phrase::Number(n),
        // No other token begins a primary, so the rule made no tree.
        _ => Phrase::Number(0),
    }
}

/// As `lemma_primary_sound`, for a power-term.
pub proof fn lemma_power_term_sound(ts: Seq<Lexeme>) -> (p: Phrase)
    requires
        power_term(ts).result is Ok,
    ensures
        p.is_power_term(),
        power_term(ts).result == Ok::<Expr, ParseError>(p.tree()),
        ts == p.spelling() + power_term(ts).rest,
    decreases ts.len(), 1nat,
{
    lemma_primary_consumes(ts);
    let base = primary(ts);
    let left = lemma_primary_sound(ts);
    if head(base.rest) == Lexeme::Operator(OperatorKind::POW) {
        let after = base.rest.drop_first();
        let right = lemma_primary_sound(after);
        let power = seq![Lexeme::Operator(OperatorKind::POW)];
        let rest = primary(after).rest;
        assert(base.rest =~= power + after);
        assert(left.spelling() + (power + (right.spelling() + rest)) =~= left.spelling() + power
            + right.spelling() + rest);
        Phrase::Binary(OperatorKind::POW, Box::new(left), Box::new(right))
    } else {
        left
    }
}

/// A tree that the continuation of a factor-term makes from the tree of a
/// factor-term phrase `left` is the tree of a factor-term phrase, which is
/// spelled as `left` and then the tokens that the continuation consumed.
pub proof fn lemma_factor_tail_sound(left: Phrase, ts: Seq<Lexeme>) -> (p: Phrase)
    requires
        left.is_factor_term(),
        factor_tail(left.tree(), ts).result is Ok,
    ensures
        p.is_factor_term(),
        factor_tail(left.tree(), ts).result == Ok::<Expr, ParseError>(p.tree()),
        left.spelling() + ts == p.spelling() + factor_tail(left.tree(), ts).rest,
    decreases ts.len(), 2nat,
{
    match head(ts) {
        Lexeme::Operator(op) if op == OperatorKind::MULT || op == OperatorKind::DIV => {
            let after = ts.drop_first();
            lemma_power_term_consumes(after);
            let right = lemma_power_term_sound(after);
            let rest = power_term(after).rest;
            let joined = Phrase::Binary(op, Box::new(left), Box::new(right));
            let sign = seq![Lexeme::Operator(op)];
            assert(ts =~= sign + after);
            assert(left.spelling() + (sign + (right.spelling() + rest)) =~= left.spelling() + sign
                + right.spelling() + rest);
            assert(left.spelling() + ts == joined.spelling() + rest);
            lemma_factor_tail_sound(joined, rest)
        },
        _ => left,
    }
}

/// As `lemma_primary_sound`, for a factor-term.
pub proof fn lemma_factor_term_sound(ts: Seq<Lexeme>) -> (p: Phrase)
    requires
        factor_term(ts).result is Ok,
    ensures
        p.is_factor_term(),
        factor_term(ts).result == Ok::<Expr, ParseError>(p.tree()),
        ts == p.spelling() + factor_term(ts).rest,
    decreases ts.len(), 3nat,
{
    lemma_power_term_consumes(ts);
    let first = lemma_power_term_sound(ts);
    lemma_factor_tail_sound(first, power_term(ts).rest)
}

/// The tokens that an expression ends with: none at the top level, the
/// closing `)` inside a parenthesis.
pub open spec fn closing(inside_brace: bool) -> Seq<Lexeme> {
    if inside_brace {
        seq![Lexeme::BraceClose]
    } else {
        Seq::empty()
    }
}

/// As `lemma_factor_tail_sound`, for the continuation of an expression. At
/// the top level the tokens that are left begin with `EOF`; inside a
/// parenthesis the closing `)` was consumed after the phrase.
pub proof fn lemma_expression_tail_sound(left: Phrase, ts: Seq<Lexeme>, inside_brace: bool) -> (p:
    Phrase)
    requires
        left.is_expression(),
        expression_tail(left.tree(), ts, inside_brace).result is Ok,
    ensures
        p.is_expression(),
        expression_tail(left.tree(), ts, inside_brace).result == Ok::<Expr, ParseError>(p.tree()),
        left.spelling() + ts == p.spelling() + closing(inside_brace) + expression_tail(
            left.tree(),
            ts,
            inside_brace,
        ).rest,
        !inside_brace ==> head(expression_tail(left.tree(), ts, inside_brace).rest) is EOF,
    decreases ts.len(), 4nat,
{
    match head(ts) {
        Lexeme::Operator(op) => {
            let after = ts.drop_first();
            lemma_factor_term_consumes(after);
            let right = lemma_factor_term_sound(after);
            let rest = factor_term(after).rest;
            let joined = Phrase::Binary(op, Box::new(left), Box::new(right));
            let sign = seq![Lexeme::Operator(op)];
            assert(ts =~= sign + after);
            assert(left.spelling() + (sign + (right.spelling() + rest)) =~= left.spelling() + sign
                + right.spelling() + rest);
            assert(left.spelling() + ts == joined.spelling() + rest);
            lemma_expression_tail_sound(joined, rest, inside_brace)
        },
        Lexeme::BraceClose => {
            let close = seq![Lexeme::BraceClose];
            assert(ts =~= close + ts.drop_first());
            assert(left.spelling() + (close + ts.drop_first()) =~= left.spelling() + close
                + ts.drop_first());
            left
        },
        _ => {
            assert(left.spelling() + ts =~= left.spelling() + closing(inside_brace) + ts);
            left
        },
    }
}

/// A tree that the rule `expression` makes is the tree of an expression
/// phrase, and the tokens that the rule consumed are the spelling of that
/// phrase, followed inside a parenthesis by the closing `)`. At the top
/// level the tokens that are left begin with `EOF`.
pub proof fn lemma_expression_sound(ts: Seq<Lexeme>, inside_brace: bool) -> (p: Phrase)
    requires
        expression(ts, inside_brace).result is Ok,
    ensures
        p.is_expression(),
        expression(ts, inside_brace).result == Ok::<Expr, ParseError>(p.tree()),
        ts == p.spelling() + closing(inside_brace) + expression(ts, inside_brace).rest,
        !inside_brace ==> head(expression(ts, inside_brace).rest) is EOF,
    decreases ts.len(), 5nat,
{
    lemma_factor_term_consumes(ts);
    let first = lemma_factor_term_sound(ts);
    let rest = factor_term(ts).rest;
    let p = lemma_expression_tail_sound(first, rest, inside_brace);
    p
}

/// No token of a spelling is `EOF` or `Unknown`.
pub proof fn lemma_spelling_tokens(p: Phrase)
    ensures
        forall|i: int|
            0 <= i < p.spelling().len() ==> (#[trigger] p.spelling()[i]) !is EOF
                && p.spelling()[i] !is Unknown,
    decreases p,
{
    match p {
        Phrase::Number(_) => {},
        Phrase::Group(inner) => {
            lemma_spelling_tokens(*inner);
        },
        Phrase::Binary(_, left, right) => {
            lemma_spelling_tokens(*left);
            lemma_spelling_tokens(*right);
        },
    }
}

/// The grammar of a whole line: a text has the tree `tree` exactly when its
/// tokens are the spelling of an expression phrase with that tree, followed
/// by the end of the input.
pub proof fn lemma_parse_text_is_the_grammar(s: Seq<char>, tree: Expr)
    ensures
        parse_text(s) == Ok::<Expr, ParseError>(tree) <==> exists|p: Phrase|
            #[trigger] p.is_expression() && p.tree() == tree && lexemes(s) == p.spelling()
                + seq![Lexeme::EOF],
{
    let end = seq![Lexeme::EOF];
    if parse_text(s) == Ok::<Expr, ParseError>(tree) {
        let ts = lexemes(s);
        let p = lemma_expression_sound(ts, false);
        let rest = expression(ts, false).rest;
        lemma_spelling_tokens(p);
        lemma_lexemes_end(s);
        assert(ts =~= p.spelling() + rest);
        if rest.len() == 0 {
            assert(ts.last() == p.spelling()[p.spelling().len() - 1]);
        } else {
            assert(ts[p.spelling().len() as int] == rest[0]);
            assert(rest =~= end);
        }
        assert(p.is_expression() && p.tree() == tree && lexemes(s) == p.spelling() + end);
    }
    if exists|p: Phrase|
        #[trigger] p.is_expression() && p.tree() == tree && lexemes(s) == p.spelling() + end {
        let p = choose|p: Phrase|
            #[trigger] p.is_expression() && p.tree() == tree && lexemes(s) == p.spelling() + end;
        lemma_expression_complete(p, end, false);
    }
}

/// Two expression phrases with the same spelling have the same tree: the
/// grammar is unambiguous.
pub proof fn lemma_spelling_determines_tree(p: Phrase, q: Phrase)
    requires
        p.is_expression(),
        q.is_expression(),
        p.spelling() == q.spelling(),
    ensures
        p.tree() == q.tree(),
{
    let end = seq![Lexeme::EOF];
    lemma_expression_complete(p, end, false);
    lemma_expression_complete(q, end, false);
}

} // verus!
