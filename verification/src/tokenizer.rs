use crate::base::OperatorKind;
use crate::literal::{decimal_text, lemma_decimal_digits_range, Literal};
use vstd::prelude::*;

verus! {

/// A classified lexical unit.
#[derive(Debug, PartialEq, Eq)]
pub enum Token {
    Number(Literal),
    Operator(OperatorKind),
    BraceOpen,
    BraceClose,
    EOF,
}

/// What a token is to the grammar: its kind, and its value where it has one.
/// `Unknown` stands in a lexeme sequence for a character that starts no token;
/// no `Token` has it as its view.
pub enum Lexeme {
    Number(nat),
    Operator(OperatorKind),
    BraceOpen,
    BraceClose,
    EOF,
    Unknown(char),
}

impl View for Token {
    type V = Lexeme;

    open spec fn view(&self) -> Lexeme {
        match self {
            Token::Number(n) => Lexeme::Number(n@),
            Token::Operator(op) => Lexeme::Operator(*op),
            Token::BraceOpen => Lexeme::BraceOpen,
            Token::BraceClose => Lexeme::BraceClose,
            Token::EOF => Lexeme::EOF,
        }
    }
}

/// The kind of a token, without its value.
#[derive(Clone, Copy, Debug, PartialEq, Eq, Structural)]
pub enum TokenKind {
    Number,
    Operator,
    BraceOpen,
    BraceClose,
    EOF,
}

impl Lexeme {
    /// The kind of a token's view.
    pub open spec fn kind(self) -> TokenKind
        recommends
            self !is Unknown,
    {
        match self {
            Lexeme::Number(_) => TokenKind::Number,
            Lexeme::Operator(_) => TokenKind::Operator,
            Lexeme::BraceOpen => TokenKind::BraceOpen,
            Lexeme::BraceClose => TokenKind::BraceClose,
            _ => TokenKind::EOF,
        }
    }
}

/// The name of a kind of token, as diagnostics show it.
pub open spec fn kind_name(kind: TokenKind) -> Seq<char> {
    match kind {
        TokenKind::Number => "Number"@,
        TokenKind::Operator => "Operator"@,
        TokenKind::BraceOpen => "BraceOpen"@,
        TokenKind::BraceClose => "BraceClose"@,
        TokenKind::EOF => "EOF"@,
    }
}

impl TokenKind {
    /// The name of the kind.
    pub fn to_string(&self) -> (s: String)
        ensures
            s@ == kind_name(*self),
    {
        match self {
            TokenKind::Number => String::from_str("Number"),
            TokenKind::Operator => String::from_str("Operator"),
            TokenKind::BraceOpen => String::from_str("BraceOpen"),
            TokenKind::BraceClose => String::from_str("BraceClose"),
            TokenKind::EOF => String::from_str("EOF"),
        }
    }
}

impl Token {
    /// The token's kind.
    pub fn kind(&self) -> (k: TokenKind)
        ensures
            k == self@.kind(),
    {
        match self {
            Token::Number(_) => TokenKind::Number,
            Token::Operator(_) => TokenKind::Operator,
            Token::BraceOpen => TokenKind::BraceOpen,
            Token::BraceClose => TokenKind::BraceClose,
            Token::EOF => TokenKind::EOF,
        }
    }

    /// The name of the token's kind; a number's value and an operator's
    /// identity are not part of it.
    pub fn to_string(&self) -> (s: String)
        ensures
            s@ == kind_name(self@.kind()),
    {
        self.kind().to_string()
    }
}

/// A character that starts no token.
#[derive(Clone, Copy, Debug, PartialEq, Eq, Structural)]
pub struct LexError {
    pub character: char,
}

/// The characters with Unicode's White_Space property.
pub open spec fn is_white_space(c: char) -> bool {
    let u = c as u32;
    ||| 0x09 <= u <= 0x0D
    ||| u == 0x20
    ||| u == 0x85
    ||| u == 0xA0
    ||| u == 0x1680
    ||| 0x2000 <= u <= 0x200A
    ||| u == 0x2028
    ||| u == 0x2029
    ||| u == 0x202F
    ||| u == 0x205F
    ||| u == 0x3000
}

/// The ten decimal digits `0` to `9`.
pub open spec fn is_digit(c: char) -> bool {
    '0' <= c <= '9'
}

/// The number that a decimal digit stands for.
pub open spec fn digit_value(c: char) -> nat
    recommends
        is_digit(c),
{
    (c as u32 - 0x30) as nat
}

/// The token that a single character makes, if it makes one.
pub open spec fn symbol_lexeme(c: char) -> Option<Lexeme> {
    if c == '(' {
        Some(Lexeme::BraceOpen)
    } else if c == ')' {
        Some(Lexeme::BraceClose)
    } else {
        match OperatorKind::spec_from_symbol(c) {
            Some(op) => Some(Lexeme::Operator(op)),
            None => None,
        }
    }
}

/// The text without the run of white space that it begins with.
pub open spec fn skip_white_space(s: Seq<char>) -> Seq<char>
    decreases s.len(),
{
    if s.len() > 0 && is_white_space(s[0]) {
        skip_white_space(s.drop_first())
    } else {
        s
    }
}

/// The length of the longest run of digits that the text begins with.
pub open spec fn leading_digits(s: Seq<char>) -> nat
    decreases s.len(),
{
    if s.len() > 0 && is_digit(s[0]) {
        1 + leading_digits(s.drop_first())
    } else {
        0
    }
}

/// The base-ten number that a run of digits denotes: each further digit
/// makes it ten times the number so far plus the digit.
pub open spec fn number_value(digits: Seq<char>) -> nat
    decreases digits.len(),
{
    if digits.len() == 0 {
        0
    } else {
        number_value(digits.drop_last()) * 10 + digit_value(digits.last())
    }
}

/// The text of a number is a run of digits that denotes the number.
pub proof fn lemma_number_value_of_decimal_text(n: nat)
    ensures
        forall|i: int| 0 <= i < decimal_text(n).len() ==> is_digit(#[trigger] decimal_text(n)[i]),
        number_value(decimal_text(n)) == n,
    decreases n,
{
    lemma_decimal_digits_range(n);
    let text = decimal_text(n);
    if n < 10 {
        assert(text.drop_last().len() == 0);
        assert(number_value(text.drop_last()) == 0);
    } else {
        lemma_number_value_of_decimal_text(n / 10);
        lemma_decimal_digits_range(n / 10);
        assert(text.drop_last() =~= decimal_text(n / 10));
    }
}

/// One scanning step: the token that the text begins with after its leading
/// white space, and the text that follows the token. At the end of the text
/// the token is `EOF`. A character that starts no token gives `Unknown`, and
/// the text that is left begins with that character.
pub open spec fn scan(s: Seq<char>) -> (Lexeme, Seq<char>) {
    let t = skip_white_space(s);
    if t.len() == 0 {
        (Lexeme::EOF, t)
    } else if is_digit(t[0]) {
        let n = leading_digits(t) as int;
        (Lexeme::Number(number_value(t.take(n))), t.skip(n))
    } else {
        match symbol_lexeme(t[0]) {
            Some(l) => (l, t.drop_first()),
            None => (Lexeme::Unknown(t[0]), t),
        }
    }
}

/// Skipping white space leaves a suffix of the text that does not begin with
/// white space.
pub proof fn lemma_skip_white_space(s: Seq<char>)
    ensures
        skip_white_space(s).len() <= s.len(),
        skip_white_space(s) == s.skip(s.len() - skip_white_space(s).len()),
        skip_white_space(s).len() > 0 ==> !is_white_space(skip_white_space(s)[0]),
        skip_white_space(skip_white_space(s)) == skip_white_space(s),
    decreases s.len(),
{
    if s.len() > 0 && is_white_space(s[0]) {
        lemma_skip_white_space(s.drop_first());
        let t = skip_white_space(s);
        assert(s.drop_first().skip(s.drop_first().len() - t.len()) =~= s.skip(s.len() - t.len()));
    } else {
        assert(s.skip(0) =~= s);
    }
}

/// The leading digits are digits, they are no more than the text has, and
/// what follows them is no digit.
pub proof fn lemma_leading_digits(s: Seq<char>)
    ensures
        leading_digits(s) <= s.len(),
        forall|i: int| 0 <= i < leading_digits(s) ==> is_digit(#[trigger] s[i]),
        leading_digits(s) < s.len() ==> !is_digit(s[leading_digits(s) as int]),
    decreases s.len(),
{
    if s.len() > 0 && is_digit(s[0]) {
        lemma_leading_digits(s.drop_first());
        assert forall|i: int| 0 <= i < leading_digits(s) implies is_digit(#[trigger] s[i]) by {
            if i > 0 {
                assert(s[i] == s.drop_first()[i - 1]);
            }
        }
    }
}

/// A scanning step that yields a token other than `EOF` consumes at least one
/// character; every step leaves a suffix of the text.
pub proof fn lemma_scan_consumes(s: Seq<char>)
    ensures
        scan(s).1.len() <= s.len(),
        scan(s).0 !is EOF && scan(s).0 !is Unknown ==> scan(s).1.len() < s.len(),
        scan(s).0 is EOF ==> scan(s).1.len() == 0,
{
    lemma_skip_white_space(s);
    let t = skip_white_space(s);
    if t.len() > 0 && is_digit(t[0]) {
        lemma_leading_digits(t);
    }
}

/// All the tokens of a text, in order. The last one is `EOF`, or `Unknown`
/// where a character starts no token: nothing is scanned past either.
pub open spec fn lexemes(s: Seq<char>) -> Seq<Lexeme>
    decreases s.len(),
{
    let (l, rest) = scan(s);
    if l is EOF || l is Unknown {
        seq![l]
    } else {
        proof {
            lemma_scan_consumes(s);
        }
        seq![l] + lexemes(rest)
    }
}

/// A text has at most one token for each of its characters, and one more
/// that ends the sequence.
pub proof fn lemma_lexemes_len(s: Seq<char>)
    ensures
        1 <= lexemes(s).len() <= s.len() + 1,
    decreases s.len(),
{
    lemma_scan_consumes(s);
    let (l, rest) = scan(s);
    if !(l is EOF || l is Unknown) {
        lemma_lexemes_len(rest);
    }
}

/// The tokens of a text end with `EOF` or `Unknown`, and neither stands
/// anywhere before the end.
pub proof fn lemma_lexemes_end(s: Seq<char>)
    ensures
        lexemes(s).last() is EOF || lexemes(s).last() is Unknown,
        forall|i: int|
            0 <= i < lexemes(s).len() - 1 ==> (#[trigger] lexemes(s)[i]) !is EOF && lexemes(
                s,
            )[i] !is Unknown,
    decreases s.len(),
{
    lemma_scan_consumes(s);
    let (l, rest) = scan(s);
    if !(l is EOF || l is Unknown) {
        lemma_lexemes_end(rest);
        let tail = lexemes(rest);
        assert forall|i: int| 0 <= i < lexemes(s).len() - 1 implies (#[trigger] lexemes(s)[i])
            !is EOF && lexemes(s)[i] !is Unknown by {
            if i > 0 {
                assert(lexemes(s)[i] == tail[i - 1]);
            }
        }
        assert(lexemes(s).last() == tail.last());
    }
}

/// The state of a tokenizer: the text not yet scanned and the current token.
pub struct Cursor {
    pub rest: Seq<char>,
    pub token: Lexeme,
}

impl Cursor {
    /// The tokens from the current one on. Nothing follows `EOF`.
    pub open spec fn stream(self) -> Seq<Lexeme> {
        if self.token is EOF {
            seq![Lexeme::EOF]
        } else {
            seq![self.token] + lexemes(self.rest)
        }
    }
}

/// A cursor over the characters of one line, with one token of lookahead.
pub struct Tokenizer {
    line: Vec<char>,
    pos: usize,
    token: Token,
}

impl View for Tokenizer {
    type V = Cursor;

    closed spec fn view(&self) -> Cursor {
        Cursor { rest: self.line@.skip(self.pos as int), token: self.token@ }
    }
}

/// Whether a character has Unicode's White_Space property.
pub fn is_whitespace(c: char) -> (b: bool)
    ensures
        b == is_white_space(c),
{
    let u: u32 = c as u32;
    (0x09 <= u && u <= 0x0D) || u == 0x20 || u == 0x85 || u == 0xA0 || u == 0x1680 || (0x2000 <= u
        && u <= 0x200A) || u == 0x2028 || u == 0x2029 || u == 0x202F || u == 0x205F || u == 0x3000
}

/// The value of a decimal digit, or `None` for any other character.
pub fn to_digit(c: char) -> (d: Option<u8>)
    ensures
        d is Some == is_digit(c),
        d matches Some(v) ==> v == digit_value(c) && v < 10,
{
    if '0' <= c && c <= '9' {
        let u: u32 = c as u32;
        Some((u - 0x30) as u8)
    } else {
        None
    }
}

impl Tokenizer {
    #[verifier::type_invariant]
    spec fn in_bounds(self) -> bool {
        self.pos <= self.line.len()
    }

    /// A tokenizer at the start of `line`. Its current token is `EOF` until
    /// the first call of `next_token`.
    pub fn new(line: &String) -> (tk: Tokenizer)
        ensures
            tk@ == (Cursor { rest: line@, token: Lexeme::EOF }),
    {
        let mut chars: Vec<char> = Vec::new();
        let s = line.as_str();
        for c in it: s.chars()
            invariant
                chars@ == it.seq().take(it.index() as int),
                it.seq() == s@,
        {
            chars.push(c);
        }
        proof {
            assert(chars@ =~= line@);
            assert(chars@.skip(0) =~= chars@);
        }
        Tokenizer { line: chars, pos: 0, token: Token::EOF }
    }

    /// The current token.
    pub fn token(&self) -> (t: &Token)
        ensures
            t@ == self@.token,
    {
        &self.token
    }

    fn skip_white_space(&mut self)
        ensures
            final(self)@ == (Cursor {
                rest: skip_white_space(old(self)@.rest),
                token: old(self)@.token,
            }),
    {
        proof {
            use_type_invariant(&*self);
        }
        while self.pos < self.line.len() && is_whitespace(self.line[self.pos])
            invariant
                self.pos <= self.line.len(),
                self.line == old(self).line,
                self.token == old(self).token,
                skip_white_space(self.line@.skip(self.pos as int)) == skip_white_space(
                    old(self).line@.skip(old(self).pos as int),
                ),
            decreases self.line.len() - self.pos,
        {
            proof {
                assert(self.line@.skip(self.pos as int).drop_first() =~= self.line@.skip(
                    self.pos + 1,
                ));
            }
            self.pos += 1;
        }
    }

    fn read_number(&mut self)
        ensures
            final(self)@ == (Cursor {
                rest: old(self)@.rest.skip(leading_digits(old(self)@.rest) as int),
                token: Lexeme::Number(
                    number_value(old(self)@.rest.take(leading_digits(old(self)@.rest) as int)),
                ),
            }),
    {
        proof {
            use_type_invariant(&*self);
        }
        let ghost text = self.line@.skip(self.pos as int);
        let ghost start = self.pos as int;
        let mut number = Literal::zero();
        proof {
            assert(text.take(0).len() == 0);
        }
        loop
            invariant
                start <= self.pos <= self.line.len(),
                start == old(self).pos,
                self.line == old(self).line,
                text == self.line@.skip(start),
                number@ == number_value(text.take(self.pos - start)),
                leading_digits(text) == (self.pos - start) + leading_digits(
                    self.line@.skip(self.pos as int),
                ),
            ensures
                start <= self.pos <= self.line.len(),
                self.line == old(self).line,
                self.pos - start == leading_digits(text),
                number@ == number_value(text.take(self.pos - start)),
            decreases self.line.len() - self.pos,
        {
            if self.pos >= self.line.len() {
                break;
            }
            match to_digit(self.line[self.pos]) {
                None => {
                    break;
                },
                Some(digit) => {
                    proof {
                        let k = self.pos - start;
                        assert(text.take(k + 1).drop_last() =~= text.take(k));
                        assert(text.take(k + 1).last() == self.line@[self.pos as int]);
                        assert(self.line@.skip(self.pos as int).drop_first() =~= self.line@.skip(
                            self.pos + 1,
                        ));
                    }
                    number = number.push_digit(digit);
                    self.pos += 1;
                },
            }
        }
        proof {
            assert(self.line@.skip(self.pos as int) =~= text.skip(self.pos - start));
        }
        self.token = Token::Number(number);
    }

    /// Scans the next token and makes it the current one. At a character
    /// that starts no token the current token stays, the cursor stands at
    /// that character, and the error names it.
    pub fn next_token(&mut self) -> (r: Result<(), LexError>)
        ensures
            match scan(old(self)@.rest).0 {
                Lexeme::Unknown(c) => r == Err::<(), LexError>(LexError { character: c })
                    && final(self)@ == (Cursor {
                    rest: scan(old(self)@.rest).1,
                    token: old(self)@.token,
                }),
                token => r is Ok && final(self)@ == (Cursor {
                    rest: scan(old(self)@.rest).1,
                    token,
                }),
            },
    {
        self.skip_white_space();
        proof {
            use_type_invariant(&*self);
        }
        if self.pos >= self.line.len() {
            self.token = Token::EOF;
            return Ok(());
        }
        let ch = self.line[self.pos];
        if to_digit(ch).is_some() {
            self.read_number();
            return Ok(());
        }
        let token = if ch == '(' {
            Token::BraceOpen
        } else if ch == ')' {
            Token::BraceClose
        } else {
            match OperatorKind::from_symbol(ch) {
                Some(op) => Token::Operator(op),
                None => {
                    return Err(LexError { character: ch });
                },
            }
        };
        proof {
            assert(self.line@.skip(self.pos as int).drop_first() =~= self.line@.skip(self.pos + 1));
        }
        self.token = token;
        self.pos += 1;
        Ok(())
    }
}

} // verus!
