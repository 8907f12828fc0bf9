//! The parser: one expression at a time from a slice of tokens, with lists
//! collected by [`list::collect_list`], and the model of what it returns.
use crate::lexer::{Token, TokenView};
use crate::number::{
    float_literal, integer_literal, integer_of, integer_value, is_float_literal_of,
    parsed_integer,
};
use crate::parser::list::{collect_list_within, lemma_consumes, list};
use crate::text::chars_of;
use vstd::prelude::*;

pub mod list;

verus! {

/// A floating-point literal, kept as it was written.
///
/// The text is always a valid literal; which binary floating-point value it
/// is nearest to is for the caller to compute.
#[derive(Debug, PartialEq, Eq)]
pub struct Decimal {
    text: String,
}

/// A number: an integer, or a decimal where the word had a `.` in it.
#[derive(Debug, PartialEq, Eq)]
pub enum Number {
    Integer(i64),
    Decimal(Decimal),
}

/// The syntax tree of one expression.
#[derive(Debug, PartialEq, Eq)]
pub enum AST {
    Numeric(Number),
    String(String),
    List(Vec<AST>),
}

/// What a [`Number`] is in contracts.
pub ghost enum NumberView {
    Integer(i64),
    /// The text of the literal.
    Decimal(Seq<char>),
}

/// What an [`AST`] is in contracts: the same tree over sequences.
pub ghost enum AstView {
    Numeric(NumberView),
    String(Seq<char>),
    List(Seq<AstView>),
}

impl View for Decimal {
    type V = Seq<char>;

    closed spec fn view(&self) -> Seq<char> {
        self.text@
    }
}

impl View for Number {
    type V = NumberView;

    open spec fn view(&self) -> NumberView {
        match self {
            Number::Integer(value) => NumberView::Integer(*value),
            Number::Decimal(literal) => NumberView::Decimal(literal@),
        }
    }
}

impl View for AST {
    type V = AstView;

    open spec fn view(&self) -> AstView
        decreases self,
    {
        match self {
            AST::Numeric(number) => AstView::Numeric(number@),
            AST::String(text) => AstView::String(text@),
            AST::List(items) => AstView::List(
                Seq::new(
                    items.len() as nat,
                    |i: int|
                        if 0 <= i < items.len() {
                            items[i]@
                        } else {
                            arbitrary()
                        },
                ),
            ),
        }
    }
}

impl DeepView for AST {
    type V = AstView;

    open spec fn deep_view(&self) -> AstView {
        self@
    }
}

/// Why a sequence of tokens could not be parsed at all.
#[derive(Debug, PartialEq, Eq)]
pub enum ParseError {
    /// No expression starts with this token, or with what follows it.
    UnexpectedToken(Token),
    /// More than [`MAX_NESTING`] lists are open at once.
    NestingTooDeep,
}

/// What a [`ParseError`] is in contracts.
pub ghost enum ParseErrorView {
    UnexpectedToken(TokenView),
    NestingTooDeep,
}

impl View for ParseError {
    type V = ParseErrorView;

    open spec fn view(&self) -> ParseErrorView {
        match self {
            ParseError::UnexpectedToken(token) => ParseErrorView::UnexpectedToken(token@),
            ParseError::NestingTooDeep => ParseErrorView::NestingTooDeep,
        }
    }
}

/// How many lists may be open at once.
pub const MAX_NESTING: usize = 128;

/// An expression, if one could be read, and the tokens after it; or the
/// reason why parsing stops.
pub type Parsed = Result<(Option<AstView>, Seq<TokenView>), ParseErrorView>;

/// What a word stands for: with a `.` in it a decimal, if it is a
/// floating-point literal; without one an integer, if it is an integer
/// literal; else nothing.
pub open spec fn number(word: Seq<char>) -> Option<AstView> {
    if word.contains('.') {
        if float_literal(word) {
            Some(AstView::Numeric(NumberView::Decimal(word)))
        } else {
            None
        }
    } else {
        match parsed_integer(word) {
            Some(value) => Some(AstView::Numeric(NumberView::Integer(value))),
            None => None,
        }
    }
}

/// The expression at the start of `tokens`, when `depth` more lists may be
/// opened.
///
/// A word is a number, or nothing if it is malformed; either way it is
/// consumed. A word between two string literal separators is a string. An
/// opening bracket starts a list. Any other start is an error that names the
/// first token. Nothing is read from no tokens.
pub open spec fn expression(tokens: Seq<TokenView>, depth: nat) -> Parsed
    decreases tokens.len(), 0nat,
{
    if tokens.len() == 0 {
        Ok((None, tokens))
    } else {
        match tokens[0] {
            TokenView::Word(word) => Ok((number(word), tokens.skip(1))),
            TokenView::StringLiteralSeparator => {
                if tokens.len() >= 3 && tokens[1] is Word && tokens[2] is StringLiteralSeparator {
                    Ok((Some(AstView::String(tokens[1]->Word_0)), tokens.skip(3)))
                } else {
                    Err(ParseErrorView::UnexpectedToken(tokens[0]))
                }
            },
            TokenView::OpenObject => {
                if depth == 0 {
                    Err(ParseErrorView::NestingTooDeep)
                } else {
                    list(tokens.skip(1), (depth - 1) as nat)
                }
            },
            _ => Err(ParseErrorView::UnexpectedToken(tokens[0])),
        }
    }
}

/// The expressions of `tokens`, one after the other with nothing between
/// them, until no token is left; or the first error.
pub open spec fn parse_all(tokens: Seq<TokenView>) -> Result<Seq<Option<AstView>>, ParseErrorView>
    decreases tokens.len(),
{
    if tokens.len() == 0 {
        Ok(Seq::empty())
    } else {
        match expression(tokens, MAX_NESTING as nat) {
            Err(error) => Err(error),
            Ok((ast, rest)) => {
                proof {
                    lemma_consumes(tokens, MAX_NESTING as nat);
                }
                match parse_all(rest) {
                    Err(error) => Err(error),
                    Ok(others) => Ok(seq![ast] + others),
                }
            },
        }
    }
}

/// A word without a `.`, parsed alone, is the integer that it spells if it
/// is an integer literal, and nothing otherwise.
pub proof fn lemma_word_without_dot(word: Seq<char>)
    requires
        !word.contains('.'),
    ensures
        integer_literal(word) ==> parse_all(seq![TokenView::Word(word)]) == Ok::<
            _,
            ParseErrorView,
        >(seq![Some(AstView::Numeric(NumberView::Integer(integer_value(word) as i64)))]),
        !integer_literal(word) ==> parse_all(seq![TokenView::Word(word)]) == Ok::<
            _,
            ParseErrorView,
        >(seq![None::<AstView>]),
{
    lemma_single_word(word);
}

/// A word with a `.`, parsed alone, is the decimal that it spells if it is a
/// floating-point literal, and nothing otherwise.
pub proof fn lemma_word_with_dot(word: Seq<char>)
    requires
        word.contains('.'),
    ensures
        float_literal(word) ==> parse_all(seq![TokenView::Word(word)]) == Ok::<_, ParseErrorView>(
            seq![Some(AstView::Numeric(NumberView::Decimal(word)))],
        ),
        !float_literal(word) ==> parse_all(seq![TokenView::Word(word)]) == Ok::<
            _,
            ParseErrorView,
        >(seq![None::<AstView>]),
{
    lemma_single_word(word);
}

/// A word parsed alone gives one entry: the number that it stands for.
proof fn lemma_single_word(word: Seq<char>)
    ensures
        parse_all(seq![TokenView::Word(word)]) == Ok::<_, ParseErrorView>(seq![number(word)]),
{
    let tokens = seq![TokenView::Word(word)];
    assert(tokens.skip(1) == Seq::<TokenView>::empty());
    assert(parse_all(tokens.skip(1)) == Ok::<_, ParseErrorView>(Seq::<Option<AstView>>::empty()));
    assert(seq![number(word)] + Seq::<Option<AstView>>::empty() == seq![number(word)]);
}

/// The model of what [`parse_expression`] and the list collector return.
pub open spec fn outcome(r: Result<(Option<AST>, &[Token]), ParseError>) -> Parsed {
    match r {
        Ok((ast, rest)) => Ok((ast.deep_view(), rest.deep_view())),
        Err(error) => Err(error@),
    }
}

/// The tokens of a slice from `from` on are, in the model, the tokens of the
/// slice without its first `from`.
pub proof fn lemma_tail_view(tokens: &[Token], tail: &[Token], from: int)
    requires
        0 <= from <= tokens@.len(),
        tail@ == tokens@.subrange(from, tokens@.len() as int),
    ensures
        tail.deep_view() == tokens.deep_view().skip(from),
{
    assert(tail.deep_view() =~= tokens.deep_view().skip(from));
}

impl Decimal {
    #[verifier::type_invariant]
    spec fn is_literal(self) -> bool {
        float_literal(self.text@)
    }

    /// The literal `word`, if it is a floating-point literal.
    pub fn parse(word: &str) -> (r: Option<Self>)
        ensures
            float_literal(word@) <==> r is Some,
            r matches Some(literal) ==> literal@ == word@,
    {
        if is_float_literal_of(&chars_of(word)) {
            Some(Decimal { text: word.to_owned() })
        } else {
            None
        }
    }

    /// The text of the literal.
    pub fn as_str(&self) -> (r: &str)
        ensures
            r@ == self@,
            float_literal(r@),
    {
        proof {
            use_type_invariant(self);
        }
        self.text.as_str()
    }
}

fn contains_dot(chars: &Vec<char>) -> (r: bool)
    ensures
        r == chars@.contains('.'),
{
    let mut i: usize = 0;
    while i < chars.len()
        invariant
            i <= chars.len(),
            forall|j: int| 0 <= j < i ==> chars@[j] != '.',
        decreases chars.len() - i,
    {
        if chars[i] == '.' {
            return true;
        }
        i += 1;
    }
    false
}

/// The number that `word` stands for, if any.
fn parse_number(word: &String) -> (r: Option<AST>)
    ensures
        r.deep_view() == number(word@),
{
    let chars = chars_of(word.as_str());
    if contains_dot(&chars) {
        if is_float_literal_of(&chars) {
            Some(AST::Numeric(Number::Decimal(Decimal { text: word.clone() })))
        } else {
            None
        }
    } else {
        match integer_of(&chars) {
            Some(value) => Some(AST::Numeric(Number::Integer(value))),
            None => None,
        }
    }
}

/// Reads one expression from the start of `tokens`, with `depth` more lists
/// allowed to be opened, and returns it with the tokens that follow it.
pub fn parse_expression(tokens: &[Token], depth: usize) -> (r: Result<
    (Option<AST>, &[Token]),
    ParseError,
>)
    ensures
        outcome(r) == expression(tokens.deep_view(), depth as nat),
    decreases tokens.len(), 0nat,
{
    let n = tokens.len();
    if n == 0 {
        return Ok((None, tokens));
    }
    assert(tokens.deep_view()[0] == tokens[0]@);
    match &tokens[0] {
        Token::Word(word) => {
            let tail = &tokens[1..n];
            proof {
                lemma_tail_view(tokens, tail, 1);
            }
            Ok((parse_number(word), tail))
        },
        Token::StringLiteralSeparator => {
            if n >= 3 {
                assert(tokens.deep_view()[1] == tokens[1]@);
                assert(tokens.deep_view()[2] == tokens[2]@);
                match (&tokens[1], &tokens[2]) {
                    (Token::Word(word), Token::StringLiteralSeparator) => {
                        let tail = &tokens[3..n];
                        proof {
                            lemma_tail_view(tokens, tail, 3);
                        }
                        Ok((Some(AST::String(word.clone())), tail))
                    },
                    _ => Err(ParseError::UnexpectedToken(Token::StringLiteralSeparator)),
                }
            } else {
                Err(ParseError::UnexpectedToken(Token::StringLiteralSeparator))
            }
        },
        Token::OpenObject => {
            if depth == 0 {
                Err(ParseError::NestingTooDeep)
            } else {
                let tail = &tokens[1..n];
                proof {
                    lemma_tail_view(tokens, tail, 1);
                }
                collect_list_within(tail, depth - 1)
            }
        },
        other => Err(ParseError::UnexpectedToken(other.clone())),
    }
}

/// Parses `tokens` into its expressions, in order: one entry for each
/// expression, `None` where it was malformed. Stops with an error at the
/// first token that cannot start an expression.
pub fn parser(tokens: &[Token]) -> (r: Result<Vec<Option<AST>>, ParseError>)
    ensures
        match r {
            Ok(asts) => parse_all(tokens.deep_view()) == Ok::<_, ParseErrorView>(asts.deep_view()),
            Err(error) => parse_all(tokens.deep_view()) == Err::<Seq<Option<AstView>>, _>(error@),
        },
{
    let mut asts = Vec::new();
    match parser_initialised(tokens, &mut asts) {
        Ok(()) => Ok(asts),
        Err(error) => Err(error),
    }
}

/// Appends to `asts` the expressions of `tokens`.
fn parser_initialised(tokens: &[Token], asts: &mut Vec<Option<AST>>) -> (r: Result<(), ParseError>)
    ensures
        match r {
            Ok(()) => parse_all(tokens.deep_view()) matches Ok(parsed) && final(asts).deep_view()
                == old(asts).deep_view() + parsed,
            Err(error) => parse_all(tokens.deep_view()) == Err::<Seq<Option<AstView>>, _>(error@),
        },
{
    let mut left = tokens;
    let ghost before = asts.deep_view();
    let ghost mut parsed: Seq<Option<AstView>> = Seq::empty();
    while left.len() > 0
        invariant
            asts.deep_view() == before + parsed,
            parse_all(tokens.deep_view()) == match parse_all(left.deep_view()) {
                Ok(others) => Ok(parsed + others),
                Err(error) => Err(error),
            },
        decreases left.len(),
    {
        proof {
            lemma_consumes(left.deep_view(), MAX_NESTING as nat);
        }
        match parse_expression(left, MAX_NESTING) {
            Err(error) => {
                return Err(error);
            },
            Ok((ast, rest)) => {
                proof {
                    let others = parse_all(rest.deep_view());
                    if others is Ok {
                        assert(parsed + (seq![ast.deep_view()] + others->Ok_0) == parsed.push(
                            ast.deep_view(),
                        ) + others->Ok_0);
                    }
                    assert(asts.deep_view().push(ast.deep_view()) == before + parsed.push(
                        ast.deep_view(),
                    ));
                    parsed = parsed.push(ast.deep_view());
                }
                let ghost pushed = asts.deep_view().push(ast.deep_view());
                asts.push(ast);
                assert(asts.deep_view() == pushed);
                left = rest;
            },
        }
    }
    assert(parsed + Seq::<Option<AstView>>::empty() == parsed);
    Ok(())
}

} // verus!
