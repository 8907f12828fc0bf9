//! The tokenizer: a three-state machine that is pulled for one token at a
//! time, and the model of the token sequence that it produces.
use crate::text::{
    chars_of, is_whitespace, lemma_run_len, lemma_run_len_concat, lemma_run_len_is, reserved,
    run_len, white_space,
    CLOSE_ARGUMENTS, CLOSE_OBJECT, LINE_SEPARATOR, NAMESPACE_SEPARATOR, NAME_SEPARATOR,
    OPEN_ARGUMENTS, OPEN_OBJECT, STRING_LITERAL_SEPARATOR,
};
use vstd::prelude::*;

verus! {

/// One lexical unit of the notation.
#[derive(Debug, PartialEq, Eq)]
pub enum Token {
    /// A bare word, or the content of a string literal.
    Word(String),
    StringLiteralSeparator,
    NamespaceSeparator,
    LineSeparator,
    NameSeparator,
    OpenObject,
    CloseObject,
    OpenArguments,
    CloseArguments,
}

/// What a [`Token`] is in contracts: the same variants, with the text as a
/// sequence of characters.
pub ghost enum TokenView {
    Word(Seq<char>),
    StringLiteralSeparator,
    NamespaceSeparator,
    LineSeparator,
    NameSeparator,
    OpenObject,
    CloseObject,
    OpenArguments,
    CloseArguments,
}

impl View for Token {
    type V = TokenView;

    open spec fn view(&self) -> TokenView {
        match self {
            Token::Word(text) => TokenView::Word(text@),
            Token::StringLiteralSeparator => TokenView::StringLiteralSeparator,
            Token::NamespaceSeparator => TokenView::NamespaceSeparator,
            Token::LineSeparator => TokenView::LineSeparator,
            Token::NameSeparator => TokenView::NameSeparator,
            Token::OpenObject => TokenView::OpenObject,
            Token::CloseObject => TokenView::CloseObject,
            Token::OpenArguments => TokenView::OpenArguments,
            Token::CloseArguments => TokenView::CloseArguments,
        }
    }
}

impl DeepView for Token {
    type V = TokenView;

    open spec fn deep_view(&self) -> TokenView {
        self@
    }
}

impl Clone for Token {
    fn clone(&self) -> (r: Self)
        ensures
            r@ == self@,
    {
        match self {
            Token::Word(text) => Token::Word(text.clone()),
            Token::StringLiteralSeparator => Token::StringLiteralSeparator,
            Token::NamespaceSeparator => Token::NamespaceSeparator,
            Token::LineSeparator => Token::LineSeparator,
            Token::NameSeparator => Token::NameSeparator,
            Token::OpenObject => Token::OpenObject,
            Token::CloseObject => Token::CloseObject,
            Token::OpenArguments => Token::OpenArguments,
            Token::CloseArguments => Token::CloseArguments,
        }
    }
}

/// Where the tokenizer stands with respect to string literals.
#[derive(Debug, Clone, Copy, PartialEq, Eq, Structural)]
pub enum LexingState {
    /// An opening separator was emitted: the content comes next.
    CollectingStringLiteral,
    /// The content was emitted: the closing separator comes next.
    CollectedStringLiteral,
    /// Outside any string literal.
    Basic,
}

/// The token that a reserved character stands for.
pub open spec fn punctuation(c: char) -> TokenView
    recommends
        reserved(c),
{
    if c == LINE_SEPARATOR {
        TokenView::LineSeparator
    } else if c == OPEN_ARGUMENTS {
        TokenView::OpenArguments
    } else if c == CLOSE_ARGUMENTS {
        TokenView::CloseArguments
    } else if c == OPEN_OBJECT {
        TokenView::OpenObject
    } else if c == CLOSE_OBJECT {
        TokenView::CloseObject
    } else if c == NAME_SEPARATOR {
        TokenView::NameSeparator
    } else {
        TokenView::NamespaceSeparator
    }
}

/// Number of whitespace characters at the start of `input`.
pub open spec fn leading_whitespace(input: Seq<char>) -> nat {
    run_len(input, |c: char| white_space(c))
}

/// Length of the bare word at the start of `input`: everything up to the
/// first reserved character. Whitespace and the string literal separator do
/// not end a bare word.
pub open spec fn word_len(input: Seq<char>) -> nat {
    run_len(input, |c: char| !reserved(c))
}

/// Length of the string literal content at the start of `input`: everything
/// up to the first string literal separator.
pub open spec fn literal_len(input: Seq<char>) -> nat {
    run_len(input, |c: char| c != STRING_LITERAL_SEPARATOR)
}

/// One pull outside a string literal: whitespace is skipped, then a reserved
/// character gives its token, a string literal separator opens a literal, and
/// anything else starts a bare word. `None` when only whitespace is left.
pub open spec fn basic_step(input: Seq<char>) -> Option<(TokenView, Seq<char>, LexingState)> {
    let s = input.skip(leading_whitespace(input) as int);
    if s.len() == 0 {
        None
    } else if reserved(s[0]) {
        Some((punctuation(s[0]), s.skip(1), LexingState::Basic))
    } else if s[0] == STRING_LITERAL_SEPARATOR {
        Some((TokenView::StringLiteralSeparator, s.skip(1), LexingState::CollectingStringLiteral))
    } else {
        Some(
            (
                TokenView::Word(s.take(word_len(s) as int)),
                s.skip(word_len(s) as int),
                LexingState::Basic,
            ),
        )
    }
}

/// One pull of the tokenizer on the unread `input` in `state`: the token, the
/// input left unread and the next state, or `None` at the end of the tokens.
///
/// The content of a string literal is one word, possibly empty, that ends
/// before the next separator or with the input. After it, the input ends (and
/// the tokens with it, the literal left open) or the closing separator comes.
pub open spec fn step(input: Seq<char>, state: LexingState) -> Option<
    (TokenView, Seq<char>, LexingState),
> {
    match state {
        LexingState::Basic => basic_step(input),
        LexingState::CollectingStringLiteral => Some(
            (
                TokenView::Word(input.take(literal_len(input) as int)),
                input.skip(literal_len(input) as int),
                LexingState::CollectedStringLiteral,
            ),
        ),
        LexingState::CollectedStringLiteral => if input.len() == 0 {
            None
        } else if input[0] == STRING_LITERAL_SEPARATOR {
            Some((TokenView::StringLiteralSeparator, input.skip(1), LexingState::Basic))
        } else {
            basic_step(input)
        },
    }
}

/// How many pulls a state can make without reading a character.
pub open spec fn idle_pulls(state: LexingState) -> nat {
    match state {
        LexingState::CollectingStringLiteral => 2,
        LexingState::CollectedStringLiteral => 1,
        LexingState::Basic => 0,
    }
}

/// A pull never gives input back, and it reads at least one character unless
/// it moves from the opening separator of a literal to its content.
pub proof fn lemma_step_progress(input: Seq<char>, state: LexingState)
    ensures
        step(input, state) matches Some((_, rest, next)) ==> {
            &&& rest.len() <= input.len()
            &&& rest.len() < input.len() || idle_pulls(next) < idle_pulls(state)
        },
{
    lemma_run_len(input, |c: char| white_space(c));
    lemma_run_len(input, |c: char| c != STRING_LITERAL_SEPARATOR);
    let s = input.skip(leading_whitespace(input) as int);
    lemma_run_len(s, |c: char| !reserved(c));
}

/// All the tokens that the tokenizer produces from the unread `input` in
/// `state`, in order.
pub open spec fn lex(input: Seq<char>, state: LexingState) -> Seq<TokenView>
    decreases input.len(), idle_pulls(state),
{
    match step(input, state) {
        None => Seq::empty(),
        Some((token, rest, next)) => {
            proof {
                lemma_step_progress(input, state);
            }
            seq![token] + lex(rest, next)
        },
    }
}

/// Whether the tokens end inside a string literal: the text is exhausted
/// where the closing separator of a literal should stand.
pub open spec fn unterminated(input: Seq<char>, state: LexingState) -> bool
    decreases input.len(), idle_pulls(state),
{
    match step(input, state) {
        None => state == LexingState::CollectedStringLiteral,
        Some((_, rest, next)) => {
            proof {
                lemma_step_progress(input, state);
            }
            unterminated(rest, next)
        },
    }
}

/// Whitespace before a token is skipped: outside a string literal, a text
/// gives the same tokens with or without whitespace in front of it.
pub proof fn lemma_leading_whitespace_is_skipped(space: Seq<char>, text: Seq<char>)
    requires
        forall|i: int| 0 <= i < space.len() ==> white_space(#[trigger] space[i]),
    ensures
        lex(space + text, LexingState::Basic) == lex(text, LexingState::Basic),
{
    let keep = |c: char| white_space(c);
    assert forall|i: int| 0 <= i < space.len() implies keep(#[trigger] space[i]) by {
        assert(white_space(space[i]));
    }
    lemma_run_len_concat(space, text, keep);
    lemma_run_len(text, keep);
    assert((space + text).skip(leading_whitespace(space + text) as int) == text.skip(
        leading_whitespace(text) as int,
    ));
    assert(basic_step(space + text) == basic_step(text));
}

/// Outside a string literal, a reserved character is its own token, whatever
/// follows it.
pub proof fn lemma_reserved_is_a_token(c: char, text: Seq<char>)
    requires
        reserved(c),
    ensures
        lex(seq![c] + text, LexingState::Basic) == seq![punctuation(c)] + lex(
            text,
            LexingState::Basic,
        ),
{
    let input = seq![c] + text;
    assert(leading_whitespace(input) == 0);
    assert(input.skip(0) == input);
    assert(input.skip(1) == text);
}

/// A bare word ends where a reserved character stands, and that character
/// is its own token. The word may hold whitespace and string literal
/// separators after its first character.
pub proof fn lemma_reserved_ends_a_word(word: Seq<char>, c: char, text: Seq<char>)
    requires
        word.len() > 0,
        !white_space(word[0]),
        word[0] != STRING_LITERAL_SEPARATOR,
        forall|i: int| 0 <= i < word.len() ==> !reserved(#[trigger] word[i]),
        reserved(c),
    ensures
        lex(word + (seq![c] + text), LexingState::Basic) == seq![
            TokenView::Word(word),
            punctuation(c),
        ] + lex(text, LexingState::Basic),
{
    let tail = seq![c] + text;
    let input = word + tail;
    let keep = |c: char| !reserved(c);
    assert(leading_whitespace(input) == 0);
    assert(input.skip(0) == input);
    assert forall|i: int| 0 <= i < word.len() implies keep(#[trigger] word[i]) by {
        assert(!reserved(word[i]));
    }
    lemma_run_len_concat(word, tail, keep);
    assert(word_len(tail) == 0);
    assert(input.take(word.len() as int) == word);
    assert(input.skip(word.len() as int) == tail);
    lemma_reserved_is_a_token(c, text);
    assert(lex(input, LexingState::Basic) == seq![TokenView::Word(word)] + lex(
        tail,
        LexingState::Basic,
    ));
    assert(seq![TokenView::Word(word)] + (seq![punctuation(c)] + lex(text, LexingState::Basic))
        == seq![TokenView::Word(word), punctuation(c)] + lex(text, LexingState::Basic));
}

/// A bare word is never empty, starts with a character that is not
/// whitespace, and holds no reserved character.
pub proof fn lemma_bare_word_shape(input: Seq<char>)
    ensures
        basic_step(input) matches Some((TokenView::Word(word), _, _)) ==> {
            &&& word.len() > 0
            &&& !white_space(word[0])
            &&& word[0] != STRING_LITERAL_SEPARATOR
            &&& forall|i: int| 0 <= i < word.len() ==> !reserved(#[trigger] word[i])
        },
{
    lemma_run_len(input, |c: char| white_space(c));
    let s = input.skip(leading_whitespace(input) as int);
    lemma_run_len(s, |c: char| !reserved(c));
}

/// The content of a string literal is everything up to the next separator,
/// separator excluded, whatever the characters; it ends with the text only
/// where no separator is left.
pub proof fn lemma_literal_content_shape(input: Seq<char>)
    ensures
        step(input, LexingState::CollectingStringLiteral) matches Some(
            (TokenView::Word(content), rest, next),
        ) && {
            &&& next == LexingState::CollectedStringLiteral
            &&& input == content + rest
            &&& forall|i: int|
                0 <= i < content.len() ==> #[trigger] content[i] != STRING_LITERAL_SEPARATOR
            &&& rest.len() > 0 ==> rest[0] == STRING_LITERAL_SEPARATOR
        },
{
    lemma_run_len(input, |c: char| c != STRING_LITERAL_SEPARATOR);
    let n = literal_len(input) as int;
    assert(input == input.take(n) + input.skip(n));
}

/// Lexing is deterministic: two tokenizers that have the same text left to
/// read, in the same state, produce the same tokens.
pub proof fn lemma_lexing_is_deterministic(a: Lexer, b: Lexer)
    requires
        a.remaining() == b.remaining(),
        a.state() == b.state(),
    ensures
        a.tokens() == b.tokens(),
{
}

/// A tokenizer over a text that is supplied whole. Tokens are pulled one at
/// a time with [`Lexer::next`].
pub struct Lexer {
    chars: Vec<char>,
    position: usize,
    state: LexingState,
}

impl Lexer {
    #[verifier::type_invariant]
    spec fn position_in_text(self) -> bool {
        self.position <= self.chars.len()
    }

    /// The characters that were not read yet.
    pub closed spec fn remaining(&self) -> Seq<char> {
        self.chars@.skip(self.position as int)
    }

    pub closed spec fn state(&self) -> LexingState {
        self.state
    }

    /// The tokens that are still to come.
    pub open spec fn tokens(&self) -> Seq<TokenView> {
        lex(self.remaining(), self.state())
    }

    pub fn new(stream: Vec<char>) -> (r: Self)
        ensures
            r.remaining() == stream@,
            r.state() == LexingState::Basic,
    {
        Self { chars: stream, position: 0, state: LexingState::Basic }
    }

    /// The next token, or `None` when there is none left. Afterwards the
    /// tokenizer stands where [`step`] says; at the end, the whole text was
    /// read and the tokenizer is outside any literal.
    pub fn next(&mut self) -> (r: Option<Token>)
        ensures
            match step(old(self).remaining(), old(self).state()) {
                Some((token, rest, state)) => {
                    &&& r matches Some(t) && t@ == token
                    &&& final(self).remaining() == rest
                    &&& final(self).state() == state
                },
                None => {
                    &&& r is None
                    &&& final(self).remaining().len() == 0
                    &&& final(self).state() == LexingState::Basic
                },
            },
    {
        match self.state {
            LexingState::CollectedStringLiteral => self.collected_string_literal(),
            LexingState::CollectingStringLiteral => self.collecting_string_literal(),
            LexingState::Basic => self.basic(),
        }
    }

    /// All the tokens that are left, in order.
    pub fn collect(self) -> (r: Vec<Token>)
        ensures
            r.deep_view() == self.tokens(),
    {
        let mut lexer = self;
        let mut tokens: Vec<Token> = Vec::new();
        loop
            invariant
                self.tokens() == tokens.deep_view() + lexer.tokens(),
            decreases lexer.remaining().len(), idle_pulls(lexer.state()),
        {
            proof {
                lemma_step_progress(lexer.remaining(), lexer.state());
            }
            match lexer.next() {
                None => {
                    assert(tokens.deep_view() + Seq::<TokenView>::empty() == tokens.deep_view());
                    return tokens;
                },
                Some(token) => {
                    let ghost pushed = tokens.deep_view().push(token@);
                    tokens.push(token);
                    assert(tokens.deep_view() == pushed);
                    assert(pushed + lexer.tokens() == pushed.drop_last() + (seq![token@]
                        + lexer.tokens()));
                },
            }
        }
    }

    fn basic(&mut self) -> (r: Option<Token>)
        requires
            old(self).state() == LexingState::Basic,
        ensures
            match basic_step(old(self).remaining()) {
                Some((token, rest, state)) => {
                    &&& r matches Some(t) && t@ == token
                    &&& final(self).remaining() == rest
                    &&& final(self).state() == state
                },
                None => {
                    &&& r is None
                    &&& final(self).remaining().len() == 0
                    &&& final(self).state() == LexingState::Basic
                },
            },
    {
        proof {
            use_type_invariant(&*self);
        }
        let ghost input = self.remaining();
        let ghost s = input.skip(leading_whitespace(input) as int);
        let next = self.get_next_non_whitespace_character();
        proof {
            use_type_invariant(&*self);
            lemma_run_len(input, |c: char| white_space(c));
            if next is Some {
                assert(s[0] == next->0);
                assert(self.remaining() == s.skip(1));
            }
        }
        match next {
            None => None,
            Some(c) => Some(
                if c == LINE_SEPARATOR {
                    Token::LineSeparator
                } else if c == OPEN_ARGUMENTS {
                    Token::OpenArguments
                } else if c == CLOSE_ARGUMENTS {
                    Token::CloseArguments
                } else if c == OPEN_OBJECT {
                    Token::OpenObject
                } else if c == CLOSE_OBJECT {
                    Token::CloseObject
                } else if c == NAME_SEPARATOR {
                    Token::NameSeparator
                } else if c == NAMESPACE_SEPARATOR {
                    Token::NamespaceSeparator
                } else if c == STRING_LITERAL_SEPARATOR {
                    self.state = LexingState::CollectingStringLiteral;
                    Token::StringLiteralSeparator
                } else {
                    let word = self.collect_word(c);
                    proof {
                        let rest = s.skip(1);
                        lemma_run_len(rest, |c: char| !reserved(c));
                        assert(s.drop_first() == rest);
                        assert(word_len(s) == 1 + word_len(rest));
                        assert(word@ == s.take(word_len(s) as int));
                        assert(rest.skip(word_len(rest) as int) == s.skip(word_len(s) as int));
                    }
                    Token::Word(word)
                },
            ),
        }
    }

    fn collecting_string_literal(&mut self) -> (r: Option<Token>)
        ensures
            r matches Some(t) && t@ == TokenView::Word(
                old(self).remaining().take(literal_len(old(self).remaining()) as int),
            ),
            final(self).remaining() == old(self).remaining().skip(
                literal_len(old(self).remaining()) as int,
            ),
            final(self).state() == LexingState::CollectedStringLiteral,
    {
        proof {
            use_type_invariant(&*self);
        }
        self.state = LexingState::CollectedStringLiteral;
        Some(Token::Word(self.collect_string_litteral()))
    }

    fn collected_string_literal(&mut self) -> (r: Option<Token>)
        ensures
            match step(old(self).remaining(), LexingState::CollectedStringLiteral) {
                Some((token, rest, state)) => {
                    &&& r matches Some(t) && t@ == token
                    &&& final(self).remaining() == rest
                    &&& final(self).state() == state
                },
                None => {
                    &&& r is None
                    &&& final(self).remaining().len() == 0
                    &&& final(self).state() == LexingState::Basic
                },
            },
    {
        proof {
            use_type_invariant(&*self);
        }
        self.state = LexingState::Basic;
        if self.position >= self.chars.len() {
            None
        } else if self.chars[self.position] == STRING_LITERAL_SEPARATOR {
            self.position += 1;
            assert(self.remaining() == old(self).remaining().skip(1));
            Some(Token::StringLiteralSeparator)
        } else {
            self.basic()
        }
    }

    /// Reads up to and including the first character that is not whitespace,
    /// and returns it; `None` when only whitespace is left, which is then read.
    fn get_next_non_whitespace_character(&mut self) -> (r: Option<char>)
        ensures
            final(self).state() == old(self).state(),
            match r {
                Some(c) => {
                    &&& leading_whitespace(old(self).remaining()) < old(self).remaining().len()
                    &&& c == old(self).remaining()[leading_whitespace(
                        old(self).remaining(),
                    ) as int]
                    &&& final(self).remaining() == old(self).remaining().skip(
                        leading_whitespace(old(self).remaining()) as int + 1,
                    )
                },
                None => {
                    &&& leading_whitespace(old(self).remaining()) == old(self).remaining().len()
                    &&& final(self).remaining().len() == 0
                },
            },
    {
        proof {
            use_type_invariant(&*self);
        }
        let ghost start = self.position;
        let ghost input = self.remaining();
        loop
            invariant
                start <= self.position <= self.chars.len(),
                self.chars == old(self).chars,
                self.state == old(self).state,
                input == self.chars@.skip(start as int),
                input == old(self).remaining(),
                forall|j: int| start <= j < self.position ==> white_space(#[trigger] self.chars@[j]),
            decreases self.chars.len() - self.position,
        {
            if self.position >= self.chars.len() {
                proof {
                    let keep = |c: char| white_space(c);
                    assert forall|j: int| 0 <= j < input.len() implies keep(#[trigger] input[j]) by {
                        assert(input[j] == self.chars@[start + j]);
                    }
                    lemma_run_len_is(input, keep, input.len());
                }
                return None;
            }
            let c = self.chars[self.position];
            self.position += 1;
            if !is_whitespace(c) {
                proof {
                    let keep = |c: char| white_space(c);
                    let n = (self.position - 1 - start) as nat;
                    assert forall|j: int| 0 <= j < n implies keep(#[trigger] input[j]) by {
                        assert(input[j] == self.chars@[start + j]);
                    }
                    assert(input[n as int] == c);
                    lemma_run_len_is(input, keep, n);
                    assert(self.remaining() == input.skip(n as int + 1));
                }
                return Some(c);
            }
        }
    }

    /// Reads the rest of a bare word whose first character was read already.
    fn collect_word(&mut self, first_character: char) -> (word: String)
        ensures
            word@ == seq![first_character] + old(self).remaining().take(
                word_len(old(self).remaining()) as int,
            ),
            final(self).remaining() == old(self).remaining().skip(
                word_len(old(self).remaining()) as int,
            ),
            final(self).state() == old(self).state(),
    {
        proof {
            use_type_invariant(&*self);
        }
        let ghost start = self.position;
        let ghost input = self.remaining();
        let mut word = String::new();
        word.push(first_character);
        while self.position < self.chars.len() && !Self::is_syntaxic_token(
            self.chars[self.position],
        )
            invariant
                start <= self.position <= self.chars.len(),
                self.chars == old(self).chars,
                self.state == old(self).state,
                input == self.chars@.skip(start as int),
                word@ == seq![first_character] + input.take(self.position - start),
                forall|j: int| start <= j < self.position ==> !reserved(#[trigger] self.chars@[j]),
            decreases self.chars.len() - self.position,
        {
            word.push(self.chars[self.position]);
            self.position += 1;
            assert(input.take(self.position - start) == input.take(self.position - 1 - start).push(
                self.chars@[self.position - 1],
            ));
        }
        proof {
            let keep = |c: char| !reserved(c);
            let n = (self.position - start) as nat;
            assert forall|j: int| 0 <= j < n implies keep(#[trigger] input[j]) by {
                assert(input[j] == self.chars@[start + j]);
            }
            if n < input.len() {
                assert(input[n as int] == self.chars@[self.position as int]);
            }
            lemma_run_len_is(input, keep, n);
            assert(self.remaining() == input.skip(n as int));
        }
        word
    }

    /// Reads the content of a string literal, up to the closing separator or
    /// the end of the text.
    fn collect_string_litteral(&mut self) -> (word: String)
        ensures
            word@ == old(self).remaining().take(literal_len(old(self).remaining()) as int),
            final(self).remaining() == old(self).remaining().skip(
                literal_len(old(self).remaining()) as int,
            ),
            final(self).state() == old(self).state(),
    {
        proof {
            use_type_invariant(&*self);
        }
        let ghost start = self.position;
        let ghost input = self.remaining();
        let mut word = String::new();
        while self.position < self.chars.len() && self.chars[self.position]
            != STRING_LITERAL_SEPARATOR
            invariant
                start <= self.position <= self.chars.len(),
                self.chars == old(self).chars,
                self.state == old(self).state,
                input == self.chars@.skip(start as int),
                word@ == input.take(self.position - start),
                forall|j: int|
                    start <= j < self.position ==> #[trigger] self.chars@[j]
                        != STRING_LITERAL_SEPARATOR,
            decreases self.chars.len() - self.position,
        {
            word.push(self.chars[self.position]);
            self.position += 1;
            assert(input.take(self.position - start) == input.take(self.position - 1 - start).push(
                self.chars@[self.position - 1],
            ));
        }
        proof {
            let keep = |c: char| c != STRING_LITERAL_SEPARATOR;
            let n = (self.position - start) as nat;
            assert forall|j: int| 0 <= j < n implies keep(#[trigger] input[j]) by {
                assert(input[j] == self.chars@[start + j]);
            }
            if n < input.len() {
                assert(input[n as int] == self.chars@[self.position as int]);
            }
            lemma_run_len_is(input, keep, n);
            assert(self.remaining() == input.skip(n as int));
        }
        word
    }

    fn is_syntaxic_token(c: char) -> (r: bool)
        ensures
            r == reserved(c),
    {
        c == NAME_SEPARATOR || c == OPEN_ARGUMENTS || c == CLOSE_ARGUMENTS || c == OPEN_OBJECT || c
            == CLOSE_OBJECT || c == LINE_SEPARATOR || c == NAMESPACE_SEPARATOR
    }
}

/// Why a text has no complete sequence of tokens.
#[derive(Debug, Clone, Copy, PartialEq, Eq, Structural)]
pub enum LexError {
    /// The text ends inside a string literal.
    UnterminatedStringLiteral,
}

/// All the tokens of `text`, or an error if the text ends inside a string
/// literal, where [`Lexer::collect`] would stop without a word about it.
pub fn tokenize(text: &str) -> (r: Result<Vec<Token>, LexError>)
    ensures
        match r {
            Ok(tokens) => !unterminated(text@, LexingState::Basic) && tokens.deep_view() == lex(
                text@,
                LexingState::Basic,
            ),
            Err(error) => unterminated(text@, LexingState::Basic),
        },
{
    let mut lexer = Lexer::from(text);
    let mut tokens: Vec<Token> = Vec::new();
    loop
        invariant
            lex(text@, LexingState::Basic) == tokens.deep_view() + lexer.tokens(),
            unterminated(text@, LexingState::Basic) == unterminated(
                lexer.remaining(),
                lexer.state(),
            ),
        decreases lexer.remaining().len(), idle_pulls(lexer.state()),
    {
        proof {
            lemma_step_progress(lexer.remaining(), lexer.state());
        }
        let open = lexer.state == LexingState::CollectedStringLiteral;
        match lexer.next() {
            None => {
                assert(tokens.deep_view() + Seq::<TokenView>::empty() == tokens.deep_view());
                return if open {
                    Err(LexError::UnterminatedStringLiteral)
                } else {
                    Ok(tokens)
                };
            },
            Some(token) => {
                let ghost pushed = tokens.deep_view().push(token@);
                tokens.push(token);
                assert(tokens.deep_view() == pushed);
                assert(pushed + lexer.tokens() == pushed.drop_last() + (seq![token@]
                    + lexer.tokens()));
            },
        }
    }
}

impl<'a> From<&'a str> for Lexer {
    /// A tokenizer at the start of `text`.
    fn from(text: &'a str) -> (r: Self)
        ensures
            r.remaining() == text@,
            r.state() == LexingState::Basic,
    {
        Self::new(chars_of(text))
    }
}

/// Two tokenizers at the start of the same text need not be the same value:
/// what the conversion gives is stated on `from` itself.
impl<'a> vstd::std_specs::convert::FromSpecImpl<&'a str> for Lexer {
    open spec fn obeys_from_spec() -> bool {
        false
    }

    open spec fn from_spec(text: &'a str) -> Self {
        arbitrary()
    }
}

} // verus!
