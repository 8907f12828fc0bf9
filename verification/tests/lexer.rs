use appian_parser::lexer::{tokenize, LexError, Lexer, Token};

fn lexer(str: &str) -> Vec<Token> {
    Lexer::from(str).collect()
}

#[test]
fn empty_input_should_return_empty_vector() {
    assert_eq!(0, lexer("").len())
}

#[test]
fn all_the_syntax_element_as_input_should_return_a_vector_with_all_those_elements() {
    let expected_vector = Vec::from([
        Token::OpenObject,
        Token::CloseObject,
        Token::OpenArguments,
        Token::CloseArguments,
        Token::NamespaceSeparator,
        Token::LineSeparator,
        Token::NameSeparator,
    ]);

    assert_eq!(expected_vector, lexer("{}()!,:"))
}

#[test]
fn should_ignore_whitespaces() {
    let expected_vector = Vec::from([
        Token::OpenObject,
        Token::CloseObject,
        Token::OpenArguments,
        Token::CloseArguments,
        Token::NamespaceSeparator,
        Token::LineSeparator,
        Token::NameSeparator,
    ]);

    assert_eq!(expected_vector, lexer("{}   ()    !  \n\t ,:\r"))
}

#[test]
fn should_retrieve_unsyntaxic_characters_as_a_word() {
    let expected_vector = Vec::from([Token::Word(String::from("Test"))]);

    assert_eq!(expected_vector, lexer("Test"))
}

#[test]
fn should_take_empty_string_litterals() {
    let expected_vector = Vec::from([
        Token::StringLiteralSeparator,
        Token::Word("".to_string()),
        Token::StringLiteralSeparator,
    ]);

    assert_eq!(expected_vector, lexer("\"\""))
}

#[test]
fn should_take_string_litterals() {
    let expected_vector = Vec::from([
        Token::StringLiteralSeparator,
        Token::Word("toto".to_string()),
        Token::StringLiteralSeparator,
    ]);

    assert_eq!(expected_vector, lexer("\"toto\""))
}

fn word(text: &str) -> Token {
    Token::Word(text.to_string())
}

#[test]
fn lexing_the_same_text_twice_gives_the_same_tokens() {
    let text = "{ \"a b\" , 12.5 , {x!y} } (z):";
    assert_eq!(lexer(text), lexer(text));
    assert_eq!(Lexer::new(text.chars().collect()).collect(), lexer(text));
}

#[test]
fn new_starts_at_the_first_character_outside_any_literal() {
    let mut lexer = Lexer::new(vec!['a', ',', '"']);
    assert_eq!(lexer.next(), Some(word("a")));
    assert_eq!(lexer.next(), Some(Token::LineSeparator));
    assert_eq!(lexer.next(), Some(Token::StringLiteralSeparator));
    assert_eq!(lexer.next(), Some(word("")));
    assert_eq!(lexer.next(), None);
    assert_eq!(lexer.next(), None);
}

#[test]
fn each_reserved_character_is_its_own_token_between_words() {
    assert_eq!(
        lexer("a,b(c)d{e}f:g!h"),
        vec![
            word("a"),
            Token::LineSeparator,
            word("b"),
            Token::OpenArguments,
            word("c"),
            Token::CloseArguments,
            word("d"),
            Token::OpenObject,
            word("e"),
            Token::CloseObject,
            word("f"),
            Token::NameSeparator,
            word("g"),
            Token::NamespaceSeparator,
            word("h"),
        ]
    )
}

#[test]
fn whitespace_before_a_word_is_skipped_and_inside_it_is_kept() {
    assert_eq!(
        lexer("  \t a b  ,  c\n"),
        vec![word("a b  "), Token::LineSeparator, word("c\n")]
    )
}

#[test]
fn unicode_whitespace_is_skipped_between_tokens() {
    assert_eq!(
        lexer("\u{a0}{\u{2003}\u{3000}}\u{85}\u{1680}\u{2028}\u{2029}\u{202f}\u{205f}"),
        vec![Token::OpenObject, Token::CloseObject]
    )
}

#[test]
fn a_character_next_to_whitespace_in_code_is_not_whitespace() {
    assert_eq!(lexer("\u{200b}"), vec![word("\u{200b}")]);
    assert_eq!(lexer("\u{8}"), vec![word("\u{8}")]);
    assert_eq!(lexer("\u{e}"), vec![word("\u{e}")]);
    assert_eq!(lexer("\u{180e}"), vec![word("\u{180e}")]);
}

#[test]
fn a_string_literal_separator_inside_a_word_does_not_end_it() {
    assert_eq!(lexer("ab\"cd\","), vec![word("ab\"cd\""), Token::LineSeparator])
}

#[test]
fn string_literal_content_is_kept_verbatim() {
    assert_eq!(
        lexer("\" {a, b}\\n(c):!  \"x"),
        vec![
            Token::StringLiteralSeparator,
            word(" {a, b}\\n(c):!  "),
            Token::StringLiteralSeparator,
            word("x"),
        ]
    )
}

#[test]
fn two_string_literals_in_a_row() {
    assert_eq!(
        lexer("\"a\"\"b\""),
        vec![
            Token::StringLiteralSeparator,
            word("a"),
            Token::StringLiteralSeparator,
            Token::StringLiteralSeparator,
            word("b"),
            Token::StringLiteralSeparator,
        ]
    )
}

#[test]
fn an_unterminated_string_literal_ends_the_tokens_after_its_content() {
    assert_eq!(
        lexer("{\"abc, d"),
        vec![
            Token::OpenObject,
            Token::StringLiteralSeparator,
            word("abc, d")
        ]
    );
    assert_eq!(lexer("\""), vec![Token::StringLiteralSeparator, word("")]);
}

#[test]
fn tokenize_gives_the_tokens_of_a_complete_text() {
    assert_eq!(
        tokenize("{\"toto\", 12}"),
        Ok(vec![
            Token::OpenObject,
            Token::StringLiteralSeparator,
            word("toto"),
            Token::StringLiteralSeparator,
            Token::LineSeparator,
            word("12"),
            Token::CloseObject,
        ])
    );
    assert_eq!(tokenize(""), Ok(vec![]));
    assert_eq!(tokenize("a\"b"), Ok(vec![word("a\"b")]));
}

#[test]
fn tokenize_reports_an_unterminated_string_literal() {
    assert_eq!(tokenize("\""), Err(LexError::UnterminatedStringLiteral));
    assert_eq!(tokenize("{\"abc"), Err(LexError::UnterminatedStringLiteral));
    assert_eq!(
        tokenize("\"a\" \"b"),
        Err(LexError::UnterminatedStringLiteral)
    );
}

#[test]
fn a_cloned_token_is_equal_to_the_first() {
    for token in lexer("{a,\"b\"}(c):!") {
        assert_eq!(token.clone(), token);
    }
}
