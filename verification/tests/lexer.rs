use r_scheme::lexer::{tokenize, words, Token};
use r_scheme::object::Float;

fn float(x: f64) -> Float {
    Float { bits: x.to_bits(), text: format!("{}", x) }
}

/// All the tokens of a text, each completed by the host's float reading.
fn tokens(s: &str) -> Vec<Token> {
    let mut out = Vec::new();
    for t in words(s) {
        let reading = match &t {
            Token::Symbol(text) => text.parse::<f64>().ok().map(float),
            _ => None,
        };
        out.push(t.promote(reading));
    }
    out
}

#[test]
fn integer_parses_correctly() {
    assert_eq!(tokens("42"), vec![Token::Integer(42)]);
}

#[test]
fn float_parses_correctly() {
    assert_eq!(tokens("42.42"), vec![Token::Float(float(42.42))]);
}

#[test]
fn empty_string_parses_correctly() {
    assert_eq!(tokens("\"\""), vec![Token::String("".to_string())]);
}

#[test]
fn string_parses_correctly() {
    assert_eq!(
        tokens("\"Hello it this the Crusty Crab ?\""),
        vec![Token::String("Hello it this the Crusty Crab ?".to_string())]
    );
}

#[test]
fn symbol_concat_string_parses_error() {
    assert_eq!(
        tokens("format\"No this is Patrick\""),
        vec![Token::LexerError(
            "Unexpected character \" (line 1, column 7)".to_string()
        )]
    );
}

#[test]
fn string_concat_symbol_parses_error() {
    assert_eq!(
        tokens("\"Oh ok\"*Leaves_silently"),
        vec![Token::LexerError(
            "Unexpected character * (line 1, column 8)".to_string()
        )]
    );
}

#[test]
fn symbol_parses_correctly() {
    assert_eq!(tokens("keyword"), vec![Token::Symbol("keyword".to_string())]);
}

#[test]
fn lparen_parses_correctly() {
    assert_eq!(tokens("("), vec![Token::LParen]);
}

#[test]
fn rparen_parses_correctly() {
    assert_eq!(tokens(")"), vec![Token::RParen]);
}

#[test]
fn sequence_parses_correctly() {
    assert_eq!(
        tokens("(add 1 (convert (\"125\")))"),
        vec![
            Token::LParen,
            Token::Symbol("add".to_string()),
            Token::Integer(1),
            Token::LParen,
            Token::Symbol("convert".to_string()),
            Token::LParen,
            Token::String("125".to_string()),
            Token::RParen,
            Token::RParen,
            Token::RParen,
        ]
    );
}

#[test]
fn keyword_then_quote_is_one_error_and_nothing_after() {
    let mut it = tokenize("keyword\"rest\" more (tokens)");
    assert_eq!(
        it.next(),
        Some(Token::LexerError(
            "Unexpected character \" (line 1, column 8)".to_string()
        ))
    );
    assert_eq!(it.next(), None);
    assert_eq!(it.next(), None);
}

#[test]
fn empty_and_blank_inputs_have_no_tokens() {
    assert_eq!(tokens(""), vec![]);
    assert_eq!(tokens("  \t\n \r\n "), vec![]);
    let mut it = tokenize("");
    assert_eq!(it.next(), None);
    assert_eq!(it.next(), None);
}

#[test]
fn unterminated_string_is_an_eof_error() {
    let mut it = tokenize("(\"abc");
    assert_eq!(it.next(), Some(Token::LParen));
    assert_eq!(
        it.next(),
        Some(Token::LexerError("Unexpected EOF (line 1, column 6)".to_string()))
    );
    assert_eq!(it.next(), None);
}

#[test]
fn line_feed_starts_a_line_and_resets_the_column() {
    // Two characters and a line feed, then one space and the string: the
    // offending star comes after four more characters on line 2.
    assert_eq!(
        tokens("ab\n \"x\"*"),
        vec![
            Token::Symbol("ab".to_string()),
            Token::LexerError("Unexpected character * (line 2, column 4)".to_string()),
        ]
    );
    // A line feed inside a string literal counts as well.
    assert_eq!(
        tokens("\"a\nb"),
        vec![Token::LexerError("Unexpected EOF (line 2, column 1)".to_string())]
    );
    assert_eq!(
        tokens("\"a\n\nbc\"d"),
        vec![Token::LexerError(
            "Unexpected character d (line 3, column 3)".to_string()
        )]
    );
}

#[test]
fn parentheses_count_as_columns() {
    assert_eq!(
        tokens("(()a\""),
        vec![
            Token::LParen,
            Token::LParen,
            Token::RParen,
            Token::LexerError("Unexpected character \" (line 1, column 5)".to_string()),
        ]
    );
}

#[test]
fn string_keeps_its_characters_as_they_are() {
    assert_eq!(
        tokens("\"a\\n (b)\tc\nd\""),
        vec![Token::String("a\\n (b)\tc\nd".to_string())]
    );
}

#[test]
fn string_may_be_followed_by_space_paren_or_end() {
    assert_eq!(
        tokens("(\"a\")"),
        vec![Token::LParen, Token::String("a".to_string()), Token::RParen]
    );
    assert_eq!(
        tokens("\"a\"(\"b\" \"c\""),
        vec![
            Token::String("a".to_string()),
            Token::LParen,
            Token::String("b".to_string()),
            Token::String("c".to_string()),
        ]
    );
    assert_eq!(
        tokens("\"a\"\"b\""),
        vec![Token::LexerError(
            "Unexpected character \" (line 1, column 4)".to_string()
        )]
    );
}

#[test]
fn paren_ends_a_word_without_joining_it() {
    assert_eq!(
        tokens("ab(cd)ef"),
        vec![
            Token::Symbol("ab".to_string()),
            Token::LParen,
            Token::Symbol("cd".to_string()),
            Token::RParen,
            Token::Symbol("ef".to_string()),
        ]
    );
}

#[test]
fn words_are_integers_then_floats_then_symbols() {
    assert_eq!(
        tokens("-7 +7 007 9223372036854775807 -9223372036854775808"),
        vec![
            Token::Integer(-7),
            Token::Integer(7),
            Token::Integer(7),
            Token::Integer(i64::MAX),
            Token::Integer(i64::MIN),
        ]
    );
    // One past the 64-bit range is no integer any more, but still a float.
    assert_eq!(
        tokens("9223372036854775808 -9223372036854775809"),
        vec![
            Token::Float(float(9223372036854775808.0)),
            Token::Float(float(-9223372036854775809.0)),
        ]
    );
    assert_eq!(
        tokens("1e3 .5 -2.5 + - +- 1_000 12a"),
        vec![
            Token::Float(float(1000.0)),
            Token::Float(float(0.5)),
            Token::Float(float(-2.5)),
            Token::Symbol("+".to_string()),
            Token::Symbol("-".to_string()),
            Token::Symbol("+-".to_string()),
            Token::Symbol("1_000".to_string()),
            Token::Symbol("12a".to_string()),
        ]
    );
}

#[test]
fn unicode_white_space_separates_tokens() {
    assert_eq!(
        tokens("a\u{a0}b\u{2003}c\u{3000}d\u{85}e"),
        vec![
            Token::Symbol("a".to_string()),
            Token::Symbol("b".to_string()),
            Token::Symbol("c".to_string()),
            Token::Symbol("d".to_string()),
            Token::Symbol("e".to_string()),
        ]
    );
    // A zero-width space is no white space.
    assert_eq!(tokens("a\u{200b}b"), vec![Token::Symbol("a\u{200b}b".to_string())]);
}

#[test]
fn tokens_without_the_host_keep_floats_as_symbols() {
    let mut it = tokenize("1.5 2");
    assert_eq!(it.next(), Some(Token::Symbol("1.5".to_string())));
    assert_eq!(it.next(), Some(Token::Integer(2)));
    assert_eq!(it.next(), None);
}

#[test]
fn promote_changes_symbols_only() {
    assert_eq!(
        Token::Symbol("1.5".to_string()).promote(Some(float(1.5))),
        Token::Float(float(1.5))
    );
    assert_eq!(
        Token::Symbol("x".to_string()).promote(None),
        Token::Symbol("x".to_string())
    );
    assert_eq!(Token::Integer(1).promote(Some(float(1.0))), Token::Integer(1));
    assert_eq!(
        Token::String("1.5".to_string()).promote(Some(float(1.5))),
        Token::String("1.5".to_string())
    );
    assert_eq!(Token::LParen.promote(Some(float(1.5))), Token::LParen);
}

#[test]
fn tokens_print_as_they_were_written() {
    assert_eq!(Token::Integer(-42).to_text(), "-42");
    assert_eq!(Token::Integer(0).to_text(), "0");
    assert_eq!(Token::Float(float(42.42)).to_text(), "42.42");
    assert_eq!(Token::String("hi".to_string()).to_text(), "\"hi\"");
    assert_eq!(Token::Symbol("hi".to_string()).to_text(), "hi");
    assert_eq!(Token::LParen.to_text(), "(");
    assert_eq!(Token::RParen.to_text(), ")");
    assert_eq!(Token::LexerError("oops".to_string()).to_text(), "oops");
}

#[test]
fn a_cloned_token_is_equal() {
    let t = Token::String("abc".to_string());
    assert_eq!(t.clone(), t);
    let f = Token::Float(float(2.5));
    assert_eq!(f.clone(), f);
}

#[test]
fn words_are_all_the_tokens_in_order() {
    assert_eq!(words(""), vec![]);
    assert_eq!(words("   "), vec![]);
    assert_eq!(
        words("(define pi 3.14) \"s\""),
        vec![
            Token::LParen,
            Token::Symbol("define".to_string()),
            Token::Symbol("pi".to_string()),
            Token::Symbol("3.14".to_string()),
            Token::RParen,
            Token::String("s".to_string()),
        ]
    );
    // An error is the last token.
    assert_eq!(
        words("(a b\"c\" d)"),
        vec![
            Token::LParen,
            Token::Symbol("a".to_string()),
            Token::LexerError("Unexpected character \" (line 1, column 5)".to_string()),
        ]
    );
    // Step by step it is the same.
    let text = "(1 (two \"3\") 4.5)x\"";
    let mut it = tokenize(text);
    let mut stepped = Vec::new();
    while let Some(t) = it.next() {
        stepped.push(t);
    }
    assert_eq!(words(text), stepped);
}

#[test]
fn amount_of_white_space_does_not_matter() {
    let plain = words("(add 1 (convert \"1 2\") x)");
    for spaced in [
        "  (add 1 (convert \"1 2\") x)",
        "(add   1\t(convert\n\"1 2\")\r\n x)  ",
        "\u{3000}( add 1 ( convert \"1 2\" ) x )\n\n",
        "\n\n\n(add\u{a0}1(convert \"1 2\")x)",
    ] {
        assert_eq!(words(spaced), plain, "{:?}", spaced);
    }
    // Inside a string literal it is part of the string.
    assert_eq!(words("\"1  2\""), vec![Token::String("1  2".to_string())]);
    // An error stays an error, at another place.
    assert_eq!(
        words("a\"") ,
        vec![Token::LexerError("Unexpected character \" (line 1, column 2)".to_string())]
    );
    assert_eq!(
        words(" \n a\""),
        vec![Token::LexerError("Unexpected character \" (line 2, column 2)".to_string())]
    );
}
