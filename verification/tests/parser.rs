use r_scheme::lexer::{words, Token};
use r_scheme::object::{Float, Object};
use r_scheme::parser::{parse as parse_tokens, ParseError};

fn float(x: f64) -> Float {
    Float { bits: x.to_bits(), text: format!("{}", x) }
}

fn tokens(s: &str) -> Vec<Token> {
    let mut out = Vec::new();
    for t in words(s) {
        let reading = match &t {
            Token::Symbol(text) => text.parse::<f64>().ok().map(float),
            _ => None,
        };
        out.push(t.promote(reading));
    }
    out
}

fn parse(s: &str) -> Result<Object, ParseError> {
    parse_tokens(&tokens(s))
}

fn symbol(s: &str) -> Object {
    Object::Symbol(s.to_string())
}

#[test]
fn parse_integer() {
    let list = parse("(1)").unwrap();

    assert_eq!(list, Object::List(vec![Object::Integer(1)]))
}

#[test]
fn parse_float() {
    let list = parse("(1.512)").unwrap();

    assert_eq!(list, Object::List(vec![Object::Float(float(1.512))]))
}

#[test]
fn parse_string() {
    let list = parse("(\"Hello\")").unwrap();

    assert_eq!(
        list,
        Object::List(vec![Object::String("Hello".to_string())])
    )
}

#[test]
fn parse_add() {
    let list = parse("(+ 1 2)").unwrap();

    assert_eq!(
        list,
        Object::List(vec![
            Object::Symbol("+".to_string()),
            Object::Integer(1),
            Object::Integer(2)
        ])
    )
}

#[test]
fn parse_area_of_a_circle() {
    let program = "(
                         (define r 10)
                         (define pi 314)
                         (* pi (* r r))
                       )";
    let list = parse(program).unwrap();
    assert_eq!(
        list,
        Object::List(vec![
            Object::List(vec![
                Object::Symbol("define".to_string()),
                Object::Symbol("r".to_string()),
                Object::Integer(10),
            ]),
            Object::List(vec![
                Object::Symbol("define".to_string()),
                Object::Symbol("pi".to_string()),
                Object::Integer(314),
            ]),
            Object::List(vec![
                Object::Symbol("*".to_string()),
                Object::Symbol("pi".to_string()),
                Object::List(vec![
                    Object::Symbol("*".to_string()),
                    Object::Symbol("r".to_string()),
                    Object::Symbol("r".to_string()),
                ]),
            ]),
        ])
    );
}

#[test]
fn empty_list_parses() {
    assert_eq!(parse("()").unwrap(), Object::List(vec![]));
    assert_eq!(
        parse("(())").unwrap(),
        Object::List(vec![Object::List(vec![])])
    );
}

#[test]
fn nested_lists_keep_their_shape() {
    assert_eq!(
        parse("(a (b (c) d) () e)").unwrap(),
        Object::List(vec![
            symbol("a"),
            Object::List(vec![symbol("b"), Object::List(vec![symbol("c")]), symbol("d")]),
            Object::List(vec![]),
            symbol("e"),
        ])
    );
}

#[test]
fn what_follows_the_program_is_not_read() {
    assert_eq!(
        parse("(1) (2) )) garbage").unwrap(),
        Object::List(vec![Object::Integer(1)])
    );
    // Not even an error that the tokenizer would report further on.
    assert_eq!(
        parse("(1) oops\"").unwrap(),
        Object::List(vec![Object::Integer(1)])
    );
}

#[test]
fn program_must_start_with_a_paren() {
    assert_eq!(
        parse("1").unwrap_err().to_text(),
        "Parse error: Excepted Left Paren, found Some(Integer(1))"
    );
    assert_eq!(
        parse("").unwrap_err().to_text(),
        "Parse error: Excepted Left Paren, found None"
    );
    assert_eq!(
        parse(")").unwrap_err().to_text(),
        "Parse error: Excepted Left Paren, found Some(RParen)"
    );
    assert_eq!(
        parse("x (1)").unwrap_err().to_text(),
        "Parse error: Excepted Left Paren, found Some(Symbol(\"x\"))"
    );
    assert_eq!(
        parse("\"s\"").unwrap_err().to_text(),
        "Parse error: Excepted Left Paren, found Some(String(\"s\"))"
    );
    assert_eq!(
        parse("1.5").unwrap_err().to_text(),
        "Parse error: Excepted Left Paren, found Some(Float(1.5))"
    );
    assert_eq!(
        parse("1e2").unwrap_err().to_text(),
        "Parse error: Excepted Left Paren, found Some(Float(100.0))"
    );
    assert_eq!(
        parse("-1.0").unwrap_err().to_text(),
        "Parse error: Excepted Left Paren, found Some(Float(-1.0))"
    );
    assert_eq!(
        parse("\"s").unwrap_err().to_text(),
        "Parse error: Excepted Left Paren, found Some(LexerError(\"Unexpected EOF (line 1, column 3)\"))"
    );
}

#[test]
fn unclosed_list_is_an_eof_error() {
    assert_eq!(
        parse("(1 2").unwrap_err().to_text(),
        "Parse error: Encountered an unexpected EOF !"
    );
    assert_eq!(
        parse("(").unwrap_err().to_text(),
        "Parse error: Encountered an unexpected EOF !"
    );
    assert_eq!(
        parse("((1) (2)").unwrap_err().to_text(),
        "Parse error: Encountered an unexpected EOF !"
    );
}

#[test]
fn lexer_error_becomes_the_parse_error() {
    assert_eq!(
        parse("(a b\"c\")").unwrap_err().to_text(),
        "Parse error: Unexpected character \" (line 1, column 5)"
    );
    assert_eq!(
        parse("(\"abc").unwrap_err().to_text(),
        "Parse error: Unexpected EOF (line 1, column 6)"
    );
}

#[test]
fn parse_error_holds_its_message() {
    let e = ParseError::new("something");
    assert_eq!(e.to_text(), "Parse error: something");
    assert_eq!(e.clone().to_text(), "Parse error: something");
    assert_eq!(ParseError::new("").to_text(), "Parse error: ");
}

#[test]
fn parser_takes_tokens_as_they_are() {
    let tokens = vec![
        Token::LParen,
        Token::Float(float(2.5)),
        Token::String("s".to_string()),
        Token::RParen,
    ];
    assert_eq!(
        parse_tokens(&tokens).unwrap(),
        Object::List(vec![Object::Float(float(2.5)), Object::String("s".to_string())])
    );
    let broken = vec![Token::LParen, Token::LexerError("bad".to_string()), Token::RParen];
    assert_eq!(parse_tokens(&broken).unwrap_err().to_text(), "Parse error: bad");
}

/// The tokens that spell a tree.
fn spell(tree: &Object, out: &mut Vec<Token>) {
    match tree {
        Object::Integer(n) => out.push(Token::Integer(*n)),
        Object::Float(f) => out.push(Token::Float(f.clone())),
        Object::String(s) => out.push(Token::String(s.clone())),
        Object::Symbol(s) => out.push(Token::Symbol(s.clone())),
        Object::List(items) => {
            out.push(Token::LParen);
            for item in items {
                spell(item, out);
            }
            out.push(Token::RParen);
        }
        other => panic!("no program text: {:?}", other),
    }
}

#[test]
fn spelled_tree_is_read_back() {
    let tree = Object::List(vec![
        symbol("define"),
        symbol("f"),
        Object::List(vec![
            symbol("lambda"),
            Object::List(vec![symbol("a"), symbol("b")]),
            Object::List(vec![
                symbol("+"),
                Object::Integer(-1),
                Object::List(vec![]),
                Object::Float(float(0.5)),
                Object::String("s (t)".to_string()),
            ]),
        ]),
    ]);
    let mut tokens = Vec::new();
    spell(&tree, &mut tokens);
    assert_eq!(parse_tokens(&tokens).unwrap(), tree);
    // Whatever follows the tree makes no difference.
    tokens.push(Token::RParen);
    tokens.push(Token::LexerError("late".to_string()));
    assert_eq!(parse_tokens(&tokens).unwrap(), tree);
    // And the text of the tree spells the same tokens.
    let mut again = Vec::new();
    spell(&parse(&tree.to_text()).unwrap(), &mut again);
    tokens.truncate(again.len());
    assert_eq!(again, tokens);
}

#[test]
fn texts_in_the_message_are_quoted_with_escapes() {
    assert_eq!(
        parse("a\"b\"").unwrap_err().to_text(),
        "Parse error: Excepted Left Paren, found Some(LexerError(\"Unexpected character \\\" (line 1, column 2)\"))"
    );
    assert_eq!(
        parse("\"a\\b\nc\td\" (1)").unwrap_err().to_text(),
        "Parse error: Excepted Left Paren, found Some(String(\"a\\\\b\\nc\\td\"))"
    );
    assert_eq!(
        parse("back\\slash").unwrap_err().to_text(),
        format!(
            "Parse error: Excepted Left Paren, found Some(Symbol({:?}))",
            "back\\slash"
        )
    );
    assert_eq!(
        parse("caf\u{e9}\u{200b}").unwrap_err().to_text(),
        format!(
            "Parse error: Excepted Left Paren, found Some(Symbol({:?}))",
            "caf\u{e9}\u{200b}"
        )
    );
}

#[test]
fn printed_tree_is_read_back() {
    let tree = Object::List(vec![
        symbol("define"),
        symbol("f"),
        Object::List(vec![
            symbol("lambda"),
            Object::List(vec![symbol("a"), symbol("b")]),
            Object::List(vec![
                symbol("+-"),
                Object::Integer(-12),
                Object::List(vec![]),
                Object::Integer(i64::MIN),
                Object::String("s (t)\n u".to_string()),
                Object::List(vec![Object::List(vec![Object::Integer(0)])]),
            ]),
        ]),
    ]);
    let text = tree.to_text();
    assert_eq!(
        text,
        "(define f (lambda (a b) (+- -12 () -9223372036854775808 \"s (t)\n u\" ((0)))))"
    );
    // No host is needed: the tree holds no float.
    assert_eq!(parse_tokens(&words(&text)).unwrap(), tree);
    assert_eq!(parse_tokens(&words(&text)).unwrap().to_text(), text);
}
