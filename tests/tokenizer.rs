use mongoexpand::{render_tokens, tokenize, tokenize_with_spans, Span, Token};

fn lit(s: &str) -> Token {
    Token::Literal(s.to_string())
}

fn other(s: &str) -> Token {
    Token::NonLiteral(s.to_string())
}

#[test]
fn tokenizes_every_kind() {
    let tokens = tokenize("a_b1 {x}$,:'\t\n-");
    assert_eq!(
        tokens,
        vec![
            lit("a_b1"),
            Token::OpenParentheses,
            lit("x"),
            Token::CloseParentheses,
            Token::Dollar,
            Token::Comma,
            Token::Colon,
            other("'"),
            other("-"),
        ]
    );
}

#[test]
fn empty_and_blank_text_have_no_tokens() {
    assert!(tokenize("").is_empty());
    assert!(tokenize(" \t\r\n\u{a0}\u{3000}").is_empty());
}

#[test]
fn non_ascii_characters_stand_alone() {
    assert_eq!(tokenize("aé1"), vec![lit("a"), other("é"), lit("1")]);
}

#[test]
fn spans_are_byte_ranges() {
    let (tokens, spans) = tokenize_with_spans("é{ ab }");
    assert_eq!(tokens.len(), 4);
    assert_eq!(spans[0], Span { start: 0, end: 2 });
    assert_eq!(spans[1], Span { start: 2, end: 3 });
    assert_eq!(spans[2], Span { start: 4, end: 6 });
    assert_eq!(spans[3], Span { start: 7, end: 8 });
}

#[test]
fn as_str_gives_each_token_text() {
    assert_eq!(lit("abc").as_str(), "abc");
    assert_eq!(other("'").as_str(), "'");
    assert_eq!(Token::OpenParentheses.as_str(), "{");
    assert_eq!(Token::CloseParentheses.as_str(), "}");
    assert_eq!(Token::Dollar.as_str(), "$");
    assert_eq!(Token::Comma.as_str(), ",");
    assert_eq!(Token::Colon.as_str(), ":");
}

#[test]
fn rendering_drops_whitespace() {
    let tokens = tokenize("{ $group: { _id: '$field' } }");
    assert_eq!(render_tokens(&tokens), "{$group:{_id:'$field'}}");
}

#[test]
fn retokenizing_rendered_text_gives_same_tokens() {
    for text in [
        "{ $group: { _id: '$field', cnt: { $sum: 1 } } }",
        "count:{ branch }",
        "db.find( x )",
        "",
    ] {
        let tokens = tokenize(text);
        assert_eq!(tokenize(&render_tokens(&tokens)), tokens);
    }
}

#[test]
fn adjacent_literals_merge_when_rendered() {
    let tokens = tokenize("a b");
    assert_eq!(tokens, vec![lit("a"), lit("b")]);
    assert_eq!(tokenize(&render_tokens(&tokens)), vec![lit("ab")]);
}

#[test]
fn tokenize_and_render_is_idempotent() {
    for text in ["a b", "x  :{ y z }\n$w", "é { } ,"] {
        let once = render_tokens(&tokenize(text));
        let twice = render_tokens(&tokenize(&once));
        assert_eq!(once, twice);
    }
    assert_eq!(render_tokens(&tokenize("x  :{ y z }\n$w")), "x:{yz}$w");
}
