use mvr::matching_pattern::{Element, ParserImpl, ParsingError, Pattern, Token};

#[test]
fn parser_wildcard_pattern() {
    let expected = Pattern {
        elements: vec![
            Element::Token(Token::Text(String::from("foo"))),
            Element::Token(Token::Wildcard),
            Element::Token(Token::Text(String::from(".bar"))),
        ],
    };

    let actual = ParserImpl::new().parse("foo*.bar").unwrap();

    assert_eq!(expected, actual);
}

#[test]
fn parser_wildcard_pattern_inside_capture_group() {
    let expected = Pattern {
        elements: vec![
            Element::Token(Token::Text(String::from("foo"))),
            Element::Group(vec![Token::Wildcard]),
            Element::Token(Token::Text(String::from(".bar"))),
        ],
    };

    let actual = ParserImpl::new().parse("foo(*).bar").unwrap();

    assert_eq!(expected, actual);
}

#[test]
fn parser_fixed_length_pattern() {
    let expected = Pattern {
        elements: vec![
            Element::Token(Token::Text(String::from("foo_"))),
            Element::Token(Token::FixedLength(2)),
            Element::Token(Token::Text(String::from(".bar"))),
        ],
    };

    let actual = ParserImpl::new().parse("foo_??.bar").unwrap();

    assert_eq!(expected, actual);
}

#[test]
fn parser_text_only() {
    let expected = Pattern {
        elements: vec![Element::Token(Token::Text(String::from("foo.bar")))],
    };

    let actual = ParserImpl::new().parse("foo.bar").unwrap();

    assert_eq!(expected, actual);
}

#[test]
fn parser_wildcard_and_fixed_length_token_in_capture_group() {
    let expected = Pattern {
        elements: vec![
            Element::Token(Token::Text(String::from("foo_"))),
            Element::Group(vec![
                Token::FixedLength(2),
                Token::Text(String::from(".")),
                Token::Wildcard,
            ]),
        ],
    };

    let actual = ParserImpl::new().parse("foo_(??.*)").unwrap();

    assert_eq!(expected, actual);
}

#[test]
fn parser_fails_with_mismatched_grouping() {
    let expected = ParsingError::InvalidSyntax;

    let actual = ParserImpl::new().parse("foo_(??.*").unwrap_err();

    assert_eq!(expected, actual);
}

#[test]
fn parser_fails_with_repeated_wildcards_1() {
    let expected = ParsingError::InvalidSyntax;

    let actual = ParserImpl::new().parse("foo_*(*).bar").unwrap_err();

    assert_eq!(expected, actual);
}

#[test]
fn parser_fails_with_repeated_wildcards_2() {
    let expected = ParsingError::InvalidSyntax;

    let actual = ParserImpl::new().parse("foo_**.bar").unwrap_err();

    assert_eq!(expected, actual);
}

#[test]
fn parser_fails_with_repeated_wildcards_3() {
    let expected = ParsingError::InvalidSyntax;

    let actual = ParserImpl::new().parse("foo_(*)*.bar").unwrap_err();

    assert_eq!(expected, actual);
}

#[test]
fn parser_fails_with_repeated_wildcards_4() {
    let expected = ParsingError::InvalidSyntax;

    let actual = ParserImpl::new().parse("foo_(*)(*).bar").unwrap_err();

    assert_eq!(expected, actual);
}

#[test]
fn parser_fails_with_repeated_wildcards_5() {
    let expected = ParsingError::InvalidSyntax;

    let actual = ParserImpl::new().parse("foo_(**).bar").unwrap_err();

    assert_eq!(expected, actual);
}

#[test]
fn parser_fails_with_repeated_wildcards_6() {
    let expected = ParsingError::InvalidSyntax;

    let actual = ParserImpl::new().parse("foo_(*??*).bar").unwrap_err();

    assert_eq!(expected, actual);
}

#[test]
fn parser_fails_with_repeated_wildcards_7() {
    let expected = ParsingError::InvalidSyntax;

    let actual = ParserImpl::new().parse("foo_(*??)*.bar").unwrap_err();

    assert_eq!(expected, actual);
}

#[test]
fn parser_fails_with_repeated_wildcards_8() {
    let expected = ParsingError::InvalidSyntax;

    let actual = ParserImpl::new().parse("foo_*??*.bar").unwrap_err();

    assert_eq!(expected, actual);
}
