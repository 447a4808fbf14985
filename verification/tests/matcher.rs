use mvr::matcher::{CaptureGroup, MatcherImpl};
use mvr::matching_pattern::{Element, Pattern, Token};

#[test]
fn parse_without_group_with_exact_match() {
    let expected = Ok(vec![]);

    let pattern = Pattern {
        elements: vec![Element::Token(Token::Text(String::from("foo")))],
    };

    let matcher = MatcherImpl::new(pattern);

    let actual = matcher.match_against("foo");

    assert_eq!(expected, actual)
}

#[test]
fn parse_without_group_without_exact_match() {
    let expected = Err(());

    let pattern = Pattern {
        elements: vec![Element::Token(Token::Text(String::from("foo")))],
    };

    let matcher = MatcherImpl::new(pattern);

    let actual = matcher.match_against("foo.bar");

    assert_eq!(expected, actual)
}

#[test]
fn parse_with_fixed_length() {
    let expected = Ok(vec![]);

    let pattern = Pattern {
        elements: vec![
            Element::Token(Token::Text(String::from("f"))),
            Element::Token(Token::FixedLength(2)),
        ],
    };

    let matcher = MatcherImpl::new(pattern);

    let actual = matcher.match_against("foo");

    assert_eq!(expected, actual)
}

#[test]
fn parse_with_fixed_length_inside_group() {
    let expected = Ok(vec![CaptureGroup {
        contents: String::from("oo"),
    }]);

    let pattern = Pattern {
        elements: vec![
            Element::Token(Token::Text(String::from("f"))),
            Element::Group(vec![Token::FixedLength(2)]),
        ],
    };

    let matcher = MatcherImpl::new(pattern);

    let actual = matcher.match_against("foo");

    assert_eq!(expected, actual)
}

#[test]
fn parse_with_wildcard() {
    let expected = Ok(vec![]);

    let pattern = Pattern {
        elements: vec![
            Element::Token(Token::Text(String::from("f"))),
            Element::Token(Token::Wildcard),
            Element::Token(Token::Text(String::from(".bar"))),
        ],
    };

    let matcher = MatcherImpl::new(pattern);

    let actual = matcher.match_against("foo.bar");

    assert_eq!(expected, actual)
}

#[test]
fn parse_with_wildcard_inside_group() {
    let expected = Ok(vec![CaptureGroup {
        contents: String::from("oo"),
    }]);

    let pattern = Pattern {
        elements: vec![
            Element::Token(Token::Text(String::from("f"))),
            Element::Group(vec![Token::Wildcard]),
            Element::Token(Token::Text(String::from(".bar"))),
        ],
    };

    let matcher = MatcherImpl::new(pattern);

    let actual = matcher.match_against("foo.bar");

    assert_eq!(expected, actual)
}

#[test]
fn matcher_parse_with_multiple_groups() {
    let expected = Ok(vec![
        CaptureGroup {
            contents: String::from("oo"),
        },
        CaptureGroup {
            contents: String::from("bar"),
        },
    ]);

    let pattern = Pattern {
        elements: vec![
            Element::Token(Token::Text(String::from("f"))),
            Element::Group(vec![Token::FixedLength(2)]),
            Element::Token(Token::Text(String::from("."))),
            Element::Group(vec![Token::Wildcard]),
        ],
    };

    let matcher = MatcherImpl::new(pattern);

    let actual = matcher.match_against("foo.bar");

    assert_eq!(expected, actual)
}

#[test]
fn wildcard_looks_ahead_for_all_following_tokens() {
    let expected = Ok(vec![CaptureGroup {
        contents: String::from("baz"),
    }]);

    let pattern = Pattern {
        elements: vec![
            Element::Token(Token::Wildcard),
            Element::Token(Token::Text(String::from("."))),
            Element::Group(vec![Token::Text(String::from("baz"))]),
        ],
    };

    let matcher = MatcherImpl::new(pattern);

    let actual = matcher.match_against("foo.bar.baz");

    assert_eq!(expected, actual)
}

#[test]
fn capture_group_with_multiple_tokens() {
    let expected = Ok(vec![CaptureGroup {
        contents: String::from("foo.bar"),
    }]);

    let pattern = Pattern {
        elements: vec![
            Element::Group(vec![Token::Wildcard, Token::Text(String::from(".bar"))]),
            Element::Token(Token::Text(String::from(".bar"))),
        ],
    };

    let matcher = MatcherImpl::new(pattern);

    let actual = matcher.match_against("foo.bar.bar");

    assert_eq!(expected, actual)
}

#[test]
fn fails_if_input_is_too_short() {
    let expected = Err(());

    let pattern = Pattern {
        elements: vec![Element::Token(Token::FixedLength(5))],
    };

    let matcher = MatcherImpl::new(pattern);

    let actual = matcher.match_against("foo");

    assert_eq!(expected, actual)
}
