use mvr::replacement_pattern::{Element, ParserImpl, ParsingError, Pattern};

#[test]
fn parse_with_text_only() {
    let expected = Pattern {
        elements: vec![Element::Text(String::from("foo.bar"))],
    };

    let actual = ParserImpl::new().parse("foo.bar").unwrap();

    assert_eq!(expected, actual);
}

#[test]
fn parse_with_group_only() {
    let expected = ParsingError::InvalidSyntax;

    let actual = ParserImpl::new().parse("$0").unwrap_err();

    assert_eq!(expected, actual);
}

#[test]
fn replacement_pattern_parse_with_multiple_groups() {
    let expected = Pattern {
        elements: vec![
            Element::Text(String::from("foo-")),
            Element::CaptureGroup(0),
            Element::Text(String::from(".")),
            Element::CaptureGroup(1),
        ],
    };

    let actual = ParserImpl::new().parse("foo-$1.$2").unwrap();

    assert_eq!(expected, actual);
}
