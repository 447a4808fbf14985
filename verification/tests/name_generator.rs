use mvr::matcher::CaptureGroup;
use mvr::name_generator::{NameGeneratorError, NameGeneratorImpl};
use mvr::replacement_pattern::{Element, Pattern};

#[test]
fn works_with_text_only_pattern() {
    let pattern = Pattern {
        elements: vec![Element::Text(String::from("foo"))],
    };

    let name_generator = NameGeneratorImpl::new(pattern);
    let name = name_generator.generate_name(vec![]);

    assert_eq!("foo", name.unwrap());
}

#[test]
fn fails_with_missing_capture_group() {
    let pattern = Pattern {
        elements: vec![Element::CaptureGroup(2), Element::Text(String::from("foo"))],
    };

    let name_generator = NameGeneratorImpl::new(pattern);
    let name = name_generator.generate_name(vec![]);

    assert_eq!(
        NameGeneratorError::MissingCaptureGroup(2),
        name.unwrap_err()
    );
}

#[test]
fn works_with_single_capture_group() {
    let pattern = Pattern {
        elements: vec![Element::CaptureGroup(1), Element::Text(String::from("foo"))],
    };

    let name_generator = NameGeneratorImpl::new(pattern);
    let name = name_generator.generate_name(vec![
        CaptureGroup {
            contents: String::from("foo"),
        },
        CaptureGroup {
            contents: String::from("bar"),
        },
        CaptureGroup {
            contents: String::from("baz"),
        },
    ]);

    assert_eq!(String::from("barfoo"), name.unwrap());
}

#[test]
fn works_with_multiple_capture_groups() {
    let pattern = Pattern {
        elements: vec![
            Element::CaptureGroup(0),
            Element::Text(String::from("foo")),
            Element::CaptureGroup(1),
        ],
    };

    let name_generator = NameGeneratorImpl::new(pattern);
    let name = name_generator.generate_name(vec![
        CaptureGroup {
            contents: String::from("foo"),
        },
        CaptureGroup {
            contents: String::from("bar"),
        },
        CaptureGroup {
            contents: String::from("baz"),
        },
    ]);

    assert_eq!(String::from("foofoobar"), name.unwrap());
}

#[test]
fn works_with_capture_group_only() {
    let pattern = Pattern {
        elements: vec![Element::CaptureGroup(0)],
    };

    let name_generator = NameGeneratorImpl::new(pattern);
    let name = name_generator.generate_name(vec![CaptureGroup {
        contents: String::from("foo"),
    }]);

    assert_eq!(String::from("foo"), name.unwrap());
}
