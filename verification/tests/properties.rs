use mvr::matcher::{CaptureGroup, MatcherImpl};
use mvr::matching_pattern;
use mvr::name_generator::{NameGeneratorError, NameGeneratorImpl};
use mvr::renamer::{RenamerError, RenamerImpl};
use mvr::replacement_pattern;

fn matching(input: &str) -> matching_pattern::Pattern {
    matching_pattern::ParserImpl::new().parse(input).unwrap()
}

fn replacement(input: &str) -> replacement_pattern::Pattern {
    replacement_pattern::ParserImpl::new().parse(input).unwrap()
}

#[test]
fn fixed_length_group_captures_two_characters() {
    let matcher = MatcherImpl::new(matching("f(??)"));

    let actual = matcher.match_against("foo");

    assert_eq!(
        Ok(vec![CaptureGroup {
            contents: String::from("oo"),
        }]),
        actual
    );
}

#[test]
fn wildcard_outside_group_captures_nothing() {
    let matcher = MatcherImpl::new(matching("f*.bar"));

    let actual = matcher.match_against("foo.bar");

    assert_eq!(Ok(vec![]), actual);
}

#[test]
fn wildcard_lookahead_skips_past_first_occurrence() {
    let matcher = MatcherImpl::new(matching("(*.bar).bar"));

    let actual = matcher.match_against("foo.bar.bar");

    assert_eq!(
        Ok(vec![CaptureGroup {
            contents: String::from("foo.bar"),
        }]),
        actual
    );
}

#[test]
fn wildcard_takes_the_minimal_span_that_covers_the_rest() {
    let matcher = MatcherImpl::new(matching("f*o"));

    assert_eq!(Ok(vec![]), matcher.match_against("foo"));
}

#[test]
fn wildcard_skips_split_points_that_leave_input_uncovered() {
    let matcher = MatcherImpl::new(matching("*.bar"));

    assert_eq!(Ok(vec![]), matcher.match_against("x.bar.bar"));
    assert_eq!(Ok(vec![]), matcher.match_against("x.bar"));

    let suffix_matcher = MatcherImpl::new(matching("*a"));
    assert_eq!(Ok(vec![]), suffix_matcher.match_against("aba"));
}

#[test]
fn grouped_wildcard_captures_up_to_the_covering_split() {
    let matcher = MatcherImpl::new(matching("(*).bar"));

    assert_eq!(
        Ok(vec![CaptureGroup {
            contents: String::from("foo.bar"),
        }]),
        matcher.match_against("foo.bar.bar")
    );
}

#[test]
fn adjacent_wildcards_around_fixed_length_are_rejected() {
    assert_eq!(
        matching_pattern::ParsingError::InvalidSyntax,
        matching_pattern::ParserImpl::new().parse("*??*").unwrap_err()
    );
    assert_eq!(
        matching_pattern::ParsingError::InvalidSyntax,
        matching_pattern::ParserImpl::new().parse("(*)(*)").unwrap_err()
    );
    assert_eq!(
        matching_pattern::ParsingError::InvalidSyntax,
        matching_pattern::ParserImpl::new().parse("*(*)").unwrap_err()
    );
}

#[test]
fn reference_returns_group_content() {
    let generator = NameGeneratorImpl::new(replacement("$1"));

    let name = generator.generate_name(vec![CaptureGroup {
        contents: String::from("foo"),
    }]);

    assert_eq!(Ok(String::from("foo")), name);
}

#[test]
fn reference_without_group_reports_normalized_index() {
    let generator = NameGeneratorImpl::new(replacement("$1"));

    let name = generator.generate_name(vec![]);

    assert_eq!(Err(NameGeneratorError::MissingCaptureGroup(0)), name);
}

#[test]
fn text_only_pattern_matches_exactly_its_own_text() {
    let matcher = MatcherImpl::new(matching("foo.bar"));

    assert_eq!(Ok(vec![]), matcher.match_against("foo.bar"));
    assert_eq!(Err(()), matcher.match_against("foo.baz"));
    assert_eq!(Err(()), matcher.match_against("foo.bar2"));
    assert_eq!(Err(()), matcher.match_against(""));
}

#[test]
fn empty_matching_pattern_is_rejected() {
    assert_eq!(
        matching_pattern::ParsingError::InvalidSyntax,
        matching_pattern::ParserImpl::new().parse("").unwrap_err()
    );
}

#[test]
fn empty_group_and_stray_parens_are_rejected() {
    let parser = matching_pattern::ParserImpl::new();
    assert!(parser.parse("foo()").is_err());
    assert!(parser.parse("(").is_err());
    assert!(parser.parse("foo)bar").is_err());
    assert!(parser.parse("a((b))").is_err());
}

#[test]
fn as_glob_erases_group_boundaries() {
    assert_eq!(String::from("foo_??.*"), matching("foo_(??.*)").as_glob());
    assert_eq!(String::from("foo*.bar"), matching("foo(*).bar").as_glob());
    assert_eq!(String::from("foo.bar"), matching("foo.bar").as_glob());
}

#[test]
fn lone_wildcard_matches_everything_including_nothing() {
    let matcher = MatcherImpl::new(matching("*"));

    assert_eq!(Ok(vec![]), matcher.match_against(""));
    assert_eq!(Ok(vec![]), matcher.match_against("anything.at.all"));
}

#[test]
fn grouped_wildcard_can_capture_the_empty_string() {
    let matcher = MatcherImpl::new(matching("f(*)"));

    assert_eq!(
        Ok(vec![CaptureGroup {
            contents: String::from(""),
        }]),
        matcher.match_against("f")
    );
}

#[test]
fn fixed_length_counts_characters_not_bytes() {
    let matcher = MatcherImpl::new(matching("(??)"));

    assert_eq!(
        Ok(vec![CaptureGroup {
            contents: String::from("éé"),
        }]),
        matcher.match_against("éé")
    );
}

#[test]
fn replacement_reference_with_several_digits() {
    let expected = replacement_pattern::Pattern {
        elements: vec![replacement_pattern::Element::CaptureGroup(9)],
    };

    assert_eq!(expected, replacement("$10"));
}

#[test]
fn replacement_rejects_dangling_or_empty_references() {
    let parser = replacement_pattern::ParserImpl::new();
    assert!(parser.parse("$").is_err());
    assert!(parser.parse("a$b").is_err());
    assert!(parser.parse("").is_err());
    assert!(parser.parse("$$1").is_err());
    assert!(parser.parse("$99999999999999999999999999").is_err());
}

#[test]
fn replacement_reference_allows_leading_zeros() {
    let expected = replacement_pattern::Pattern {
        elements: vec![replacement_pattern::Element::CaptureGroup(0)],
    };

    assert_eq!(expected, replacement("$01"));
}

#[test]
fn replacement_mixes_text_and_references() {
    let expected = replacement_pattern::Pattern {
        elements: vec![
            replacement_pattern::Element::CaptureGroup(0),
            replacement_pattern::Element::Text(String::from("x")),
            replacement_pattern::Element::CaptureGroup(1),
        ],
    };

    assert_eq!(expected, replacement("$1x$2"));
}

#[test]
fn renamer_builds_the_new_name() {
    let matching_pattern = matching("(*).txt");
    let glob = matching_pattern.as_glob();
    let renamer = RenamerImpl::new(
        glob,
        MatcherImpl::new(matching_pattern),
        NameGeneratorImpl::new(replacement("$1.bak")),
    );

    assert_eq!(Ok(String::from("note.bak")), renamer.create_new_name("note.txt"));
    assert_eq!(String::from("*.txt"), renamer.matching_pattern_glob().clone());
}

#[test]
fn renamer_reports_match_failure() {
    let renamer = RenamerImpl::new(
        String::from("*.txt"),
        MatcherImpl::new(matching("(*).txt")),
        NameGeneratorImpl::new(replacement("$1.bak")),
    );

    assert_eq!(
        Err(RenamerError::MatcherError),
        renamer.create_new_name("note.pdf")
    );
}

#[test]
fn renamer_reports_missing_capture_group() {
    let renamer = RenamerImpl::new(
        String::from("*.txt"),
        MatcherImpl::new(matching("(*).txt")),
        NameGeneratorImpl::new(replacement("$2.bak")),
    );

    assert_eq!(
        Err(RenamerError::NameGeneratorError(
            NameGeneratorError::MissingCaptureGroup(1)
        )),
        renamer.create_new_name("note.txt")
    );
}

#[test]
fn group_spanning_several_tokens_concatenates_in_token_order() {
    let matcher = MatcherImpl::new(matching("IMG_(????_*).jpeg"));

    assert_eq!(
        Ok(vec![CaptureGroup {
            contents: String::from("2023_holiday"),
        }]),
        matcher.match_against("IMG_2023_holiday.jpeg")
    );
}

#[test]
fn full_pipeline_renames_a_batch_style_name() {
    let renamer = RenamerImpl::new(
        String::from("foo_??.bar"),
        MatcherImpl::new(matching("foo_(??).bar")),
        NameGeneratorImpl::new(replacement("bar_$1.foo")),
    );

    assert_eq!(
        Ok(String::from("bar_42.foo")),
        renamer.create_new_name("foo_42.bar")
    );
}
