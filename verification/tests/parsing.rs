use str_match::descriptor::Capture;
use str_match::descriptor::PatternDescriptor;
use str_match::grammar::PatternError;
use str_match::parser::parse_str_pattern;

fn named(name: &str) -> Capture {
    Capture::Named(name.to_string())
}

#[test]
fn plain_text_is_a_single() {
    assert_eq!(parse_str_pattern("a"), Ok(PatternDescriptor::Single(vec![97])));
    assert_eq!(parse_str_pattern("abc"), Ok(PatternDescriptor::Single(b"abc".to_vec())));
}

#[test]
fn empty_pattern_is_an_empty_single() {
    assert_eq!(parse_str_pattern(""), Ok(PatternDescriptor::Single(vec![])));
}

#[test]
fn doubled_open_brace_is_one_brace() {
    assert_eq!(parse_str_pattern("{{"), Ok(PatternDescriptor::Single(vec![123])));
}

#[test]
fn doubled_close_brace_is_one_brace() {
    assert_eq!(parse_str_pattern("}}"), Ok(PatternDescriptor::Single(vec![125])));
}

#[test]
fn doubled_braces_inside_text() {
    assert_eq!(
        parse_str_pattern("a{{b}}c"),
        Ok(PatternDescriptor::Single(b"a{b}c".to_vec()))
    );
    assert_eq!(parse_str_pattern("{{}}"), Ok(PatternDescriptor::Single(b"{}".to_vec())));
}

#[test]
fn capture_between_text() {
    assert_eq!(
        parse_str_pattern("a{b}c"),
        Ok(PatternDescriptor::Triple(vec![97], named("b"), vec![99]))
    );
    assert_eq!(
        parse_str_pattern("abc{x}ghi"),
        Ok(PatternDescriptor::Triple(b"abc".to_vec(), named("x"), b"ghi".to_vec()))
    );
}

#[test]
fn capture_at_the_end() {
    assert_eq!(
        parse_str_pattern("aaa{x}"),
        Ok(PatternDescriptor::Triple(b"aaa".to_vec(), named("x"), vec![]))
    );
}

#[test]
fn capture_alone() {
    assert_eq!(
        parse_str_pattern("{d}"),
        Ok(PatternDescriptor::Triple(vec![], named("d"), vec![]))
    );
}

#[test]
fn underscore_is_a_wildcard() {
    assert_eq!(
        parse_str_pattern("{_}"),
        Ok(PatternDescriptor::Triple(vec![], Capture::Wild, vec![]))
    );
    assert_eq!(
        parse_str_pattern("abc{_}ghi"),
        Ok(PatternDescriptor::Triple(b"abc".to_vec(), Capture::Wild, b"ghi".to_vec()))
    );
}

#[test]
fn name_that_starts_with_underscore_is_a_name() {
    assert_eq!(
        parse_str_pattern("{_x}"),
        Ok(PatternDescriptor::Triple(vec![], named("_x"), vec![]))
    );
}

#[test]
fn capture_between_escaped_braces() {
    assert_eq!(
        parse_str_pattern("{{{x}}}"),
        Ok(PatternDescriptor::Triple(vec![123], named("x"), vec![125]))
    );
}

#[test]
fn longer_name_is_kept_whole() {
    assert_eq!(
        parse_str_pattern("id={user_id};"),
        Ok(PatternDescriptor::Triple(b"id=".to_vec(), named("user_id"), b";".to_vec()))
    );
}

#[test]
fn text_outside_ascii_is_kept_as_utf8() {
    assert_eq!(
        parse_str_pattern("é{x}日本"),
        Ok(PatternDescriptor::Triple(
            "é".as_bytes().to_vec(),
            named("x"),
            "日本".as_bytes().to_vec()
        ))
    );
    assert_eq!(
        parse_str_pattern("a{名}b"),
        Ok(PatternDescriptor::Triple(vec![97], named("名"), vec![98]))
    );
    assert_eq!(
        parse_str_pattern("ü{{}}"),
        Ok(PatternDescriptor::Single("ü{}".as_bytes().to_vec()))
    );
}

#[test]
fn lone_close_brace_is_unmatched() {
    assert_eq!(parse_str_pattern("}"), Err(PatternError::UnmatchedClose));
    assert_eq!(parse_str_pattern("a}b"), Err(PatternError::UnmatchedClose));
    assert_eq!(parse_str_pattern("a}{x}"), Err(PatternError::UnmatchedClose));
    assert_eq!(parse_str_pattern("}}}"), Err(PatternError::UnmatchedClose));
}

#[test]
fn close_brace_at_the_end_is_unmatched() {
    assert_eq!(parse_str_pattern("abc}"), Err(PatternError::UnmatchedClose));
}

#[test]
fn close_brace_after_capture_is_unmatched() {
    assert_eq!(parse_str_pattern("{a}b}c"), Err(PatternError::UnmatchedClose));
    assert_eq!(parse_str_pattern("{a}}"), Err(PatternError::UnmatchedClose));
}

#[test]
fn empty_capture_is_rejected() {
    assert_eq!(parse_str_pattern("{}"), Err(PatternError::EmptyCapture));
    assert_eq!(parse_str_pattern("a{}b"), Err(PatternError::EmptyCapture));
}

#[test]
fn open_brace_without_close_is_unterminated() {
    assert_eq!(parse_str_pattern("{"), Err(PatternError::Unterminated));
    assert_eq!(parse_str_pattern("abc{"), Err(PatternError::Unterminated));
    assert_eq!(parse_str_pattern("a{bc"), Err(PatternError::Unterminated));
    assert_eq!(parse_str_pattern("{{{"), Err(PatternError::Unterminated));
}

#[test]
fn second_capture_is_a_duplicate() {
    assert_eq!(parse_str_pattern("{a}{b}"), Err(PatternError::DuplicateCapture));
    assert_eq!(parse_str_pattern("x{a}y{b}z"), Err(PatternError::DuplicateCapture));
    assert_eq!(parse_str_pattern("{a}{_}"), Err(PatternError::DuplicateCapture));
}

#[test]
fn open_brace_after_capture_is_a_duplicate() {
    assert_eq!(parse_str_pattern("{a}{"), Err(PatternError::DuplicateCapture));
    assert_eq!(parse_str_pattern("{a}b{c"), Err(PatternError::DuplicateCapture));
    assert_eq!(parse_str_pattern("{a}{}"), Err(PatternError::DuplicateCapture));
}

#[test]
fn first_error_from_the_left_wins() {
    assert_eq!(parse_str_pattern("}{"), Err(PatternError::UnmatchedClose));
    assert_eq!(parse_str_pattern("{a}}{b}"), Err(PatternError::UnmatchedClose));
    assert_eq!(parse_str_pattern("{a}{b}}"), Err(PatternError::DuplicateCapture));
}

#[test]
fn messages_are_fixed() {
    assert_eq!(
        PatternError::UnmatchedClose.message(),
        "str-match: invalid format string: unmatched `}` found\nif you intended to match `}`, you can escape it using `}}`"
    );
    assert_eq!(
        PatternError::EmptyCapture.message(),
        "str-match: invalid format string: expected identity but `}` found\nif you intended to match `{}`, you can escape it using `{{}}`"
    );
    assert_eq!(
        PatternError::Unterminated.message(),
        "str-match: invalid format string: expected `'}'` but string was terminated\nif you intended to match `{`, you can escape it using `{{`"
    );
    assert_eq!(
        PatternError::DuplicateCapture.message(),
        "`{}` can only be used once per str pattern"
    );
}
