use str_match::any::str_matches;
use str_match::descriptor::Capture;
use str_match::descriptor::PatternDescriptor;
use str_match::grammar::PatternError;
use str_match::parser::parse_str_pattern;

fn compiled(pattern: &str) -> PatternDescriptor {
    parse_str_pattern(pattern).unwrap()
}

fn captured<'a>(pattern: &str, subject: &'a str) -> Option<&'a str> {
    let (start, end) = compiled(pattern).capture_range(subject.as_bytes())?;
    Some(&subject[start..end])
}

#[test]
fn exact_pattern_matches_only_itself() {
    let d = compiled("abc");
    assert!(d.matches(b"abc"));
    assert!(!d.matches(b"ab"));
    assert!(!d.matches(b"abcd"));
    assert!(!d.matches(b"abd"));
    assert!(!d.matches(b""));
}

#[test]
fn escaped_pattern_matches_its_unescaped_text() {
    let d = compiled("a{{b}}");
    assert!(d.matches(b"a{b}"));
    assert!(!d.matches(b"a{{b}}"));
}

#[test]
fn empty_pattern_matches_the_empty_subject() {
    let d = compiled("");
    assert!(d.matches(b""));
    assert!(!d.matches(b"a"));
}

#[test]
fn capture_in_the_middle() {
    assert!(compiled("abc{x}ghi").matches(b"abcdefghi"));
    assert_eq!(captured("abc{x}ghi", "abcdefghi"), Some("def"));
}

#[test]
fn capture_at_the_end_takes_the_rest() {
    assert!(compiled("aaa{x}").matches(b"aaabbbccc"));
    assert_eq!(captured("aaa{x}", "aaabbbccc"), Some("bbbccc"));
}

#[test]
fn capture_between_braces() {
    assert!(compiled("{{{x}}}").matches(b"{000}"));
    assert_eq!(captured("{{{x}}}", "{000}"), Some("000"));
}

#[test]
fn subject_without_the_prefix_does_not_match() {
    assert!(!compiled("abc{x}ghi").matches(b"xyz"));
    assert_eq!(captured("abc{x}ghi", "xyz"), None);
    assert!(!compiled("aaa{x}").matches(b"xyz"));
    assert!(!compiled("{{{x}}}").matches(b"xyz"));
}

#[test]
fn capture_may_be_empty() {
    assert_eq!(captured("abc{x}ghi", "abcghi"), Some(""));
    assert_eq!(compiled("abc{x}ghi").capture_range(b"abcghi"), Some((3, 3)));
}

#[test]
fn prefix_and_suffix_may_not_overlap() {
    assert!(!compiled("aba{x}aba").matches(b"ababa"));
    assert!(!compiled("ab{x}bc").matches(b"abc"));
    assert!(compiled("ab{x}bc").matches(b"abbc"));
}

#[test]
fn capture_alone_matches_everything() {
    assert_eq!(captured("{d}", ""), Some(""));
    assert_eq!(captured("{d}", "anything"), Some("anything"));
}

#[test]
fn capture_range_gives_the_byte_indices() {
    assert_eq!(compiled("abc{x}ghi").capture_range(b"abcdefghi"), Some((3, 6)));
    assert_eq!(compiled("abc").capture_range(b"abc"), None);
    assert_eq!(compiled("é{x}é").capture_range("éabé".as_bytes()), Some((2, 4)));
}

#[test]
fn hand_made_descriptor_matches_like_a_parsed_one() {
    let d = PatternDescriptor::Triple(b"ab".to_vec(), Capture::Wild, b"yz".to_vec());
    assert!(d.matches(b"ab--yz"));
    assert!(!d.matches(b"ab--y"));
    assert_eq!(d.capture_range(b"ab--yz"), Some((2, 4)));
}

#[test]
fn any_of_several_patterns() {
    let patterns = ["abc{_}ghi", "aaa{_}", "{{{_}}}"];
    assert_eq!(str_matches("xyz", &patterns), Ok(false));
    assert_eq!(str_matches("abcdefghi", &patterns), Ok(true));
    assert_eq!(str_matches("aaabbbccc", &patterns), Ok(true));
    assert_eq!(str_matches("{000}", &patterns), Ok(true));
}

#[test]
fn no_pattern_matches_nothing() {
    assert_eq!(str_matches("xyz", &[]), Ok(false));
}

#[test]
fn a_bad_pattern_fails_even_behind_a_match() {
    assert_eq!(str_matches("abc", &["abc", "{"]), Err(PatternError::Unterminated));
    assert_eq!(
        str_matches("abc", &["a}", "{"]),
        Err(PatternError::UnmatchedClose)
    );
}

#[test]
fn capture_hands_out_the_text_in_the_middle() {
    assert_eq!(compiled("abc{x}ghi").capture("abcdefghi"), Some("def"));
    assert_eq!(compiled("aaa{x}").capture("aaabbbccc"), Some("bbbccc"));
    assert_eq!(compiled("{{{x}}}").capture("{000}"), Some("000"));
    assert_eq!(compiled("abc{x}ghi").capture("xyz"), None);
    assert_eq!(compiled("abc{_}ghi").capture("abcdefghi"), Some("def"));
    assert_eq!(compiled("abc").capture("abc"), None);
}

#[test]
fn capture_of_text_outside_ascii() {
    assert_eq!(compiled("é{x}é").capture("é日本é"), Some("日本"));
    assert_eq!(compiled("日{x}").capture("日本"), Some("本"));
    assert_eq!(compiled("{x}本").capture("日本"), Some("日"));
    assert_eq!(compiled("a{x}").capture("a\u{10348}"), Some("\u{10348}"));
}

#[test]
fn capture_never_cuts_a_character() {
    let first_byte = PatternDescriptor::Triple(vec![0xc3], Capture::Wild, vec![]);
    assert!(first_byte.matches("é".as_bytes()));
    assert_eq!(first_byte.capture("é"), None);
    let last_byte = PatternDescriptor::Triple(vec![], Capture::Wild, vec![0xa9]);
    assert!(last_byte.matches("é".as_bytes()));
    assert_eq!(last_byte.capture("é"), None);
}
