use str_match::arm::compile_arm;
use str_match::arm::str_match_impl;
use str_match::arm::CompiledArm;
use str_match::arm::CompiledMatch;
use str_match::arm::MatchArm;
use str_match::arm::MatchStatement;
use str_match::captures::order_names;
use str_match::captures::CaptureSet;
use str_match::captures::NameOrder;
use str_match::descriptor::Capture;
use str_match::grammar::PatternError;
use str_match::rewrite::convert_pat;
use str_match::tree::BytePattern;
use str_match::tree::CompileError;
use str_match::tree::ErrorKind;
use str_match::tree::PatternTree;
use str_match::vecs::reversed;

type Tree = PatternTree<&'static str, u32>;
type Bytes = BytePattern<&'static str, u32>;

fn lit(text: &str, span: u32) -> Tree {
    PatternTree::Literal { text: text.to_string(), span }
}

fn bind(name: &str, span: u32) -> Tree {
    PatternTree::Binding {
        name: name.to_string(),
        by_ref: false,
        mutable: false,
        subpattern: false,
        span,
    }
}

fn arm(pattern: Tree, guard: Option<&'static str>) -> MatchArm<&'static str, u32> {
    MatchArm { attrs: vec![], pattern, guard, body: "{}" }
}

fn done(
    pattern: Bytes,
    rebinds: &[&str],
    guard: Option<&'static str>,
) -> CompiledArm<&'static str, u32> {
    CompiledArm {
        attrs: vec![],
        pattern,
        rebinds: rebinds.iter().map(|s| s.to_string()).collect(),
        guard,
        body: "{}",
    }
}

fn split(prefix: &[u8], name: &str, suffix: &[u8], span: u32) -> Bytes {
    BytePattern::Split {
        prefix: prefix.to_vec(),
        capture: Capture::Named(name.to_string()),
        suffix: suffix.to_vec(),
        span,
    }
}

fn wild(prefix: &[u8], suffix: &[u8], span: u32) -> Bytes {
    BytePattern::Split {
        prefix: prefix.to_vec(),
        capture: Capture::Wild,
        suffix: suffix.to_vec(),
        span,
    }
}

fn names(set: CaptureSet) -> Vec<String> {
    set.into_sorted()
}

#[test]
fn test() {
    let statement = MatchStatement {
        subject: "a",
        arms: vec![
            arm(lit("a", 0), None),
            arm(lit("a{b}c", 1), None),
            arm(lit("{{", 2), None),
            arm(lit("}}", 3), None),
            arm(lit("{_}", 4), None),
            arm(lit("{d}", 5), Some("d.starts_with(\"e\")")),
            arm(bind("e", 6), None),
            arm(PatternTree::Opaque("_"), None),
        ],
    };
    assert_eq!(
        str_match_impl(statement),
        Ok(CompiledMatch {
            subject: "a",
            arms: vec![
                done(BytePattern::Exact(vec![97u8]), &[], None),
                done(split(&[97u8], "b", &[99u8], 1), &["b"], None),
                done(BytePattern::Exact(vec![123u8]), &[], None),
                done(BytePattern::Exact(vec![125u8]), &[], None),
                done(wild(&[], &[], 4), &[], None),
                done(split(&[], "d", &[], 5), &["d"], Some("d.starts_with(\"e\")")),
                done(BytePattern::Bind { name: "e".to_string(), span: 6 }, &["e"], None),
                done(BytePattern::Opaque("_"), &[], None),
            ],
        })
    );
}

#[test]
fn literal_without_capture_becomes_exact_bytes() {
    let mut set = CaptureSet::new();
    assert_eq!(convert_pat(lit("abc", 7), &mut set), Ok(BytePattern::Exact(b"abc".to_vec())));
    assert_eq!(names(set), Vec::<String>::new());
}

#[test]
fn named_capture_adds_its_name() {
    let mut set = CaptureSet::new();
    assert_eq!(convert_pat(lit("abc{x}ghi", 7), &mut set), Ok(split(b"abc", "x", b"ghi", 7)));
    assert!(set.contains("x"));
    assert_eq!(set.len(), 1);
}

#[test]
fn wildcard_capture_adds_nothing() {
    let mut set = CaptureSet::new();
    assert_eq!(convert_pat(lit("abc{_}ghi", 7), &mut set), Ok(wild(b"abc", b"ghi", 7)));
    assert_eq!(set.len(), 0);
}

#[test]
fn plain_binding_passes_and_adds_its_name() {
    let mut set = CaptureSet::new();
    assert_eq!(
        convert_pat(bind("rest", 3), &mut set),
        Ok(BytePattern::Bind { name: "rest".to_string(), span: 3 })
    );
    assert_eq!(names(set), vec!["rest".to_string()]);
}

#[test]
fn binding_with_a_modifier_is_rejected() {
    for (by_ref, mutable, subpattern) in [
        (true, false, false),
        (false, true, false),
        (false, false, true),
        (true, true, true),
    ] {
        let mut set = CaptureSet::new();
        let tree: Tree = PatternTree::Binding {
            name: "x".to_string(),
            by_ref,
            mutable,
            subpattern,
            span: 11,
        };
        assert_eq!(
            convert_pat(tree, &mut set),
            Err(CompileError { kind: ErrorKind::ComplexPattern, span: 11 })
        );
        assert_eq!(set.len(), 0);
    }
}

#[test]
fn opaque_pattern_passes_through() {
    let mut set = CaptureSet::new();
    let tree: Tree = PatternTree::Opaque("(a, b)");
    assert_eq!(convert_pat(tree, &mut set), Ok(BytePattern::Opaque("(a, b)")));
    assert_eq!(set.len(), 0);
}

#[test]
fn bad_literal_reports_its_own_place() {
    let mut set = CaptureSet::new();
    assert_eq!(
        convert_pat(lit("a}b", 42), &mut set),
        Err(CompileError { kind: ErrorKind::Pattern(PatternError::UnmatchedClose), span: 42 })
    );
    assert_eq!(
        convert_pat(lit("{a}{b}", 43), &mut set),
        Err(CompileError { kind: ErrorKind::Pattern(PatternError::DuplicateCapture), span: 43 })
    );
    assert_eq!(
        convert_pat(lit("{a", 44), &mut set),
        Err(CompileError { kind: ErrorKind::Pattern(PatternError::Unterminated), span: 44 })
    );
    assert_eq!(
        convert_pat(lit("{}", 45), &mut set),
        Err(CompileError { kind: ErrorKind::Pattern(PatternError::EmptyCapture), span: 45 })
    );
}

#[test]
fn or_group_unites_the_names_of_its_branches() {
    let mut set = CaptureSet::new();
    let tree: Tree = PatternTree::Or {
        leading_separator: false,
        branches: vec![lit("a{x}", 1), lit("b{y}", 2)],
    };
    assert_eq!(
        convert_pat(tree, &mut set),
        Ok(BytePattern::Or {
            leading_separator: false,
            branches: vec![split(b"a", "x", b"", 1), split(b"b", "y", b"", 2)],
        })
    );
    assert_eq!(names(set), vec!["x".to_string(), "y".to_string()]);
}

#[test]
fn or_group_keeps_order_and_leading_separator() {
    let mut set = CaptureSet::new();
    let tree: Tree = PatternTree::Or {
        leading_separator: true,
        branches: vec![lit("z", 1), PatternTree::Opaque("1"), lit("a", 2), bind("k", 3)],
    };
    assert_eq!(
        convert_pat(tree, &mut set),
        Ok(BytePattern::Or {
            leading_separator: true,
            branches: vec![
                BytePattern::Exact(vec![b'z']),
                BytePattern::Opaque("1"),
                BytePattern::Exact(vec![b'a']),
                BytePattern::Bind { name: "k".to_string(), span: 3 },
            ],
        })
    );
}

#[test]
fn nested_or_groups_are_rewritten_throughout() {
    let mut set = CaptureSet::new();
    let inner: Tree = PatternTree::Or {
        leading_separator: false,
        branches: vec![lit("{q}!", 2), lit("{p}?", 3)],
    };
    let tree: Tree = PatternTree::Or {
        leading_separator: false,
        branches: vec![lit("x{p}", 1), inner],
    };
    assert_eq!(
        convert_pat(tree, &mut set),
        Ok(BytePattern::Or {
            leading_separator: false,
            branches: vec![
                split(b"x", "p", b"", 1),
                BytePattern::Or {
                    leading_separator: false,
                    branches: vec![split(b"", "q", b"!", 2), split(b"", "p", b"?", 3)],
                },
            ],
        })
    );
    assert_eq!(names(set), vec!["p".to_string(), "q".to_string()]);
}

#[test]
fn or_group_fails_with_its_first_bad_branch() {
    let mut set = CaptureSet::new();
    let tree: Tree = PatternTree::Or {
        leading_separator: false,
        branches: vec![lit("a{x}", 1), lit("{", 2), lit("}", 3), lit("b{y}", 4)],
    };
    assert_eq!(
        convert_pat(tree, &mut set),
        Err(CompileError { kind: ErrorKind::Pattern(PatternError::Unterminated), span: 2 })
    );
    assert_eq!(names(set), vec!["x".to_string()]);
}

#[test]
fn names_already_in_the_set_stay() {
    let mut set = CaptureSet::new();
    set.insert("m".to_string());
    assert_eq!(convert_pat(lit("{a}", 1), &mut set), Ok(split(b"", "a", b"", 1)));
    assert_eq!(convert_pat(lit("{m}", 2), &mut set), Ok(split(b"", "m", b"", 2)));
    assert_eq!(names(set), vec!["a".to_string(), "m".to_string()]);
}

#[test]
fn arm_lists_its_names_sorted() {
    let pattern: Tree = PatternTree::Or {
        leading_separator: false,
        branches: vec![lit("{zeta}", 1), lit("{alpha}", 2), bind("mid", 3), lit("{alpha}!", 4)],
    };
    let compiled = compile_arm(MatchArm {
        attrs: vec!["#[allow(unused)]"],
        pattern,
        guard: Some("alpha.len() > 1"),
        body: "alpha",
    })
    .unwrap();
    assert_eq!(
        compiled.rebinds,
        vec!["alpha".to_string(), "mid".to_string(), "zeta".to_string()]
    );
    assert_eq!(compiled.attrs, vec!["#[allow(unused)]"]);
    assert_eq!(compiled.guard, Some("alpha.len() > 1"));
    assert_eq!(compiled.body, "alpha");
}

#[test]
fn arm_with_a_bad_pattern_fails() {
    assert_eq!(
        compile_arm(arm(lit("{a}{b}", 9), None)),
        Err(CompileError { kind: ErrorKind::Pattern(PatternError::DuplicateCapture), span: 9 })
    );
}

#[test]
fn statement_fails_with_its_first_bad_arm() {
    let statement = MatchStatement {
        subject: "s",
        arms: vec![
            arm(lit("ok{x}", 1), None),
            arm(
                PatternTree::Binding {
                    name: "r".to_string(),
                    by_ref: true,
                    mutable: false,
                    subpattern: false,
                    span: 2,
                },
                None,
            ),
            arm(lit("}", 3), None),
        ],
    };
    assert_eq!(
        str_match_impl(statement),
        Err(CompileError { kind: ErrorKind::ComplexPattern, span: 2 })
    );
}

#[test]
fn statement_without_arms_compiles_to_none() {
    let statement: MatchStatement<&'static str, u32> =
        MatchStatement { subject: "s", arms: vec![] };
    assert_eq!(str_match_impl(statement), Ok(CompiledMatch { subject: "s", arms: vec![] }));
}

#[test]
fn capture_set_keeps_names_once_and_sorted() {
    let mut set = CaptureSet::new();
    for name in ["b", "a", "c", "a", "ab", "B", "b"] {
        set.insert(name.to_string());
    }
    assert_eq!(set.len(), 5);
    assert!(set.contains("ab"));
    assert!(!set.contains("d"));
    assert_eq!(
        names(set),
        vec!["B".to_string(), "a".to_string(), "ab".to_string(), "b".to_string(), "c".to_string()]
    );
}

#[test]
fn names_are_ordered_as_strings_are() {
    let samples = ["", "a", "ab", "b", "B", "é", "z", "日本", "a日", "\u{10000}", "\u{ffff}"];
    for a in samples {
        for b in samples {
            let expected = if a < b {
                NameOrder::Before
            } else if a == b {
                NameOrder::Same
            } else {
                NameOrder::After
            };
            assert_eq!(order_names(a, b), expected);
        }
    }
}

#[test]
fn reversed_turns_a_vector_around() {
    assert_eq!(reversed(vec![1, 2, 3]), vec![3, 2, 1]);
    assert_eq!(reversed(Vec::<u8>::new()), Vec::<u8>::new());
}

#[test]
fn complex_pattern_message_is_fixed() {
    assert_eq!(
        ErrorKind::ComplexPattern.message(),
        "str-match: complex pattern is currently unsupported"
    );
    assert_eq!(
        ErrorKind::Pattern(PatternError::DuplicateCapture).message(),
        "`{}` can only be used once per str pattern"
    );
}
