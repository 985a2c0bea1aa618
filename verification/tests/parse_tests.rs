use highlight_check::parse::{parse, Assertion, MalformedAnnotation};
use highlight_check::position::SourcePosition;

fn b(s: &str) -> Vec<u8> {
    s.as_bytes().to_vec()
}

fn assertion(row: usize, column: usize, name: &str) -> Assertion {
    Assertion { position: SourcePosition { row, column }, expected_capture_name: b(name) }
}

#[test]
fn test_highlight_test_with_basic_test() {
    let source = [
        "var abc = function(d) {",
        "  // ^ function",
        "  //       ^ keyword",
        "  return d + e;",
        "  //     ^ variable.parameter",
        "};",
    ]
    .join("\n");
    let assertions = parse(&b(&source), &b("//")).unwrap();
    assert_eq!(
        assertions,
        vec![
            assertion(0, 5, "function"),
            assertion(0, 11, "keyword"),
            assertion(3, 9, "variable.parameter"),
        ]
    );
}

#[test]
fn parse_is_deterministic() {
    let source = b("let x = 1;\n// ^ keyword\n//    ^ variable");
    let first = parse(&source, &b("//")).unwrap();
    let second = parse(&source, &b("//")).unwrap();
    assert_eq!(first, second);
}

#[test]
fn no_annotations_yield_empty_list() {
    let source = b("fn main() {\n    let x = 1;\n}\n");
    let assertions = parse(&source, &b("//")).unwrap();
    assert!(assertions.is_empty());

    let empty = parse(&b(""), &b("//")).unwrap();
    assert!(empty.is_empty());
}

#[test]
fn plain_comments_are_not_annotations() {
    let source = b("let x = 1;\n// just a comment\n// another one");
    let assertions = parse(&source, &b("//")).unwrap();
    assert!(assertions.is_empty());
}

#[test]
fn consecutive_annotations_share_anchor() {
    let source = b("var abc = 1;\n// ^ keyword\n//  ^ other\n//      ^ third");
    let assertions = parse(&source, &b("//")).unwrap();
    assert_eq!(assertions.len(), 3);
    assert_eq!(assertions[0].position.row, 0);
    assert_eq!(assertions[1].position.row, 0);
    assert_eq!(assertions[2].position.row, 0);
    assert_eq!(assertions[0].position.column, 3);
    assert_eq!(assertions[1].position.column, 4);
    assert_eq!(assertions[2].position.column, 8);
}

#[test]
fn comment_between_code_and_annotation_is_inert() {
    let source = b("var abc = 1;\n// an inert comment\n// ^ keyword");
    let assertions = parse(&source, &b("//")).unwrap();
    assert_eq!(assertions, vec![assertion(0, 3, "keyword")]);
}

#[test]
fn caret_line_without_anchor_is_malformed() {
    let source = b("// ^ keyword\nvar abc = 1;");
    let err = parse(&source, &b("//")).unwrap_err();
    assert_eq!(err, MalformedAnnotation::MissingAnchor { row: 0 });

    let source = b("// inert comment\n// ^ keyword");
    let err = parse(&source, &b("//")).unwrap_err();
    assert_eq!(err, MalformedAnnotation::MissingAnchor { row: 1 });
}

#[test]
fn caret_line_without_name_is_malformed() {
    let source = b("var abc = 1;\n// ^   ");
    let err = parse(&source, &b("//")).unwrap_err();
    assert_eq!(err, MalformedAnnotation::MissingName { row: 1 });
}

#[test]
fn caret_column_is_measured_in_the_raw_line() {
    let source = b("let y = 0;\n    //   ^ number");
    let assertions = parse(&source, &b("//")).unwrap();
    assert_eq!(assertions, vec![assertion(0, 9, "number")]);
}

#[test]
fn caret_run_counts_as_one_assertion_at_its_first_caret() {
    let source = b("abcdef\n// ^^^ word");
    let assertions = parse(&source, &b("//")).unwrap();
    assert_eq!(assertions, vec![assertion(0, 3, "word")]);
}

#[test]
fn other_markers_are_respected() {
    let source = b("x = 1\n# ^ variable");
    let assertions = parse(&source, &b("#")).unwrap();
    assert_eq!(assertions, vec![assertion(0, 2, "variable")]);

    let with_hash_code = parse(&b("x = 1\n// ^ variable"), &b("#")).unwrap();
    assert!(with_hash_code.is_empty());
}

#[test]
fn marker_must_be_followed_by_whitespace_before_the_caret() {
    let source = b("x = 1\n//^ variable");
    let assertions = parse(&source, &b("//")).unwrap();
    assert!(assertions.is_empty());
}

#[test]
fn annotations_on_separate_code_lines_anchor_separately() {
    let source = b("first\n// ^ one\nsecond\n//  ^ two");
    let assertions = parse(&source, &b("//")).unwrap();
    assert_eq!(assertions, vec![assertion(0, 3, "one"), assertion(2, 4, "two")]);
}
