use highlight_check::flatten::{flatten, HighlightSpan, ScopeEvent};
use highlight_check::parse::{parse, Assertion};
use highlight_check::position::SourcePosition;
use highlight_check::report::{all_passed, evaluate, verify, Outcome};

fn b(s: &str) -> Vec<u8> {
    s.as_bytes().to_vec()
}

fn pos(row: usize, column: usize) -> SourcePosition {
    SourcePosition { row, column }
}

fn open(row: usize, column: usize, name: &str) -> ScopeEvent {
    ScopeEvent::Open { position: pos(row, column), name: b(name) }
}

fn close(row: usize, column: usize) -> ScopeEvent {
    ScopeEvent::Close { position: pos(row, column) }
}

fn assertion(row: usize, column: usize, name: &str) -> Assertion {
    Assertion { position: SourcePosition { row, column }, expected_capture_name: b(name) }
}

fn basic_source() -> Vec<u8> {
    b(&[
        "var abc = function(d) {",
        "  // ^ function",
        "  //       ^ keyword",
        "  return d + e;",
        "  //     ^ variable.parameter",
        "};",
    ]
    .join("\n"))
}

/// Events mirroring what a highlighter reports for `basic_source`:
/// `var` and `function` and `return` as keyword, `abc` as function,
/// both `d`s as variable.parameter.
fn basic_events() -> Vec<ScopeEvent> {
    vec![
        open(0, 0, "keyword"),
        close(0, 3),
        open(0, 4, "function"),
        close(0, 7),
        open(0, 10, "keyword"),
        close(0, 18),
        open(0, 19, "variable.parameter"),
        close(0, 20),
        open(3, 2, "keyword"),
        close(3, 8),
        open(3, 9, "variable.parameter"),
        close(3, 10),
    ]
}

fn basic_table() -> Vec<Vec<u8>> {
    vec![b("variable.parameter"), b("keyword"), b("function")]
}

#[test]
fn basic_scenario_passes_every_assertion() {
    let outcomes =
        evaluate(&basic_source(), &b("//"), &basic_events(), &basic_table()).unwrap();
    assert_eq!(outcomes, vec![Outcome::Pass, Outcome::Pass, Outcome::Pass]);
    assert!(all_passed(&outcomes));
}

#[test]
fn dropping_a_capture_from_the_table_unhighlights_its_span() {
    // Without "function" (and with no ancestor of it declared), the span
    // over `abc` is dropped, so the assertion at (0, 5) finds no span.
    let table = vec![b("variable.parameter"), b("keyword")];
    let outcomes = evaluate(&basic_source(), &b("//"), &basic_events(), &table).unwrap();
    assert_eq!(
        outcomes,
        vec![
            Outcome::UnhighlightedPosition { position: pos(0, 5) },
            Outcome::Pass,
            Outcome::Pass,
        ]
    );
    assert!(!all_passed(&outcomes));
}

#[test]
fn verify_reports_one_outcome_per_assertion_in_order() {
    let table = vec![b("keyword"), b("function")];
    let spans = vec![
        HighlightSpan { start: pos(0, 0), end: pos(0, 3), capture_id: 0 },
        HighlightSpan { start: pos(0, 4), end: pos(0, 7), capture_id: 1 },
    ];
    let assertions = vec![
        assertion(0, 1, "keyword"),
        assertion(0, 5, "keyword"),
        assertion(0, 9, "keyword"),
        assertion(0, 2, "keyword"),
    ];
    let outcomes = verify(&assertions, &spans, &table);
    assert_eq!(
        outcomes,
        vec![
            Outcome::Pass,
            Outcome::CaptureMismatch {
                position: pos(0, 5),
                expected: b("keyword"),
                actual: b("function"),
            },
            Outcome::UnhighlightedPosition { position: pos(0, 9) },
            Outcome::Pass,
        ]
    );
}

#[test]
fn span_boundaries_are_half_open() {
    let table = vec![b("keyword")];
    let spans = vec![HighlightSpan { start: pos(0, 2), end: pos(0, 4), capture_id: 0 }];
    let assertions = vec![
        assertion(0, 2, "keyword"),
        assertion(0, 3, "keyword"),
        assertion(0, 4, "keyword"),
    ];
    let outcomes = verify(&assertions, &spans, &table);
    assert_eq!(
        outcomes,
        vec![
            Outcome::Pass,
            Outcome::Pass,
            Outcome::UnhighlightedPosition { position: pos(0, 4) },
        ]
    );
}

#[test]
fn malformed_annotation_aborts_evaluation() {
    let source = b("// ^ keyword\nvar x;");
    let result = evaluate(&source, &b("//"), &basic_events(), &basic_table());
    assert!(result.is_err());
}

#[test]
fn all_passed_on_empty_report() {
    assert!(all_passed(&vec![]));
}

#[test]
fn verify_on_no_spans_reports_unhighlighted() {
    let table = vec![b("keyword")];
    let assertions = vec![assertion(5, 1, "keyword")];
    let outcomes = verify(&assertions, &vec![], &table);
    assert_eq!(outcomes, vec![Outcome::UnhighlightedPosition { position: pos(5, 1) }]);
}

#[test]
fn flatten_feeds_verify_across_rows() {
    // One scope stays open across a row boundary; positions inside both
    // rows resolve to it.
    let table = vec![b("string")];
    let events = vec![open(0, 4, "string"), close(1, 3)];
    let spans = flatten(&events, &table);
    assert_eq!(
        spans,
        vec![HighlightSpan { start: pos(0, 4), end: pos(1, 3), capture_id: 0 }]
    );
    let assertions = vec![
        assertion(0, 9, "string"),
        assertion(1, 0, "string"),
        assertion(1, 3, "string"),
    ];
    let outcomes = verify(&assertions, &spans, &table);
    assert_eq!(
        outcomes,
        vec![
            Outcome::Pass,
            Outcome::Pass,
            Outcome::UnhighlightedPosition { position: pos(1, 3) },
        ]
    );
}
