use highlight_check::flatten::{flatten, HighlightSpan, ScopeEvent};
use highlight_check::position::SourcePosition;
use highlight_check::table::resolve_capture;

fn b(s: &str) -> Vec<u8> {
    s.as_bytes().to_vec()
}

fn pos(row: usize, column: usize) -> SourcePosition {
    SourcePosition { row, column }
}

fn open(row: usize, column: usize, name: &str) -> ScopeEvent {
    ScopeEvent::Open { position: pos(row, column), name: b(name) }
}

fn close(row: usize, column: usize) -> ScopeEvent {
    ScopeEvent::Close { position: pos(row, column) }
}

fn span(start: SourcePosition, end: SourcePosition, capture_id: usize) -> HighlightSpan {
    HighlightSpan { start, end, capture_id }
}

#[test]
fn fallback_resolves_to_nearest_declared_ancestor() {
    let table = vec![b("variable.parameter"), b("keyword")];
    assert_eq!(resolve_capture(&table, &b("variable.parameter.builtin")), Some(0));
    assert_eq!(resolve_capture(&table, &b("variable.parameter")), Some(0));
    assert_eq!(resolve_capture(&table, &b("keyword.operator.new")), Some(1));
    assert_eq!(resolve_capture(&table, &b("function.builtin")), None);
    assert_eq!(resolve_capture(&table, &b("variable")), None);
}

#[test]
fn flat_events_produce_flat_spans() {
    let table = vec![b("keyword"), b("function")];
    let events = vec![
        open(0, 0, "keyword"),
        close(0, 3),
        open(0, 4, "function"),
        close(0, 7),
    ];
    let spans = flatten(&events, &table);
    assert_eq!(spans, vec![span(pos(0, 0), pos(0, 3), 0), span(pos(0, 4), pos(0, 7), 1)]);
}

#[test]
fn nested_scopes_innermost_wins() {
    let table = vec![b("a"), b("a.b")];
    let events = vec![
        open(0, 0, "a"),
        open(0, 2, "a.b"),
        close(0, 4),
        close(0, 6),
    ];
    let spans = flatten(&events, &table);
    assert_eq!(
        spans,
        vec![
            span(pos(0, 0), pos(0, 2), 0),
            span(pos(0, 2), pos(0, 4), 1),
            span(pos(0, 4), pos(0, 6), 0),
        ]
    );
}

#[test]
fn adjacent_spans_with_equal_id_merge() {
    // "x.y" falls back to "x", so the two adjacent regions carry one id
    // and collapse into a single span.
    let table = vec![b("x")];
    let events = vec![
        open(0, 0, "x"),
        close(0, 3),
        open(0, 3, "x.y"),
        close(0, 6),
    ];
    let spans = flatten(&events, &table);
    assert_eq!(spans, vec![span(pos(0, 0), pos(0, 6), 0)]);
}

#[test]
fn undeclared_scopes_are_dropped() {
    let table = vec![b("keyword")];
    let events = vec![
        open(0, 0, "comment"),
        close(0, 4),
        open(0, 5, "keyword"),
        close(0, 8),
    ];
    let spans = flatten(&events, &table);
    assert_eq!(spans, vec![span(pos(0, 5), pos(0, 8), 0)]);
}

#[test]
fn zero_width_regions_are_dropped() {
    let table = vec![b("keyword")];
    let events = vec![open(1, 2, "keyword"), close(1, 2)];
    let spans = flatten(&events, &table);
    assert!(spans.is_empty());
}

#[test]
fn empty_event_stream_produces_no_spans() {
    let table = vec![b("keyword")];
    let spans = flatten(&vec![], &table);
    assert!(spans.is_empty());
}
