use vstd::prelude::*;
use crate::position::{pos_le, pos_lt, pos_before, SourcePosition};
use crate::table::{resolve_name, lemma_resolve_bounds};
use crate::table::resolve_capture;

verus! {

/// One boundary of a (possibly nested) highlight scope, as the external
/// highlighting engine reports it.
pub enum ScopeEvent {
    /// A scope with this capture name opens at `position`.
    Open { position: SourcePosition, name: Vec<u8> },
    /// The innermost open scope closes at `position`.
    Close { position: SourcePosition },
}

/// One resolved, non-empty region `[start, end)` of the flattened index,
/// labelled with an id into the capture table.
#[derive(Clone, Copy, Debug, PartialEq, Eq, Structural)]
pub struct HighlightSpan {
    pub start: SourcePosition,
    pub end: SourcePosition,
    pub capture_id: usize,
}

/// Mathematical model of a span still carrying its innermost capture name.
pub ghost struct RawSpan {
    pub start: SourcePosition,
    pub end: SourcePosition,
    pub name: Seq<u8>,
}

pub open spec fn event_position(e: ScopeEvent) -> SourcePosition {
    match e {
        ScopeEvent::Open { position, .. } => position,
        ScopeEvent::Close { position } => position,
    }
}

/// The scope stack after `e`: open pushes its name, close pops the
/// innermost one (and is ignored on an empty stack).
pub open spec fn event_stack(stack: Seq<Seq<u8>>, e: ScopeEvent) -> Seq<Seq<u8>> {
    match e {
        ScopeEvent::Open { name, .. } => stack.push(name@),
        ScopeEvent::Close { .. } => if stack.len() == 0 {
            stack
        } else {
            stack.drop_last()
        },
    }
}

/// The maximal regions on which the innermost open scope name is constant,
/// walking events from `i` with the given open-scope stack; the region that
/// began at `start` is closed at each boundary. Empty regions are dropped.
pub open spec fn raw_spans(
    events: Seq<ScopeEvent>,
    i: int,
    stack: Seq<Seq<u8>>,
    start: SourcePosition,
) -> Seq<RawSpan>
    decreases events.len() - i,
{
    if 0 <= i < events.len() {
        let p = event_position(events[i]);
        let emitted = if stack.len() > 0 && pos_lt(start, p) {
            seq![RawSpan { start, end: p, name: stack.last() }]
        } else {
            Seq::empty()
        };
        emitted + raw_spans(events, i + 1, event_stack(stack, events[i]), p)
    } else {
        Seq::empty()
    }
}

/// Map each raw span's innermost name to a table id by hierarchical
/// fallback; a span whose name resolves to no declared ancestor is dropped.
pub open spec fn resolve_spans(raw: Seq<RawSpan>, table: Seq<Seq<u8>>) -> Seq<HighlightSpan>
    decreases raw.len(),
{
    if raw.len() > 0 {
        let rest = resolve_spans(raw.drop_first(), table);
        match resolve_name(table, raw[0].name) {
            Some(id) => seq![
                HighlightSpan { start: raw[0].start, end: raw[0].end, capture_id: id as usize }
            ] + rest,
            None => rest,
        }
    } else {
        Seq::empty()
    }
}

/// Append one span, merging it into the accumulator's last span when the
/// two are adjacent and carry the same id.
pub open spec fn merge_step(acc: Seq<HighlightSpan>, s: HighlightSpan) -> Seq<HighlightSpan> {
    if acc.len() > 0 && acc.last().capture_id == s.capture_id && acc.last().end == s.start {
        acc.drop_last().push(
            HighlightSpan { start: acc.last().start, end: s.end, capture_id: s.capture_id },
        )
    } else {
        acc.push(s)
    }
}

pub open spec fn merge_from(spans: Seq<HighlightSpan>, i: int, acc: Seq<HighlightSpan>) -> Seq<
    HighlightSpan,
>
    decreases spans.len() - i,
{
    if 0 <= i < spans.len() {
        merge_from(spans, i + 1, merge_step(acc, spans[i]))
    } else {
        acc
    }
}

/// Adjacent spans that resolved to the same id, merged left to right.
pub open spec fn merge_spans(spans: Seq<HighlightSpan>) -> Seq<HighlightSpan> {
    merge_from(spans, 0, Seq::empty())
}

pub open spec fn origin() -> SourcePosition {
    SourcePosition { row: 0, column: 0 }
}

/// The full meaning of `flatten`: resolve the maximal constant-name regions
/// of the event stream and merge adjacent regions of equal id.
pub open spec fn spec_flatten(events: Seq<ScopeEvent>, table: Seq<Seq<u8>>) -> Seq<HighlightSpan> {
    merge_spans(resolve_spans(raw_spans(events, 0, Seq::empty(), origin()), table))
}

/// Event positions come in document order.
pub open spec fn sorted_events(events: Seq<ScopeEvent>) -> bool {
    forall|i: int, j: int|
        0 <= i < j < events.len() ==> pos_le(
            event_position(#[trigger] events[i]),
            event_position(#[trigger] events[j]),
        )
}

/// Every span's id indexes the capture table.
pub open spec fn span_ids_valid(spans: Seq<HighlightSpan>, table_len: int) -> bool {
    forall|k: int| 0 <= k < spans.len() ==> (#[trigger] spans[k].capture_id as int) < table_len
}

/// Spans are non-empty, pairwise disjoint, and sorted by start position.
pub open spec fn spans_ordered(spans: Seq<HighlightSpan>) -> bool {
    (forall|k: int|
        0 <= k < spans.len() ==> pos_lt(#[trigger] spans[k].start, spans[k].end)) && (forall|
        j: int,
        k: int,
    |
        0 <= j < k < spans.len() ==> pos_le(#[trigger] spans[j].end, #[trigger] spans[k].start))
}

/// A raw span as executable data.
struct RawSegment {
    start: SourcePosition,
    end: SourcePosition,
    name: Vec<u8>,
}

impl DeepView for RawSegment {
    type V = RawSpan;

    closed spec fn deep_view(&self) -> RawSpan {
        RawSpan { start: self.start, end: self.end, name: self.name@ }
    }
}

/// Walk the event stream once, emitting a raw span each time the innermost
/// open scope changes.
fn collect_raw_segments(events: &Vec<ScopeEvent>) -> (r: Vec<RawSegment>)
    ensures
        r.deep_view() == raw_spans(events@, 0, Seq::empty(), origin()),
{
    let ghost total = raw_spans(events@, 0, Seq::empty(), origin());
    let mut out: Vec<RawSegment> = Vec::new();
    let mut stack: Vec<Vec<u8>> = Vec::new();
    let mut start = SourcePosition { row: 0, column: 0 };
    let mut i: usize = 0;
    proof {
        assert(out.deep_view() =~~= Seq::<RawSpan>::empty());
        assert(stack.deep_view() =~~= Seq::<Seq<u8>>::empty());
    }
    while i < events.len()
        invariant
            i <= events.len(),
            total == out.deep_view() + raw_spans(events@, i as int, stack.deep_view(), start),
        decreases events.len() - i,
    {
        let ghost old_out = out.deep_view();
        let ghost old_stack = stack.deep_view();
        let ghost old_start = start;
        let ev = &events[i];
        let p = match ev {
            ScopeEvent::Open { position, .. } => *position,
            ScopeEvent::Close { position } => *position,
        };
        proof {
            assert(p == event_position(events@[i as int]));
        }
        let ghost emitted = if old_stack.len() > 0 && pos_lt(start, p) {
            seq![RawSpan { start, end: p, name: old_stack.last() }]
        } else {
            Seq::<RawSpan>::empty()
        };
        if stack.len() > 0 && pos_before(start, p) {
            let name = stack[stack.len() - 1].clone();
            proof {
                assert(name@ =~= old_stack.last());
            }
            out.push(RawSegment { start, end: p, name });
            proof {
                assert(out.deep_view() =~~= old_out + emitted);
            }
        } else {
            proof {
                assert(out.deep_view() =~~= old_out + emitted);
            }
        }
        match ev {
            ScopeEvent::Open { name, .. } => {
                let pushed = name.clone();
                proof {
                    assert(pushed@ =~= name@);
                }
                stack.push(pushed);
                proof {
                    assert(stack.deep_view() =~~= event_stack(old_stack, events@[i as int]));
                }
            },
            ScopeEvent::Close { .. } => {
                match stack.pop() {
                    Some(_) => {
                        proof {
                            assert(stack.deep_view() =~~= old_stack.drop_last());
                            assert(stack.deep_view() =~~= event_stack(
                                old_stack,
                                events@[i as int],
                            ));
                        }
                    },
                    None => {
                        proof {
                            assert(stack.deep_view() =~~= event_stack(
                                old_stack,
                                events@[i as int],
                            ));
                        }
                    },
                }
            },
        }
        start = p;
        i = i + 1;
        proof {
            let rest = raw_spans(events@, i as int, stack.deep_view(), p);
            assert(raw_spans(events@, i - 1, old_stack, old_start) == emitted + rest);
            assert((old_out + emitted) + rest =~~= old_out + (emitted + rest));
        }
    }
    out
}

/// Resolve each raw segment's name against the table, dropping segments
/// whose name has no declared ancestor.
fn resolve_segments(raw: &Vec<RawSegment>, table: &Vec<Vec<u8>>) -> (r: Vec<HighlightSpan>)
    ensures
        r@ == resolve_spans(raw.deep_view(), table.deep_view()),
        span_ids_valid(r@, table.deep_view().len() as int),
{
    let ghost rv = raw.deep_view();
    let ghost tv = table.deep_view();
    let mut out: Vec<HighlightSpan> = Vec::new();
    let mut j: usize = 0;
    proof {
        assert(rv.skip(0) =~= rv);
    }
    while j < raw.len()
        invariant
            j <= raw.len(),
            rv == raw.deep_view(),
            tv == table.deep_view(),
            rv.len() == raw@.len(),
            forall|q: int| 0 <= q < rv.len() ==> rv[q] == #[trigger] raw@[q].deep_view(),
            resolve_spans(rv, tv) == out@ + resolve_spans(rv.skip(j as int), tv),
            span_ids_valid(out@, tv.len() as int),
        decreases raw.len() - j,
    {
        let ghost old_out = out@;
        let ghost tail = rv.skip(j as int);
        proof {
            assert(tail.len() > 0);
            assert(tail[0] == rv[j as int]);
            assert(tail.drop_first() =~= rv.skip(j + 1));
        }
        let seg = &raw[j];
        match resolve_capture(table, &seg.name) {
            Some(id) => {
                proof {
                    assert(seg.deep_view().name == seg.name@);
                    assert(resolve_name(tv, tail[0].name) == Some(id as int));
                }
                out.push(HighlightSpan { start: seg.start, end: seg.end, capture_id: id });
                proof {
                    lemma_resolve_bounds(tv, tail[0].name);
                    assert(resolve_spans(tail, tv) == seq![
                        HighlightSpan {
                            start: tail[0].start,
                            end: tail[0].end,
                            capture_id: id as usize,
                        }
                    ] + resolve_spans(tail.drop_first(), tv));
                    assert(out@ =~= old_out + seq![
                        HighlightSpan {
                            start: tail[0].start,
                            end: tail[0].end,
                            capture_id: id as usize,
                        }
                    ]);
                    assert(old_out + resolve_spans(tail, tv) =~= out@ + resolve_spans(
                        rv.skip(j + 1),
                        tv,
                    ));
                }
            },
            None => {
                proof {
                    assert(seg.deep_view().name == seg.name@);
                    assert(resolve_name(tv, tail[0].name) is None);
                    assert(resolve_spans(tail, tv) == resolve_spans(tail.drop_first(), tv));
                }
            },
        }
        j = j + 1;
    }
    proof {
        assert(rv.skip(rv.len() as int).len() == 0);
        assert(out@ + resolve_spans(rv.skip(rv.len() as int), tv) =~= out@);
    }
    out
}

/// Merge adjacent spans of equal id, left to right.
fn merge_segments(spans: &Vec<HighlightSpan>) -> (r: Vec<HighlightSpan>)
    ensures
        r@ == merge_spans(spans@),
        forall|k: int| 0 <= k < r@.len() ==> exists|j: int|
            0 <= j < spans@.len() && (#[trigger] r@[k]).capture_id == spans@[j].capture_id,
{
    let ghost sv = spans@;
    let mut out: Vec<HighlightSpan> = Vec::new();
    let mut i: usize = 0;
    while i < spans.len()
        invariant
            i <= spans.len(),
            sv == spans@,
            merge_spans(sv) == merge_from(sv, i as int, out@),
            forall|k: int| 0 <= k < out@.len() ==> exists|j: int|
                0 <= j < sv.len() && (#[trigger] out@[k]).capture_id == sv[j].capture_id,
        decreases spans.len() - i,
    {
        let ghost old_out = out@;
        let s = spans[i];
        let n = out.len();
        let mergeable = if n > 0 {
            let prev = out[n - 1];
            prev.capture_id == s.capture_id && prev.end == s.start
        } else {
            false
        };
        if mergeable {
            let prev = out.pop().unwrap();
            out.push(HighlightSpan { start: prev.start, end: s.end, capture_id: s.capture_id });
            proof {
                assert(out@ =~= merge_step(old_out, sv[i as int]));
            }
        } else {
            out.push(s);
            proof {
                assert(out@ =~= merge_step(old_out, sv[i as int]));
            }
        }
        i = i + 1;
    }
    out
}

/// Flatten a nested scope-event stream into the point-addressable span
/// index: maximal regions of constant innermost scope, with each name
/// resolved to a capture id by hierarchical fallback, undeclared regions
/// dropped, and adjacent regions of equal id merged.
///
/// Every id in the result indexes the capture table. When the events come
/// in document order, the result is sorted by start, non-overlapping and
/// free of zero-width spans.
pub fn flatten(events: &Vec<ScopeEvent>, table: &Vec<Vec<u8>>) -> (r: Vec<HighlightSpan>)
    ensures
        r@ == spec_flatten(events@, table.deep_view()),
        span_ids_valid(r@, table.deep_view().len() as int),
        sorted_events(events@) ==> spans_ordered(r@),
{
    proof {
        if sorted_events(events@) {
            lemma_flatten_ordered(events@, table.deep_view());
        }
    }
    let raw = collect_raw_segments(events);
    let resolved = resolve_segments(&raw, table);
    let merged = merge_segments(&resolved);
    proof {
        assert forall|k: int| 0 <= k < merged@.len() implies (
        #[trigger] merged@[k].capture_id as int) < table.deep_view().len() by {
            let j = choose|j: int|
                0 <= j < resolved@.len() && merged@[k].capture_id == resolved@[j].capture_id;
        }
    }
    merged
}

/// Raw spans are non-empty, pairwise disjoint in order, and start at or
/// after `lo`.
pub open spec fn raw_chained(spans: Seq<RawSpan>, lo: SourcePosition) -> bool {
    (forall|k: int|
        0 <= k < spans.len() ==> pos_lt((#[trigger] spans[k]).start, spans[k].end) && pos_le(
            lo,
            spans[k].start,
        )) && (forall|j: int, k: int|
        0 <= j < k < spans.len() ==> pos_le(
            (#[trigger] spans[j]).end,
            (#[trigger] spans[k]).start,
        ))
}

/// Resolved spans are non-empty, pairwise disjoint in order, and start at
/// or after `lo`.
pub open spec fn spans_chained(spans: Seq<HighlightSpan>, lo: SourcePosition) -> bool {
    (forall|k: int|
        0 <= k < spans.len() ==> pos_lt((#[trigger] spans[k]).start, spans[k].end) && pos_le(
            lo,
            spans[k].start,
        )) && (forall|j: int, k: int|
        0 <= j < k < spans.len() ==> pos_le(
            (#[trigger] spans[j]).end,
            (#[trigger] spans[k]).start,
        ))
}

proof fn lemma_raw_chained(
    events: Seq<ScopeEvent>,
    i: int,
    stack: Seq<Seq<u8>>,
    start: SourcePosition,
)
    requires
        0 <= i <= events.len(),
        sorted_events(events),
        forall|k: int| i <= k < events.len() ==> pos_le(start, event_position(#[trigger] events[k])),
    ensures
        raw_chained(raw_spans(events, i, stack, start), start),
    decreases events.len() - i,
{
    if i < events.len() {
        let p = event_position(events[i]);
        let stack2 = event_stack(stack, events[i]);
        lemma_raw_chained(events, i + 1, stack2, p);
        let rest = raw_spans(events, i + 1, stack2, p);
        let emitted = if stack.len() > 0 && pos_lt(start, p) {
            seq![RawSpan { start, end: p, name: stack.last() }]
        } else {
            Seq::<RawSpan>::empty()
        };
        let result = emitted + rest;
        assert(raw_spans(events, i, stack, start) == result);
        assert forall|k: int|
            0 <= k < result.len() implies pos_lt((#[trigger] result[k]).start, result[k].end)
            && pos_le(start, result[k].start) by {
            if k >= emitted.len() {
                assert(result[k] == rest[k - emitted.len()]);
            }
        }
        assert forall|j: int, k: int| 0 <= j < k < result.len() implies pos_le(
            (#[trigger] result[j]).end,
            (#[trigger] result[k]).start,
        ) by {
            if j >= emitted.len() {
                assert(result[j] == rest[j - emitted.len()]);
            }
            assert(result[k] == rest[k - emitted.len()]);
        }
    }
}

proof fn lemma_resolve_chained(raw: Seq<RawSpan>, table: Seq<Seq<u8>>, lo: SourcePosition)
    requires
        raw_chained(raw, lo),
    ensures
        spans_chained(resolve_spans(raw, table), lo),
    decreases raw.len(),
{
    if raw.len() > 0 {
        let tail = raw.drop_first();
        assert forall|k: int|
            0 <= k < tail.len() implies pos_lt((#[trigger] tail[k]).start, tail[k].end) && pos_le(
            raw[0].end,
            tail[k].start,
        ) by {
            assert(tail[k] == raw[k + 1]);
        }
        assert forall|j: int, k: int| 0 <= j < k < tail.len() implies pos_le(
            (#[trigger] tail[j]).end,
            (#[trigger] tail[k]).start,
        ) by {
            assert(tail[j] == raw[j + 1]);
            assert(tail[k] == raw[k + 1]);
        }
        lemma_resolve_chained(tail, table, raw[0].end);
        let rest = resolve_spans(tail, table);
        match resolve_name(table, raw[0].name) {
            Some(id) => {
                let h = HighlightSpan {
                    start: raw[0].start,
                    end: raw[0].end,
                    capture_id: id as usize,
                };
                let result = seq![h] + rest;
                assert(resolve_spans(raw, table) == result);
                assert forall|k: int|
                    0 <= k < result.len() implies pos_lt(
                    (#[trigger] result[k]).start,
                    result[k].end,
                ) && pos_le(lo, result[k].start) by {
                    if k >= 1 {
                        assert(result[k] == rest[k - 1]);
                    }
                }
                assert forall|j: int, k: int| 0 <= j < k < result.len() implies pos_le(
                    (#[trigger] result[j]).end,
                    (#[trigger] result[k]).start,
                ) by {
                    if j >= 1 {
                        assert(result[j] == rest[j - 1]);
                    }
                    assert(result[k] == rest[k - 1]);
                }
            },
            None => {
                assert(resolve_spans(raw, table) == rest);
            },
        }
    }
}

proof fn lemma_merge_chained(
    spans: Seq<HighlightSpan>,
    i: int,
    acc: Seq<HighlightSpan>,
    lo: SourcePosition,
)
    requires
        0 <= i <= spans.len(),
        spans_chained(acc, lo),
        forall|k: int|
            i <= k < spans.len() ==> pos_lt((#[trigger] spans[k]).start, spans[k].end) && pos_le(
                lo,
                spans[k].start,
            ),
        forall|j: int, k: int|
            i <= j < k < spans.len() ==> pos_le(
                (#[trigger] spans[j]).end,
                (#[trigger] spans[k]).start,
            ),
        forall|a: int, k: int|
            0 <= a < acc.len() && i <= k < spans.len() ==> pos_le(
                (#[trigger] acc[a]).end,
                (#[trigger] spans[k]).start,
            ),
    ensures
        spans_chained(merge_from(spans, i, acc), lo),
    decreases spans.len() - i,
{
    if i < spans.len() {
        let s = spans[i];
        let acc2 = merge_step(acc, s);
        if acc.len() > 0 && acc.last().capture_id == s.capture_id && acc.last().end == s.start {
            let comb = HighlightSpan { start: acc.last().start, end: s.end, capture_id:
                s.capture_id };
            assert(acc2 == acc.drop_last().push(comb));
            assert forall|k: int|
                0 <= k < acc2.len() implies pos_lt((#[trigger] acc2[k]).start, acc2[k].end)
                && pos_le(lo, acc2[k].start) by {
                if k < acc2.len() - 1 {
                    assert(acc2[k] == acc[k]);
                }
            }
            assert forall|j: int, k: int| 0 <= j < k < acc2.len() implies pos_le(
                (#[trigger] acc2[j]).end,
                (#[trigger] acc2[k]).start,
            ) by {
                assert(acc2[j] == acc[j]);
                if k < acc2.len() - 1 {
                    assert(acc2[k] == acc[k]);
                }
            }
            assert forall|a: int, k: int|
                0 <= a < acc2.len() && i + 1 <= k < spans.len() implies pos_le(
                (#[trigger] acc2[a]).end,
                (#[trigger] spans[k]).start,
            ) by {
                if a < acc2.len() - 1 {
                    assert(acc2[a] == acc[a]);
                }
            }
        } else {
            assert(acc2 == acc.push(s));
            assert forall|k: int|
                0 <= k < acc2.len() implies pos_lt((#[trigger] acc2[k]).start, acc2[k].end)
                && pos_le(lo, acc2[k].start) by {
                if k < acc2.len() - 1 {
                    assert(acc2[k] == acc[k]);
                }
            }
            assert forall|j: int, k: int| 0 <= j < k < acc2.len() implies pos_le(
                (#[trigger] acc2[j]).end,
                (#[trigger] acc2[k]).start,
            ) by {
                assert(acc2[j] == acc[j]);
                if k < acc2.len() - 1 {
                    assert(acc2[k] == acc[k]);
                }
            }
            assert forall|a: int, k: int|
                0 <= a < acc2.len() && i + 1 <= k < spans.len() implies pos_le(
                (#[trigger] acc2[a]).end,
                (#[trigger] spans[k]).start,
            ) by {
                if a < acc2.len() - 1 {
                    assert(acc2[a] == acc[a]);
                }
            }
        }
        lemma_merge_chained(spans, i + 1, acc2, lo);
    }
}

/// When the events come in document order, the flattened index is sorted
/// by start position, non-overlapping, and has no zero-width spans.
pub proof fn lemma_flatten_ordered(events: Seq<ScopeEvent>, table: Seq<Seq<u8>>)
    requires
        sorted_events(events),
    ensures
        spans_ordered(spec_flatten(events, table)),
{
    let raw = raw_spans(events, 0, Seq::empty(), origin());
    lemma_raw_chained(events, 0, Seq::empty(), origin());
    lemma_resolve_chained(raw, table, origin());
    let resolved = resolve_spans(raw, table);
    lemma_merge_chained(resolved, 0, Seq::empty(), origin());
}

} // verus!
