use vstd::prelude::*;
use crate::position::{pos_le, pos_lt, pos_at_or_before, pos_before, SourcePosition};
use crate::parse::{parse, spec_parse, Assertion, MalformedAnnotation, SpecAssertion};
use crate::flatten::{flatten, spec_flatten, span_ids_valid, HighlightSpan, ScopeEvent};
use crate::table::bytes_eq;

verus! {

/// The verdict on one assertion.
#[derive(Clone, Debug, PartialEq, Eq)]
pub enum Outcome {
    /// The span covering the position carries the expected capture name.
    Pass,
    /// No span of the flattened index covers the position.
    UnhighlightedPosition { position: SourcePosition },
    /// The covering span resolves to a different capture name.
    CaptureMismatch { position: SourcePosition, expected: Vec<u8>, actual: Vec<u8> },
}

/// `p` lies in the half-open region `[s.start, s.end)`.
pub open spec fn span_contains(s: HighlightSpan, p: SourcePosition) -> bool {
    pos_le(s.start, p) && pos_lt(p, s.end)
}

pub open spec fn find_span_from(spans: Seq<HighlightSpan>, p: SourcePosition, i: int) -> Option<
    int,
>
    decreases spans.len() - i,
{
    if 0 <= i < spans.len() {
        if span_contains(spans[i], p) {
            Some(i)
        } else {
            find_span_from(spans, p, i + 1)
        }
    } else {
        None
    }
}

/// Index of the first span covering `p`, if any. When the spans are
/// non-overlapping this is the only one.
pub open spec fn find_span(spans: Seq<HighlightSpan>, p: SourcePosition) -> Option<int> {
    find_span_from(spans, p, 0)
}

/// The outcome that `verify` owes for one assertion: `Pass` exactly when
/// some span covers the position and its id names the expected capture;
/// otherwise the specific failure, carrying the assertion's position.
pub open spec fn is_outcome_for(
    o: Outcome,
    a: SpecAssertion,
    spans: Seq<HighlightSpan>,
    table: Seq<Seq<u8>>,
) -> bool {
    match find_span(spans, a.position) {
        None => match o {
            Outcome::UnhighlightedPosition { position } => position == a.position,
            _ => false,
        },
        Some(j) => {
            let actual = table[spans[j].capture_id as int];
            if actual == a.name {
                o is Pass
            } else {
                match o {
                    Outcome::CaptureMismatch { position, expected, actual: act } => position
                        == a.position && expected@ == a.name && act@ == actual,
                    _ => false,
                }
            }
        },
    }
}

fn find_span_exec(spans: &Vec<HighlightSpan>, p: SourcePosition) -> (r: Option<usize>)
    ensures
        match r {
            Some(j) => find_span(spans@, p) == Some(j as int) && (j as int) < spans@.len(),
            None => find_span(spans@, p) is None,
        },
{
    let mut j: usize = 0;
    while j < spans.len()
        invariant
            j <= spans.len(),
            find_span(spans@, p) == find_span_from(spans@, p, j as int),
        decreases spans.len() - j,
    {
        let s = spans[j];
        if pos_at_or_before(s.start, p) && pos_before(p, s.end) {
            return Some(j);
        }
        j = j + 1;
    }
    None
}

/// Check every assertion against the flattened span index, in input order,
/// never stopping early: the result has exactly one outcome per assertion.
pub fn verify(
    assertions: &Vec<Assertion>,
    spans: &Vec<HighlightSpan>,
    table: &Vec<Vec<u8>>,
) -> (r: Vec<Outcome>)
    requires
        span_ids_valid(spans@, table@.len() as int),
    ensures
        r@.len() == assertions@.len(),
        forall|i: int|
            0 <= i < r@.len() ==> is_outcome_for(
                #[trigger] r@[i],
                assertions.deep_view()[i],
                spans@,
                table.deep_view(),
            ),
{
    let ghost av = assertions.deep_view();
    let ghost tv = table.deep_view();
    let mut out: Vec<Outcome> = Vec::new();
    let mut i: usize = 0;
    while i < assertions.len()
        invariant
            i <= assertions.len(),
            av == assertions.deep_view(),
            tv == table.deep_view(),
            av.len() == assertions@.len(),
            tv.len() == table@.len(),
            forall|q: int| 0 <= q < av.len() ==> av[q] == #[trigger] assertions@[q].deep_view(),
            forall|q: int| 0 <= q < tv.len() ==> tv[q] == #[trigger] table@[q].deep_view(),
            span_ids_valid(spans@, tv.len() as int),
            out@.len() == i,
            forall|q: int|
                0 <= q < out@.len() ==> is_outcome_for(#[trigger] out@[q], av[q], spans@, tv),
        decreases assertions.len() - i,
    {
        let a = &assertions[i];
        let p = a.position;
        proof {
            assert(av[i as int] == assertions@[i as int].deep_view());
        }
        let outcome = match find_span_exec(spans, p) {
            None => Outcome::UnhighlightedPosition { position: p },
            Some(j) => {
                proof {
                    assert((spans@[j as int].capture_id as int) < tv.len());
                }
                let id = spans[j].capture_id;
                proof {
                    assert(tv[id as int] == table@[id as int].deep_view());
                    assert(table@[id as int].deep_view() =~= table@[id as int]@);
                }
                if bytes_eq(&table[id], &a.expected_capture_name) {
                    Outcome::Pass
                } else {
                    let expected = a.expected_capture_name.clone();
                    let actual = table[id].clone();
                    proof {
                        assert(expected@ =~= a.expected_capture_name@);
                        assert(actual@ =~= table@[id as int]@);
                    }
                    Outcome::CaptureMismatch { position: p, expected, actual }
                }
            },
        };
        out.push(outcome);
        i = i + 1;
    }
    out
}

/// Run the whole pipeline over one annotated fixture: parse the caret
/// annotations out of the source, flatten the scope-event stream that the
/// external highlighter produced for the same source, and judge every
/// assertion. A malformed annotation aborts the whole run; assertion
/// failures never do.
pub fn evaluate(
    source: &Vec<u8>,
    marker: &Vec<u8>,
    events: &Vec<ScopeEvent>,
    table: &Vec<Vec<u8>>,
) -> (r: Result<Vec<Outcome>, MalformedAnnotation>)
    ensures
        match r {
            Ok(outcomes) => {
                &&& spec_parse(source@, marker@) is Ok
                &&& outcomes@.len() == spec_parse(source@, marker@)->Ok_0.len()
                &&& forall|i: int|
                    0 <= i < outcomes@.len() ==> is_outcome_for(
                        #[trigger] outcomes@[i],
                        spec_parse(source@, marker@)->Ok_0[i],
                        spec_flatten(events@, table.deep_view()),
                        table.deep_view(),
                    )
            },
            Err(e) => spec_parse(source@, marker@) == Err::<Seq<SpecAssertion>, _>(e),
        },
{
    let assertions = match parse(source, marker) {
        Ok(a) => a,
        Err(e) => {
            return Err(e);
        },
    };
    let spans = flatten(events, table);
    proof {
        assert(table.deep_view().len() == table@.len());
    }
    Ok(verify(&assertions, &spans, table))
}

/// The whole check succeeds exactly when every outcome is `Pass`.
pub fn all_passed(results: &Vec<Outcome>) -> (r: bool)
    ensures
        r == forall|i: int| 0 <= i < results@.len() ==> (#[trigger] results@[i]) is Pass,
{
    let mut i: usize = 0;
    while i < results.len()
        invariant
            i <= results.len(),
            forall|q: int| 0 <= q < i ==> (#[trigger] results@[q]) is Pass,
        decreases results.len() - i,
    {
        match &results[i] {
            Outcome::Pass => {},
            _ => {
                return false;
            },
        }
        i = i + 1;
    }
    true
}

} // verus!
