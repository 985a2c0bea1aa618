use vstd::prelude::*;
use crate::position::SourcePosition;

verus! {

pub const NEWLINE: u8 = 10;
pub const TAB: u8 = 9;
pub const SPACE: u8 = 32;
pub const CARET: u8 = 94;

/// Horizontal whitespace recognized around markers, carets and names.
pub open spec fn is_ws(b: u8) -> bool {
    b == SPACE || b == TAB
}

/// Index of the first newline at or after `i`, or `s.len()` if there is none.
pub open spec fn find_newline(s: Seq<u8>, i: int) -> int
    decreases s.len() - i,
{
    if 0 <= i < s.len() {
        if s[i] == NEWLINE {
            i
        } else {
            find_newline(s, i + 1)
        }
    } else {
        s.len() as int
    }
}

/// The source split at newlines; the separators are not part of any line.
pub open spec fn spec_lines(s: Seq<u8>) -> Seq<Seq<u8>>
    decreases s.len(),
{
    let i = find_newline(s, 0);
    if 0 <= i < s.len() {
        seq![s.subrange(0, i)] + spec_lines(s.subrange(i + 1, s.len() as int))
    } else {
        seq![s]
    }
}

/// Index of the first non-whitespace byte at or after `i`, or `s.len()`.
pub open spec fn skip_ws(s: Seq<u8>, i: int) -> int
    decreases s.len() - i,
{
    if 0 <= i < s.len() && is_ws(s[i]) {
        skip_ws(s, i + 1)
    } else {
        i
    }
}

/// Index of the first byte at or after `i` that is not a caret, or `s.len()`.
pub open spec fn skip_carets(s: Seq<u8>, i: int) -> int
    decreases s.len() - i,
{
    if 0 <= i < s.len() && s[i] == CARET {
        skip_carets(s, i + 1)
    } else {
        i
    }
}

/// End of `s` with trailing whitespace removed.
pub open spec fn trim_end_idx(s: Seq<u8>) -> int
    decreases s.len(),
{
    if s.len() > 0 && is_ws(s[s.len() - 1]) {
        trim_end_idx(s.drop_last())
    } else {
        s.len() as int
    }
}

/// `s` with leading and trailing whitespace removed.
pub open spec fn trim_ws(s: Seq<u8>) -> Seq<u8> {
    let t = s.subrange(0, trim_end_idx(s));
    t.subrange(skip_ws(t, 0), t.len() as int)
}

/// The line starts, after leading whitespace, with the comment marker.
pub open spec fn marker_led(line: Seq<u8>, marker: Seq<u8>) -> bool {
    let i = skip_ws(line, 0);
    i + marker.len() <= line.len() && line.subrange(i, i + marker.len() as int) == marker
}

/// A line that is not marker-led: ordinary code, which anchors later
/// annotation lines.
pub open spec fn is_code_line(line: Seq<u8>, marker: Seq<u8>) -> bool {
    !marker_led(line, marker)
}

/// A marker-led line whose first non-whitespace byte after the marker (with
/// at least one whitespace byte in between) is a caret. Such a line is
/// committed to being an annotation; a missing name makes it malformed
/// rather than an ordinary comment.
pub open spec fn is_annotation_candidate(line: Seq<u8>, marker: Seq<u8>) -> bool {
    marker_led(line, marker) && {
        let j = skip_ws(line, 0) + marker.len() as int;
        j < line.len() && is_ws(line[j]) && {
            let k = skip_ws(line, j);
            k < line.len() && line[k] == CARET
        }
    }
}

/// Column of the first caret, measured in the full raw line text.
pub open spec fn caret_column(line: Seq<u8>, marker: Seq<u8>) -> int {
    skip_ws(line, skip_ws(line, 0) + marker.len() as int)
}

/// The expected capture name: everything after the caret run, trimmed.
pub open spec fn annotation_name(line: Seq<u8>, marker: Seq<u8>) -> Seq<u8> {
    trim_ws(line.subrange(skip_carets(line, caret_column(line, marker)), line.len() as int))
}

/// The row a caret line at row `r` attaches to: the nearest preceding line
/// that is not marker-led, or `None` if no such line exists.
pub open spec fn anchor_row(lines: Seq<Seq<u8>>, marker: Seq<u8>, r: int) -> Option<int>
    decreases r,
{
    if r <= 0 {
        None
    } else if is_code_line(lines[r - 1], marker) {
        Some(r - 1)
    } else {
        anchor_row(lines, marker, r - 1)
    }
}

/// A structurally invalid annotation line; parsing the whole source fails.
#[derive(Clone, Copy, Debug, PartialEq, Eq, Structural)]
pub enum MalformedAnnotation {
    /// A caret line appeared before any code line it could attach to.
    MissingAnchor { row: usize },
    /// A caret line carries no name after the caret run.
    MissingName { row: usize },
}

/// Mathematical model of one parsed assertion.
pub ghost struct SpecAssertion {
    pub position: SourcePosition,
    pub name: Seq<u8>,
}

/// One expectation read from an annotation line: the capture name that the
/// highlighting configuration should assign at `position`.
#[derive(Clone, Debug, PartialEq, Eq)]
pub struct Assertion {
    pub position: SourcePosition,
    pub expected_capture_name: Vec<u8>,
}

impl DeepView for Assertion {
    type V = SpecAssertion;

    open spec fn deep_view(&self) -> SpecAssertion {
        SpecAssertion { position: self.position, name: self.expected_capture_name@ }
    }
}

/// Assertions contributed by lines `r..`, in file order; the first
/// structural fault wins.
pub open spec fn parse_from(lines: Seq<Seq<u8>>, marker: Seq<u8>, r: int) -> Result<
    Seq<SpecAssertion>,
    MalformedAnnotation,
>
    decreases lines.len() - r,
{
    if 0 <= r < lines.len() {
        if is_annotation_candidate(lines[r], marker) {
            if annotation_name(lines[r], marker).len() == 0 {
                Err(MalformedAnnotation::MissingName { row: r as usize })
            } else {
                match anchor_row(lines, marker, r) {
                    None => Err(MalformedAnnotation::MissingAnchor { row: r as usize }),
                    Some(a) => match parse_from(lines, marker, r + 1) {
                        Ok(tail) => Ok(
                            seq![
                                SpecAssertion {
                                    position: SourcePosition {
                                        row: a as usize,
                                        column: caret_column(lines[r], marker) as usize,
                                    },
                                    name: annotation_name(lines[r], marker),
                                }
                            ] + tail,
                        ),
                        Err(e) => Err(e),
                    },
                }
            }
        } else {
            parse_from(lines, marker, r + 1)
        }
    } else {
        Ok(Seq::empty())
    }
}

/// The full meaning of `parse`: split the source at newlines, then read the
/// annotation lines in file order.
pub open spec fn spec_parse(source: Seq<u8>, marker: Seq<u8>) -> Result<
    Seq<SpecAssertion>,
    MalformedAnnotation,
> {
    parse_from(spec_lines(source), marker, 0)
}

/// Determinism: the parser's contract admits exactly one result for a
/// given source and marker, so two parses of identical input yield
/// identical ordered assertion lists.
pub proof fn lemma_parse_deterministic(
    source: Seq<u8>,
    marker: Seq<u8>,
    r1: Result<Seq<SpecAssertion>, MalformedAnnotation>,
    r2: Result<Seq<SpecAssertion>, MalformedAnnotation>,
)
    requires
        r1 == spec_parse(source, marker),
        r2 == spec_parse(source, marker),
    ensures
        r1 == r2,
{
}

proof fn lemma_parse_from_no_annotations(lines: Seq<Seq<u8>>, marker: Seq<u8>, r: int)
    requires
        0 <= r,
        forall|k: int|
            0 <= k < lines.len() ==> !is_annotation_candidate(#[trigger] lines[k], marker),
    ensures
        parse_from(lines, marker, r) == Ok::<_, MalformedAnnotation>(Seq::<SpecAssertion>::empty()),
    decreases lines.len() - r,
{
    if r < lines.len() {
        lemma_parse_from_no_annotations(lines, marker, r + 1);
    }
}

/// A source without a single caret-led line parses to the empty assertion
/// list and never fails.
pub proof fn lemma_parse_no_annotations(source: Seq<u8>, marker: Seq<u8>)
    requires
        forall|k: int|
            0 <= k < spec_lines(source).len() ==> !is_annotation_candidate(
                #[trigger] spec_lines(source)[k],
                marker,
            ),
    ensures
        spec_parse(source, marker) == Ok::<_, MalformedAnnotation>(Seq::<SpecAssertion>::empty()),
{
    lemma_parse_from_no_annotations(spec_lines(source), marker, 0);
}

/// Anchor sharing: two caret lines with no code line anywhere between them
/// resolve to the same anchor row. Each assertion's row is, by definition
/// of `parse_from`, the anchor row of its caret line, so consecutive
/// annotation lines all attach to the one code line above them.
pub proof fn lemma_shared_anchor(lines: Seq<Seq<u8>>, marker: Seq<u8>, i: int, j: int)
    requires
        0 <= i <= j < lines.len(),
        forall|k: int| i <= k < j ==> !is_code_line(#[trigger] lines[k], marker),
    ensures
        anchor_row(lines, marker, i) == anchor_row(lines, marker, j),
    decreases j - i,
{
    if i < j {
        lemma_shared_anchor(lines, marker, i, j - 1);
    }
}

/// How many annotation lines lie in rows `[s, r)`.
pub open spec fn count_annotations(lines: Seq<Seq<u8>>, marker: Seq<u8>, s: int, r: int) -> int
    decreases r - s,
{
    if s < r {
        (if is_annotation_candidate(lines[s], marker) {
            1int
        } else {
            0int
        }) + count_annotations(lines, marker, s + 1, r)
    } else {
        0
    }
}

proof fn lemma_parse_from_emits(lines: Seq<Seq<u8>>, marker: Seq<u8>, s: int, r: int)
    requires
        0 <= s <= r < lines.len(),
        is_annotation_candidate(lines[r], marker),
        (parse_from(lines, marker, s) is Ok),
    ensures
        (anchor_row(lines, marker, r) is Some),
        0 <= count_annotations(lines, marker, s, r) < parse_from(lines, marker, s)->Ok_0.len(),
        parse_from(lines, marker, s)->Ok_0[count_annotations(lines, marker, s, r)] == (SpecAssertion {
            position: SourcePosition {
                row: anchor_row(lines, marker, r)->Some_0 as usize,
                column: caret_column(lines[r], marker) as usize,
            },
            name: annotation_name(lines[r], marker),
        }),
    decreases r - s,
{
    if s < r {
        lemma_parse_from_emits(lines, marker, s + 1, r);
    }
}

/// Anchor property, stated on the parser's output: when parsing succeeds,
/// the assertion contributed by annotation line `i` (the `n`-th outcome,
/// where `n` counts the annotation lines above `i`) carries the anchor row
/// of line `i`; two annotation lines with no code line between them
/// therefore carry the same row.
pub proof fn lemma_consecutive_annotations_share_row(
    lines: Seq<Seq<u8>>,
    marker: Seq<u8>,
    i: int,
    j: int,
)
    requires
        0 <= i <= j < lines.len(),
        is_annotation_candidate(lines[i], marker),
        is_annotation_candidate(lines[j], marker),
        forall|k: int| i < k < j ==> !is_code_line(#[trigger] lines[k], marker),
        (parse_from(lines, marker, 0) is Ok),
    ensures
        0 <= count_annotations(lines, marker, 0, i) < parse_from(lines, marker, 0)->Ok_0.len(),
        0 <= count_annotations(lines, marker, 0, j) < parse_from(lines, marker, 0)->Ok_0.len(),
        parse_from(lines, marker, 0)->Ok_0[count_annotations(lines, marker, 0, i)].position.row
            == parse_from(lines, marker, 0)->Ok_0[count_annotations(
            lines,
            marker,
            0,
            j,
        )].position.row,
{
    lemma_parse_from_emits(lines, marker, 0, i);
    lemma_parse_from_emits(lines, marker, 0, j);
    assert(!is_code_line(lines[i], marker));
    lemma_shared_anchor(lines, marker, i, j);
}

fn skip_ws_exec(s: &Vec<u8>, from: usize) -> (r: usize)
    requires
        from <= s.len(),
    ensures
        r == skip_ws(s@, from as int),
        from <= r <= s.len(),
{
    let mut i = from;
    while i < s.len() && (s[i] == SPACE || s[i] == TAB)
        invariant
            from <= i <= s.len(),
            skip_ws(s@, from as int) == skip_ws(s@, i as int),
        decreases s.len() - i,
    {
        i = i + 1;
    }
    i
}

fn skip_carets_exec(s: &Vec<u8>, from: usize) -> (r: usize)
    requires
        from <= s.len(),
    ensures
        r == skip_carets(s@, from as int),
        from <= r <= s.len(),
{
    let mut i = from;
    while i < s.len() && s[i] == CARET
        invariant
            from <= i <= s.len(),
            skip_carets(s@, from as int) == skip_carets(s@, i as int),
        decreases s.len() - i,
    {
        i = i + 1;
    }
    i
}

/// A copy of `v[a..b]`.
fn subvec(v: &Vec<u8>, a: usize, b: usize) -> (r: Vec<u8>)
    requires
        a <= b <= v.len(),
    ensures
        r@ == v@.subrange(a as int, b as int),
{
    let mut r: Vec<u8> = Vec::new();
    let mut i = a;
    while i < b
        invariant
            a <= i <= b <= v.len(),
            r@ == v@.subrange(a as int, i as int),
        decreases b - i,
    {
        r.push(v[i]);
        proof {
            assert(v@.subrange(a as int, i + 1) =~= v@.subrange(a as int, i as int).push(
                v@[i as int],
            ));
        }
        i = i + 1;
    }
    r
}

/// A copy of `v` with leading and trailing whitespace removed.
fn trim_exec(v: &Vec<u8>) -> (r: Vec<u8>)
    ensures
        r@ == trim_ws(v@),
{
    let mut e = v.len();
    proof {
        assert(v@.subrange(0, e as int) =~= v@);
    }
    while e > 0 && (v[e - 1] == SPACE || v[e - 1] == TAB)
        invariant
            e <= v.len(),
            trim_end_idx(v@) == trim_end_idx(v@.subrange(0, e as int)),
        decreases e,
    {
        proof {
            assert(v@.subrange(0, e as int).drop_last() =~= v@.subrange(0, e - 1));
        }
        e = e - 1;
    }
    proof {
        assert(trim_end_idx(v@) == e);
    }
    let ghost t = v@.subrange(0, e as int);
    let mut a: usize = 0;
    while a < e && (v[a] == SPACE || v[a] == TAB)
        invariant
            a <= e <= v.len(),
            t == v@.subrange(0, e as int),
            skip_ws(t, 0) == skip_ws(t, a as int),
        decreases e - a,
    {
        a = a + 1;
    }
    proof {
        assert(skip_ws(t, 0) == a);
        assert(v@.subrange(a as int, e as int) =~= t.subrange(skip_ws(t, 0), t.len() as int));
    }
    subvec(v, a, e)
}

proof fn lemma_find_newline_at(s: Seq<u8>, k: int, i: int)
    requires
        0 <= k <= i < s.len(),
        forall|j: int| k <= j < i ==> s[j] != NEWLINE,
        s[i] == NEWLINE,
    ensures
        find_newline(s, k) == i,
    decreases i - k,
{
    if k < i {
        lemma_find_newline_at(s, k + 1, i);
    }
}

proof fn lemma_find_newline_none(s: Seq<u8>, k: int)
    requires
        0 <= k <= s.len(),
        forall|j: int| k <= j < s.len() ==> s[j] != NEWLINE,
    ensures
        find_newline(s, k) == s.len(),
    decreases s.len() - k,
{
    if k < s.len() {
        lemma_find_newline_none(s, k + 1);
    }
}

/// A chunk without newlines followed by a newline is one whole line.
proof fn lemma_lines_step(prefix: Seq<u8>, rest: Seq<u8>)
    requires
        forall|j: int| 0 <= j < prefix.len() ==> prefix[j] != NEWLINE,
    ensures
        spec_lines(prefix + seq![NEWLINE] + rest) == seq![prefix] + spec_lines(rest),
{
    let full = prefix + seq![NEWLINE] + rest;
    assert(full[prefix.len() as int] == NEWLINE);
    lemma_find_newline_at(full, 0, prefix.len() as int);
    assert(full.subrange(0, prefix.len() as int) =~= prefix);
    assert(full.subrange(prefix.len() as int + 1, full.len() as int) =~= rest);
}

/// A chunk without newlines is a single line.
proof fn lemma_lines_last(s: Seq<u8>)
    requires
        forall|j: int| 0 <= j < s.len() ==> s[j] != NEWLINE,
    ensures
        spec_lines(s) == seq![s],
{
    lemma_find_newline_none(s, 0);
}

/// The source, split at newline bytes into lines.
pub fn split_lines(source: &Vec<u8>) -> (r: Vec<Vec<u8>>)
    ensures
        r.deep_view() == spec_lines(source@),
{
    let mut lines: Vec<Vec<u8>> = Vec::new();
    let mut cur: Vec<u8> = Vec::new();
    let mut i: usize = 0;
    proof {
        assert(cur@ + source@.subrange(0, source@.len() as int) =~= source@);
    }
    while i < source.len()
        invariant
            i <= source.len(),
            forall|j: int| 0 <= j < cur@.len() ==> cur@[j] != NEWLINE,
            spec_lines(source@) == lines.deep_view() + spec_lines(
                cur@ + source@.subrange(i as int, source@.len() as int),
            ),
        decreases source.len() - i,
    {
        let b = source[i];
        let ghost old_cur = cur@;
        let ghost old_lines = lines.deep_view();
        let ghost tail = source@.subrange(i as int, source@.len() as int);
        let ghost tail1 = source@.subrange(i + 1, source@.len() as int);
        if b == NEWLINE {
            proof {
                assert(old_cur + tail =~= old_cur + seq![NEWLINE] + tail1);
                lemma_lines_step(old_cur, tail1);
            }
            lines.push(cur);
            cur = Vec::new();
            proof {
                assert(lines.deep_view() =~~= old_lines + seq![old_cur]);
                assert(old_lines + (seq![old_cur] + spec_lines(tail1)) =~= (old_lines + seq![
                    old_cur,
                ]) + spec_lines(tail1));
                assert(cur@ + tail1 =~= tail1);
            }
        } else {
            cur.push(b);
            proof {
                assert(cur@ + tail1 =~= old_cur + tail);
            }
        }
        i = i + 1;
    }
    proof {
        let tail = source@.subrange(source@.len() as int, source@.len() as int);
        assert(cur@ + tail =~= cur@);
        lemma_lines_last(cur@);
    }
    let ghost old_lines = lines.deep_view();
    let ghost last = cur@;
    lines.push(cur);
    proof {
        assert(lines.deep_view() =~~= old_lines + seq![last]);
    }
    lines
}

/// How one line takes part in parsing.
pub enum LineClass {
    /// Not marker-led: ordinary code; anchors later annotation lines.
    Code,
    /// Marker-led but not caret-led: inert, neither anchor nor assertion.
    OrdinaryComment,
    /// A well-formed annotation: caret column and expected capture name.
    Annotation { column: usize, name: Vec<u8> },
    /// Caret-led but with nothing after the caret run: malformed.
    NameMissing,
}

/// Decide what role a single line plays for the given line-comment marker.
pub fn classify_line(line: &Vec<u8>, marker: &Vec<u8>) -> (r: LineClass)
    ensures
        match r {
            LineClass::Code => is_code_line(line@, marker@),
            LineClass::OrdinaryComment => marker_led(line@, marker@) && !is_annotation_candidate(
                line@,
                marker@,
            ),
            LineClass::Annotation { column, name } => is_annotation_candidate(line@, marker@)
                && annotation_name(line@, marker@).len() > 0 && column == caret_column(
                line@,
                marker@,
            ) && name@ == annotation_name(line@, marker@),
            LineClass::NameMissing => is_annotation_candidate(line@, marker@) && annotation_name(
                line@,
                marker@,
            ).len() == 0,
        },
{
    let i = skip_ws_exec(line, 0);
    if marker.len() > line.len() - i {
        return LineClass::Code;
    }
    let mut t: usize = 0;
    while t < marker.len()
        invariant
            i == skip_ws(line@, 0),
            i + marker.len() <= line.len(),
            t <= marker.len(),
            line@.subrange(i as int, i + t) == marker@.subrange(0, t as int),
        decreases marker.len() - t,
    {
        if line[i + t] != marker[t] {
            proof {
                assert(line@.subrange(i as int, i + marker@.len())[t as int] != marker@[t as int]);
            }
            return LineClass::Code;
        }
        proof {
            assert(line@.subrange(i as int, i + t + 1) =~= line@.subrange(i as int, i + t).push(
                line@[i + t],
            ));
            assert(marker@.subrange(0, t + 1) =~= marker@.subrange(0, t as int).push(
                marker@[t as int],
            ));
        }
        t = t + 1;
    }
    proof {
        assert(line@.subrange(i as int, i + marker@.len()) == marker@.subrange(
            0,
            marker@.len() as int,
        ));
        assert(marker@.subrange(0, marker@.len() as int) =~= marker@);
        assert(marker_led(line@, marker@));
    }
    let j = i + marker.len();
    if j >= line.len() {
        return LineClass::OrdinaryComment;
    }
    if !(line[j] == SPACE || line[j] == TAB) {
        return LineClass::OrdinaryComment;
    }
    let k = skip_ws_exec(line, j);
    if k >= line.len() {
        return LineClass::OrdinaryComment;
    }
    if line[k] != CARET {
        return LineClass::OrdinaryComment;
    }
    assert(is_annotation_candidate(line@, marker@));
    assert(k == caret_column(line@, marker@));
    let l = skip_carets_exec(line, k);
    let tail = subvec(line, l, line.len());
    let name = trim_exec(&tail);
    if name.len() == 0 {
        LineClass::NameMissing
    } else {
        LineClass::Annotation { column: k, name }
    }
}

/// Read the annotation assertions out of `source`, line by line.
///
/// A line is an annotation iff, after leading whitespace, it starts with
/// `marker`, then at least one whitespace byte, then a caret run; its
/// assertion points at the caret column of the nearest preceding
/// non-marker-led line. A caret line before any such line, or one without a
/// name, is malformed and fails the whole parse. The result is in file
/// order and is a pure function of `source` and `marker`.
pub fn parse(source: &Vec<u8>, marker: &Vec<u8>) -> (r: Result<Vec<Assertion>, MalformedAnnotation>)
    ensures
        match r {
            Ok(assertions) => spec_parse(source@, marker@) == Ok::<_, MalformedAnnotation>(
                assertions.deep_view(),
            ),
            Err(e) => spec_parse(source@, marker@) == Err::<Seq<SpecAssertion>, _>(e),
        },
{
    let lines = split_lines(source);
    let ghost ls = lines.deep_view();
    let mut out: Vec<Assertion> = Vec::new();
    let mut anchor: Option<usize> = None;
    let mut row: usize = 0;
    while row < lines.len()
        invariant
            row <= lines.len(),
            ls == lines.deep_view(),
            ls.len() == lines@.len(),
            forall|q: int| 0 <= q < ls.len() ==> ls[q] == #[trigger] lines@[q].deep_view(),
            spec_lines(source@) == ls,
            match anchor {
                Some(a) => anchor_row(ls, marker@, row as int) == Some(a as int),
                None => anchor_row(ls, marker@, row as int) is None,
            },
            match parse_from(ls, marker@, row as int) {
                Ok(tail) => spec_parse(source@, marker@) == Ok::<_, MalformedAnnotation>(
                    out.deep_view() + tail,
                ),
                Err(e) => spec_parse(source@, marker@) == Err::<Seq<SpecAssertion>, _>(e),
            },
        decreases lines.len() - row,
    {
        let ghost old_out = out.deep_view();
        proof {
            assert(lines@[row as int].deep_view() =~= lines@[row as int]@);
            assert(ls[row as int] == lines@[row as int]@);
        }
        match classify_line(&lines[row], marker) {
            LineClass::Code => {
                anchor = Some(row);
                proof {
                    assert(is_code_line(ls[row as int], marker@));
                    assert(anchor_row(ls, marker@, row as int + 1) == Some(row as int));
                    assert(!is_annotation_candidate(ls[row as int], marker@));
                    assert(parse_from(ls, marker@, row as int) == parse_from(
                        ls,
                        marker@,
                        row as int + 1,
                    ));
                }
            },
            LineClass::OrdinaryComment => {
                proof {
                    assert(!is_code_line(ls[row as int], marker@));
                    assert(anchor_row(ls, marker@, row as int + 1) == anchor_row(
                        ls,
                        marker@,
                        row as int,
                    ));
                    assert(parse_from(ls, marker@, row as int) == parse_from(
                        ls,
                        marker@,
                        row as int + 1,
                    ));
                }
            },
            LineClass::NameMissing => {
                proof {
                    assert(parse_from(ls, marker@, row as int) == Err::<Seq<SpecAssertion>, _>(
                        MalformedAnnotation::MissingName { row },
                    ));
                }
                return Err(MalformedAnnotation::MissingName { row });
            },
            LineClass::Annotation { column, name } => {
                match anchor {
                    None => {
                        proof {
                            assert(parse_from(ls, marker@, row as int) == Err::<
                                Seq<SpecAssertion>,
                                _,
                            >(MalformedAnnotation::MissingAnchor { row }));
                        }
                        return Err(MalformedAnnotation::MissingAnchor { row });
                    },
                    Some(a) => {
                        let assertion = Assertion {
                            position: SourcePosition { row: a, column },
                            expected_capture_name: name,
                        };
                        let ghost sa = assertion.deep_view();
                        out.push(assertion);
                        proof {
                            assert(!is_code_line(ls[row as int], marker@));
                            assert(anchor_row(ls, marker@, row as int + 1) == anchor_row(
                                ls,
                                marker@,
                                row as int,
                            ));
                            assert(out.deep_view() =~~= old_out + seq![sa]);
                            if parse_from(ls, marker@, row as int + 1) is Ok {
                                let tail1 = parse_from(ls, marker@, row as int + 1)->Ok_0;
                                assert(old_out + (seq![sa] + tail1) =~~= (old_out + seq![sa])
                                    + tail1);
                            }
                        }
                    },
                }
            },
        }
        row = row + 1;
    }
    Ok(out)
}

} // verus!
