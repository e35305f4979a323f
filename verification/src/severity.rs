//! Recognition of the bracketed level labels (`[ERROR]`, `[WARN]`, ...) that
//! classify a log record.
use vstd::prelude::*;
use vstd::string::StringSliceAdditionalSpecFns;

verus! {

/// The levels a record can carry, as the viewer filters and colors them.
/// `[WARN]` and `[WARNING]` both denote `Warning`.
#[derive(Clone, Copy, Debug, PartialEq, Eq, Structural)]
pub enum Severity {
    Error,
    Warning,
    Info,
    Success,
    Debug,
    Trace,
}

/// `[`, which opens a label.
pub const OPEN_BRACKET: u8 = 0x5b;

/// `]`, which closes a label.
pub const CLOSE_BRACKET: u8 = 0x5d;

/// The severity named by the text between two brackets, if it is one of the
/// recognized labels (their ASCII bytes): `ERROR`, `WARN`, `WARNING`, `INFO`,
/// `SUCCESS`, `DEBUG`, `TRACE`.
pub open spec fn label_severity(name: Seq<u8>) -> Option<Severity> {
    // E R R O R
    if name == seq![0x45u8, 0x52, 0x52, 0x4f, 0x52] {
        Some(Severity::Error)
    // W A R N, and W A R N I N G
    } else if name == seq![0x57u8, 0x41, 0x52, 0x4e] || name == seq![
        0x57u8, 0x41, 0x52, 0x4e, 0x49, 0x4e, 0x47,
    ] {
        Some(Severity::Warning)
    // I N F O
    } else if name == seq![0x49u8, 0x4e, 0x46, 0x4f] {
        Some(Severity::Info)
    // S U C C E S S
    } else if name == seq![0x53u8, 0x55, 0x43, 0x43, 0x45, 0x53, 0x53] {
        Some(Severity::Success)
    // D E B U G
    } else if name == seq![0x44u8, 0x45, 0x42, 0x55, 0x47] {
        Some(Severity::Debug)
    // T R A C E
    } else if name == seq![0x54u8, 0x52, 0x41, 0x43, 0x45] {
        Some(Severity::Trace)
    } else {
        None
    }
}

/// The first `]` at an index in `[i, stop)`.
pub open spec fn first_close(b: Seq<u8>, i: int, stop: int) -> Option<int>
    decreases stop - i,
{
    if i >= stop {
        None
    } else if b[i] == CLOSE_BRACKET {
        Some(i)
    } else {
        first_close(b, i + 1, stop)
    }
}

/// The number of bytes after a `[` in which its `]` is looked for.
pub const LABEL_WINDOW: usize = 8;

/// The label that starts with the `[` at `start`: its `]` must be among the
/// `LABEL_WINDOW` bytes that follow, and the text between must be a recognized
/// label. The span runs from the `[` to just past the `]`.
pub open spec fn span_at(b: Seq<u8>, start: int) -> Option<(int, int, Severity)> {
    if 0 <= start < b.len() && b[start] == OPEN_BRACKET {
        let stop = if start + 1 + LABEL_WINDOW < b.len() {
            start + 1 + LABEL_WINDOW
        } else {
            b.len() as int
        };
        match first_close(b, start + 1, stop) {
            Some(close) => match label_severity(b.subrange(start + 1, close)) {
                Some(level) => Some((start, close + 1, level)),
                None => None,
            },
            None => None,
        }
    } else {
        None
    }
}

/// The first recognized label that starts at an index `>= i`.
pub open spec fn span_from(b: Seq<u8>, i: int) -> Option<(int, int, Severity)>
    decreases b.len() - i,
{
    if i < 0 || i >= b.len() {
        None
    } else if span_at(b, i) is Some {
        span_at(b, i)
    } else {
        span_from(b, i + 1)
    }
}

/// The level label of a record: the first `[`, in reading order, that opens a
/// recognized label. A bracketed timestamp before it is passed over.
pub open spec fn record_level_span(b: Seq<u8>) -> Option<(int, int, Severity)> {
    span_from(b, 0)
}

/// The span of `line.spec_bytes()` that `level_span` reports, as integers.
pub open spec fn span_as_int(r: Option<(usize, usize, Severity)>) -> Option<(int, int, Severity)> {
    match r {
        Some((s, e, l)) => Some((s as int, e as int, l)),
        None => None,
    }
}

pub proof fn lemma_first_close_bounds(b: Seq<u8>, i: int, stop: int)
    ensures
        first_close(b, i, stop) matches Some(c) ==> i <= c < stop && b[c] == CLOSE_BRACKET,
        first_close(b, i, stop) is None ==> forall|k: int| i <= k < stop ==> b[k] != CLOSE_BRACKET,
    decreases stop - i,
{
    if i < stop && b[i] != CLOSE_BRACKET {
        lemma_first_close_bounds(b, i + 1, stop);
    }
}

pub proof fn lemma_span_from_bounds(b: Seq<u8>, i: int)
    ensures
        span_from(b, i) matches Some((s, e, l)) ==> 0 <= s < e <= b.len() && span_at(b, s)
            == Some((s, e, l)),
    decreases b.len() - i,
{
    if 0 <= i < b.len() {
        if span_at(b, i) is Some {
            let stop = if i + 1 + LABEL_WINDOW < b.len() {
                i + 1 + LABEL_WINDOW
            } else {
                b.len() as int
            };
            lemma_first_close_bounds(b, i + 1, stop);
        } else {
            lemma_span_from_bounds(b, i + 1);
        }
    }
}

/// `b` holds, from `i` on, `[`, a recognized label, and `]`.
pub open spec fn label_starts_at(b: Seq<u8>, i: int) -> bool {
    exists|n: int|
        1 <= n <= 7 && 0 <= i && i + n + 2 <= b.len() && b[i] == OPEN_BRACKET && b[i + n + 1]
            == CLOSE_BRACKET && #[trigger] label_severity(b.subrange(i + 1, i + n + 1)) is Some
}

proof fn lemma_label_has_no_close(name: Seq<u8>)
    requires
        label_severity(name) is Some,
    ensures
        4 <= name.len() <= 7,
        forall|k: int| 0 <= k < name.len() ==> #[trigger] name[k] != CLOSE_BRACKET,
{
}

proof fn lemma_first_close_is(b: Seq<u8>, i: int, stop: int, c: int)
    requires
        i <= c < stop,
        b[c] == CLOSE_BRACKET,
        forall|k: int| i <= k < c ==> b[k] != CLOSE_BRACKET,
    ensures
        first_close(b, i, stop) == Some(c),
    decreases c - i,
{
    if i < c {
        lemma_first_close_is(b, i + 1, stop, c);
    }
}

/// A label is recognized at `i` exactly when `b[i..]` starts with `[`, one of
/// the recognized labels, and `]`: every label fits in the window.
pub proof fn lemma_span_at_iff_label(b: Seq<u8>, i: int)
    ensures
        span_at(b, i) is Some <==> label_starts_at(b, i),
{
    let stop = if i + 1 + LABEL_WINDOW < b.len() {
        i + 1 + LABEL_WINDOW
    } else {
        b.len() as int
    };
    if span_at(b, i) is Some {
        lemma_first_close_bounds(b, i + 1, stop);
        let c = first_close(b, i + 1, stop).unwrap();
        let n = c - i - 1;
        lemma_label_has_no_close(b.subrange(i + 1, c));
        assert(b.subrange(i + 1, i + n + 1) == b.subrange(i + 1, c));
        assert(label_starts_at(b, i));
    }
    if label_starts_at(b, i) {
        let n = choose|n: int|
            1 <= n <= 7 && 0 <= i && i + n + 2 <= b.len() && b[i] == OPEN_BRACKET && b[i + n
                + 1] == CLOSE_BRACKET && #[trigger] label_severity(b.subrange(i + 1, i + n + 1))
                is Some;
        let name = b.subrange(i + 1, i + n + 1);
        lemma_label_has_no_close(name);
        assert forall|k: int| i + 1 <= k < i + n + 1 implies b[k] != CLOSE_BRACKET by {
            assert(b[k] == name[k - i - 1]);
        }
        lemma_first_close_is(b, i + 1, stop, i + n + 1);
    }
}

/// The level span is the first recognized label: none starts before it, and
/// when there is none, no recognized label starts anywhere.
pub proof fn lemma_level_span_is_first_label(b: Seq<u8>)
    ensures
        record_level_span(b) matches Some((s, e, l)) ==> label_starts_at(b, s) && forall|j: int|
            0 <= j < s ==> !label_starts_at(b, j),
        record_level_span(b) is None ==> forall|j: int| !label_starts_at(b, j),
{
    lemma_span_from_first(b, 0);
    if let Some((s, e, l)) = record_level_span(b) {
        lemma_span_at_iff_label(b, s);
        assert forall|j: int| 0 <= j < s implies !label_starts_at(b, j) by {
            lemma_span_at_iff_label(b, j);
        }
    } else {
        assert forall|j: int| !label_starts_at(b, j) by {
            lemma_span_at_iff_label(b, j);
        }
    }
}

proof fn lemma_span_from_first(b: Seq<u8>, i: int)
    requires
        0 <= i,
    ensures
        span_from(b, i) matches Some((s, e, l)) ==> i <= s && span_at(b, s) is Some && forall|
            j: int,
        | i <= j < s ==> span_at(b, j) is None,
        span_from(b, i) is None ==> forall|j: int| i <= j ==> span_at(b, j) is None,
    decreases b.len() - i,
{
    if i < b.len() {
        if span_at(b, i) is None {
            lemma_span_from_first(b, i + 1);
        }
    }
}

proof fn lemma_span_at_close(b: Seq<u8>, start: int, close: int)
    requires
        0 <= start < close < b.len(),
        b[start] == OPEN_BRACKET,
        first_close(
            b,
            start + 1,
            if start + 1 + LABEL_WINDOW < b.len() {
                start + 1 + LABEL_WINDOW
            } else {
                b.len() as int
            },
        ) == Some(close),
    ensures
        span_at(b, start) == (match label_severity(b.subrange(start + 1, close)) {
            Some(level) => Some((start, close + 1, level)),
            None => None,
        }),
{
}

/// The severity named by `b[from..to]`, if any.
fn label_between(b: &[u8], from: usize, to: usize) -> (r: Option<Severity>)
    requires
        from <= to <= b@.len(),
    ensures
        r == label_severity(b@.subrange(from as int, to as int)),
{
    let n = to - from;
    let ghost name = b@.subrange(from as int, to as int);
    // ERROR
    if n == 5 && b[from] == 0x45u8 && b[from + 1] == 0x52u8 && b[from + 2] == 0x52u8 && b[from + 3]
        == 0x4fu8 && b[from + 4] == 0x52u8 {
        assert(name =~= seq![0x45u8, 0x52u8, 0x52u8, 0x4fu8, 0x52u8]);
        return Some(Severity::Error);
    }
    // WARN
    if n == 4 && b[from] == 0x57u8 && b[from + 1] == 0x41u8 && b[from + 2] == 0x52u8 && b[from + 3]
        == 0x4eu8 {
        assert(name =~= seq![0x57u8, 0x41u8, 0x52u8, 0x4eu8]);
        return Some(Severity::Warning);
    }
    // WARNING
    if n == 7 && b[from] == 0x57u8 && b[from + 1] == 0x41u8 && b[from + 2] == 0x52u8 && b[from + 3]
        == 0x4eu8 && b[from + 4] == 0x49u8 && b[from + 5] == 0x4eu8 && b[from + 6] == 0x47u8 {
        assert(name =~= seq![0x57u8, 0x41u8, 0x52u8, 0x4eu8, 0x49u8, 0x4eu8, 0x47u8]);
        return Some(Severity::Warning);
    }
    // INFO
    if n == 4 && b[from] == 0x49u8 && b[from + 1] == 0x4eu8 && b[from + 2] == 0x46u8 && b[from + 3]
        == 0x4fu8 {
        assert(name =~= seq![0x49u8, 0x4eu8, 0x46u8, 0x4fu8]);
        return Some(Severity::Info);
    }
    // SUCCESS
    if n == 7 && b[from] == 0x53u8 && b[from + 1] == 0x55u8 && b[from + 2] == 0x43u8 && b[from + 3]
        == 0x43u8 && b[from + 4] == 0x45u8 && b[from + 5] == 0x53u8 && b[from + 6] == 0x53u8 {
        assert(name =~= seq![0x53u8, 0x55u8, 0x43u8, 0x43u8, 0x45u8, 0x53u8, 0x53u8]);
        return Some(Severity::Success);
    }
    // DEBUG
    if n == 5 && b[from] == 0x44u8 && b[from + 1] == 0x45u8 && b[from + 2] == 0x42u8 && b[from + 3]
        == 0x55u8 && b[from + 4] == 0x47u8 {
        assert(name =~= seq![0x44u8, 0x45u8, 0x42u8, 0x55u8, 0x47u8]);
        return Some(Severity::Debug);
    }
    // TRACE
    if n == 5 && b[from] == 0x54u8 && b[from + 1] == 0x52u8 && b[from + 2] == 0x41u8 && b[from + 3]
        == 0x43u8 && b[from + 4] == 0x45u8 {
        assert(name =~= seq![0x54u8, 0x52u8, 0x41u8, 0x43u8, 0x45u8]);
        return Some(Severity::Trace);
    }
    proof {
        if label_severity(name) is Some {
            assert(name.len() == n);
            if n >= 1 {
                assert(name[0] == b[from as int]);
            }
            if n >= 2 {
                assert(name[1] == b[from + 1]);
            }
            if n >= 3 {
                assert(name[2] == b[from + 2]);
            }
            if n >= 4 {
                assert(name[3] == b[from + 3]);
            }
            if n >= 5 {
                assert(name[4] == b[from + 4]);
            }
            if n >= 6 {
                assert(name[5] == b[from + 5]);
            }
            if n >= 7 {
                assert(name[6] == b[from + 6]);
            }
        }
    }
    None
}

/// The label that opens with the `[` at `start` (a byte that is `[`).
fn span_starting_at(b: &[u8], start: usize) -> (r: Option<(usize, usize, Severity)>)
    requires
        start < b@.len(),
        b@[start as int] == OPEN_BRACKET,
    ensures
        span_as_int(r) == span_at(b@, start as int),
{
    let stop: usize = if b.len() - (start + 1) > LABEL_WINDOW {
        start + 1 + LABEL_WINDOW
    } else {
        b.len()
    };
    let mut j: usize = start + 1;
    while j < stop
        invariant
            start + 1 <= j <= stop <= b@.len(),
            start < b@.len(),
            b@[start as int] == OPEN_BRACKET,
            stop == (if start + 1 + LABEL_WINDOW < b@.len() {
                start + 1 + LABEL_WINDOW
            } else {
                b@.len() as int
            }),
            first_close(b@, start + 1, stop as int) == first_close(b@, j as int, stop as int),
        decreases stop - j,
    {
        if b[j] == CLOSE_BRACKET {
            assert(first_close(b@, j as int, stop as int) == Some(j as int));
            let level = label_between(b, start + 1, j);
            proof {
                lemma_span_at_close(b@, start as int, j as int);
            }
            return match level {
                Some(l) => Some((start, j + 1, l)),
                None => None,
            };
        }
        j = j + 1;
    }
    None
}

/// Finds the level label of a record: the first `[` that opens a recognized
/// label within a few bytes, even when the record starts with a bracketed
/// timestamp. Returns the byte span of the label, brackets included, and its
/// level.
pub fn level_span(line: &str) -> (r: Option<(usize, usize, Severity)>)
    ensures
        span_as_int(r) == record_level_span(line.spec_bytes()),
        r matches Some((s, e, _)) ==> s < e <= line.spec_bytes().len(),
{
    let b = line.as_bytes();
    let mut i: usize = 0;
    while i < b.len()
        invariant
            i <= b@.len(),
            b@ == line.spec_bytes(),
            span_from(b@, 0) == span_from(b@, i as int),
        decreases b@.len() - i,
    {
        if b[i] == OPEN_BRACKET {
            let found = span_starting_at(b, i);
            if found.is_some() {
                proof {
                    assert(span_from(b@, i as int) == span_at(b@, i as int));
                    lemma_span_from_bounds(b@, i as int);
                }
                return found;
            }
        }
        i = i + 1;
    }
    None
}

} // verus!
