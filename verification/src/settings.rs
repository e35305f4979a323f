//! What the viewer does with its command line: how many records to show,
//! which ones, and whether to go on following the file.
use vstd::prelude::*;
use vstd::utf8::{decode_utf8, valid_utf8};

use vstd::utf8::encode_utf8;

use crate::filter::{level_accepts, lowercase, Filter};
use crate::severity::record_level_span;
use crate::record::{decode_lossy, utf8_lossy};
use crate::severity::Severity;

verus! {

/// How many records are shown when no count is given.
pub const DEFAULT_COUNT: usize = 10;

/// The largest count given with a level flag, if any.
pub open spec fn largest_count(levels: Seq<(Severity, usize)>) -> Option<usize>
    decreases levels.len(),
{
    if levels.len() == 0 {
        None
    } else {
        let last = levels.last().1;
        match largest_count(levels.drop_last()) {
            Some(m) => Some(if m >= last {
                m
            } else {
                last
            }),
            None => Some(last),
        }
    }
}

/// When level flags carry counts, the largest of them is the one used: it is
/// one of the given counts, and no given count exceeds it.
pub proof fn lemma_largest_count_is_max(levels: Seq<(Severity, usize)>)
    ensures
        largest_count(levels) is None <==> levels.len() == 0,
        largest_count(levels) matches Some(m) ==> {
            &&& forall|i: int| 0 <= i < levels.len() ==> #[trigger] levels[i].1 <= m
            &&& exists|i: int| 0 <= i < levels.len() && #[trigger] levels[i].1 == m
        },
    decreases levels.len(),
{
    if levels.len() > 0 {
        let init = levels.drop_last();
        lemma_largest_count_is_max(init);
        let last = levels.len() - 1;
        assert(levels[last].1 == levels.last().1);
        assert forall|i: int| 0 <= i < init.len() implies #[trigger] levels[i].1 == init[i].1 by {}
        if let Some(m) = largest_count(init) {
            let j = choose|j: int| 0 <= j < init.len() && #[trigger] init[j].1 == m;
            assert(levels[j].1 == m);
        }
    }
}

/// The number of matching records to show: `-n`, else the positional count,
/// else the largest count given with a level flag, else `DEFAULT_COUNT`.
pub open spec fn resolved_count(
    lines: Option<usize>,
    positional: Option<usize>,
    levels: Seq<(Severity, usize)>,
) -> usize {
    match lines {
        Some(n) => n,
        None => match positional {
            Some(n) => n,
            None => match largest_count(levels) {
                Some(m) => m,
                None => DEFAULT_COUNT,
            },
        },
    }
}

/// The levels asked for, in the order of their flags.
pub open spec fn selected_levels(levels: Seq<(Severity, usize)>) -> Seq<Severity> {
    levels.map_values(|l: (Severity, usize)| l.0)
}

/// How the count is chosen: `-n` wins over everything, then the positional
/// count; without either, the largest count given with a level flag; and
/// `DEFAULT_COUNT` when no flag carries one.
pub proof fn lemma_count_priority(
    lines: Option<usize>,
    positional: Option<usize>,
    levels: Seq<(Severity, usize)>,
)
    ensures
        lines matches Some(n) ==> resolved_count(lines, positional, levels) == n,
        lines is None ==> (positional matches Some(p) ==> resolved_count(lines, positional, levels)
            == p),
        lines is None && positional is None && levels.len() == 0 ==> resolved_count(
            lines,
            positional,
            levels,
        ) == DEFAULT_COUNT,
        lines is None && positional is None && levels.len() > 0 ==> {
            &&& forall|i: int|
                0 <= i < levels.len() ==> #[trigger] levels[i].1 <= resolved_count(
                    lines,
                    positional,
                    levels,
                )
            &&& exists|i: int|
                0 <= i < levels.len() && #[trigger] levels[i].1 == resolved_count(
                    lines,
                    positional,
                    levels,
                )
        },
{
    lemma_largest_count_is_max(levels);
}

/// Every level flag given selects its level, in the order of the flags, and
/// nothing else: the levels are combined with OR.
pub proof fn lemma_selected_levels(levels: Seq<(Severity, usize)>)
    ensures
        selected_levels(levels).len() == levels.len(),
        forall|i: int| 0 <= i < levels.len() ==> #[trigger] selected_levels(levels)[i] == levels[i].0,
{
}

/// A record whose label names the level of any flag given passes the level
/// condition of the resulting filter.
pub proof fn lemma_every_given_level_is_shown(levels: Seq<(Severity, usize)>, line: Seq<char>, i: int)
    requires
        0 <= i < levels.len(),
        record_level_span(encode_utf8(line)) matches Some(span) && span.2 == levels[i].0,
    ensures
        level_accepts(selected_levels(levels), line),
{
    lemma_selected_levels(levels);
    assert(selected_levels(levels)[i] == levels[i].0);
}

/// Resolves the number of records to show. `levels` holds the level flags
/// that were given, each with its count (a bare flag counts `DEFAULT_COUNT`).
pub fn resolve_count(
    lines: Option<usize>,
    positional: Option<usize>,
    levels: &Vec<(Severity, usize)>,
) -> (count: usize)
    ensures
        count == resolved_count(lines, positional, levels@),
        lines matches Some(n) ==> count == n,
        lines is None ==> (positional matches Some(p) ==> count == p),
        lines is None && positional is None && levels@.len() == 0 ==> count == DEFAULT_COUNT,
        lines is None && positional is None && levels@.len() > 0 ==> {
            &&& forall|i: int| 0 <= i < levels@.len() ==> #[trigger] levels@[i].1 <= count
            &&& exists|i: int| 0 <= i < levels@.len() && #[trigger] levels@[i].1 == count
        },
{
    proof {
        lemma_count_priority(lines, positional, levels@);
    }
    if let Some(n) = lines {
        return n;
    }
    if let Some(n) = positional {
        return n;
    }
    let mut largest: Option<usize> = None;
    let mut i: usize = 0;
    while i < levels.len()
        invariant
            i <= levels@.len(),
            largest == largest_count(levels@.subrange(0, i as int)),
        decreases levels@.len() - i,
    {
        let c = levels[i].1;
        proof {
            let next = levels@.subrange(0, i + 1);
            assert(next.drop_last() =~= levels@.subrange(0, i as int));
            assert(next.last() == levels@[i as int]);
        }
        largest = match largest {
            Some(m) => Some(if m >= c {
                m
            } else {
                c
            }),
            None => Some(c),
        };
        i = i + 1;
    }
    assert(levels@.subrange(0, i as int) =~= levels@);
    match largest {
        Some(m) => m,
        None => DEFAULT_COUNT,
    }
}

/// How the viewer runs: the number of matching records to show first,
/// whether it then follows new writes, and the filter records must pass.
pub struct Settings {
    pub count: usize,
    pub follow: bool,
    pub filter: Filter,
}

impl Settings {
    /// The settings for a command line: `-n` (`lines`), the positional
    /// count, the level flags given with their counts, `--contains`,
    /// `--ignore-case`, `--once` and `--follow`.
    pub fn new(
        lines: Option<usize>,
        positional: Option<usize>,
        levels: &Vec<(Severity, usize)>,
        contains: Option<&str>,
        ignore_case: bool,
        once: bool,
        follow: bool,
    ) -> (s: Settings)
        ensures
            s.count == resolved_count(lines, positional, levels@),
            s.follow == (!once && follow),
            s.filter.levels@ == selected_levels(levels@),
            s.filter.levels@.len() == levels@.len(),
            forall|i: int| 0 <= i < levels@.len() ==> #[trigger] s.filter.levels@[i] == levels@[i].0,
            lines matches Some(n) ==> s.count == n,
            s.filter.ignore_case == ignore_case,
            contains is None ==> s.filter.text is None,
            contains matches Some(t) ==> s.filter.text matches Some(ft) && ft@ == (if ignore_case {
                lowercase(t@)
            } else {
                t@
            }),
    {
        proof {
            lemma_selected_levels(levels@);
        }
        let count = resolve_count(lines, positional, levels);
        let mut names: Vec<Severity> = Vec::new();
        let mut i: usize = 0;
        while i < levels.len()
            invariant
                i <= levels@.len(),
                names@ == selected_levels(levels@.subrange(0, i as int)),
            decreases levels@.len() - i,
        {
            names.push(levels[i].0);
            i = i + 1;
            assert(names@ =~= selected_levels(levels@.subrange(0, i as int)));
        }
        assert(levels@.subrange(0, i as int) =~= levels@);
        let filter = Filter::new(names, contains, ignore_case);
        Settings { count, follow: !once && follow, filter }
    }
}

/// When the viewer does not follow the file, an incomplete last record (one
/// without a newline) is shown too, as it stands. When it follows, the record
/// waits for its newline.
pub fn final_record(pending: &[u8], follow: bool) -> (r: Option<String>)
    ensures
        r is Some <==> (!follow && pending@.len() > 0),
        r matches Some(s) ==> s@ == utf8_lossy(pending@),
        r matches Some(s) ==> (valid_utf8(pending@) ==> s@ == decode_utf8(pending@)),
{
    if !follow && pending.len() > 0 {
        Some(decode_lossy(pending))
    } else {
        None
    }
}

} // verus!
