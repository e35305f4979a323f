//! Which records the viewer shows: a set of levels (any of them) and a
//! literal text that must occur, optionally ignoring case.
use vstd::prelude::*;
use vstd::string::StringSliceAdditionalSpecFns;
use vstd::utf8::encode_utf8;

use crate::severity::{level_span, record_level_span, Severity};

verus! {

/// What `str::to_lowercase` gives for a text. The result depends on the text
/// alone: Rust's Unicode lowercasing uses no locale.
pub uninterp spec fn lowercase(s: Seq<char>) -> Seq<char>;

/// `str::to_lowercase`: the text lowercased, by the name `lowercase`.
#[verifier::external_body]
fn to_lowercase(s: &str) -> (r: String)
    ensures
        r@ == lowercase(s@),
{
    s.to_lowercase()
}

/// `needle` occurs in `hay` as a contiguous run of bytes.
pub open spec fn occurs_in(needle: Seq<u8>, hay: Seq<u8>) -> bool {
    exists|i: int|
        0 <= i && i + needle.len() <= hay.len() && #[trigger] hay.subrange(i, i + needle.len())
            == needle
}

/// Whether `needle` occurs in `hay` at index `i`.
fn occurs_at(hay: &[u8], i: usize, needle: &[u8]) -> (r: bool)
    requires
        i + needle@.len() <= hay@.len(),
    ensures
        r == (hay@.subrange(i as int, i + needle@.len()) == needle@),
{
    let n = hay.len();
    let mut j: usize = 0;
    while j < needle.len()
        invariant
            n == hay@.len(),
            i + needle@.len() <= hay@.len(),
            j <= needle@.len(),
            forall|m: int| 0 <= m < j ==> hay@[i + m] == needle@[m],
        decreases needle@.len() - j,
    {
        if hay[i + j] != needle[j] {
            assert(hay@.subrange(i as int, i + needle@.len())[j as int] != needle@[j as int]);
            return false;
        }
        j = j + 1;
    }
    assert(hay@.subrange(i as int, i + needle@.len()) =~= needle@);
    true
}

/// Whether `needle` occurs in `hay`. On UTF-8 encodings this is the same as
/// a literal search among characters.
pub fn contains_bytes(hay: &[u8], needle: &[u8]) -> (r: bool)
    ensures
        r == occurs_in(needle@, hay@),
{
    if needle.len() > hay.len() {
        return false;
    }
    let last = hay.len() - needle.len();
    let mut i: usize = 0;
    loop
        invariant
            last == hay@.len() - needle@.len(),
            i <= last,
            forall|k: int|
                0 <= k < i ==> #[trigger] hay@.subrange(k, k + needle@.len()) != needle@,
        ensures
            forall|k: int|
                0 <= k <= last ==> #[trigger] hay@.subrange(k, k + needle@.len()) != needle@,
        decreases last - i,
    {
        if occurs_at(hay, i, needle) {
            return true;
        }
        if i == last {
            break;
        }
        i = i + 1;
    }
    assert forall|k: int|
        0 <= k && k + needle@.len() <= hay@.len() implies #[trigger] hay@.subrange(
        k,
        k + needle@.len(),
    ) != needle@ by {
        assert(k <= last);
    }
    false
}

/// A record filter. A record passes when its level is one of `levels` (or
/// `levels` is empty) and, when `text` is set, it contains `text`; with
/// `ignore_case` the record is lowercased before the search, and `text` is
/// expected to be lowercase already (`Filter::new` makes it so).
pub struct Filter {
    pub levels: Vec<Severity>,
    pub text: Option<String>,
    pub ignore_case: bool,
}

/// The level condition: no levels asked for, or the record's label names one
/// of them. A record without a recognized label passes only the former.
pub open spec fn level_accepts(levels: Seq<Severity>, line: Seq<char>) -> bool {
    levels.len() == 0 || (record_level_span(encode_utf8(line)) matches Some(span)
        && levels.contains(span.2))
}

/// The text condition.
pub open spec fn text_accepts(text: Option<Seq<char>>, ignore_case: bool, line: Seq<char>) -> bool {
    match text {
        None => true,
        Some(t) => if ignore_case {
            occurs_in(encode_utf8(t), encode_utf8(lowercase(line)))
        } else {
            occurs_in(encode_utf8(t), encode_utf8(line))
        },
    }
}

/// The text of an optional string.
pub open spec fn text_view(text: Option<String>) -> Option<Seq<char>> {
    match text {
        Some(t) => Some(t@),
        None => None,
    }
}

impl Filter {
    /// Whether a record's text passes this filter.
    pub open spec fn accepts(&self, line: Seq<char>) -> bool {
        level_accepts(self.levels@, line) && text_accepts(
            text_view(self.text),
            self.ignore_case,
            line,
        )
    }

    /// A filter for the given levels and text. With `ignore_case` the text is
    /// lowercased once here, as records are when they are compared with it.
    pub fn new(levels: Vec<Severity>, text: Option<&str>, ignore_case: bool) -> (f: Filter)
        ensures
            f.levels@ == levels@,
            f.ignore_case == ignore_case,
            text is None ==> f.text is None,
            text matches Some(t) ==> f.text matches Some(ft) && ft@ == (if ignore_case {
                lowercase(t@)
            } else {
                t@
            }),
    {
        let text = match text {
            Some(t) => if ignore_case {
                Some(to_lowercase(t))
            } else {
                Some(t.to_owned())
            },
            None => None,
        };
        Filter { levels, text, ignore_case }
    }

    /// Whether the record `line` passes.
    pub fn matches(&self, line: &str) -> (r: bool)
        ensures
            r == self.accepts(line@),
    {
        let level_ok = if self.levels.len() == 0 {
            true
        } else {
            match level_span(line) {
                Some((_, _, level)) => {
                    let mut k: usize = 0;
                    let mut found = false;
                    while k < self.levels.len()
                        invariant
                            k <= self.levels@.len(),
                            !found ==> forall|m: int| 0 <= m < k ==> self.levels@[m] != level,
                            found ==> self.levels@.contains(level),
                        decreases self.levels@.len() - k,
                    {
                        if self.levels[k] == level {
                            found = true;
                        }
                        k = k + 1;
                    }
                    found
                },
                None => false,
            }
        };
        if !level_ok {
            return false;
        }
        match &self.text {
            None => true,
            Some(t) => if self.ignore_case {
                let lower = to_lowercase(line);
                contains_bytes(lower.as_str().as_bytes(), t.as_str().as_bytes())
            } else {
                contains_bytes(line.as_bytes(), t.as_str().as_bytes())
            },
        }
    }
}

} // verus!
