//! Finding where the last `count` matching records of a file begin, by
//! scanning it backwards in blocks from a fixed end, so that only one block and
//! one record are held at a time and the old prefix of a large file is never
//! read.
//!
//! `BackwardScan` holds the decisions; whoever owns the file performs the
//! reads it asks for: `next_step` names the block to read next (or the
//! answer), and `feed` hands the block's bytes over.
use vstd::prelude::*;

use crate::filter::Filter;
use crate::record::{
    lemma_split_remainder_has_no_newline, record_text, split_records, text, utf8_lossy, NEWLINE,
};

verus! {

/// The size of the blocks read while scanning backwards.
pub const BLOCK_SIZE: usize = 65536;

/// The end (exclusive) of the record that starts at `i`: just past the first
/// newline at or after `i`, or the end of `s`.
pub open spec fn record_end(s: Seq<u8>, i: int) -> int
    decreases s.len() - i,
{
    if i < 0 || i >= s.len() {
        s.len() as int
    } else if s[i] == NEWLINE {
        i + 1
    } else {
        record_end(s, i + 1)
    }
}

/// A record starts at `q`, after a newline, and it is not the first record.
pub open spec fn is_boundary(s: Seq<u8>, q: int) -> bool {
    0 < q < s.len() && s[q - 1] == NEWLINE
}

/// The bytes of the record that starts at `q`.
pub open spec fn record_at(s: Seq<u8>, q: int) -> Seq<u8> {
    s.subrange(q, record_end(s, q))
}

/// A record that is not the first one starts at `q` and passes the filter.
pub open spec fn counts_at(s: Seq<u8>, q: int, f: Filter) -> bool {
    is_boundary(s, q) && f.accepts(record_text(record_at(s, q)))
}

/// How many records that pass `f` start at an offset `>= q` (the first
/// record, at offset 0, is never counted).
pub open spec fn matches_from(s: Seq<u8>, q: int, f: Filter) -> nat
    decreases s.len() - q,
{
    if q >= s.len() {
        0
    } else {
        (if counts_at(s, q, f) {
            1nat
        } else {
            0nat
        }) + matches_from(s, q + 1, f)
    }
}

/// `q` is the greatest offset inside `s`, past its first byte, from which at
/// least `count` matching records begin.
pub open spec fn is_scan_start(s: Seq<u8>, count: nat, f: Filter, q: int) -> bool {
    &&& 0 < q < s.len()
    &&& matches_from(s, q, f) >= count
    &&& forall|p: int| q < p < s.len() ==> #[trigger] matches_from(s, p, f) < count
}

/// Where reading must begin to show the last `count` records of `s` that pass
/// `f`: the end of `s` when `count` is 0; otherwise the greatest offset past
/// the first byte from which `count` matching records begin, or 0 when there
/// is none (then every record is kept).
pub open spec fn find_start_spec(s: Seq<u8>, count: nat, f: Filter) -> int {
    if count == 0 {
        s.len() as int
    } else if exists|q: int| is_scan_start(s, count, f, q) {
        choose|q: int| is_scan_start(s, count, f, q)
    } else {
        0
    }
}

/// `r` is the answer for every content of length `end` whose last bytes are
/// `seen`: the bytes before them do not matter.
pub open spec fn settles(seen: Seq<u8>, end: nat, count: nat, f: Filter, r: int) -> bool {
    forall|s: Seq<u8>|
        s.len() == end && #[trigger] s.subrange(end - seen.len(), end as int) == seen
            ==> find_start_spec(s, count, f) == r
}

/// Dropping the first `k` bytes shifts record ends by `k`.
pub proof fn lemma_record_end_shift(s: Seq<u8>, k: int, q: int)
    requires
        0 <= k <= q,
        k <= s.len(),
    ensures
        record_end(s, q) == record_end(s.subrange(k, s.len() as int), q - k) + k,
    decreases s.len() - q,
{
    let t = s.subrange(k, s.len() as int);
    if q < s.len() {
        assert(s[q] == t[q - k]);
        if s[q] != NEWLINE {
            lemma_record_end_shift(s, k, q + 1);
        }
    }
}

pub proof fn lemma_record_end_bounds(s: Seq<u8>, q: int)
    requires
        0 <= q,
    ensures
        q < s.len() ==> q < record_end(s, q) <= s.len(),
        q >= s.len() ==> record_end(s, q) == s.len(),
        forall|k: int| q <= k < record_end(s, q) - 1 ==> s[k] != NEWLINE,
        q < s.len() && record_end(s, q) < s.len() ==> s[record_end(s, q) - 1] == NEWLINE,
    decreases s.len() - q,
{
    if q < s.len() && s[q] != NEWLINE {
        lemma_record_end_bounds(s, q + 1);
    }
}

/// Dropping the first `k` bytes keeps the count of matching records that start
/// past `k`.
pub proof fn lemma_matches_shift(s: Seq<u8>, k: int, q: int, f: Filter)
    requires
        0 <= k,
        k + 1 <= q,
        k <= s.len(),
    ensures
        matches_from(s, q, f) == matches_from(s.subrange(k, s.len() as int), q - k, f),
    decreases s.len() - q,
{
    let t = s.subrange(k, s.len() as int);
    if q < s.len() {
        assert(s[q - 1] == t[q - k - 1]);
        lemma_record_end_shift(s, k, q);
        lemma_record_end_bounds(s, q);
        lemma_record_end_bounds(t, q - k);
        assert(record_at(s, q) =~= record_at(t, q - k));
        lemma_matches_shift(s, k, q + 1, f);
    }
}

/// Fewer matching records start further on.
pub proof fn lemma_matches_monotone(s: Seq<u8>, q1: int, q2: int, f: Filter)
    requires
        q1 <= q2,
    ensures
        matches_from(s, q2, f) <= matches_from(s, q1, f),
    decreases q2 - q1,
{
    if q1 < q2 {
        lemma_matches_monotone(s, q1 + 1, q2, f);
    }
}

/// The greatest offset is unique.
pub proof fn lemma_scan_start_is_answer(s: Seq<u8>, count: nat, f: Filter, q: int)
    requires
        count > 0,
        is_scan_start(s, count, f, q),
    ensures
        find_start_spec(s, count, f) == q,
{
    let c = choose|p: int| is_scan_start(s, count, f, p);
    assert(is_scan_start(s, count, f, c));
    if c < q {
        assert(matches_from(s, q, f) < count);
    } else if c > q {
        assert(matches_from(s, c, f) < count);
    }
}

/// With fewer than `count` matching records past the first byte, reading
/// starts at 0.
pub proof fn lemma_no_scan_start(s: Seq<u8>, count: nat, f: Filter)
    requires
        count > 0,
        matches_from(s, 1, f) < count,
    ensures
        find_start_spec(s, count, f) == 0,
{
    assert forall|q: int| !is_scan_start(s, count, f, q) by {
        if 0 < q < s.len() {
            lemma_matches_monotone(s, 1, q, f);
        }
    }
}

/// Taking one more byte in front of the scanned suffix.
proof fn lemma_prepend_byte(b: u8, t: Seq<u8>, f: Filter)
    ensures
        ({
            let u = seq![b] + t;
            &&& record_end(u, 0) == (if b == NEWLINE {
                1
            } else {
                record_end(t, 0) + 1
            })
            &&& matches_from(u, 1, f) == (if b == NEWLINE && t.len() > 0 && f.accepts(
                record_text(t.subrange(0, record_end(t, 0))),
            ) {
                1nat
            } else {
                0nat
            }) + matches_from(t, 1, f)
        }),
{
    let u = seq![b] + t;
    assert(u.subrange(1, u.len() as int) =~= t);
    assert(u[0] == b);
    lemma_record_end_shift(u, 1, 1);
    if t.len() > 0 {
        lemma_record_end_bounds(t, 0);
        assert(record_at(u, 1) =~= t.subrange(0, record_end(t, 0)));
        lemma_matches_shift(u, 1, 2, f);
    }
}

/// The records that start at `q` or later, when a record starts at `q`: each
/// runs up to and including its newline, the last one possibly without.
pub open spec fn records_from(s: Seq<u8>, q: int) -> Seq<Seq<u8>>
    decreases s.len() - q,
{
    if q < 0 || q >= s.len() {
        seq![]
    } else {
        proof {
            lemma_record_end_bounds(s, q);
        }
        seq![record_at(s, q)] + records_from(s, record_end(s, q))
    }
}

/// The records of `s`, in order.
pub open spec fn records(s: Seq<u8>) -> Seq<Seq<u8>> {
    records_from(s, 0)
}

/// The records whose text passes `f`, in order.
pub open spec fn matching_records(recs: Seq<Seq<u8>>, f: Filter) -> Seq<Seq<u8>> {
    recs.filter(|r: Seq<u8>| f.accepts(record_text(r)))
}

/// The last `n` elements of `x` (all of them when it has fewer).
pub open spec fn last_n<A>(x: Seq<A>, n: nat) -> Seq<A> {
    if n >= x.len() {
        x
    } else {
        x.subrange(x.len() - n, x.len() as int)
    }
}

/// A record starts at `q` (or `q` is the end).
pub open spec fn starts_record(s: Seq<u8>, q: int) -> bool {
    q == 0 || is_boundary(s, q) || q == s.len()
}

proof fn lemma_records_shift(s: Seq<u8>, k: int, q: int)
    requires
        0 <= k <= q,
        k <= s.len(),
    ensures
        records_from(s, q) == records_from(s.subrange(k, s.len() as int), q - k),
    decreases s.len() - q,
{
    let t = s.subrange(k, s.len() as int);
    if q < s.len() {
        lemma_record_end_shift(s, k, q);
        lemma_record_end_bounds(s, q);
        lemma_record_end_bounds(t, q - k);
        assert(record_at(s, q) =~= record_at(t, q - k));
        lemma_records_shift(s, k, record_end(s, q));
    }
}

/// The records from `p` end with those from any later record start `q`.
proof fn lemma_records_suffix(s: Seq<u8>, p: int, q: int)
    requires
        0 <= p <= q <= s.len(),
        starts_record(s, p),
        starts_record(s, q),
    ensures
        exists|a: Seq<Seq<u8>>| records_from(s, p) == a + records_from(s, q),
    decreases q - p,
{
    if p == q {
        assert(records_from(s, p) == Seq::<Seq<u8>>::empty() + records_from(s, q));
    } else {
        lemma_record_end_bounds(s, p);
        let e = record_end(s, p);
        if q < e {
            assert(s[q - 1] != NEWLINE);
        }
        lemma_records_suffix(s, e, q);
        let a = choose|a: Seq<Seq<u8>>| records_from(s, e) == a + records_from(s, q);
        assert(records_from(s, p) == (seq![record_at(s, p)] + a) + records_from(s, q));
    }
}

proof fn lemma_matches_skip(s: Seq<u8>, a: int, b: int, f: Filter)
    requires
        a <= b,
        forall|k: int| a <= k < b ==> !is_boundary(s, k),
    ensures
        matches_from(s, a, f) == matches_from(s, b, f),
    decreases b - a,
{
    if a < b {
        lemma_matches_skip(s, a + 1, b, f);
    }
}

/// From a record start past the first byte, the matching records counted by
/// `matches_from` are the matching records listed by `records_from`.
proof fn lemma_matching_count(s: Seq<u8>, q: int, f: Filter)
    requires
        0 < q <= s.len(),
        starts_record(s, q),
    ensures
        matching_records(records_from(s, q), f).len() == matches_from(s, q, f),
    decreases s.len() - q,
{
    broadcast use vstd::seq_lib::group_filter_ensures;
    if q < s.len() {
        lemma_record_end_bounds(s, q);
        let e = record_end(s, q);
        assert forall|k: int| q + 1 <= k < e implies !is_boundary(s, k) by {}
        lemma_matches_skip(s, q + 1, e, f);
        lemma_matching_count(s, e, f);
        let head = seq![record_at(s, q)];
        let pred = |r: Seq<u8>| f.accepts(record_text(r));
        Seq::filter_distributes_over_add(head, records_from(s, e), pred);
        reveal_with_fuel(Seq::filter, 2);
        assert(head.drop_last() =~= Seq::<Seq<u8>>::empty());
    }
}

/// When some offset past the first byte has `count` matching records after
/// it, a greatest such offset exists.
proof fn lemma_scan_start_exists(s: Seq<u8>, count: nat, f: Filter, q: int)
    requires
        0 < q < s.len(),
        matches_from(s, q, f) >= count,
    ensures
        exists|p: int| is_scan_start(s, count, f, p),
    decreases s.len() - q,
{
    if exists|p: int| q < p < s.len() && matches_from(s, p, f) >= count {
        let p = choose|p: int| q < p < s.len() && matches_from(s, p, f) >= count;
        lemma_scan_start_exists(s, count, f, p);
    } else {
        assert(is_scan_start(s, count, f, q));
    }
}

/// Reading from `find_start_spec` shows exactly the last `count` matching
/// records: the records that pass the filter in what follows the start are
/// the last `count` of those in the whole content (all of them when there
/// are fewer).
pub proof fn lemma_find_start_keeps_last_matches(s: Seq<u8>, count: nat, f: Filter)
    ensures
        0 <= find_start_spec(s, count, f) <= s.len(),
        count > 0 ==> find_start_spec(s, count, f) == 0 || is_boundary(s, find_start_spec(s, count, f)),
        matching_records(
            records(s.subrange(find_start_spec(s, count, f), s.len() as int)),
            f,
        ) == last_n(matching_records(records(s), f), count),
{
    broadcast use vstd::seq_lib::group_filter_ensures;
    let r = find_start_spec(s, count, f);
    let pred = |x: Seq<u8>| f.accepts(record_text(x));
    let all = matching_records(records(s), f);
    if count == 0 {
        assert(records(s.subrange(r, s.len() as int)) =~= Seq::<Seq<u8>>::empty());
        assert(matching_records(Seq::<Seq<u8>>::empty(), f) =~= Seq::<Seq<u8>>::empty());
    } else if exists|q: int| is_scan_start(s, count, f, q) {
        let q = choose|q: int| is_scan_start(s, count, f, q);
        assert(is_scan_start(s, count, f, q));
        assert(matches_from(s, q + 1, f) < count);
        assert(counts_at(s, q, f));
        lemma_records_shift(s, q, q);
        lemma_records_suffix(s, 0, q);
        let a = choose|a: Seq<Seq<u8>>| records_from(s, 0) == a + records_from(s, q);
        Seq::filter_distributes_over_add(a, records_from(s, q), pred);
        lemma_matching_count(s, q, f);
        let tail = matching_records(records_from(s, q), f);
        assert(tail.len() == count);
        assert(all == matching_records(a, f) + tail);
        assert(all.subrange(all.len() - count, all.len() as int) =~= tail);
    } else {
        assert(s.subrange(0, s.len() as int) =~= s);
        if s.len() > 0 {
            lemma_record_end_bounds(s, 0);
            let e = record_end(s, 0);
            let head = seq![record_at(s, 0)];
            Seq::filter_distributes_over_add(head, records_from(s, e), pred);
            assert(head.filter(pred).len() <= 1) by {
                reveal_with_fuel(Seq::filter, 2);
                assert(head.drop_last() =~= Seq::<Seq<u8>>::empty());
            }
            lemma_matching_count(s, e, f);
            if e < s.len() {
                if matches_from(s, e, f) >= count {
                    lemma_scan_start_exists(s, count, f, e);
                }
            }
        }
    }
}

proof fn lemma_record_end_at_first_newline(x: Seq<u8>, i: int, k: int)
    requires
        0 <= i <= k < x.len(),
        x[k] == NEWLINE,
        forall|j: int| i <= j < k ==> x[j] != NEWLINE,
    ensures
        record_end(x, i) == k + 1,
    decreases k - i,
{
    if i < k {
        lemma_record_end_at_first_newline(x, i + 1, k);
    }
}

proof fn lemma_record_end_without_newline(x: Seq<u8>, i: int)
    requires
        0 <= i,
        forall|j: int| i <= j < x.len() ==> x[j] != NEWLINE,
    ensures
        record_end(x, i) == x.len() || i > x.len(),
    decreases x.len() - i,
{
    if i < x.len() {
        lemma_record_end_without_newline(x, i + 1);
    }
}

/// The records that `read_records` returns as it reads forward, followed by
/// the incomplete last record it keeps pending (when there is one), are the
/// records of the content, as the backward scan counts them.
pub proof fn lemma_forward_reading_gives_records(s: Seq<u8>)
    ensures
        ({
            let split = split_records(seq![], s);
            records(s) == split.0 + (if split.1.len() > 0 {
                seq![split.1]
            } else {
                Seq::<Seq<u8>>::empty()
            })
        }),
{
    lemma_split_matches_records(seq![], s);
    assert(Seq::<u8>::empty() + s =~= s);
}

proof fn lemma_split_matches_records(acc: Seq<u8>, data: Seq<u8>)
    requires
        forall|j: int| 0 <= j < acc.len() ==> acc[j] != NEWLINE,
    ensures
        ({
            let split = split_records(acc, data);
            records(acc + data) == split.0 + (if split.1.len() > 0 {
                seq![split.1]
            } else {
                Seq::<Seq<u8>>::empty()
            })
        }),
    decreases data.len(),
{
    let x = acc + data;
    if data.len() == 0 {
        assert(x =~= acc);
        if acc.len() > 0 {
            lemma_record_end_without_newline(acc, 0);
            assert(record_at(acc, 0) =~= acc);
            assert(records_from(acc, acc.len() as int) =~= Seq::<Seq<u8>>::empty());
            assert(records(acc) =~= seq![acc]);
        }
        assert(Seq::<Seq<u8>>::empty() + (if acc.len() > 0 {
            seq![acc]
        } else {
            Seq::<Seq<u8>>::empty()
        }) =~= records(x));
    } else if data[0] != NEWLINE {
        let grown = acc.push(data[0]);
        assert(grown + data.drop_first() =~= x);
        lemma_split_matches_records(grown, data.drop_first());
    } else {
        let k = acc.len() as int;
        let rest_data = data.drop_first();
        assert(x[k] == NEWLINE);
        lemma_record_end_at_first_newline(x, 0, k);
        assert(record_at(x, 0) =~= acc.push(data[0]));
        lemma_records_shift(x, k + 1, k + 1);
        assert(x.subrange(k + 1, x.len() as int) =~= Seq::<u8>::empty() + rest_data);
        lemma_split_matches_records(seq![], rest_data);
        let rest = split_records(seq![], rest_data);
        let last: Seq<Seq<u8>> = if rest.1.len() > 0 {
            seq![rest.1]
        } else {
            Seq::<Seq<u8>>::empty()
        };
        assert(records(x) == seq![acc.push(data[0])] + (rest.0 + last));
        assert(seq![acc.push(data[0])] + (rest.0 + last) =~= (seq![acc.push(data[0])] + rest.0)
            + last);
    }
}

/// Reading forward from the start that the backward scan gives, the complete
/// records (and the incomplete last one, shown as it stands when the viewer
/// does not follow) that pass the filter are exactly the last `count`
/// matching records of the content. The incomplete record's text is its bytes
/// decoded as they are, since it holds no newline.
pub proof fn lemma_once_shows_last_matches(s: Seq<u8>, count: nat, f: Filter)
    ensures
        ({
            let r = find_start_spec(s, count, f);
            let split = split_records(seq![], s.subrange(r, s.len() as int));
            &&& matching_records(
                split.0 + (if split.1.len() > 0 {
                    seq![split.1]
                } else {
                    Seq::<Seq<u8>>::empty()
                }),
                f,
            ) == last_n(matching_records(records(s), f), count)
            &&& record_text(split.1) == utf8_lossy(split.1)
        }),
{
    let r = find_start_spec(s, count, f);
    lemma_find_start_keeps_last_matches(s, count, f);
    lemma_forward_reading_gives_records(s.subrange(r, s.len() as int));
    let split = split_records(seq![], s.subrange(r, s.len() as int));
    lemma_split_remainder_has_no_newline(seq![], s.subrange(r, s.len() as int));
    if split.1.len() > 0 {
        assert(split.1.contains(split.1.last()));
    }
}

/// The bytes of `rev` are those of the record at the front of `t`, last first.
pub open spec fn holds_reversed_record(rev: Seq<u8>, t: Seq<u8>) -> bool {
    &&& rev.len() == record_end(t, 0)
    &&& forall|k: int| 0 <= k < rev.len() ==> rev[k] == t[rev.len() - 1 - k]
}

/// What to do next in a backward scan.
#[derive(Debug, PartialEq, Eq, Structural)]
pub enum ScanStep {
    /// Read `size` bytes at offset `position` and hand them to `feed`.
    Read { position: u64, size: usize },
    /// Reading must begin at this offset.
    Done(u64),
}

/// The state of a backward scan for the last `count` records of the first
/// `end` bytes of a file that pass a filter.
pub struct BackwardScan {
    end: u64,
    count: usize,
    filter: Filter,
    position: u64,
    found: usize,
    reversed: Vec<u8>,
    start: Option<u64>,
    seen: Ghost<Seq<u8>>,
}

impl BackwardScan {
    /// The end of the scanned content.
    pub closed spec fn end_spec(&self) -> nat {
        self.end as nat
    }

    /// How many matching records are asked for.
    pub closed spec fn count_spec(&self) -> nat {
        self.count as nat
    }

    /// The filter records must pass.
    pub closed spec fn filter_spec(&self) -> Filter {
        self.filter
    }

    /// The offset of the lowest byte fed so far.
    pub closed spec fn position_spec(&self) -> nat {
        self.position as nat
    }

    /// The bytes fed so far, in file order: those from `position_spec` to the end.
    pub closed spec fn seen(&self) -> Seq<u8> {
        self.seen@
    }

    /// The answer, once the scan has settled it before reaching offset 0.
    pub closed spec fn answer(&self) -> Option<u64> {
        self.start
    }

    /// How many matching records the scan has found so far.
    pub closed spec fn found_spec(&self) -> nat {
        self.found as nat
    }

    /// The block the scan wants next, if it still wants one.
    pub closed spec fn pending_read(&self) -> Option<(u64, usize)> {
        if self.start is None && self.position > 0 {
            let size = if self.position < BLOCK_SIZE {
                self.position as usize
            } else {
                BLOCK_SIZE
            };
            Some(((self.position - size) as u64, size))
        } else {
            None
        }
    }

    pub closed spec fn wf(&self) -> bool {
        &&& self.position <= self.end
        &&& self.seen@.len() == self.end - self.position
        &&& match self.start {
            Some(r) => settles(self.seen@, self.end as nat, self.count as nat, self.filter, r as int),
            None => {
                &&& self.found < self.count
                &&& self.found == matches_from(self.seen@, 1, self.filter)
                &&& holds_reversed_record(self.reversed@, self.seen@)
            },
        }
    }

    /// Starts a scan of the content before offset `end` for the last `count`
    /// records that pass `filter`.
    pub fn new(end: u64, count: usize, filter: Filter) -> (scan: BackwardScan)
        ensures
            scan.wf(),
            scan.end_spec() == end,
            scan.count_spec() == count,
            scan.filter_spec() == filter,
            scan.position_spec() == end,
            scan.seen() == Seq::<u8>::empty(),
            count == 0 ==> scan.answer() == Some(end),
            count > 0 ==> scan.answer() is None && scan.found_spec() == 0,
    {
        let start = if count == 0 {
            Some(end)
        } else {
            None
        };
        let scan = BackwardScan {
            end,
            count,
            filter,
            position: end,
            found: 0,
            reversed: Vec::new(),
            start,
            seen: Ghost(Seq::empty()),
        };
        proof {
            if count == 0 {
                assert forall|s: Seq<u8>|
                    s.len() == end && #[trigger] s.subrange(end - 0, end as int) == Seq::<
                        u8,
                    >::empty() implies find_start_spec(s, 0, filter) == end by {}
            }
        }
        scan
    }

    /// The filter the scan uses.
    pub fn filter(&self) -> (f: &Filter)
        ensures
            *f == self.filter_spec(),
    {
        &self.filter
    }

    /// Gives the filter back once the scan is over.
    pub fn into_filter(self) -> (f: Filter)
        ensures
            f == self.filter_spec(),
    {
        self.filter
    }

    /// What to do next: read the block of up to `BLOCK_SIZE` bytes just
    /// before the part already scanned, or use the answer. The answer holds
    /// for every content whose last bytes are those fed so far.
    pub fn next_step(&self) -> (step: ScanStep)
        requires
            self.wf(),
        ensures
            step is Read <==> self.pending_read() is Some,
            step is Read <==> (self.answer() is None && self.position_spec() > 0),
            step matches ScanStep::Done(r) ==> (self.answer() == Some(r) || (self.answer() is None
                && self.position_spec() == 0 && r == 0)),
            step matches ScanStep::Read { position, size } ==> {
                &&& self.pending_read() == Some((position, size))
                &&& 0 < size <= BLOCK_SIZE
                &&& size <= self.position_spec()
                &&& position == self.position_spec() - size
                &&& (size == BLOCK_SIZE || position == 0)
            },
            step matches ScanStep::Done(r) ==> settles(
                self.seen(),
                self.end_spec(),
                self.count_spec(),
                self.filter_spec(),
                r as int,
            ),
    {
        match self.start {
            Some(r) => ScanStep::Done(r),
            None => {
                if self.position == 0 {
                    proof {
                        assert forall|s: Seq<u8>|
                            s.len() == self.end && #[trigger] s.subrange(
                                self.end - self.seen@.len(),
                                self.end as int,
                            ) == self.seen@ implies find_start_spec(
                            s,
                            self.count as nat,
                            self.filter,
                        ) == 0 by {
                            assert(s =~= self.seen@);
                            lemma_no_scan_start(s, self.count as nat, self.filter);
                        }
                    }
                    ScanStep::Done(0)
                } else {
                    let size: usize = if self.position < BLOCK_SIZE as u64 {
                        self.position as usize
                    } else {
                        BLOCK_SIZE
                    };
                    ScanStep::Read { position: self.position - size as u64, size }
                }
            },
        }
    }

    /// Hands over the block that `next_step` asked for. The scan takes its
    /// bytes from the last to the first and stops as soon as it has found
    /// `count` matching records.
    pub fn feed(&mut self, block: &[u8])
        requires
            old(self).wf(),
            old(self).pending_read() matches Some((_, size)) && block@.len() == size,
        ensures
            final(self).wf(),
            final(self).end_spec() == old(self).end_spec(),
            final(self).count_spec() == old(self).count_spec(),
            final(self).filter_spec() == old(self).filter_spec(),
            final(self).position_spec() < old(self).position_spec(),
            old(self).position_spec() - block@.len() <= final(self).position_spec(),
            final(self).seen() == block@.subrange(
                final(self).position_spec() - (old(self).position_spec() - block@.len()),
                block@.len() as int,
            ) + old(self).seen(),
            final(self).answer() is None ==> {
                &&& final(self).seen() == block@ + old(self).seen()
                &&& final(self).found_spec() == matches_from(
                    final(self).seen(),
                    1,
                    final(self).filter_spec(),
                )
                &&& final(self).found_spec() < final(self).count_spec()
            },
            final(self).answer() matches Some(r) ==> {
                &&& r == final(self).position_spec() + 1
                &&& matches_from(final(self).seen(), 1, final(self).filter_spec())
                    == final(self).count_spec()
            },
    {
        let ghost old_seen = self.seen@;
        let base: u64 = self.position - block.len() as u64;
        let mut j: usize = block.len();
        assert(block@.subrange(j as int, block@.len() as int) + old_seen =~= old_seen);
        while j > 0
            invariant
                j <= block@.len(),
                base + block@.len() == old(self).position,
                self.position == base + j,
                self.end == old(self).end,
                self.count == old(self).count,
                self.filter == old(self).filter,
                self.start is None,
                self.seen@ == block@.subrange(j as int, block@.len() as int) + old_seen,
                old_seen == old(self).seen@,
                self.seen@.len() == self.end - self.position,
                self.found < self.count,
                self.found == matches_from(self.seen@, 1, self.filter),
                holds_reversed_record(self.reversed@, self.seen@),
            decreases j,
        {
            let byte = block[j - 1];
            let offset: u64 = base + (j - 1) as u64;
            let ghost t = self.seen@;
            let ghost u = seq![byte] + t;
            proof {
                lemma_prepend_byte(byte, t, self.filter);
                lemma_record_end_bounds(t, 0);
                assert(block@.subrange(j - 1, block@.len() as int) + old_seen =~= u);
            }
            if byte == NEWLINE && offset + 1 != self.end {
                let record = reversed_copy(&self.reversed);
                assert(record@ =~= t.subrange(0, record_end(t, 0)));
                let line = text(record.as_slice());
                if self.filter.matches(line.as_str()) {
                    self.found = self.found + 1;
                    if self.found == self.count {
                        self.position = offset;
                        self.seen = Ghost(u);
                        self.start = Some(offset + 1);
                        proof {
                            assert(u.subrange(1, u.len() as int) =~= t);
                            self.lemma_settled_at(u, t);
                        }
                        return;
                    }
                }
                self.reversed.clear();
            }
            let ghost before = self.reversed@;
            self.reversed.push(byte);
            proof {
                let r = self.reversed@;
                assert forall|k: int| 0 <= k < r.len() implies r[k] == u[r.len() - 1 - k] by {
                    if k < before.len() {
                        assert(u[r.len() - 1 - k] == t[before.len() - 1 - k]);
                    }
                }
            }
            self.position = offset;
            self.seen = Ghost(u);
            j = j - 1;
        }
    }

    /// Once `count` matching records are found, the last at the front of the
    /// fed bytes `u`, the answer no longer depends on the bytes before them.
    proof fn lemma_settled_at(&self, u: Seq<u8>, t: Seq<u8>)
        requires
            self.seen@ == u,
            u.len() == t.len() + 1,
            u.subrange(1, u.len() as int) == t,
            t.len() > 0,
            self.seen@.len() == self.end - self.position,
            self.count > 0,
            matches_from(u, 1, self.filter) == self.count,
            matches_from(t, 1, self.filter) < self.count,
        ensures
            settles(u, self.end as nat, self.count as nat, self.filter, self.position + 1),
    {
        let count = self.count as nat;
        let f = self.filter;
        let pos = self.position as int;
        let end = self.end as int;
        assert forall|s: Seq<u8>|
            s.len() == end && #[trigger] s.subrange(end - u.len(), end) == u implies find_start_spec(
            s,
            count,
            f,
        ) == pos + 1 by {
            lemma_matches_shift(s, pos, pos + 1, f);
            assert forall|p: int| pos + 1 < p < s.len() implies #[trigger] matches_from(s, p, f)
                < count by {
                lemma_matches_shift(s, pos, p, f);
                lemma_matches_monotone(u, 2, p - pos, f);
                lemma_matches_shift(u, 1, 2, f);
            }
            lemma_scan_start_is_answer(s, count, f, pos + 1);
        }
    }
}

impl BackwardScan {
    /// What a scan that has not settled knows: it has found fewer than
    /// `count` matching records in the bytes fed, and counts them exactly.
    pub proof fn lemma_unsettled(&self)
        requires
            self.wf(),
            self.answer() is None,
        ensures
            self.count_spec() > 0,
            self.position_spec() <= self.end_spec(),
            self.seen().len() == self.end_spec() - self.position_spec(),
            self.found_spec() == matches_from(self.seen(), 1, self.filter_spec()),
            self.found_spec() < self.count_spec(),
    {
    }

    /// While the scan still reads, the answer lies at or below the lowest
    /// byte fed: the next block, which ends there and holds at most
    /// `BLOCK_SIZE` bytes, is never wholly before the start of the records
    /// shown. So a file whose last `count` matching records lie in its last
    /// block is read in that block alone, and no byte at or past `end` is
    /// read.
    pub proof fn lemma_reads_reach_the_answer(&self, s: Seq<u8>)
        requires
            self.wf(),
            self.answer() is None,
            s.len() == self.end_spec(),
            s.subrange(self.position_spec() as int, s.len() as int) == self.seen(),
        ensures
            find_start_spec(s, self.count_spec(), self.filter_spec()) <= self.position_spec(),
    {
        let count = self.count_spec();
        let f = self.filter_spec();
        let pos = self.position_spec() as int;
        if exists|q: int| is_scan_start(s, count, f, q) {
            let q = choose|q: int| is_scan_start(s, count, f, q);
            assert(is_scan_start(s, count, f, q));
            if q > pos {
                lemma_matches_shift(s, pos, q, f);
                lemma_matches_monotone(self.seen(), 1, q - pos, f);
            }
        }
    }
}

/// A copy of `v` in the opposite order.
fn reversed_copy(v: &Vec<u8>) -> (r: Vec<u8>)
    ensures
        r@.len() == v@.len(),
        forall|k: int| 0 <= k < v@.len() ==> r@[k] == v@[v@.len() - 1 - k],
{
    let mut r: Vec<u8> = Vec::new();
    let mut i: usize = v.len();
    while i > 0
        invariant
            i <= v@.len(),
            r@.len() == v@.len() - i,
            forall|k: int| 0 <= k < r@.len() ==> r@[k] == v@[v@.len() - 1 - k],
        decreases i,
    {
        r.push(v[i - 1]);
        i = i - 1;
    }
    r
}

} // verus!
