//! Records: one physical line of the log is one record. A record's text is
//! its bytes without the line terminator (`\n` or `\r\n`), decoded as UTF-8
//! with invalid bytes replaced.
use vstd::prelude::*;
use vstd::utf8::{decode_utf8, valid_utf8};

verus! {

/// `\n`, which ends a record.
pub const NEWLINE: u8 = 0x0a;

/// `\r`, which is dropped when it comes just before the final `\n`.
pub const CARRIAGE_RETURN: u8 = 0x0d;

/// What `String::from_utf8_lossy` gives for a sequence of bytes: the text
/// they encode, with each invalid sequence replaced by U+FFFD.
pub uninterp spec fn utf8_lossy(bytes: Seq<u8>) -> Seq<char>;

/// `String::from_utf8_lossy`, made an owned `String`. As std documents, bytes
/// that are valid UTF-8 come back as the text they encode, unchanged.
#[verifier::external_body]
pub(crate) fn decode_lossy(bytes: &[u8]) -> (s: String)
    ensures
        s@ == utf8_lossy(bytes@),
        valid_utf8(bytes@) ==> s@ == decode_utf8(bytes@),
{
    String::from_utf8_lossy(bytes).into_owned()
}

/// The bytes of a record without its terminator: a final `\n` is dropped, and
/// then a `\r` just before it. A lone final `\r` stays.
pub open spec fn strip_terminator(b: Seq<u8>) -> Seq<u8> {
    if b.len() > 0 && b.last() == NEWLINE {
        let line = b.drop_last();
        if line.len() > 0 && line.last() == CARRIAGE_RETURN {
            line.drop_last()
        } else {
            line
        }
    } else {
        b
    }
}

/// A record's text keeps every byte but its terminator: a record ending in
/// `\r\n` loses those two bytes, one ending in `\n` alone loses that byte,
/// and any other is kept whole.
pub proof fn lemma_strip_terminator_keeps_the_line(b: Seq<u8>)
    ensures
        b.len() >= 2 && b[b.len() - 1] == NEWLINE && b[b.len() - 2] == CARRIAGE_RETURN
            ==> strip_terminator(b) == b.subrange(0, b.len() - 2),
        b.len() >= 1 && b[b.len() - 1] == NEWLINE && !(b.len() >= 2 && b[b.len() - 2]
            == CARRIAGE_RETURN) ==> strip_terminator(b) == b.subrange(0, b.len() - 1),
        !(b.len() >= 1 && b[b.len() - 1] == NEWLINE) ==> strip_terminator(b) == b,
{
    if b.len() >= 1 && b[b.len() - 1] == NEWLINE {
        let line = b.drop_last();
        if line.len() > 0 {
            assert(line.last() == b[b.len() - 2]);
            assert(line.drop_last() =~= b.subrange(0, b.len() - 2));
        }
        assert(line =~= b.subrange(0, b.len() - 1));
    }
}

/// The text of a record whose bytes, without the terminator, are valid UTF-8
/// is the text they encode.
pub open spec fn text_is_decoded(record: Seq<u8>, line: Seq<char>) -> bool {
    valid_utf8(strip_terminator(record)) ==> line == decode_utf8(strip_terminator(record))
}

/// The text of a record.
pub open spec fn record_text(b: Seq<u8>) -> Seq<char> {
    utf8_lossy(strip_terminator(b))
}

/// The text of the record `bytes`, without its line terminator.
pub fn text(bytes: &[u8]) -> (s: String)
    ensures
        s@ == record_text(bytes@),
        valid_utf8(strip_terminator(bytes@)) ==> s@ == decode_utf8(strip_terminator(bytes@)),
        bytes@.len() >= 2 && bytes@[bytes@.len() - 1] == NEWLINE && bytes@[bytes@.len() - 2]
            == CARRIAGE_RETURN ==> s@ == utf8_lossy(bytes@.subrange(0, bytes@.len() - 2)),
        bytes@.len() >= 1 && bytes@[bytes@.len() - 1] == NEWLINE && !(bytes@.len() >= 2
            && bytes@[bytes@.len() - 2] == CARRIAGE_RETURN) ==> s@ == utf8_lossy(
            bytes@.subrange(0, bytes@.len() - 1),
        ),
        !(bytes@.len() >= 1 && bytes@[bytes@.len() - 1] == NEWLINE) ==> s@ == utf8_lossy(bytes@),
{
    proof {
        lemma_strip_terminator_keeps_the_line(bytes@);
    }
    let mut end = bytes.len();
    if end > 0 && bytes[end - 1] == NEWLINE {
        end = end - 1;
        if end > 0 && bytes[end - 1] == CARRIAGE_RETURN {
            end = end - 1;
        }
    }
    let line = vstd::slice::slice_subrange(bytes, 0, end);
    assert(line@ =~= strip_terminator(bytes@));
    decode_lossy(line)
}

/// Splits `acc + data` at the newlines of `data`: the complete records, each
/// ending in `\n`, and what is left after the last newline.
pub open spec fn split_records(acc: Seq<u8>, data: Seq<u8>) -> (Seq<Seq<u8>>, Seq<u8>)
    decreases data.len(),
{
    if data.len() == 0 {
        (seq![], acc)
    } else {
        let grown = acc.push(data[0]);
        if data[0] == NEWLINE {
            let rest = split_records(seq![], data.drop_first());
            (seq![grown] + rest.0, rest.1)
        } else {
            split_records(grown, data.drop_first())
        }
    }
}

/// The texts of a sequence of records.
pub open spec fn texts(records: Seq<Seq<u8>>) -> Seq<Seq<char>> {
    records.map_values(|r: Seq<u8>| record_text(r))
}

/// The texts held by a sequence of strings.
pub open spec fn strings_view(v: Seq<String>) -> Seq<Seq<char>> {
    v.map_values(|s: String| s@)
}

/// One step of the split: `data[0]` joins `acc`.
proof fn lemma_split_step(acc: Seq<u8>, data: Seq<u8>)
    requires
        data.len() > 0,
    ensures
        data[0] == NEWLINE ==> split_records(acc, data) == {
            let rest = split_records(seq![], data.drop_first());
            (seq![acc.push(data[0])] + rest.0, rest.1)
        },
        data[0] != NEWLINE ==> split_records(acc, data) == split_records(
            acc.push(data[0]),
            data.drop_first(),
        ),
{
}

/// Takes the bytes that arrived, `chunk`, after the incomplete record kept in
/// `pending`, and returns the texts of the records that are now complete, in
/// order. What follows the last newline stays in `pending` for the next
/// chunk, so a record (or a UTF-8 character) split across writes is returned
/// once, whole, when its newline arrives.
pub fn read_records(chunk: &[u8], pending: &mut Vec<u8>) -> (lines: Vec<String>)
    ensures
        lines@.len() == split_records(old(pending)@, chunk@).0.len(),
        strings_view(lines@) == texts(split_records(old(pending)@, chunk@).0),
        forall|k: int|
            0 <= k < lines@.len() ==> text_is_decoded(
                split_records(old(pending)@, chunk@).0[k],
                #[trigger] lines@[k]@,
            ),
        final(pending)@ == split_records(old(pending)@, chunk@).1,
{
    let ghost whole = split_records(old(pending)@, chunk@);
    let ghost mut done: Seq<Seq<u8>> = seq![];
    let mut lines: Vec<String> = Vec::new();
    let mut i: usize = 0;
    assert(chunk@.skip(0) =~= chunk@);
    assert(done + whole.0 =~= whole.0);
    while i < chunk.len()
        invariant
            i <= chunk@.len(),
            whole == split_records(old(pending)@, chunk@),
            whole.0 == done + split_records(pending@, chunk@.skip(i as int)).0,
            whole.1 == split_records(pending@, chunk@.skip(i as int)).1,
            strings_view(lines@) == texts(done),
            lines@.len() == done.len(),
            forall|k: int| 0 <= k < lines@.len() ==> text_is_decoded(done[k], #[trigger] lines@[k]@),
        decreases chunk@.len() - i,
    {
        let byte = chunk[i];
        proof {
            lemma_split_step(pending@, chunk@.skip(i as int));
            assert(chunk@.skip(i as int).drop_first() =~= chunk@.skip(i + 1));
        }
        pending.push(byte);
        if byte == NEWLINE {
            let line = text(pending.as_slice());
            proof {
                let rest = split_records(seq![], chunk@.skip(i + 1));
                assert(whole.0 == (done + seq![pending@]) + rest.0);
                done = done + seq![pending@];
                assert(texts(done) =~= strings_view(lines@).push(line@));
            }
            lines.push(line);
            assert(strings_view(lines@) =~= texts(done));
            assert(forall|k: int| 0 <= k < lines@.len() ==> text_is_decoded(done[k], #[trigger] lines@[k]@));
            pending.clear();
        }
        i = i + 1;
    }
    assert(chunk@.skip(i as int) =~= Seq::<u8>::empty());
    assert(done =~= whole.0);
    lines
}

/// Splitting is indifferent to where the input was cut: reading `a` and then
/// `b`, carrying the incomplete record over, gives the records and the
/// remainder that reading `a + b` at once gives.
pub proof fn lemma_split_records_concat(acc: Seq<u8>, a: Seq<u8>, b: Seq<u8>)
    ensures
        ({
            let first = split_records(acc, a);
            let second = split_records(first.1, b);
            split_records(acc, a + b) == (first.0 + second.0, second.1)
        }),
    decreases a.len(),
{
    if a.len() == 0 {
        assert(a + b =~= b);
        assert(seq![] + split_records(acc, b).0 =~= split_records(acc, b).0);
    } else {
        assert((a + b).drop_first() =~= a.drop_first() + b);
        assert((a + b)[0] == a[0]);
        if a[0] == NEWLINE {
            lemma_split_records_concat(seq![], a.drop_first(), b);
            let rest_a = split_records(seq![], a.drop_first());
            let second = split_records(rest_a.1, b);
            assert(seq![acc.push(a[0])] + (rest_a.0 + second.0) =~= (seq![acc.push(a[0])]
                + rest_a.0) + second.0);
        } else {
            lemma_split_records_concat(acc.push(a[0]), a.drop_first(), b);
        }
    }
}

/// The chunks, joined in order.
pub open spec fn concat_chunks(chunks: Seq<Seq<u8>>) -> Seq<u8>
    decreases chunks.len(),
{
    if chunks.len() == 0 {
        seq![]
    } else {
        concat_chunks(chunks.drop_last()) + chunks.last()
    }
}

/// What successive calls of `read_records` give, one chunk each, starting
/// from `acc` pending: all the records they return, in order, and what stays
/// pending at the end.
pub open spec fn split_chunks(acc: Seq<u8>, chunks: Seq<Seq<u8>>) -> (Seq<Seq<u8>>, Seq<u8>)
    decreases chunks.len(),
{
    if chunks.len() == 0 {
        (seq![], acc)
    } else {
        let before = split_chunks(acc, chunks.drop_last());
        let last = split_records(before.1, chunks.last());
        (before.0 + last.0, last.1)
    }
}

/// Reading the input in any number of pieces, one `read_records` call each,
/// gives the records and the remainder that reading it at once gives: a
/// record or a UTF-8 character split across reads comes out once, whole.
pub proof fn lemma_split_records_chunks(acc: Seq<u8>, chunks: Seq<Seq<u8>>)
    ensures
        split_chunks(acc, chunks) == split_records(acc, concat_chunks(chunks)),
    decreases chunks.len(),
{
    if chunks.len() == 0 {
        assert(split_records(acc, Seq::<u8>::empty()) == (Seq::<Seq<u8>>::empty(), acc));
    } else {
        lemma_split_records_chunks(acc, chunks.drop_last());
        lemma_split_records_concat(acc, concat_chunks(chunks.drop_last()), chunks.last());
    }
}

/// What stays pending never holds a newline, when it held none before.
pub proof fn lemma_split_remainder_has_no_newline(acc: Seq<u8>, data: Seq<u8>)
    requires
        !acc.contains(NEWLINE),
    ensures
        !split_records(acc, data).1.contains(NEWLINE),
        forall|k: int|
            0 <= k < split_records(acc, data).0.len() ==> #[trigger] split_records(
                acc,
                data,
            ).0[k].last() == NEWLINE,
    decreases data.len(),
{
    if data.len() > 0 {
        if data[0] == NEWLINE {
            lemma_split_remainder_has_no_newline(seq![], data.drop_first());
            let rest = split_records(seq![], data.drop_first());
            assert forall|k: int|
                0 <= k < split_records(acc, data).0.len() implies #[trigger] split_records(
                acc,
                data,
            ).0[k].last() == NEWLINE by {
                if k > 0 {
                    assert(split_records(acc, data).0[k] == rest.0[k - 1]);
                }
            }
        } else {
            let grown = acc.push(data[0]);
            assert(!grown.contains(NEWLINE)) by {
                if grown.contains(NEWLINE) {
                    let k = choose|k: int| 0 <= k < grown.len() && grown[k] == NEWLINE;
                    assert(k < acc.len() && acc[k] == NEWLINE);
                }
            }
            lemma_split_remainder_has_no_newline(acc.push(data[0]), data.drop_first());
        }
    }
}

} // verus!
