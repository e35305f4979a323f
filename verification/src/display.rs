//! How a record is printed: its level label, when it has one, is painted in
//! the level's color (through the `colored` crate), the rest is kept as is.
use vstd::prelude::*;
use vstd::string::StringSliceAdditionalSpecFns;

use vstd::utf8::{
    decode_utf8_encode_utf8, encode_utf8, is_leading_byte_width_1,
    partial_valid_utf8_extend_ascii_block, valid_utf8,
};

use crate::paint::{lemma_painting_shape, paint, PaintedLabel};
use crate::record::{decode_lossy, utf8_lossy, NEWLINE};
use crate::severity::{
    first_close, label_severity, lemma_first_close_bounds, lemma_span_from_bounds, level_span,
    record_level_span, span_as_int, span_at, Severity, LABEL_WINDOW,
};

verus! {

/// `needle` occurs in `hay` as a contiguous run of characters.
pub open spec fn occurs_in_text(needle: Seq<char>, hay: Seq<char>) -> bool {
    exists|i: int|
        0 <= i && i + needle.len() <= hay.len() && #[trigger] hay.subrange(i, i + needle.len())
            == needle
}

/// The escape sequence that ends a colored text.
pub open spec fn reset_sequence() -> Seq<char> {
    "\x1b[0m"@
}

/// The escape sequence that starts a bold text in the color with code `fg`.
pub open spec fn bold_style(fg: Seq<char>) -> Seq<char> {
    "\x1b[1;"@ + fg + "m"@
}

/// `s` is what `colored` writes for `label` in bold and the color with code
/// `fg`. `colored` asks whether coloring is on more than once while it writes
/// (its `Display`, the escaping of inner resets, the style), and another
/// thread may change the answer in between, so three shapes can come out:
/// the label alone; the label and the reset sequence; or the bold style, the
/// label and the reset sequence. A label that itself holds the reset
/// sequence may get a style inserted after it, so then only the frame is
/// stated.
pub open spec fn is_bold_painting(label: Seq<char>, fg: Seq<char>, s: Seq<char>) -> bool {
    ||| s == label
    ||| exists|body: Seq<char>|
        {
            &&& s == body + reset_sequence() || s == bold_style(fg) + body + reset_sequence()
            &&& !occurs_in_text(reset_sequence(), label) ==> body == label
        }
}

/// `label.red().bold()` of `colored` (`Colorize`), written out through
/// `ColoredString`'s `Display`: a bold red label (color code 31), in the
/// shape `is_bold_painting` states.
#[verifier::external_body]
fn paint_red(label: &str) -> (s: String)
    ensures
        is_bold_painting(label@, "31"@, s@),
{
    colored::Colorize::bold(colored::Colorize::red(label)).to_string()
}

/// `label.yellow().bold()` of `colored` (`Colorize`), written out through
/// `ColoredString`'s `Display`: a bold yellow label (color code 33), in the
/// shape `is_bold_painting` states.
#[verifier::external_body]
fn paint_yellow(label: &str) -> (s: String)
    ensures
        is_bold_painting(label@, "33"@, s@),
{
    colored::Colorize::bold(colored::Colorize::yellow(label)).to_string()
}

/// `label.green().bold()` of `colored` (`Colorize`), written out through
/// `ColoredString`'s `Display`: a bold green label (color code 32), in the
/// shape `is_bold_painting` states.
#[verifier::external_body]
fn paint_green(label: &str) -> (s: String)
    ensures
        is_bold_painting(label@, "32"@, s@),
{
    colored::Colorize::bold(colored::Colorize::green(label)).to_string()
}

/// `label.cyan().bold()` of `colored` (`Colorize`), written out through
/// `ColoredString`'s `Display`: a bold cyan label (color code 36), in the
/// shape `is_bold_painting` states.
#[verifier::external_body]
fn paint_cyan(label: &str) -> (s: String)
    ensures
        is_bold_painting(label@, "36"@, s@),
{
    colored::Colorize::bold(colored::Colorize::cyan(label)).to_string()
}

/// `label.magenta().bold()` of `colored` (`Colorize`), written out through
/// `ColoredString`'s `Display`: a bold magenta label (color code 35), in the
/// shape `is_bold_painting` states.
#[verifier::external_body]
fn paint_magenta(label: &str) -> (s: String)
    ensures
        is_bold_painting(label@, "35"@, s@),
{
    colored::Colorize::bold(colored::Colorize::magenta(label)).to_string()
}

/// `label.bright_white().bold()` of `colored` (`Colorize`), written out through
/// `ColoredString`'s `Display`: a bold bright white label (color code 97), in the
/// shape `is_bold_painting` states.
#[verifier::external_body]
fn paint_bright_white(label: &str) -> (s: String)
    ensures
        is_bold_painting(label@, "97"@, s@),
{
    colored::Colorize::bold(colored::Colorize::bright_white(label)).to_string()
}

/// The colors labels are painted in.
#[derive(Clone, Copy, Debug, PartialEq, Eq, Structural)]
pub enum LabelColor {
    Red,
    Yellow,
    Green,
    Cyan,
    Magenta,
    BrightWhite,
}

/// The color of each level's label: errors red, warnings yellow, successes
/// green, debug cyan, trace magenta, info bright white.
pub open spec fn color_of(level: Severity) -> LabelColor {
    match level {
        Severity::Error => LabelColor::Red,
        Severity::Warning => LabelColor::Yellow,
        Severity::Success => LabelColor::Green,
        Severity::Debug => LabelColor::Cyan,
        Severity::Trace => LabelColor::Magenta,
        Severity::Info => LabelColor::BrightWhite,
    }
}

/// The code `colored` writes for each color.
pub open spec fn fg_code(color: LabelColor) -> Seq<char> {
    match color {
        LabelColor::Red => "31"@,
        LabelColor::Yellow => "33"@,
        LabelColor::Green => "32"@,
        LabelColor::Cyan => "36"@,
        LabelColor::Magenta => "35"@,
        LabelColor::BrightWhite => "97"@,
    }
}

/// The color in which the label of `level` is painted.
pub fn label_color(level: Severity) -> (color: LabelColor)
    ensures
        color == color_of(level),
{
    match level {
        Severity::Error => LabelColor::Red,
        Severity::Warning => LabelColor::Yellow,
        Severity::Success => LabelColor::Green,
        Severity::Debug => LabelColor::Cyan,
        Severity::Trace => LabelColor::Magenta,
        Severity::Info => LabelColor::BrightWhite,
    }
}

/// The label text painted bold in `color`, as `colored` writes it: the
/// label alone when coloring is off, else framed by escape sequences.
pub(crate) fn paint_label(label: &str, color: LabelColor) -> (s: String)
    ensures
        is_bold_painting(label@, fg_code(color), s@),
{
    match color {
        LabelColor::Red => paint_red(label),
        LabelColor::Yellow => paint_yellow(label),
        LabelColor::Green => paint_green(label),
        LabelColor::Cyan => paint_cyan(label),
        LabelColor::Magenta => paint_magenta(label),
        LabelColor::BrightWhite => paint_bright_white(label),
    }
}

/// The printed form of a record whose label spans `line[start..end]`: the bytes
/// before the label, the painted label, the bytes after it, and a newline.
pub open spec fn printed_with_label(line: Seq<u8>, start: int, end: int, painted: Seq<u8>) -> Seq<u8> {
    line.subrange(0, start) + painted + line.subrange(end, line.len() as int) + seq![NEWLINE]
}

/// `out` is the printed form of the record `line`: the record and a newline;
/// when it has a level label, the label's text is replaced by that text
/// painted bold in the level's color.
pub open spec fn is_printed_form(line: Seq<u8>, out: Seq<u8>) -> bool {
    match record_level_span(line) {
        None => out == line + seq![NEWLINE],
        Some((start, end, level)) => exists|painted: Seq<char>|
            {
                &&& is_bold_painting(
                    utf8_lossy(line.subrange(start, end)),
                    fg_code(color_of(level)),
                    painted,
                )
                &&& out == #[trigger] printed_with_label(line, start, end, encode_utf8(painted))
            },
    }
}

/// The bytes of a level label (brackets included) are ASCII.
proof fn lemma_label_is_ascii(b: Seq<u8>, start: int, end: int, level: Severity)
    requires
        span_at(b, start) == Some((start, end, level)),
    ensures
        0 <= start < end <= b.len(),
        forall|k: int| start <= k < end ==> #[trigger] b[k] <= 0x7f,
{
    let stop = if start + 1 + LABEL_WINDOW < b.len() {
        start + 1 + LABEL_WINDOW
    } else {
        b.len() as int
    };
    lemma_first_close_bounds(b, start + 1, stop);
    let close = first_close(b, start + 1, stop).unwrap();
    assert(close == end - 1);
    let name = b.subrange(start + 1, end - 1);
    assert(label_severity(name) is Some);
    lemma_label_name_is_ascii(name);
    assert forall|k: int| start <= k < end implies #[trigger] b[k] <= 0x7f by {
        if start < k < end - 1 {
            assert(b[k] == name[k - start - 1]);
        }
    }
}

proof fn lemma_label_name_is_ascii(name: Seq<u8>)
    requires
        label_severity(name) is Some,
    ensures
        forall|k: int| 0 <= k < name.len() ==> #[trigger] name[k] <= 0x7f,
{
}

/// The text of a label, decoded, encodes back to its bytes.
proof fn lemma_label_text_is_its_bytes(b: Seq<u8>, start: int, end: int, level: Severity)
    requires
        span_at(b, start) == Some((start, end, level)),
    ensures
        valid_utf8(b.subrange(start, end)),
{
    lemma_label_is_ascii(b, start, end, level);
    let sub = b.subrange(start, end);
    assert forall|i: int| 0 <= i < sub.len() implies #[trigger] is_leading_byte_width_1(sub[i]) by {
        assert(sub[i] == b[start + i]);
    }
    assert(sub.subrange(0, 0) =~= Seq::<u8>::empty());
    partial_valid_utf8_extend_ascii_block(sub, 0, sub.len() as int);
    assert(sub.subrange(0, sub.len() as int) =~= sub);
}

proof fn lemma_printed_form(
    line: Seq<u8>,
    out: Seq<u8>,
    start: int,
    end: int,
    level: Severity,
    painted: Seq<char>,
)
    requires
        record_level_span(line) == Some((start, end, level)),
        is_bold_painting(utf8_lossy(line.subrange(start, end)), fg_code(color_of(level)), painted),
        out == printed_with_label(line, start, end, encode_utf8(painted)),
    ensures
        is_printed_form(line, out),
{
    let span = record_level_span(line);
    assert(span matches Some((s, e, l)) && s == start && e == end && l == level);
}

/// Puts together the printed form of a record from its bytes, the span of its
/// label and the painted label.
pub fn compose_record(line: &[u8], start: usize, end: usize, painted: &[u8]) -> (out: Vec<u8>)
    requires
        start <= end <= line@.len(),
    ensures
        out@ == printed_with_label(line@, start as int, end as int, painted@),
{
    let mut out: Vec<u8> = Vec::new();
    let mut i: usize = 0;
    while i < start
        invariant
            i <= start <= end <= line@.len(),
            out@ == line@.subrange(0, i as int),
        decreases start - i,
    {
        out.push(line[i]);
        i = i + 1;
        assert(out@ =~= line@.subrange(0, i as int));
    }
    let mut k: usize = 0;
    while k < painted.len()
        invariant
            k <= painted@.len(),
            out@ == line@.subrange(0, start as int) + painted@.subrange(0, k as int),
        decreases painted@.len() - k,
    {
        out.push(painted[k]);
        k = k + 1;
        assert(out@ =~= line@.subrange(0, start as int) + painted@.subrange(0, k as int));
    }
    let mut m: usize = end;
    assert(painted@.subrange(0, k as int) =~= painted@);
    while m < line.len()
        invariant
            start <= end <= m <= line@.len(),
            out@ == line@.subrange(0, start as int) + painted@ + line@.subrange(end as int, m as int),
        decreases line@.len() - m,
    {
        out.push(line[m]);
        m = m + 1;
        assert(out@ =~= line@.subrange(0, start as int) + painted@ + line@.subrange(
            end as int,
            m as int,
        ));
    }
    out.push(NEWLINE);
    out
}

/// The bytes printed for a record: the record and a newline, with its level
/// label (when it has one) painted bold in the level's color (`label_color`).
/// What painting the label gives is up to `colored`.
pub fn print_record(line: &str) -> (out: Vec<u8>)
    ensures
        is_printed_form(line.spec_bytes(), out@),
        record_level_span(line.spec_bytes()) matches Some((start, end, level)) ==> exists|
            p: PaintedLabel,
        |
            {
                &&& p.is_painting()
                &&& p.label_spec() == utf8_lossy(line.spec_bytes().subrange(start, end))
                &&& p.color_spec() == color_of(level)
                &&& out@ == #[trigger] printed_with_label(
                    line.spec_bytes(),
                    start,
                    end,
                    encode_utf8(p.text_spec()),
                )
            },
        record_level_span(line.spec_bytes()) matches Some((start, end, _)) ==> encode_utf8(
            utf8_lossy(line.spec_bytes().subrange(start, end)),
        ) == line.spec_bytes().subrange(start, end),
{
    let bytes = line.as_bytes();
    let span = level_span(line);
    match span {
        None => {
            let mut printed: Vec<u8> = Vec::new();
            let mut i: usize = 0;
            while i < bytes.len()
                invariant
                    i <= bytes@.len(),
                    printed@ == bytes@.subrange(0, i as int),
                decreases bytes@.len() - i,
            {
                printed.push(bytes[i]);
                i = i + 1;
                assert(printed@ =~= bytes@.subrange(0, i as int));
            }
            printed.push(NEWLINE);
            assert(bytes@.subrange(0, i as int) =~= bytes@);
            assert(printed@ =~= bytes@ + seq![NEWLINE]);
            printed
        },
        Some((start, end, level)) => {
            let label_bytes = vstd::slice::slice_subrange(bytes, start, end);
            let label = decode_lossy(label_bytes);
            let color = label_color(level);
            let painted_label = paint(label.as_str(), color);
            let painted = painted_label.text();
            let painted_bytes = painted.as_bytes();
            let printed = compose_record(bytes, start, end, painted_bytes);
            assert(span_as_int(span) == Some((start as int, end as int, level)));
            proof {
                let b = line.spec_bytes();
                lemma_span_from_bounds(b, 0);
                lemma_label_text_is_its_bytes(b, start as int, end as int, level);
                decode_utf8_encode_utf8(label_bytes@);
                lemma_painting_shape(painted_label);
                lemma_printed_form(b, printed@, start as int, end as int, level, painted@);
                let sp = record_level_span(b);
                assert(sp matches Some((s0, e0, l0)) && s0 == start && e0 == end && l0 == level);
                assert(printed@ == printed_with_label(b, start as int, end as int, encode_utf8(painted_label.text_spec())));
            }
            printed
        },
    }
}

} // verus!
