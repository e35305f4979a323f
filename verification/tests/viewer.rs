use rust_a_log::display::{compose_record, label_color, print_record, LabelColor};
use rust_a_log::filter::{contains_bytes, Filter};
use rust_a_log::record::{read_records, text};
use rust_a_log::scan::{BackwardScan, ScanStep};
use rust_a_log::settings::{final_record, resolve_count, Settings, DEFAULT_COUNT};
use rust_a_log::severity::{level_span, Severity};

/// `s` without its ANSI SGR escape sequences (`ESC [ ... m`).
fn strip_sgr(s: &str) -> String {
    let mut out = String::new();
    let mut chars = s.chars();
    while let Some(c) = chars.next() {
        if c == '\x1b' {
            for d in chars.by_ref() {
                if d == 'm' {
                    break;
                }
            }
        } else {
            out.push(c);
        }
    }
    out
}

/// What the viewer prints for a file's bytes when it does not follow it,
/// without the color codes (another test may turn coloring on meanwhile).
fn view(content: &[u8], settings: Settings) -> String {
    let mut scan = BackwardScan::new(content.len() as u64, settings.count, settings.filter);
    let start = loop {
        match scan.next_step() {
            ScanStep::Read { position, size } => {
                let from = position as usize;
                scan.feed(&content[from..from + size]);
            }
            ScanStep::Done(start) => break start as usize,
        }
    };
    let filter = scan.into_filter();
    let mut pending = Vec::new();
    let mut out: Vec<u8> = Vec::new();
    for line in read_records(&content[start..], &mut pending) {
        if filter.matches(&line) {
            out.extend(print_record(&line));
        }
    }
    if let Some(line) = final_record(&pending, settings.follow) {
        if filter.matches(&line) {
            out.extend(print_record(&line));
        }
    }
    strip_sgr(&String::from_utf8(out).unwrap())
}

fn once(lines: Option<usize>, levels: Vec<(Severity, usize)>, contains: Option<&str>, ignore_case: bool) -> Settings {
    Settings::new(lines, None, &levels, contains, ignore_case, true, true)
}

#[test]
fn legacy_level_count_selects_the_last_matching_records() {
    let settings = Settings::new(None, None, &vec![(Severity::Error, 2)], None, false, false, false);
    assert_eq!(settings.count, 2);
    assert!(!settings.follow);
    assert_eq!(
        view(b"[ERROR] first\n[ERROR] second\n[ERROR] third\n", settings),
        "[ERROR] second\n[ERROR] third\n"
    );
}

#[test]
fn malformed_brackets_are_shown_unchanged() {
    let settings = Settings::new(None, None, &vec![], None, false, false, false);
    assert_eq!(view(b"] before [INFO\n", settings), "] before [INFO\n");
}

#[test]
fn levels_text_and_counts_combine() {
    let log = b"[2026] [ERROR] First timeout\n[WARN] TIMEOUT\nINFO is just text\n[INFO] timeout\n[DEBUG] timeout\n";
    assert_eq!(
        view(log, once(Some(1), vec![(Severity::Error, 10), (Severity::Warning, 10)], Some("timeout"), true)),
        "[WARN] TIMEOUT\n"
    );
    assert_eq!(view(log, once(Some(10), vec![(Severity::Info, 10)], None, false)), "[INFO] timeout\n");
    let positional = Settings::new(None, Some(2), &vec![], None, false, true, true);
    assert_eq!(view(log, positional), "[INFO] timeout\n[DEBUG] timeout\n");
    assert_eq!(view(log, once(Some(0), vec![], None, false)), "");
    assert_eq!(view(log, once(None, vec![], Some("absent"), false)), "");
    assert_eq!(
        view(log, once(None, vec![(Severity::Error, 10)], None, false)),
        "[2026] [ERROR] First timeout\n"
    );
}

#[test]
fn empty_crlf_and_invalid_utf8_records_are_readable() {
    for (bytes, expected) in [
        (&b""[..], ""),
        (&b"\n\n"[..], "\n\n"),
        (&b"one\r\ntwo\r\nlast"[..], "one\ntwo\nlast\n"),
        (&b"\xff\nfinal\r"[..], "\u{fffd}\nfinal\r\n"),
    ] {
        assert_eq!(view(bytes, once(None, vec![], None, false)), expected);
    }
}

#[test]
fn following_keeps_the_incomplete_last_record() {
    let follow = Settings::new(None, None, &vec![], None, false, false, true);
    assert!(follow.follow);
    assert_eq!(view(b"one\ntwo", follow), "one\n");
    assert_eq!(final_record(b"two", true), None);
    assert_eq!(final_record(b"", false), None);
    assert_eq!(final_record(b"two", false), Some("two".to_string()));
}

#[test]
fn count_resolution_prefers_lines_then_positional_then_levels() {
    let levels = vec![(Severity::Error, 20), (Severity::Warning, 10), (Severity::Info, 3)];
    assert_eq!(resolve_count(Some(5), Some(7), &levels), 5);
    assert_eq!(resolve_count(None, Some(7), &levels), 7);
    assert_eq!(resolve_count(None, None, &levels), 20);
    assert_eq!(resolve_count(None, None, &vec![(Severity::Debug, 3)]), 3);
    assert_eq!(resolve_count(None, None, &vec![]), DEFAULT_COUNT);
    assert_eq!(DEFAULT_COUNT, 10);
}

#[test]
fn settings_lowercase_the_text_when_ignoring_case() {
    let s = Settings::new(None, None, &vec![(Severity::Trace, 10)], Some("TimeOut"), true, true, true);
    assert_eq!(s.filter.text.as_deref(), Some("timeout"));
    assert_eq!(s.filter.levels, vec![Severity::Trace]);
    assert!(!s.follow);
    let s = Settings::new(None, None, &vec![], Some("TimeOut"), false, false, true);
    assert_eq!(s.filter.text.as_deref(), Some("TimeOut"));
    assert!(s.follow);
}

#[test]
fn level_span_finds_the_first_recognized_label() {
    assert_eq!(level_span("[2026] [ERROR] x"), Some((7, 14, Severity::Error)));
    assert_eq!(level_span("[WARN] x"), Some((0, 6, Severity::Warning)));
    assert_eq!(level_span("a [WARNING] x"), Some((2, 11, Severity::Warning)));
    assert_eq!(level_span("[SUCCESS]"), Some((0, 9, Severity::Success)));
    assert_eq!(level_span("[DEBUG][TRACE]"), Some((0, 7, Severity::Debug)));
    assert_eq!(level_span("x [TRACE]"), Some((2, 9, Severity::Trace)));
    assert_eq!(level_span("[info] [INFO]"), Some((7, 13, Severity::Info)));
    assert_eq!(level_span("ERROR is text"), None);
    assert_eq!(level_span("] before [INFO"), None);
    assert_eq!(level_span("[ERROR"), None);
    assert_eq!(level_span("[[[[ERROR]"), Some((3, 10, Severity::Error)));
    assert_eq!(level_span("[ ERROR ]"), None);
    assert_eq!(level_span("ž [INFO]"), Some((3, 9, Severity::Info)));
    assert_eq!(level_span(""), None);
}

#[test]
fn label_must_close_within_the_window() {
    // The `]` of "[SUCCESS]" is the 8th byte after the `[`.
    assert_eq!(level_span("[SUCCESS]"), Some((0, 9, Severity::Success)));
    assert_eq!(level_span("[SUCCESSX]"), None);
}

#[test]
fn filter_combines_levels_with_or_and_text_with_and() {
    let f = Filter::new(vec![Severity::Error, Severity::Warning], Some("disk"), false);
    assert!(f.matches("[ERROR] disk full"));
    assert!(f.matches("[WARN] disk low"));
    assert!(!f.matches("[INFO] disk ok"));
    assert!(!f.matches("[ERROR] net down"));
    assert!(!f.matches("disk without label"));
    let any = Filter::new(vec![], None, false);
    assert!(any.matches("no label at all"));
    assert!(any.matches(""));
    let case = Filter::new(vec![], Some("ŽALE"), true);
    assert_eq!(case.text.as_deref(), Some("žale"));
    assert!(case.matches("a ŽaLe b"));
    assert!(!case.matches("zale"));
    let exact = Filter::new(vec![], Some("Disk"), false);
    assert!(!exact.matches("disk"));
    assert!(exact.matches("Disk"));
}

#[test]
fn contains_bytes_is_a_literal_search() {
    assert!(contains_bytes(b"abc", b""));
    assert!(contains_bytes(b"", b""));
    assert!(contains_bytes(b"abc", b"bc"));
    assert!(contains_bytes(b"abc", b"abc"));
    assert!(!contains_bytes(b"abc", b"abcd"));
    assert!(!contains_bytes(b"abc", b"ac"));
    assert!(contains_bytes(b"a.*c", b".*"));
}

#[test]
fn text_drops_only_the_line_terminator() {
    assert_eq!(text(b"a\n"), "a");
    assert_eq!(text(b"a\r\n"), "a");
    assert_eq!(text(b"a\r"), "a\r");
    assert_eq!(text(b"a\r\r\n"), "a\r");
    assert_eq!(text(b"a\n\n"), "a\n");
    assert_eq!(text(b"\n"), "");
    assert_eq!(text(b""), "");
    assert_eq!(text(b"\xff\n"), "\u{fffd}");
}

#[test]
fn read_records_waits_for_the_newline() {
    let mut pending = b"par".to_vec();
    let lines = read_records(b"tial\nwhole\nrest", &mut pending);
    assert_eq!(lines, ["partial", "whole"]);
    assert_eq!(pending, b"rest");
    let lines = read_records(b"", &mut pending);
    assert!(lines.is_empty());
    assert_eq!(pending, b"rest");
    let lines = read_records(b"\r\n", &mut pending);
    assert_eq!(lines, ["rest"]);
    assert!(pending.is_empty());
}

#[test]
fn reading_in_three_pieces_gives_the_same_records() {
    let data: &[u8] = b"one\r\ntw\xc5\xbeo\nthree";
    let mut whole_pending = Vec::new();
    let whole = read_records(data, &mut whole_pending);
    for a in 0..=data.len() {
        for b in a..=data.len() {
            let mut pending = Vec::new();
            let mut pieces = read_records(&data[..a], &mut pending);
            pieces.extend(read_records(&data[a..b], &mut pending));
            pieces.extend(read_records(&data[b..], &mut pending));
            assert_eq!(pieces, whole);
            assert_eq!(pending, whole_pending);
        }
    }
    assert_eq!(whole, ["one", "twžo"]);
}

#[test]
fn reading_in_pieces_gives_the_same_records() {
    let data: &[u8] = b"[INFO] a\n[ERROR] \xc5\xbe\r\nlast";
    let mut whole_pending = Vec::new();
    let whole = read_records(data, &mut whole_pending);
    for cut in 0..=data.len() {
        let mut pending = Vec::new();
        let mut pieces = read_records(&data[..cut], &mut pending);
        pieces.extend(read_records(&data[cut..], &mut pending));
        assert_eq!(pieces, whole);
        assert_eq!(pending, whole_pending);
    }
    assert_eq!(whole, ["[INFO] a", "[ERROR] ž"]);
    assert_eq!(whole_pending, b"last");
}

// The only test that changes `colored`'s global setting.
#[test]
fn print_record_paints_only_the_label() {
    colored::control::set_override(false);
    assert_eq!(print_record("[2026] [ERROR] x"), b"[2026] [ERROR] x\n".to_vec());
    assert_eq!(print_record("plain"), b"plain\n".to_vec());
    colored::control::set_override(true);
    for (line, code) in [
        ("a [ERROR] b", "31"),
        ("a [WARN] b", "33"),
        ("a [WARNING] b", "33"),
        ("a [SUCCESS] b", "32"),
        ("a [DEBUG] b", "36"),
        ("a [TRACE] b", "35"),
        ("a [INFO] b", "97"),
    ] {
        let painted = String::from_utf8(print_record(line)).unwrap();
        let label = &line[2..line.len() - 2];
        assert_eq!(painted, format!("a \x1b[1;{code}m{label}\x1b[0m b\n"));
        assert_eq!(strip_sgr(&painted), format!("{line}\n"));
    }
    assert_eq!(print_record("no label"), b"no label\n".to_vec());
    colored::control::set_override(false);
}

#[test]
fn compose_record_replaces_the_label_span() {
    assert_eq!(compose_record(b"a [X] b", 2, 5, b"<X>"), b"a <X> b\n".to_vec());
    assert_eq!(compose_record(b"[X]", 0, 3, b""), b"\n".to_vec());
}

#[test]
fn each_level_has_its_color() {
    assert_eq!(label_color(Severity::Error), LabelColor::Red);
    assert_eq!(label_color(Severity::Warning), LabelColor::Yellow);
    assert_eq!(label_color(Severity::Success), LabelColor::Green);
    assert_eq!(label_color(Severity::Debug), LabelColor::Cyan);
    assert_eq!(label_color(Severity::Trace), LabelColor::Magenta);
    assert_eq!(label_color(Severity::Info), LabelColor::BrightWhite);
}
