use rust_a_log::filter::Filter;
use rust_a_log::record::read_records;
use rust_a_log::scan::{BackwardScan, ScanStep, BLOCK_SIZE};

/// Drives a backward scan over an in-memory file, reading the blocks it asks
/// for; `on_read` sees the offset of each read.
fn find_start_in(
    bytes: &[u8],
    end: u64,
    count: usize,
    filter: Filter,
    mut on_read: impl FnMut(u64),
) -> u64 {
    let mut scan = BackwardScan::new(end, count, filter);
    loop {
        match scan.next_step() {
            ScanStep::Read { position, size } => {
                on_read(position);
                let from = position as usize;
                scan.feed(&bytes[from..from + size]);
            }
            ScanStep::Done(start) => return start,
        }
    }
}

fn filter_for(filtered: bool) -> Filter {
    Filter::new(Vec::new(), if filtered { Some("match") } else { None }, false)
}

#[test]
fn backwards_scan_matches_forward_reference_at_block_boundaries() {
    let mut cases: Vec<String> = vec![
        String::new(),
        "\n".into(),
        "\n\n".into(),
        "first\nlast".into(),
        "first\r\nlast\r\n".into(),
        "last\r".into(),
    ];
    for length in [BLOCK_SIZE - 1, BLOCK_SIZE, BLOCK_SIZE + 1, BLOCK_SIZE * 3] {
        cases.push(format!("first\n{}\nmatch\nlast", "ž".repeat(length)));
    }
    for input in cases {
        for count in [0, 1, 2, 10, usize::MAX] {
            for filtered in [false, true] {
                let matches = |line: &str| !filtered || line.contains("match");
                let all: Vec<_> = input.lines().filter(|line| matches(line)).collect();
                let expected = &all[all.len().saturating_sub(count)..];
                let start = find_start_in(
                    input.as_bytes(),
                    input.len() as u64,
                    count,
                    filter_for(filtered),
                    |_| {},
                );
                let actual: Vec<_> = input[start as usize..]
                    .lines()
                    .filter(|line| matches(line))
                    .collect();
                assert_eq!(
                    actual,
                    expected,
                    "length={}, count={count}, filtered={filtered}",
                    input.len()
                );
            }
        }
    }
}

#[test]
fn recent_records_never_read_the_large_prefix() {
    let mut bytes = vec![b'x'; BLOCK_SIZE * 4];
    bytes.extend_from_slice(b"\n[ERROR] old\n[INFO] last\n");
    let end = bytes.len() as u64;
    let guard = |position: u64| {
        assert!(
            position >= end - BLOCK_SIZE as u64,
            "reading old data to retrieve recent records"
        );
    };
    assert_eq!(
        find_start_in(&bytes, end, 1, filter_for(false), guard),
        end - 12
    );
    assert_eq!(find_start_in(&bytes, end, 0, filter_for(false), guard), end);
}

#[test]
fn incomplete_utf8_records_are_emitted_only_once_when_completed() {
    let mut pending = Vec::new();
    let mut lines: Vec<String> = Vec::new();
    for bytes in [
        &b"[INFO] \xc5"[..],
        &b"\xbe partial"[..],
        &b"\r\nnext\n"[..],
    ] {
        for line in read_records(bytes, &mut pending) {
            lines.push(line.to_owned());
        }
    }
    assert_eq!(lines, ["[INFO] ž partial", "next"]);
    assert!(pending.is_empty());
}

#[test]
fn a_scan_for_no_records_reads_nothing() {
    let scan = BackwardScan::new(100, 0, filter_for(false));
    assert_eq!(scan.next_step(), ScanStep::Done(100));
    let scan = BackwardScan::new(0, 5, filter_for(false));
    assert_eq!(scan.next_step(), ScanStep::Done(0));
}

#[test]
fn the_scan_reads_blocks_downwards_and_stops_at_the_match() {
    let mut bytes = vec![b'y'; BLOCK_SIZE * 2 + 10];
    bytes.extend_from_slice(b"\nmatch one\nother\n");
    let end = bytes.len() as u64;
    let mut reads = Vec::new();
    let start = find_start_in(&bytes, end, 1, filter_for(true), |p| reads.push(p));
    assert_eq!(start, BLOCK_SIZE as u64 * 2 + 11);
    assert_eq!(reads, vec![end - BLOCK_SIZE as u64]);
    let mut reads = Vec::new();
    let start = find_start_in(&bytes, end, 2, filter_for(true), |p| reads.push(p));
    assert_eq!(start, 0);
    assert_eq!(
        reads,
        vec![end - BLOCK_SIZE as u64, end - 2 * BLOCK_SIZE as u64, 0]
    );
}
