use rust_a_log::filter::Filter;
use rust_a_log::logger::{format_record, Level, Logger};
use rust_a_log::severity::Severity;

#[test]
fn level_labels() {
    assert_eq!(Level::Trace.to_string(), "[TRACE]");
    assert_eq!(Level::Debug.to_string(), "[DEBUG]");
    assert_eq!(Level::Info.to_string(), "[INFO]");
    assert_eq!(Level::Warn.to_string(), "[WARNING]");
    assert_eq!(Level::Error.to_string(), "[ERROR]");
}

#[test]
fn format_record_joins_stamp_label_and_message() {
    assert_eq!(
        format_record("2024/01/31 13:05:09", Level::Warn, "disk low"),
        "2024/01/31 13:05:09 [WARNING] disk low\n"
    );
    assert_eq!(format_record("", Level::Info, ""), " [INFO] \n");
}

#[test]
fn logged_records_carry_a_local_timestamp() {
    let logger = Logger::new("app.log");
    assert_eq!(logger.path(), "app.log");
    for (level, label) in [
        (Level::Info, "INFO"),
        (Level::Error, "ERROR"),
        (Level::Warn, "WARNING"),
        (Level::Debug, "DEBUG"),
        (Level::Trace, "TRACE"),
    ] {
        let line = logger.log_message(label, level);
        let suffix = format!(" [{label}] {label}\n");
        assert!(line.ends_with(&suffix), "{line:?}");
        let stamp = &line[..line.len() - suffix.len()];
        // YYYY/MM/DD HH:MM:SS
        assert_eq!(stamp.len(), 19, "{stamp:?}");
        let bytes = stamp.as_bytes();
        for (i, b) in bytes.iter().enumerate() {
            match i {
                4 | 7 => assert_eq!(*b, b'/'),
                10 => assert_eq!(*b, b' '),
                13 | 16 => assert_eq!(*b, b':'),
                _ => assert!(b.is_ascii_digit()),
            }
        }
    }
}

#[test]
fn logged_records_are_found_by_the_viewer_filter() {
    let logger = Logger::new("app.log");
    let errors = Filter::new(vec![Severity::Error], None, false);
    let warnings = Filter::new(vec![Severity::Warning], None, false);
    let error_line = logger.log_message("ERROR", Level::Error);
    let warn_line = logger.log_message("WARNING", Level::Warn);
    let error_text = rust_a_log::record::text(error_line.as_bytes());
    let warn_text = rust_a_log::record::text(warn_line.as_bytes());
    assert!(errors.matches(&error_text));
    assert!(!errors.matches(&warn_text));
    assert!(warnings.matches(&warn_text));
}
