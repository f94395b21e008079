use audio_fixer::logger::{
    current_timestamp, epoch_days_to_ymd, format_log_line, format_timestamp, log_file_path, strip_ansi,
};

#[test]
fn test_strip_ansi() {
    let colored = "\x1b[32mHello World\x1b[0m";
    assert_eq!(strip_ansi(colored), "Hello World");
}

#[test]
fn test_current_timestamp() {
    let ts = current_timestamp();
    assert_eq!(ts.len(), 19);
    assert!(ts.contains('-'));
    assert!(ts.contains(':'));
}

#[test]
fn strip_ansi_is_idempotent_and_keeps_plain_text() {
    let s = "\x1b[1;31mError\x1b[0m: \x1b[2Kdone";
    let once = strip_ansi(s);
    assert_eq!(once, "Error: done");
    assert_eq!(strip_ansi(&once), once);
    assert_eq!(strip_ansi("plain text ✓"), "plain text ✓");
}

#[test]
fn epoch_day_dates() {
    assert_eq!(epoch_days_to_ymd(0), (1970, 1, 1));
    assert_eq!(epoch_days_to_ymd(58), (1970, 2, 28));
    assert_eq!(epoch_days_to_ymd(59), (1970, 3, 1));
    assert_eq!(epoch_days_to_ymd(11016), (2000, 2, 29));
    assert_eq!(epoch_days_to_ymd(19723), (2024, 1, 1));
    assert_eq!(epoch_days_to_ymd(47541), (2100, 3, 1));
    assert_eq!(epoch_days_to_ymd(2932896), (9999, 12, 31));
}

#[test]
fn timestamp_formatting() {
    assert_eq!(format_timestamp(0), "1970-01-01 00:00:00");
    assert_eq!(format_timestamp(951782400 + 3600 * 13 + 60 * 5 + 9), "2000-02-29 13:05:09");
    assert_eq!(format_timestamp(253402300799), "9999-12-31 23:59:59");
    assert_eq!(format_timestamp(253402300800), "10000-01-01 00:00:00");
}

#[test]
fn log_lines_strip_colours() {
    assert_eq!(
        format_log_line("2024-01-01 00:00:00", "\x1b[33mSkipped\x1b[0m movie"),
        "[2024-01-01 00:00:00] Skipped movie\n"
    );
}

#[test]
fn log_file_location() {
    assert_eq!(log_file_path(Some("/var/log/x.log".to_string()), Some("/home/u".to_string())), "/var/log/x.log");
    assert_eq!(log_file_path(None, Some("/home/u".to_string())), "/home/u/.audio-fixer/audio-fixer.log");
    assert_eq!(log_file_path(None, None), "/tmp/audio-fixer.log");
}
