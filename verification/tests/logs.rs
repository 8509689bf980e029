//! Levels and the bounded log.

use gpui_mcp::automation::Automation;
use gpui_mcp::logs::{level_rank, normalize_level, Logs, MAX_LOG_ENTRIES};
use gpui_mcp::registry::SharedState;

#[test]
fn levels_are_normalized() {
    for (given, name) in [
        ("trace", "trace"),
        ("DEBUG", "debug"),
        ("Info", "info"),
        ("warn", "warn"),
        ("Warning", "warn"),
        ("ERROR", "error"),
        ("verbose", "info"),
        ("", "info"),
        ("ＷＡＲＮ", "info"),
    ] {
        assert_eq!(normalize_level(given), name);
        assert_eq!(normalize_level(name), name);
        assert_eq!(level_rank(given), level_rank(name));
    }
}

#[test]
fn levels_are_ranked() {
    assert_eq!(level_rank("trace"), 0);
    assert_eq!(level_rank("debug"), 1);
    assert_eq!(level_rank("info"), 2);
    assert_eq!(level_rank("warning"), 3);
    assert_eq!(level_rank("error"), 4);
}

#[test]
fn messages_are_put_on_one_line_and_capped() {
    let mut automation = Automation::isolated();
    automation.log(7, "WARNING", "first\r\nsecond\n");
    automation.log(8, "info", &"é".repeat(3_000));
    automation.log(9, "info", &format!("{}é", "x".repeat(4_095)));
    automation.log(10, "info", &"x".repeat(4_096));
    let entries = automation.logs(10, None);
    assert_eq!(entries.len(), 4);
    assert_eq!(entries[0].timestamp_ms, 7);
    assert_eq!(entries[0].level, "warn");
    assert_eq!(entries[0].message, "first  second ");
    assert_eq!(entries[1].message, "é".repeat(2_048));
    assert_eq!(entries[2].message, "x".repeat(4_095));
    assert_eq!(entries[3].message, "x".repeat(4_096));
}

#[test]
fn the_log_is_bounded_and_chronological() {
    let mut logs = Logs::new();
    for index in 0..600_u64 {
        logs.add_log(index, "info", &format!("{index}"));
    }
    let entries = logs.logs(u16::MAX, None);
    assert_eq!(entries.len(), MAX_LOG_ENTRIES);
    assert_eq!(entries[0].message, "88");
    assert_eq!(entries[511].message, "599");
    assert!(entries
        .windows(2)
        .all(|pair| pair[0].timestamp_ms < pair[1].timestamp_ms));
}

#[test]
fn reading_takes_the_latest_that_are_severe_enough() {
    let mut state = SharedState::new();
    for (index, level) in ["error", "debug", "warn", "info", "error", "trace"]
        .into_iter()
        .enumerate()
    {
        state.add_log(index as u64, level, level);
    }
    let read = |limit: u16, level: Option<&str>| -> Vec<u64> {
        state
            .logs(limit, level)
            .iter()
            .map(|entry| entry.timestamp_ms)
            .collect()
    };
    assert_eq!(read(100, Some("warn")), [0, 2, 4]);
    assert_eq!(read(2, Some("warn")), [2, 4]);
    assert_eq!(read(2, None), [4, 5]);
    assert_eq!(read(0, None), Vec::<u64>::new());
    assert_eq!(read(100, Some("unknown")), [0, 2, 3, 4]);
    assert_eq!(read(100, Some("TRACE")), [0, 1, 2, 3, 4, 5]);
}

#[test]
fn a_cleared_log_is_empty() {
    let mut automation = Automation::for_test();
    automation.log(1, "info", "message");
    automation.clear_logs();
    assert!(automation.logs(10, None).is_empty());
}
