use fuzzy_group::notice::{status_line, LogLevel, LogMessage};

#[test]
fn notice_keeps_text_and_level() {
    let notice = LogMessage::new("Failed to select output".to_string(), LogLevel::Warning);
    assert_eq!(notice.msg, "Failed to select output");
    assert!(matches!(notice.level, LogLevel::Warning));
}

#[test]
fn notice_text_is_marked_by_level() {
    assert_eq!(
        LogMessage::new("done".to_string(), LogLevel::Info).text(),
        "\u{2139}\u{fe0f} done \u{2139}\u{fe0f}"
    );
    assert_eq!(
        LogMessage::new("careful".to_string(), LogLevel::Warning).text(),
        "\u{26a0}\u{fe0f} careful \u{26a0}\u{fe0f}"
    );
    assert_eq!(
        LogMessage::new("broken".to_string(), LogLevel::Error).text(),
        "\u{274c} broken \u{274c}"
    );
    assert_eq!(LogMessage::new(String::new(), LogLevel::Error).text(), "\u{274c}  \u{274c}");
}

#[test]
fn status_line_reports_the_latest_notice() {
    let mut logs: Vec<LogMessage> = Vec::new();
    assert_eq!(status_line(&logs), "\u{2139}\u{fe0f} Loaded \u{2139}\u{fe0f}");
    logs.push(LogMessage::new("first".to_string(), LogLevel::Info));
    logs.push(LogMessage::new("second".to_string(), LogLevel::Error));
    assert_eq!(status_line(&logs), "\u{274c} second \u{274c}");
    logs.pop();
    assert_eq!(status_line(&logs), "\u{2139}\u{fe0f} first \u{2139}\u{fe0f}");
}
