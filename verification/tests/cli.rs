use cattail::cli::{use_color, ColorMode, Config, PrefixMode};
use std::time::Duration;

fn config(lines: usize, since_now: bool) -> Config {
    Config {
        lines,
        interval_ms: 750,
        prefix: PrefixMode::Full,
        since_now,
        color: ColorMode::Auto,
        inputs: vec!["app.log".to_string()],
    }
}

#[test]
fn backlog_lines_follow_since_now() {
    assert_eq!(config(50, false).backlog_lines(), 50);
    assert_eq!(config(100, true).backlog_lines(), 0);
}

#[test]
fn interval_is_in_milliseconds() {
    assert_eq!(config(1, false).interval(), Duration::from_millis(750));
}

#[test]
fn color_choice() {
    assert!(use_color(ColorMode::Always, false));
    assert!(!use_color(ColorMode::Never, true));
    assert!(use_color(ColorMode::Auto, true));
    assert!(!use_color(ColorMode::Auto, false));
}
