use cattail::follow::{FollowState, PollPlan, StartMode};

#[test]
fn truncation_resets_state() {
    let mut state = FollowState::new("/tmp/x.log".to_string(), 128);
    let out = state.ingest(b"hello", false);
    assert!(out.is_empty());
    assert!(state.truncation_detected(0));
    state.reset_for_truncation();
    assert_eq!(state.offset(), 0);
    assert_eq!(state.pending_len(), 0);
}

#[test]
fn buffers_partial_lines_until_newline() {
    let mut state = FollowState::new("/tmp/x.log".to_string(), 0);
    let out = state.ingest(b"abc", false);
    assert!(out.is_empty());
    let out = state.ingest(b"def\nxyz\n", false);
    assert_eq!(out, vec!["abcdef".to_string(), "xyz".to_string()]);
}

#[test]
fn ingest_strips_one_carriage_return() {
    let mut state = FollowState::new("a.log".to_string(), 0);
    let out = state.ingest(b"a\r\r\nb\r\n\n", false);
    assert_eq!(out, vec!["a\r".to_string(), "b".to_string(), String::new()]);
    assert_eq!(state.pending_len(), 0);
}

#[test]
fn ingest_flushes_partial_line_on_request() {
    let mut state = FollowState::new("a.log".to_string(), 0);
    let out = state.ingest(b"one\ntwo\r", true);
    assert_eq!(out, vec!["one".to_string(), "two".to_string()]);
    assert_eq!(state.pending_len(), 0);
    let out = state.ingest(b"", true);
    assert!(out.is_empty());
}

#[test]
fn ingest_decodes_invalid_utf8_lossily() {
    let mut state = FollowState::new("a.log".to_string(), 0);
    let out = state.ingest(&[0x66, 0xff, 0x0a], false);
    assert_eq!(out, vec!["f\u{FFFD}".to_string()]);
}

#[test]
fn split_reads_emit_same_lines_as_one_read() {
    let mut split = FollowState::new("a.log".to_string(), 0);
    let mut lines = split.ingest(b"ab", false);
    lines.extend(split.ingest(b"c\nd", false));
    lines.extend(split.ingest(b"e\nf", false));
    let mut whole = FollowState::new("a.log".to_string(), 0);
    let all = whole.ingest(b"abc\nde\nf", false);
    assert_eq!(lines, all);
    assert_eq!(lines, vec!["abc".to_string(), "de".to_string()]);
    assert_eq!(split.pending_len(), whole.pending_len());
    assert_eq!(split.pending_len(), 1);
}

#[test]
fn poll_reads_appended_bytes_from_offset() {
    let mut state = FollowState::new("app.log".to_string(), 4);
    assert_eq!(state.observe_len(8), PollPlan::ReadFrom(4));
    let out = state.complete_read(b"two\n");
    assert_eq!(out, vec!["two".to_string()]);
    assert_eq!(state.offset(), 8);
    assert_eq!(state.observe_len(8), PollPlan::Idle);
}

#[test]
fn growth_during_read_is_not_read_again() {
    let mut state = FollowState::new("burst.log".to_string(), 0);
    assert_eq!(state.observe_len(9), PollPlan::ReadFrom(0));
    let out = state.complete_read(b"burst-0\nburst-1\n");
    assert_eq!(out, vec!["burst-0".to_string(), "burst-1".to_string()]);
    assert_eq!(state.offset(), 16);
    assert_eq!(state.observe_len(16), PollPlan::Idle);
    assert_eq!(state.observe_len(24), PollPlan::ReadFrom(16));
    let out = state.complete_read(b"burst-2\n");
    assert_eq!(out, vec!["burst-2".to_string()]);
}

#[test]
fn poll_after_truncation_reads_from_start() {
    let mut state = FollowState::new("app.log".to_string(), 100);
    let _ = state.ingest(b"partial", false);
    assert_eq!(state.observe_len(10), PollPlan::ReadFrom(0));
    assert_eq!(state.offset(), 0);
    assert_eq!(state.pending_len(), 0);
    let mut empty = FollowState::new("app.log".to_string(), 100);
    assert_eq!(empty.observe_len(0), PollPlan::Idle);
    assert_eq!(empty.offset(), 0);
}

#[test]
fn recreated_file_is_read_from_start_after_failure() {
    let mut state = FollowState::new("recreate.log".to_string(), 999);
    assert!(state.mark_unavailable());
    assert!(!state.mark_unavailable());
    assert_eq!(state.observe_len(2000), PollPlan::ReadFrom(0));
    let out = state.complete_read(b"fresh-a\nfresh-b\n");
    assert_eq!(out, vec!["fresh-a".to_string(), "fresh-b".to_string()]);
    assert!(state.mark_unavailable());
}

#[test]
fn initial_states_follow_start_mode() {
    let s = FollowState::initialize("a".to_string(), StartMode::StartupBacklog(5), Some(42));
    assert_eq!(s.offset(), 42);
    assert_eq!(s.path(), "a");
    let mut s = FollowState::initialize("a".to_string(), StartMode::StartupBacklog(5), None);
    assert_eq!(s.offset(), 0);
    assert!(!s.mark_unavailable());
    let mut s = FollowState::initialize("a".to_string(), StartMode::FromBeginning, Some(42));
    assert_eq!(s.offset(), 0);
    assert!(s.mark_unavailable());
    let s = FollowState::initialize("a".to_string(), StartMode::FromCurrentEnd, Some(7));
    assert_eq!(s.offset(), 7);
    let mut s = FollowState::initialize("a".to_string(), StartMode::FromCurrentEnd, None);
    assert!(!s.mark_unavailable());
}

#[test]
fn reset_for_reopen_clears_offset_and_buffer() {
    let mut state = FollowState::new("a".to_string(), 50);
    let _ = state.ingest(b"xyz", false);
    state.reset_for_reopen();
    assert_eq!(state.offset(), 0);
    assert_eq!(state.pending_len(), 0);
    assert!(!state.truncation_detected(0));
}

#[test]
fn well_formed_lines_decode_exactly_beside_broken_ones() {
    let mut state = FollowState::new("a.log".to_string(), 0);
    let mut bytes = "ünï\r\n".as_bytes().to_vec();
    bytes.extend_from_slice(&[0xe2, 0x82, 0x0a]);
    bytes.extend_from_slice("€ end".as_bytes());
    let out = state.complete_read(&bytes);
    assert_eq!(out, vec!["ünï".to_string(), "\u{FFFD}".to_string()]);
    assert_eq!(state.offset(), bytes.len() as u64);
    let out = state.ingest(b"", true);
    assert_eq!(out, vec!["€ end".to_string()]);
}

#[test]
fn two_reads_emit_each_line_once() {
    let mut state = FollowState::new("a.log".to_string(), 4);
    state.ingest(b"ab", false);
    assert_eq!(state.observe_len(10), PollPlan::ReadFrom(4));
    let first = state.complete_read(b"c\nd\ne");
    assert_eq!(state.offset(), 9);
    assert_eq!(state.observe_len(12), PollPlan::ReadFrom(9));
    let second = state.complete_read(b"f\ng");
    assert_eq!(state.offset(), 12);
    let mut lines = first;
    lines.extend(second);
    assert_eq!(lines, vec!["abc".to_string(), "d".to_string(), "ef".to_string()]);
}
