use udp_forwarder::config::load_config;
use udp_forwarder::settings::{check_pending_changes, refresh_target_errors, tray_status_text, AppState, ForwardTarget, SavedState, StartFailure};

fn row(address: &str, note: &str) -> ForwardTarget {
    ForwardTarget { address: address.to_string(), note: note.to_string(), validation_error: String::new(), is_duplicate: false }
}

fn state(port: &str, rows: Vec<ForwardTarget>) -> AppState {
    AppState {
        listen_port: port.to_string(),
        targets: rows,
        launch_on_startup: false,
        minimize_to_tray: false,
        has_pending_changes: false,
        has_errors: false,
        error_text: String::new(),
        status_text: String::new(),
        running: false,
        packets_forwarded: 0,
        packets_per_second: 0,
    }
}

#[test]
fn refresh_marks_duplicates_in_pairs() {
    let mut s = state("5300", vec![row("127.0.0.1:5300", ""), row("10.0.0.1:1", ""), row("127.0.0.1:5300", "x")]);
    refresh_target_errors(&mut s, &[false, false, false]);
    assert!(s.targets[0].is_duplicate);
    assert!(!s.targets[1].is_duplicate);
    assert!(s.targets[2].is_duplicate);
    assert!(s.has_errors);
    assert_eq!(s.error_text, "Duplicate targets found");
    assert_eq!(s.targets[2].note, "x");
}

#[test]
fn refresh_counts_invalid_targets() {
    let mut s = state("5300", vec![row("bad", ""), row("1.2.3.4:1", "")]);
    refresh_target_errors(&mut s, &[false, false]);
    assert_eq!(s.targets[0].validation_error, "Missing port — use host:port format (e.g. 127.0.0.1:5301)");
    assert_eq!(s.targets[1].validation_error, "");
    assert_eq!(s.error_text, "1 invalid target");
    let mut s = state("5300", vec![row("bad", ""), row("worse", ""), row("ok:1", "")]);
    refresh_target_errors(&mut s, &[false, false, false]);
    assert_eq!(s.error_text, "2 invalid targets");
}

#[test]
fn refresh_both_kinds() {
    let mut s = state("5300", vec![row("x", ""), row("a:1", ""), row("a:1", "")]);
    refresh_target_errors(&mut s, &[false, false, false]);
    assert_eq!(s.error_text, "Duplicate and invalid targets found");
}

#[test]
fn refresh_clean_list() {
    let mut s = state("5300", vec![row("a:1", ""), row("", ""), row("", "")]);
    s.has_errors = true;
    s.error_text = "old".to_string();
    refresh_target_errors(&mut s, &[false, false, false]);
    // empty addresses are never duplicates
    assert!(!s.targets[1].is_duplicate);
    assert!(!s.has_errors);
    assert_eq!(s.error_text, "");
}

#[test]
fn refresh_twice_is_refresh_once() {
    let mut s = state("5300", vec![row("x", ""), row("a:1", ""), row("a:1", "")]);
    refresh_target_errors(&mut s, &[false, false, false]);
    let first: Vec<(String, bool)> = s.targets.iter().map(|t| (t.validation_error.clone(), t.is_duplicate)).collect();
    refresh_target_errors(&mut s, &[false, false, false]);
    let second: Vec<(String, bool)> = s.targets.iter().map(|t| (t.validation_error.clone(), t.is_duplicate)).collect();
    assert_eq!(first, second);
}

#[test]
fn saved_state_matches_its_window() {
    let s = state("5300", vec![row("a:1", "n")]);
    let saved = SavedState::from_ui(&s);
    assert_eq!(saved.listen_port, "5300");
    assert_eq!(saved.targets, vec![("a:1".to_string(), "n".to_string())]);
    assert!(saved.matches_ui(&s));
}

#[test]
fn pending_changes_follow_edits() {
    let mut s = state("5300", vec![row("a:1", "n")]);
    let saved = SavedState::from_ui(&s);
    s.set_target_note(0, "other".to_string());
    check_pending_changes(&mut s, &saved);
    assert!(s.has_pending_changes);
    s.set_target_note(0, "n".to_string());
    check_pending_changes(&mut s, &saved);
    assert!(!s.has_pending_changes);
    s.listen_port = "5301".to_string();
    check_pending_changes(&mut s, &saved);
    assert!(s.has_pending_changes);
    s.listen_port = "5300".to_string();
    s.add_target();
    check_pending_changes(&mut s, &saved);
    assert!(s.has_pending_changes);
    s.remove_target(1);
    check_pending_changes(&mut s, &saved);
    assert!(!s.has_pending_changes);
}

#[test]
fn edits_out_of_range_do_nothing() {
    let mut s = state("1", vec![row("a:1", "")]);
    s.remove_target(-1);
    s.remove_target(1);
    s.set_target_address(5, "x".to_string());
    s.set_target_note(-3, "x".to_string());
    assert_eq!(s.targets.len(), 1);
    assert_eq!(s.targets[0].address, "a:1");
    s.set_target_address(0, "b:2".to_string());
    assert_eq!(s.targets[0].address, "b:2");
}

#[test]
fn add_target_uses_default_address() {
    let mut s = state("1", vec![]);
    s.add_target();
    assert_eq!(s.targets.len(), 1);
    assert_eq!(s.targets[0].address, "127.0.0.1:5300");
    assert_eq!(s.targets[0].note, "");
}

#[test]
fn apply_and_cancel_config() {
    let c = load_config("[general]\nlisten_port=05300\nlaunch_on_startup=true\n[forward.1]\nip=h\nport=9\nnote=z\n").unwrap();
    let mut s = state("", vec![]);
    s.apply_config(&c);
    assert_eq!(s.listen_port, "5300");
    assert!(s.launch_on_startup);
    assert_eq!(s.targets.len(), 1);
    assert_eq!(s.targets[0].address, "h:9");
    assert_eq!(s.targets[0].note, "z");
    s.listen_port = "1".to_string();
    s.has_errors = true;
    s.has_pending_changes = true;
    s.error_text = "e".to_string();
    s.launch_on_startup = false;
    s.cancel_changes(Some(&c));
    assert_eq!(s.listen_port, "5300");
    assert!(!s.launch_on_startup);
    assert!(!s.has_errors && !s.has_pending_changes);
    assert_eq!(s.error_text, "");
    s.listen_port = "2".to_string();
    s.cancel_changes(None);
    assert_eq!(s.listen_port, "2");
}

#[test]
fn start_and_status_texts() {
    let mut s = state("abc", vec![]);
    assert_eq!(s.start_listen_port(), None);
    assert_eq!(s.status_text, "Invalid listen port");
    s.listen_port = "5300".to_string();
    assert_eq!(s.start_listen_port(), Some(5300));
    s.start_failed(&StartFailure::NoTargets);
    assert_eq!(s.status_text, "Add at least one target");
    s.start_failed(&StartFailure::Unresolved("h:1".to_string()));
    assert_eq!(s.status_text, "Could not resolve: h:1");
    s.start_failed(&StartFailure::InvalidTarget("h:1".to_string()));
    assert_eq!(s.status_text, "Invalid target: h:1");
    s.start_failed(&StartFailure::BindFailed("in use".to_string()));
    assert_eq!(s.status_text, "Bind failed: in use");
    s.packets_forwarded = 9;
    s.started(5300);
    assert!(s.running);
    assert_eq!(s.packets_forwarded, 0);
    assert_eq!(s.status_text, "Listening on port 5300");
    s.show_progress(1234, 56);
    assert_eq!(s.packets_forwarded, 1234);
    assert_eq!(s.packets_per_second, 56);
    assert_eq!(s.status_text, "Running — 1234 packets forwarded");
    s.show_progress(1u64 << 32 | 5, 1);
    assert_eq!(s.packets_forwarded, 5);
    s.stopped();
    assert!(!s.running);
    assert_eq!(s.status_text, "Stopped");
}

#[test]
fn mark_saved_clears_pending() {
    let mut s = state("5300", vec![row("a:1", "")]);
    s.has_pending_changes = true;
    let saved = s.mark_saved();
    assert!(!s.has_pending_changes);
    assert_eq!(s.status_text, "Config saved, restarting...");
    assert!(saved.matches_ui(&s));
}

#[test]
fn tray_texts() {
    assert_eq!(tray_status_text(false, 12), "Stopped");
    assert_eq!(tray_status_text(true, 12), "Running — 12 pkt/s");
    assert_eq!(tray_status_text(true, 0), "Running — 0 pkt/s");
    assert_eq!(tray_status_text(true, -3), "Running — -3 pkt/s");
    assert_eq!(tray_status_text(true, i32::MIN), format!("Running — {} pkt/s", i32::MIN));
}
