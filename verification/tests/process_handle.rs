use kit_panel::process::Process;

#[test]
fn new_handle_is_alive_and_attached() {
    let p = Process::new();
    assert!(p.is_alive());
    assert!(p.is_attached());
}

#[test]
fn only_end_of_stream_clears_liveness() {
    let mut p = Process::new();
    p.pump_line("output".to_string());
    assert!(p.is_alive());
    p.send("stop".to_string(), None);
    assert!(p.is_alive());
    assert!(p.kill(true));
    assert!(p.is_alive());
    p.pump_eof();
    assert!(!p.is_alive());
}

#[test]
fn reattach_restores_liveness_and_keeps_console() {
    let mut p = Process::new();
    p.pump_line("before".to_string());
    p.pump_eof();
    assert!(!p.is_alive());
    p.insert();
    assert!(p.is_alive());
    assert!(p.is_attached());
    assert_eq!(p.console_snapshot(), vec!["before".to_string()]);
}

#[test]
fn send_records_attributed_echo_and_returns_payload() {
    let mut p = Process::new();
    let payload = p.send("say hi".to_string(), Some("admin".to_string()));
    assert_eq!(payload, Some("say hi\n".to_string()));
    assert_eq!(p.console_snapshot(), vec!["[KitPanel - admin] say hi".to_string()]);
}

#[test]
fn send_without_user_uses_plain_attribution() {
    let mut p = Process::new();
    let payload = p.send("list".to_string(), None);
    assert_eq!(payload, Some("list\n".to_string()));
    assert_eq!(p.console_snapshot(), vec!["[KitPanel] list".to_string()]);
}

#[test]
fn send_with_no_child_is_a_no_op() {
    let mut p = Process::new();
    assert!(p.kill(true));
    let payload = p.send("ignored".to_string(), Some("admin".to_string()));
    assert_eq!(payload, None);
    assert!(p.console_snapshot().is_empty());
}

#[test]
fn kill_with_no_child_succeeds() {
    let mut p = Process::new();
    assert!(p.kill(true));
    assert!(!p.is_attached());
    // A second kill finds nothing to do and still succeeds.
    assert!(p.kill(false));
}

#[test]
fn failed_kill_leaves_the_child_attached() {
    let mut p = Process::new();
    assert!(!p.kill(false));
    assert!(p.is_attached());
    // The stop can be retried.
    assert!(p.kill(true));
    assert!(!p.is_attached());
}
