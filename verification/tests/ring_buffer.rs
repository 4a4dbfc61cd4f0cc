use kit_panel::process::{handle_stdout, Process, BUFFER_SIZE};

#[test]
fn snapshot_is_newest_first() {
    let mut p = Process::new();
    p.pump_line("one".to_string());
    p.pump_line("two".to_string());
    p.pump_line("three".to_string());
    let lines = p.console_snapshot();
    assert_eq!(lines, vec!["three".to_string(), "two".to_string(), "one".to_string()]);
}

#[test]
fn capacity_is_never_exceeded() {
    let mut p = Process::new();
    for i in 0..100 {
        p.pump_line(format!("line {}", i));
        assert!(p.console_snapshot().len() <= BUFFER_SIZE);
    }
    assert_eq!(p.console_snapshot().len(), BUFFER_SIZE);
}

#[test]
fn oldest_lines_are_evicted() {
    let mut p = Process::new();
    for i in 0..(BUFFER_SIZE + 5) {
        p.pump_line(format!("line {}", i));
    }
    let lines = p.console_snapshot();
    assert_eq!(lines.len(), BUFFER_SIZE);
    // The newest BUFFER_SIZE insertions survive, newest first.
    for (k, line) in lines.iter().enumerate() {
        assert_eq!(*line, format!("line {}", BUFFER_SIZE + 4 - k));
    }
}

#[test]
fn empty_buffer_snapshot_is_empty() {
    let p = Process::new();
    assert!(p.console_snapshot().is_empty());
}

#[test]
fn handle_stdout_records_lines_and_clears_liveness() {
    let mut p = Process::new();
    assert!(p.is_alive());
    handle_stdout(&mut p, vec!["a".to_string(), "b".to_string()]);
    assert!(!p.is_alive());
    assert_eq!(p.console_snapshot(), vec!["b".to_string(), "a".to_string()]);
}
