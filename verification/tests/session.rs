use shutton::session::{
    handle_log_event, prepare_run, shell_command, terminated_line, update_var_list, window_height,
    LogAction, LogEvent,
};

#[test]
fn log_lines_accumulate() {
    let mut log = String::new();
    match handle_log_event(&mut log, LogEvent::Line("one\n".to_string()), true) {
        LogAction::Show(s) => assert_eq!(s, "one\n"),
        LogAction::Done { .. } => panic!("expected a line"),
    }
    handle_log_event(&mut log, LogEvent::Line("two\n".to_string()), true);
    assert_eq!(log, "one\ntwo\n");
}

#[test]
fn finished_quits_only_when_asked() {
    let mut log = "kept".to_string();
    match handle_log_event(&mut log, LogEvent::Finished, true) {
        LogAction::Done { quit } => assert!(quit),
        LogAction::Show(_) => panic!("expected the end"),
    }
    match handle_log_event(&mut log, LogEvent::Finished, false) {
        LogAction::Done { quit } => assert!(!quit),
        LogAction::Show(_) => panic!("expected the end"),
    }
    assert_eq!(log, "kept");
}

#[test]
fn empty_command_does_not_run() {
    let mut log = "old".to_string();
    assert!(prepare_run("", &Vec::new(), &mut log).is_none());
    assert_eq!(log, "old");
}

#[test]
fn run_clears_log_and_substitutes() {
    let mut log = "old".to_string();
    let values = vec![("f".to_string(), "x.txt".to_string())];
    assert_eq!(prepare_run("cat %f", &values, &mut log), Some("cat x.txt".to_string()));
    assert_eq!(log, "");
}

#[test]
fn shell_command_merges_errors() {
    assert_eq!(shell_command("make"), "make 2>&1");
}

#[test]
fn terminated_line_adds_newline() {
    assert_eq!(terminated_line("abc"), "abc\n");
}

#[test]
fn window_heights() {
    assert_eq!(window_height(false, 0), 100);
    assert_eq!(window_height(true, 0), 300);
    assert_eq!(window_height(true, 2), 376);
    assert_eq!(window_height(false, 3), 214);
}

#[test]
fn var_list_changes_only_when_different() {
    let mut cur = vec!["a".to_string()];
    assert!(!update_var_list(&mut cur, vec!["a".to_string()]));
    assert!(update_var_list(&mut cur, vec!["a".to_string(), "b".to_string()]));
    assert_eq!(cur, vec!["a".to_string(), "b".to_string()]);
    assert!(update_var_list(&mut cur, vec![]));
    assert!(cur.is_empty());
}

#[test]
fn run_log_is_the_lines_in_order() {
    let mut log = "previous run".to_string();
    let cmd = prepare_run("ls", &Vec::new(), &mut log);
    assert_eq!(cmd, Some("ls".to_string()));
    for line in ["a\n", "b\n", "c\n"] {
        handle_log_event(&mut log, LogEvent::Line(line.to_string()), false);
    }
    handle_log_event(&mut log, LogEvent::Finished, false);
    assert_eq!(log, "a\nb\nc\n");
}
