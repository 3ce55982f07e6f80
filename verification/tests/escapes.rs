use shutton::ansi::{clean_output_line, strip_ansi};

#[test]
fn strip_ansi_removes_color_codes() {
    assert_eq!(strip_ansi("\x1b[31mred\x1b[0m plain"), "red plain");
}

#[test]
fn strip_ansi_keeps_plain_text() {
    assert_eq!(strip_ansi("hello, world"), "hello, world");
    assert_eq!(strip_ansi(""), "");
}

#[test]
fn strip_ansi_lone_escape_is_dropped() {
    assert_eq!(strip_ansi("a\x1bb"), "ab");
    assert_eq!(strip_ansi("a\x1b"), "a");
}

#[test]
fn strip_ansi_unterminated_sequence_runs_to_end() {
    assert_eq!(strip_ansi("ok\x1b[12;34"), "ok");
}

#[test]
fn strip_ansi_sequence_ends_at_first_letter() {
    assert_eq!(strip_ansi("\x1b[1;32Kgreen"), "green");
    assert_eq!(strip_ansi("\x1b[Hx"), "x");
}

#[test]
fn strip_ansi_is_idempotent() {
    let once = strip_ansi("\x1b[1mbold\x1b\x1b[0m\x1bz");
    assert_eq!(strip_ansi(&once), once);
    assert!(!once.contains('\x1b'));
}

#[test]
fn clean_output_line_appends_newline() {
    assert_eq!(clean_output_line("\x1b[32mdone\x1b[0m"), "done\n");
    assert_eq!(clean_output_line(""), "\n");
}
