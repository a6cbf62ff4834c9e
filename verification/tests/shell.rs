use scal::shell::sanitize_output;

#[test]
fn carriage_returns_keep_the_last_part_of_a_line() {
    assert_eq!(sanitize_output("10%\r50%\r100%\ndone"), "100%\ndone");
}

#[test]
fn empty_lines_are_dropped() {
    assert_eq!(sanitize_output("a\n\n\nb\n"), "a\nb");
    // Text before a carriage return at the end of a line is overwritten.
    assert_eq!(sanitize_output("x\r\n"), "");
    assert_eq!(sanitize_output("progress\r"), "");
    assert_eq!(sanitize_output(""), "");
    assert_eq!(sanitize_output("\n\r\n"), "");
}

#[test]
fn plain_output_is_unchanged() {
    assert_eq!(sanitize_output("one\ntwo"), "one\ntwo");
}

#[test]
fn sanitizing_twice_changes_nothing_more() {
    let inputs = ["a\rb\n\nc\r", "\r\r\n x \n", "ü\rß\nλ"];
    for s in inputs {
        let once = sanitize_output(s);
        assert_eq!(sanitize_output(&once), once);
    }
    assert_eq!(sanitize_output("ü\rß\nλ"), "ß\nλ");
}

use scal::shell::{combine_output, is_white_space_char, plan_command, CommandStep, ShellSession};

fn run_text(step: CommandStep) -> Option<String> {
    match step {
        CommandStep::Run(t) => Some(t),
        CommandStep::Handled => None,
    }
}

#[test]
fn cd_moves_the_session_and_runs_nothing() {
    let mut s = ShellSession::new();
    assert!(run_text(plan_command(&mut s, "  cd src/bin ", None)).is_none());
    assert_eq!(s.cwd, vec!["src".to_string(), "bin".to_string()]);
    plan_command(&mut s, "cd ../lib/./x//y/", None);
    assert_eq!(s.cwd, vec!["src", "lib", "x", "y"]);
    plan_command(&mut s, "cd ../../../../../..", None);
    assert!(s.cwd.is_empty());
}

#[test]
fn cd_edge_cases() {
    let mut s = ShellSession::new();
    plan_command(&mut s, "cd a", None);
    // `-` and a comment leave the directory as it is.
    assert!(run_text(plan_command(&mut s, "cd -", None)).is_none());
    assert!(run_text(plan_command(&mut s, "cd # nothing", None)).is_none());
    assert_eq!(s.cwd, vec!["a"]);
    // An absolute path starts over from the session's base directory.
    plan_command(&mut s, "cd /tmp/x", None);
    assert_eq!(s.cwd, vec!["tmp", "x"]);
    plan_command(&mut s, "cd ..", None);
    assert_eq!(s.cwd, vec!["tmp"]);
}

#[test]
fn other_commands_run_as_typed() {
    let mut s = ShellSession::new();
    assert_eq!(run_text(plan_command(&mut s, " ls -la ", None)), Some(" ls -la ".to_string()));
    assert_eq!(run_text(plan_command(&mut s, "cd", None)), Some("cd".to_string()));
    // Trimmed, `cd   ` is a bare `cd`, which the shell runs.
    assert_eq!(run_text(plan_command(&mut s, "cd   ", None)), Some("cd   ".to_string()));
    assert_eq!(run_text(plan_command(&mut s, "cdx y", None)), Some("cdx y".to_string()));
    assert!(s.cwd.is_empty());
}

#[test]
fn startup_config_runs_once_per_session() {
    let mut s = ShellSession::new();
    let cfg = Some("source ~/.profile");
    assert!(run_text(plan_command(&mut s, "cd x", cfg)).is_none());
    assert!(!s.startup_done);
    assert_eq!(run_text(plan_command(&mut s, "ls", cfg)), Some("source ~/.profile\nls".to_string()));
    assert!(s.startup_done);
    assert_eq!(run_text(plan_command(&mut s, "pwd", cfg)), Some("pwd".to_string()));
    let mut t = ShellSession::new();
    assert_eq!(run_text(plan_command(&mut t, "ls", None)), Some("ls".to_string()));
    assert!(!t.startup_done);
}

#[test]
fn white_space_is_unicode_white_space() {
    for c in [' ', '\t', '\n', '\r', '\u{b}', '\u{c}', '\u{85}', '\u{a0}', '\u{2003}', '\u{3000}'] {
        assert!(is_white_space_char(c));
        assert!(c.is_whitespace());
    }
    for c in ['a', '_', '\u{200b}', '\u{0}'] {
        assert!(!is_white_space_char(c));
    }
    let mut s = ShellSession::new();
    plan_command(&mut s, "\u{3000}cd\u{a0}x", None);
    assert!(s.cwd.is_empty());
    plan_command(&mut s, "\u{3000}cd x\u{2003}", None);
    assert_eq!(s.cwd, vec!["x"]);
}

#[test]
fn output_of_both_streams() {
    assert_eq!(combine_output("a\r b\n", "warn"), " b\nwarn");
    assert_eq!(combine_output("", "err\n"), "err");
    assert_eq!(combine_output("out", ""), "out");
    assert_eq!(combine_output("\n", "e"), "e");
    assert_eq!(combine_output("", ""), "");
}

#[test]
fn cleaned_output_has_no_carriage_returns_or_empty_lines() {
    for s in ["\r\na\r\n\nb\rc\n\n", "\n\nx\n", "p\rq\r", "\n"] {
        let r = sanitize_output(s);
        assert!(!r.contains('\r'));
        if !r.is_empty() {
            assert!(!r.starts_with('\n') && !r.ends_with('\n'));
            assert!(r.split('\n').all(|l| !l.is_empty()));
        }
    }
}
