use gshell::theme::{git_segment, color_to_ansi, render_exit, render_prompt, render_time, PromptContext, Style};

fn ctx() -> PromptContext {
    PromptContext {
        user: "alice".to_string(),
        host: "box".to_string(),
        path: "~/src/gshell".to_string(),
        git: " main \u{2713}".to_string(),
        time: "12:00:00".to_string(),
        env: vec![],
    }
}

#[test]
fn test_style_parse_foreground() {
    let s = Style::parse("red");
    assert_eq!(s.fg, Some("red".into()));
    assert!(s.bg.is_none());
}

#[test]
fn test_style_parse_bold() {
    let s = Style::parse("green bold");
    assert_eq!(s.fg, Some("green".into()));
    assert!(s.bold);
}

#[test]
fn test_style_parse_background() {
    let s = Style::parse("white on_blue");
    assert_eq!(s.fg, Some("white".into()));
    assert_eq!(s.bg, Some("blue".into()));
}

#[test]
fn test_style_parse_italic_dim() {
    let s = Style::parse("cyan italic dim");
    assert_eq!(s.fg, Some("cyan".into()));
    assert!(s.italic);
    assert!(s.dim);
}

#[test]
fn test_color_to_ansi_named() {
    assert!(color_to_ansi("red", false).contains("38;5;1"));
    assert!(color_to_ansi("blue", true).contains("48;5;4"));
}

#[test]
fn test_color_to_ansi_hex() {
    let result = color_to_ansi("#ff0000", false);
    assert!(result.contains("38;2;255;0;0"));
}

#[test]
fn test_render_exit_zero() {
    assert_eq!(render_exit(0), "");
}

#[test]
fn test_render_exit_nonzero() {
    assert_eq!(render_exit(42), "(42)");
}

#[test]
fn test_render_prompt_mixed() {
    let r = render_prompt("\\u {host} \\w", 0, &ctx());
    assert!(r.contains(' '));
}

#[test]
fn test_render_prompt_newline() {
    let r = render_prompt("line1{newline}line2", 0, &ctx());
    assert_eq!(r, "line1\nline2");
}

#[test]
fn test_style_to_ansi() {
    let s = Style { fg: Some("red".into()), bg: None, bold: true, dim: false, italic: false };
    let a = s.to_ansi();
    assert!(a.starts_with("\x1b["));
    assert!(a.contains("1"));
    assert!(a.contains("38;5;1"));
}

#[test]
fn test_style_to_ansi_empty() {
    let s = Style { fg: None, bg: None, bold: false, dim: false, italic: false };
    assert_eq!(s.to_ansi(), "");
}

#[test]
fn test_render_prompt_segments() {
    let mut c = ctx();
    c.user = "testuser".to_string();
    let r = render_prompt("{user} x {exit} $ ", 0, &c);
    assert_eq!(r, "testuser x  $ ");
    let r2 = render_prompt("{user} x {exit} $ ", 42, &c);
    assert_eq!(r2, "testuser x (42) $ ");
}

#[test]
fn test_render_prompt_legacy_escapes() {
    let mut c = ctx();
    c.user = "test".to_string();
    c.path = "~".to_string();
    let r = render_prompt("\\u@\\h:\\w\\$ ", 0, &c);
    assert!(r.contains("test"));
    assert!(r.contains('$'));
    assert_eq!(r, "test@box:~$ ");
}

#[test]
fn prompt_marks_for_root() {
    let mut c = ctx();
    c.user = "root".to_string();
    assert_eq!(render_prompt("{prompt}{root}\\$", 0, &c), "###");
}

#[test]
fn prompt_marks_for_others() {
    let mut c = ctx();
    c.user = "nobody".to_string();
    assert_eq!(render_prompt("{prompt}{root}\\$", 0, &c), "$$");
}

#[test]
fn styled_segment_gets_codes_and_reset() {
    let mut c = ctx();
    c.env = vec![("GS_STYLE_PATH".to_string(), "cyan bold".to_string())];
    let r = render_prompt("{path}>", 0, &c);
    assert_eq!(r, "\x1b[1;38;5;6m~/src/gshell\x1b[0m>");
}

#[test]
fn prompt_escapes_and_unknown_segments() {
    let c = ctx();
    assert_eq!(render_prompt("\\W|\\x|{nope}|\\", 1, &c), "gshell|\\x|{nope}|\\");
    assert_eq!(render_prompt("{git}", 0, &c), " main \u{2713}");
    assert_eq!(render_prompt("{unclosed", 0, &c), "{unclosed}");
    assert_eq!(render_prompt("\\e[0m", 0, &c), "\x1b[0m");
}

#[test]
fn clock_text_of_seconds() {
    assert_eq!(render_time(0), "00:00:00");
    assert_eq!(render_time(86400 + 3 * 3600 + 7 * 60 + 9), "03:07:09");
    assert_eq!(render_time(23 * 3600 + 59 * 60 + 59), "23:59:59");
}

#[test]
fn colours_by_number_and_unknown() {
    assert_eq!(color_to_ansi("200", true), "48;5;200");
    assert_eq!(color_to_ansi("256", false), "");
    assert_eq!(color_to_ansi("grey", false), "38;5;8");
    assert_eq!(color_to_ansi("#0a0B0c", true), "48;2;10;11;12");
    assert_eq!(color_to_ansi("#zz0000", false), "");
    assert_eq!(color_to_ansi("mauve", false), "");
}

#[test]
fn style_words_in_any_case() {
    let s = Style::parse("BOLD red blue on_black Underline");
    assert!(s.bold);
    assert_eq!(s.fg, Some("red".into()));
    assert_eq!(s.bg, Some("black".into()));
    assert_eq!(s.to_ansi(), "\x1b[1;38;5;1;48;5;0m");
}

#[test]
fn test_render_path_in_home() {
    let cwd = "/home/tester/project";
    let parent = "/home/tester";
    let sub = "project";
    let p = gshell::theme::render_path(cwd, Some(parent));
    assert_eq!(p, format!("~/{}", sub));
}

#[test]
fn test_render_prompt_not_root() {
    assert_eq!(gshell::theme::render_prompt_char("nobody"), "$");
}

#[test]
fn test_render_prompt_root() {
    assert_eq!(gshell::theme::render_prompt_char("root"), "#");
}

#[test]
fn root_segment_and_paths_outside_home() {
    assert_eq!(gshell::theme::render_root("root"), "#");
    assert_eq!(gshell::theme::render_root("ann"), "");
    assert_eq!(gshell::theme::render_path("/etc", Some("/home/u")), "/etc");
    assert_eq!(gshell::theme::render_path("/etc", None), "/etc");
    assert_eq!(gshell::theme::render_path("/home/u", Some("/home/u")), "~");
}

#[test]
fn git_segment_shows_branch_and_mark() {
    assert_eq!(git_segment(Some("main\n"), ""), " main \u{2713}");
    assert_eq!(git_segment(Some("main\n"), "\n\n"), " main \u{2713}");
    assert_eq!(git_segment(Some("dev\n"), " M src/lib.rs\n"), " dev \u{2717}");
    assert_eq!(git_segment(Some("  \n"), "x"), "");
    assert_eq!(git_segment(None, "x"), "");
}
