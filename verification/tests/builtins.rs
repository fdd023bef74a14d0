use gshell::alias::AliasTable;
use gshell::builtins::{
    alias_arg, alias_line, cd_target, echo_text, exit_status, history, history_lines, plan_test,
    probe_status, split_at_eq, trim_matches_char, wants_help, AliasArg, CdTarget, FileTest,
    HistoryAction, TestPlan,
};

fn strings(v: &[&str]) -> Vec<String> {
    v.iter().map(|s| s.to_string()).collect()
}

#[test]
fn test_expressions() {
    assert!(matches!(plan_test(&[]), TestPlan::Status(1)));
    assert!(matches!(plan_test(&["abc"]), TestPlan::Status(0)));
    assert!(matches!(plan_test(&["-n", ""]), TestPlan::Status(1)));
    assert!(matches!(plan_test(&["-z", ""]), TestPlan::Status(0)));
    assert!(matches!(plan_test(&["a", "=", "a", "]"]), TestPlan::Status(0)));
    assert!(matches!(plan_test(&["a", "!=", "a"]), TestPlan::Status(1)));
    assert!(matches!(plan_test(&["3", "-lt", "10"]), TestPlan::Status(0)));
    assert!(matches!(plan_test(&["x", "-ge", "1"]), TestPlan::Status(1)));
    assert!(matches!(plan_test(&["1", "-bogus", "1"]), TestPlan::Status(1)));
    match plan_test(&["-d", "/tmp", "]"]) {
        TestPlan::Probe(t, f) => {
            assert_eq!(t, FileTest::IsDir);
            assert_eq!(f, "/tmp");
        }
        other => panic!("expected a probe, got {:?}", other),
    }
    assert_eq!(probe_status(true), 0);
    assert_eq!(probe_status(false), 1);
}

#[test]
fn alias_arguments() {
    match alias_arg("ll='ls -l'") {
        AliasArg::Define(n, v) => {
            assert_eq!(n, "ll");
            assert_eq!(v, "ls -l");
        }
        other => panic!("expected a definition, got {:?}", other),
    }
    match alias_arg("gs=\"git status\"") {
        AliasArg::Define(_, v) => assert_eq!(v, "git status"),
        other => panic!("expected a definition, got {:?}", other),
    }
    assert!(matches!(alias_arg("ll"), AliasArg::Show(n) if n == "ll"));
    assert_eq!(alias_line("ll", "ls -l"), "alias ll='ls -l'");
    assert_eq!(trim_matches_char("''x''", '\''), "x");
    assert_eq!(split_at_eq("a=b=c"), Some(("a".to_string(), "b=c".to_string())));
    assert_eq!(split_at_eq("abc"), None);
}

#[test]
fn alias_table_reads_back_writes() {
    let mut t = AliasTable::new();
    t.set_alias("ll".to_string(), "ls -l".to_string());
    t.set_alias("gs".to_string(), "git status".to_string());
    t.set_alias("ll".to_string(), "ls -la".to_string());
    assert_eq!(t.get_alias("ll"), Some("ls -la".to_string()));
    assert_eq!(t.get_alias("gs"), Some("git status".to_string()));
    let mut names = t.get_alias_names();
    names.sort();
    assert_eq!(names, strings(&["gs", "ll"]));
    assert!(t.remove_alias("ll"));
    assert!(!t.remove_alias("ll"));
    assert_eq!(t.get_alias("ll"), None);
    assert_eq!(t.get_alias("gs"), Some("git status".to_string()));
}

#[test]
fn cd_exit_help_echo() {
    assert_eq!(cd_target(""), CdTarget::Home);
    assert_eq!(cd_target("~"), CdTarget::Home);
    assert_eq!(cd_target(".."), CdTarget::Parent);
    assert_eq!(cd_target("."), CdTarget::Stay);
    assert_eq!(cd_target("/tmp"), CdTarget::Named);
    assert_eq!(exit_status(&[]), 0);
    assert_eq!(exit_status(&["7"]), 7);
    assert_eq!(exit_status(&["-2"]), -2);
    assert_eq!(exit_status(&["x"]), 0);
    assert_eq!(exit_status(&["99999999999"]), 0);
    assert!(wants_help(&["--help", "x"]));
    assert!(!wants_help(&["x", "--help"]));
    assert_eq!(echo_text(&["a", "b  c", ""]), "a b  c ");
}

#[test]
fn history_listing_and_flags() {
    let entries = strings(&["ls", "cd /", "echo hi"]);
    assert_eq!(history_lines(&entries, &vec![]), strings(&["  1  ls", "  2  cd /", "  3  echo hi"]));
    assert_eq!(history_lines(&entries, &strings(&["2"])), strings(&["  2  cd /", "  3  echo hi"]));
    assert_eq!(history_lines(&entries, &strings(&["9"])).len(), 3);
    assert_eq!(history_lines(&entries, &strings(&["x"])).len(), 3);
    assert!(matches!(history(&entries, &strings(&["-c"]), ".h"), HistoryAction::Clear));
    assert!(matches!(history(&entries, &strings(&["-r"]), ".h"), HistoryAction::Load(f) if f == ".h"));
    assert!(matches!(history(&entries, &strings(&["-w", "f"]), ".h"), HistoryAction::Write(f) if f == "f"));
    assert!(matches!(history(&entries, &strings(&["-a"]), ".h"), HistoryAction::Append(f) if f == ".h"));
    assert!(matches!(history(&entries, &strings(&["1"]), ".h"), HistoryAction::Show(l) if l == strings(&["  3  echo hi"])));
}

#[test]
fn history_numbers_align_to_widest() {
    let entries: Vec<String> = (1..=10).map(|i| format!("c{}", i)).collect();
    let lines = history_lines(&entries, &vec![]);
    assert_eq!(lines[0], "   1  c1");
    assert_eq!(lines[9], "  10  c10");
}
