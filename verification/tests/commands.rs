use gshell::builtins::{CdTarget, TestPlan};
use gshell::commands::{
    builtin_output, export_arg, export_line, help_lines, history_all, plan_command, script_lines,
    split_char, type_line, var_lines, resolve_program, CommandPlan, ExportArg,
};

fn strings(v: &[&str]) -> Vec<String> {
    v.iter().map(|s| s.to_string()).collect()
}

#[test]
fn builtins_are_recognised_by_name() {
    assert!(matches!(plan_command("echo", &["a", "b"]), CommandPlan::Lines(l) if l == strings(&["a b"])));
    assert!(matches!(plan_command("echo", &["--help"]), CommandPlan::Lines(l) if l.len() == 2));
    assert!(matches!(plan_command("type", &[]), CommandPlan::Error(m) if m == "type: missing operand"));
    assert!(matches!(plan_command("type", &["ls"]), CommandPlan::TypeOf));
    assert!(matches!(plan_command("pwd", &[]), CommandPlan::Pwd));
    assert!(matches!(plan_command("cd", &[]), CommandPlan::Cd(CdTarget::Home)));
    assert!(matches!(plan_command("cd", &["/x"]), CommandPlan::Cd(CdTarget::Named)));
    assert!(matches!(plan_command("exit", &["3"]), CommandPlan::Exit(3)));
    assert!(matches!(plan_command("export", &[]), CommandPlan::ShowVars));
    assert!(matches!(plan_command("export", &["A=1"]), CommandPlan::Export));
    assert!(matches!(plan_command("env", &[]), CommandPlan::ShowVars));
    assert!(matches!(plan_command("source", &[]), CommandPlan::Error(m) if m == "source: missing filename"));
    assert!(matches!(plan_command("source", &["f"]), CommandPlan::Source));
    assert!(matches!(plan_command("[", &["a", "]"]), CommandPlan::Test(TestPlan::Status(0))));
    assert!(matches!(plan_command("history", &[]), CommandPlan::History));
    assert!(matches!(plan_command("ls", &["-l"]), CommandPlan::External));
    assert!(matches!(plan_command("unalias", &["x"]), CommandPlan::Unalias));
}

#[test]
fn export_and_variable_listing() {
    assert!(matches!(export_arg("A=1"), ExportArg::Assign(n, v) if n == "A" && v == "1"));
    assert!(matches!(export_arg("PATH"), ExportArg::Show(n) if n == "PATH"));
    assert_eq!(export_line("A", "1"), "declare -x A=1");
    let vars = vec![
        ("PATH".to_string(), "/bin".to_string()),
        ("HOME".to_string(), "/h".to_string()),
        ("A".to_string(), "x=y".to_string()),
    ];
    assert_eq!(var_lines(&vars), strings(&["A=x=y", "HOME=/h", "PATH=/bin"]));
}

#[test]
fn type_and_history_lines() {
    assert_eq!(type_line("cd", Some("/bin/cd")), "cd is a shell builtin");
    assert_eq!(type_line("ls", Some("/bin/ls")), "ls is /bin/ls");
    assert_eq!(type_line("nope", None), "nope: not found");
    assert_eq!(history_all(&strings(&["a", "b"])), strings(&["    1  a", "    2  b"]));
}

#[test]
fn help_texts() {
    let all = help_lines(&[], "1.2.3");
    assert_eq!(all[0], "G-shell v1.2.3 - A shell written in Rust");
    assert_eq!(all.len(), 12);
    assert_eq!(
        help_lines(&["cd", "zz"], "1"),
        strings(&["cd: cd [dir]", "    Change the current working directory.", "help: no help topics match 'zz'."])
    );
}

#[test]
fn script_lines_skip_blanks_and_comments() {
    let text = "  echo a  \n\n# note\n\tls -l\r\n  #x\nlast";
    assert_eq!(script_lines(text), strings(&["echo a", "ls -l", "last"]));
    assert_eq!(split_char("a|b||c", '|'), strings(&["a", "b", "", "c"]));
}

#[test]
fn builtin_output_in_pipes() {
    let h = strings(&["ls", "pwd"]);
    let reg = ["echo", "cd", "pwd", "type", "exit", "history"];
    assert_eq!(builtin_output("echo", &["a", "b"], &h, "/d", &reg, None), "a b\n");
    assert_eq!(builtin_output("pwd", &[], &h, "/d", &reg, None), "/d\n");
    assert_eq!(builtin_output("history", &[], &h, "/d", &reg, None), "    1  ls\n    2  pwd\n");
    assert_eq!(builtin_output("type", &["cd"], &h, "/d", &reg, None), "cd is a shell builtin\n");
    assert_eq!(builtin_output("type", &["ls"], &h, "/d", &reg, Some("/bin/ls")), "ls is /bin/ls\n");
    assert_eq!(builtin_output("type", &["zz"], &h, "/d", &reg, None), "zz: not found\n");
    assert_eq!(builtin_output("type", &[], &h, "/d", &reg, None), "");
    assert_eq!(builtin_output("cd", &["/"], &h, "/d", &reg, None), "");
}

#[test]
fn program_not_found_gives_127_and_a_message() {
    assert_eq!(
        resolve_program("nosuch_cmd_xyz", None),
        Err((127, "nosuch_cmd_xyz: command not found".to_string()))
    );
    assert_eq!(resolve_program("ls", Some("/bin/ls".to_string())), Ok("/bin/ls".to_string()));
}
