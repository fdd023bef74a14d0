use gshell::process::{dup_action, restore_list};
use gshell::ast::RedirectKind;
use gshell::process::{
    child_redirect, is_pure_assignment, parse_fd, pipeline_status, plan_process, redirect_action,
    redirect_op, shell_redirect, split_pipeline, stage_input, stage_kind, stdin_op, ProcessPlan,
    RedirectAction, StageKind,
};

fn strings(v: &[&str]) -> Vec<String> {
    v.iter().map(|s| s.to_string()).collect()
}

#[test]
fn redirect_operators_and_descriptors() {
    for op in [">", ">>", "<", "2>", "1>>", "0<", "12>"] {
        assert!(redirect_op(op), "{}", op);
    }
    for op in ["a>", ">a", "2>&", "x", ""] {
        assert!(!redirect_op(op), "{}", op);
    }
    assert!(stdin_op("<") && stdin_op("3<") && !stdin_op("<<x"));
    assert_eq!(parse_fd(">"), 1);
    assert_eq!(parse_fd(">>"), 1);
    assert_eq!(parse_fd("<"), 0);
    assert_eq!(parse_fd("2>"), 2);
    assert_eq!(parse_fd("2>>"), 2);
    assert_eq!(parse_fd("0<"), 0);
    assert_eq!(parse_fd("99999999999>"), 1);
    assert_eq!(parse_fd("99999999999<"), 0);
}

#[test]
fn command_line_is_split() {
    match plan_process(&strings(&["A=1", "B_2=x", "cmd", "a", ">", "out", "2>>", "err", "b"])) {
        ProcessPlan::Run { redirects, env, program, args } => {
            assert_eq!(program, "cmd");
            assert_eq!(args, strings(&["a", "b"]));
            assert_eq!(env, vec![("A".to_string(), "1".to_string()), ("B_2".to_string(), "x".to_string())]);
            assert_eq!(redirects.len(), 2);
            assert_eq!((redirects[0].op.as_str(), redirects[0].target.as_str(), redirects[0].fd), (">", "out", 1));
            assert_eq!((redirects[1].op.as_str(), redirects[1].target.as_str(), redirects[1].fd), ("2>>", "err", 2));
        }
        other => panic!("unexpected {:?}", other),
    }
    assert!(matches!(plan_process(&strings(&["echo", ">"])), ProcessPlan::MissingTarget));
    assert!(matches!(plan_process(&strings(&["A=1"])), ProcessPlan::Nothing));
    assert!(matches!(plan_process(&strings(&[">", "f"])), ProcessPlan::Nothing));
    assert!(matches!(plan_process(&vec![]), ProcessPlan::Nothing));
    match plan_process(&strings(&["=x", "a-b=1", "y"])) {
        ProcessPlan::Run { env, program, .. } => {
            assert!(env.is_empty());
            assert_eq!(program, "=x");
        }
        other => panic!("unexpected {:?}", other),
    }
}

#[test]
fn redirect_actions() {
    assert_eq!(redirect_action(">", 1), Some(RedirectAction::StdoutTo));
    assert_eq!(redirect_action("1>>", 1), Some(RedirectAction::StdoutAppend));
    assert_eq!(redirect_action("2>", 2), Some(RedirectAction::StderrTo));
    assert_eq!(redirect_action("2>>", 2), Some(RedirectAction::StderrAppend));
    assert_eq!(redirect_action("0<", 0), Some(RedirectAction::StdinFrom));
    assert_eq!(redirect_action("3>", 3), None);
    assert_eq!(shell_redirect(RedirectKind::Output, 2), Some(RedirectAction::StderrTo));
    assert_eq!(shell_redirect(RedirectKind::Heredoc, 0), None);
    assert_eq!(child_redirect(RedirectKind::Heredoc, 0), Some(RedirectAction::StdinFrom));
    assert_eq!(child_redirect(RedirectKind::Append, 5), None);
}

#[test]
fn pipelines_fall_into_stages() {
    assert_eq!(split_pipeline(" ls -l |  grep x| wc "), strings(&["ls -l", "grep x", "wc"]));
    let s = stage_input(&strings(&["sort", "<", "a", "-r", "0<", "b", "<"]));
    assert_eq!(s.stdin_file, Some("b".to_string()));
    assert_eq!(s.words, strings(&["sort", "-r"]));
    let reg = ["echo", "cd", "pwd", "type", "exit", "history"];
    assert_eq!(stage_kind(&vec![], true, &reg), StageKind::Empty);
    assert_eq!(stage_kind(&strings(&["echo", "x"]), true, &reg), StageKind::LastBuiltin);
    assert_eq!(stage_kind(&strings(&["echo", "x"]), false, &reg), StageKind::PipedBuiltin);
    assert_eq!(stage_kind(&strings(&["grep"]), false, &reg), StageKind::Program);
    assert_eq!(pipeline_status(0, true, &vec![0, 3]), 3);
    assert_eq!(pipeline_status(127, false, &vec![]), 127);
    assert!(is_pure_assignment(&vec![], &vec![("a".to_string(), "b".to_string())]));
    assert!(!is_pure_assignment(&strings(&["x"]), &vec![("a".to_string(), "b".to_string())]));
}

#[test]
fn last_stage_not_found_gives_its_status() {
    // `true | nosuch`: `true` started and ended with 0, `nosuch` was not found.
    assert_eq!(pipeline_status(127, false, &vec![0]), 127);
    // `false | echo x`: the builtin at the end decides.
    assert_eq!(pipeline_status(0, false, &vec![1]), 0);
}

#[test]
fn duplicating_redirections() {
    assert_eq!(dup_action(2, "1"), Some(RedirectAction::StderrToStdout));
    assert_eq!(dup_action(1, "2"), Some(RedirectAction::StdoutToStderr));
    assert_eq!(dup_action(2, "2"), None);
    assert_eq!(dup_action(2, "12"), None);
    assert_eq!(shell_redirect(RedirectKind::Duplicate, 2), None);
}

#[test]
fn assignments_are_set_back_after_a_command() {
    // `v=hello echo x` with `v` unset before: afterwards `v` is unset again.
    let saved = vec![("v".to_string(), None)];
    assert_eq!(restore_list(&saved, false), vec![("v".to_string(), None)]);
    // `a=1 a=2 cmd` with `a` held "0": set back "1", then "0".
    let saved = vec![("a".to_string(), Some("0".to_string())), ("a".to_string(), Some("1".to_string()))];
    assert_eq!(
        restore_list(&saved, false),
        vec![("a".to_string(), Some("1".to_string())), ("a".to_string(), Some("0".to_string()))]
    );
}

#[test]
fn assignment_only_keeps_its_values() {
    // `v=hello` alone: nothing is set back.
    let saved = vec![("v".to_string(), Some("old".to_string()))];
    assert!(is_pure_assignment(&vec![], &vec![("v".to_string(), "hello".to_string())]));
    assert!(restore_list(&saved, true).is_empty());
}
