use gshell::builtins::TestPlan;
use gshell::commands::{plan_command, CommandPlan};
use gshell::expand::expand_tokens;
use gshell::process::{
    pipe_result, pipe_start, pipe_step, plan_line, plan_outcome, redirect_outcome, PipeAction, ProcessPlan,
    RedirectAction, StageEvent,
};
use gshell::tokenize::tokenize_strings;

/// Plans a line with no command substitution and no glob in it.
fn plan(line: &str, last: i32) -> ProcessPlan {
    let env: Vec<(String, String)> = vec![("HOME".to_string(), "/home/u".to_string())];
    let outs: Vec<String> = Vec::new();
    let expanded = expand_tokens(&tokenize_strings(line), last, &env, &outs);
    let found: Vec<Vec<String>> = expanded.iter().map(|_| Vec::new()).collect();
    plan_line(line, last, &env, &outs, &found)
}

/// The status a line comes to when what it runs is a builtin whose status
/// the library decides (only `test` and `[` here).
fn status(line: &str, last: i32) -> i32 {
    let p = plan(line, last);
    if let Some((s, _)) = plan_outcome(&p) {
        return s;
    }
    match p {
        ProcessPlan::Run { program, args, .. } => {
            let a: Vec<&str> = args.iter().map(|s| s.as_str()).collect();
            match plan_command(&program, &a) {
                CommandPlan::Test(TestPlan::Status(code)) => code,
                _ => panic!("not decided by the library"),
            }
        }
        _ => unreachable!(),
    }
}

#[test]
fn trailing_redirection_is_a_syntax_error() {
    let p = plan("echo hi >", 0);
    assert!(matches!(p, ProcessPlan::MissingTarget));
    assert_eq!(plan_outcome(&p), Some((1, "syntax error: expected filename after redirection".to_string())));
}

#[test]
fn lines_that_run_nothing_give_zero() {
    for line in ["", "   ", "# note", "FOO=bar"] {
        let p = plan(line, 5);
        assert!(matches!(p, ProcessPlan::Nothing), "{}", line);
        assert_eq!(plan_outcome(&p), Some((0, String::new())));
    }
}

#[test]
fn test_builtin_through_a_whole_line() {
    assert_eq!(status("test a = b", 0), 1);
    assert_eq!(status("test 3 -lt 10", 0), 0);
    assert_eq!(status("[ a = a ]", 0), 0);
}

#[test]
fn a_line_plans_its_program_assignments_and_redirections() {
    match plan("A=1 echo $HOME > out", 0) {
        ProcessPlan::Run { redirects, env, program, args } => {
            assert_eq!(env, vec![("A".to_string(), "1".to_string())]);
            assert_eq!(program, "echo");
            assert_eq!(args, vec!["/home/u".to_string()]);
            assert_eq!(redirects.len(), 1);
            assert_eq!(redirects[0].op, ">");
            assert_eq!(redirects[0].target, "out");
            assert_eq!(redirect_outcome(&redirects[0].op, redirects[0].fd), Ok(RedirectAction::StdoutTo));
        }
        _ => panic!("expected a program"),
    }
    assert_eq!(plan_outcome(&plan("ls", 0)), None);
    assert_eq!(redirect_outcome("3>", 3), Err("3>: unsupported redirection".to_string()));
}

#[test]
fn pipeline_stages_step_by_step() {
    // `true | nosuch`: the first starts, the second is not found.
    let (s, a) = pipe_start(2);
    assert_eq!(a, PipeAction::Stage(0));
    let (s, a) = pipe_step(s, StageEvent::Spawned);
    assert_eq!(a, PipeAction::Stage(1));
    let (s, a) = pipe_step(s, StageEvent::NotFound);
    assert_eq!(a, PipeAction::Stop { kill: false });
    assert_eq!(pipe_result(s, &vec![0]), 127);
    // `ls | false`: both start; the last decides.
    let (s, _) = pipe_start(2);
    let (s, _) = pipe_step(s, StageEvent::Spawned);
    let (s, a) = pipe_step(s, StageEvent::Spawned);
    assert_eq!(a, PipeAction::Finish);
    assert_eq!(pipe_result(s, &vec![0, 1]), 1);
    // A program that cannot start stops the line and kills the others.
    let (s, _) = pipe_start(3);
    let (s, _) = pipe_step(s, StageEvent::Spawned);
    let (s, a) = pipe_step(s, StageEvent::SpawnFailed);
    assert_eq!(a, PipeAction::Stop { kill: true });
    assert_eq!(pipe_result(s, &vec![0]), 127);
    // A builtin at the end gives its own status.
    let (s, _) = pipe_start(2);
    let (s, _) = pipe_step(s, StageEvent::Spawned);
    let (s, _) = pipe_step(s, StageEvent::BuiltinRan(3));
    assert_eq!(pipe_result(s, &vec![0]), 3);
    assert_eq!(pipe_start(0).1, PipeAction::Finish);
    let (s, _) = pipe_start(1);
    let (s, a) = pipe_step(s, StageEvent::InputMissing);
    assert_eq!(a, PipeAction::Stop { kill: false });
    assert_eq!(pipe_result(s, &vec![]), 1);
}
