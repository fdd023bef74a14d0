use gshell::ast::{
    AndOrList, AndOrNode, AndOrOp, CaseCommand, CaseItem, CommandNode, CompleteCommand, ForCommand,
    IfClause, IfCommand, Pipeline, Program, ScriptCommand, SimpleCommand, WhileCommand,
};
use gshell::commands::resolve_program;
use gshell::process::pipeline_status;
use gshell::eval::{eval_complete_command, eval_program, glob_match_simple, is_builtin, Action, Evaluator};

fn sc(words: &[&str]) -> SimpleCommand {
    SimpleCommand {
        env_overrides: vec![],
        words: words.iter().map(|s| s.to_string()).collect(),
        redirects: vec![],
    }
}

fn pipeable(negated: bool, cmds: Vec<SimpleCommand>) -> CommandNode {
    CommandNode::Pipeable(Pipeline { negated, commands: cmds })
}

fn compound(sc: ScriptCommand) -> CommandNode {
    CommandNode::Compound(sc)
}

fn complete(cmd: CommandNode) -> CompleteCommand {
    CompleteCommand {
        and_or: AndOrList { nodes: vec![AndOrNode { command: cmd, operator: None }] },
        background: false,
    }
}

fn program(commands: Vec<CompleteCommand>) -> Program {
    Program { commands }
}

/// The status a pipeline would have, for the commands these tests use:
/// `true`, `echo` and `false` are found and end with 0, 0 and 1; for any
/// other name the program search finds nothing. What a missing program
/// and the stages come to is the library's decision.
fn status_of(p: &Pipeline) -> i32 {
    let mut statuses = Vec::new();
    let mut stage_status = 0;
    let mut last_is_program = false;
    for (i, c) in p.commands.iter().enumerate() {
        let name = c.words.first().cloned().unwrap_or_default();
        let found = match name.as_str() {
            "true" | "echo" | "false" => Some(format!("/bin/{}", name)),
            _ => None,
        };
        match resolve_program(&name, found) {
            Ok(_) => {
                statuses.push(if name == "false" { 1 } else { 0 });
                last_is_program = i + 1 == p.commands.len();
            }
            Err((status, _)) => {
                stage_status = status;
                last_is_program = false;
                break;
            }
        }
    }
    pipeline_status(stage_status, last_is_program, &statuses)
}

/// Drives the evaluator, answering each pipeline with `status_of`; the
/// pipelines asked for are recorded.
fn drive(mut ev: Evaluator<'_>, ran: &mut Vec<Vec<String>>, vars: &mut Vec<(String, String)>) -> i32 {
    loop {
        match ev.step() {
            Action::Continue => {}
            Action::Run { pipeline, .. } => {
                ran.push(pipeline.commands.iter().flat_map(|c| c.words.clone()).collect());
                ev.resume(status_of(pipeline));
            }
            Action::SetVar { name, value } => vars.push((name.clone(), value.clone())),
            Action::Define { .. } => {}
            Action::Done(code) => return code,
        }
    }
}

fn run(prog: &Program, last: i32) -> i32 {
    drive(eval_program(prog, last), &mut Vec::new(), &mut Vec::new())
}

fn and_or(first: &str, op: AndOrOp, second: &[&str]) -> Program {
    program(vec![CompleteCommand {
        and_or: AndOrList {
            nodes: vec![
                AndOrNode { command: pipeable(false, vec![sc(&[first])]), operator: None },
                AndOrNode { command: pipeable(false, vec![sc(second)]), operator: Some(op) },
            ],
        },
        background: false,
    }])
}

#[test]
fn test_is_builtin_true() {
    assert!(is_builtin("echo"));
    assert!(is_builtin("cd"));
    assert!(is_builtin("pwd"));
    assert!(is_builtin("type"));
    assert!(is_builtin("exit"));
    assert!(is_builtin("history"));
    assert!(is_builtin("export"));
    assert!(is_builtin("unset"));
    assert!(is_builtin("alias"));
    assert!(is_builtin("unalias"));
    assert!(is_builtin("source"));
    assert!(is_builtin("help"));
    assert!(is_builtin("test"));
    assert!(is_builtin("["));
    assert!(is_builtin("env"));
    assert!(is_builtin("set"));
}

#[test]
fn test_is_builtin_false() {
    assert!(!is_builtin("cat"));
    assert!(!is_builtin("ls"));
    assert!(!is_builtin("grep"));
    assert!(!is_builtin("foobar"));
}

#[test]
fn test_glob_match_exact() {
    assert!(glob_match_simple("hello", "hello"));
}

#[test]
fn test_glob_match_wildcard() {
    assert!(glob_match_simple("h*", "hello"));
    assert!(glob_match_simple("*o", "hello"));
    assert!(glob_match_simple("*", "anything"));
}

#[test]
fn test_glob_match_question() {
    assert!(glob_match_simple("h?llo", "hello"));
    assert!(glob_match_simple("h???o", "hello"));
}

#[test]
fn test_glob_match_no_match() {
    assert!(!glob_match_simple("hello", "world"));
    assert!(!glob_match_simple("h*", "world"));
}

#[test]
fn test_eval_true() {
    let prog = program(vec![complete(pipeable(false, vec![sc(&["true"])]))]);
    assert_eq!(run(&prog, 0), 0);
}

#[test]
fn test_eval_false() {
    let prog = program(vec![complete(pipeable(false, vec![sc(&["false"])]))]);
    assert_eq!(run(&prog, 0), 1);
}

#[test]
fn test_eval_echo() {
    let prog = program(vec![complete(pipeable(false, vec![sc(&["echo", "hello"])]))]);
    assert_eq!(run(&prog, 0), 0);
}

#[test]
fn test_eval_unknown_command() {
    let prog = program(vec![complete(pipeable(false, vec![sc(&["nonexistent_cmd_xyz"])]))]);
    assert_eq!(run(&prog, 0), 127);
}

#[test]
fn test_and_short_circuit() {
    let prog = and_or("false", AndOrOp::And, &["echo", "nope"]);
    let mut ran = Vec::new();
    assert_eq!(drive(eval_program(&prog, 0), &mut ran, &mut Vec::new()), 1);
    assert_eq!(ran, vec![vec!["false".to_string()]]);
}

#[test]
fn test_or_short_circuit() {
    let prog = and_or("true", AndOrOp::Or, &["echo", "nope"]);
    let mut ran = Vec::new();
    assert_eq!(drive(eval_program(&prog, 0), &mut ran, &mut Vec::new()), 0);
    assert_eq!(ran.len(), 1);
}

#[test]
fn test_and_runs_when_true() {
    let prog = and_or("true", AndOrOp::And, &["echo", "ok"]);
    let mut ran = Vec::new();
    assert_eq!(drive(eval_program(&prog, 0), &mut ran, &mut Vec::new()), 0);
    assert_eq!(ran.len(), 2);
}

#[test]
fn test_or_runs_when_false() {
    let prog = and_or("false", AndOrOp::Or, &["echo", "ok"]);
    let mut ran = Vec::new();
    assert_eq!(drive(eval_program(&prog, 0), &mut ran, &mut Vec::new()), 0);
    assert_eq!(ran.len(), 2);
}

#[test]
fn test_pipeline_exit_code() {
    let prog = program(vec![complete(pipeable(false, vec![sc(&["false"])]))]);
    assert_eq!(run(&prog, 0), 1);
}

#[test]
fn test_pipeline_exit_code_last() {
    let prog = program(vec![complete(pipeable(false, vec![sc(&["true"]), sc(&["false"])]))]);
    assert_eq!(run(&prog, 0), 1);
}

#[test]
fn test_pipeline_negated() {
    let prog = program(vec![complete(pipeable(true, vec![sc(&["false"])]))]);
    assert_eq!(run(&prog, 0), 0);
}

#[test]
fn test_semicolon_separator() {
    let prog = program(vec![
        complete(pipeable(false, vec![sc(&["true"])])),
        complete(pipeable(false, vec![sc(&["echo", "ok"])])),
    ]);
    assert_eq!(run(&prog, 0), 0);
}

#[test]
fn eval_test_background() {
    let prog = Program {
        commands: vec![CompleteCommand {
            and_or: AndOrList {
                nodes: vec![AndOrNode { command: pipeable(false, vec![sc(&["true"])]), operator: None }],
            },
            background: true,
        }],
    };
    let code = run(&prog, 0);
    assert!(code >= 0);
}

#[test]
fn test_eval_if_true() {
    let cond = program(vec![complete(pipeable(false, vec![sc(&["true"])]))]);
    let body = program(vec![complete(pipeable(false, vec![sc(&["echo", "yes"])]))]);
    let prog = program(vec![complete(compound(ScriptCommand::If(IfCommand {
        clauses: vec![IfClause { condition: cond, body }],
        else_body: None,
    })))]);
    assert_eq!(run(&prog, 0), 0);
}

#[test]
fn test_eval_if_false() {
    let cond = program(vec![complete(pipeable(false, vec![sc(&["false"])]))]);
    let body = program(vec![complete(pipeable(false, vec![sc(&["echo", "yes"])]))]);
    let else_body = program(vec![complete(pipeable(false, vec![sc(&["echo", "no"])]))]);
    let prog = program(vec![complete(compound(ScriptCommand::If(IfCommand {
        clauses: vec![IfClause { condition: cond, body }],
        else_body: Some(else_body),
    })))]);
    let mut ran = Vec::new();
    assert_eq!(drive(eval_program(&prog, 0), &mut ran, &mut Vec::new()), 0);
    assert_eq!(ran[1], vec!["echo".to_string(), "no".to_string()]);
}

#[test]
fn test_eval_for() {
    let body = program(vec![complete(pipeable(false, vec![sc(&["echo", "$i"])]))]);
    let prog = program(vec![complete(compound(ScriptCommand::For(ForCommand {
        var: "i".into(),
        words: vec!["a".into(), "b".into()],
        body,
    })))]);
    let mut vars = Vec::new();
    assert_eq!(drive(eval_program(&prog, 0), &mut Vec::new(), &mut vars), 0);
    assert_eq!(vars, vec![("i".to_string(), "a".to_string()), ("i".to_string(), "b".to_string())]);
}

#[test]
fn test_eval_case_match() {
    let item_body = program(vec![complete(pipeable(false, vec![sc(&["echo", "matched"])]))]);
    let prog = program(vec![complete(compound(ScriptCommand::Case(CaseCommand {
        word: "x".into(),
        items: vec![CaseItem { patterns: vec!["x".into()], body: item_body }],
    })))]);
    let mut ran = Vec::new();
    assert_eq!(drive(eval_program(&prog, 0), &mut ran, &mut Vec::new()), 0);
    assert_eq!(ran.len(), 1);
}

#[test]
fn test_eval_case_no_match() {
    let item_body = program(vec![complete(pipeable(false, vec![sc(&["echo", "matched"])]))]);
    let prog = program(vec![complete(compound(ScriptCommand::Case(CaseCommand {
        word: "z".into(),
        items: vec![
            CaseItem { patterns: vec!["x".into()], body: item_body },
            CaseItem { patterns: vec!["y".into()], body: program(vec![]) },
        ],
    })))]);
    let mut ran = Vec::new();
    assert_eq!(drive(eval_program(&prog, 0), &mut ran, &mut Vec::new()), 0);
    assert!(ran.is_empty());
}

#[test]
fn while_stops_when_condition_fails() {
    let prog = program(vec![complete(compound(ScriptCommand::While(WhileCommand {
        condition: program(vec![complete(pipeable(false, vec![sc(&["false"])]))]),
        body: program(vec![complete(pipeable(false, vec![sc(&["echo", "never"])]))]),
    })))]);
    let mut ran = Vec::new();
    assert_eq!(drive(eval_program(&prog, 5), &mut ran, &mut Vec::new()), 0);
    assert_eq!(ran, vec![vec!["false".to_string()]]);
}

#[test]
fn status_of_previous_command_is_passed_on() {
    let prog = program(vec![complete(pipeable(false, vec![sc(&["echo", "x"])]))]);
    let mut ev = eval_program(&prog, 42);
    loop {
        match ev.step() {
            Action::Run { last_exit_code, .. } => {
                assert_eq!(last_exit_code, 42);
                ev.resume(3);
            }
            Action::Done(code) => {
                assert_eq!(code, 3);
                break;
            }
            _ => {}
        }
    }
}

#[test]
fn complete_command_evaluates_its_list() {
    let cmd = CompleteCommand {
        and_or: AndOrList {
            nodes: vec![
                AndOrNode { command: pipeable(false, vec![sc(&["false"])]), operator: None },
                AndOrNode { command: pipeable(false, vec![sc(&["true"])]), operator: Some(AndOrOp::Or) },
            ],
        },
        background: true,
    };
    assert_eq!(drive(eval_complete_command(&cmd, 0), &mut Vec::new(), &mut Vec::new()), 0);
}

#[test]
fn empty_program_keeps_last_status() {
    assert_eq!(run(&program(vec![]), 7), 7);
}

#[test]
fn pipeline_ending_in_a_missing_program() {
    let prog = program(vec![complete(pipeable(false, vec![sc(&["true"]), sc(&["nosuch_cmd_xyz"])]))]);
    assert_eq!(run(&prog, 0), 127);
    let prog = program(vec![complete(pipeable(false, vec![sc(&["nosuch_cmd_xyz"]), sc(&["true"])]))]);
    assert_eq!(run(&prog, 0), 127);
}
