use gshell::ast::{AndOrOp, CommandNode, RedirectKind, ScriptCommand};
use gshell::parser::{parse, parse_compound_list, try_parse, Parser};
use gshell::tokenize::tokenize;

fn simple_words(node: &CommandNode) -> Vec<Vec<String>> {
    match node {
        CommandNode::Pipeable(p) => p.commands.iter().map(|c| c.words.clone()).collect(),
        CommandNode::Compound(_) => panic!("expected a pipeline"),
    }
}

#[test]
fn words_make_one_simple_command() {
    let prog = parse(&tokenize("echo hello world"));
    assert_eq!(prog.commands.len(), 1);
    let node = &prog.commands[0].and_or.nodes[0];
    assert_eq!(simple_words(&node.command), vec![vec!["echo", "hello", "world"]]);
    assert!(node.operator.is_none());
}

#[test]
fn and_or_and_pipes() {
    let prog = parse(&tokenize("a | b && c || d"));
    let nodes = &prog.commands[0].and_or.nodes;
    assert_eq!(nodes.len(), 3);
    assert_eq!(simple_words(&nodes[0].command), vec![vec!["a"], vec!["b"]]);
    assert_eq!(nodes[1].operator, Some(AndOrOp::And));
    assert_eq!(nodes[2].operator, Some(AndOrOp::Or));
}

#[test]
fn semicolons_and_background() {
    let prog = parse(&tokenize("sleep 1 & echo x; ls"));
    assert_eq!(prog.commands.len(), 3);
    assert!(prog.commands[0].background);
    assert!(!prog.commands[1].background);
}

#[test]
fn assignments_and_redirects() {
    let prog = parse(&tokenize("A=1 B=2 cmd arg >out 2>>err <in"));
    match &prog.commands[0].and_or.nodes[0].command {
        CommandNode::Pipeable(p) => {
            let c = &p.commands[0];
            assert_eq!(c.env_overrides, vec![("A".to_string(), "1".to_string()), ("B".to_string(), "2".to_string())]);
            assert_eq!(c.words, vec!["cmd", "arg"]);
            assert_eq!(c.redirects.len(), 3);
            assert_eq!(c.redirects[0].kind, RedirectKind::Output);
            assert_eq!(c.redirects[0].fd, 1);
            assert_eq!(c.redirects[0].target, "out");
            assert_eq!(c.redirects[1].kind, RedirectKind::Append);
            assert_eq!(c.redirects[1].fd, 2);
            assert_eq!(c.redirects[2].kind, RedirectKind::Input);
            assert_eq!(c.redirects[2].fd, 0);
        }
        _ => panic!("expected a pipeline"),
    }
}

#[test]
fn negated_pipeline() {
    let prog = parse(&tokenize("! false"));
    match &prog.commands[0].and_or.nodes[0].command {
        CommandNode::Pipeable(p) => assert!(p.negated),
        _ => panic!("expected a pipeline"),
    }
}

#[test]
fn if_elif_else() {
    let prog = parse(&tokenize("if a; then b; elif c; then d; else e; fi"));
    match &prog.commands[0].and_or.nodes[0].command {
        CommandNode::Compound(ScriptCommand::If(i)) => {
            assert_eq!(i.clauses.len(), 2);
            assert!(i.else_body.is_some());
        }
        _ => panic!("expected an if"),
    }
}

#[test]
fn for_while_case_function_subshell() {
    let prog = parse(&tokenize("for i in a b; do echo $i; done"));
    match &prog.commands[0].and_or.nodes[0].command {
        CommandNode::Compound(ScriptCommand::For(f)) => {
            assert_eq!(f.var, "i");
            assert_eq!(f.words, vec!["a", "b"]);
        }
        _ => panic!("expected a for"),
    }
    let prog = parse(&tokenize("while true; do x; done"));
    assert!(matches!(&prog.commands[0].and_or.nodes[0].command, CommandNode::Compound(ScriptCommand::While(_))));
    let prog = parse(&tokenize("case x in x) echo m;; y|z) echo n;; esac"));
    match &prog.commands[0].and_or.nodes[0].command {
        CommandNode::Compound(ScriptCommand::Case(c)) => {
            assert_eq!(c.word, "x");
            assert_eq!(c.items.len(), 2);
            assert_eq!(c.items[1].patterns, vec!["y", "z"]);
        }
        _ => panic!("expected a case"),
    }
    let prog = parse(&tokenize("(cd /tmp && pwd)"));
    assert!(matches!(&prog.commands[0].and_or.nodes[0].command, CommandNode::Compound(ScriptCommand::Subshell(_))));
}

#[test]
fn unbalanced_parentheses_are_refused() {
    assert!(try_parse(&tokenize("(echo hi")).is_none());
    assert!(try_parse(&tokenize("echo hi)")).is_none());
    assert!(try_parse(&tokenize("echo hi")).is_some());
}

#[test]
fn compound_list_stops_at_closing_keyword() {
    let toks = tokenize("a; b; fi");
    let prog = parse_compound_list(&toks);
    assert_eq!(prog.commands.len(), 2);
    let mut p = Parser::new(&toks);
    let prog2 = p.parse_compound_list();
    assert_eq!(prog2.commands.len(), 2);
}

#[test]
fn parser_reads_a_whole_program() {
    let toks = tokenize("a; b");
    let mut p = Parser::new(&toks);
    let prog = p.parse_program();
    assert_eq!(prog.commands.len(), 2);
}

#[test]
fn stderr_to_stdout_names_descriptor_two() {
    let prog = parse(&tokenize("echo hi 2>&1"));
    match &prog.commands[0].and_or.nodes[0].command {
        CommandNode::Pipeable(p) => {
            let c = &p.commands[0];
            assert_eq!(c.words, vec!["echo", "hi"]);
            assert_eq!(c.redirects.len(), 1);
            assert_eq!(c.redirects[0].kind, RedirectKind::Duplicate);
            assert_eq!(c.redirects[0].fd, 2);
            assert_eq!(c.redirects[0].target, "1");
        }
        _ => panic!("expected a pipeline"),
    }
    let prog = parse(&tokenize("cat 0<&3 >&2"));
    match &prog.commands[0].and_or.nodes[0].command {
        CommandNode::Pipeable(p) => {
            let c = &p.commands[0];
            assert_eq!(c.redirects[0].kind, RedirectKind::Duplicate);
            assert_eq!(c.redirects[0].fd, 0);
            assert_eq!(c.redirects[1].kind, RedirectKind::Duplicate);
            assert_eq!(c.redirects[1].fd, 1);
        }
        _ => panic!("expected a pipeline"),
    }
}
