use gshell::ast::{AndOrList, AndOrNode, CommandNode, CompleteCommand, Pipeline, SimpleCommand};
use gshell::pathcache::{get_cached_commands, PathCache};
use gshell::shell::{
    background_target, check_simple_history, expand_history, heredoc_delimiter, heredoc_rewrite,
    history_entry, input_is_complete, is_heredoc_end,
};
use gshell::tokenize::tokenize;

fn strings(v: &[&str]) -> Vec<String> {
    v.iter().map(|s| s.to_string()).collect()
}

#[test]
fn history_references_expand() {
    let h = strings(&["ls -l /tmp", "echo hi", "make all"]);
    assert_eq!(expand_history("!!", &h), "make all");
    assert_eq!(expand_history("echo !$", &h), "echo all");
    assert_eq!(expand_history("!1 && !2", &h), "ls -l /tmp && echo hi");
    assert_eq!(expand_history("!9x", &h), "x");
    assert_eq!(expand_history("!0", &h), "");
    assert_eq!(expand_history("a!?b", &h), "ab");
    assert_eq!(expand_history("wow!", &h), "wow!");
    assert_eq!(expand_history("!x", &h), "!x");
    assert_eq!(expand_history("!!", &vec![]), "");
    assert_eq!(expand_history("no bangs here", &h), "no bangs here");
}

#[test]
fn multi_line_constructs() {
    assert!(input_is_complete(&tokenize("echo hi")));
    assert!(!input_is_complete(&tokenize("if true; then")));
    assert!(input_is_complete(&tokenize("if true; then echo; fi")));
    assert!(!input_is_complete(&tokenize("for i in a; do while x; do y; done")));
    assert!(input_is_complete(&tokenize("done done")));
    assert!(input_is_complete(&tokenize("echo 'if'x")));
}

#[test]
fn history_command_lines() {
    assert_eq!(check_simple_history(&tokenize("history -c")), Some(true));
    assert_eq!(check_simple_history(&tokenize("history")), Some(true));
    assert_eq!(check_simple_history(&tokenize("history | grep x")), None);
    assert_eq!(check_simple_history(&tokenize("echo history")), None);
    assert_eq!(history_entry("for i in a\ndo echo\ndone"), "for i in a; do echo; done");
}

#[test]
fn here_documents() {
    assert_eq!(heredoc_delimiter("cat <<EOF"), Some("EOF".to_string()));
    assert_eq!(heredoc_delimiter("cat << END | wc"), Some("END".to_string()));
    assert_eq!(heredoc_delimiter("cat <<"), None);
    assert_eq!(heredoc_delimiter("cat < f"), None);
    assert!(is_heredoc_end("  EOF \n", "EOF"));
    assert!(!is_heredoc_end("EOFX", "EOF"));
    assert_eq!(heredoc_rewrite("cat  <<EOF | wc", "EOF", "/tmp/h"), "cat< /tmp/h | wc");
    assert_eq!(heredoc_rewrite("cat <<", "EOF", "/tmp/h"), "cat <<");
}

fn simple(words: &[&str]) -> SimpleCommand {
    SimpleCommand { env_overrides: vec![], words: strings(words), redirects: vec![] }
}

#[test]
fn background_commands() {
    let cmd = CompleteCommand {
        and_or: AndOrList {
            nodes: vec![AndOrNode {
                command: CommandNode::Pipeable(Pipeline { negated: false, commands: vec![simple(&["sleep", "1"])] }),
                operator: None,
            }],
        },
        background: true,
    };
    assert_eq!(background_target(&cmd), Some(("sleep".to_string(), strings(&["1"]))));
    let piped = CompleteCommand {
        and_or: AndOrList {
            nodes: vec![AndOrNode {
                command: CommandNode::Pipeable(Pipeline {
                    negated: false,
                    commands: vec![simple(&["a"]), simple(&["b"])],
                }),
                operator: None,
            }],
        },
        background: true,
    };
    assert_eq!(background_target(&piped), None);
}

#[test]
fn path_cache_keeps_names_sorted_once() {
    let cache = PathCache::from_names(&strings(&["ls", "cat", "ls", "awk", "cat"]));
    assert_eq!(get_cached_commands(&cache), strings(&["awk", "cat", "ls"]));
    assert!(cache.contains("cat"));
    assert!(!cache.contains("dog"));
}
