use gshell::glob::{glob_paths, glob_target};
use gshell::expand::{command_substitutions, expand_tilde, expand_tokens};
use gshell::glob::{contains_glob_chars, expand_globs, glob_match, select_matches};

fn strings(v: &[&str]) -> Vec<String> {
    v.iter().map(|s| s.to_string()).collect()
}

fn env() -> Vec<(String, String)> {
    vec![("HOME".to_string(), "/home/u".to_string()), ("X".to_string(), "42".to_string())]
}

#[test]
fn variables_status_and_tilde() {
    let out = expand_tokens(&strings(&["$X", "${X}y", "$?", "~/d", "~", "a$", "$NOPE."]), 3, &env(), &vec![]);
    assert_eq!(out, strings(&["42", "42y", "3", "/home/u/d", "/home/u", "a$", "."]));
}

#[test]
fn command_substitution_outputs_in_order() {
    let words = strings(&["a$(ls -l)b", "`date`"]);
    assert_eq!(command_substitutions(&words, &env()), strings(&["ls -l", "date"]));
    let outs = strings(&["X\n", "today\n"]);
    assert_eq!(expand_tokens(&words, 0, &env(), &outs), strings(&["aXb", "today"]));
}

#[test]
fn nested_parentheses_in_substitution() {
    let words = strings(&["$(echo (a) b)c"]);
    assert_eq!(command_substitutions(&words, &vec![]), strings(&["echo (a) b"]));
}

#[test]
fn plain_words_stay() {
    let words = strings(&["hello", "a-b", "x=y"]);
    assert_eq!(expand_tokens(&words, 9, &env(), &vec![]), words);
}

#[test]
fn tilde_only_at_start() {
    assert_eq!(expand_tilde("~/x", Some("/h")), "/h/x");
    assert_eq!(expand_tilde("a~", Some("/h")), "a~");
    assert_eq!(expand_tilde("~user", Some("/h")), "~user");
    assert_eq!(expand_tilde("~", None), "~");
}

#[test]
fn glob_chars_and_matching() {
    assert!(contains_glob_chars("*.rs"));
    assert!(contains_glob_chars("a[bc]"));
    assert!(!contains_glob_chars("plain"));
    assert!(glob_match("[a-c]x", "bx"));
    assert!(glob_match("[!a-c]x", "bx"));
    assert!(!glob_match("[a-c]x", "dx"));
    assert!(glob_match("*.rs", "main.rs"));
}

#[test]
fn glob_expansion_uses_matches_or_keeps_word() {
    let names = strings(&["a.rs", "b.txt", "c.rs"]);
    assert_eq!(select_matches("*.rs", &names), strings(&["a.rs", "c.rs"]));
    let words = strings(&["ls", "*.rs", "*.md"]);
    let found = vec![vec![], strings(&["a.rs", "c.rs"]), vec![]];
    assert_eq!(expand_globs(&words, &found), strings(&["ls", "a.rs", "c.rs", "*.md"]));
}

#[test]
fn glob_reads_the_working_directory_without_a_slash() {
    assert_eq!(glob_target("*.rs"), (".".to_string(), "*.rs".to_string()));
    assert_eq!(glob_target("src/*.rs"), ("src".to_string(), "*.rs".to_string()));
    assert_eq!(glob_target("/e*"), ("/".to_string(), "e*".to_string()));
    let entries = vec![("main.rs".to_string(), false), ("lib.rs".to_string(), false), ("notes".to_string(), true)];
    assert_eq!(glob_paths("*.rs", &entries), vec!["main.rs", "lib.rs"]);
    assert_eq!(glob_paths("src/*", &entries), vec!["src/main.rs", "src/lib.rs", "src/notes/"]);
    assert_eq!(glob_paths("/n?tes", &entries), vec!["/notes/"]);
    assert!(glob_paths("*.txt", &entries).is_empty());
}
