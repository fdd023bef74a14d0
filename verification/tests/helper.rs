use gshell::ast::TokenKind;
use gshell::helper::{
    completion_request, is_at_command_position, longest_common_prefix, CompletionKind, CompletionStep,
    CyclingState, ShellHelper, TabHandler, TabOffer, TabStep, LISTMAX,
};
use gshell::tab::CompletionCandidate;
use gshell::tokenize::tokenize;

#[test]
fn test_is_command_empty_tokens() {
    assert!(is_at_command_position(&[], false));
}

#[test]
fn test_is_command_first_word() {
    let tokens = tokenize("ls");
    assert!(is_at_command_position(&tokens, false));
}

#[test]
fn test_is_command_after_word_with_space() {
    let tokens = tokenize("cd");
    assert!(!is_at_command_position(&tokens, true));
}

#[test]
fn test_is_command_after_pipe() {
    let tokens = tokenize("echo |");
    assert!(is_at_command_position(&tokens, true));
}

#[test]
fn test_is_command_after_pipe_word() {
    let tokens = tokenize("echo | c");
    assert!(is_at_command_position(&tokens, false));
}

#[test]
fn test_is_command_after_and_if() {
    let tokens = tokenize("echo &&");
    assert!(is_at_command_position(&tokens, true));
}

#[test]
fn test_is_command_after_and_if_word() {
    let tokens = tokenize("echo && ls");
    assert!(is_at_command_position(&tokens, false));
}

#[test]
fn test_is_command_after_or_if() {
    let tokens = tokenize("echo ||");
    assert!(is_at_command_position(&tokens, true));
}

#[test]
fn test_is_command_after_or_if_word() {
    let tokens = tokenize("echo || cat");
    assert!(is_at_command_position(&tokens, false));
}

#[test]
fn test_is_command_after_semicolon() {
    let tokens = tokenize("echo;");
    assert!(is_at_command_position(&tokens, true));
}

#[test]
fn test_is_command_after_semicolon_word() {
    let tokens = tokenize("echo; ls");
    assert!(is_at_command_position(&tokens, false));
}

#[test]
fn test_is_command_after_background() {
    let tokens = tokenize("echo &");
    assert!(is_at_command_position(&tokens, true));
}

#[test]
fn test_is_command_after_background_word() {
    let tokens = tokenize("echo & sleep");
    assert!(is_at_command_position(&tokens, false));
}

#[test]
fn test_is_command_after_bang() {
    let tokens = tokenize("!");
    assert!(is_at_command_position(&tokens, true));
}

#[test]
fn test_is_command_after_lparen() {
    let tokens = tokenize("(");
    assert!(is_at_command_position(&tokens, true));
}

#[test]
fn test_is_command_not_after_word() {
    let tokens = tokenize("echo hello");
    assert!(!is_at_command_position(&tokens, false));
}

#[test]
fn test_is_command_not_after_redirect() {
    let tokens = tokenize("echo >");
    assert!(!is_at_command_position(&tokens, false));
}

#[test]
fn test_is_command_chain() {
    let tokens = tokenize("a | b && c || d ; e");
    assert!(is_at_command_position(&tokens, false));
}

#[test]
fn test_lcp_empty() {
    assert_eq!(longest_common_prefix(&[]), "");
}

#[test]
fn test_lcp_single() {
    assert_eq!(longest_common_prefix(&["hello"]), "hello");
}

#[test]
fn test_lcp_common() {
    assert_eq!(longest_common_prefix(&["hello", "help", "heist"]), "he");
}

#[test]
fn test_lcp_all_same() {
    assert_eq!(longest_common_prefix(&["abc", "abc", "abc"]), "abc");
}

#[test]
fn test_lcp_no_common() {
    assert_eq!(longest_common_prefix(&["abc", "def", "ghi"]), "");
}

#[test]
fn test_lcp_one_prefix_of_other() {
    assert_eq!(longest_common_prefix(&["abc", "abcdef"]), "abc");
}

#[test]
fn test_lcp_paths() {
    assert_eq!(longest_common_prefix(&["src/commands/", "src/parser/", "src/main.rs"]), "src/");
}

#[test]
fn test_lcp_empty_strings() {
    assert_eq!(longest_common_prefix(&["", "", ""]), "");
}

#[test]
fn test_lcp_mixed_empty() {
    assert_eq!(longest_common_prefix(&["abc", "", "def"]), "");
}

#[test]
fn test_tokenize_cd_a() {
    let tokens = tokenize("cd a");
    assert_eq!(tokens.len(), 2);
    assert_eq!(tokens[0].kind, TokenKind::Word);
    assert_eq!(tokens[0].value, "cd");
    assert_eq!(tokens[1].kind, TokenKind::Word);
    assert_eq!(tokens[1].value, "a");
}

#[test]
fn test_tokenize_pipe_command() {
    let tokens = tokenize("echo | cat");
    assert_eq!(tokens.len(), 3);
    assert_eq!(tokens[1].kind, TokenKind::Pipe);
}

#[test]
fn test_tokenize_semicolon_command() {
    let tokens = tokenize("echo; ls");
    assert_eq!(tokens.len(), 3);
    assert_eq!(tokens[1].kind, TokenKind::Semicolon);
}

#[test]
fn test_tokenize_and_if_command() {
    let tokens = tokenize("echo && ls");
    assert_eq!(tokens.len(), 3);
    assert_eq!(tokens[1].kind, TokenKind::AndIf);
}

#[test]
fn test_tokenize_or_if_command() {
    let tokens = tokenize("echo || ls");
    assert_eq!(tokens.len(), 3);
    assert_eq!(tokens[1].kind, TokenKind::OrIf);
}

fn cand(r: &str) -> CompletionCandidate {
    CompletionCandidate { display: r.to_string(), replacement: r.to_string(), description: String::new() }
}

#[test]
fn request_for_command_word() {
    let r = completion_request("ls | gr");
    assert_eq!(r.word, "gr");
    assert_eq!(r.start, 5);
    assert_eq!(r.kind, CompletionKind::Command);
}

#[test]
fn request_for_path_after_space() {
    let r = completion_request("cat ");
    assert_eq!(r.word, "");
    assert_eq!(r.start, 4);
    assert_eq!(r.kind, CompletionKind::Path);
}

#[test]
fn request_for_variable_starts_at_last_occurrence() {
    let r = completion_request("echo $HO $HO");
    assert_eq!(r.word, "$HO");
    assert_eq!(r.start, 9);
    assert_eq!(r.kind, CompletionKind::Variable);
}

#[test]
fn tab_cycles_past_the_first_candidate() {
    let mut tab = TabHandler { cycling: None };
    let step = tab.handle("ec");
    let req = match step {
        TabStep::Lookup(req) => req,
        TabStep::Cycled => panic!("nothing to cycle yet"),
    };
    let offer = tab.offer(vec![cand("echo "), cand("ecx "), cand("ecy ")], req.start, "ec", 2);
    assert_eq!(offer, TabOffer::Done);
    assert_eq!(tab.cycling.as_ref().map(|c| c.selected), Some(0));
    assert!(matches!(tab.handle("ec"), TabStep::Cycled));
    assert_eq!(tab.cycling.as_ref().map(|c| c.selected), Some(1));
    assert!(matches!(tab.handle("ec"), TabStep::Cycled));
    assert_eq!(tab.cycling.as_ref().map(|c| c.selected), Some(2));
    assert!(matches!(tab.handle("ec"), TabStep::Cycled));
    assert_eq!(tab.cycling.as_ref().map(|c| c.selected), Some(1));
    assert!(matches!(tab.handle("ls ec"), TabStep::Lookup(_)));
    assert!(tab.cycling.is_none());
}

#[test]
fn tab_asks_before_too_many() {
    let mut tab = TabHandler { cycling: None };
    let many: Vec<CompletionCandidate> = (0..LISTMAX + 1).map(|i| cand(&format!("c{} ", i))).collect();
    assert_eq!(tab.offer(many, 0, "", 0), TabOffer::Ask(LISTMAX + 1));
    assert!(tab.cycling.is_none());
    assert_eq!(tab.offer(vec![cand("a ")], 0, "a", 1), TabOffer::Done);
    assert!(tab.cycling.is_none());
}

#[test]
fn completer_offers_the_selected_candidate() {
    let state = CyclingState {
        candidates: vec![cand("echo "), cand("ecx ")],
        selected: 1,
        start_pos: 0,
        original_line: "ec".to_string(),
        original_pos: 2,
    };
    let mut h = ShellHelper::new(Some(state));
    match h.complete("ec") {
        CompletionStep::Offer { start, candidate } => {
            assert_eq!(start, 0);
            assert_eq!(candidate.replacement, "ecx ");
        }
        CompletionStep::Lookup(_) => panic!("expected the selected candidate"),
    }
    assert!(h.cycling.is_some());
    assert!(matches!(h.complete("cat ec"), CompletionStep::Lookup(_)));
    assert!(h.cycling.is_none());
}
