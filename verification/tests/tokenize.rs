use gshell::ast::{Token, TokenKind};
use gshell::tokenize::{tokenize, tokenize_strings};

fn w(s: &str) -> Token {
    Token::new(TokenKind::Word, s)
}

#[test]
fn test_empty() {
    assert_eq!(tokenize(""), vec![]);
    assert_eq!(tokenize("   "), vec![]);
}

#[test]
fn test_single_word() {
    assert_eq!(tokenize("hello"), vec![w("hello")]);
}

#[test]
fn test_multiple_words() {
    assert_eq!(tokenize("echo hello world"), vec![w("echo"), w("hello"), w("world")]);
}

#[test]
fn test_leading_trailing_spaces() {
    assert_eq!(tokenize("  ls  -la "), vec![w("ls"), w("-la")]);
}

#[test]
fn test_single_quotes() {
    assert_eq!(tokenize("echo 'hello world'"), vec![w("echo"), w("hello world")]);
}

#[test]
fn test_double_quotes() {
    assert_eq!(tokenize("echo \"hello world\""), vec![w("echo"), w("hello world")]);
}

#[test]
fn test_single_quote_inside_double() {
    assert_eq!(tokenize("echo \"it's ok\""), vec![w("echo"), w("it's ok")]);
}

#[test]
fn test_mixed_quotes() {
    assert_eq!(tokenize("a='hello' b=\"world\""), vec![w("a=hello"), w("b=world")]);
}

#[test]
fn test_backslash_escape() {
    assert_eq!(tokenize("echo\\ "), vec![w("echo ")]);
}

#[test]
fn test_backslash_double_quote() {
    assert_eq!(tokenize("\"a\\\"b\""), vec![w("a\"b")]);
}

#[test]
fn test_pipe() {
    assert_eq!(tokenize("a|b"), vec![w("a"), Token::new(TokenKind::Pipe, "|"), w("b")]);
}

#[test]
fn test_or_if() {
    let toks = tokenize("a||b");
    assert_eq!(toks, vec![w("a"), Token::new(TokenKind::OrIf, "||"), w("b")]);
}

#[test]
fn test_and_if() {
    assert_eq!(tokenize("a&&b"), vec![w("a"), Token::new(TokenKind::AndIf, "&&"), w("b")]);
}

#[test]
fn test_semicolon() {
    assert_eq!(tokenize("a;b"), vec![w("a"), Token::new(TokenKind::Semicolon, ";"), w("b")]);
}

#[test]
fn test_dsemicolon() {
    assert_eq!(tokenize("a;;b"), vec![w("a"), Token::new(TokenKind::DSemicolon, ";;"), w("b")]);
}

#[test]
fn tokenize_test_background() {
    assert_eq!(tokenize("a&"), vec![w("a"), Token::new(TokenKind::Background, "&")]);
}

#[test]
fn test_bang() {
    assert_eq!(tokenize("! true"), vec![Token::new(TokenKind::Bang, "!"), w("true")]);
}

#[test]
fn test_lparen_rparen() {
    assert_eq!(
        tokenize("(echo hi)"),
        vec![Token::new(TokenKind::LParen, "("), w("echo"), w("hi"), Token::new(TokenKind::RParen, ")")]
    );
}

#[test]
fn test_redirect_output() {
    assert_eq!(tokenize("echo>f"), vec![w("echo"), Token::new(TokenKind::Great, ">"), w("f")]);
}

#[test]
fn test_redirect_append() {
    assert_eq!(tokenize("echo>>f"), vec![w("echo"), Token::new(TokenKind::DGreat, ">>"), w("f")]);
}

#[test]
fn test_redirect_input() {
    assert_eq!(tokenize("cat<f"), vec![w("cat"), Token::new(TokenKind::Less, "<"), w("f")]);
}

#[test]
fn test_heredoc() {
    assert_eq!(tokenize("cat<<EOF"), vec![w("cat"), Token::new(TokenKind::DLass, "<<"), w("EOF")]);
}

#[test]
fn test_fd_redirect_output() {
    assert_eq!(
        tokenize("echo 2>/dev/null"),
        vec![w("echo"), Token::new(TokenKind::Great, "2>"), w("/dev/null")]
    );
}

#[test]
fn test_fd_redirect_append() {
    assert_eq!(tokenize("echo 1>>log"), vec![w("echo"), Token::new(TokenKind::DGreat, "1>>"), w("log")]);
}

#[test]
fn test_fd_redirect_input() {
    assert_eq!(tokenize("cat 0<file"), vec![w("cat"), Token::new(TokenKind::Less, "0<"), w("file")]);
}

#[test]
fn test_redirect_stderr() {
    assert_eq!(tokenize("echo 2>&1"), vec![w("echo"), Token::new(TokenKind::Great, "2>&"), w("1")]);
}

#[test]
fn test_redirect_stdin_dupe() {
    assert_eq!(tokenize("cat 0<&1"), vec![w("cat"), Token::new(TokenKind::Less, "0<&"), w("1")]);
}

#[test]
fn test_comment() {
    assert_eq!(tokenize("echo hi # this is a comment"), vec![w("echo"), w("hi")]);
}

#[test]
fn test_comment_only() {
    assert_eq!(tokenize("# comment"), vec![]);
}

#[test]
fn test_pipe_in_quotes() {
    assert_eq!(tokenize("\"a|b\""), vec![w("a|b")]);
    assert_eq!(tokenize("'a|b'"), vec![w("a|b")]);
}

#[test]
fn test_redirect_in_quotes() {
    assert_eq!(tokenize("\"a>b\""), vec![w("a>b")]);
    assert_eq!(tokenize("'>'"), vec![w(">")]);
}

#[test]
fn test_semicolon_in_quotes() {
    assert_eq!(tokenize("\"a;b\""), vec![w("a;b")]);
    assert_eq!(tokenize("';'"), vec![w(";")]);
}

#[test]
fn test_env_override() {
    assert_eq!(tokenize("FOO=bar echo"), vec![w("FOO=bar"), w("echo")]);
}

#[test]
fn test_pure_assignment() {
    assert_eq!(tokenize("FOO=bar"), vec![w("FOO=bar")]);
}

#[test]
fn test_if_statement() {
    assert_eq!(
        tokenize("if true; then echo ok; fi"),
        vec![
            w("if"),
            w("true"),
            Token::new(TokenKind::Semicolon, ";"),
            w("then"),
            w("echo"),
            w("ok"),
            Token::new(TokenKind::Semicolon, ";"),
            w("fi"),
        ]
    );
}

#[test]
fn test_case_statement() {
    assert_eq!(
        tokenize("case x in x) echo m;; esac"),
        vec![
            w("case"),
            w("x"),
            w("in"),
            w("x"),
            Token::new(TokenKind::RParen, ")"),
            w("echo"),
            w("m"),
            Token::new(TokenKind::DSemicolon, ";;"),
            w("esac"),
        ]
    );
}

#[test]
fn test_for_loop() {
    assert_eq!(
        tokenize("for i in a b; do echo $i; done"),
        vec![
            w("for"),
            w("i"),
            w("in"),
            w("a"),
            w("b"),
            Token::new(TokenKind::Semicolon, ";"),
            w("do"),
            w("echo"),
            w("$i"),
            Token::new(TokenKind::Semicolon, ";"),
            w("done"),
        ]
    );
}

#[test]
fn test_pipeline_and_or() {
    let toks = tokenize("a | b || c && d");
    assert_eq!(
        toks,
        vec![
            w("a"),
            Token::new(TokenKind::Pipe, "|"),
            w("b"),
            Token::new(TokenKind::OrIf, "||"),
            w("c"),
            Token::new(TokenKind::AndIf, "&&"),
            w("d"),
        ]
    );
}

#[test]
fn test_background_command() {
    assert_eq!(tokenize("sleep 1 &"), vec![w("sleep"), w("1"), Token::new(TokenKind::Background, "&")]);
}

#[test]
fn test_subshell() {
    assert_eq!(
        tokenize("(cd /tmp && pwd)"),
        vec![
            Token::new(TokenKind::LParen, "("),
            w("cd"),
            w("/tmp"),
            Token::new(TokenKind::AndIf, "&&"),
            w("pwd"),
            Token::new(TokenKind::RParen, ")"),
        ]
    );
}

#[test]
fn tokenize_strings_gives_texts() {
    assert_eq!(tokenize_strings("echo 'a b' | wc"), vec!["echo", "a b", "|", "wc"]);
}

#[test]
fn every_token_has_text() {
    for t in tokenize("a  ;  b && 'c' \"\" ( ) > f") {
        assert!(!t.value.is_empty());
    }
}

#[test]
fn tokens_join_to_the_input_without_whitespace() {
    let input = "cat  a.txt|grep -v x 2>err && echo ok ; ls >> log";
    let toks = tokenize(input);
    let joined: String = toks.iter().map(|t| t.value.as_str()).collect();
    let expected: String = input.chars().filter(|c| !c.is_whitespace()).collect();
    assert_eq!(joined, expected);
    assert!(toks.iter().all(|t| !t.value.chars().any(|c| c.is_whitespace())));
    for t in &toks {
        if t.kind == TokenKind::Word {
            assert!(!t.value.chars().any(|c| "|&;<>()!".contains(c)), "{}", t.value);
        } else {
            assert!(["|", "&&", ";", "2>", ">>"].contains(&t.value.as_str()), "{}", t.value);
        }
    }
}
