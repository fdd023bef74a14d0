//! Recursive-descent parser from tokens to the syntax tree.
//!
//! The grammar: a program is a list of complete commands separated by
//! `;`; a complete command is an and-or list optionally followed by `&`;
//! an and-or list is commands joined by `&&` / `||`; a command is a
//! subshell `( ... )`, an `if`, `for`, `while`, `case` or `function`
//! construct, or a pipeline of simple commands joined by `|`, optionally
//! negated with `!`; a simple command is leading `NAME=value` assignments
//! followed by words and redirections.
use vstd::prelude::*;
use crate::ast::{
    Token, TokenKind, TokenS, tokens_view, Program, CompleteCommand, AndOrList, AndOrNode,
    AndOrOp, CommandNode, Pipeline, SimpleCommand, RedirectKind, Redirect, ScriptCommand,
    IfCommand, IfClause, ForCommand, WhileCommand, CaseCommand, CaseItem, FunctionDef, RedirectS,
    SimpleS, PipelineS, AndOrNodeS, CompleteS, ProgramS, CommandS, IfClauseS, CaseItemS, ScriptS,
    strings_s, pairs_s, simple_s, completes_s, nodes_s, clauses_s, items_s, redirect_s,
};
use crate::text::{parse_signed, str_eq, chars_of, string_of_range, parse_i32};

verus! {

// ── Token tests ──

pub open spec fn at_kind(ts: Seq<TokenS>, p: int, k: TokenKind) -> bool {
    0 <= p < ts.len() && ts[p].0 == k
}

pub open spec fn at_word(ts: Seq<TokenS>, p: int, w: Seq<char>) -> bool {
    at_kind(ts, p, TokenKind::Word) && ts[p].1 == w
}

/// The position after any run of `;` starting at `p`.
pub open spec fn skip_semis(ts: Seq<TokenS>, p: int) -> int
    decreases ts.len() - p,
{
    if at_kind(ts, p, TokenKind::Semicolon) {
        skip_semis(ts, p + 1)
    } else {
        p
    }
}

/// A token that ends a block body: one of the closing keywords, or `;;`
/// (the end of a `case` item).
pub open spec fn closes_block(ts: Seq<TokenS>, p: int) -> bool {
    ||| at_kind(ts, p, TokenKind::DSemicolon)
    ||| at_word(ts, p, "then"@)
    ||| at_word(ts, p, "else"@)
    ||| at_word(ts, p, "elif"@)
    ||| at_word(ts, p, "fi"@)
    ||| at_word(ts, p, "do"@)
    ||| at_word(ts, p, "done"@)
    ||| at_word(ts, p, "esac"@)
    ||| at_word(ts, p, "}"@)
}

/// The first position at or after `i` where `c` occurs in `w`.
pub open spec fn find_from(w: Seq<char>, c: char, i: int) -> Option<int>
    decreases w.len() - i,
{
    if i < 0 || i >= w.len() {
        None
    } else if w[i] == c {
        Some(i)
    } else {
        find_from(w, c, i + 1)
    }
}

pub open spec fn is_name_char(c: char) -> bool {
    ('a' <= c && c <= 'z') || ('A' <= c && c <= 'Z') || ('0' <= c && c <= '9') || c == '_'
}

/// `NAME=value` where `NAME` is a non-empty run of ASCII letters, digits
/// and `_` before the first `=`: the name and the value.
pub open spec fn assignment(w: Seq<char>) -> Option<(Seq<char>, Seq<char>)> {
    match find_from(w, '=', 0) {
        Some(e) => if e > 0 && (forall|k: int| 0 <= k < e ==> is_name_char(#[trigger] w[k])) {
            Some((w.take(e), w.skip(e + 1)))
        } else {
            None
        },
        None => None,
    }
}

pub open spec fn is_redirect_kind(k: TokenKind) -> bool {
    k == TokenKind::Great || k == TokenKind::DGreat || k == TokenKind::Less || k
        == TokenKind::DLass
}

/// The kind of a redirection written as operator `v` of kind `k`: an
/// operator ending in `&` duplicates a descriptor.
pub open spec fn redirect_kind_of(k: TokenKind, v: Seq<char>) -> RedirectKind {
    if v.len() > 0 && v.last() == '&' {
        RedirectKind::Duplicate
    } else if k == TokenKind::Great {
        RedirectKind::Output
    } else if k == TokenKind::DGreat {
        RedirectKind::Append
    } else if k == TokenKind::Less {
        RedirectKind::Input
    } else {
        RedirectKind::Heredoc
    }
}

/// The descriptor a redirection operator names: the number written before
/// `>`, `>>`, `>&`, `<`, `<<` or `<&` when there is one and it fits in an
/// `i32`; otherwise 0 for input redirections and 1 for output ones.
pub open spec fn fd_from_value(v: Seq<char>, k: TokenKind) -> int {
    let dflt: int = if k == TokenKind::Less || k == TokenKind::DLass {
        0
    } else {
        1
    };
    let n = v.len();
    let num: Option<Seq<char>> = if n >= 2 && ((v[n - 2] == '>' && v[n - 1] == '>') || (v[n - 2]
        == '<' && v[n - 1] == '<') || ((v[n - 2] == '>' || v[n - 2] == '<') && v[n - 1] == '&')) {
        Some(v.take(n - 2))
    } else if n >= 1 && (v[n - 1] == '>' || v[n - 1] == '<') {
        Some(v.take(n - 1))
    } else {
        None
    };
    match num {
        None => dflt,
        Some(np) => if np.len() == 0 {
            dflt
        } else {
            match parse_signed(np) {
                Some(x) => if i32::MIN <= x <= i32::MAX {
                    x
                } else {
                    dflt
                },
                None => dflt,
            }
        },
    }
}

// ── Simple commands and pipelines ──

/// Leading assignments from `p` on, appended to `acc`.
pub open spec fn env_loop(ts: Seq<TokenS>, p: int, acc: Seq<(Seq<char>, Seq<char>)>) -> (
    Seq<(Seq<char>, Seq<char>)>,
    int,
)
    decreases ts.len() - p,
{
    if at_kind(ts, p, TokenKind::Word) && assignment(ts[p].1) is Some {
        env_loop(ts, p + 1, acc.push(assignment(ts[p].1)->0))
    } else {
        (acc, p)
    }
}

/// The redirection whose operator is at `p`: its operator, then its target
/// word (empty when the next token is not a word).
pub open spec fn redirect_at(ts: Seq<TokenS>, p: int) -> (RedirectS, int) {
    let target = if at_kind(ts, p + 1, TokenKind::Word) {
        ts[p + 1].1
    } else {
        seq![]
    };
    let next = if at_kind(ts, p + 1, TokenKind::Word) {
        p + 2
    } else {
        p + 1
    };
    (
        RedirectS {
            fd: fd_from_value(ts[p].1, ts[p].0),
            kind: redirect_kind_of(ts[p].0, ts[p].1),
            target,
        },
        next,
    )
}

/// Words and redirections from `p` on, appended to `ws` and `rs`.
pub open spec fn body_loop(ts: Seq<TokenS>, p: int, ws: Seq<Seq<char>>, rs: Seq<RedirectS>) -> (
    Seq<Seq<char>>,
    Seq<RedirectS>,
    int,
)
    decreases ts.len() - p,
{
    if p < 0 || p >= ts.len() {
        (ws, rs, p)
    } else if ts[p].0 == TokenKind::Word {
        body_loop(ts, p + 1, ws.push(ts[p].1), rs)
    } else if is_redirect_kind(ts[p].0) {
        let (rd, next) = redirect_at(ts, p);
        body_loop(ts, next, ws, rs.push(rd))
    } else {
        (ws, rs, p)
    }
}

pub open spec fn simple_at(ts: Seq<TokenS>, p: int) -> (SimpleS, int) {
    let (env, p1) = env_loop(ts, p, seq![]);
    let (ws, rs, p2) = body_loop(ts, p1, seq![], seq![]);
    (SimpleS { env_overrides: env, words: ws, redirects: rs }, p2)
}

pub proof fn lemma_env_loop_bounds(ts: Seq<TokenS>, p: int, acc: Seq<(Seq<char>, Seq<char>)>)
    requires
        0 <= p <= ts.len(),
    ensures
        p <= env_loop(ts, p, acc).1 <= ts.len(),
    decreases ts.len() - p,
{
    if at_kind(ts, p, TokenKind::Word) && assignment(ts[p].1) is Some {
        lemma_env_loop_bounds(ts, p + 1, acc.push(assignment(ts[p].1)->0));
    }
}

pub proof fn lemma_body_loop_bounds(
    ts: Seq<TokenS>,
    p: int,
    ws: Seq<Seq<char>>,
    rs: Seq<RedirectS>,
)
    requires
        0 <= p <= ts.len(),
    ensures
        p <= body_loop(ts, p, ws, rs).2 <= ts.len(),
    decreases ts.len() - p,
{
    if p < 0 || p >= ts.len() {
    } else if ts[p].0 == TokenKind::Word {
        lemma_body_loop_bounds(ts, p + 1, ws.push(ts[p].1), rs);
    } else if is_redirect_kind(ts[p].0) {
        let (rd, next) = redirect_at(ts, p);
        lemma_body_loop_bounds(ts, next, ws, rs.push(rd));
    }
}

pub proof fn lemma_simple_bounds(ts: Seq<TokenS>, p: int)
    requires
        0 <= p <= ts.len(),
    ensures
        p <= simple_at(ts, p).1 <= ts.len(),
{
    lemma_env_loop_bounds(ts, p, seq![]);
    lemma_body_loop_bounds(ts, env_loop(ts, p, seq![]).1, seq![], seq![]);
}

/// Further simple commands, each after a `|`.
pub open spec fn pipe_loop(ts: Seq<TokenS>, p: int, acc: Seq<SimpleS>) -> (Seq<SimpleS>, int)
    decreases ts.len() - p,
{
    if at_kind(ts, p, TokenKind::Pipe) {
        proof {
            lemma_simple_bounds(ts, p + 1);
        }
        let (c, q) = simple_at(ts, p + 1);
        pipe_loop(ts, q, acc.push(c))
    } else {
        (acc, p)
    }
}

pub proof fn lemma_pipe_loop_bounds(ts: Seq<TokenS>, p: int, acc: Seq<SimpleS>)
    requires
        0 <= p <= ts.len(),
    ensures
        p <= pipe_loop(ts, p, acc).1 <= ts.len(),
    decreases ts.len() - p,
{
    if at_kind(ts, p, TokenKind::Pipe) {
        lemma_simple_bounds(ts, p + 1);
        let (c, q) = simple_at(ts, p + 1);
        lemma_pipe_loop_bounds(ts, q, acc.push(c));
    }
}

pub open spec fn pipeline_at(ts: Seq<TokenS>, p: int) -> (PipelineS, int) {
    let neg = at_kind(ts, p, TokenKind::Bang);
    let p0 = if neg {
        p + 1
    } else {
        p
    };
    let (c, p1) = simple_at(ts, p0);
    let (cs, p2) = pipe_loop(ts, p1, seq![c]);
    (PipelineS { negated: neg, commands: cs }, p2)
}

pub proof fn lemma_pipeline_bounds(ts: Seq<TokenS>, p: int)
    requires
        0 <= p <= ts.len(),
    ensures
        p <= pipeline_at(ts, p).1 <= ts.len(),
{
    let neg = at_kind(ts, p, TokenKind::Bang);
    let p0 = if neg {
        p + 1
    } else {
        p
    };
    lemma_simple_bounds(ts, p0);
    let (c, p1) = simple_at(ts, p0);
    lemma_pipe_loop_bounds(ts, p1, seq![c]);
}

pub proof fn lemma_skip_bounds(ts: Seq<TokenS>, p: int)
    requires
        0 <= p <= ts.len(),
    ensures
        p <= skip_semis(ts, p) <= ts.len(),
        !at_kind(ts, skip_semis(ts, p), TokenKind::Semicolon),
    decreases ts.len() - p,
{
    if at_kind(ts, p, TokenKind::Semicolon) {
        lemma_skip_bounds(ts, p + 1);
    }
}

// ── Helpers of the compound constructs ──

/// The words of a `for` list: words up to `do` (or a word `;`).
pub open spec fn word_list(ts: Seq<TokenS>, p: int, acc: Seq<Seq<char>>) -> (Seq<Seq<char>>, int)
    decreases ts.len() - p,
{
    if at_kind(ts, p, TokenKind::Word) && !at_word(ts, p, "do"@) && !at_word(ts, p, ";"@) {
        word_list(ts, p + 1, acc.push(ts[p].1))
    } else {
        (acc, p)
    }
}

pub proof fn lemma_word_list_bounds(ts: Seq<TokenS>, p: int, acc: Seq<Seq<char>>)
    requires
        0 <= p <= ts.len(),
    ensures
        p <= word_list(ts, p, acc).1 <= ts.len(),
    decreases ts.len() - p,
{
    if at_kind(ts, p, TokenKind::Word) && !at_word(ts, p, "do"@) && !at_word(ts, p, ";"@) {
        lemma_word_list_bounds(ts, p + 1, acc.push(ts[p].1));
    }
}

/// The header of a `for`: the variable, the word list, and where the body
/// starts.
pub open spec fn for_header(ts: Seq<TokenS>, p: int) -> (Seq<char>, Seq<Seq<char>>, int) {
    let var = if at_kind(ts, p, TokenKind::Word) {
        ts[p].1
    } else {
        seq![]
    };
    let q1 = if at_kind(ts, p, TokenKind::Word) {
        p + 1
    } else {
        p
    };
    let (words, q2) = if at_word(ts, q1, "in"@) {
        word_list(ts, q1 + 1, seq![])
    } else {
        (seq![], q1)
    };
    let q3 = if at_kind(ts, q2, TokenKind::Semicolon) {
        q2 + 1
    } else {
        q2
    };
    let q4 = if at_word(ts, q3, "do"@) {
        q3 + 1
    } else {
        q3
    };
    (var, words, q4)
}

pub proof fn lemma_for_header_bounds(ts: Seq<TokenS>, p: int)
    requires
        0 <= p <= ts.len(),
    ensures
        p <= for_header(ts, p).2 <= ts.len(),
{
    let q1 = if at_kind(ts, p, TokenKind::Word) {
        p + 1
    } else {
        p
    };
    if at_word(ts, q1, "in"@) {
        lemma_word_list_bounds(ts, q1 + 1, seq![]);
    }
}

/// Further alternatives of a `case` pattern, each after a `|`.
pub open spec fn pattern_rest(ts: Seq<TokenS>, p: int, acc: Seq<Seq<char>>) -> (
    Seq<Seq<char>>,
    int,
)
    decreases ts.len() - p,
{
    if at_kind(ts, p, TokenKind::Pipe) {
        if at_kind(ts, p + 1, TokenKind::Word) {
            pattern_rest(ts, p + 2, acc.push(ts[p + 1].1))
        } else {
            pattern_rest(ts, p + 1, acc)
        }
    } else {
        (acc, p)
    }
}

/// The patterns of a `case` item: a word (or `(` and a word), then more
/// words after `|`.
pub open spec fn patterns_at(ts: Seq<TokenS>, p: int) -> (Seq<Seq<char>>, int) {
    if at_kind(ts, p, TokenKind::Word) {
        pattern_rest(ts, p + 1, seq![ts[p].1])
    } else if at_kind(ts, p, TokenKind::LParen) {
        if at_kind(ts, p + 1, TokenKind::Word) {
            pattern_rest(ts, p + 2, seq![ts[p + 1].1])
        } else {
            pattern_rest(ts, p + 1, seq![])
        }
    } else {
        pattern_rest(ts, p, seq![])
    }
}

pub proof fn lemma_pattern_rest_bounds(ts: Seq<TokenS>, p: int, acc: Seq<Seq<char>>)
    requires
        0 <= p <= ts.len(),
    ensures
        p <= pattern_rest(ts, p, acc).1 <= ts.len(),
    decreases ts.len() - p,
{
    if at_kind(ts, p, TokenKind::Pipe) {
        if at_kind(ts, p + 1, TokenKind::Word) {
            lemma_pattern_rest_bounds(ts, p + 2, acc.push(ts[p + 1].1));
        } else {
            lemma_pattern_rest_bounds(ts, p + 1, acc);
        }
    }
}

pub proof fn lemma_patterns_bounds(ts: Seq<TokenS>, p: int)
    requires
        0 <= p <= ts.len(),
    ensures
        p <= patterns_at(ts, p).1 <= ts.len(),
{
    if at_kind(ts, p, TokenKind::Word) {
        lemma_pattern_rest_bounds(ts, p + 1, seq![ts[p].1]);
    } else if at_kind(ts, p, TokenKind::LParen) {
        if at_kind(ts, p + 1, TokenKind::Word) {
            lemma_pattern_rest_bounds(ts, p + 2, seq![ts[p + 1].1]);
        } else {
            lemma_pattern_rest_bounds(ts, p + 1, seq![]);
        }
    } else {
        lemma_pattern_rest_bounds(ts, p, seq![]);
    }
}

/// Where a `case` item ends: after `;;`, or after up to two `;`.
pub open spec fn item_end(ts: Seq<TokenS>, q: int) -> int {
    if at_kind(ts, q, TokenKind::DSemicolon) {
        q + 1
    } else {
        let a = if at_kind(ts, q, TokenKind::Semicolon) {
            q + 1
        } else {
            q
        };
        if at_kind(ts, a, TokenKind::Semicolon) {
            a + 1
        } else {
            a
        }
    }
}

/// `p + 1` when the word `w` is at `p`, `p` otherwise.
pub open spec fn skip_word(ts: Seq<TokenS>, p: int, w: Seq<char>) -> int {
    if at_word(ts, p, w) {
        p + 1
    } else {
        p
    }
}

/// `p + 1` when a token of kind `k` is at `p`, `p` otherwise.
pub open spec fn skip_kind(ts: Seq<TokenS>, p: int, k: TokenKind) -> int {
    if at_kind(ts, p, k) {
        p + 1
    } else {
        p
    }
}

// ── The recursive grammar ──
//
// Each rule returns the tree it read and the position after it, or `None`
// on the inputs where parsing cannot finish: a `(` whose `)` is missing,
// or a list whose next command consumes no token.

pub open spec fn program_loop(ts: Seq<TokenS>, p: int, acc: Seq<CompleteS>) -> Option<
    (ProgramS, int),
>
    decreases ts.len() - p, 5nat,
{
    if p < 0 || p > ts.len() {
        None
    } else {
        proof {
            lemma_skip_bounds(ts, p);
        }
        let p1 = skip_semis(ts, p);
        if p1 >= ts.len() || at_kind(ts, p1, TokenKind::RParen) {
            Some((ProgramS { commands: acc }, p1))
        } else {
            match complete_at(ts, p1) {
                None => None,
                Some((c, p2)) => if p1 < p2 <= ts.len() {
                    program_loop(ts, p2, acc.push(c))
                } else {
                    None
                },
            }
        }
    }
}

pub open spec fn compound_loop(ts: Seq<TokenS>, p: int, acc: Seq<CompleteS>) -> Option<
    (ProgramS, int),
>
    decreases ts.len() - p, 5nat,
{
    if p < 0 || p > ts.len() {
        None
    } else if closes_block(ts, p) {
        Some((ProgramS { commands: acc }, p))
    } else {
        proof {
            lemma_skip_bounds(ts, p);
        }
        let p1 = skip_semis(ts, p);
        if p1 >= ts.len() || closes_block(ts, p1) {
            Some((ProgramS { commands: acc }, p1))
        } else {
            match complete_at(ts, p1) {
                None => None,
                Some((c, p2)) => if p1 < p2 <= ts.len() {
                    compound_loop(ts, p2, acc.push(c))
                } else {
                    None
                },
            }
        }
    }
}

pub open spec fn complete_at(ts: Seq<TokenS>, p: int) -> Option<(CompleteS, int)>
    decreases ts.len() - p, 4nat,
{
    if p < 0 || p > ts.len() {
        None
    } else {
        match and_or_at(ts, p) {
            None => None,
            Some((nodes, p1)) => if p <= p1 <= ts.len() {
                if at_kind(ts, p1, TokenKind::Background) {
                    Some((CompleteS { nodes, background: true }, p1 + 1))
                } else {
                    Some((CompleteS { nodes, background: false }, p1))
                }
            } else {
                None
            },
        }
    }
}

pub open spec fn and_or_at(ts: Seq<TokenS>, p: int) -> Option<(Seq<AndOrNodeS>, int)>
    decreases ts.len() - p, 3nat,
{
    if p < 0 || p > ts.len() {
        None
    } else {
        match command_at(ts, p) {
            None => None,
            Some((c, p1)) => if p <= p1 <= ts.len() {
                and_or_loop(ts, p1, seq![AndOrNodeS { command: c, operator: None }])
            } else {
                None
            },
        }
    }
}

pub open spec fn and_or_loop(ts: Seq<TokenS>, p: int, acc: Seq<AndOrNodeS>) -> Option<
    (Seq<AndOrNodeS>, int),
>
    decreases ts.len() - p, 2nat,
{
    if p < 0 || p > ts.len() {
        None
    } else if at_kind(ts, p, TokenKind::AndIf) || at_kind(ts, p, TokenKind::OrIf) {
        let op = if at_kind(ts, p, TokenKind::AndIf) {
            AndOrOp::And
        } else {
            AndOrOp::Or
        };
        match command_at(ts, p + 1) {
            None => None,
            Some((c, p1)) => if p + 1 <= p1 <= ts.len() {
                and_or_loop(ts, p1, acc.push(AndOrNodeS { command: c, operator: Some(op) }))
            } else {
                None
            },
        }
    } else {
        Some((acc, p))
    }
}

pub open spec fn command_at(ts: Seq<TokenS>, p: int) -> Option<(CommandS, int)>
    decreases ts.len() - p, 1nat,
{
    if p < 0 || p > ts.len() {
        None
    } else if at_kind(ts, p, TokenKind::LParen) {
        match program_loop(ts, p + 1, seq![]) {
            None => None,
            Some((prog, p1)) => if p + 1 <= p1 <= ts.len() && at_kind(ts, p1, TokenKind::RParen) {
                Some((CommandS::Compound(ScriptS::Subshell(prog)), p1 + 1))
            } else {
                None
            },
        }
    } else if at_word(ts, p, "if"@) {
        match if_at(ts, p + 1) {
            None => None,
            Some((s, q)) => Some((CommandS::Compound(s), q)),
        }
    } else if at_word(ts, p, "for"@) {
        match for_at(ts, p + 1) {
            None => None,
            Some((s, q)) => Some((CommandS::Compound(s), q)),
        }
    } else if at_word(ts, p, "while"@) {
        match while_at(ts, p + 1) {
            None => None,
            Some((s, q)) => Some((CommandS::Compound(s), q)),
        }
    } else if at_word(ts, p, "case"@) {
        match case_at(ts, p + 1) {
            None => None,
            Some((s, q)) => Some((CommandS::Compound(s), q)),
        }
    } else if at_word(ts, p, "function"@) {
        match function_at(ts, p + 1) {
            None => None,
            Some((s, q)) => Some((CommandS::Compound(s), q)),
        }
    } else {
        let (pl, q) = pipeline_at(ts, p);
        Some((CommandS::Pipeable(pl), q))
    }
}

/// `if` (already read) condition `then` body, then `elif` parts, an
/// optional `else` part and `fi`.
pub open spec fn if_at(ts: Seq<TokenS>, p: int) -> Option<(ScriptS, int)>
    decreases ts.len() - p, 7nat,
{
    if p < 0 || p > ts.len() {
        None
    } else {
        match compound_loop(ts, p, seq![]) {
            None => None,
            Some((cond, p1)) => if p <= p1 <= ts.len() {
                let p2 = skip_word(ts, p1, "then"@);
                match compound_loop(ts, p2, seq![]) {
                    None => None,
                    Some((body, p3)) => if p <= p3 <= ts.len() {
                        if_rest(ts, p3, seq![IfClauseS { condition: cond, body }])
                    } else {
                        None
                    },
                }
            } else {
                None
            },
        }
    }
}

pub open spec fn if_rest(ts: Seq<TokenS>, p: int, clauses: Seq<IfClauseS>) -> Option<
    (ScriptS, int),
>
    decreases ts.len() - p, 6nat,
{
    if p < 0 || p > ts.len() {
        None
    } else if at_word(ts, p, "elif"@) {
        match compound_loop(ts, p + 1, seq![]) {
            None => None,
            Some((cond, p1)) => if p + 1 <= p1 <= ts.len() {
                let p2 = skip_word(ts, p1, "then"@);
                match compound_loop(ts, p2, seq![]) {
                    None => None,
                    Some((body, p3)) => if p + 1 <= p3 <= ts.len() {
                        if_rest(ts, p3, clauses.push(IfClauseS { condition: cond, body }))
                    } else {
                        None
                    },
                }
            } else {
                None
            },
        }
    } else if at_word(ts, p, "else"@) {
        match compound_loop(ts, p + 1, seq![]) {
            None => None,
            Some((eb, p1)) => if p + 1 <= p1 <= ts.len() {
                Some((ScriptS::If { clauses, else_body: Some(eb) }, skip_word(ts, p1, "fi"@)))
            } else {
                None
            },
        }
    } else {
        Some((ScriptS::If { clauses, else_body: None }, skip_word(ts, p, "fi"@)))
    }
}

/// `for` (already read) name `in` words `;` `do` body `done`.
pub open spec fn for_at(ts: Seq<TokenS>, p: int) -> Option<(ScriptS, int)>
    decreases ts.len() - p, 6nat,
{
    if p < 0 || p > ts.len() {
        None
    } else {
        proof {
            lemma_for_header_bounds(ts, p);
        }
        let (var, words, q) = for_header(ts, p);
        match compound_loop(ts, q, seq![]) {
            None => None,
            Some((body, q1)) => if p <= q1 <= ts.len() {
                Some((ScriptS::For { var, words, body }, skip_word(ts, q1, "done"@)))
            } else {
                None
            },
        }
    }
}

/// `while` (already read) condition `do` body `done`.
pub open spec fn while_at(ts: Seq<TokenS>, p: int) -> Option<(ScriptS, int)>
    decreases ts.len() - p, 6nat,
{
    if p < 0 || p > ts.len() {
        None
    } else {
        match compound_loop(ts, p, seq![]) {
            None => None,
            Some((cond, p1)) => if p <= p1 <= ts.len() {
                let p2 = skip_word(ts, p1, "do"@);
                match compound_loop(ts, p2, seq![]) {
                    None => None,
                    Some((body, p3)) => if p <= p3 <= ts.len() {
                        Some(
                            (ScriptS::While { condition: cond, body }, skip_word(ts, p3, "done"@)),
                        )
                    } else {
                        None
                    },
                }
            } else {
                None
            },
        }
    }
}

/// `case` (already read) word `in` items `esac`.
pub open spec fn case_at(ts: Seq<TokenS>, p: int) -> Option<(ScriptS, int)>
    decreases ts.len() - p, 7nat,
{
    if p < 0 || p > ts.len() {
        None
    } else {
        let word = if at_kind(ts, p, TokenKind::Word) {
            ts[p].1
        } else {
            seq![]
        };
        let q1 = skip_kind(ts, p, TokenKind::Word);
        let q2 = skip_word(ts, q1, "in"@);
        match case_loop(ts, q2, seq![]) {
            None => None,
            Some((items, q3)) => if p <= q3 <= ts.len() {
                Some((ScriptS::Case { word, items }, skip_word(ts, q3, "esac"@)))
            } else {
                None
            },
        }
    }
}

/// The items of a `case`: patterns `)` body `;;`, up to `esac` or the end.
pub open spec fn case_loop(ts: Seq<TokenS>, p: int, items: Seq<CaseItemS>) -> Option<
    (Seq<CaseItemS>, int),
>
    decreases ts.len() - p, 6nat,
{
    if p < 0 || p > ts.len() {
        None
    } else if at_word(ts, p, "esac"@) || p >= ts.len() {
        Some((items, p))
    } else {
        proof {
            lemma_patterns_bounds(ts, p);
        }
        let (pats, q1) = patterns_at(ts, p);
        let q2 = skip_kind(ts, q1, TokenKind::RParen);
        match compound_loop(ts, q2, seq![]) {
            None => None,
            Some((body, q3)) => if p <= q3 <= ts.len() {
                let q4 = item_end(ts, q3);
                if p < q4 <= ts.len() {
                    case_loop(ts, q4, items.push(CaseItemS { patterns: pats, body }))
                } else {
                    None
                }
            } else {
                None
            },
        }
    }
}

/// `function` (already read) name `(` `)` `{` body `}`.
pub open spec fn function_at(ts: Seq<TokenS>, p: int) -> Option<(ScriptS, int)>
    decreases ts.len() - p, 6nat,
{
    if p < 0 || p > ts.len() {
        None
    } else {
        let name = if at_kind(ts, p, TokenKind::Word) {
            ts[p].1
        } else {
            seq![]
        };
        let q1 = skip_kind(ts, p, TokenKind::Word);
        let q2 = skip_kind(ts, q1, TokenKind::LParen);
        let q3 = skip_kind(ts, q2, TokenKind::RParen);
        let q4 = skip_word(ts, q3, "{"@);
        match compound_loop(ts, q4, seq![]) {
            None => None,
            Some((body, q5)) => if p <= q5 <= ts.len() {
                Some((ScriptS::Function { name, body }, skip_word(ts, q5, "}"@)))
            } else {
                None
            },
        }
    }
}

/// The program a whole token sequence denotes, when parsing reaches the
/// end of the input.
pub open spec fn spec_parse(ts: Seq<TokenS>) -> Option<ProgramS> {
    match program_loop(ts, 0, seq![]) {
        Some((prog, q)) => if q == ts.len() {
            Some(prog)
        } else {
            None
        },
        None => None,
    }
}

} // verus!

verus! {

// ── Executable parser ──

fn kind_at(ts: &[Token], p: usize, k: TokenKind) -> (r: bool)
    ensures
        r == at_kind(tokens_view(ts@), p as int, k),
{
    p < ts.len() && ts[p].kind == k
}

fn word_at(ts: &[Token], p: usize, lit: &str) -> (r: bool)
    ensures
        r == at_word(tokens_view(ts@), p as int, lit@),
{
    p < ts.len() && ts[p].kind == TokenKind::Word && str_eq(ts[p].value.as_str(), lit)
}

fn skip_word_exec(ts: &[Token], p: usize, lit: &str) -> (q: usize)
    requires
        p <= ts.len(),
    ensures
        q == skip_word(tokens_view(ts@), p as int, lit@),
        p <= q <= ts.len(),
{
    if word_at(ts, p, lit) {
        p + 1
    } else {
        p
    }
}

fn skip_kind_exec(ts: &[Token], p: usize, k: TokenKind) -> (q: usize)
    requires
        p <= ts.len(),
    ensures
        q == skip_kind(tokens_view(ts@), p as int, k),
        p <= q <= ts.len(),
{
    if kind_at(ts, p, k) {
        p + 1
    } else {
        p
    }
}

fn skip_semis_exec(ts: &[Token], p: usize) -> (q: usize)
    requires
        p <= ts.len(),
    ensures
        q == skip_semis(tokens_view(ts@), p as int),
        p <= q <= ts.len(),
{
    let mut q = p;
    while kind_at(ts, q, TokenKind::Semicolon)
        invariant
            p <= q <= ts.len(),
            skip_semis(tokens_view(ts@), q as int) == skip_semis(tokens_view(ts@), p as int),
        decreases ts.len() - q,
    {
        q = q + 1;
    }
    q
}

fn closes_block_exec(ts: &[Token], p: usize) -> (r: bool)
    ensures
        r == closes_block(tokens_view(ts@), p as int),
{
    kind_at(ts, p, TokenKind::DSemicolon) || word_at(ts, p, "then") || word_at(ts, p, "else")
        || word_at(ts, p, "elif") || word_at(ts, p, "fi") || word_at(ts, p, "do") || word_at(
        ts,
        p,
        "done",
    ) || word_at(ts, p, "esac") || word_at(ts, p, "}")
}

fn is_name_char_exec(c: char) -> (r: bool)
    ensures
        r == is_name_char(c),
{
    ('a' <= c && c <= 'z') || ('A' <= c && c <= 'Z') || ('0' <= c && c <= '9') || c == '_'
}

/// Splits `NAME=value` into its name and value (see `assignment`).
pub fn assignment_exec(w: &str) -> (r: Option<(String, String)>)
    ensures
        match r {
            Some((n, v)) => assignment(w@) == Some((n@, v@)),
            None => assignment(w@) is None,
        },
{
    let c = chars_of(w);
    let mut i: usize = 0;
    while i < c.len() && c[i] != '='
        invariant
            i <= c.len(),
            c@ == w@,
            find_from(c@, '=', 0) == find_from(c@, '=', i as int),
        decreases c.len() - i,
    {
        i = i + 1;
    }
    if i >= c.len() || i == 0 {
        return None;
    }
    assert(find_from(c@, '=', i as int) == Some(i as int));
    let mut j: usize = 0;
    while j < i
        invariant
            j <= i < c.len(),
            c@ == w@,
            find_from(c@, '=', 0) == Some(i as int),
            forall|k: int| 0 <= k < j ==> is_name_char(#[trigger] c@[k]),
        decreases i - j,
    {
        if !is_name_char_exec(c[j]) {
            assert(w@[j as int] == c@[j as int]);
            assert(!is_name_char(w@[j as int]));
            return None;
        }
        j = j + 1;
    }
    let name = string_of_range(&c, 0, i);
    let value = string_of_range(&c, i + 1, c.len());
    assert(c@.take(i as int) =~= c@.subrange(0, i as int));
    assert(c@.skip(i + 1) =~= c@.subrange(i + 1, c@.len() as int));
    Some((name, value))
}

fn fd_from_value_exec(v: &String, k: TokenKind) -> (fd: i32)
    ensures
        fd as int == fd_from_value(v@, k),
{
    let c = chars_of(v.as_str());
    let n = c.len();
    let dflt: i32 = if k == TokenKind::Less || k == TokenKind::DLass {
        0
    } else {
        1
    };
    let cut: usize = if n >= 2 && ((c[n - 2] == '>' && c[n - 1] == '>') || (c[n - 2] == '<' && c[n
        - 1] == '<') || ((c[n - 2] == '>' || c[n - 2] == '<') && c[n - 1] == '&')) {
        2
    } else if n >= 1 && (c[n - 1] == '>' || c[n - 1] == '<') {
        1
    } else {
        return dflt;
    };
    if n - cut == 0 {
        return dflt;
    }
    let np = string_of_range(&c, 0, n - cut);
    assert(np@ =~= v@.take(n - cut));
    match parse_i32(np.as_str()) {
        Some(x) => x,
        None => dflt,
    }
}

fn redirect_kind_exec(k: TokenKind, v: &String) -> (r: RedirectKind)
    ensures
        r == redirect_kind_of(k, v@),
{
    let c = chars_of(v.as_str());
    if c.len() > 0 && c[c.len() - 1] == '&' {
        RedirectKind::Duplicate
    } else if k == TokenKind::Great {
        RedirectKind::Output
    } else if k == TokenKind::DGreat {
        RedirectKind::Append
    } else if k == TokenKind::Less {
        RedirectKind::Input
    } else {
        RedirectKind::Heredoc
    }
}

fn simple_exec(ts: &[Token], p: usize) -> (r: (SimpleCommand, usize))
    requires
        p <= ts.len(),
    ensures
        simple_at(tokens_view(ts@), p as int) == (r.0@, r.1 as int),
        p <= r.1 <= ts.len(),
{
    let ghost s = tokens_view(ts@);
    let mut env: Vec<(String, String)> = Vec::new();
    let mut q = p;
    assert(pairs_s(env@) =~= seq![]);
    loop
        invariant
            p <= q <= ts.len(),
            s == tokens_view(ts@),
            env_loop(s, q as int, pairs_s(env@)) == env_loop(s, p as int, seq![]),
        ensures
            p <= q <= ts.len(),
            env_loop(s, p as int, seq![]) == (pairs_s(env@), q as int),
        decreases ts.len() - q,
    {
        if q >= ts.len() || ts[q].kind != TokenKind::Word {
            break;
        }
        assert(s[q as int] == ts@[q as int]@);
        match assignment_exec(ts[q].value.as_str()) {
            None => break,
            Some(pair) => {
                let ghost before = env@;
                env.push(pair);
                assert(pairs_s(env@) =~= pairs_s(before).push((pair.0@, pair.1@)));
                q = q + 1;
            },
        }
    }
    let p1 = q;
    let mut words: Vec<String> = Vec::new();
    let mut redirs: Vec<Redirect> = Vec::new();
    assert(strings_s(words@) =~= seq![]);
    assert(redirs@.map_values(|r: Redirect| redirect_s(r)) =~= seq![]);
    loop
        invariant
            p1 <= q <= ts.len(),
            p <= p1,
            s == tokens_view(ts@),
            body_loop(s, q as int, strings_s(words@), redirs@.map_values(|r: Redirect| redirect_s(r)))
                == body_loop(s, p1 as int, seq![], seq![]),
        ensures
            p1 <= q <= ts.len(),
            body_loop(s, p1 as int, seq![], seq![]) == (
                strings_s(words@),
                redirs@.map_values(|r: Redirect| redirect_s(r)),
                q as int,
            ),
        decreases ts.len() - q,
    {
        if q >= ts.len() {
            break;
        }
        assert(s[q as int] == ts@[q as int]@);
        let k = ts[q].kind;
        if k == TokenKind::Word {
            proof {
                crate::ast::lemma_strings_push(words@, ts@[q as int].value);
            }
            words.push(ts[q].value.clone());
            q = q + 1;
        } else if k == TokenKind::Great || k == TokenKind::DGreat || k == TokenKind::Less || k
            == TokenKind::DLass {
            let fd = fd_from_value_exec(&ts[q].value, k);
            let rk = redirect_kind_exec(k, &ts[q].value);
            let has_target = q + 1 < ts.len() && ts[q + 1].kind == TokenKind::Word;
            let target = if has_target {
                ts[q + 1].value.clone()
            } else {
                String::new()
            };
            if has_target {
                assert(s[q + 1] == ts@[q + 1]@);
            }
            let next = if has_target {
                q + 2
            } else {
                q + 1
            };
            let ghost before = redirs@;
            let rd = Redirect { fd, kind: rk, target };
            redirs.push(rd);
            assert(redirs@.map_values(|r: Redirect| redirect_s(r)) =~= before.map_values(|r: Redirect| redirect_s(r)).push(rd@));
            assert(rd@ == redirect_at(s, q as int).0);
            q = next;
        } else {
            break;
        }
    }
    let cmd = SimpleCommand { env_overrides: env, words, redirects: redirs };
    (cmd, q)
}

fn pipeline_exec(ts: &[Token], p: usize) -> (r: (Pipeline, usize))
    requires
        p <= ts.len(),
    ensures
        pipeline_at(tokens_view(ts@), p as int) == (r.0@, r.1 as int),
        p <= r.1 <= ts.len(),
{
    let ghost s = tokens_view(ts@);
    let neg = kind_at(ts, p, TokenKind::Bang);
    let p0 = if neg {
        p + 1
    } else {
        p
    };
    let (first, p1) = simple_exec(ts, p0);
    let mut cmds: Vec<SimpleCommand> = Vec::new();
    cmds.push(first);
    assert(cmds@.map_values(|c: SimpleCommand| simple_s(c)) =~= seq![first@]);
    let mut q = p1;
    while kind_at(ts, q, TokenKind::Pipe)
        invariant
            p <= q <= ts.len(),
            s == tokens_view(ts@),
            pipe_loop(s, q as int, cmds@.map_values(|c: SimpleCommand| simple_s(c))) == pipe_loop(
                s,
                p1 as int,
                seq![first@],
            ),
        decreases ts.len() - q,
    {
        let (c, q2) = simple_exec(ts, q + 1);
        let ghost before = cmds@;
        cmds.push(c);
        assert(cmds@.map_values(|c: SimpleCommand| simple_s(c)) =~= before.map_values(|c: SimpleCommand| simple_s(c)).push(c@));
        q = q2;
    }
    let pl = Pipeline { negated: neg, commands: cmds };
    assert(pl@ == PipelineS { negated: neg, commands: cmds@.map_values(|c: SimpleCommand| simple_s(c)) });
    (pl, q)
}

fn program_exec(ts: &[Token], p: usize) -> (r: Option<(Program, usize)>)
    requires
        p <= ts.len(),
    ensures
        match r {
            Some((prog, q)) => program_loop(tokens_view(ts@), p as int, seq![]) == Some(
                (prog@, q as int),
            ) && p <= q <= ts.len(),
            None => program_loop(tokens_view(ts@), p as int, seq![]) is None,
        },
    decreases ts.len() - p, 5nat,
{
    let ghost s = tokens_view(ts@);
    let mut acc: Vec<CompleteCommand> = Vec::new();
    let mut q = p;
    loop
        invariant
            p <= q <= ts.len(),
            s == tokens_view(ts@),
            program_loop(s, q as int, completes_s(acc@)) == program_loop(s, p as int, seq![]),
        decreases ts.len() - q,
    {
        let q1 = skip_semis_exec(ts, q);
        if q1 >= ts.len() || kind_at(ts, q1, TokenKind::RParen) {
            return Some((Program { commands: acc }, q1));
        }
        match complete_exec(ts, q1) {
            None => {
                return None;
            },
            Some((c, q2)) => {
                if q2 <= q1 {
                    return None;
                }
                proof {
                    crate::ast::lemma_completes_push(acc@, c);
                }
                acc.push(c);
                q = q2;
            },
        }
    }
}

fn compound_exec(ts: &[Token], p: usize) -> (r: Option<(Program, usize)>)
    requires
        p <= ts.len(),
    ensures
        match r {
            Some((prog, q)) => compound_loop(tokens_view(ts@), p as int, seq![]) == Some(
                (prog@, q as int),
            ) && p <= q <= ts.len(),
            None => compound_loop(tokens_view(ts@), p as int, seq![]) is None,
        },
    decreases ts.len() - p, 5nat,
{
    let ghost s = tokens_view(ts@);
    let mut acc: Vec<CompleteCommand> = Vec::new();
    let mut q = p;
    loop
        invariant
            p <= q <= ts.len(),
            s == tokens_view(ts@),
            compound_loop(s, q as int, completes_s(acc@)) == compound_loop(s, p as int, seq![]),
        decreases ts.len() - q,
    {
        if closes_block_exec(ts, q) {
            return Some((Program { commands: acc }, q));
        }
        let q1 = skip_semis_exec(ts, q);
        if q1 >= ts.len() || closes_block_exec(ts, q1) {
            return Some((Program { commands: acc }, q1));
        }
        match complete_exec(ts, q1) {
            None => {
                return None;
            },
            Some((c, q2)) => {
                if q2 <= q1 {
                    return None;
                }
                proof {
                    crate::ast::lemma_completes_push(acc@, c);
                }
                acc.push(c);
                q = q2;
            },
        }
    }
}

fn complete_exec(ts: &[Token], p: usize) -> (r: Option<(CompleteCommand, usize)>)
    requires
        p <= ts.len(),
    ensures
        match r {
            Some((c, q)) => complete_at(tokens_view(ts@), p as int) == Some(
                (CompleteS { nodes: nodes_s(c.and_or.nodes@), background: c.background }, q as int),
            ) && p <= q <= ts.len(),
            None => complete_at(tokens_view(ts@), p as int) is None,
        },
    decreases ts.len() - p, 4nat,
{
    match and_or_exec(ts, p) {
        None => None,
        Some((nodes, q1)) => {
            if kind_at(ts, q1, TokenKind::Background) {
                Some((CompleteCommand { and_or: AndOrList { nodes }, background: true }, q1 + 1))
            } else {
                Some((CompleteCommand { and_or: AndOrList { nodes }, background: false }, q1))
            }
        },
    }
}

fn and_or_exec(ts: &[Token], p: usize) -> (r: Option<(Vec<AndOrNode>, usize)>)
    requires
        p <= ts.len(),
    ensures
        match r {
            Some((v, q)) => and_or_at(tokens_view(ts@), p as int) == Some((nodes_s(v@), q as int))
                && p <= q <= ts.len(),
            None => and_or_at(tokens_view(ts@), p as int) is None,
        },
    decreases ts.len() - p, 3nat,
{
    let ghost s = tokens_view(ts@);
    match command_exec(ts, p) {
        None => None,
        Some((c, q1)) => {
            let mut acc: Vec<AndOrNode> = Vec::new();
            let node = AndOrNode { command: c, operator: None };
            proof {
                crate::ast::lemma_nodes_push(acc@, node);
            }
            acc.push(node);
            assert(nodes_s(acc@) =~= seq![AndOrNodeS { command: c@, operator: None }]);
            let mut q = q1;
            loop
                invariant
                    p <= q1 <= q <= ts.len(),
                    s == tokens_view(ts@),
                    and_or_loop(s, q as int, nodes_s(acc@)) == and_or_at(s, p as int),
                decreases ts.len() - q,
            {
                let is_and = kind_at(ts, q, TokenKind::AndIf);
                if !is_and && !kind_at(ts, q, TokenKind::OrIf) {
                    return Some((acc, q));
                }
                let op = if is_and {
                    AndOrOp::And
                } else {
                    AndOrOp::Or
                };
                match command_exec(ts, q + 1) {
                    None => {
                        return None;
                    },
                    Some((c2, q2)) => {
                        let n2 = AndOrNode { command: c2, operator: Some(op) };
                        proof {
                            crate::ast::lemma_nodes_push(acc@, n2);
                        }
                        acc.push(n2);
                        q = q2;
                    },
                }
            }
        },
    }
}

fn command_exec(ts: &[Token], p: usize) -> (r: Option<(CommandNode, usize)>)
    requires
        p <= ts.len(),
    ensures
        match r {
            Some((c, q)) => command_at(tokens_view(ts@), p as int) == Some((c@, q as int)) && p
                <= q <= ts.len(),
            None => command_at(tokens_view(ts@), p as int) is None,
        },
    decreases ts.len() - p, 1nat,
{
    if kind_at(ts, p, TokenKind::LParen) {
        match program_exec(ts, p + 1) {
            None => None,
            Some((prog, q1)) => {
                if kind_at(ts, q1, TokenKind::RParen) {
                    Some((CommandNode::Compound(ScriptCommand::Subshell(prog)), q1 + 1))
                } else {
                    None
                }
            },
        }
    } else if word_at(ts, p, "if") {
        match if_exec(ts, p + 1) {
            None => None,
            Some((c, q)) => Some((CommandNode::Compound(ScriptCommand::If(c)), q)),
        }
    } else if word_at(ts, p, "for") {
        match for_exec(ts, p + 1) {
            None => None,
            Some((c, q)) => Some((CommandNode::Compound(ScriptCommand::For(c)), q)),
        }
    } else if word_at(ts, p, "while") {
        match while_exec(ts, p + 1) {
            None => None,
            Some((c, q)) => Some((CommandNode::Compound(ScriptCommand::While(c)), q)),
        }
    } else if word_at(ts, p, "case") {
        match case_exec(ts, p + 1) {
            None => None,
            Some((c, q)) => Some((CommandNode::Compound(ScriptCommand::Case(c)), q)),
        }
    } else if word_at(ts, p, "function") {
        match function_exec(ts, p + 1) {
            None => None,
            Some((c, q)) => Some((CommandNode::Compound(ScriptCommand::Function(c)), q)),
        }
    } else {
        let (pl, q) = pipeline_exec(ts, p);
        Some((CommandNode::Pipeable(pl), q))
    }
}

fn if_exec(ts: &[Token], p: usize) -> (r: Option<(IfCommand, usize)>)
    requires
        p <= ts.len(),
    ensures
        match r {
            Some((c, q)) => if_at(tokens_view(ts@), p as int) == Some(
                (ScriptCommand::If(c)@, q as int),
            ) && p <= q <= ts.len(),
            None => if_at(tokens_view(ts@), p as int) is None,
        },
    decreases ts.len() - p, 7nat,
{
    let ghost s = tokens_view(ts@);
    let (cond, p1) = match compound_exec(ts, p) {
        None => {
            return None;
        },
        Some(x) => x,
    };
    let p2 = skip_word_exec(ts, p1, "then");
    let (body, p3) = match compound_exec(ts, p2) {
        None => {
            return None;
        },
        Some(x) => x,
    };
    let mut clauses: Vec<IfClause> = Vec::new();
    let first = IfClause { condition: cond, body };
    proof {
        crate::ast::lemma_clauses_push(clauses@, first);
    }
    clauses.push(first);
    assert(clauses_s(clauses@) =~= seq![IfClauseS { condition: cond@, body: body@ }]);
    let mut q = p3;
    loop
        invariant
            p <= q <= ts.len(),
            s == tokens_view(ts@),
            if_rest(s, q as int, clauses_s(clauses@)) == if_at(s, p as int),
        decreases ts.len() - q,
    {
        if word_at(ts, q, "elif") {
            let (c1, r1) = match compound_exec(ts, q + 1) {
                None => {
                    return None;
                },
                Some(x) => x,
            };
            let r2 = skip_word_exec(ts, r1, "then");
            let (b1, r3) = match compound_exec(ts, r2) {
                None => {
                    return None;
                },
                Some(x) => x,
            };
            let cl = IfClause { condition: c1, body: b1 };
            proof {
                crate::ast::lemma_clauses_push(clauses@, cl);
            }
            clauses.push(cl);
            q = r3;
        } else if word_at(ts, q, "else") {
            let (eb, r1) = match compound_exec(ts, q + 1) {
                None => {
                    return None;
                },
                Some(x) => x,
            };
            let r2 = skip_word_exec(ts, r1, "fi");
            let c = IfCommand { clauses, else_body: Some(eb) };
            return Some((c, r2));
        } else {
            let r2 = skip_word_exec(ts, q, "fi");
            let c = IfCommand { clauses, else_body: None };
            return Some((c, r2));
        }
    }
}

fn word_list_exec(ts: &[Token], p: usize) -> (r: (Vec<String>, usize))
    requires
        p <= ts.len(),
    ensures
        word_list(tokens_view(ts@), p as int, seq![]) == (strings_s(r.0@), r.1 as int),
        p <= r.1 <= ts.len(),
{
    let ghost s = tokens_view(ts@);
    let mut words: Vec<String> = Vec::new();
    let mut q = p;
    assert(strings_s(words@) =~= seq![]);
    while kind_at(ts, q, TokenKind::Word) && !word_at(ts, q, "do") && !word_at(ts, q, ";")
        invariant
            p <= q <= ts.len(),
            s == tokens_view(ts@),
            word_list(s, q as int, strings_s(words@)) == word_list(s, p as int, seq![]),
        decreases ts.len() - q,
    {
        assert(s[q as int] == ts@[q as int]@);
        proof {
            crate::ast::lemma_strings_push(words@, ts@[q as int].value);
        }
        words.push(ts[q].value.clone());
        q = q + 1;
    }
    assert(strings_s(Seq::<String>::empty()) =~= seq![]);
    (words, q)
}

fn for_exec(ts: &[Token], p: usize) -> (r: Option<(ForCommand, usize)>)
    requires
        p <= ts.len(),
    ensures
        match r {
            Some((c, q)) => for_at(tokens_view(ts@), p as int) == Some(
                (ScriptCommand::For(c)@, q as int),
            ) && p <= q <= ts.len(),
            None => for_at(tokens_view(ts@), p as int) is None,
        },
    decreases ts.len() - p, 6nat,
{
    let ghost s = tokens_view(ts@);
    let has_var = kind_at(ts, p, TokenKind::Word);
    let var = if has_var {
        ts[p].value.clone()
    } else {
        String::new()
    };
    if has_var {
        assert(s[p as int] == ts@[p as int]@);
    }
    let q1 = if has_var {
        p + 1
    } else {
        p
    };
    let (words, q2) = if word_at(ts, q1, "in") {
        word_list_exec(ts, q1 + 1)
    } else {
        assert(strings_s(Seq::<String>::empty()) =~= seq![]);
        (Vec::new(), q1)
    };
    let q3 = skip_kind_exec(ts, q2, TokenKind::Semicolon);
    let q4 = skip_word_exec(ts, q3, "do");
    assert(for_header(s, p as int) == (var@, strings_s(words@), q4 as int));
    match compound_exec(ts, q4) {
        None => None,
        Some((body, q5)) => {
            let q6 = skip_word_exec(ts, q5, "done");
            Some((ForCommand { var, words, body }, q6))
        },
    }
}

fn while_exec(ts: &[Token], p: usize) -> (r: Option<(WhileCommand, usize)>)
    requires
        p <= ts.len(),
    ensures
        match r {
            Some((c, q)) => while_at(tokens_view(ts@), p as int) == Some(
                (ScriptCommand::While(c)@, q as int),
            ) && p <= q <= ts.len(),
            None => while_at(tokens_view(ts@), p as int) is None,
        },
    decreases ts.len() - p, 6nat,
{
    let (cond, p1) = match compound_exec(ts, p) {
        None => {
            return None;
        },
        Some(x) => x,
    };
    let p2 = skip_word_exec(ts, p1, "do");
    let (body, p3) = match compound_exec(ts, p2) {
        None => {
            return None;
        },
        Some(x) => x,
    };
    let p4 = skip_word_exec(ts, p3, "done");
    Some((WhileCommand { condition: cond, body }, p4))
}

fn patterns_exec(ts: &[Token], p: usize) -> (r: (Vec<String>, usize))
    requires
        p <= ts.len(),
    ensures
        patterns_at(tokens_view(ts@), p as int) == (strings_s(r.0@), r.1 as int),
        p <= r.1 <= ts.len(),
{
    let ghost s = tokens_view(ts@);
    let mut pats: Vec<String> = Vec::new();
    let mut q = p;
    if kind_at(ts, p, TokenKind::Word) {
        assert(s[p as int] == ts@[p as int]@);
        proof {
            crate::ast::lemma_strings_push(pats@, ts@[p as int].value);
        }
        pats.push(ts[p].value.clone());
        q = p + 1;
    } else if kind_at(ts, p, TokenKind::LParen) {
        if kind_at(ts, p + 1, TokenKind::Word) {
            assert(s[p + 1] == ts@[p + 1]@);
            proof {
                crate::ast::lemma_strings_push(pats@, ts@[p + 1].value);
            }
            pats.push(ts[p + 1].value.clone());
            q = p + 2;
        } else {
            q = p + 1;
        }
    }
    assert(strings_s(Seq::<String>::empty()) =~= seq![]);
    let ghost q0 = q;
    let ghost start = strings_s(pats@);
    assert(patterns_at(s, p as int) == pattern_rest(s, q0 as int, start));
    while kind_at(ts, q, TokenKind::Pipe)
        invariant
            p <= q <= ts.len(),
            s == tokens_view(ts@),
            pattern_rest(s, q as int, strings_s(pats@)) == pattern_rest(s, q0 as int, start),
        decreases ts.len() - q,
    {
        if kind_at(ts, q + 1, TokenKind::Word) {
            assert(s[q + 1] == ts@[q + 1]@);
            proof {
                crate::ast::lemma_strings_push(pats@, ts@[q + 1].value);
            }
            pats.push(ts[q + 1].value.clone());
            q = q + 2;
        } else {
            q = q + 1;
        }
    }
    (pats, q)
}

fn item_end_exec(ts: &[Token], q: usize) -> (r: usize)
    requires
        q <= ts.len(),
    ensures
        r == item_end(tokens_view(ts@), q as int),
        q <= r <= ts.len(),
{
    if kind_at(ts, q, TokenKind::DSemicolon) {
        q + 1
    } else {
        let a = skip_kind_exec(ts, q, TokenKind::Semicolon);
        skip_kind_exec(ts, a, TokenKind::Semicolon)
    }
}

fn case_exec(ts: &[Token], p: usize) -> (r: Option<(CaseCommand, usize)>)
    requires
        p <= ts.len(),
    ensures
        match r {
            Some((c, q)) => case_at(tokens_view(ts@), p as int) == Some(
                (ScriptCommand::Case(c)@, q as int),
            ) && p <= q <= ts.len(),
            None => case_at(tokens_view(ts@), p as int) is None,
        },
    decreases ts.len() - p, 7nat,
{
    let ghost s = tokens_view(ts@);
    let has_word = kind_at(ts, p, TokenKind::Word);
    let word = if has_word {
        ts[p].value.clone()
    } else {
        String::new()
    };
    if has_word {
        assert(s[p as int] == ts@[p as int]@);
    }
    let q1 = skip_kind_exec(ts, p, TokenKind::Word);
    let q2 = skip_word_exec(ts, q1, "in");
    let mut items: Vec<CaseItem> = Vec::new();
    let mut q = q2;
    assert(items_s(items@) =~= seq![]);
    loop
        invariant
            p <= q2 <= q <= ts.len(),
            s == tokens_view(ts@),
            case_loop(s, q as int, items_s(items@)) == case_loop(s, q2 as int, seq![]),
            word@ == (if at_kind(s, p as int, TokenKind::Word) {
                s[p as int].1
            } else {
                seq![]
            }),
            q2 == skip_word(s, skip_kind(s, p as int, TokenKind::Word), "in"@),
        decreases ts.len() - q,
    {
        if word_at(ts, q, "esac") || q >= ts.len() {
            let q4 = skip_word_exec(ts, q, "esac");
            return Some((CaseCommand { word, items }, q4));
        }
        let (pats, r1) = patterns_exec(ts, q);
        let r2 = skip_kind_exec(ts, r1, TokenKind::RParen);
        match compound_exec(ts, r2) {
            None => {
                return None;
            },
            Some((body, r3)) => {
                let r4 = item_end_exec(ts, r3);
                if r4 <= q {
                    return None;
                }
                let it = CaseItem { patterns: pats, body };
                proof {
                    crate::ast::lemma_items_push(items@, it);
                }
                items.push(it);
                q = r4;
            },
        }
    }
}

fn function_exec(ts: &[Token], p: usize) -> (r: Option<(FunctionDef, usize)>)
    requires
        p <= ts.len(),
    ensures
        match r {
            Some((c, q)) => function_at(tokens_view(ts@), p as int) == Some(
                (ScriptCommand::Function(c)@, q as int),
            ) && p <= q <= ts.len(),
            None => function_at(tokens_view(ts@), p as int) is None,
        },
    decreases ts.len() - p, 6nat,
{
    let ghost s = tokens_view(ts@);
    let has_name = kind_at(ts, p, TokenKind::Word);
    let name = if has_name {
        ts[p].value.clone()
    } else {
        String::new()
    };
    if has_name {
        assert(s[p as int] == ts@[p as int]@);
    }
    let q1 = skip_kind_exec(ts, p, TokenKind::Word);
    let q2 = skip_kind_exec(ts, q1, TokenKind::LParen);
    let q3 = skip_kind_exec(ts, q2, TokenKind::RParen);
    let q4 = skip_word_exec(ts, q3, "{");
    match compound_exec(ts, q4) {
        None => None,
        Some((body, q5)) => {
            let q6 = skip_word_exec(ts, q5, "}");
            Some((FunctionDef { name, body }, q6))
        },
    }
}

} // verus!

verus! {

/// A parser over a token sequence, reading from a current position.
pub struct Parser<'a> {
    tokens: &'a [Token],
    pos: usize,
}

impl<'a> Parser<'a> {
    /// The tokens being parsed.
    pub closed spec fn token_seq(&self) -> Seq<TokenS> {
        tokens_view(self.tokens@)
    }

    /// The position of the next token to read.
    pub closed spec fn position(&self) -> int {
        self.pos as int
    }

    /// A parser at the first of `tokens`.
    pub fn new(tokens: &'a [Token]) -> (r: Self)
        ensures
            r.token_seq() == tokens_view(tokens@),
            r.position() == 0,
    {
        Parser { tokens, pos: 0 }
    }

    /// Reads complete commands separated by `;` up to the end of the
    /// tokens.
    pub fn parse_program(&mut self) -> (prog: Program)
        requires
            0 <= old(self).position() <= old(self).token_seq().len(),
            program_loop(old(self).token_seq(), old(self).position(), seq![]) matches Some((_, q))
                && q == old(self).token_seq().len(),
        ensures
            program_loop(old(self).token_seq(), old(self).position(), seq![]) == Some(
                (prog@, final(self).position()),
            ),
            final(self).token_seq() == old(self).token_seq(),
    {
        match program_exec(self.tokens, self.pos) {
            Some((prog, q)) => {
                self.pos = q;
                prog
            },
            None => {
                assert(false);
                Program { commands: Vec::new() }
            },
        }
    }

    /// Reads complete commands up to a keyword that closes a block (`then`,
    /// `else`, `elif`, `fi`, `do`, `done`, `esac`, `}`), a `;;`, or the end
    /// of the tokens.
    pub fn parse_compound_list(&mut self) -> (prog: Program)
        requires
            0 <= old(self).position() <= old(self).token_seq().len(),
            compound_loop(old(self).token_seq(), old(self).position(), seq![]) is Some,
        ensures
            compound_loop(old(self).token_seq(), old(self).position(), seq![]) == Some(
                (prog@, final(self).position()),
            ),
            final(self).token_seq() == old(self).token_seq(),
    {
        match compound_exec(self.tokens, self.pos) {
            Some((prog, q)) => {
                self.pos = q;
                prog
            },
            None => {
                assert(false);
                Program { commands: Vec::new() }
            },
        }
    }
}

/// Parses a whole token sequence; `None` when a `(` has no matching `)`,
/// when a `)` stands outside any subshell, or when a list's next command
/// would consume no token.
pub fn try_parse(tokens: &[Token]) -> (r: Option<Program>)
    ensures
        match r {
            Some(prog) => spec_parse(tokens_view(tokens@)) == Some(prog@),
            None => spec_parse(tokens_view(tokens@)) is None,
        },
{
    match program_exec(tokens, 0) {
        Some((prog, q)) => if q == tokens.len() {
            Some(prog)
        } else {
            None
        },
        None => None,
    }
}

/// Parses a whole token sequence that `spec_parse` accepts.
pub fn parse(tokens: &[Token]) -> (prog: Program)
    requires
        spec_parse(tokens_view(tokens@)) is Some,
    ensures
        spec_parse(tokens_view(tokens@)) == Some(prog@),
{
    match try_parse(tokens) {
        Some(prog) => prog,
        None => {
            assert(false);
            Program { commands: Vec::new() }
        },
    }
}

/// Parses a block body from the first token (see
/// `Parser::parse_compound_list`).
pub fn parse_compound_list(tokens: &[Token]) -> (prog: Program)
    requires
        compound_loop(tokens_view(tokens@), 0, seq![]) is Some,
    ensures
        compound_loop(tokens_view(tokens@), 0, seq![]) matches Some((p, _)) && p == prog@,
{
    let mut parser = Parser::new(tokens);
    parser.parse_compound_list()
}

} // verus!
