//! Preparing a command line to run: redirections and leading `NAME=VALUE`
//! assignments split from the words, the file descriptor a redirection
//! names, what each redirection does, and how a `|` line falls into
//! stages.
use vstd::prelude::*;
use crate::text::{
    chars_of, string_of_range, str_eq, all_digits, is_digit, parse_signed, parse_i32,
    trim_whitespace, trim_ws, string_append,
};
use crate::ast::RedirectKind;
use crate::builtins::{split_eq, split_at_eq, strs_s};
use crate::parser::find_from;
use crate::commands::{lines_view, pieces, split_char, contains_str};
use crate::tokenize::{spec_tokenize, tokenize_strings};
use crate::ast::TokenS;
use crate::expand::{expand_words, total_cmds, env_s, strings_of, expand_tokens};
use crate::glob::{expand_all, expand_globs};

verus! {

// ── redirection operators ──

/// `op` ends with `c`, after a run of digits.
pub open spec fn digits_then(op: Seq<char>, c: char) -> bool {
    op.len() > 0 && op.last() == c && all_digits(op.drop_last())
}

/// `op` ends with `>>`, after a run of digits.
pub open spec fn digits_then_append(op: Seq<char>) -> bool {
    op.len() >= 2 && op[op.len() - 2] == '>' && op.last() == '>' && all_digits(op.take(op.len() - 2))
}

/// A redirection operator: `>`, `>>` or `<`, each optionally after a file
/// descriptor number.
pub open spec fn is_redirect_op(op: Seq<char>) -> bool {
    digits_then(op, '>') || digits_then_append(op) || digits_then(op, '<')
}

/// An input redirection: `<`, optionally after a number.
pub open spec fn is_stdin_op(op: Seq<char>) -> bool {
    digits_then(op, '<')
}

/// The file descriptor a redirection operator names: its number, or 0 for
/// input and 1 for output when it has none (or one that is no `i32`).
pub open spec fn fd_of(op: Seq<char>) -> int {
    if op == ">"@ || op == ">>"@ {
        1
    } else if op == "<"@ {
        0
    } else {
        let num = if op.len() >= 2 && op[op.len() - 2] == '>' && op.last() == '>' {
            op.take(op.len() - 2)
        } else {
            op.drop_last()
        };
        match parse_signed(num) {
            Some(v) => if i32::MIN <= v <= i32::MAX {
                v
            } else if find_from(op, '<', 0) is Some {
                0
            } else {
                1
            },
            None => if find_from(op, '<', 0) is Some {
                0
            } else {
                1
            },
        }
    }
}

fn all_digits_exec(v: &Vec<char>, n: usize) -> (r: bool)
    requires
        n <= v.len(),
    ensures
        r == all_digits(v@.take(n as int)),
{
    let mut i: usize = 0;
    while i < n
        invariant
            n <= v.len(),
            i <= n,
            forall|k: int| 0 <= k < i ==> is_digit(v@[k]),
        decreases n - i,
    {
        if !('0' <= v[i] && v[i] <= '9') {
            assert(!is_digit(v@.take(n as int)[i as int]));
            return false;
        }
        i = i + 1;
    }
    assert forall|k: int| 0 <= k < n implies is_digit(#[trigger] v@.take(n as int)[k]) by {
        assert(v@.take(n as int)[k] == v@[k]);
    }
    true
}

/// Whether a word is a redirection operator.
pub fn redirect_op(op: &str) -> (r: bool)
    ensures
        r == is_redirect_op(op@),
{
    let v = chars_of(op);
    let n = v.len();
    assert(v@.drop_last() =~= v@.take(n - 1)) by {
        if n == 0 {
        }
    };
    if n > 0 && v[n - 1] == '>' && all_digits_exec(&v, n - 1) {
        return true;
    }
    if n >= 2 && v[n - 2] == '>' && v[n - 1] == '>' && all_digits_exec(&v, n - 2) {
        return true;
    }
    n > 0 && v[n - 1] == '<' && all_digits_exec(&v, n - 1)
}

/// Whether a word redirects standard input.
pub fn stdin_op(op: &str) -> (r: bool)
    ensures
        r == is_stdin_op(op@),
{
    let v = chars_of(op);
    let n = v.len();
    if n == 0 {
        return false;
    }
    assert(v@.drop_last() =~= v@.take(n - 1));
    v[n - 1] == '<' && all_digits_exec(&v, n - 1)
}

/// The file descriptor a redirection operator names.
pub fn parse_fd(op: &str) -> (fd: i32)
    requires
        is_redirect_op(op@),
    ensures
        fd as int == fd_of(op@),
{
    let v = chars_of(op);
    let n = v.len();
    if str_eq(op, ">") || str_eq(op, ">>") {
        return 1;
    }
    if str_eq(op, "<") {
        return 0;
    }
    let k = if n >= 2 && v[n - 2] == '>' && v[n - 1] == '>' {
        n - 2
    } else {
        n - 1
    };
    assert(v@.drop_last() =~= v@.subrange(0, n - 1));
    assert(v@.take(n - 2) =~= v@.subrange(0, n - 2)) by {
        if n < 2 {
        }
    };
    let num = string_of_range(&v, 0, k);
    let mut has_less = false;
    let mut j: usize = 0;
    while j < n
        invariant
            j <= n,
            n == v.len(),
            v@ == op@,
            !has_less ==> find_from(op@, '<', 0) == find_from(op@, '<', j as int),
            has_less ==> find_from(op@, '<', 0) is Some,
        decreases n - j,
    {
        if !has_less && v[j] == '<' {
            has_less = true;
        }
        j = j + 1;
    }
    match parse_i32(num.as_str()) {
        Some(x) => x,
        None => if has_less {
            0
        } else {
            1
        },
    }
}

// ── a command line split for running ──

/// A redirection as written: the operator, the file, the descriptor.
#[derive(Debug)]
pub struct RedirectSpec {
    pub op: String,
    pub target: String,
    pub fd: i32,
}

pub type RedirectSpecS = (Seq<char>, Seq<char>, int);

pub open spec fn specs_view(v: Seq<RedirectSpec>) -> Seq<RedirectSpecS> {
    v.map_values(|r: RedirectSpec| (r.op@, r.target@, r.fd as int))
}

/// The words from `i` on with their redirections taken out, after those
/// already taken (`rs`) and kept (`rem`); nothing when an operator has no
/// file after it.
pub open spec fn split_redirects(
    ts: Seq<Seq<char>>,
    i: int,
    rs: Seq<RedirectSpecS>,
    rem: Seq<Seq<char>>,
) -> Option<(Seq<RedirectSpecS>, Seq<Seq<char>>)>
    decreases ts.len() - i,
{
    if i < 0 || i >= ts.len() {
        Some((rs, rem))
    } else if is_redirect_op(ts[i]) {
        if i + 1 >= ts.len() {
            None
        } else {
            split_redirects(ts, i + 2, rs.push((ts[i], ts[i + 1], fd_of(ts[i]))), rem)
        }
    } else {
        split_redirects(ts, i + 1, rs, rem.push(ts[i]))
    }
}

/// A character allowed in a leading assignment.
pub open spec fn assignment_char(c: char) -> bool {
    ('a' <= c && c <= 'z') || ('A' <= c && c <= 'Z') || ('0' <= c && c <= '9') || c == '_' || c
        == '='
}

/// A leading `NAME=VALUE` word: an `=` after at least one character, and
/// only letters, digits, `_` and `=`.
pub open spec fn is_assignment(t: Seq<char>) -> bool {
    &&& find_from(t, '=', 0) matches Some(e)
    &&& e > 0
    &&& forall|k: int| 0 <= k < t.len() ==> assignment_char(#[trigger] t[k])
}

/// How many of the words from `k` on are leading assignments.
pub open spec fn assignment_end(ws: Seq<Seq<char>>, k: int) -> int
    decreases ws.len() - k,
{
    if 0 <= k < ws.len() && is_assignment(ws[k]) {
        assignment_end(ws, k + 1)
    } else {
        k
    }
}

/// What a command line runs, once split.
#[derive(Debug)]
pub enum ProcessPlan {
    /// Nothing runs; the status is 0.
    Nothing,
    /// A redirection without a file: a syntax error, status 1.
    MissingTarget,
    /// Run `program` with `args`, the assignments in its environment and
    /// the redirections in place.
    Run {
        redirects: Vec<RedirectSpec>,
        env: Vec<(String, String)>,
        program: String,
        args: Vec<String>,
    },
}

pub enum ProcessPlanS {
    Nothing,
    MissingTarget,
    Run {
        redirects: Seq<RedirectSpecS>,
        env: Seq<(Seq<char>, Seq<char>)>,
        program: Seq<char>,
        args: Seq<Seq<char>>,
    },
}

pub open spec fn env_pairs_view(v: Seq<(String, String)>) -> Seq<(Seq<char>, Seq<char>)> {
    v.map_values(|p: (String, String)| (p.0@, p.1@))
}

pub open spec fn process_plan_view(p: ProcessPlan) -> ProcessPlanS {
    match p {
        ProcessPlan::Nothing => ProcessPlanS::Nothing,
        ProcessPlan::MissingTarget => ProcessPlanS::MissingTarget,
        ProcessPlan::Run { redirects, env, program, args } => ProcessPlanS::Run {
            redirects: specs_view(redirects@),
            env: env_pairs_view(env@),
            program: program@,
            args: lines_view(args@),
        },
    }
}

/// The name and value of an assignment word.
pub open spec fn assignment_pair(t: Seq<char>) -> (Seq<char>, Seq<char>) {
    match split_eq(t) {
        Some(p) => p,
        None => (t, seq![]),
    }
}

/// How the words of a command line are run: redirections out, then the
/// leading assignments, then the program and its arguments.
pub open spec fn process_plan(ts: Seq<Seq<char>>) -> ProcessPlanS {
    match split_redirects(ts, 0, seq![], seq![]) {
        None => ProcessPlanS::MissingTarget,
        Some((rs, rem)) => {
            let n = assignment_end(rem, 0);
            if rem.len() == 0 || n >= rem.len() {
                ProcessPlanS::Nothing
            } else {
                ProcessPlanS::Run {
                    redirects: rs,
                    env: rem.take(n).map_values(|t: Seq<char>| assignment_pair(t)),
                    program: rem[n],
                    args: rem.skip(n + 1),
                }
            }
        },
    }
}

fn is_assignment_exec(t: &str) -> (r: bool)
    ensures
        r == is_assignment(t@),
{
    let v = chars_of(t);
    let mut eq: Option<usize> = None;
    let mut k: usize = 0;
    while k < v.len()
        invariant
            k <= v.len(),
            v@ == t@,
            forall|m: int| 0 <= m < k ==> assignment_char(#[trigger] v@[m]),
            match eq {
                Some(e) => find_from(t@, '=', 0) == Some(e as int),
                None => find_from(t@, '=', 0) == find_from(t@, '=', k as int),
            },
        decreases v.len() - k,
    {
        let c = v[k];
        if !(('a' <= c && c <= 'z') || ('A' <= c && c <= 'Z') || ('0' <= c && c <= '9') || c == '_'
            || c == '=') {
            return false;
        }
        if eq.is_none() && c == '=' {
            eq = Some(k);
        }
        k = k + 1;
    }
    match eq {
        Some(e) => e > 0,
        None => false,
    }
}

/// Splits the (expanded) words of a command line: the redirections (each
/// operator with the file after it), then the leading `NAME=VALUE`
/// assignments, then the program and its arguments.
pub fn plan_process(tokens: &Vec<String>) -> (r: ProcessPlan)
    ensures
        process_plan_view(r) == process_plan(lines_view(tokens@)),
{
    let ghost tv = lines_view(tokens@);
    let mut redirects: Vec<RedirectSpec> = Vec::new();
    let mut remaining: Vec<String> = Vec::new();
    let mut i: usize = 0;
    assert(specs_view(redirects@) =~= Seq::<RedirectSpecS>::empty());
    assert(lines_view(remaining@) =~= Seq::<Seq<char>>::empty());
    while i < tokens.len()
        invariant
            i <= tokens.len(),
            tv == lines_view(tokens@),
            tv.len() == tokens.len(),
            split_redirects(tv, i as int, specs_view(redirects@), lines_view(remaining@))
                == split_redirects(tv, 0, seq![], seq![]),
        decreases tokens.len() - i,
    {
        let op = tokens[i].as_str();
        assert(tv[i as int] == op@);
        if redirect_op(op) {
            if i + 1 >= tokens.len() {
                return ProcessPlan::MissingTarget;
            }
            assert(tv[i + 1] == tokens@[i + 1]@);
            let spec = RedirectSpec {
                op: tokens[i].clone(),
                target: tokens[i + 1].clone(),
                fd: parse_fd(op),
            };
            let ghost before = redirects@;
            redirects.push(spec);
            assert(specs_view(redirects@) =~= specs_view(before).push(
                (tv[i as int], tv[i + 1], fd_of(tv[i as int])),
            ));
            i = i + 2;
        } else {
            let ghost before = remaining@;
            remaining.push(tokens[i].clone());
            assert(lines_view(remaining@) =~= lines_view(before).push(tv[i as int]));
            i = i + 1;
        }
    }
    let ghost rv = lines_view(remaining@);
    if remaining.len() == 0 {
        return ProcessPlan::Nothing;
    }
    let mut env: Vec<(String, String)> = Vec::new();
    let mut n: usize = 0;
    assert(env_pairs_view(env@) =~= rv.take(0).map_values(|t: Seq<char>| assignment_pair(t)));
    while n < remaining.len() && is_assignment_exec(remaining[n].as_str())
        invariant
            n <= remaining.len(),
            rv == lines_view(remaining@),
            rv.len() == remaining.len(),
            assignment_end(rv, n as int) == assignment_end(rv, 0),
            env_pairs_view(env@) == rv.take(n as int).map_values(|t: Seq<char>| assignment_pair(t)),
        decreases remaining.len() - n,
    {
        assert(rv[n as int] == remaining@[n as int]@);
        let pair = match split_at_eq(remaining[n].as_str()) {
            Some(p) => p,
            None => (remaining[n].clone(), String::new()),
        };
        let ghost before = env@;
        env.push(pair);
        assert(env_pairs_view(env@) =~= env_pairs_view(before).push(assignment_pair(rv[n as int])));
        assert(rv.take(n + 1).map_values(|t: Seq<char>| assignment_pair(t)) =~= rv.take(
            n as int,
        ).map_values(|t: Seq<char>| assignment_pair(t)).push(assignment_pair(rv[n as int])));
        n = n + 1;
    }
    proof {
        if n < remaining.len() {
            assert(rv[n as int] == remaining@[n as int]@);
        }
    }
    if n >= remaining.len() {
        return ProcessPlan::Nothing;
    }
    let program = remaining[n].clone();
    assert(rv[n as int] == program@);
    let mut args: Vec<String> = Vec::new();
    let mut k = n + 1;
    assert(lines_view(args@) =~= rv.subrange(n + 1, k as int));
    while k < remaining.len()
        invariant
            n < k <= remaining.len(),
            rv == lines_view(remaining@),
            rv.len() == remaining.len(),
            lines_view(args@) == rv.subrange(n + 1, k as int),
        decreases remaining.len() - k,
    {
        let ghost before = args@;
        args.push(remaining[k].clone());
        assert(lines_view(args@) =~= lines_view(before).push(rv[k as int]));
        assert(rv.subrange(n + 1, k + 1) =~= rv.subrange(n + 1, k as int).push(rv[k as int]));
        k = k + 1;
    }
    assert(rv.skip(n + 1) =~= rv.subrange(n + 1, rv.len() as int));
    ProcessPlan::Run { redirects, env, program, args }
}

// ── what a redirection does ──

/// The change a redirection makes to the standard streams.
#[derive(Clone, Copy, Debug, PartialEq, Eq, Structural)]
pub enum RedirectAction {
    /// Standard output to the file, truncated.
    StdoutTo,
    /// Standard output to the end of the file.
    StdoutAppend,
    /// Standard error to the file, truncated.
    StderrTo,
    /// Standard error to the end of the file.
    StderrAppend,
    /// Standard input from the file.
    StdinFrom,
    /// Standard error to wherever standard output goes (`2>&1`).
    StderrToStdout,
    /// Standard output to wherever standard error goes (`1>&2`).
    StdoutToStderr,
}

/// What a redirection written as `op` with descriptor `fd` does; nothing
/// for the combinations that are not supported.
pub open spec fn written_action(op: Seq<char>, fd: int) -> Option<RedirectAction> {
    if (op == ">"@ || op == "1>"@) && fd == 1 {
        Some(RedirectAction::StdoutTo)
    } else if (op == ">>"@ || op == "1>>"@) && fd == 1 {
        Some(RedirectAction::StdoutAppend)
    } else if (op == ">"@ || op == "2>"@) && fd == 2 {
        Some(RedirectAction::StderrTo)
    } else if (op == ">>"@ || op == "2>>"@) && fd == 2 {
        Some(RedirectAction::StderrAppend)
    } else if (op == "<"@ || op == "0<"@) && fd == 0 {
        Some(RedirectAction::StdinFrom)
    } else {
        None
    }
}

/// What a redirection written on a command line does.
pub fn redirect_action(op: &str, fd: i32) -> (r: Option<RedirectAction>)
    ensures
        r == written_action(op@, fd as int),
{
    if (str_eq(op, ">") || str_eq(op, "1>")) && fd == 1 {
        Some(RedirectAction::StdoutTo)
    } else if (str_eq(op, ">>") || str_eq(op, "1>>")) && fd == 1 {
        Some(RedirectAction::StdoutAppend)
    } else if (str_eq(op, ">") || str_eq(op, "2>")) && fd == 2 {
        Some(RedirectAction::StderrTo)
    } else if (str_eq(op, ">>") || str_eq(op, "2>>")) && fd == 2 {
        Some(RedirectAction::StderrAppend)
    } else if (str_eq(op, "<") || str_eq(op, "0<")) && fd == 0 {
        Some(RedirectAction::StdinFrom)
    } else {
        None
    }
}

/// What a parsed redirection does to the shell's own streams while a
/// builtin runs: output and append on descriptors 1 and 2, and input.
pub fn shell_redirect(kind: RedirectKind, fd: i32) -> (r: Option<RedirectAction>)
    ensures
        r == (if kind == RedirectKind::Output && fd == 1 {
            Some(RedirectAction::StdoutTo)
        } else if kind == RedirectKind::Output && fd == 2 {
            Some(RedirectAction::StderrTo)
        } else if kind == RedirectKind::Append && fd == 1 {
            Some(RedirectAction::StdoutAppend)
        } else if kind == RedirectKind::Append && fd == 2 {
            Some(RedirectAction::StderrAppend)
        } else if kind == RedirectKind::Input {
            Some(RedirectAction::StdinFrom)
        } else {
            None
        }),
{
    match kind {
        RedirectKind::Output => if fd == 1 {
            Some(RedirectAction::StdoutTo)
        } else if fd == 2 {
            Some(RedirectAction::StderrTo)
        } else {
            None
        },
        RedirectKind::Append => if fd == 1 {
            Some(RedirectAction::StdoutAppend)
        } else if fd == 2 {
            Some(RedirectAction::StderrAppend)
        } else {
            None
        },
        RedirectKind::Input => Some(RedirectAction::StdinFrom),
        RedirectKind::Heredoc => None,
        RedirectKind::Duplicate => None,
    }
}

/// What `fd>&target` does: `2>&1` sends standard error where standard
/// output goes and `1>&2` the reverse; other pairs are not supported.
pub open spec fn duplicate_of(fd: int, target: Seq<char>) -> Option<RedirectAction> {
    if fd == 2 && target == seq!['1'] {
        Some(RedirectAction::StderrToStdout)
    } else if fd == 1 && target == seq!['2'] {
        Some(RedirectAction::StdoutToStderr)
    } else {
        None
    }
}

/// What a duplicating redirection `fd>&target` does.
pub fn dup_action(fd: i32, target: &str) -> (r: Option<RedirectAction>)
    ensures
        r == duplicate_of(fd as int, target@),
{
    let t = chars_of(target);
    let one = t.len() == 1;
    if fd == 2 && one && t[0] == '1' {
        assert(target@ =~= seq!['1']);
        Some(RedirectAction::StderrToStdout)
    } else if fd == 1 && one && t[0] == '2' {
        assert(target@ =~= seq!['2']);
        Some(RedirectAction::StdoutToStderr)
    } else {
        proof {
            if target@ == seq!['1'] || target@ == seq!['2'] {
                assert(t@.len() == 1);
            }
        }
        None
    }
}

/// What a parsed redirection does to the streams of a program started from
/// the shell: output and append on descriptors 1 and 2, and input from a
/// file or a here-document.
pub fn child_redirect(kind: RedirectKind, fd: i32) -> (r: Option<RedirectAction>)
    ensures
        r == (if kind == RedirectKind::Output && fd == 1 {
            Some(RedirectAction::StdoutTo)
        } else if kind == RedirectKind::Output && fd == 2 {
            Some(RedirectAction::StderrTo)
        } else if kind == RedirectKind::Append && fd == 1 {
            Some(RedirectAction::StdoutAppend)
        } else if kind == RedirectKind::Append && fd == 2 {
            Some(RedirectAction::StderrAppend)
        } else if kind == RedirectKind::Input || kind == RedirectKind::Heredoc {
            Some(RedirectAction::StdinFrom)
        } else {
            None
        }),
{
    match kind {
        RedirectKind::Heredoc => Some(RedirectAction::StdinFrom),
        _ => shell_redirect(kind, fd),
    }
}

// ── pipelines ──

/// The commands of a `|` line: the pieces between the bars, trimmed.
pub open spec fn pipeline_segments(line: Seq<char>) -> Seq<Seq<char>> {
    pieces(line, '|').map_values(|p: Seq<char>| trim_ws(p))
}

/// Splits a line at each `|` into its commands, trimmed.
pub fn split_pipeline(line: &str) -> (r: Vec<String>)
    ensures
        lines_view(r@) == pipeline_segments(line@),
{
    let ps = split_char(line, '|');
    let ghost pv = lines_view(ps@);
    let mut r: Vec<String> = Vec::new();
    let mut i: usize = 0;
    assert(lines_view(r@) =~= pv.take(0).map_values(|p: Seq<char>| trim_ws(p)));
    while i < ps.len()
        invariant
            i <= ps.len(),
            pv == lines_view(ps@),
            pv.len() == ps.len(),
            lines_view(r@) == pv.take(i as int).map_values(|p: Seq<char>| trim_ws(p)),
        decreases ps.len() - i,
    {
        let t = trim_whitespace(ps[i].as_str());
        assert(pv[i as int] == ps@[i as int]@);
        let ghost before = r@;
        r.push(t);
        assert(lines_view(r@) =~= lines_view(before).push(t@));
        assert(pv.take(i + 1).map_values(|p: Seq<char>| trim_ws(p)) =~= pv.take(i as int).map_values(
            |p: Seq<char>| trim_ws(p),
        ).push(trim_ws(pv[i as int])));
        i = i + 1;
    }
    assert(pv.take(ps.len() as int) =~= pv);
    r
}

/// The words of one stage from `j` on with input redirections taken out:
/// the last such file (when one follows its operator) and the other words.
pub open spec fn stage_scan(ps: Seq<Seq<char>>, j: int, file: Option<Seq<char>>, words: Seq<Seq<char>>) -> (
    Option<Seq<char>>,
    Seq<Seq<char>>,
)
    decreases ps.len() - j,
{
    if j < 0 || j >= ps.len() {
        (file, words)
    } else if is_stdin_op(ps[j]) {
        if j + 1 < ps.len() {
            stage_scan(ps, j + 2, Some(ps[j + 1]), words)
        } else {
            stage_scan(ps, j + 1, file, words)
        }
    } else {
        stage_scan(ps, j + 1, file, words.push(ps[j]))
    }
}

/// One stage of a `|` line: where its input comes from, and its words.
#[derive(Debug)]
pub struct StageInput {
    pub stdin_file: Option<String>,
    pub words: Vec<String>,
}

/// Takes the input redirections out of the words of a stage: the last
/// `<` (or `N<`) with a file after it gives the input file; an operator at
/// the end is dropped.
pub fn stage_input(parts: &Vec<String>) -> (r: StageInput)
    ensures
        ({
            let (file, words) = stage_scan(lines_view(parts@), 0, None, seq![]);
            &&& lines_view(r.words@) == words
            &&& match r.stdin_file {
                Some(f) => file == Some(f@),
                None => file is None,
            }
        }),
{
    let ghost pv = lines_view(parts@);
    let mut file: Option<String> = None;
    let mut words: Vec<String> = Vec::new();
    let mut j: usize = 0;
    assert(lines_view(words@) =~= Seq::<Seq<char>>::empty());
    while j < parts.len()
        invariant
            j <= parts.len(),
            pv == lines_view(parts@),
            pv.len() == parts.len(),
            stage_scan(pv, j as int, match file {
                Some(f) => Some(f@),
                None => None,
            }, lines_view(words@)) == stage_scan(pv, 0, None, seq![]),
        decreases parts.len() - j,
    {
        assert(pv[j as int] == parts@[j as int]@);
        if stdin_op(parts[j].as_str()) {
            if j + 1 < parts.len() {
                assert(pv[j + 1] == parts@[j + 1]@);
                file = Some(parts[j + 1].clone());
                j = j + 2;
            } else {
                j = j + 1;
            }
        } else {
            let ghost before = words@;
            words.push(parts[j].clone());
            assert(lines_view(words@) =~= lines_view(before).push(pv[j as int]));
            j = j + 1;
        }
    }
    StageInput { stdin_file: file, words }
}

/// How one stage of a pipeline runs.
#[derive(Clone, Copy, Debug, PartialEq, Eq, Structural)]
pub enum StageKind {
    /// No words: nothing runs.
    Empty,
    /// A builtin as the last stage: it runs in the shell.
    LastBuiltin,
    /// A builtin before the last stage: its output feeds the next stage.
    PipedBuiltin,
    /// A program.
    Program,
}

/// How a stage with these words runs, `registry` being the builtin names.
pub fn stage_kind(words: &Vec<String>, is_last: bool, registry: &[&str]) -> (r: StageKind)
    ensures
        r == (if words@.len() == 0 {
            StageKind::Empty
        } else if strs_s(registry@).contains(words@[0]@) {
            if is_last {
                StageKind::LastBuiltin
            } else {
                StageKind::PipedBuiltin
            }
        } else {
            StageKind::Program
        }),
{
    if words.len() == 0 {
        StageKind::Empty
    } else if contains_str(registry, words[0].as_str()) {
        if is_last {
            StageKind::LastBuiltin
        } else {
            StageKind::PipedBuiltin
        }
    } else {
        StageKind::Program
    }
}

/// The status of a pipeline is that of its last stage. `last_is_program`
/// says whether the last stage was a program that was started (its status
/// is then the last of `program_statuses`, which hold the statuses of the
/// started programs in order); otherwise `stage_status` is the status the
/// last stage evaluated left (a builtin's, an empty stage's 0, or 127 for a
/// program that was not found).
pub fn pipeline_status(stage_status: i32, last_is_program: bool, program_statuses: &Vec<i32>) -> (r: i32)
    ensures
        r == (if last_is_program && program_statuses@.len() > 0 {
            program_statuses@.last()
        } else {
            stage_status
        }),
{
    if last_is_program && program_statuses.len() > 0 {
        program_statuses[program_statuses.len() - 1]
    } else {
        stage_status
    }
}

/// A command with no words but with assignments only sets variables, and
/// they stay set.
pub fn is_pure_assignment(words: &Vec<String>, overrides: &Vec<(String, String)>) -> (r: bool)
    ensures
        r == (words@.len() == 0 && overrides@.len() > 0),
{
    words.len() == 0 && overrides.len() > 0
}

// ── assignments before a command ──

/// The environment with `name` set to `v`, or unset for none.
pub open spec fn set_env(env: Map<Seq<char>, Seq<char>>, name: Seq<char>, v: Option<Seq<char>>) -> Map<
    Seq<char>,
    Seq<char>,
> {
    match v {
        Some(x) => env.insert(name, x),
        None => env.remove(name),
    }
}

/// The value of `name` in `env`, if it is set.
pub open spec fn env_get(env: Map<Seq<char>, Seq<char>>, name: Seq<char>) -> Option<Seq<char>> {
    if env.contains_key(name) {
        Some(env[name])
    } else {
        None
    }
}

/// The environment after the leading assignments `ovs` are made in order,
/// with what each name held before its assignment.
pub open spec fn assign_all(env: Map<Seq<char>, Seq<char>>, ovs: Seq<(Seq<char>, Seq<char>)>) -> (
    Map<Seq<char>, Seq<char>>,
    Seq<(Seq<char>, Option<Seq<char>>)>,
)
    decreases ovs.len(),
{
    if ovs.len() == 0 {
        (env, seq![])
    } else {
        let (e1, saved) = assign_all(env, ovs.drop_last());
        let (n, v) = ovs.last();
        (e1.insert(n, v), saved.push((n, env_get(e1, n))))
    }
}

/// The environment after the settings `sets` are made in order.
pub open spec fn apply_sets(env: Map<Seq<char>, Seq<char>>, sets: Seq<(Seq<char>, Option<Seq<char>>)>) -> Map<
    Seq<char>,
    Seq<char>,
>
    decreases sets.len(),
{
    if sets.len() == 0 {
        env
    } else {
        set_env(apply_sets(env, sets.drop_last()), sets.last().0, sets.last().1)
    }
}

pub open spec fn saved_view(v: Seq<(String, Option<String>)>) -> Seq<(Seq<char>, Option<Seq<char>>)> {
    v.map_values(
        |e: (String, Option<String>)|
            (
                e.0@,
                match e.1 {
                    Some(x) => Some(x@),
                    None => None,
                },
            ),
    )
}

/// What to set back after a command that had leading assignments, given
/// what each assigned name held before (in the order of the assignments):
/// nothing for an assignment-only command, whose assignments stay;
/// otherwise the old values, the last assignment first.
pub fn restore_list(saved: &Vec<(String, Option<String>)>, pure: bool) -> (r: Vec<(String, Option<String>)>)
    ensures
        saved_view(r@) == (if pure {
            Seq::empty()
        } else {
            saved_view(saved@).reverse()
        }),
{
    let mut r: Vec<(String, Option<String>)> = Vec::new();
    if pure {
        assert(saved_view(r@) =~= Seq::empty());
        return r;
    }
    let ghost sv = saved_view(saved@);
    let mut k: usize = saved.len();
    assert(saved_view(r@) =~= sv.subrange(k as int, sv.len() as int).reverse());
    while k > 0
        invariant
            k <= saved.len(),
            sv == saved_view(saved@),
            sv.len() == saved.len(),
            saved_view(r@) == sv.subrange(k as int, sv.len() as int).reverse(),
        decreases k,
    {
        k = k - 1;
        let e = (saved[k].0.clone(), saved[k].1.clone());
        assert(sv[k as int] == (e.0@, match e.1 { Some(x) => Some(x@), None => None::<Seq<char>> }));
        let ghost before = r@;
        r.push(e);
        assert(saved_view(r@) =~= saved_view(before).push(sv[k as int]));
        assert(sv.subrange(k as int, sv.len() as int).reverse() =~= sv.subrange(k + 1, sv.len() as int).reverse().push(
            sv[k as int],
        ));
    }
    assert(sv.subrange(0, sv.len() as int) =~= sv);
    r
}

proof fn lemma_apply_front(
    env: Map<Seq<char>, Seq<char>>,
    x: (Seq<char>, Option<Seq<char>>),
    rest: Seq<(Seq<char>, Option<Seq<char>>)>,
)
    ensures
        apply_sets(env, seq![x] + rest) == apply_sets(set_env(env, x.0, x.1), rest),
    decreases rest.len(),
{
    let all = seq![x] + rest;
    if rest.len() == 0 {
        assert(all =~= seq![x]);
        assert(all.drop_last() =~= Seq::<(Seq<char>, Option<Seq<char>>)>::empty());
        assert(apply_sets(env, all) == set_env(env, x.0, x.1)) by {
            reveal_with_fuel(apply_sets, 2);
        }
        assert(rest =~= Seq::<(Seq<char>, Option<Seq<char>>)>::empty());
    } else {
        assert(all.drop_last() =~= seq![x] + rest.drop_last());
        assert(all.last() == rest.last());
        lemma_apply_front(env, x, rest.drop_last());
    }
}

proof fn lemma_apply_reverse_push(
    env: Map<Seq<char>, Seq<char>>,
    saved: Seq<(Seq<char>, Option<Seq<char>>)>,
    x: (Seq<char>, Option<Seq<char>>),
)
    ensures
        apply_sets(env, saved.push(x).reverse()) == apply_sets(set_env(env, x.0, x.1), saved.reverse()),
{
    assert(saved.push(x).reverse() =~= seq![x] + saved.reverse());
    lemma_apply_front(env, x, saved.reverse());
}

/// Leading assignments before a command are undone after it: making them in
/// order and then setting back what `restore_list` gives (the old values,
/// the last assignment first) leaves the environment as it was, also when
/// a name is assigned twice.
pub proof fn law_temporary_assignments_restored(env: Map<Seq<char>, Seq<char>>, ovs: Seq<(Seq<char>, Seq<char>)>)
    ensures
        apply_sets(assign_all(env, ovs).0, assign_all(env, ovs).1.reverse()) == env,
    decreases ovs.len(),
{
    if ovs.len() > 0 {
        let (e1, saved) = assign_all(env, ovs.drop_last());
        let (n, v) = ovs.last();
        law_temporary_assignments_restored(env, ovs.drop_last());
        lemma_apply_reverse_push(e1.insert(n, v), saved, (n, env_get(e1, n)));
        assert(set_env(e1.insert(n, v), n, env_get(e1, n)) =~= e1);
    } else {
        assert(Seq::<(Seq<char>, Option<Seq<char>>)>::empty().reverse() =~= Seq::<(Seq<char>, Option<Seq<char>>)>::empty());
    }
}

/// What is set back after a command with leading assignments (see
/// `restore_list`): nothing for an assignment-only command, otherwise the
/// old values, the last assignment first.
pub open spec fn restore_spec(saved: Seq<(Seq<char>, Option<Seq<char>>)>, pure: bool) -> Seq<
    (Seq<char>, Option<Seq<char>>),
> {
    if pure {
        seq![]
    } else {
        saved.reverse()
    }
}

/// The environment after a command with leading assignments `ovs` (an
/// assignment-only command when `pure`): the assignments are made, the
/// command runs, and what `restore_list` gives is set back.
pub open spec fn env_after_command(env: Map<Seq<char>, Seq<char>>, ovs: Seq<(Seq<char>, Seq<char>)>, pure: bool) -> Map<
    Seq<char>,
    Seq<char>,
> {
    let (e1, saved) = assign_all(env, ovs);
    apply_sets(e1, restore_spec(saved, pure))
}

proof fn lemma_assign_all_values(env: Map<Seq<char>, Seq<char>>, ovs: Seq<(Seq<char>, Seq<char>)>, i: int)
    requires
        0 <= i < ovs.len(),
        forall|j: int| i < j < ovs.len() ==> (#[trigger] ovs[j]).0 != ovs[i].0,
    ensures
        assign_all(env, ovs).0.contains_key(ovs[i].0),
        assign_all(env, ovs).0[ovs[i].0] == ovs[i].1,
    decreases ovs.len(),
{
    let d = ovs.drop_last();
    if i < ovs.len() - 1 {
        assert forall|j: int| i < j < d.len() implies (#[trigger] d[j]).0 != d[i].0 by {
            assert(d[j] == ovs[j]);
        }
        lemma_assign_all_values(env, d, i);
        assert(ovs[ovs.len() - 1].0 != ovs[i].0);
    }
}

/// The assignments before a command, stated of the whole command: for an
/// assignment-only command they stay (each name holds the value assigned
/// to it last); before any other command the environment ends as it was.
pub proof fn law_assignments_of_a_command(
    env: Map<Seq<char>, Seq<char>>,
    ovs: Seq<(Seq<char>, Seq<char>)>,
    pure: bool,
)
    ensures
        !pure ==> env_after_command(env, ovs, pure) == env,
        pure ==> env_after_command(env, ovs, pure) == assign_all(env, ovs).0,
        pure ==> forall|i: int|
            0 <= i < ovs.len() && (forall|j: int| i < j < ovs.len() ==> (#[trigger] ovs[j]).0 != ovs[i].0)
                ==> env_after_command(env, ovs, pure).contains_key(#[trigger] ovs[i].0)
                && env_after_command(env, ovs, pure)[ovs[i].0] == ovs[i].1,
{
    if pure {
        assert forall|i: int|
            0 <= i < ovs.len() && (forall|j: int| i < j < ovs.len() ==> (#[trigger] ovs[j]).0 != ovs[i].0)
            implies env_after_command(env, ovs, pure).contains_key(#[trigger] ovs[i].0)
            && env_after_command(env, ovs, pure)[ovs[i].0] == ovs[i].1 by {
            lemma_assign_all_values(env, ovs, i);
        }
    } else {
        law_temporary_assignments_restored(env, ovs);
    }
}

// ── a whole command line ──

/// The message for a redirection operator with no file after it.
pub open spec fn missing_target_message() -> Seq<char> {
    "syntax error: expected filename after redirection"@
}

/// What a plan comes to before anything runs: nothing to run gives
/// status 0 and no message; a redirection without a file gives status 1
/// and the syntax-error message; a program to run has no outcome yet (its
/// status is the program's).
pub open spec fn plan_outcome_spec(p: ProcessPlanS) -> Option<(i32, Seq<char>)> {
    match p {
        ProcessPlanS::Nothing => Some((0i32, seq![])),
        ProcessPlanS::MissingTarget => Some((1i32, missing_target_message())),
        ProcessPlanS::Run { .. } => None,
    }
}

/// The status and message of a plan that runs nothing, or none when a
/// program is to run.
pub fn plan_outcome(plan: &ProcessPlan) -> (r: Option<(i32, String)>)
    ensures
        match r {
            Some((status, message)) => plan_outcome_spec(process_plan_view(*plan)) == Some((status, message@)),
            None => plan_outcome_spec(process_plan_view(*plan)) is None,
        },
{
    match plan {
        ProcessPlan::Nothing => {
            let m = String::new();
            assert(m@ =~= Seq::<char>::empty());
            Some((0, m))
        },
        ProcessPlan::MissingTarget => {
            let m = "syntax error: expected filename after redirection".to_owned();
            Some((1, m))
        },
        ProcessPlan::Run { .. } => None,
    }
}

/// The message for a redirection that is not supported.
pub open spec fn unsupported_message(op: Seq<char>) -> Seq<char> {
    op + ": unsupported redirection"@
}

/// What a redirection of a command line does, or the message when it is
/// not supported.
pub fn redirect_outcome(op: &str, fd: i32) -> (r: Result<RedirectAction, String>)
    ensures
        match r {
            Ok(a) => written_action(op@, fd as int) == Some(a),
            Err(m) => written_action(op@, fd as int) is None && m@ == unsupported_message(op@),
        },
{
    match redirect_action(op, fd) {
        Some(a) => Ok(a),
        None => {
            let mut m = String::new();
            string_append(&mut m, op);
            string_append(&mut m, ": unsupported redirection");
            Err(m)
        },
    }
}

/// The texts of the tokens of a line.
pub open spec fn line_words(line: Seq<char>) -> Seq<Seq<char>> {
    spec_tokenize(line).map_values(|t: TokenS| t.1)
}

pub open spec fn found_view(found: Seq<Vec<String>>) -> Seq<Seq<Seq<char>>> {
    found.map_values(|v: Vec<String>| v@.map_values(|s: String| s@))
}

/// The words of a line once tokenized and expanded (`outs` being the
/// outputs of its command substitutions, in order).
pub open spec fn line_expanded(
    line: Seq<char>,
    last: i32,
    env: Seq<(Seq<char>, Seq<char>)>,
    outs: Seq<Seq<char>>,
) -> Seq<Seq<char>> {
    expand_words(line_words(line), last, env, outs)
}

/// How a command line runs: its tokens, expanded (`outs` being the outputs
/// of its command substitutions), with each glob replaced by what it
/// matched (`found`, one list per expanded word), split into the plan.
pub open spec fn line_plan(
    line: Seq<char>,
    last: i32,
    env: Seq<(Seq<char>, Seq<char>)>,
    outs: Seq<Seq<char>>,
    found: Seq<Seq<Seq<char>>>,
) -> ProcessPlanS {
    let ex = line_expanded(line, last, env, outs);
    process_plan(expand_all(ex, found, ex.len() as int))
}

/// Plans a whole command line: tokenizes it, expands its words with
/// `last_exit_code` as `$?`, the environment `env` and the outputs `outs`
/// of its command substitutions (see `command_substitutions`), replaces
/// each glob by the paths `found` for it, and splits the result.
pub fn plan_line(
    line: &str,
    last_exit_code: i32,
    env: &Vec<(String, String)>,
    outs: &Vec<String>,
    found: &Vec<Vec<String>>,
) -> (r: ProcessPlan)
    requires
        total_cmds(line_words(line@), env_s(env@)) <= outs.len(),
        found.len() == line_expanded(line@, last_exit_code, env_s(env@), strings_of(outs@)).len(),
    ensures
        process_plan_view(r) == line_plan(line@, last_exit_code, env_s(env@), strings_of(outs@), found_view(found@)),
{
    let words = tokenize_strings(line);
    assert(strings_of(words@) =~= line_words(line@));
    let expanded = expand_tokens(&words, last_exit_code, env, outs);
    let ex = expand_globs(&expanded, found);
    assert(expanded@.map_values(|s: String| s@) =~= strings_of(expanded@));
    assert(lines_view(ex@) =~= ex@.map_values(|s: String| s@));
    plan_process(&ex)
}

// ── starting the stages of a pipeline ──

/// Where the starting of a pipeline's stages stands: the stage to start
/// next, how many there are, the status the stages left so far, and
/// whether the last stage handled was a program that started.
#[derive(Clone, Copy, Debug, PartialEq, Eq, Structural)]
pub struct PipeState {
    pub next: usize,
    pub total: usize,
    pub status: i32,
    pub last_is_program: bool,
}

/// What happened to the stage just handled.
#[derive(Clone, Copy, Debug, PartialEq, Eq, Structural)]
pub enum StageEvent {
    /// The stage had no words.
    Empty,
    /// A builtin ran in the shell (the last stage) with this status.
    BuiltinRan(i32),
    /// A builtin's output was fed to the next stage.
    BuiltinPiped,
    /// The program was not found.
    NotFound,
    /// The program started.
    Spawned,
    /// The program could not be started.
    SpawnFailed,
    /// The file named for the stage's input could not be opened.
    InputMissing,
}

/// What the caller does next.
#[derive(Clone, Copy, Debug, PartialEq, Eq, Structural)]
pub enum PipeAction {
    /// Handle this stage.
    Stage(usize),
    /// Stop starting stages; kill the programs started so far when `kill`.
    /// Then wait for the started programs and take `pipe_result`.
    Stop { kill: bool },
    /// All stages are handled: wait for the started programs and take
    /// `pipe_result`.
    Finish,
}

/// The state before the first of `total` stages.
pub open spec fn pipe_start_spec(total: usize) -> PipeState {
    PipeState { next: 0, total, status: 0, last_is_program: false }
}

/// After the stage `st.next` is handled with `ev`: an empty stage leaves
/// status 0; a builtin run in the shell leaves its status; a missing
/// program leaves 127 and stops; a program that fails to start leaves 127,
/// and the programs started so far are killed; an input file that cannot
/// be opened leaves 1 and stops; otherwise the next stage follows, until
/// none is left. Whether the last stage handled was a started program is
/// kept for the pipeline's status.
pub open spec fn pipe_step_spec(st: PipeState, ev: StageEvent) -> (PipeState, PipeAction) {
    let n = (st.next + 1) as usize;
    let go = if n >= st.total {
        PipeAction::Finish
    } else {
        PipeAction::Stage(n)
    };
    match ev {
        StageEvent::Empty => (PipeState { next: n, status: 0, last_is_program: false, ..st }, go),
        StageEvent::BuiltinRan(v) => (PipeState { next: n, status: v, last_is_program: false, ..st }, go),
        StageEvent::BuiltinPiped => (PipeState { next: n, last_is_program: false, ..st }, go),
        StageEvent::Spawned => (PipeState { next: n, last_is_program: true, ..st }, go),
        StageEvent::NotFound => (
            PipeState { status: 127, last_is_program: false, ..st },
            PipeAction::Stop { kill: false },
        ),
        StageEvent::SpawnFailed => (
            PipeState { status: 127, last_is_program: false, ..st },
            PipeAction::Stop { kill: true },
        ),
        StageEvent::InputMissing => (
            PipeState { status: 1, last_is_program: false, ..st },
            PipeAction::Stop { kill: false },
        ),
    }
}

/// The state before the first of `total` stages, and the first action.
pub fn pipe_start(total: usize) -> (r: (PipeState, PipeAction))
    ensures
        r.0 == pipe_start_spec(total),
        r.1 == (if total == 0 {
            PipeAction::Finish
        } else {
            PipeAction::Stage(0)
        }),
{
    let st = PipeState { next: 0, total, status: 0, last_is_program: false };
    if total == 0 {
        (st, PipeAction::Finish)
    } else {
        (st, PipeAction::Stage(0))
    }
}

/// One step of starting a pipeline's stages (see `pipe_step_spec`).
pub fn pipe_step(st: PipeState, ev: StageEvent) -> (r: (PipeState, PipeAction))
    requires
        st.next < st.total,
    ensures
        r == pipe_step_spec(st, ev),
{
    let n = st.next + 1;
    let go = if n >= st.total {
        PipeAction::Finish
    } else {
        PipeAction::Stage(n)
    };
    match ev {
        StageEvent::Empty => (PipeState { next: n, status: 0, last_is_program: false, ..st }, go),
        StageEvent::BuiltinRan(v) => (PipeState { next: n, status: v, last_is_program: false, ..st }, go),
        StageEvent::BuiltinPiped => (PipeState { next: n, last_is_program: false, ..st }, go),
        StageEvent::Spawned => (PipeState { next: n, last_is_program: true, ..st }, go),
        StageEvent::NotFound => (
            PipeState { status: 127, last_is_program: false, ..st },
            PipeAction::Stop { kill: false },
        ),
        StageEvent::SpawnFailed => (
            PipeState { status: 127, last_is_program: false, ..st },
            PipeAction::Stop { kill: true },
        ),
        StageEvent::InputMissing => (
            PipeState { status: 1, last_is_program: false, ..st },
            PipeAction::Stop { kill: false },
        ),
    }
}

/// The pipeline's status once the started programs ended with
/// `program_statuses` (in the order they started): see `pipeline_status`.
pub fn pipe_result(st: PipeState, program_statuses: &Vec<i32>) -> (r: i32)
    ensures
        r == (if st.last_is_program && program_statuses@.len() > 0 {
            program_statuses@.last()
        } else {
            st.status
        }),
{
    pipeline_status(st.status, st.last_is_program, program_statuses)
}

} // verus!
