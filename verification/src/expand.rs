//! Word expansion: `~`, `$NAME`, `${NAME}`, `$?`, `$(cmd)` and `` `cmd` ``.
//!
//! The environment is handed in as a list of `(name, value)` pairs and the
//! outputs of command substitutions as a list of texts, one per
//! substitution in order of appearance; `command_substitutions` lists the
//! commands whose outputs are needed.
use vstd::prelude::*;
use crate::text::{chars_of, string_of, string_push, string_append, i32_to_string, decimal, str_eq};
use crate::parser::is_name_char;

verus! {

/// A piece of a word after scanning for expansions.
pub enum PieceS {
    Text(char),
    Status,
    Var(Seq<char>),
    Cmd(Seq<char>),
}

/// The text inside `$( ... )` from position `j`, with nested parentheses
/// kept, and the position after the closing `)`.
pub open spec fn paren_capture(s: Seq<char>, j: int, depth: int, acc: Seq<char>) -> (Seq<char>, int)
    decreases s.len() - j,
{
    if j < 0 || j >= s.len() {
        (acc, j)
    } else if s[j] == '(' {
        paren_capture(s, j + 1, depth + 1, acc.push(s[j]))
    } else if s[j] == ')' {
        if depth - 1 == 0 {
            (acc, j + 1)
        } else {
            paren_capture(s, j + 1, depth - 1, acc.push(s[j]))
        }
    } else {
        paren_capture(s, j + 1, depth, acc.push(s[j]))
    }
}

/// The text up to the next `stop` character from `j`, and the position
/// after that character (or the end).
pub open spec fn until_capture(s: Seq<char>, j: int, stop: char, acc: Seq<char>) -> (Seq<char>, int)
    decreases s.len() - j,
{
    if j < 0 || j >= s.len() {
        (acc, j)
    } else if s[j] == stop {
        (acc, j + 1)
    } else {
        until_capture(s, j + 1, stop, acc.push(s[j]))
    }
}

/// The run of name characters from `j`, and the position after it.
pub open spec fn name_capture(s: Seq<char>, j: int, acc: Seq<char>) -> (Seq<char>, int)
    decreases s.len() - j,
{
    if 0 <= j < s.len() && is_name_char(s[j]) {
        name_capture(s, j + 1, acc.push(s[j]))
    } else {
        (acc, j)
    }
}

pub proof fn lemma_paren_bounds(s: Seq<char>, j: int, depth: int, acc: Seq<char>)
    requires
        0 <= j,
    ensures
        paren_capture(s, j, depth, acc).1 >= j,
        j <= s.len() ==> paren_capture(s, j, depth, acc).1 <= s.len(),
    decreases s.len() - j,
{
    if j < s.len() {
        if s[j] == '(' {
            lemma_paren_bounds(s, j + 1, depth + 1, acc.push(s[j]));
        } else if s[j] == ')' {
            if depth - 1 != 0 {
                lemma_paren_bounds(s, j + 1, depth - 1, acc.push(s[j]));
            }
        } else {
            lemma_paren_bounds(s, j + 1, depth, acc.push(s[j]));
        }
    }
}

pub proof fn lemma_until_bounds(s: Seq<char>, j: int, stop: char, acc: Seq<char>)
    requires
        0 <= j,
    ensures
        until_capture(s, j, stop, acc).1 >= j,
        j <= s.len() ==> until_capture(s, j, stop, acc).1 <= s.len(),
    decreases s.len() - j,
{
    if j < s.len() && s[j] != stop {
        lemma_until_bounds(s, j + 1, stop, acc.push(s[j]));
    }
}

pub proof fn lemma_name_bounds(s: Seq<char>, j: int, acc: Seq<char>)
    requires
        0 <= j,
    ensures
        name_capture(s, j, acc).1 >= j,
        j <= s.len() ==> name_capture(s, j, acc).1 <= s.len(),
    decreases s.len() - j,
{
    if 0 <= j < s.len() && is_name_char(s[j]) {
        lemma_name_bounds(s, j + 1, acc.push(s[j]));
    }
}

/// The piece that starts at position `i` of `s` and where the next one
/// starts: `$(...)` and `` `...` `` are command substitutions, `$?` the
/// last status, `${NAME}` and `$NAME` variables; a `$` followed by
/// anything else stays a `$`; every other character stands for itself.
pub open spec fn piece_at(s: Seq<char>, i: int) -> (PieceS, int) {
    if s[i] == '$' && i + 1 < s.len() {
        let n = s[i + 1];
        if n == '(' {
            let (inner, j) = paren_capture(s, i + 2, 1, seq![]);
            (PieceS::Cmd(inner), j)
        } else if n == '?' {
            (PieceS::Status, i + 2)
        } else if n == '{' {
            let (name, j) = until_capture(s, i + 2, '}', seq![]);
            (PieceS::Var(name), j)
        } else if is_name_char(n) {
            let (name, j) = name_capture(s, i + 1, seq![]);
            (PieceS::Var(name), j)
        } else {
            (PieceS::Text('$'), i + 1)
        }
    } else if s[i] == '`' {
        let (inner, j) = until_capture(s, i + 1, '`', seq![]);
        (PieceS::Cmd(inner), j)
    } else {
        (PieceS::Text(s[i]), i + 1)
    }
}

/// The pieces of `s[i..]`, one after the other.
pub open spec fn scan(s: Seq<char>, i: int) -> Seq<PieceS>
    decreases s.len() - i,
{
    if i < 0 || i >= s.len() {
        seq![]
    } else {
        let (p, j) = piece_at(s, i);
        if i < j <= s.len() {
            seq![p] + scan(s, j)
        } else {
            seq![]
        }
    }
}

/// The value of `name` in `env` (the first entry with that name), or
/// nothing.
pub open spec fn lookup(env: Seq<(Seq<char>, Seq<char>)>, name: Seq<char>) -> Option<Seq<char>>
    decreases env.len(),
{
    if env.len() == 0 {
        None
    } else if env[0].0 == name {
        Some(env[0].1)
    } else {
        lookup(env.drop_first(), name)
    }
}

/// A variable's value; an unset variable expands to nothing.
pub open spec fn var_value(env: Seq<(Seq<char>, Seq<char>)>, name: Seq<char>) -> Seq<char> {
    match lookup(env, name) {
        Some(v) => v,
        None => seq![],
    }
}

/// The output of a command substitution without its final newline.
pub open spec fn trim_newline(o: Seq<char>) -> Seq<char> {
    if o.len() > 0 && o.last() == '\n' {
        o.drop_last()
    } else {
        o
    }
}

/// How many command substitutions the pieces hold.
pub open spec fn cmd_count(ps: Seq<PieceS>) -> nat
    decreases ps.len(),
{
    if ps.len() == 0 {
        0
    } else {
        (if ps[0] is Cmd { 1nat } else { 0nat }) + cmd_count(ps.drop_first())
    }
}

/// The commands of the substitutions among the pieces, in order.
pub open spec fn cmds_of(ps: Seq<PieceS>) -> Seq<Seq<char>>
    decreases ps.len(),
{
    if ps.len() == 0 {
        seq![]
    } else {
        match ps[0] {
            PieceS::Cmd(c) => seq![c] + cmds_of(ps.drop_first()),
            _ => cmds_of(ps.drop_first()),
        }
    }
}

/// The text the pieces expand to, given the last status, the environment
/// and the outputs of the substitutions in order.
pub open spec fn render(
    ps: Seq<PieceS>,
    last: i32,
    env: Seq<(Seq<char>, Seq<char>)>,
    outs: Seq<Seq<char>>,
) -> Seq<char>
    decreases ps.len(),
{
    if ps.len() == 0 {
        seq![]
    } else {
        let rest = ps.drop_first();
        match ps[0] {
            PieceS::Text(c) => seq![c] + render(rest, last, env, outs),
            PieceS::Status => decimal(last as int) + render(rest, last, env, outs),
            PieceS::Var(n) => var_value(env, n) + render(rest, last, env, outs),
            PieceS::Cmd(_) => trim_newline(outs[0]) + render(rest, last, env, outs.drop_first()),
        }
    }
}

/// `~` alone or at the start of `~/...` stands for the home directory,
/// when it is known.
pub open spec fn tilde(t: Seq<char>, home: Option<Seq<char>>) -> Seq<char> {
    if t.len() > 0 && t[0] == '~' && (t.len() == 1 || t[1] == '/') && home is Some {
        home->0 + t.skip(1)
    } else {
        t
    }
}

/// The pieces of a word after `~` expansion with `HOME` from `env`.
pub open spec fn word_pieces(t: Seq<char>, env: Seq<(Seq<char>, Seq<char>)>) -> Seq<PieceS> {
    scan(tilde(t, lookup(env, "HOME"@)), 0)
}

/// The commands of all substitutions in `ws`, in order.
pub open spec fn all_cmds(ws: Seq<Seq<char>>, env: Seq<(Seq<char>, Seq<char>)>) -> Seq<Seq<char>>
    decreases ws.len(),
{
    if ws.len() == 0 {
        seq![]
    } else {
        cmds_of(word_pieces(ws[0], env)) + all_cmds(ws.drop_first(), env)
    }
}

/// How many command substitutions the words of `ws` hold.
pub open spec fn total_cmds(ws: Seq<Seq<char>>, env: Seq<(Seq<char>, Seq<char>)>) -> nat
    decreases ws.len(),
{
    if ws.len() == 0 {
        0
    } else {
        cmd_count(word_pieces(ws[0], env)) + total_cmds(ws.drop_first(), env)
    }
}

pub proof fn lemma_cmds_len(ps: Seq<PieceS>)
    ensures
        cmds_of(ps).len() == cmd_count(ps),
    decreases ps.len(),
{
    if ps.len() > 0 {
        lemma_cmds_len(ps.drop_first());
    }
}

pub proof fn lemma_all_cmds_len(ws: Seq<Seq<char>>, env: Seq<(Seq<char>, Seq<char>)>)
    ensures
        all_cmds(ws, env).len() == total_cmds(ws, env),
    decreases ws.len(),
{
    if ws.len() > 0 {
        lemma_cmds_len(word_pieces(ws[0], env));
        lemma_all_cmds_len(ws.drop_first(), env);
    }
}

/// The expansion of each word of `ws`, the outputs being consumed across
/// the words in order.
pub open spec fn expand_words(
    ws: Seq<Seq<char>>,
    last: i32,
    env: Seq<(Seq<char>, Seq<char>)>,
    outs: Seq<Seq<char>>,
) -> Seq<Seq<char>>
    decreases ws.len(),
{
    if ws.len() == 0 {
        seq![]
    } else {
        let ps = word_pieces(ws[0], env);
        seq![render(ps, last, env, outs)] + expand_words(
            ws.drop_first(),
            last,
            env,
            outs.skip(cmd_count(ps) as int),
        )
    }
}

/// `w` is a variable name: ASCII letters, digits and `_`.
pub open spec fn var_name(w: Seq<char>) -> bool {
    forall|k: int|
        0 <= k < w.len() ==> {
            let c = #[trigger] w[k];
            ('a' <= c && c <= 'z') || ('A' <= c && c <= 'Z') || ('0' <= c && c <= '9') || c == '_'
        }
}

proof fn lemma_name_capture_all(s: Seq<char>, j: int, acc: Seq<char>)
    requires
        0 <= j <= s.len(),
        var_name(s.skip(j)),
    ensures
        name_capture(s, j, acc) == (acc + s.skip(j), s.len() as int),
    decreases s.len() - j,
{
    if j < s.len() {
        assert(s.skip(j)[0] == s[j]);
        assert forall|k: int| 0 <= k < s.skip(j + 1).len() implies {
            let c = #[trigger] s.skip(j + 1)[k];
            ('a' <= c && c <= 'z') || ('A' <= c && c <= 'Z') || ('0' <= c && c <= '9') || c == '_'
        } by {
            assert(s.skip(j + 1)[k] == s.skip(j)[k + 1]);
        }
        lemma_name_capture_all(s, j + 1, acc.push(s[j]));
        assert(acc.push(s[j]) + s.skip(j + 1) =~= acc + s.skip(j));
    } else {
        assert(acc + s.skip(j) =~= acc);
    }
}

/// `$NAME` takes the whole run of letters, digits and `_` after the `$` as
/// the variable's name: the word `$` followed by a name that `env` binds
/// to `v` expands to `v`, whatever the status, and a name that is unset
/// expands to nothing.
pub proof fn law_dollar_name(w: Seq<char>, last: i32, env: Seq<(Seq<char>, Seq<char>)>, outs: Seq<Seq<char>>)
    requires
        w.len() > 0,
        var_name(w),
    ensures
        lookup(env, w) matches Some(v) ==> expand_words(seq![seq!['$'] + w], last, env, outs) == seq![v],
        lookup(env, w) is None ==> expand_words(seq![seq!['$'] + w], last, env, outs) == seq![Seq::<char>::empty()],
{
    let s = seq!['$'] + w;
    assert(s[0] == '$');
    assert(tilde(s, lookup(env, "HOME"@)) == s);
    assert(s.skip(1) =~= w);
    lemma_name_capture_all(s, 1, seq![]);
    assert(seq![] + s.skip(1) =~= w);
    assert(s[1] == w[0]);
    assert(is_name_char(w[0]));
    assert(piece_at(s, 0) == (PieceS::Var(w), s.len() as int));
    assert(scan(s, s.len() as int) == Seq::<PieceS>::empty());
    let ps = scan(s, 0);
    assert(ps =~= seq![PieceS::Var(w)]);
    assert(word_pieces(s, env) == ps);
    assert(ps.drop_first() =~= Seq::<PieceS>::empty());
    assert(render(ps, last, env, outs) == var_value(env, w) + render(ps.drop_first(), last, env, outs));
    assert(render(ps, last, env, outs) =~= var_value(env, w));
    assert(seq![s].drop_first() =~= Seq::<Seq<char>>::empty());
    assert(seq![s][0] == s);
    let rest_outs = outs.skip(cmd_count(ps) as int);
    assert(expand_words(seq![s].drop_first(), last, env, rest_outs) == Seq::<Seq<char>>::empty());
    assert(expand_words(seq![s], last, env, outs) == seq![render(ps, last, env, outs)] + expand_words(
        seq![s].drop_first(),
        last,
        env,
        rest_outs,
    ));
    assert(expand_words(seq![s], last, env, outs) =~= seq![var_value(env, w)]);
}

/// `$?` expands to the last status in decimal.
pub proof fn law_dollar_status(last: i32, env: Seq<(Seq<char>, Seq<char>)>, outs: Seq<Seq<char>>)
    ensures
        expand_words(seq![seq!['$', '?']], last, env, outs) == seq![decimal(last as int)],
{
    let s = seq!['$', '?'];
    assert(tilde(s, lookup(env, "HOME"@)) == s);
    assert(piece_at(s, 0) == (PieceS::Status, 2int));
    assert(scan(s, 2) == Seq::<PieceS>::empty());
    let ps = scan(s, 0);
    assert(ps =~= seq![PieceS::Status]);
    assert(ps.drop_first() =~= Seq::<PieceS>::empty());
    assert(render(ps, last, env, outs) == decimal(last as int) + render(ps.drop_first(), last, env, outs));
    assert(render(ps, last, env, outs) =~= decimal(last as int));
    assert(seq![s].drop_first() =~= Seq::<Seq<char>>::empty());
    assert(seq![s][0] == s);
    let rest_outs = outs.skip(cmd_count(ps) as int);
    assert(expand_words(seq![s].drop_first(), last, env, rest_outs) == Seq::<Seq<char>>::empty());
    assert(expand_words(seq![s], last, env, outs) =~= seq![decimal(last as int)]);
}

proof fn lemma_until_all(s: Seq<char>, j: int, stop: char, acc: Seq<char>)
    requires
        0 <= j < s.len(),
        s[s.len() - 1] == stop,
        forall|k: int| j <= k < s.len() - 1 ==> #[trigger] s[k] != stop,
    ensures
        until_capture(s, j, stop, acc) == (acc + s.subrange(j, s.len() - 1), s.len() as int),
    decreases s.len() - j,
{
    if j < s.len() - 1 {
        lemma_until_all(s, j + 1, stop, acc.push(s[j]));
        assert(acc.push(s[j]) + s.subrange(j + 1, s.len() - 1) =~= acc + s.subrange(j, s.len() - 1));
    } else {
        assert(acc + s.subrange(j, s.len() - 1) =~= acc);
    }
}

/// `${NAME}` expands to the value `env` gives the name written between the
/// braces, and to nothing when it is unset.
pub proof fn law_braced_name(w: Seq<char>, last: i32, env: Seq<(Seq<char>, Seq<char>)>, outs: Seq<Seq<char>>)
    requires
        forall|k: int| 0 <= k < w.len() ==> #[trigger] w[k] != '}',
    ensures
        expand_words(seq![seq!['$', '{'] + w + seq!['}']], last, env, outs) == seq![
            match lookup(env, w) {
                Some(v) => v,
                None => Seq::<char>::empty(),
            },
        ],
{
    let s = seq!['$', '{'] + w + seq!['}'];
    assert(s[0] == '$' && s[1] == '{');
    assert(tilde(s, lookup(env, "HOME"@)) == s);
    assert forall|k: int| 2 <= k < s.len() - 1 implies #[trigger] s[k] != '}' by {
        assert(s[k] == w[k - 2]);
    }
    lemma_until_all(s, 2, '}', seq![]);
    assert(seq![] + s.subrange(2, s.len() - 1) =~= w);
    assert(piece_at(s, 0) == (PieceS::Var(w), s.len() as int));
    assert(scan(s, s.len() as int) == Seq::<PieceS>::empty());
    let ps = scan(s, 0);
    assert(ps =~= seq![PieceS::Var(w)]);
    assert(ps.drop_first() =~= Seq::<PieceS>::empty());
    assert(render(ps, last, env, outs) == var_value(env, w) + render(ps.drop_first(), last, env, outs));
    assert(render(ps, last, env, outs) =~= var_value(env, w));
    assert(seq![s].drop_first() =~= Seq::<Seq<char>>::empty());
    assert(seq![s][0] == s);
    let rest_outs = outs.skip(cmd_count(ps) as int);
    assert(expand_words(seq![s].drop_first(), last, env, rest_outs) == Seq::<Seq<char>>::empty());
    assert(expand_words(seq![s], last, env, outs) =~= seq![var_value(env, w)]);
}

} // verus!

verus! {

/// A piece of a word after scanning for expansions.
pub enum Piece {
    Text(char),
    Status,
    Var(String),
    Cmd(String),
}

pub open spec fn piece_s(p: Piece) -> PieceS {
    match p {
        Piece::Text(c) => PieceS::Text(c),
        Piece::Status => PieceS::Status,
        Piece::Var(n) => PieceS::Var(n@),
        Piece::Cmd(c) => PieceS::Cmd(c@),
    }
}

pub open spec fn pieces_s(ps: Seq<Piece>) -> Seq<PieceS> {
    ps.map_values(|p: Piece| piece_s(p))
}

pub open spec fn env_s(env: Seq<(String, String)>) -> Seq<(Seq<char>, Seq<char>)> {
    env.map_values(|p: (String, String)| (p.0@, p.1@))
}

fn paren_exec(s: &Vec<char>, j: usize) -> (r: (String, usize))
    requires
        j <= s.len(),
    ensures
        (r.0@, r.1 as int) == paren_capture(s@, j as int, 1, seq![]),
        j <= r.1 <= s.len(),
{
    let mut acc: Vec<char> = Vec::new();
    let mut depth: u128 = 1;
    let mut k = j;
    while k < s.len()
        invariant
            j <= k <= s.len(),
            1 <= depth <= k - j + 1,
            paren_capture(s@, k as int, depth as int, acc@) == paren_capture(s@, j as int, 1, seq![]),
        decreases s.len() - k,
    {
        let c = s[k];
        if c == '(' {
            depth = depth + 1;
            acc.push(c);
        } else if c == ')' {
            if depth - 1 == 0 {
                return (string_of(&acc), k + 1);
            }
            depth = depth - 1;
            acc.push(c);
        } else {
            acc.push(c);
        }
        k = k + 1;
    }
    (string_of(&acc), k)
}

fn until_exec(s: &Vec<char>, j: usize, stop: char) -> (r: (String, usize))
    requires
        j <= s.len(),
    ensures
        (r.0@, r.1 as int) == until_capture(s@, j as int, stop, seq![]),
        j <= r.1 <= s.len(),
{
    let mut acc: Vec<char> = Vec::new();
    let mut k = j;
    while k < s.len()
        invariant
            j <= k <= s.len(),
            until_capture(s@, k as int, stop, acc@) == until_capture(s@, j as int, stop, seq![]),
        decreases s.len() - k,
    {
        if s[k] == stop {
            return (string_of(&acc), k + 1);
        }
        acc.push(s[k]);
        k = k + 1;
    }
    (string_of(&acc), k)
}

fn name_exec(s: &Vec<char>, j: usize) -> (r: (String, usize))
    requires
        j <= s.len(),
    ensures
        (r.0@, r.1 as int) == name_capture(s@, j as int, seq![]),
        j <= r.1 <= s.len(),
{
    let mut acc: Vec<char> = Vec::new();
    let mut k = j;
    while k < s.len() && (('a' <= s[k] && s[k] <= 'z') || ('A' <= s[k] && s[k] <= 'Z') || ('0'
        <= s[k] && s[k] <= '9') || s[k] == '_')
        invariant
            j <= k <= s.len(),
            name_capture(s@, k as int, acc@) == name_capture(s@, j as int, seq![]),
        decreases s.len() - k,
    {
        acc.push(s[k]);
        k = k + 1;
    }
    (string_of(&acc), k)
}

proof fn lemma_pieces_push(ps: Seq<Piece>, p: Piece)
    ensures
        pieces_s(ps.push(p)) == pieces_s(ps).push(piece_s(p)),
{
    assert(ps.push(p).map_values(|p: Piece| piece_s(p)) =~= ps.map_values(|p: Piece| piece_s(p)).push(piece_s(p)));
}

fn scan_step(s: &Vec<char>, i: usize) -> (r: (Piece, usize))
    requires
        i < s.len(),
    ensures
        piece_at(s@, i as int) == (piece_s(r.0), r.1 as int),
        i < r.1 <= s.len(),
{
    let c = s[i];
    if c == '$' && i + 1 < s.len() {
        let n = s[i + 1];
        if n == '(' {
            let (inner, j) = paren_exec(s, i + 2);
            (Piece::Cmd(inner), j)
        } else if n == '?' {
            (Piece::Status, i + 2)
        } else if n == '{' {
            let (name, j) = until_exec(s, i + 2, '}');
            (Piece::Var(name), j)
        } else if ('a' <= n && n <= 'z') || ('A' <= n && n <= 'Z') || ('0' <= n && n <= '9')
            || n == '_' {
            let (name, j) = name_exec(s, i + 1);
            proof {
                lemma_name_bounds(s@, i + 2, seq![n]);
            }
            (Piece::Var(name), j)
        } else {
            (Piece::Text('$'), i + 1)
        }
    } else if c == '`' {
        let (inner, j) = until_exec(s, i + 1, '`');
        (Piece::Cmd(inner), j)
    } else {
        (Piece::Text(c), i + 1)
    }
}

/// Splits a word into literal characters and expansions (see `scan`).
pub fn scan_word(word: &str) -> (ps: Vec<Piece>)
    ensures
        pieces_s(ps@) == scan(word@, 0),
{
    let s = chars_of(word);
    let mut out: Vec<Piece> = Vec::new();
    let mut i: usize = 0;
    assert(pieces_s(out@) =~= seq![]);
    while i < s.len()
        invariant
            i <= s.len(),
            s@ == word@,
            pieces_s(out@) + scan(s@, i as int) == scan(s@, 0),
        decreases s.len() - i,
    {
        let ghost before = pieces_s(out@);
        let (p, j) = scan_step(&s, i);
        proof {
            lemma_pieces_push(out@, p);
        }
        out.push(p);
        i = j;
        assert(pieces_s(out@) + scan(s@, i as int) =~= before + (seq![piece_s(p)] + scan(s@, i as int)));
    }
    assert(pieces_s(out@) =~= pieces_s(out@) + scan(s@, i as int));
    out
}

/// The value of `name` in the environment list, if it is there.
pub fn lookup_exec(env: &Vec<(String, String)>, name: &str) -> (r: Option<String>)
    ensures
        match r {
            Some(v) => lookup(env_s(env@), name@) == Some(v@),
            None => lookup(env_s(env@), name@) is None,
        },
{
    let ghost es = env_s(env@);
    let mut i: usize = 0;
    assert(es.skip(0) =~= es);
    while i < env.len()
        invariant
            i <= env.len(),
            es == env_s(env@),
            lookup(es, name@) == lookup(es.skip(i as int), name@),
        decreases env.len() - i,
    {
        assert(es.skip(i as int)[0] == es[i as int]);
        assert(es.skip(i as int).drop_first() =~= es.skip(i + 1));
        if str_eq(env[i].0.as_str(), name) {
            return Some(env[i].1.clone());
        }
        i = i + 1;
    }
    None
}

/// Replaces a leading `~` (alone, or before `/`) by `home` when it is
/// known.
pub fn expand_tilde(token: &str, home: Option<&str>) -> (r: String)
    ensures
        r@ == tilde(token@, match home {
            Some(h) => Some(h@),
            None => None,
        }),
{
    let t = chars_of(token);
    if t.len() > 0 && t[0] == '~' && (t.len() == 1 || t[1] == '/') {
        match home {
            Some(h) => {
                let mut r = string_of_slice_from(h);
                let rest = crate::text::string_of_range(&t, 1, t.len());
                string_append(&mut r, rest.as_str());
                assert(t@.skip(1) =~= t@.subrange(1, t@.len() as int));
                return r;
            },
            None => {},
        }
    }
    string_of(&t)
}

fn string_of_slice_from(s: &str) -> (r: String)
    ensures
        r@ == s@,
{
    let v = chars_of(s);
    string_of(&v)
}

proof fn lemma_count_skip(ps: Seq<PieceS>, k: int)
    requires
        0 <= k < ps.len(),
    ensures
        ps.skip(k)[0] == ps[k],
        ps.skip(k).drop_first() == ps.skip(k + 1),
        cmd_count(ps.skip(k)) == (if ps[k] is Cmd { 1nat } else { 0nat }) + cmd_count(ps.skip(k + 1)),
{
    assert(ps.skip(k).drop_first() =~= ps.skip(k + 1));
}

fn render_exec(
    ps: &Vec<Piece>,
    last: i32,
    env: &Vec<(String, String)>,
    outs: &Vec<String>,
    start: usize,
) -> (r: (String, usize))
    requires
        start + cmd_count(pieces_s(ps@)) <= outs.len(),
    ensures
        r.0@ == render(pieces_s(ps@), last, env_s(env@), strings_of(outs@).skip(start as int)),
        r.1 == start + cmd_count(pieces_s(ps@)),
{
    let ghost pv = pieces_s(ps@);
    let ghost ev = env_s(env@);
    let ghost ov = strings_of(outs@);
    let mut out = String::new();
    let mut idx = start;
    let mut k: usize = 0;
    assert(pv.skip(0) =~= pv);
    assert(out@ + render(pv, last, ev, ov.skip(start as int)) =~= render(pv, last, ev, ov.skip(start as int)));
    while k < ps.len()
        invariant
            k <= ps.len(),
            pv == pieces_s(ps@),
            ev == env_s(env@),
            ov == strings_of(outs@),
            idx + cmd_count(pv.skip(k as int)) == start + cmd_count(pv),
            start + cmd_count(pv) <= outs.len(),
            out@ + render(pv.skip(k as int), last, ev, ov.skip(idx as int)) == render(
                pv,
                last,
                ev,
                ov.skip(start as int),
            ),
        decreases ps.len() - k,
    {
        proof {
            lemma_count_skip(pv, k as int);
        }
        let ghost before = out@;
        let ghost tail = render(pv.skip(k + 1), last, ev, ov.skip(idx as int));
        match &ps[k] {
            Piece::Text(c) => {
                string_push(&mut out, *c);
                assert(out@ + tail =~= before + (seq![*c] + tail));
            },
            Piece::Status => {
                let d = i32_to_string(last);
                string_append(&mut out, d.as_str());
                assert(out@ + tail =~= before + (decimal(last as int) + tail));
            },
            Piece::Var(n) => {
                match lookup_exec(env, n.as_str()) {
                    Some(v) => {
                        string_append(&mut out, v.as_str());
                    },
                    None => {},
                }
                assert(out@ + tail =~= before + (var_value(ev, n@) + tail));
            },
            Piece::Cmd(_) => {
                let o = chars_of(outs[idx].as_str());
                let n = o.len();
                let keep = if n > 0 && o[n - 1] == '\n' {
                    n - 1
                } else {
                    n
                };
                let t = crate::text::string_of_range(&o, 0, keep);
                assert(ov.skip(idx as int)[0] == outs@[idx as int]@);
                assert(t@ =~= trim_newline(ov.skip(idx as int)[0]));
                string_append(&mut out, t.as_str());
                assert(ov.skip(idx as int).drop_first() =~= ov.skip(idx + 1));
                let ghost tail2 = render(pv.skip(k + 1), last, ev, ov.skip(idx + 1));
                assert(out@ + tail2 =~= before + (trim_newline(ov.skip(idx as int)[0]) + tail2));
                idx = idx + 1;
            },
        }
        k = k + 1;
    }
    assert(pv.skip(k as int) =~= seq![]);
    assert(out@ =~= out@ + render(pv.skip(k as int), last, ev, ov.skip(idx as int)));
    (out, idx)
}

pub open spec fn strings_of(v: Seq<String>) -> Seq<Seq<char>> {
    v.map_values(|s: String| s@)
}

} // verus!

verus! {

fn word_pieces_exec(word: &String, env: &Vec<(String, String)>) -> (ps: Vec<Piece>)
    ensures
        pieces_s(ps@) == word_pieces(word@, env_s(env@)),
{
    let home = lookup_exec(env, "HOME");
    let t = match &home {
        Some(h) => expand_tilde(word.as_str(), Some(h.as_str())),
        None => expand_tilde(word.as_str(), None),
    };
    scan_word(t.as_str())
}

proof fn lemma_skip_step<T>(s: Seq<T>, k: int)
    requires
        0 <= k < s.len(),
    ensures
        s.skip(k)[0] == s[k],
        s.skip(k).drop_first() == s.skip(k + 1),
{
    assert(s.skip(k).drop_first() =~= s.skip(k + 1));
}

/// Expands every word: `~`, variables, `$?` and command substitutions,
/// whose outputs `outs` gives in order of appearance across the words (a
/// final newline of each output is dropped).
pub fn expand_tokens(
    tokens: &Vec<String>,
    last_exit_code: i32,
    env: &Vec<(String, String)>,
    outs: &Vec<String>,
) -> (r: Vec<String>)
    requires
        total_cmds(strings_of(tokens@), env_s(env@)) <= outs.len(),
    ensures
        strings_of(r@) == expand_words(
            strings_of(tokens@),
            last_exit_code,
            env_s(env@),
            strings_of(outs@),
        ),
{
    let ghost ws = strings_of(tokens@);
    let ghost ev = env_s(env@);
    let ghost ov = strings_of(outs@);
    let mut r: Vec<String> = Vec::new();
    let mut idx: usize = 0;
    let mut k: usize = 0;
    assert(ws.skip(0) =~= ws);
    assert(ov.skip(0) =~= ov);
    assert(strings_of(r@) =~= seq![]);
    while k < tokens.len()
        invariant
            k <= tokens.len(),
            ws == strings_of(tokens@),
            ev == env_s(env@),
            ov == strings_of(outs@),
            idx + total_cmds(ws.skip(k as int), ev) == total_cmds(ws, ev),
            total_cmds(ws, ev) <= outs.len(),
            strings_of(r@) + expand_words(ws.skip(k as int), last_exit_code, ev, ov.skip(idx as int))
                == expand_words(ws, last_exit_code, ev, ov),
        decreases tokens.len() - k,
    {
        proof {
            lemma_skip_step(ws, k as int);
        }
        assert(ws[k as int] == tokens@[k as int]@);
        let ps = word_pieces_exec(&tokens[k], env);
        let ghost c = cmd_count(pieces_s(ps@));
        let (text, idx2) = render_exec(&ps, last_exit_code, env, outs, idx);
        let ghost before = strings_of(r@);
        r.push(text);
        assert(strings_of(r@) =~= before.push(text@));
        assert(ov.skip(idx as int).skip(c as int) =~= ov.skip(idx2 as int));
        assert(strings_of(r@) + expand_words(ws.skip(k + 1), last_exit_code, ev, ov.skip(idx2 as int))
            =~= before + expand_words(ws.skip(k as int), last_exit_code, ev, ov.skip(idx as int)));
        idx = idx2;
        k = k + 1;
    }
    assert(ws.skip(k as int) =~= seq![]);
    assert(strings_of(r@) =~= strings_of(r@) + expand_words(ws.skip(k as int), last_exit_code, ev, ov.skip(idx as int)));
    r
}

/// The commands of all substitutions in `tokens` (after `~` expansion), in
/// order: the commands whose outputs `expand_tokens` needs.
pub fn command_substitutions(tokens: &Vec<String>, env: &Vec<(String, String)>) -> (r: Vec<String>)
    ensures
        strings_of(r@) == all_cmds(strings_of(tokens@), env_s(env@)),
{
    let ghost ws = strings_of(tokens@);
    let ghost ev = env_s(env@);
    let mut r: Vec<String> = Vec::new();
    let mut k: usize = 0;
    assert(ws.skip(0) =~= ws);
    assert(strings_of(r@) =~= seq![]);
    while k < tokens.len()
        invariant
            k <= tokens.len(),
            ws == strings_of(tokens@),
            ev == env_s(env@),
            strings_of(r@) + all_cmds(ws.skip(k as int), ev) == all_cmds(ws, ev),
        decreases tokens.len() - k,
    {
        proof {
            lemma_skip_step(ws, k as int);
        }
        assert(ws[k as int] == tokens@[k as int]@);
        let ps = word_pieces_exec(&tokens[k], env);
        let ghost pv = pieces_s(ps@);
        let ghost start = strings_of(r@);
        let mut j: usize = 0;
        assert(pv.skip(0) =~= pv);
        while j < ps.len()
            invariant
                j <= ps.len(),
                pv == pieces_s(ps@),
                strings_of(r@) + cmds_of(pv.skip(j as int)) == start + cmds_of(pv),
            decreases ps.len() - j,
        {
            proof {
                lemma_skip_step(pv, j as int);
            }
            let ghost before = strings_of(r@);
            match &ps[j] {
                Piece::Cmd(c) => {
                    r.push(c.clone());
                    assert(strings_of(r@) =~= before.push(c@));
                    assert(strings_of(r@) + cmds_of(pv.skip(j + 1)) =~= before + cmds_of(pv.skip(j as int)));
                },
                _ => {},
            }
            j = j + 1;
        }
        assert(pv.skip(j as int) =~= seq![]);
        assert(strings_of(r@) + all_cmds(ws.skip(k + 1), ev) =~= start + all_cmds(ws.skip(k as int), ev));
        k = k + 1;
    }
    assert(ws.skip(k as int) =~= seq![]);
    assert(strings_of(r@) =~= strings_of(r@) + all_cmds(ws.skip(k as int), ev));
    r
}

/// A word with no `$`, no backquote and no leading `~` expands to itself,
/// whatever the status, the environment and the substitution outputs.
pub proof fn law_plain_word_unchanged(
    t: Seq<char>,
    last: i32,
    env: Seq<(Seq<char>, Seq<char>)>,
    outs: Seq<Seq<char>>,
)
    requires
        forall|k: int| 0 <= k < t.len() ==> t[k] != '$' && t[k] != '`',
        !(t.len() > 0 && t[0] == '~'),
    ensures
        render(word_pieces(t, env), last, env, outs) == t,
        cmd_count(word_pieces(t, env)) == 0,
{
    lemma_plain_scan(t, 0, last, env, outs);
    assert(t.subrange(0, t.len() as int) =~= t);
}

proof fn lemma_plain_scan(t: Seq<char>, i: int, last: i32, env: Seq<(Seq<char>, Seq<char>)>, outs: Seq<Seq<char>>)
    requires
        0 <= i <= t.len(),
        forall|k: int| 0 <= k < t.len() ==> t[k] != '$' && t[k] != '`',
    ensures
        render(scan(t, i), last, env, outs) == t.subrange(i, t.len() as int),
        cmd_count(scan(t, i)) == 0,
    decreases t.len() - i,
{
    if i < t.len() {
        lemma_plain_scan(t, i + 1, last, env, outs);
        let ps = scan(t, i);
        assert(piece_at(t, i) == (PieceS::Text(t[i]), i + 1));
        assert(ps == seq![PieceS::Text(t[i])] + scan(t, i + 1));
        assert(ps.drop_first() =~= scan(t, i + 1));
        assert(t.subrange(i, t.len() as int) =~= seq![t[i]] + t.subrange(i + 1, t.len() as int));
    } else {
        assert(t.subrange(i, t.len() as int) =~= Seq::<char>::empty());
    }
}

} // verus!
