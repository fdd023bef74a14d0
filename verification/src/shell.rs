//! The read-evaluate loop's own decisions: history expansion, when a
//! multi-line construct is complete, the history entry of an input, the
//! `history` command line, here-documents, and background commands.
use vstd::prelude::*;
use crate::ast::{Token, TokenKind, TokenS, tokens_view, CompleteCommand, CommandNode};
use crate::text::{
    chars_of, string_of, string_of_range, string_push, string_append, str_eq, is_digit,
    parse_unsigned, parse_usize, lemma_parse_unsigned_nonneg, ws_words, split_whitespace,
    trim_ws, trim_whitespace, trim_end_ws, trim_end_whitespace,
};
use crate::tokenize::{spec_tokenize, tokenize_strings};
use crate::helper::{occurs_at};
use crate::commands::lines_view;

verus! {

// ── history expansion ──

/// The end of the run of digits that starts at `j`.
pub open spec fn digits_end(s: Seq<char>, j: int) -> int
    decreases s.len() - j,
{
    if 0 <= j < s.len() && is_digit(s[j]) {
        digits_end(s, j + 1)
    } else {
        j
    }
}

pub proof fn lemma_digits_end(s: Seq<char>, j: int)
    requires
        0 <= j <= s.len(),
    ensures
        j <= digits_end(s, j) <= s.len(),
        forall|k: int| j <= k < digits_end(s, j) ==> is_digit(#[trigger] s[k]),
    decreases s.len() - j,
{
    if j < s.len() && is_digit(s[j]) {
        lemma_digits_end(s, j + 1);
    }
}

/// The last entry of the history, or nothing.
pub open spec fn last_entry(h: Seq<Seq<char>>) -> Seq<char> {
    if h.len() > 0 {
        h.last()
    } else {
        seq![]
    }
}

/// The last word of the last entry, or nothing.
pub open spec fn last_word(h: Seq<Seq<char>>) -> Seq<char> {
    let ws = ws_words(last_entry(h));
    if h.len() > 0 && ws.len() > 0 {
        ws.last()
    } else {
        seq![]
    }
}

/// Entry number `num` (written in digits, counted from 1), or nothing.
pub open spec fn entry_numbered(h: Seq<Seq<char>>, num: Seq<char>) -> Seq<char> {
    match parse_unsigned(num) {
        Some(n) => if 0 < n <= h.len() {
            h[n - 1]
        } else {
            seq![]
        },
        None => seq![],
    }
}

/// The input from `i` on with its history references replaced: `!!` by
/// the last entry, `!$` by its last word, `!N` by entry `N`; `!?` is
/// dropped and any other `!` stays.
pub open spec fn expand_from(s: Seq<char>, i: int, h: Seq<Seq<char>>) -> Seq<char>
    decreases s.len() - i,
{
    if i < 0 || i >= s.len() {
        seq![]
    } else if s[i] != '!' {
        seq![s[i]] + expand_from(s, i + 1, h)
    } else if i + 1 >= s.len() {
        seq!['!']
    } else if s[i + 1] == '!' {
        last_entry(h) + expand_from(s, i + 2, h)
    } else if s[i + 1] == '$' {
        last_word(h) + expand_from(s, i + 2, h)
    } else if s[i + 1] == '?' {
        expand_from(s, i + 2, h)
    } else if is_digit(s[i + 1]) {
        let e = digits_end(s, i + 1);
        proof {
            lemma_digits_end(s, i + 1);
        }
        entry_numbered(h, s.subrange(i + 1, e)) + expand_from(s, e, h)
    } else {
        seq!['!'] + expand_from(s, i + 1, h)
    }
}

/// Replaces the history references of an input line (see `expand_from`).
pub fn expand_history(input: &str, history: &Vec<String>) -> (r: String)
    ensures
        r@ == expand_from(input@, 0, lines_view(history@)),
{
    let ghost h = lines_view(history@);
    let s = chars_of(input);
    let n = history.len();
    let mut result = String::new();
    let mut i: usize = 0;
    while i < s.len()
        invariant
            i <= s.len(),
            s@ == input@,
            h == lines_view(history@),
            h.len() == n,
            n == history.len(),
            expand_from(s@, 0, h) == result@ + expand_from(s@, i as int, h),
        decreases s.len() - i,
    {
        let ghost r0 = result@;
        let c = s[i];
        if c != '!' {
            string_push(&mut result, c);
            i = i + 1;
            assert(result@ =~= r0 + seq![c]);
        } else if i + 1 >= s.len() {
            string_push(&mut result, '!');
            i = i + 1;
            assert(expand_from(s@, i as int, h) =~= seq![]);
            assert(result@ =~= r0 + seq!['!']);
        } else if s[i + 1] == '!' {
            if n > 0 {
                assert(h.last() == history@[n - 1]@);
                string_append(&mut result, history[n - 1].as_str());
            }
            assert(result@ =~= r0 + last_entry(h));
            i = i + 2;
        } else if s[i + 1] == '$' {
            if n > 0 {
                assert(h.last() == history@[n - 1]@);
                let words = split_whitespace(history[n - 1].as_str());
                if words.len() > 0 {
                    assert(words@.map_values(|w: String| w@).last() == words@[words.len() - 1]@);
                    string_append(&mut result, words[words.len() - 1].as_str());
                }
            }
            assert(result@ =~= r0 + last_word(h));
            i = i + 2;
        } else if s[i + 1] == '?' {
            i = i + 2;
        } else if '0' <= s[i + 1] && s[i + 1] <= '9' {
            let mut e = i + 1;
            while e < s.len() && '0' <= s[e] && s[e] <= '9'
                invariant
                    i + 1 <= e <= s.len(),
                    digits_end(s@, e as int) == digits_end(s@, i + 1),
                decreases s.len() - e,
            {
                e = e + 1;
            }
            proof {
                lemma_digits_end(s@, i + 1);
            }
            let num = string_of_range(&s, i + 1, e);
            proof {
                lemma_parse_unsigned_nonneg(num@);
            }
            match parse_usize(num.as_str()) {
                Some(k) => {
                    if k > 0 && k <= n {
                        assert(h[k - 1] == history@[k - 1]@);
                        string_append(&mut result, history[k - 1].as_str());
                    }
                },
                None => {},
            }
            assert(result@ =~= r0 + entry_numbered(h, s@.subrange(i + 1, e as int)));
            i = e;
        } else {
            string_push(&mut result, '!');
            i = i + 1;
            assert(result@ =~= r0 + seq!['!']);
        }
        assert(result@ + expand_from(s@, i as int, h) =~= expand_from(s@, 0, h));
    }
    assert(expand_from(s@, i as int, h) =~= seq![]);
    result
}

/// A line without `!` is left as it is by history expansion.
pub proof fn law_expand_history_without_bang(s: Seq<char>, h: Seq<Seq<char>>, i: int)
    requires
        0 <= i <= s.len(),
        forall|k: int| 0 <= k < s.len() ==> s[k] != '!',
    ensures
        expand_from(s, i, h) == s.subrange(i, s.len() as int),
    decreases s.len() - i,
{
    if i < s.len() {
        law_expand_history_without_bang(s, h, i + 1);
        assert(s.subrange(i, s.len() as int) =~= seq![s[i]] + s.subrange(i + 1, s.len() as int));
    } else {
        assert(s.subrange(i, s.len() as int) =~= seq![]);
    }
}

// ── multi-line input ──

/// How much a word opens (+1: `if`, `for`, `while`, `case`) or closes
/// (-1: `fi`, `done`, `esac`) a construct.
pub open spec fn nesting(t: TokenS) -> int {
    if t.0 != TokenKind::Word {
        0
    } else if t.1 == "if"@ || t.1 == "for"@ || t.1 == "while"@ || t.1 == "case"@ {
        1
    } else if t.1 == "fi"@ || t.1 == "done"@ || t.1 == "esac"@ {
        -1
    } else {
        0
    }
}

/// The nesting depth at the end of the tokens.
pub open spec fn depth(ts: Seq<TokenS>) -> int
    decreases ts.len(),
{
    if ts.len() == 0 {
        0
    } else {
        depth(ts.drop_last()) + nesting(ts.last())
    }
}

proof fn lemma_depth_bound(ts: Seq<TokenS>)
    ensures
        -ts.len() <= depth(ts) <= ts.len(),
    decreases ts.len(),
{
    if ts.len() > 0 {
        lemma_depth_bound(ts.drop_last());
    }
}

/// Whether the input read so far closes every `if`, `for`, `while` and
/// `case` it opens, so that it can run.
pub fn input_is_complete(tokens: &[Token]) -> (r: bool)
    requires
        tokens@.len() <= i64::MAX,
    ensures
        r == (depth(tokens_view(tokens@)) <= 0),
{
    let ghost tv = tokens_view(tokens@);
    let mut d: i64 = 0;
    let mut i: usize = 0;
    while i < tokens.len()
        invariant
            i <= tokens.len(),
            tokens@.len() <= i64::MAX,
            tv == tokens_view(tokens@),
            tv.len() == tokens.len(),
            d == depth(tv.take(i as int)),
        decreases tokens.len() - i,
    {
        assert(tv.take(i + 1).drop_last() =~= tv.take(i as int));
        assert(tv[i as int] == tokens@[i as int]@);
        proof {
            lemma_depth_bound(tv.take(i as int));
        }
        if tokens[i].kind == TokenKind::Word {
            let v = tokens[i].value.as_str();
            if str_eq(v, "if") || str_eq(v, "for") || str_eq(v, "while") || str_eq(v, "case") {
                d = d + 1;
            } else if str_eq(v, "fi") || str_eq(v, "done") || str_eq(v, "esac") {
                d = d - 1;
            }
        }
        i = i + 1;
    }
    assert(tv.take(tokens.len() as int) =~= tv);
    d <= 0
}

/// The history entry of an input: its lines joined by `; `.
pub open spec fn history_entry_spec(s: Seq<char>) -> Seq<char>
    decreases s.len(),
{
    if s.len() == 0 {
        seq![]
    } else if s.last() == '\n' {
        history_entry_spec(s.drop_last()) + "; "@
    } else {
        history_entry_spec(s.drop_last()).push(s.last())
    }
}

/// The history entry of an input: every newline replaced by `; `.
pub fn history_entry(input: &str) -> (r: String)
    ensures
        r@ == history_entry_spec(input@),
{
    let s = chars_of(input);
    let mut r = String::new();
    let mut i: usize = 0;
    while i < s.len()
        invariant
            i <= s.len(),
            s@ == input@,
            r@ == history_entry_spec(s@.take(i as int)),
        decreases s.len() - i,
    {
        assert(s@.take(i + 1).drop_last() =~= s@.take(i as int));
        if s[i] == '\n' {
            string_append(&mut r, "; ");
        } else {
            string_push(&mut r, s[i]);
        }
        i = i + 1;
    }
    assert(s@.take(s.len() as int) =~= s@);
    r
}

/// A line that is a `history` command: the first token is the word
/// `history` and every token is a word.
pub open spec fn simple_history(ts: Seq<TokenS>) -> bool {
    &&& ts.len() >= 1
    &&& ts[0].0 == TokenKind::Word
    &&& ts[0].1 == "history"@
    &&& forall|k: int| 0 <= k < ts.len() ==> (#[trigger] ts[k]).0 == TokenKind::Word
}

/// Whether the line is a `history` command that the loop handles itself.
pub fn check_simple_history(tokens: &[Token]) -> (r: Option<bool>)
    ensures
        r == (if simple_history(tokens_view(tokens@)) {
            Some(true)
        } else {
            None
        }),
{
    let ghost tv = tokens_view(tokens@);
    if tokens.len() == 0 {
        return None;
    }
    assert(tv[0] == tokens@[0]@);
    if !(tokens[0].kind == TokenKind::Word && str_eq(tokens[0].value.as_str(), "history")) {
        return None;
    }
    let mut i: usize = 0;
    while i < tokens.len()
        invariant
            i <= tokens.len(),
            tv == tokens_view(tokens@),
            tv.len() == tokens.len(),
            forall|k: int| 0 <= k < i ==> (#[trigger] tv[k]).0 == TokenKind::Word,
        decreases tokens.len() - i,
    {
        assert(tv[i as int] == tokens@[i as int]@);
        if tokens[i].kind != TokenKind::Word {
            return None;
        }
        i = i + 1;
    }
    Some(true)
}

// ── here-documents ──

/// A word that starts a here-document: `<<`, or ending in `<<`.
pub open spec fn is_heredoc_op(t: Seq<char>) -> bool {
    t.len() >= 2 && t[t.len() - 2] == '<' && t.last() == '<'
}

/// The first word from `k` on that starts a here-document.
pub open spec fn heredoc_pos(ws: Seq<Seq<char>>, k: int) -> Option<int>
    decreases ws.len() - k,
{
    if k < 0 || k >= ws.len() {
        None
    } else if is_heredoc_op(ws[k]) {
        Some(k)
    } else {
        heredoc_pos(ws, k + 1)
    }
}

/// The delimiter of the here-document a command line starts: the word
/// after the first `<<`, when there is one.
pub open spec fn heredoc_delimiter_spec(command: Seq<char>) -> Option<Seq<char>> {
    let ws = spec_tokenize(command).map_values(|t: TokenS| t.1);
    match heredoc_pos(ws, 0) {
        Some(p) => if p + 1 < ws.len() {
            Some(ws[p + 1])
        } else {
            None
        },
        None => None,
    }
}

/// The delimiter of the here-document that a command line starts, if any.
pub fn heredoc_delimiter(command: &str) -> (r: Option<String>)
    ensures
        match r {
            Some(d) => heredoc_delimiter_spec(command@) == Some(d@),
            None => heredoc_delimiter_spec(command@) is None,
        },
{
    let words = tokenize_strings(command);
    let ghost ws = spec_tokenize(command@).map_values(|t: TokenS| t.1);
    assert(ws.len() == words@.len());
    let mut k: usize = 0;
    while k < words.len()
        invariant
            k <= words.len(),
            ws == spec_tokenize(command@).map_values(|t: TokenS| t.1),
            ws.len() == words@.len(),
            forall|j: int| 0 <= j < words@.len() ==> #[trigger] words@[j]@ == ws[j],
            heredoc_pos(ws, k as int) == heredoc_pos(ws, 0),
        decreases words.len() - k,
    {
        let v = chars_of(words[k].as_str());
        assert(v@ == ws[k as int]);
        let n = v.len();
        if n >= 2 && v[n - 2] == '<' && v[n - 1] == '<' {
            if k + 1 < words.len() {
                assert(words@[k + 1]@ == ws[k + 1]);
                return Some(words[k + 1].clone());
            }
            return None;
        }
        k = k + 1;
    }
    None
}

/// Whether an input line ends the here-document: trimmed, it is the
/// delimiter.
pub fn is_heredoc_end(line: &str, delimiter: &str) -> (r: bool)
    ensures
        r == (trim_ws(line@) == delimiter@),
{
    let t = trim_whitespace(line);
    str_eq(t.as_str(), delimiter)
}

/// The first place at or after `k` where `w` occurs in `s`.
pub open spec fn first_occurrence(s: Seq<char>, w: Seq<char>, k: int) -> Option<int>
    decreases s.len() + 1 - k,
{
    if k < 0 || k + w.len() > s.len() {
        None
    } else if occurs_at(s, w, k) {
        Some(k)
    } else {
        first_occurrence(s, w, k + 1)
    }
}

/// A command line with its here-document replaced by an input
/// redirection from `path`: the text before the first `<<`, without
/// trailing whitespace, then `< path`, then what follows the first
/// occurrence of the delimiter after the `<<`. Unchanged when either is
/// missing.
pub open spec fn heredoc_rewrite_spec(command: Seq<char>, delimiter: Seq<char>, path: Seq<char>) -> Seq<char> {
    match first_occurrence(command, "<<"@, 0) {
        Some(h) => match first_occurrence(command, delimiter, h) {
            Some(d) => trim_end_ws(command.take(h)) + "< "@ + path + command.skip(d + delimiter.len()),
            None => command,
        },
        None => command,
    }
}

proof fn lemma_first_occurrence(s: Seq<char>, w: Seq<char>, k: int)
    ensures
        first_occurrence(s, w, k) matches Some(j) ==> k <= j && occurs_at(s, w, j),
    decreases s.len() + 1 - k,
{
    if !(k < 0 || k + w.len() > s.len()) && !occurs_at(s, w, k) {
        lemma_first_occurrence(s, w, k + 1);
    }
}

fn find_chars(s: &Vec<char>, w: &Vec<char>, from: usize) -> (r: Option<usize>)
    ensures
        match r {
            Some(k) => first_occurrence(s@, w@, from as int) == Some(k as int),
            None => first_occurrence(s@, w@, from as int) is None,
        },
{
    if w.len() > s.len() {
        assert(first_occurrence(s@, w@, from as int) is None);
        return None;
    }
    let last = s.len() - w.len();
    let mut k = from;
    while k <= last
        invariant
            w.len() <= s.len(),
            last == s.len() - w.len(),
            from <= k,
            first_occurrence(s@, w@, from as int) == first_occurrence(s@, w@, k as int),
        decreases last + 1 - k,
    {
        let mut j: usize = 0;
        while j < w.len() && s[k + j] == w[j]
            invariant
                k + w.len() <= s.len(),
                j <= w.len(),
                forall|m: int| 0 <= m < j ==> s@[k + m] == w@[m],
            decreases w.len() - j,
        {
            j = j + 1;
        }
        if j == w.len() {
            assert(s@.subrange(k as int, k + w.len()) =~= w@);
            return Some(k);
        }
        assert(s@.subrange(k as int, k + w.len())[j as int] != w@[j as int]);
        k = k + 1;
    }
    None
}

/// Replaces the here-document of a command line by an input redirection
/// from the file that holds its lines (see `heredoc_rewrite_spec`).
pub fn heredoc_rewrite(command: &str, delimiter: &str, path: &str) -> (r: String)
    ensures
        r@ == heredoc_rewrite_spec(command@, delimiter@, path@),
{
    let c = chars_of(command);
    let op = chars_of("<<");
    let d = chars_of(delimiter);
    match find_chars(&c, &op, 0) {
        Some(h) => match find_chars(&c, &d, h) {
            Some(e) => {
                proof {
                    reveal_strlit("<<");
                    lemma_first_occurrence(c@, d@, h as int);
                }
                let before = string_of_range(&c, 0, h);
                assert(before@ == c@.take(h as int));
                let mut r = trim_end_whitespace(before.as_str());
                string_append(&mut r, "< ");
                string_append(&mut r, path);
                let after = string_of_range(&c, e + d.len(), c.len());
                assert(after@ =~= c@.skip(e + d.len()));
                string_append(&mut r, after.as_str());
                r
            },
            None => string_of(&c),
        },
        None => string_of(&c),
    }
}

// ── background commands ──

/// What runs in the background: the words of the first node, when it is a
/// single simple command that is not negated and has words.
pub fn background_target(cmd: &CompleteCommand) -> (r: Option<(String, Vec<String>)>)
    ensures
        match r {
            Some((program, args)) => {
                &&& cmd.and_or.nodes@.len() > 0
                &&& cmd.and_or.nodes@[0].command matches CommandNode::Pipeable(p)
                &&& p.commands@.len() == 1
                &&& !p.negated
                &&& p.commands@[0].words@.len() > 0
                &&& program@ == p.commands@[0].words@[0]@
                &&& lines_view(args@) == lines_view(p.commands@[0].words@).skip(1)
            },
            None => !(cmd.and_or.nodes@.len() > 0 && (cmd.and_or.nodes@[0].command matches CommandNode::Pipeable(p)
                && p.commands@.len() == 1 && !p.negated && p.commands@[0].words@.len() > 0)),
        },
{
    if cmd.and_or.nodes.len() == 0 {
        return None;
    }
    match &cmd.and_or.nodes[0].command {
        CommandNode::Pipeable(p) => {
            if p.commands.len() != 1 || p.negated {
                return None;
            }
            let words = &p.commands[0].words;
            if words.len() == 0 {
                return None;
            }
            let ghost wv = lines_view(words@);
            let mut args: Vec<String> = Vec::new();
            let mut k: usize = 1;
            assert(lines_view(args@) =~= wv.subrange(1, 1));
            while k < words.len()
                invariant
                    1 <= k <= words.len(),
                    wv == lines_view(words@),
                    wv.len() == words.len(),
                    lines_view(args@) == wv.subrange(1, k as int),
                decreases words.len() - k,
            {
                let ghost before = args@;
                args.push(words[k].clone());
                assert(lines_view(args@) =~= lines_view(before).push(wv[k as int]));
                assert(wv.subrange(1, k + 1) =~= wv.subrange(1, k as int).push(wv[k as int]));
                k = k + 1;
            }
            assert(wv.skip(1) =~= wv.subrange(1, wv.len() as int));
            Some((words[0].clone(), args))
        },
        CommandNode::Compound(_) => None,
    }
}

} // verus!
