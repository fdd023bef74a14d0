//! Shell pattern matching (`*`, `?`, `[...]`, `\`) and the choice of
//! which words a glob expands to.
use vstd::prelude::*;
use crate::text::{chars_of, string_of_range, string_append, string_push};
use crate::tab::{last_slash_before, join_path, entries_view};

verus! {

/// Scans the inside of a bracket expression from position `i` up to the
/// closing `]` (or the end of the pattern). Returns whether `c` is one of
/// the listed characters or lies in one of the `a-z` ranges, and where the
/// scan stopped.
pub open spec fn bracket_scan(p: Seq<char>, i: int, c: char) -> (bool, int)
    decreases p.len() - i,
{
    if i < 0 || i >= p.len() || p[i] == ']' {
        (false, i)
    } else if i + 2 < p.len() && p[i + 1] == '-' && p[i + 2] != ']' {
        let (m, e) = bracket_scan(p, i + 3, c);
        ((p[i] <= c && c <= p[i + 2]) || m, e)
    } else {
        let (m, e) = bracket_scan(p, i + 1, c);
        (p[i] == c || m, e)
    }
}

/// Where the contents of the bracket expression opened at `pi` start: a
/// leading `!` is skipped.
pub open spec fn bracket_first(p: Seq<char>, pi: int) -> int {
    if pi + 1 < p.len() && p[pi + 1] == '!' {
        pi + 2
    } else {
        pi + 1
    }
}

/// Whether `c` is matched by the bracket expression opened at `pi`.
pub open spec fn bracket_matches(p: Seq<char>, pi: int, c: char) -> bool {
    bracket_scan(p, bracket_first(p, pi), c).0
}

/// The position just after the bracket expression opened at `pi` (after
/// its `]`, when there is one).
pub open spec fn bracket_end(p: Seq<char>, pi: int) -> int {
    let e = bracket_scan(p, bracket_first(p, pi), ' ').1;
    if 0 <= e < p.len() && p[e] == ']' {
        e + 1
    } else {
        e
    }
}

pub proof fn lemma_bracket_scan_end(p: Seq<char>, i: int, c: char, d: char)
    requires
        0 <= i,
    ensures
        bracket_scan(p, i, c).1 >= i,
        bracket_scan(p, i, c).1 == bracket_scan(p, i, d).1,
        bracket_scan(p, i, c).1 <= p.len() || bracket_scan(p, i, c).1 == i,
    decreases p.len() - i,
{
    if i >= p.len() || p[i] == ']' {
    } else if i + 2 < p.len() && p[i + 1] == '-' && p[i + 2] != ']' {
        lemma_bracket_scan_end(p, i + 3, c, d);
    } else {
        lemma_bracket_scan_end(p, i + 1, c, d);
    }
}

/// Whether `t[ti..]` matches `p[pi..]`.
pub open spec fn glob_match_from(p: Seq<char>, t: Seq<char>, pi: int, ti: int) -> bool
    decreases p.len() - pi, t.len() + 2,
{
    if pi < 0 || ti < 0 || pi > p.len() || ti > t.len() {
        false
    } else if pi == p.len() && ti == t.len() {
        true
    } else if pi >= p.len() {
        false
    } else if p[pi] == '*' {
        star_from(p, t, pi, ti)
    } else if ti >= t.len() {
        false
    } else if p[pi] == '?' {
        glob_match_from(p, t, pi + 1, ti + 1)
    } else if p[pi] == '[' {
        proof {
            lemma_bracket_scan_end(p, bracket_first(p, pi), ' ', ' ');
        }
        bracket_matches(p, pi, t[ti]) && glob_match_from(p, t, bracket_end(p, pi), ti + 1)
    } else if p[pi] == '\\' && pi + 1 < p.len() {
        p[pi + 1] == t[ti] && glob_match_from(p, t, pi + 2, ti + 1)
    } else {
        p[pi] == t[ti] && glob_match_from(p, t, pi + 1, ti + 1)
    }
}

/// Whether the `*` at `pi` can absorb `t[ti..k]` for some `k >= ti` after
/// which the rest of the pattern matches.
pub open spec fn star_from(p: Seq<char>, t: Seq<char>, pi: int, k: int) -> bool
    decreases p.len() - pi, t.len() + 1 - k,
{
    if k < 0 || k > t.len() || pi < 0 || pi >= p.len() {
        false
    } else {
        glob_match_from(p, t, pi + 1, k) || star_from(p, t, pi, k + 1)
    }
}

/// Whether the whole of `t` matches the whole of pattern `p`.
pub open spec fn glob_matches(p: Seq<char>, t: Seq<char>) -> bool {
    glob_match_from(p, t, 0, 0)
}

fn bracket_exec(p: &Vec<char>, pi: usize, c: char) -> (r: (bool, usize))
    requires
        pi < p.len(),
        p@[pi as int] == '[',
    ensures
        r.0 == bracket_matches(p@, pi as int, c),
        r.1 as int == bracket_end(p@, pi as int),
        r.1 > pi,
        r.1 <= p.len(),
{
    let mut i = pi + 1;
    if i < p.len() && p[i] == '!' {
        i = i + 1;
    }
    let ghost first = i as int;
    assert(first == bracket_first(p@, pi as int));
    let mut found = false;
    while i < p.len() && p[i] != ']'
        invariant
            first <= i <= p.len(),
            first > pi,
            (found || bracket_scan(p@, i as int, c).0) == bracket_scan(p@, first, c).0,
            bracket_scan(p@, i as int, c).1 == bracket_scan(p@, first, c).1,
        decreases p.len() - i,
    {
        if i + 1 < p.len() && i + 2 < p.len() && p[i + 1] == '-' && p[i + 2] != ']' {
            if p[i] <= c && c <= p[i + 2] {
                found = true;
            }
            i = i + 3;
        } else {
            if p[i] == c {
                found = true;
            }
            i = i + 1;
        }
    }
    proof {
        lemma_bracket_scan_end(p@, first, c, ' ');
    }
    if i < p.len() && p[i] == ']' {
        i = i + 1;
    }
    (found, i)
}

fn match_from(p: &Vec<char>, t: &Vec<char>, pi: usize, ti: usize) -> (r: bool)
    requires
        pi <= p.len(),
        ti <= t.len(),
    ensures
        r == glob_match_from(p@, t@, pi as int, ti as int),
    decreases p.len() - pi,
{
    if pi == p.len() && ti == t.len() {
        return true;
    }
    if pi >= p.len() {
        return false;
    }
    let pc = p[pi];
    if pc == '*' {
        let mut k = ti;
        loop
            invariant
                ti <= k <= t.len(),
                pi < p.len(),
                p@[pi as int] == '*',
                star_from(p@, t@, pi as int, ti as int) == star_from(p@, t@, pi as int, k as int),
            decreases t.len() - k,
        {
            if match_from(p, t, pi + 1, k) {
                return true;
            }
            if k == t.len() {
                assert(!star_from(p@, t@, pi as int, k as int + 1));
                return false;
            }
            k = k + 1;
        }
    } else if ti >= t.len() {
        false
    } else if pc == '?' {
        match_from(p, t, pi + 1, ti + 1)
    } else if pc == '[' {
        let (hit, next) = bracket_exec(p, pi, t[ti]);
        if hit {
            match_from(p, t, next, ti + 1)
        } else {
            false
        }
    } else if pc == '\\' && pi + 1 < p.len() {
        if p[pi + 1] == t[ti] {
            match_from(p, t, pi + 2, ti + 1)
        } else {
            false
        }
    } else if pc == t[ti] {
        match_from(p, t, pi + 1, ti + 1)
    } else {
        false
    }
}

/// Whether `text` matches the shell pattern `pattern`: `*` matches any run
/// of characters, `?` any one character, `[...]` one of the listed
/// characters or ranges, and `\` makes the next character literal.
pub fn glob_match(pattern: &str, text: &str) -> (r: bool)
    ensures
        r == glob_matches(pattern@, text@),
{
    let p = chars_of(pattern);
    let t = chars_of(text);
    match_from(&p, &t, 0, 0)
}

/// No wildcard, bracket or escape character occurs in `p`.
pub open spec fn is_literal_pattern(p: Seq<char>) -> bool {
    forall|k: int|
        0 <= k < p.len() ==> #[trigger] p[k] != '*' && p[k] != '?' && p[k] != '[' && p[k] != '\\'
}

proof fn lemma_literal_from(p: Seq<char>, t: Seq<char>, i: int)
    requires
        is_literal_pattern(p),
        0 <= i <= p.len(),
        i <= t.len(),
    ensures
        glob_match_from(p, t, i, i) <==> p.subrange(i, p.len() as int) == t.subrange(
            i,
            t.len() as int,
        ),
    decreases p.len() - i,
{
    let ps = p.subrange(i, p.len() as int);
    let ts = t.subrange(i, t.len() as int);
    if i == p.len() {
        if i < t.len() {
            assert(ts.len() > 0);
        } else {
            assert(ps =~= ts);
        }
    } else if i == t.len() {
        assert(ps.len() > 0);
        assert(ps != ts);
    } else {
        assert(p[i] != '*' && p[i] != '?' && p[i] != '[' && p[i] != '\\');
        lemma_literal_from(p, t, i + 1);
        if ps == ts {
            assert(ps[0] == ts[0]);
            assert(p.subrange(i + 1, p.len() as int) =~= ps.subrange(1, ps.len() as int));
            assert(t.subrange(i + 1, t.len() as int) =~= ts.subrange(1, ts.len() as int));
        }
        if p[i] == t[i] && p.subrange(i + 1, p.len() as int) == t.subrange(i + 1, t.len() as int) {
            assert(ps =~= seq![p[i]] + p.subrange(i + 1, p.len() as int));
            assert(ts =~= seq![t[i]] + t.subrange(i + 1, t.len() as int));
        }
    }
}

/// A pattern with no wildcard, bracket or backslash matches exactly the
/// text equal to it.
pub proof fn law_literal_pattern_matches_itself_only(p: Seq<char>, t: Seq<char>)
    requires
        is_literal_pattern(p),
    ensures
        glob_matches(p, t) <==> p == t,
{
    if t.len() < p.len() {
        // the text runs out before the pattern does
        lemma_literal_short(p, t, 0);
        assert(p != t);
    } else {
        lemma_literal_from(p, t, 0);
        assert(p.subrange(0, p.len() as int) =~= p);
        assert(t.subrange(0, t.len() as int) =~= t);
    }
}

proof fn lemma_literal_short(p: Seq<char>, t: Seq<char>, i: int)
    requires
        is_literal_pattern(p),
        0 <= i <= t.len(),
        t.len() < p.len(),
    ensures
        !glob_match_from(p, t, i, i),
    decreases t.len() - i,
{
    if i < t.len() {
        assert(p[i] != '*' && p[i] != '?' && p[i] != '[' && p[i] != '\\');
        lemma_literal_short(p, t, i + 1);
    }
}

proof fn lemma_star_rest(t: Seq<char>, k: int)
    requires
        0 <= k <= t.len(),
    ensures
        star_from(seq!['*'], t, 0, k),
    decreases t.len() - k,
{
    if k < t.len() {
        lemma_star_rest(t, k + 1);
    } else {
        assert(glob_match_from(seq!['*'], t, 1, k));
    }
}

/// The pattern `*` matches every text, the empty one included.
pub proof fn law_star_matches_everything(t: Seq<char>)
    ensures
        glob_matches(seq!['*'], t),
{
    lemma_star_rest(t, 0);
}

/// A `?` matches exactly the one-character texts.
pub proof fn law_question_mark_matches_one_char(t: Seq<char>)
    ensures
        glob_matches(seq!['?'], t) <==> t.len() == 1,
{
    if t.len() >= 1 {
        assert(glob_match_from(seq!['?'], t, 1, 1) <==> t.len() == 1);
    }
}

/// Whether a word holds a glob metacharacter (`*`, `?` or `[`).
pub open spec fn has_glob_chars(s: Seq<char>) -> bool {
    s.contains('*') || s.contains('?') || s.contains('[')
}

pub fn contains_glob_chars(s: &str) -> (r: bool)
    ensures
        r == has_glob_chars(s@),
{
    let v = chars_of(s);
    let mut i: usize = 0;
    while i < v.len()
        invariant
            i <= v.len(),
            v@ == s@,
            forall|k: int| 0 <= k < i ==> v@[k] != '*' && v@[k] != '?' && v@[k] != '[',
        decreases v.len() - i,
    {
        if v[i] == '*' || v[i] == '?' || v[i] == '[' {
            assert(s@[i as int] == v[i as int]);
            return true;
        }
        i = i + 1;
    }
    false
}

/// The entry names that match `pattern`, in their original order.
pub open spec fn matching_names(pattern: Seq<char>, names: Seq<Seq<char>>) -> Seq<Seq<char>> {
    names.filter(|n: Seq<char>| glob_matches(pattern, n))
}

/// Keeps the names of a directory listing that `pattern` matches.
pub fn select_matches(pattern: &str, names: &Vec<String>) -> (r: Vec<String>)
    ensures
        r@.map_values(|s: String| s@) == matching_names(
            pattern@,
            names@.map_values(|s: String| s@),
        ),
{
    let mut r: Vec<String> = Vec::new();
    let ghost nv = names@.map_values(|s: String| s@);
    for i in 0..names.len()
        invariant
            nv == names@.map_values(|s: String| s@),
            r@.map_values(|s: String| s@) == matching_names(pattern@, nv.take(i as int)),
    {
        reveal_with_fuel(Seq::<_>::filter, 1);
        assert(nv.take(i + 1).drop_last() =~= nv.take(i as int));
        if glob_match(pattern, names[i].as_str()) {
            r.push(names[i].clone());
            assert(r@.map_values(|s: String| s@) =~= matching_names(pattern@, nv.take(i as int)).push(names@[i as int]@));
        }
    }
    assert(nv.take(names.len() as int) =~= nv);
    r
}

/// The result of glob expansion for one word: its expansion when the word
/// holds a glob metacharacter and something matched, the word itself
/// otherwise.
pub open spec fn expand_one(word: Seq<char>, found: Seq<Seq<char>>) -> Seq<Seq<char>> {
    if has_glob_chars(word) && found.len() > 0 {
        found
    } else {
        seq![word]
    }
}

/// The result of glob expansion for the words `ws[..n]`, given what each
/// word's pattern matched on disk.
pub open spec fn expand_all(ws: Seq<Seq<char>>, found: Seq<Seq<Seq<char>>>, n: int) -> Seq<Seq<char>>
    decreases n,
{
    if n <= 0 {
        seq![]
    } else {
        expand_all(ws, found, n - 1) + expand_one(ws[n - 1], found[n - 1])
    }
}

/// Replaces each word that holds a glob metacharacter by the paths it
/// matched (`found[i]` for word `i`); a word that matched nothing, or has
/// no metacharacter, stays as it is.
pub fn expand_globs(tokens: &Vec<String>, found: &Vec<Vec<String>>) -> (r: Vec<String>)
    requires
        found.len() == tokens.len(),
    ensures
        r@.map_values(|s: String| s@) == expand_all(
            tokens@.map_values(|s: String| s@),
            found@.map_values(|v: Vec<String>| v@.map_values(|s: String| s@)),
            tokens.len() as int,
        ),
{
    let ghost ws = tokens@.map_values(|s: String| s@);
    let ghost fs = found@.map_values(|v: Vec<String>| v@.map_values(|s: String| s@));
    let mut r: Vec<String> = Vec::new();
    for i in 0..tokens.len()
        invariant
            found.len() == tokens.len(),
            ws == tokens@.map_values(|s: String| s@),
            fs == found@.map_values(|v: Vec<String>| v@.map_values(|s: String| s@)),
            r@.map_values(|s: String| s@) == expand_all(ws, fs, i as int),
    {
        let ghost before = r@.map_values(|s: String| s@);
        let tok = &tokens[i];
        if contains_glob_chars(tok.as_str()) && found[i].len() > 0 {
            let f = &found[i];
            for j in 0..f.len()
                invariant
                    r@.map_values(|s: String| s@) == before + f@.map_values(|s: String| s@).take(j as int),
            {
                let ghost prev = r@;
                r.push(f[j].clone());
                assert(r@.map_values(|s: String| s@) =~= prev.map_values(|s: String| s@).push(f@[j as int]@));
                assert(f@.map_values(|s: String| s@).take(j + 1) =~= f@.map_values(|s: String| s@).take(j as int).push(f@[j as int]@));
                assert(r@.map_values(|s: String| s@) =~= before + f@.map_values(|s: String| s@).take(j + 1));
            }
            assert(f@.map_values(|s: String| s@).take(f.len() as int) =~= f@.map_values(|s: String| s@));
            assert(fs[i as int] == f@.map_values(|s: String| s@));
        } else {
            r.push(tok.clone());
            assert(r@.map_values(|s: String| s@) =~= before + seq![tok@]);
        }
        assert(ws[i as int] == tok@);
    }
    r
}

} // verus!

verus! {

// ── which directory a glob reads ──

/// The directory a glob pattern reads and the pattern for the names in
/// it: the pattern splits at its last `/` (the root for a leading one);
/// with no `/` the names of the working directory `.` are matched.
pub open spec fn glob_dir_and_pattern(p: Seq<char>) -> (Seq<char>, Seq<char>) {
    let k = last_slash_before(p, p.len() as int);
    if k < 0 {
        (seq!['.'], p)
    } else if k == 0 {
        (seq!['/'], p.skip(1))
    } else {
        (p.take(k), p.skip(k + 1))
    }
}

/// How a matched entry is written: the bare name for a pattern without a
/// `/`, otherwise joined to the directory; a directory gets a `/` after it.
pub open spec fn glob_path(p: Seq<char>, name: Seq<char>, is_dir: bool) -> Seq<char> {
    let dir = glob_dir_and_pattern(p).0;
    let base = if last_slash_before(p, p.len() as int) < 0 {
        name
    } else {
        join_path(dir, name)
    };
    if is_dir {
        base.push('/')
    } else {
        base
    }
}

/// The paths a pattern matches, given the listing of its directory (each
/// entry's name and whether it is a directory), in listing order.
pub open spec fn spec_glob_paths(p: Seq<char>, entries: Seq<(Seq<char>, bool)>) -> Seq<Seq<char>>
    decreases entries.len(),
{
    if entries.len() == 0 {
        seq![]
    } else {
        let rest = spec_glob_paths(p, entries.drop_last());
        let x = entries.last();
        if glob_matches(glob_dir_and_pattern(p).1, x.0) {
            rest.push(glob_path(p, x.0, x.1))
        } else {
            rest
        }
    }
}

/// The directory that a glob pattern reads, and the pattern for the names
/// in it.
pub fn glob_target(pattern: &str) -> (r: (String, String))
    ensures
        (r.0@, r.1@) == glob_dir_and_pattern(pattern@),
{
    let p = chars_of(pattern);
    let n = p.len();
    let mut k: usize = n;
    while k > 0 && p[k - 1] != '/'
        invariant
            k <= n,
            n == p@.len(),
            last_slash_before(p@, k as int) == last_slash_before(p@, n as int),
        decreases k,
    {
        k = k - 1;
    }
    if k == 0 {
        let d = ".".to_owned();
        proof {
            reveal_strlit(".");
        }
        assert(d@ =~= seq!['.']);
        (d, string_of_range(&p, 0, n))
    } else if k == 1 {
        let d = "/".to_owned();
        proof {
            reveal_strlit("/");
        }
        assert(d@ =~= seq!['/']);
        let rest = string_of_range(&p, 1, n);
        assert(rest@ =~= p@.skip(1));
        (d, rest)
    } else {
        let dir = string_of_range(&p, 0, k - 1);
        let rest = string_of_range(&p, k, n);
        assert(dir@ =~= p@.take(k - 1));
        assert(rest@ =~= p@.skip(k as int));
        (dir, rest)
    }
}

/// The paths that `pattern` matches, `entries` being the listing (name,
/// is a directory) of the directory that `glob_target` chooses.
pub fn glob_paths(pattern: &str, entries: &Vec<(String, bool)>) -> (r: Vec<String>)
    ensures
        r@.map_values(|s: String| s@) == spec_glob_paths(pattern@, entries_view(entries@)),
{
    let (dir, file_pattern) = glob_target(pattern);
    let p = chars_of(pattern);
    let d = chars_of(dir.as_str());
    let mut has_slash = false;
    let mut j: usize = 0;
    while j < p.len()
        invariant
            j <= p.len(),
            p@ == pattern@,
            has_slash == (last_slash_before(p@, j as int) >= 0),
        decreases p.len() - j,
    {
        if p[j] == '/' {
            has_slash = true;
        }
        proof {
            lemma_last_slash_step(p@, j as int);
        }
        j = j + 1;
    }
    let ghost ev = entries_view(entries@);
    let mut r: Vec<String> = Vec::new();
    let mut i: usize = 0;
    assert(ev.take(0) =~= Seq::<(Seq<char>, bool)>::empty());
    assert(r@.map_values(|s: String| s@) =~= Seq::<Seq<char>>::empty());
    while i < entries.len()
        invariant
            i <= entries.len(),
            ev == entries_view(entries@),
            ev.len() == entries.len(),
            p@ == pattern@,
            d@ == dir@,
            (dir@, file_pattern@) == glob_dir_and_pattern(pattern@),
            has_slash == (last_slash_before(p@, p@.len() as int) >= 0),
            r@.map_values(|s: String| s@) == spec_glob_paths(pattern@, ev.take(i as int)),
        decreases entries.len() - i,
    {
        let name = entries[i].0.as_str();
        let is_dir = entries[i].1;
        assert(ev.take(i + 1).drop_last() =~= ev.take(i as int));
        assert(ev.take(i + 1).last() == (name@, is_dir));
        if glob_match(file_pattern.as_str(), name) {
            let mut s = String::new();
            if has_slash {
                string_append(&mut s, dir.as_str());
                if !(d.len() > 0 && d[d.len() - 1] == '/') {
                    string_push(&mut s, '/');
                }
            }
            string_append(&mut s, name);
            if is_dir {
                string_push(&mut s, '/');
            }
            assert(s@ =~= glob_path(pattern@, name@, is_dir));
            let ghost before = r@;
            r.push(s);
            assert(r@.map_values(|s: String| s@) =~= before.map_values(|s: String| s@).push(
                glob_path(pattern@, name@, is_dir),
            ));
        }
        i = i + 1;
    }
    assert(ev.take(entries.len() as int) =~= ev);
    r
}

proof fn lemma_last_slash_step(s: Seq<char>, j: int)
    requires
        0 <= j < s.len(),
    ensures
        (last_slash_before(s, j + 1) >= 0) == (last_slash_before(s, j) >= 0 || s[j] == '/'),
    decreases j,
{
    if s[j] != '/' && j > 0 {
        lemma_last_slash_nonneg(s, j);
    }
}

proof fn lemma_last_slash_nonneg(s: Seq<char>, n: int)
    ensures
        last_slash_before(s, n) >= -1,
    decreases n,
{
    if n > 0 && s[n - 1] != '/' {
        lemma_last_slash_nonneg(s, n - 1);
    }
}

/// Glob expansion over a list of words never drops a word (each gives at
/// least one), and leaves a list in which no word has a metacharacter as
/// it is, whatever the listings held.
pub proof fn law_expand_all(ws: Seq<Seq<char>>, found: Seq<Seq<Seq<char>>>, n: int)
    requires
        0 <= n <= ws.len(),
        n <= found.len(),
    ensures
        expand_all(ws, found, n).len() >= n,
        (forall|i: int| 0 <= i < n ==> !has_glob_chars(#[trigger] ws[i])) ==> expand_all(ws, found, n)
            == ws.take(n),
    decreases n,
{
    if n > 0 {
        law_expand_all(ws, found, n - 1);
        if forall|i: int| 0 <= i < n ==> !has_glob_chars(#[trigger] ws[i]) {
            assert(!has_glob_chars(ws[n - 1]));
            assert(ws.take(n) =~= ws.take(n - 1) + seq![ws[n - 1]]);
        }
    } else {
        assert(ws.take(0) =~= Seq::<Seq<char>>::empty());
    }
}

/// A bracket range `[lo-hi]` matches exactly the one-character texts whose
/// character lies between `lo` and `hi`, both ends included (`lo` being
/// neither `!` nor `]`, and `hi` not `]`).
pub proof fn law_bracket_range(lo: char, hi: char, c: char)
    requires
        lo != '!',
        lo != ']',
        hi != ']',
    ensures
        glob_matches(seq!['[', lo, '-', hi, ']'], seq![c]) <==> (lo <= c && c <= hi),
{
    let p = seq!['[', lo, '-', hi, ']'];
    let t = seq![c];
    assert(bracket_first(p, 0) == 1);
    assert(bracket_scan(p, 4, c) == (false, 4int));
    assert(bracket_scan(p, 1, c) == ((lo <= c && c <= hi), 4int));
    assert(bracket_scan(p, 4, ' ') == (false, 4int));
    assert(bracket_scan(p, 1, ' ').1 == 4);
    assert(bracket_end(p, 0) == 5);
    assert(glob_match_from(p, t, 5, 1));
    assert(glob_match_from(p, t, 0, 0) == (bracket_matches(p, 0, c) && glob_match_from(p, t, 5, 1)));
}

/// A bracket list `[ab]` matches exactly the one-character texts `a` and
/// `b` (`a` being neither `!` nor `]`, and `b` neither `]` nor `-`).
pub proof fn law_bracket_list(a: char, b: char, c: char)
    requires
        a != '!',
        a != ']',
        b != ']',
        b != '-',
    ensures
        glob_matches(seq!['[', a, b, ']'], seq![c]) <==> (c == a || c == b),
{
    let p = seq!['[', a, b, ']'];
    let t = seq![c];
    assert(bracket_first(p, 0) == 1);
    assert(bracket_scan(p, 3, c) == (false, 3int));
    assert(bracket_scan(p, 2, c) == (b == c, 3int));
    assert(bracket_scan(p, 1, c) == (a == c || b == c, 3int));
    assert(bracket_scan(p, 3, ' ') == (false, 3int));
    assert(bracket_scan(p, 2, ' ').1 == 3);
    assert(bracket_scan(p, 1, ' ').1 == 3);
    assert(bracket_end(p, 0) == 4);
    assert(glob_match_from(p, t, 4, 1));
    assert(glob_match_from(p, t, 0, 0) == (bracket_matches(p, 0, c) && glob_match_from(p, t, 4, 1)));
}

} // verus!
