//! Completion candidates for command names: the builtins, the commands
//! found on the search path and the aliases, sorted by replacement text.
use vstd::prelude::*;
use crate::text::{
    chars_of, string_append, string_push, trim_whitespace, trim_ws, str_eq, is_prefix, starts_with_chars,
    lower_text, to_lowercase, upper_char, char_is_uppercase, string_of, string_of_range,
    is_white_space, ws_lead, ws_trail,
};
use crate::eval::builtin_names;

verus! {

/// One completion: the text shown in the list, the text put into the
/// line, and a short description.
#[derive(Clone, Debug)]
pub struct CompletionCandidate {
    pub display: String,
    pub replacement: String,
    pub description: String,
}

/// A candidate as a value: display, replacement, description.
pub type CandS = (Seq<char>, Seq<char>, Seq<char>);

impl View for CompletionCandidate {
    type V = CandS;

    open spec fn view(&self) -> CandS {
        (self.display@, self.replacement@, self.description@)
    }
}

impl CompletionCandidate {
    /// A copy with the same texts.
    pub fn duplicate(&self) -> (c: Self)
        ensures
            c@ == self@,
    {
        CompletionCandidate {
            display: self.display.clone(),
            replacement: self.replacement.clone(),
            description: self.description.clone(),
        }
    }
}

pub open spec fn cands_view(v: Seq<CompletionCandidate>) -> Seq<CandS> {
    v.map_values(|c: CompletionCandidate| c@)
}

/// The one-line description of each builtin, in the order of
/// `builtin_names`.
pub open spec fn builtin_descs() -> Seq<Seq<char>> {
    seq![
        "Write arguments to standard output."@,
        "Display command type (builtin or external)."@,
        "Exit the shell with status n."@,
        "Print the current working directory."@,
        "Change the current working directory."@,
        "Display or manipulate history."@,
        "Set environment variables."@,
        "Unset environment variables."@,
        "Display all environment variables."@,
        "Display environment variables."@,
        "Execute commands from a file."@,
        "Evaluate expression (file tests, string/number compare)."@,
        "Evaluate expression (file tests, string/number compare)."@,
        "Define or display aliases."@,
        "Remove alias definitions."@,
        "Display help information."@,
    ]
}

/// Every builtin with its description.
pub fn builtin_descriptions() -> (r: Vec<(&'static str, &'static str)>)
    ensures
        r@.len() == builtin_names().len(),
        forall|k: int|
            0 <= k < r@.len() ==> (#[trigger] r@[k]).0@ == builtin_names()[k] && r@[k].1@
                == builtin_descs()[k],
{
    let v = vec![
        ("echo", "Write arguments to standard output."),
        ("type", "Display command type (builtin or external)."),
        ("exit", "Exit the shell with status n."),
        ("pwd", "Print the current working directory."),
        ("cd", "Change the current working directory."),
        ("history", "Display or manipulate history."),
        ("export", "Set environment variables."),
        ("unset", "Unset environment variables."),
        ("set", "Display all environment variables."),
        ("env", "Display environment variables."),
        ("source", "Execute commands from a file."),
        ("test", "Evaluate expression (file tests, string/number compare)."),
        ("[", "Evaluate expression (file tests, string/number compare)."),
        ("alias", "Define or display aliases."),
        ("unalias", "Remove alias definitions."),
        ("help", "Display help information."),
    ];
    v
}

/// `name` completes `lower`: the lower-cased name begins with it.
pub open spec fn completes(name: Seq<char>, lower: Seq<char>) -> bool {
    is_prefix(lower, lower_text(name))
}

/// Some candidate already offers `name`.
pub open spec fn offered(acc: Seq<CandS>, name: Seq<char>) -> bool {
    exists|k: int| 0 <= k < acc.len() && trim_ws(#[trigger] acc[k].1) == name
}

/// The builtin candidates among the first `n` builtins.
pub open spec fn builtin_cands(lower: Seq<char>, n: int) -> Seq<CandS>
    decreases n,
{
    if n <= 0 {
        seq![]
    } else {
        let acc = builtin_cands(lower, n - 1);
        let name = builtin_names()[n - 1];
        let desc = builtin_descs()[n - 1];
        if completes(name, lower) {
            acc.push((name + "  -- "@ + desc, name + " "@, desc))
        } else {
            acc
        }
    }
}

/// The candidate for a command found on the search path, or for an alias.
pub open spec fn named_cand(name: Seq<char>, alias: bool) -> CandS {
    if alias {
        (name + "  (alias)"@, name + " "@, "alias"@)
    } else {
        (name, name + " "@, seq![])
    }
}

/// `acc` followed by the candidates for those of `names` that complete
/// `lower` and are not offered yet.
pub open spec fn extra_cands(acc: Seq<CandS>, names: Seq<Seq<char>>, lower: Seq<char>, alias: bool) -> Seq<CandS>
    decreases names.len(),
{
    if names.len() == 0 {
        acc
    } else {
        let a = extra_cands(acc, names.drop_last(), lower, alias);
        let n = names.last();
        if completes(n, lower) && !offered(a, n) {
            a.push(named_cand(n, alias))
        } else {
            a
        }
    }
}

/// Lexicographic order on character sequences (the order of `String`).
pub open spec fn lex_le(a: Seq<char>, b: Seq<char>) -> bool
    decreases a.len(),
{
    if a.len() == 0 {
        true
    } else if b.len() == 0 {
        false
    } else if a[0] != b[0] {
        a[0] < b[0]
    } else {
        lex_le(a.skip(1), b.skip(1))
    }
}

/// The first place from `j` on whose replacement sorts after that of `x`.
pub open spec fn insert_pos(t: Seq<CandS>, x: CandS, j: int) -> int
    decreases t.len() - j,
{
    if j < 0 || j >= t.len() || !lex_le(t[j].1, x.1) {
        j
    } else {
        insert_pos(t, x, j + 1)
    }
}

/// Stable sorting by replacement text: each candidate in turn goes before
/// the first of those placed so far whose replacement sorts after it.
pub open spec fn sort_cands(s: Seq<CandS>) -> Seq<CandS>
    decreases s.len(),
{
    if s.len() == 0 {
        s
    } else {
        let t = sort_cands(s.drop_last());
        t.insert(insert_pos(t, s.last(), 0), s.last())
    }
}

/// The candidates for completing a command name that starts with
/// `prefix`, case aside: builtins, then the commands found on the search
/// path, then aliases, each name offered once, sorted by replacement.
pub open spec fn command_candidates(prefix: Seq<char>, cached: Seq<Seq<char>>, aliases: Seq<Seq<char>>) -> Seq<CandS> {
    let lower = lower_text(prefix);
    sort_cands(
        extra_cands(extra_cands(builtin_cands(lower, 16), cached, lower, false), aliases, lower, true),
    )
}

pub open spec fn strings_view(v: Seq<String>) -> Seq<Seq<char>> {
    v.map_values(|s: String| s@)
}

/// Whether `a` sorts before or equal to `b`.
pub fn lex_le_chars(a: &Vec<char>, b: &Vec<char>) -> (r: bool)
    ensures
        r == lex_le(a@, b@),
{
    let mut i: usize = 0;
    assert(a@.skip(0) =~= a@);
    assert(b@.skip(0) =~= b@);
    while i < a.len() && i < b.len() && a[i] == b[i]
        invariant
            i <= a.len(),
            i <= b.len(),
            lex_le(a@, b@) == lex_le(a@.skip(i as int), b@.skip(i as int)),
        decreases a.len() - i,
    {
        assert(a@.skip(i as int).skip(1) =~= a@.skip(i + 1));
        assert(b@.skip(i as int).skip(1) =~= b@.skip(i + 1));
        i = i + 1;
    }
    if i == a.len() {
        true
    } else if i == b.len() {
        false
    } else {
        a[i] < b[i]
    }
}

/// Whether some candidate already offers `name`.
fn is_offered(acc: &Vec<CompletionCandidate>, name: &str) -> (r: bool)
    ensures
        r == offered(cands_view(acc@), name@),
{
    let ghost cv = cands_view(acc@);
    let mut k: usize = 0;
    while k < acc.len()
        invariant
            k <= acc.len(),
            cv == cands_view(acc@),
            cv.len() == acc.len(),
            forall|j: int| 0 <= j < k ==> trim_ws(#[trigger] cv[j].1) != name@,
        decreases acc.len() - k,
    {
        let t = trim_whitespace(acc[k].replacement.as_str());
        assert(cv[k as int] == acc@[k as int]@);
        if str_eq(t.as_str(), name) {
            assert(trim_ws(cv[k as int].1) == name@);
            return true;
        }
        k = k + 1;
    }
    false
}

/// `name` followed by one space.
fn with_space(name: &str) -> (r: String)
    ensures
        r@ == name@ + " "@,
{
    let mut r = String::new();
    string_append(&mut r, name);
    string_append(&mut r, " ");
    assert(r@ =~= name@ + " "@);
    r
}

/// Adds the candidates for `names` (commands found on the search path, or
/// aliases) that complete `lower` and are not offered yet.
fn add_named(
    matches: &mut Vec<CompletionCandidate>,
    names: &Vec<String>,
    lower: &Vec<char>,
    alias: bool,
)
    ensures
        cands_view(final(matches)@) == extra_cands(
            cands_view(old(matches)@),
            strings_view(names@),
            lower@,
            alias,
        ),
{
    let ghost start = cands_view(matches@);
    let ghost nv = strings_view(names@);
    let mut i: usize = 0;
    while i < names.len()
        invariant
            i <= names.len(),
            nv == strings_view(names@),
            nv.len() == names.len(),
            cands_view(matches@) == extra_cands(start, nv.take(i as int), lower@, alias),
        decreases names.len() - i,
    {
        let name = names[i].as_str();
        assert(nv.take(i + 1).drop_last() =~= nv.take(i as int));
        assert(nv.take(i + 1).last() == name@);
        let lname = to_lowercase(name);
        let lc = chars_of(lname.as_str());
        if starts_with_chars(&lc, lower) && !is_offered(matches, name) {
            let cand = if alias {
                let mut d = String::new();
                string_append(&mut d, name);
                string_append(&mut d, "  (alias)");
                CompletionCandidate {
                    display: d,
                    replacement: with_space(name),
                    description: "alias".to_owned(),
                }
            } else {
                CompletionCandidate {
                    display: name.to_owned(),
                    replacement: with_space(name),
                    description: String::new(),
                }
            };
            assert(cand@ == named_cand(name@, alias));
            let ghost before = matches@;
            matches.push(cand);
            assert(cands_view(matches@) =~= cands_view(before).push(cand@));
        }
        i = i + 1;
    }
    assert(nv.take(names.len() as int) =~= nv);
}

/// Sorts candidates by replacement text, keeping equal ones in order.
fn sort_candidates(v: &Vec<CompletionCandidate>) -> (r: Vec<CompletionCandidate>)
    ensures
        cands_view(r@) == sort_cands(cands_view(v@)),
{
    let ghost cv = cands_view(v@);
    let mut sorted: Vec<CompletionCandidate> = Vec::new();
    let mut i: usize = 0;
    assert(cv.take(0) =~= Seq::<CandS>::empty());
    assert(cands_view(sorted@) =~= Seq::<CandS>::empty());
    while i < v.len()
        invariant
            i <= v.len(),
            cv == cands_view(v@),
            cv.len() == v.len(),
            cands_view(sorted@) == sort_cands(cv.take(i as int)),
        decreases v.len() - i,
    {
        let x = v[i].duplicate();
        assert(cv[i as int] == x@);
        let xr = chars_of(x.replacement.as_str());
        let ghost t = cands_view(sorted@);
        let mut j: usize = 0;
        while j < sorted.len() && lex_le_chars(&chars_of(sorted[j].replacement.as_str()), &xr)
            invariant
                j <= sorted.len(),
                t == cands_view(sorted@),
                t.len() == sorted.len(),
                xr@ == x@.1,
                insert_pos(t, x@, j as int) == insert_pos(t, x@, 0),
            decreases sorted.len() - j,
        {
            assert(t[j as int] == sorted@[j as int]@);
            j = j + 1;
        }
        proof {
            if j < sorted.len() {
                assert(t[j as int] == sorted@[j as int]@);
            }
        }
        assert(cv.take(i + 1).drop_last() =~= cv.take(i as int));
        assert(cv.take(i + 1).last() == x@);
        let ghost before = sorted@;
        sorted.insert(j, x);
        assert(cands_view(sorted@) =~= cands_view(before).insert(j as int, x@));
        i = i + 1;
    }
    assert(cv.take(v.len() as int) =~= cv);
    sorted
}

/// The completions of a command name starting with `prefix`, case aside:
/// the builtins, the commands found on the search path (`cached`) and the
/// aliases, each name once, sorted by the text they put into the line.
pub fn complete_command(prefix: &str, cached: &Vec<String>, alias_names: &Vec<String>) -> (r: Vec<
    CompletionCandidate,
>)
    ensures
        cands_view(r@) == command_candidates(prefix@, strings_view(cached@), strings_view(alias_names@)),
{
    let lower_s = to_lowercase(prefix);
    let lower = chars_of(lower_s.as_str());
    let descs = builtin_descriptions();
    let mut matches: Vec<CompletionCandidate> = Vec::new();
    let mut i: usize = 0;
    assert(cands_view(matches@) =~= Seq::<CandS>::empty());
    while i < descs.len()
        invariant
            i <= descs.len(),
            descs@.len() == 16,
            lower@ == lower_text(prefix@),
            forall|k: int|
                0 <= k < descs@.len() ==> (#[trigger] descs@[k]).0@ == builtin_names()[k]
                    && descs@[k].1@ == builtin_descs()[k],
            cands_view(matches@) == builtin_cands(lower@, i as int),
        decreases descs.len() - i,
    {
        let (name, desc) = descs[i];
        assert(descs@[i as int].0@ == builtin_names()[i as int]);
        let lc = chars_of(to_lowercase(name).as_str());
        if starts_with_chars(&lc, &lower) {
            let mut d = String::new();
            string_append(&mut d, name);
            string_append(&mut d, "  -- ");
            string_append(&mut d, desc);
            let cand = CompletionCandidate {
                display: d,
                replacement: with_space(name),
                description: desc.to_owned(),
            };
            let ghost before = matches@;
            matches.push(cand);
            assert(cands_view(matches@) =~= cands_view(before).push(cand@));
        }
        i = i + 1;
    }
    add_named(&mut matches, cached, &lower, false);
    add_named(&mut matches, alias_names, &lower, true);
    sort_candidates(&matches)
}

// ── laws of the order and of sorting ──

pub proof fn lemma_lex_le_total(a: Seq<char>, b: Seq<char>)
    ensures
        lex_le(a, b) || lex_le(b, a),
    decreases a.len(),
{
    if a.len() > 0 && b.len() > 0 && a[0] == b[0] {
        lemma_lex_le_total(a.skip(1), b.skip(1));
    }
}

pub proof fn lemma_lex_le_trans(a: Seq<char>, b: Seq<char>, c: Seq<char>)
    requires
        lex_le(a, b),
        lex_le(b, c),
    ensures
        lex_le(a, c),
    decreases a.len(),
{
    if a.len() > 0 && b.len() > 0 && c.len() > 0 && a[0] == b[0] && b[0] == c[0] {
        lemma_lex_le_trans(a.skip(1), b.skip(1), c.skip(1));
    }
}

proof fn lemma_insert_pos(t: Seq<CandS>, x: CandS, j: int)
    requires
        0 <= j <= t.len(),
    ensures
        j <= insert_pos(t, x, j) <= t.len(),
        forall|k: int| j <= k < insert_pos(t, x, j) ==> lex_le(#[trigger] t[k].1, x.1),
        insert_pos(t, x, j) < t.len() ==> !lex_le(t[insert_pos(t, x, j)].1, x.1),
    decreases t.len() - j,
{
    if j < t.len() && lex_le(t[j].1, x.1) {
        lemma_insert_pos(t, x, j + 1);
    }
}

/// Candidates are in order of replacement text.
pub open spec fn sorted_by_replacement(t: Seq<CandS>) -> bool {
    forall|i: int, j: int| 0 <= i < j < t.len() ==> lex_le(#[trigger] t[i].1, #[trigger] t[j].1)
}

/// Sorting puts the candidates in order of replacement text and keeps
/// every candidate, as many times as it occurs.
pub proof fn law_sort_cands(s: Seq<CandS>)
    ensures
        sorted_by_replacement(sort_cands(s)),
        sort_cands(s).to_multiset() == s.to_multiset(),
    decreases s.len(),
{
    if s.len() > 0 {
        let t = sort_cands(s.drop_last());
        let x = s.last();
        law_sort_cands(s.drop_last());
        lemma_insert_pos(t, x, 0);
        let p = insert_pos(t, x, 0);
        let r = t.insert(p, x);
        assert(r == sort_cands(s));
        assert forall|i: int, j: int| 0 <= i < j < r.len() implies lex_le(
            #[trigger] r[i].1,
            #[trigger] r[j].1,
        ) by {
            if j < p {
                assert(r[i] == t[i] && r[j] == t[j]);
            } else if j == p {
                assert(r[i] == t[i]);
            } else if i == p {
                assert(r[j] == t[j - 1]);
                lemma_lex_le_total(t[p].1, x.1);
                if j - 1 > p {
                    lemma_lex_le_trans(x.1, t[p].1, t[j - 1].1);
                }
            } else if i < p {
                assert(r[i] == t[i] && r[j] == t[j - 1]);
            } else {
                assert(r[i] == t[i - 1] && r[j] == t[j - 1]);
            }
        }
        vstd::seq_lib::to_multiset_insert(t, p, x);
        vstd::seq_lib::to_multiset_build(s.drop_last(), x);
        assert(s.drop_last().push(x) == s);
    }
}

/// The command completions come sorted by the text they put into the line.
pub proof fn law_command_candidates_sorted(prefix: Seq<char>, cached: Seq<Seq<char>>, aliases: Seq<Seq<char>>)
    ensures
        sorted_by_replacement(command_candidates(prefix, cached, aliases)),
{
    let lower = lower_text(prefix);
    law_sort_cands(
        extra_cands(extra_cands(builtin_cands(lower, 16), cached, lower, false), aliases, lower, true),
    );
}

// ── which names are offered ──

proof fn lemma_trail_bound(s: Seq<char>, j: int)
    requires
        0 <= j <= s.len(),
    ensures
        0 <= ws_trail(s, j) <= j,
    decreases j,
{
    if j > 0 && is_white_space(s[j - 1]) {
        lemma_trail_bound(s, j - 1);
    }
}

proof fn lemma_trail_push(s: Seq<char>, c: char, j: int)
    requires
        0 <= j <= s.len(),
    ensures
        ws_trail(s.push(c), j) == ws_trail(s, j),
    decreases j,
{
    if j > 0 {
        assert(s.push(c)[j - 1] == s[j - 1]);
        lemma_trail_push(s, c, j - 1);
    }
}

proof fn lemma_lead_push(s: Seq<char>, c: char, i: int)
    requires
        0 <= i <= s.len(),
    ensures
        i <= ws_lead(s, i) <= s.len(),
        ws_lead(s, i) < s.len() ==> ws_lead(s.push(c), i) == ws_lead(s, i),
        ws_lead(s, i) == s.len() ==> ws_lead(s.push(c), i) >= s.len(),
    decreases s.len() - i,
{
    if i < s.len() {
        assert(s.push(c)[i] == s[i]);
        if is_white_space(s[i]) {
            lemma_lead_push(s, c, i + 1);
        }
    } else {
        assert(ws_lead(s.push(c), i + 1) == i + 1);
    }
}

/// A name without surrounding whitespace, followed by a space, trims back
/// to itself.
proof fn lemma_trim_with_space(n: Seq<char>)
    requires
        trim_ws(n) == n,
    ensures
        trim_ws(n + " "@) == n,
{
    reveal_strlit(" ");
    let m = n + " "@;
    assert(m =~= n.push(' '));
    let len = n.len() as int;
    lemma_trail_bound(n, len);
    lemma_trail_push(n, ' ', len);
    lemma_lead_push(n, ' ', 0);
    assert(is_white_space(' '));
    assert(ws_trail(m, len + 1) == ws_trail(m, len));
    let lo = ws_lead(n, 0);
    let hi = ws_trail(n, len);
    if lo < len {
        if lo < hi {
            assert(m.subrange(lo, hi) =~= n.subrange(lo, hi));
        }
    }
}

/// A name with no whitespace character is its own trim.
proof fn lemma_trim_no_ws(n: Seq<char>)
    requires
        forall|i: int| 0 <= i < n.len() ==> !is_white_space(#[trigger] n[i]),
    ensures
        trim_ws(n) == n,
{
    if n.len() > 0 {
        assert(ws_lead(n, 0) == 0);
        assert(ws_trail(n, n.len() as int) == n.len());
        assert(n.subrange(0, n.len() as int) =~= n);
    } else {
        assert(n =~= seq![]);
    }
}

proof fn lemma_extra_extends(acc: Seq<CandS>, names: Seq<Seq<char>>, lower: Seq<char>, alias: bool)
    ensures
        extra_cands(acc, names, lower, alias).len() >= acc.len(),
        extra_cands(acc, names, lower, alias).take(acc.len() as int) == acc,
    decreases names.len(),
{
    if names.len() > 0 {
        lemma_extra_extends(acc, names.drop_last(), lower, alias);
        let a = extra_cands(acc, names.drop_last(), lower, alias);
        assert(a.push(named_cand(names.last(), alias)).take(acc.len() as int) =~= a.take(acc.len() as int));
    }
}

proof fn lemma_offered_kept(acc: Seq<CandS>, ext: Seq<CandS>, name: Seq<char>)
    requires
        offered(acc, name),
        ext.len() >= acc.len(),
        ext.take(acc.len() as int) == acc,
    ensures
        offered(ext, name),
{
    let k = choose|k: int| 0 <= k < acc.len() && trim_ws(#[trigger] acc[k].1) == name;
    assert(ext[k] == ext.take(acc.len() as int)[k]);
}

/// Every name of `names` that completes `lower` and has no surrounding
/// whitespace is offered once its candidates are added.
proof fn lemma_extra_complete(acc: Seq<CandS>, names: Seq<Seq<char>>, lower: Seq<char>, alias: bool, i: int)
    requires
        0 <= i < names.len(),
        completes(names[i], lower),
        trim_ws(names[i]) == names[i],
    ensures
        offered(extra_cands(acc, names, lower, alias), names[i]),
    decreases names.len(),
{
    let a = extra_cands(acc, names.drop_last(), lower, alias);
    let r = extra_cands(acc, names, lower, alias);
    if i < names.len() - 1 {
        assert(names.drop_last()[i] == names[i]);
        lemma_extra_complete(acc, names.drop_last(), lower, alias, i);
        assert(r.take(a.len() as int) =~= a);
        lemma_offered_kept(a, r, names[i]);
    } else if !offered(a, names[i]) {
        lemma_trim_with_space(names[i]);
        assert(r.last() == named_cand(names[i], alias));
        assert(trim_ws(r[r.len() - 1].1) == names[i]);
    }
}

/// Every builtin name that completes `lower` has its candidate among the
/// first `m` builtins.
proof fn lemma_builtins_complete(lower: Seq<char>, m: int, k: int)
    requires
        0 <= k < m <= 16,
        completes(builtin_names()[k], lower),
        trim_ws(builtin_names()[k]) == builtin_names()[k],
    ensures
        offered(builtin_cands(lower, m), builtin_names()[k]),
    decreases m,
{
    let acc = builtin_cands(lower, m - 1);
    let r = builtin_cands(lower, m);
    if k < m - 1 {
        lemma_builtins_complete(lower, m - 1, k);
        if completes(builtin_names()[m - 1], lower) {
            assert(r.take(acc.len() as int) =~= acc);
            lemma_offered_kept(acc, r, builtin_names()[k]);
        }
    } else {
        lemma_trim_with_space(builtin_names()[k]);
        assert(trim_ws(r[r.len() - 1].1) == builtin_names()[k]);
    }
}

proof fn lemma_builtin_names_bare()
    ensures
        forall|k: int| 0 <= k < 16 ==> trim_ws(#[trigger] builtin_names()[k]) == builtin_names()[k],
{
    reveal_strlit("echo");
    reveal_strlit("type");
    reveal_strlit("exit");
    reveal_strlit("pwd");
    reveal_strlit("cd");
    reveal_strlit("history");
    reveal_strlit("export");
    reveal_strlit("unset");
    reveal_strlit("set");
    reveal_strlit("env");
    reveal_strlit("source");
    reveal_strlit("test");
    reveal_strlit("[");
    reveal_strlit("alias");
    reveal_strlit("unalias");
    reveal_strlit("help");
    assert forall|k: int| 0 <= k < 16 implies trim_ws(#[trigger] builtin_names()[k]) == builtin_names()[k] by {
        let n = builtin_names()[k];
        assert forall|i: int| 0 <= i < n.len() implies !is_white_space(#[trigger] n[i]) by {
            assert('!' <= n[i] <= '~');
        }
        lemma_trim_no_ws(n);
    }
}

/// Command completion leaves nothing out: every builtin, every command
/// found on the search path and every alias whose name (without
/// surrounding whitespace) begins, case aside, with the typed prefix has a
/// candidate whose replacement, trimmed, is that name.
pub proof fn law_command_candidates_complete(prefix: Seq<char>, cached: Seq<Seq<char>>, aliases: Seq<Seq<char>>)
    ensures
        forall|k: int|
            0 <= k < 16 && completes(#[trigger] builtin_names()[k], lower_text(prefix)) ==> offered(
                command_candidates(prefix, cached, aliases),
                builtin_names()[k],
            ),
        forall|i: int|
            0 <= i < cached.len() && completes(#[trigger] cached[i], lower_text(prefix)) && trim_ws(cached[i])
                == cached[i] ==> offered(command_candidates(prefix, cached, aliases), cached[i]),
        forall|i: int|
            0 <= i < aliases.len() && completes(#[trigger] aliases[i], lower_text(prefix)) && trim_ws(
                aliases[i],
            ) == aliases[i] ==> offered(command_candidates(prefix, cached, aliases), aliases[i]),
{
    let lower = lower_text(prefix);
    let b = builtin_cands(lower, 16);
    let c = extra_cands(b, cached, lower, false);
    let all = extra_cands(c, aliases, lower, true);
    let sorted = command_candidates(prefix, cached, aliases);
    law_sort_cands(all);
    assert(sorted == sort_cands(all));
    lemma_extra_extends(b, cached, lower, false);
    lemma_extra_extends(c, aliases, lower, true);
    lemma_builtin_names_bare();
    assert forall|name: Seq<char>| offered(all, name) implies offered(sorted, name) by {
        let k = choose|k: int| 0 <= k < all.len() && trim_ws(#[trigger] all[k].1) == name;
        let x = all[k];
        assert(all.contains(x));
        vstd::seq_lib::to_multiset_contains(all, x);
        vstd::seq_lib::to_multiset_contains(sorted, x);
        assert(sorted.contains(x));
        let j = choose|j: int| 0 <= j < sorted.len() && sorted[j] == x;
        assert(trim_ws(sorted[j].1) == name);
    }
    assert forall|k: int|
        0 <= k < 16 && completes(#[trigger] builtin_names()[k], lower) implies offered(sorted, builtin_names()[k]) by {
        lemma_builtins_complete(lower, 16, k);
        lemma_offered_kept(b, c, builtin_names()[k]);
        lemma_offered_kept(c, all, builtin_names()[k]);
    }
    assert forall|i: int|
        0 <= i < cached.len() && completes(#[trigger] cached[i], lower) && trim_ws(cached[i]) == cached[i] implies offered(
        sorted,
        cached[i],
    ) by {
        lemma_extra_complete(b, cached, lower, false, i);
        lemma_offered_kept(c, all, cached[i]);
    }
    assert forall|i: int|
        0 <= i < aliases.len() && completes(#[trigger] aliases[i], lower) && trim_ws(aliases[i]) == aliases[i] implies offered(
        sorted,
        aliases[i],
    ) by {
        lemma_extra_complete(c, aliases, lower, true, i);
    }
}

// ── each replacement once ──

/// No two candidates put the same text into the line.
pub open spec fn distinct_replacements(t: Seq<CandS>) -> bool {
    forall|i: int, j: int| 0 <= i < j < t.len() ==> #[trigger] t[i].1 != #[trigger] t[j].1
}

/// Some candidate puts `r` into the line.
pub open spec fn has_replacement(t: Seq<CandS>, r: Seq<char>) -> bool {
    exists|k: int| 0 <= k < t.len() && #[trigger] t[k].1 == r
}

proof fn lemma_sort_keeps_replacements(s: Seq<CandS>)
    ensures
        sort_cands(s).len() == s.len(),
        forall|r: Seq<char>| has_replacement(sort_cands(s), r) <==> has_replacement(s, r),
        distinct_replacements(s) ==> distinct_replacements(sort_cands(s)),
    decreases s.len(),
{
    if s.len() > 0 {
        let d = s.drop_last();
        let x = s.last();
        let t = sort_cands(d);
        lemma_sort_keeps_replacements(d);
        lemma_insert_pos(t, x, 0);
        let p = insert_pos(t, x, 0);
        let u = t.insert(p, x);
        assert(u == sort_cands(s));
        assert forall|r: Seq<char>| has_replacement(u, r) <==> has_replacement(s, r) by {
            if has_replacement(u, r) {
                let k = choose|k: int| 0 <= k < u.len() && #[trigger] u[k].1 == r;
                if k == p {
                    assert(s[s.len() - 1].1 == r);
                } else {
                    let k2 = if k < p { k } else { k - 1 };
                    assert(t[k2].1 == r);
                    assert(has_replacement(t, r));
                    assert(has_replacement(d, r));
                    let m = choose|m: int| 0 <= m < d.len() && #[trigger] d[m].1 == r;
                    assert(d[m] == s[m]);
                    assert(s[m].1 == r);
                }
            }
            if has_replacement(s, r) {
                let k = choose|k: int| 0 <= k < s.len() && #[trigger] s[k].1 == r;
                if k == s.len() - 1 {
                    assert(u[p].1 == r);
                } else {
                    assert(d[k] == s[k]);
                    assert(d[k].1 == r);
                    assert(has_replacement(d, r));
                    assert(has_replacement(t, r));
                    let m = choose|m: int| 0 <= m < t.len() && #[trigger] t[m].1 == r;
                    if m < p {
                        assert(u[m].1 == r);
                    } else {
                        assert(u[m + 1].1 == r);
                    }
                }
            }
        }
        if distinct_replacements(s) {
            assert forall|i: int, j: int| 0 <= i < j < d.len() implies #[trigger] d[i].1 != #[trigger] d[j].1 by {
                assert(s[i] == d[i] && s[j] == d[j]);
            }
            assert(!has_replacement(d, x.1)) by {
                if has_replacement(d, x.1) {
                    let m = choose|m: int| 0 <= m < d.len() && #[trigger] d[m].1 == x.1;
                    assert(s[m].1 == s[s.len() - 1].1);
                }
            }
            assert(!has_replacement(t, x.1));
            assert forall|i: int, j: int| 0 <= i < j < u.len() implies #[trigger] u[i].1 != #[trigger] u[j].1 by {
                if i == p {
                    assert(u[j] == t[j - 1]);
                    assert(has_replacement(t, u[j].1));
                } else if j == p {
                    assert(u[i] == t[i]);
                    assert(has_replacement(t, u[i].1));
                } else {
                    let i2 = if i < p { i } else { i - 1 };
                    let j2 = if j < p { j } else { j - 1 };
                    assert(u[i] == t[i2] && u[j] == t[j2]);
                }
            }
        }
    }
}

proof fn lemma_builtin_names_distinct()
    ensures
        forall|i: int, j: int| 0 <= i < j < 16 ==> #[trigger] builtin_names()[i] != #[trigger] builtin_names()[j],
{
    reveal_strlit("echo");
    reveal_strlit("type");
    reveal_strlit("exit");
    reveal_strlit("pwd");
    reveal_strlit("cd");
    reveal_strlit("history");
    reveal_strlit("export");
    reveal_strlit("unset");
    reveal_strlit("set");
    reveal_strlit("env");
    reveal_strlit("source");
    reveal_strlit("test");
    reveal_strlit("[");
    reveal_strlit("alias");
    reveal_strlit("unalias");
    reveal_strlit("help");
    let b = builtin_names();
    assert forall|i: int, j: int| 0 <= i < j < 16 implies #[trigger] b[i] != #[trigger] b[j] by {
        if b[i].len() == b[j].len() && b[i].len() > 0 {
            if b[i][0] == b[j][0] {
                assert(b[i][1] != b[j][1] || b[i][2] != b[j][2]);
            }
        }
    }
}

proof fn lemma_builtins_distinct(lower: Seq<char>, m: int)
    requires
        0 <= m <= 16,
    ensures
        distinct_replacements(builtin_cands(lower, m)),
        forall|r: Seq<char>|
            has_replacement(builtin_cands(lower, m), r) ==> exists|k: int|
                0 <= k < m && r == #[trigger] builtin_names()[k] + " "@,
    decreases m,
{
    if m > 0 {
        lemma_builtins_distinct(lower, m - 1);
        let acc = builtin_cands(lower, m - 1);
        let r = builtin_cands(lower, m);
        let n = builtin_names()[m - 1];
        lemma_builtin_names_bare();
        lemma_builtin_names_distinct();
        if completes(n, lower) {
            assert(r == acc.push((n + "  -- "@ + builtin_descs()[m - 1], n + " "@, builtin_descs()[m - 1])));
            assert(!has_replacement(acc, n + " "@)) by {
                if has_replacement(acc, n + " "@) {
                    let k = choose|k: int| 0 <= k < m - 1 && n + " "@ == #[trigger] builtin_names()[k] + " "@;
                    lemma_trim_with_space(n);
                    lemma_trim_with_space(builtin_names()[k]);
                }
            }
            assert forall|i: int, j: int| 0 <= i < j < r.len() implies #[trigger] r[i].1 != #[trigger] r[j].1 by {
                if j == r.len() - 1 {
                    assert(r[i] == acc[i]);
                    assert(has_replacement(acc, r[i].1));
                } else {
                    assert(r[i] == acc[i] && r[j] == acc[j]);
                }
            }
            assert forall|x: Seq<char>| has_replacement(r, x) implies exists|k: int|
                0 <= k < m && x == #[trigger] builtin_names()[k] + " "@ by {
                let q = choose|q: int| 0 <= q < r.len() && #[trigger] r[q].1 == x;
                if q < r.len() - 1 {
                    assert(r[q] == acc[q]);
                    assert(has_replacement(acc, x));
                } else {
                    assert(x == builtin_names()[m - 1] + " "@);
                }
            }
        }
    }
}

/// Adding candidates for names without surrounding whitespace keeps the
/// replacements distinct.
proof fn lemma_extra_distinct(acc: Seq<CandS>, names: Seq<Seq<char>>, lower: Seq<char>, alias: bool)
    requires
        distinct_replacements(acc),
        forall|i: int| 0 <= i < names.len() ==> trim_ws(#[trigger] names[i]) == names[i],
    ensures
        distinct_replacements(extra_cands(acc, names, lower, alias)),
    decreases names.len(),
{
    if names.len() > 0 {
        let d = names.drop_last();
        assert forall|i: int| 0 <= i < d.len() implies trim_ws(#[trigger] d[i]) == d[i] by {
            assert(d[i] == names[i]);
        }
        lemma_extra_distinct(acc, d, lower, alias);
        let a = extra_cands(acc, d, lower, alias);
        let n = names.last();
        assert(trim_ws(names[names.len() - 1]) == names[names.len() - 1]);
        if completes(n, lower) && !offered(a, n) {
            let r = a.push(named_cand(n, alias));
            lemma_trim_with_space(n);
            assert forall|i: int, j: int| 0 <= i < j < r.len() implies #[trigger] r[i].1 != #[trigger] r[j].1 by {
                if j == r.len() - 1 {
                    assert(r[i] == a[i]);
                    if a[i].1 == n + " "@ {
                        assert(trim_ws(a[i].1) == n);
                    }
                } else {
                    assert(r[i] == a[i] && r[j] == a[j]);
                }
            }
        }
    }
}

/// The candidate puts `n` and a space into the line for a name `n` that
/// completes `lower` and is a builtin, a command found on the search path
/// or an alias.
pub open spec fn candidate_from(c: CandS, lower: Seq<char>, cached: Seq<Seq<char>>, aliases: Seq<Seq<char>>) -> bool {
    exists|n: Seq<char>|
        #![trigger completes(n, lower)]
        c.1 == n + " "@ && completes(n, lower) && (builtin_names().contains(n) || cached.contains(n)
            || aliases.contains(n))
}

proof fn lemma_builtins_from(lower: Seq<char>, m: int, cached: Seq<Seq<char>>, aliases: Seq<Seq<char>>)
    requires
        0 <= m <= 16,
    ensures
        forall|k: int|
            0 <= k < builtin_cands(lower, m).len() ==> candidate_from(
                #[trigger] builtin_cands(lower, m)[k],
                lower,
                cached,
                aliases,
            ),
    decreases m,
{
    if m > 0 {
        lemma_builtins_from(lower, m - 1, cached, aliases);
        let acc = builtin_cands(lower, m - 1);
        let r = builtin_cands(lower, m);
        let n = builtin_names()[m - 1];
        assert forall|k: int| 0 <= k < r.len() implies candidate_from(#[trigger] r[k], lower, cached, aliases) by {
            if k < acc.len() {
                assert(r[k] == acc[k]);
            } else {
                assert(builtin_names().contains(n));
                assert(completes(n, lower));
            }
        }
    }
}

proof fn lemma_extra_from(
    acc: Seq<CandS>,
    names: Seq<Seq<char>>,
    lower: Seq<char>,
    alias: bool,
    cached: Seq<Seq<char>>,
    aliases: Seq<Seq<char>>,
)
    requires
        forall|k: int| 0 <= k < acc.len() ==> candidate_from(#[trigger] acc[k], lower, cached, aliases),
        forall|i: int| 0 <= i < names.len() ==> cached.contains(#[trigger] names[i]) || aliases.contains(names[i]),
    ensures
        forall|k: int|
            0 <= k < extra_cands(acc, names, lower, alias).len() ==> candidate_from(
                #[trigger] extra_cands(acc, names, lower, alias)[k],
                lower,
                cached,
                aliases,
            ),
    decreases names.len(),
{
    if names.len() > 0 {
        let d = names.drop_last();
        assert forall|i: int| 0 <= i < d.len() implies cached.contains(#[trigger] d[i]) || aliases.contains(d[i]) by {
            assert(d[i] == names[i]);
        }
        lemma_extra_from(acc, d, lower, alias, cached, aliases);
        let a = extra_cands(acc, d, lower, alias);
        let r = extra_cands(acc, names, lower, alias);
        let n = names.last();
        assert(cached.contains(names[names.len() - 1]) || aliases.contains(names[names.len() - 1]));
        assert forall|k: int| 0 <= k < r.len() implies candidate_from(#[trigger] r[k], lower, cached, aliases) by {
            if k < a.len() {
                assert(r[k] == a[k]);
            } else {
                assert(completes(n, lower));
            }
        }
    }
}

/// Command completion offers nothing else: every candidate puts into the
/// line a name that completes the typed prefix (case aside), followed by a
/// space, and that name is a builtin, a command found on the search path or
/// an alias.
pub proof fn law_command_candidates_match(prefix: Seq<char>, cached: Seq<Seq<char>>, aliases: Seq<Seq<char>>)
    ensures
        forall|k: int|
            0 <= k < command_candidates(prefix, cached, aliases).len() ==> candidate_from(
                #[trigger] command_candidates(prefix, cached, aliases)[k],
                lower_text(prefix),
                cached,
                aliases,
            ),
{
    let lower = lower_text(prefix);
    let b = builtin_cands(lower, 16);
    let c = extra_cands(b, cached, lower, false);
    let all = extra_cands(c, aliases, lower, true);
    let sorted = command_candidates(prefix, cached, aliases);
    lemma_builtins_from(lower, 16, cached, aliases);
    assert forall|i: int| 0 <= i < cached.len() implies cached.contains(#[trigger] cached[i]) || aliases.contains(
        cached[i],
    ) by {
    }
    lemma_extra_from(b, cached, lower, false, cached, aliases);
    assert forall|i: int| 0 <= i < aliases.len() implies cached.contains(#[trigger] aliases[i]) || aliases.contains(
        aliases[i],
    ) by {
    }
    lemma_extra_from(c, aliases, lower, true, cached, aliases);
    law_sort_cands(all);
    assert(sorted == sort_cands(all));
    assert forall|k: int| 0 <= k < sorted.len() implies candidate_from(#[trigger] sorted[k], lower, cached, aliases) by {
        let x = sorted[k];
        assert(sorted.contains(x));
        vstd::seq_lib::to_multiset_contains(sorted, x);
        vstd::seq_lib::to_multiset_contains(all, x);
        let j = choose|j: int| 0 <= j < all.len() && all[j] == x;
        assert(candidate_from(all[j], lower, cached, aliases));
    }
}

/// Command completion offers each replacement once, when the names found
/// on the search path and the alias names carry no surrounding
/// whitespace.
pub proof fn law_command_candidates_distinct(prefix: Seq<char>, cached: Seq<Seq<char>>, aliases: Seq<Seq<char>>)
    requires
        forall|i: int| 0 <= i < cached.len() ==> trim_ws(#[trigger] cached[i]) == cached[i],
        forall|i: int| 0 <= i < aliases.len() ==> trim_ws(#[trigger] aliases[i]) == aliases[i],
    ensures
        distinct_replacements(command_candidates(prefix, cached, aliases)),
{
    let lower = lower_text(prefix);
    let b = builtin_cands(lower, 16);
    let c = extra_cands(b, cached, lower, false);
    let all = extra_cands(c, aliases, lower, true);
    lemma_builtins_distinct(lower, 16);
    lemma_extra_distinct(b, cached, lower, false);
    lemma_extra_distinct(c, aliases, lower, true);
    lemma_sort_keeps_replacements(all);
}

// ── variables ──

/// The number of bytes of a character in UTF-8.
pub open spec fn utf8_len(c: char) -> int {
    if (c as u32) < 0x80 {
        1
    } else if (c as u32) < 0x800 {
        2
    } else if (c as u32) < 0x10000 {
        3
    } else {
        4
    }
}

/// The longest start of `s` (from position `i` on, `used` bytes taken so
/// far) whose UTF-8 form fits in `limit` bytes.
pub open spec fn byte_prefix(s: Seq<char>, i: int, used: int, limit: int) -> Seq<char>
    decreases s.len() - i,
{
    if i < 0 || i >= s.len() || used + utf8_len(s[i]) > limit {
        seq![]
    } else {
        seq![s[i]] + byte_prefix(s, i + 1, used + utf8_len(s[i]), limit)
    }
}

/// The candidate for the variable `key` with value `value`: shown with
/// the start of its value (at most 40 bytes), put in as `${KEY}`.
pub open spec fn variable_cand(key: Seq<char>, value: Seq<char>) -> CandS {
    (
        "${"@ + key + "}  = "@ + byte_prefix(value, 0, 0, 40),
        "${"@ + key + "}"@,
        value,
    )
}

/// The variables among `vars` whose name starts with `lower`, case aside.
pub open spec fn variable_cands(vars: Seq<(Seq<char>, Seq<char>)>, lower: Seq<char>) -> Seq<CandS>
    decreases vars.len(),
{
    if vars.len() == 0 {
        seq![]
    } else {
        let acc = variable_cands(vars.drop_last(), lower);
        let (k, v) = vars.last();
        if completes(k, lower) {
            acc.push(variable_cand(k, v))
        } else {
            acc
        }
    }
}

/// The name after a leading `$`.
pub open spec fn variable_name(prefix: Seq<char>) -> Seq<char> {
    if prefix.len() > 0 && prefix[0] == '$' {
        prefix.skip(1)
    } else {
        prefix
    }
}

/// The completions of a variable reference: each variable whose name
/// starts with the name in `prefix` (with or without `$`), case aside,
/// sorted by replacement.
pub open spec fn variable_candidates(prefix: Seq<char>, vars: Seq<(Seq<char>, Seq<char>)>) -> Seq<CandS> {
    sort_cands(variable_cands(vars, lower_text(variable_name(prefix))))
}

pub open spec fn vars_view(v: Seq<(String, String)>) -> Seq<(Seq<char>, Seq<char>)> {
    v.map_values(|p: (String, String)| (p.0@, p.1@))
}

fn utf8_len_exec(c: char) -> (n: usize)
    ensures
        n as int == utf8_len(c),
{
    let u = c as u32;
    if u < 0x80 {
        1
    } else if u < 0x800 {
        2
    } else if u < 0x10000 {
        3
    } else {
        4
    }
}

/// The start of `s` whose UTF-8 form fits in `limit` bytes.
fn prefix_in_bytes(s: &str, limit: usize) -> (r: String)
    ensures
        r@ == byte_prefix(s@, 0, 0, limit as int),
{
    let c = chars_of(s);
    let mut r = String::new();
    let mut used: usize = 0;
    let mut i: usize = 0;
    while i < c.len() && utf8_len_exec(c[i]) <= limit - used
        invariant
            i <= c.len(),
            used <= limit,
            c@ == s@,
            byte_prefix(s@, 0, 0, limit as int) == r@ + byte_prefix(s@, i as int, used as int, limit as int),
        decreases c.len() - i,
    {
        let ghost r0 = r@;
        used = used + utf8_len_exec(c[i]);
        string_push(&mut r, c[i]);
        i = i + 1;
        assert(r@ =~= r0 + seq![c@[i - 1]]);
        assert(r@ + byte_prefix(s@, i as int, used as int, limit as int) =~= r0 + byte_prefix(
            s@,
            i - 1,
            used - utf8_len(c@[i - 1]),
            limit as int,
        ));
    }
    assert(byte_prefix(s@, i as int, used as int, limit as int) =~= seq![]);
    r
}

/// The completions of a variable reference (see `variable_candidates`),
/// from the environment `vars`.
pub fn complete_variable(prefix: &str, vars: &Vec<(String, String)>) -> (r: Vec<CompletionCandidate>)
    ensures
        cands_view(r@) == variable_candidates(prefix@, vars_view(vars@)),
{
    let p = chars_of(prefix);
    let name = if p.len() > 0 && p[0] == '$' {
        let n = crate::text::string_of_range(&p, 1, p.len());
        assert(n@ =~= prefix@.skip(1));
        n
    } else {
        prefix.to_owned()
    };
    let lower = chars_of(to_lowercase(name.as_str()).as_str());
    let ghost vv = vars_view(vars@);
    let mut matches: Vec<CompletionCandidate> = Vec::new();
    let mut i: usize = 0;
    assert(cands_view(matches@) =~= Seq::<CandS>::empty());
    while i < vars.len()
        invariant
            i <= vars.len(),
            vv == vars_view(vars@),
            vv.len() == vars.len(),
            lower@ == lower_text(variable_name(prefix@)),
            cands_view(matches@) == variable_cands(vv.take(i as int), lower@),
        decreases vars.len() - i,
    {
        let key = vars[i].0.as_str();
        let value = vars[i].1.as_str();
        assert(vv[i as int] == (key@, value@));
        assert(vv.take(i + 1).drop_last() =~= vv.take(i as int));
        assert(vv.take(i + 1).last() == (key@, value@));
        let lk = chars_of(to_lowercase(key).as_str());
        if starts_with_chars(&lk, &lower) {
            let mut d = String::new();
            string_append(&mut d, "${");
            string_append(&mut d, key);
            string_append(&mut d, "}  = ");
            string_append(&mut d, prefix_in_bytes(value, 40).as_str());
            let mut rep = String::new();
            string_append(&mut rep, "${");
            string_append(&mut rep, key);
            string_append(&mut rep, "}");
            let cand = CompletionCandidate { display: d, replacement: rep, description: value.to_owned() };
            let ghost before = matches@;
            matches.push(cand);
            assert(cands_view(matches@) =~= cands_view(before).push(cand@));
        }
        i = i + 1;
    }
    assert(vv.take(vars.len() as int) =~= vv);
    sort_candidates(&matches)
}

} // verus!

verus! {

// ── paths ──

/// An optional string as a value.
pub open spec fn opt_str_view(o: Option<&str>) -> Option<Seq<char>> {
    match o {
        Some(s) => Some(s@),
        None => None,
    }
}

/// A directory listing as values: each entry's name and whether it is a
/// directory.
pub open spec fn entries_view(v: Seq<(String, bool)>) -> Seq<(Seq<char>, bool)> {
    v.map_values(|e: (String, bool)| (e.0@, e.1))
}

/// The prefix with a leading `~` standing for the home directory, when it
/// is known: `~` alone, or `~/` and the rest.
pub open spec fn expanded_prefix(prefix: Seq<char>, home: Option<Seq<char>>) -> Seq<char> {
    match home {
        Some(h) => if prefix.len() >= 2 && prefix[0] == '~' && prefix[1] == '/' {
            h + prefix.skip(1)
        } else if prefix == seq!['~'] {
            h
        } else {
            prefix
        },
        None => prefix,
    }
}

/// The position of the last `/` among the first `n` characters of `s`, or
/// -1 when there is none.
pub open spec fn last_slash_before(s: Seq<char>, n: int) -> int
    decreases n,
{
    if n <= 0 {
        -1
    } else if s[n - 1] == '/' {
        n - 1
    } else {
        last_slash_before(s, n - 1)
    }
}

/// The directory to list and the start of the name to complete, for a
/// path prefix (after `~` expansion) that names a directory exactly when
/// `prefix_is_dir`: an empty prefix lists `.`; a prefix ending in `/` or
/// naming a directory lists that directory, with nothing typed of the
/// name; otherwise the prefix splits at its last `/` (the root for a
/// leading one, `.` when there is none).
pub open spec fn path_dir_and_partial(prefix: Seq<char>, home: Option<Seq<char>>, prefix_is_dir: bool) -> (
    Seq<char>,
    Seq<char>,
) {
    let e = expanded_prefix(prefix, home);
    if e.len() == 0 {
        (seq!['.'], seq![])
    } else if e.last() == '/' || prefix_is_dir {
        (e, seq![])
    } else {
        let k = last_slash_before(e, e.len() as int);
        if k < 0 {
            (seq!['.'], e)
        } else if k == 0 {
            (seq!['/'], e.skip(1))
        } else {
            (e.take(k), e.skip(k + 1))
        }
    }
}

/// `name` inside directory `dir`.
pub open spec fn join_path(dir: Seq<char>, name: Seq<char>) -> Seq<char> {
    if dir.len() > 0 && dir.last() == '/' {
        dir + name
    } else {
        dir + seq!['/'] + name
    }
}

/// Some character of `s` is upper case.
pub open spec fn has_upper(s: Seq<char>) -> bool {
    exists|i: int| 0 <= i < s.len() && #[trigger] upper_char(s[i])
}

/// Whether entry `name` completes `partial`: exactly when `partial` has an
/// upper-case letter, case aside otherwise.
pub open spec fn name_fits(name: Seq<char>, partial: Seq<char>) -> bool {
    if has_upper(partial) {
        is_prefix(partial, name)
    } else {
        is_prefix(lower_text(partial), lower_text(name))
    }
}

/// `s` without its trailing `/`s.
pub open spec fn trim_end_slashes(s: Seq<char>) -> Seq<char>
    decreases s.len(),
{
    if s.len() > 0 && s.last() == '/' {
        trim_end_slashes(s.drop_last())
    } else {
        s
    }
}

/// The candidate for entry `name` of `dir`: its path (the bare name in the
/// working directory unless the prefix spelled `./`), with a `/` after a
/// directory, described as a directory or a file.
pub open spec fn path_cand(e: Seq<char>, dir: Seq<char>, name: Seq<char>, is_dir: bool) -> CandS {
    let base = if dir == seq!['.'] && !is_prefix(seq!['.', '/'], e) {
        name
    } else {
        join_path(dir, name)
    };
    let rep = if is_dir {
        base.push('/')
    } else {
        base
    };
    let display = if is_dir {
        trim_end_slashes(rep).push('/')
    } else {
        rep
    };
    (display, rep, if is_dir {
        "directory"@
    } else {
        "file"@
    })
}

/// The candidates for the entries that complete `partial`, in listing
/// order.
pub open spec fn matching_paths(
    e: Seq<char>,
    dir: Seq<char>,
    partial: Seq<char>,
    entries: Seq<(Seq<char>, bool)>,
) -> Seq<CandS>
    decreases entries.len(),
{
    if entries.len() == 0 {
        seq![]
    } else {
        let rest = matching_paths(e, dir, partial, entries.drop_last());
        let x = entries.last();
        if name_fits(x.0, partial) {
            rest.push(path_cand(e, dir, x.0, x.1))
        } else {
            rest
        }
    }
}

/// The candidate completes to a directory.
pub open spec fn names_dir(c: CandS) -> bool {
    c.1.len() > 0 && c.1.last() == '/'
}

/// Directories before files, and by replacement text among each.
pub open spec fn path_le(a: CandS, b: CandS) -> bool {
    (names_dir(a) && !names_dir(b)) || (names_dir(a) == names_dir(b) && lex_le(a.1, b.1))
}

/// The first place from `j` on whose candidate sorts after `x`.
pub open spec fn path_insert_pos(t: Seq<CandS>, x: CandS, j: int) -> int
    decreases t.len() - j,
{
    if j < 0 || j >= t.len() || !path_le(t[j], x) {
        j
    } else {
        path_insert_pos(t, x, j + 1)
    }
}

/// Stable sorting by `path_le`.
pub open spec fn sort_path_cands(s: Seq<CandS>) -> Seq<CandS>
    decreases s.len(),
{
    if s.len() == 0 {
        s
    } else {
        let t = sort_path_cands(s.drop_last());
        t.insert(path_insert_pos(t, s.last(), 0), s.last())
    }
}

/// Of each run of neighbours with the same replacement, the first.
pub open spec fn dedup_replacements(s: Seq<CandS>) -> Seq<CandS>
    decreases s.len(),
{
    if s.len() == 0 {
        s
    } else {
        let t = dedup_replacements(s.drop_last());
        if t.len() > 0 && t.last().1 == s.last().1 {
            t
        } else {
            t.push(s.last())
        }
    }
}

/// The completions of a path prefix, `entries` being the listing of the
/// directory that `path_dir_and_partial` chooses: the entries that
/// complete the typed part of the name, directories first, then by
/// replacement text, each replacement once.
pub open spec fn spec_path_candidates(
    prefix: Seq<char>,
    home: Option<Seq<char>>,
    prefix_is_dir: bool,
    entries: Seq<(Seq<char>, bool)>,
) -> Seq<CandS> {
    let e = expanded_prefix(prefix, home);
    let dp = path_dir_and_partial(prefix, home, prefix_is_dir);
    dedup_replacements(sort_path_cands(matching_paths(e, dp.0, dp.1, entries)))
}

/// The path prefix with `~` expanded to `home`.
pub fn expand_path_prefix(prefix: &str, home: Option<&str>) -> (r: String)
    ensures
        r@ == expanded_prefix(prefix@, opt_str_view(home)),
{
    let p = chars_of(prefix);
    match home {
        Some(h) => if p.len() >= 2 && p[0] == '~' && p[1] == '/' {
            let mut r = String::new();
            string_append(&mut r, h);
            let mut i: usize = 1;
            while i < p.len()
                invariant
                    1 <= i <= p.len(),
                    p@ == prefix@,
                    r@ == h@ + p@.subrange(1, i as int),
                decreases p.len() - i,
            {
                string_push(&mut r, p[i]);
                assert(p@.subrange(1, i + 1) =~= p@.subrange(1, i as int).push(p@[i as int]));
                i = i + 1;
            }
            assert(p@.subrange(1, p.len() as int) =~= prefix@.skip(1));
            r
        } else if p.len() == 1 && p[0] == '~' {
            assert(prefix@ =~= seq!['~']);
            h.to_owned()
        } else {
            proof {
                if prefix@ == seq!['~'] {
                    assert(p@.len() == 1);
                }
            }
            prefix.to_owned()
        },
        None => prefix.to_owned(),
    }
}

/// The directory to list and the typed start of the name, for a path
/// prefix whose expansion names a directory exactly when `prefix_is_dir`.
pub fn path_target(prefix: &str, home: Option<&str>, prefix_is_dir: bool) -> (r: (String, String))
    ensures
        (r.0@, r.1@) == path_dir_and_partial(prefix@, opt_str_view(home), prefix_is_dir),
{
    let es = expand_path_prefix(prefix, home);
    let e = chars_of(es.as_str());
    let n = e.len();
    if n == 0 {
        let d = ".".to_owned();
        proof {
            reveal_strlit(".");
        }
        assert(d@ =~= seq!['.']);
        return (d, String::new());
    }
    if e[n - 1] == '/' || prefix_is_dir {
        return (es, String::new());
    }
    let mut k: usize = n;
    while k > 0 && e[k - 1] != '/'
        invariant
            k <= n,
            n == e@.len(),
            last_slash_before(e@, k as int) == last_slash_before(e@, n as int),
        decreases k,
    {
        k = k - 1;
    }
    if k == 0 {
        let d = ".".to_owned();
        proof {
            reveal_strlit(".");
        }
        assert(d@ =~= seq!['.']);
        (d, es)
    } else if k == 1 {
        let d = "/".to_owned();
        proof {
            reveal_strlit("/");
        }
        assert(d@ =~= seq!['/']);
        let rest = string_of_range(&e, 1, n);
        assert(rest@ =~= e@.skip(1));
        (d, rest)
    } else {
        let dir = string_of_range(&e, 0, k - 1);
        let rest = string_of_range(&e, k, n);
        assert(dir@ =~= e@.take(k - 1));
        assert(rest@ =~= e@.skip(k as int));
        (dir, rest)
    }
}

/// Whether some character of `s` is upper case.
fn has_upper_exec(s: &Vec<char>) -> (r: bool)
    ensures
        r == has_upper(s@),
{
    let mut i: usize = 0;
    while i < s.len()
        invariant
            i <= s.len(),
            forall|j: int| 0 <= j < i ==> !#[trigger] upper_char(s@[j]),
        decreases s.len() - i,
    {
        if char_is_uppercase(s[i]) {
            return true;
        }
        i = i + 1;
    }
    false
}

/// `s` without its trailing `/`s.
fn trim_end_slashes_exec(s: &Vec<char>) -> (r: Vec<char>)
    ensures
        r@ == trim_end_slashes(s@),
{
    let mut k: usize = s.len();
    assert(s@.take(k as int) =~= s@);
    while k > 0 && s[k - 1] == '/'
        invariant
            k <= s.len(),
            trim_end_slashes(s@.take(k as int)) == trim_end_slashes(s@),
        decreases k,
    {
        assert(s@.take(k as int).drop_last() =~= s@.take(k - 1));
        k = k - 1;
    }
    let mut r: Vec<char> = Vec::new();
    let mut i: usize = 0;
    while i < k
        invariant
            i <= k <= s.len(),
            r@ == s@.take(i as int),
        decreases k - i,
    {
        r.push(s[i]);
        assert(s@.take(i + 1) =~= s@.take(i as int).push(s@[i as int]));
        i = i + 1;
    }
    r
}

/// The candidate for entry `name` of `dir`.
fn path_cand_exec(e: &Vec<char>, dir: &str, name: &str, is_dir: bool) -> (r: CompletionCandidate)
    ensures
        r@ == path_cand(e@, dir@, name@, is_dir),
{
    let d = chars_of(dir);
    let dot_slash: Vec<char> = vec!['.', '/'];
    assert(dot_slash@ =~= seq!['.', '/']);
    let is_dot = d.len() == 1 && d[0] == '.';
    proof {
        if d@ == seq!['.'] {
            assert(d@.len() == 1);
        }
        if is_dot {
            assert(d@ =~= seq!['.']);
        }
    }
    let mut base = String::new();
    if is_dot && !starts_with_chars(e, &dot_slash) {
        string_append(&mut base, name);
    } else {
        string_append(&mut base, dir);
        if !(d.len() > 0 && d[d.len() - 1] == '/') {
            string_push(&mut base, '/');
        }
        string_append(&mut base, name);
    }
    assert(base@ =~= (if dir@ == seq!['.'] && !is_prefix(seq!['.', '/'], e@) {
        name@
    } else {
        join_path(dir@, name@)
    }));
    let mut rep = base.clone();
    if is_dir {
        string_push(&mut rep, '/');
    }
    let display = if is_dir {
        let t = trim_end_slashes_exec(&chars_of(rep.as_str()));
        let mut ds = string_of(&t);
        string_push(&mut ds, '/');
        ds
    } else {
        rep.clone()
    };
    let desc = if is_dir {
        "directory".to_owned()
    } else {
        "file".to_owned()
    };
    CompletionCandidate { display, replacement: rep, description: desc }
}

/// Whether `a` sorts before or with `b`: directories first, then by
/// replacement text.
fn path_le_exec(a: &CompletionCandidate, b: &CompletionCandidate) -> (r: bool)
    ensures
        r == path_le(a@, b@),
{
    let ar = chars_of(a.replacement.as_str());
    let br = chars_of(b.replacement.as_str());
    let ad = ar.len() > 0 && ar[ar.len() - 1] == '/';
    let bd = br.len() > 0 && br[br.len() - 1] == '/';
    (ad && !bd) || (ad == bd && lex_le_chars(&ar, &br))
}

/// Sorts path candidates, directories first, keeping equal ones in order.
fn sort_path_candidates(v: &Vec<CompletionCandidate>) -> (r: Vec<CompletionCandidate>)
    ensures
        cands_view(r@) == sort_path_cands(cands_view(v@)),
{
    let ghost cv = cands_view(v@);
    let mut sorted: Vec<CompletionCandidate> = Vec::new();
    let mut i: usize = 0;
    assert(cv.take(0) =~= Seq::<CandS>::empty());
    assert(cands_view(sorted@) =~= Seq::<CandS>::empty());
    while i < v.len()
        invariant
            i <= v.len(),
            cv == cands_view(v@),
            cv.len() == v.len(),
            cands_view(sorted@) == sort_path_cands(cv.take(i as int)),
        decreases v.len() - i,
    {
        let x = v[i].duplicate();
        assert(cv[i as int] == x@);
        let ghost t = cands_view(sorted@);
        let mut j: usize = 0;
        while j < sorted.len() && path_le_exec(&sorted[j], &x)
            invariant
                j <= sorted.len(),
                t == cands_view(sorted@),
                t.len() == sorted.len(),
                path_insert_pos(t, x@, j as int) == path_insert_pos(t, x@, 0),
            decreases sorted.len() - j,
        {
            assert(t[j as int] == sorted@[j as int]@);
            j = j + 1;
        }
        proof {
            if j < sorted.len() {
                assert(t[j as int] == sorted@[j as int]@);
            }
        }
        assert(cv.take(i + 1).drop_last() =~= cv.take(i as int));
        assert(cv.take(i + 1).last() == x@);
        let ghost before = sorted@;
        sorted.insert(j, x);
        assert(cands_view(sorted@) =~= cands_view(before).insert(j as int, x@));
        i = i + 1;
    }
    assert(cv.take(v.len() as int) =~= cv);
    sorted
}

/// Keeps the first of each run of neighbours with the same replacement.
fn dedup_candidates(v: &Vec<CompletionCandidate>) -> (r: Vec<CompletionCandidate>)
    ensures
        cands_view(r@) == dedup_replacements(cands_view(v@)),
{
    let ghost cv = cands_view(v@);
    let mut out: Vec<CompletionCandidate> = Vec::new();
    let mut i: usize = 0;
    assert(cv.take(0) =~= Seq::<CandS>::empty());
    assert(cands_view(out@) =~= Seq::<CandS>::empty());
    while i < v.len()
        invariant
            i <= v.len(),
            cv == cands_view(v@),
            cv.len() == v.len(),
            cands_view(out@) == dedup_replacements(cv.take(i as int)),
        decreases v.len() - i,
    {
        let x = v[i].duplicate();
        assert(cv[i as int] == x@);
        assert(cv.take(i + 1).drop_last() =~= cv.take(i as int));
        assert(cv.take(i + 1).last() == x@);
        let ghost ov = cands_view(out@);
        let same = out.len() > 0 && str_eq(out[out.len() - 1].replacement.as_str(), x.replacement.as_str());
        proof {
            if out.len() > 0 {
                assert(ov.last() == out@[out@.len() - 1]@);
            }
        }
        if !same {
            out.push(x);
            assert(cands_view(out@) =~= ov.push(x@));
        }
        i = i + 1;
    }
    assert(cv.take(v.len() as int) =~= cv);
    out
}

/// The completions of the path prefix `prefix`, `home` being the home
/// directory when known, `prefix_is_dir` whether the expanded prefix
/// names a directory, and `entries` the listing (name, is a directory) of
/// the directory that `path_target` chooses.
pub fn path_candidates(
    prefix: &str,
    home: Option<&str>,
    prefix_is_dir: bool,
    entries: &Vec<(String, bool)>,
) -> (r: Vec<CompletionCandidate>)
    ensures
        cands_view(r@) == spec_path_candidates(prefix@, opt_str_view(home), prefix_is_dir, entries_view(entries@)),
{
    let es = expand_path_prefix(prefix, home);
    let e = chars_of(es.as_str());
    let (dir, partial) = path_target(prefix, home, prefix_is_dir);
    let pc = chars_of(partial.as_str());
    let upper = has_upper_exec(&pc);
    let lower_partial = chars_of(to_lowercase(partial.as_str()).as_str());
    let ghost ev = entries_view(entries@);
    let mut matches: Vec<CompletionCandidate> = Vec::new();
    let mut i: usize = 0;
    assert(ev.take(0) =~= Seq::<(Seq<char>, bool)>::empty());
    assert(cands_view(matches@) =~= Seq::<CandS>::empty());
    while i < entries.len()
        invariant
            i <= entries.len(),
            ev == entries_view(entries@),
            ev.len() == entries.len(),
            e@ == expanded_prefix(prefix@, opt_str_view(home)),
            (dir@, partial@) == path_dir_and_partial(prefix@, opt_str_view(home), prefix_is_dir),
            pc@ == partial@,
            upper == has_upper(partial@),
            lower_partial@ == lower_text(partial@),
            cands_view(matches@) == matching_paths(e@, dir@, partial@, ev.take(i as int)),
        decreases entries.len() - i,
    {
        let name = entries[i].0.as_str();
        let is_dir = entries[i].1;
        assert(ev.take(i + 1).drop_last() =~= ev.take(i as int));
        assert(ev.take(i + 1).last() == (name@, is_dir));
        let fits = if upper {
            starts_with_chars(&chars_of(name), &pc)
        } else {
            starts_with_chars(&chars_of(to_lowercase(name).as_str()), &lower_partial)
        };
        if fits {
            let c = path_cand_exec(&e, dir.as_str(), name, is_dir);
            let ghost before = matches@;
            matches.push(c);
            assert(cands_view(matches@) =~= cands_view(before).push(c@));
        }
        i = i + 1;
    }
    assert(ev.take(entries.len() as int) =~= ev);
    let sorted = sort_path_candidates(&matches);
    dedup_candidates(&sorted)
}

// ── the order of path completions ──

proof fn lemma_lex_le_antisymmetric(a: Seq<char>, b: Seq<char>)
    requires
        lex_le(a, b),
        lex_le(b, a),
    ensures
        a == b,
    decreases a.len(),
{
    if a.len() > 0 && b.len() > 0 {
        lemma_lex_le_antisymmetric(a.skip(1), b.skip(1));
        assert(a =~= seq![a[0]] + a.skip(1));
        assert(b =~= seq![b[0]] + b.skip(1));
    } else {
        assert(a =~= b);
    }
}

proof fn lemma_path_le_total(a: CandS, b: CandS)
    ensures
        path_le(a, b) || path_le(b, a),
{
    lemma_lex_le_total(a.1, b.1);
}

proof fn lemma_path_le_trans(a: CandS, b: CandS, c: CandS)
    requires
        path_le(a, b),
        path_le(b, c),
    ensures
        path_le(a, c),
{
    if names_dir(a) == names_dir(b) && names_dir(b) == names_dir(c) {
        lemma_lex_le_trans(a.1, b.1, c.1);
    }
}

proof fn lemma_path_le_both(a: CandS, b: CandS)
    requires
        path_le(a, b),
        path_le(b, a),
    ensures
        a.1 == b.1,
{
    lemma_lex_le_antisymmetric(a.1, b.1);
}

/// Directories come first, then the candidates in order of replacement.
pub open spec fn path_sorted(t: Seq<CandS>) -> bool {
    forall|i: int, j: int| 0 <= i < j < t.len() ==> path_le(#[trigger] t[i], #[trigger] t[j])
}

proof fn lemma_path_insert_pos(t: Seq<CandS>, x: CandS, j: int)
    requires
        0 <= j <= t.len(),
    ensures
        j <= path_insert_pos(t, x, j) <= t.len(),
        forall|k: int| j <= k < path_insert_pos(t, x, j) ==> path_le(#[trigger] t[k], x),
        path_insert_pos(t, x, j) < t.len() ==> !path_le(t[path_insert_pos(t, x, j)], x),
    decreases t.len() - j,
{
    if j < t.len() && path_le(t[j], x) {
        lemma_path_insert_pos(t, x, j + 1);
    }
}

proof fn lemma_sort_path_sorted(s: Seq<CandS>)
    ensures
        path_sorted(sort_path_cands(s)),
    decreases s.len(),
{
    if s.len() > 0 {
        let t = sort_path_cands(s.drop_last());
        let x = s.last();
        lemma_sort_path_sorted(s.drop_last());
        lemma_path_insert_pos(t, x, 0);
        let p = path_insert_pos(t, x, 0);
        let r = t.insert(p, x);
        assert forall|i: int, j: int| 0 <= i < j < r.len() implies path_le(#[trigger] r[i], #[trigger] r[j]) by {
            if j < p {
                assert(r[i] == t[i] && r[j] == t[j]);
            } else if j == p {
                assert(r[i] == t[i]);
            } else if i == p {
                assert(r[j] == t[j - 1]);
                lemma_path_le_total(t[p], x);
                if j - 1 > p {
                    lemma_path_le_trans(x, t[p], t[j - 1]);
                }
            } else if i < p {
                assert(r[i] == t[i] && r[j] == t[j - 1]);
            } else {
                assert(r[i] == t[i - 1] && r[j] == t[j - 1]);
            }
        }
    }
}

/// Dropping repeats from a sorted list keeps it sorted, leaves each
/// replacement once, keeps only its own elements and ends as it ended.
proof fn lemma_dedup_sorted(s: Seq<CandS>)
    requires
        path_sorted(s),
    ensures
        path_sorted(dedup_replacements(s)),
        distinct_replacements(dedup_replacements(s)),
        forall|k: int|
            0 <= k < dedup_replacements(s).len() ==> exists|m: int|
                0 <= m < s.len() && s[m] == #[trigger] dedup_replacements(s)[k],
        s.len() > 0 ==> dedup_replacements(s).len() > 0 && dedup_replacements(s).last().1 == s.last().1,
    decreases s.len(),
{
    if s.len() > 0 {
        let d = s.drop_last();
        let x = s.last();
        assert forall|i: int, j: int| 0 <= i < j < d.len() implies path_le(#[trigger] d[i], #[trigger] d[j]) by {
            assert(d[i] == s[i] && d[j] == s[j]);
        }
        lemma_dedup_sorted(d);
        let t = dedup_replacements(d);
        if t.len() > 0 && t.last().1 == x.1 {
            assert forall|k: int| 0 <= k < t.len() implies exists|m: int|
                0 <= m < s.len() && s[m] == #[trigger] t[k] by {
                let m = choose|m: int| 0 <= m < d.len() && d[m] == t[k];
                assert(s[m] == d[m]);
            }
        } else {
            let r = t.push(x);
            // every element kept so far sorts before or with `x`
            assert forall|k: int| 0 <= k < t.len() implies path_le(#[trigger] t[k], x) && t[k].1 != x.1 by {
                let m = choose|m: int| 0 <= m < d.len() && d[m] == t[k];
                assert(s[m] == d[m]);
                assert(path_le(s[m], s[s.len() - 1]));
                if t[k].1 == x.1 {
                    // then everything between, `d.last()` included, has that replacement
                    let l = d.len() - 1;
                    assert(d[l] == s[l]);
                    if m < l {
                        assert(path_le(s[m], s[l]));
                    }
                    assert(path_le(s[l], s[s.len() - 1]));
                    lemma_path_le_total(s[m], s[s.len() - 1]);
                    assert(path_le(s[s.len() - 1], s[m])) by {
                        assert(names_dir(s[m]) == names_dir(x));
                        lemma_lex_le_total(x.1, x.1);
                    }
                    if m < l {
                        lemma_path_le_trans(s[l], s[s.len() - 1], s[m]);
                        lemma_path_le_both(s[m], s[l]);
                    }
                    assert(d.last().1 == x.1);
                    assert(t.len() > 0);
                }
            }
            assert forall|i: int, j: int| 0 <= i < j < r.len() implies path_le(#[trigger] r[i], #[trigger] r[j]) by {
                if j == r.len() - 1 {
                    assert(r[i] == t[i]);
                } else {
                    assert(r[i] == t[i] && r[j] == t[j]);
                }
            }
            assert forall|i: int, j: int| 0 <= i < j < r.len() implies #[trigger] r[i].1 != #[trigger] r[j].1 by {
                if j == r.len() - 1 {
                    assert(r[i] == t[i]);
                } else {
                    assert(r[i] == t[i] && r[j] == t[j]);
                }
            }
            assert forall|k: int| 0 <= k < r.len() implies exists|m: int|
                0 <= m < s.len() && s[m] == #[trigger] r[k] by {
                if k == r.len() - 1 {
                    assert(s[s.len() - 1] == r[k]);
                } else {
                    let m = choose|m: int| 0 <= m < d.len() && d[m] == t[k];
                    assert(s[m] == d[m]);
                    assert(r[k] == t[k]);
                }
            }
        }
    }
}

/// Path completions come with directories first, then in order of the
/// text they put into the line, and each such text once.
pub proof fn law_path_candidates_ordered(
    prefix: Seq<char>,
    home: Option<Seq<char>>,
    prefix_is_dir: bool,
    entries: Seq<(Seq<char>, bool)>,
)
    ensures
        path_sorted(spec_path_candidates(prefix, home, prefix_is_dir, entries)),
        distinct_replacements(spec_path_candidates(prefix, home, prefix_is_dir, entries)),
{
    let e = expanded_prefix(prefix, home);
    let dp = path_dir_and_partial(prefix, home, prefix_is_dir);
    let m = matching_paths(e, dp.0, dp.1, entries);
    lemma_sort_path_sorted(m);
    lemma_dedup_sorted(sort_path_cands(m));
}

} // verus!
