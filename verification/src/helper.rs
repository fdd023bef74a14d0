//! Line-editor completion: where the cursor stands, what kind of word is
//! being completed, and the state of cycling through candidates with Tab.
use vstd::prelude::*;
use crate::ast::{Token, TokenKind, TokenS, tokens_view};
use crate::tokenize::{tokenize, spec_tokenize};
use crate::tab::CompletionCandidate;
use crate::text::{chars_of, string_of, is_prefix, starts_with_chars};

verus! {

// ── command position ──

/// Tokens after which a new command begins.
pub open spec fn opens_command(k: TokenKind) -> bool {
    ||| k == TokenKind::Pipe
    ||| k == TokenKind::AndIf
    ||| k == TokenKind::OrIf
    ||| k == TokenKind::Semicolon
    ||| k == TokenKind::DSemicolon
    ||| k == TokenKind::Background
    ||| k == TokenKind::Bang
    ||| k == TokenKind::LParen
}

/// Whether the word under the cursor is in command position: it is the
/// first word, or the token before it opens a new command. With a trailing
/// space the cursor stands after the last token, otherwise on it.
pub open spec fn command_position(ts: Seq<TokenS>, ends_with_space: bool) -> bool {
    if ts.len() == 0 {
        true
    } else {
        let cur = if ends_with_space {
            ts.len() as int
        } else {
            ts.len() - 1
        };
        cur == 0 || opens_command(ts[cur - 1].0)
    }
}

/// Whether the word being completed names a command rather than an
/// argument.
pub fn is_at_command_position(tokens: &[Token], buf_ends_with_space: bool) -> (r: bool)
    ensures
        r == command_position(tokens_view(tokens@), buf_ends_with_space),
{
    if tokens.len() == 0 {
        return true;
    }
    let current_idx = if buf_ends_with_space {
        tokens.len()
    } else {
        tokens.len() - 1
    };
    if current_idx == 0 {
        return true;
    }
    let k = tokens[current_idx - 1].kind;
    assert(tokens_view(tokens@)[current_idx - 1] == tokens@[current_idx - 1]@);
    match k {
        TokenKind::Pipe | TokenKind::AndIf | TokenKind::OrIf | TokenKind::Semicolon
        | TokenKind::DSemicolon | TokenKind::Background | TokenKind::Bang
        | TokenKind::LParen => true,
        _ => false,
    }
}

// ── longest common prefix ──

/// `p` is a prefix of every string of `ss`.
pub open spec fn common_prefix(p: Seq<char>, ss: Seq<Seq<char>>) -> bool {
    forall|i: int| 0 <= i < ss.len() ==> is_prefix(p, #[trigger] ss[i])
}

/// `p` is the longest common prefix of `ss` (empty for no strings).
pub open spec fn longest_common(p: Seq<char>, ss: Seq<Seq<char>>) -> bool {
    if ss.len() == 0 {
        p.len() == 0
    } else {
        &&& common_prefix(p, ss)
        &&& forall|q: Seq<char>| #[trigger] common_prefix(q, ss) ==> q.len() <= p.len()
    }
}

pub open spec fn strs_view(v: Seq<&str>) -> Seq<Seq<char>> {
    v.map_values(|s: &str| s@)
}

/// Two prefixes of one string of the same length are equal.
proof fn lemma_prefixes_agree(p: Seq<char>, q: Seq<char>, s: Seq<char>)
    requires
        is_prefix(p, s),
        is_prefix(q, s),
        p.len() == q.len(),
    ensures
        p == q,
{
    assert(p =~= q) by {
        assert forall|k: int| 0 <= k < p.len() implies p[k] == q[k] by {
            assert(s.take(p.len() as int)[k] == s[k]);
            assert(s.take(q.len() as int)[k] == s[k]);
        }
    }
}

/// The longest string that every one of `strs` begins with; empty when
/// there are none.
pub fn longest_common_prefix(strs: &[&str]) -> (r: String)
    ensures
        longest_common(r@, strs_view(strs@)),
{
    let ghost ss = strs_view(strs@);
    if strs.len() == 0 {
        return String::new();
    }
    let first = chars_of(strs[0]);
    let mut prefix = first.clone();
    assert(ss[0] == first@);
    assert(is_prefix(prefix@, ss[0])) by {
        assert(ss[0].take(prefix@.len() as int) =~= prefix@);
    }
    assert forall|q: Seq<char>| #[trigger] common_prefix(q, ss.take(1)) implies q.len()
        <= prefix@.len() by {
        assert(ss.take(1)[0] == ss[0]);
    }
    assert(common_prefix(prefix@, ss.take(1))) by {
        assert forall|j: int| 0 <= j < ss.take(1).len() implies is_prefix(
            prefix@,
            #[trigger] ss.take(1)[j],
        ) by {
            assert(ss.take(1)[j] == ss[0]);
        }
    }
    let mut i: usize = 1;
    while i < strs.len()
        invariant
            1 <= i <= strs.len(),
            ss == strs_view(strs@),
            ss.len() == strs.len(),
            first@ == ss[0],
            is_prefix(prefix@, first@),
            common_prefix(prefix@, ss.take(i as int)),
            forall|q: Seq<char>| #[trigger] common_prefix(q, ss.take(i as int)) ==> q.len() <= prefix@.len(),
        decreases strs.len() - i,
    {
        let s = chars_of(strs[i]);
        assert(s@ == ss[i as int]);
        proof {
            assert forall|q: Seq<char>| #[trigger] common_prefix(q, ss.take(i + 1)) implies q.len()
                <= prefix@.len() by {
                assert(common_prefix(q, ss.take(i as int))) by {
                    assert forall|j: int| 0 <= j < ss.take(i as int).len() implies is_prefix(
                        q,
                        #[trigger] ss.take(i as int)[j],
                    ) by {
                        assert(ss.take(i as int)[j] == ss.take(i + 1)[j]);
                    }
                }
            }
        }
        while !starts_with_chars(&s, &prefix)
            invariant
                1 <= i < strs.len(),
                ss == strs_view(strs@),
                ss.len() == strs.len(),
                s@ == ss[i as int],
                first@ == ss[0],
                is_prefix(prefix@, first@),
                common_prefix(prefix@, ss.take(i as int)),
                forall|q: Seq<char>|
                    #[trigger] common_prefix(q, ss.take(i + 1)) ==> q.len() <= prefix@.len(),
            decreases prefix@.len(),
        {
            proof {
                if prefix@.len() == 0 {
                    assert(s@.take(0) =~= prefix@);
                }
                assert forall|q: Seq<char>| #[trigger] common_prefix(q, ss.take(i + 1)) implies q.len()
                    < prefix@.len() by {
                    assert(ss.take(i + 1)[0] == ss[0]);
                    assert(ss.take(i + 1)[i as int] == ss[i as int]);
                    if q.len() == prefix@.len() {
                        lemma_prefixes_agree(q, prefix@, first@);
                    }
                }
            }
            let ghost old_prefix = prefix@;
            prefix.pop();
            assert(prefix@ =~= old_prefix.take(old_prefix.len() - 1));
            assert(old_prefix.len() > 0);
            assert(is_prefix(prefix@, first@)) by {
                assert(first@.take(prefix@.len() as int) =~= prefix@);
            }
            assert forall|j: int| 0 <= j < ss.take(i as int).len() implies is_prefix(
                prefix@,
                #[trigger] ss.take(i as int)[j],
            ) by {
                let t = ss.take(i as int)[j];
                assert(is_prefix(old_prefix, t));
                assert(t.take(prefix@.len() as int) =~= prefix@);
            }
            if prefix.len() == 0 {
                proof {
                    assert(longest_common(seq![], ss)) by {
                        assert forall|j: int| 0 <= j < ss.len() implies is_prefix(
                            seq![],
                            #[trigger] ss[j],
                        ) by {
                            assert(ss[j].take(0) =~= Seq::<char>::empty());
                        }
                        assert forall|q: Seq<char>| #[trigger] common_prefix(q, ss) implies q.len()
                            <= 0 by {
                            assert(common_prefix(q, ss.take(i + 1))) by {
                                assert forall|j: int| 0 <= j < ss.take(i + 1).len() implies is_prefix(
                                    q,
                                    #[trigger] ss.take(i + 1)[j],
                                ) by {
                                    assert(ss.take(i + 1)[j] == ss[j]);
                                }
                            }
                        }
                    }
                }
                return String::new();
            }
        }
        proof {
            assert(common_prefix(prefix@, ss.take(i + 1))) by {
                assert forall|j: int| 0 <= j < ss.take(i + 1).len() implies is_prefix(
                    prefix@,
                    #[trigger] ss.take(i + 1)[j],
                ) by {
                    if j < i {
                        assert(ss.take(i + 1)[j] == ss.take(i as int)[j]);
                    } else {
                        assert(ss.take(i + 1)[j] == ss[i as int]);
                    }
                }
            }
        }
        i = i + 1;
    }
    assert(ss.take(strs.len() as int) =~= ss);
    string_of(&prefix)
}

// ── the word under the cursor ──

/// What kind of word is being completed.
#[derive(Clone, Copy, Debug, PartialEq, Eq, Structural)]
pub enum CompletionKind {
    /// A `$NAME`: environment variables.
    Variable,
    /// A command name: builtins, the search path, aliases.
    Command,
    /// Anything else: file names.
    Path,
}

/// The word to complete, where it starts (counted in characters of the
/// text before the cursor), and its kind.
#[derive(Debug)]
pub struct CompletionRequest {
    pub word: String,
    pub start: usize,
    pub kind: CompletionKind,
}

impl View for CompletionRequest {
    type V = (Seq<char>, int, CompletionKind);

    open spec fn view(&self) -> (Seq<char>, int, CompletionKind) {
        (self.word@, self.start as int, self.kind)
    }
}

/// The text before the cursor ends with a space.
pub open spec fn ends_with_space(b: Seq<char>) -> bool {
    b.len() > 0 && b.last() == ' '
}

/// The word under the cursor: the last token, unless the text ends with a
/// space or holds no token.
pub open spec fn word_under_cursor(b: Seq<char>) -> Seq<char> {
    let ts = spec_tokenize(b);
    if ends_with_space(b) || ts.len() == 0 {
        seq![]
    } else {
        ts.last().1
    }
}

/// `w` occurs in `s` at `k`.
pub open spec fn occurs_at(s: Seq<char>, w: Seq<char>, k: int) -> bool {
    0 <= k && k + w.len() <= s.len() && s.subrange(k, k + w.len() as int) == w
}

/// The last place at or before `k` where `w` occurs in `s`.
pub open spec fn last_occurrence(s: Seq<char>, w: Seq<char>, k: int) -> Option<int>
    decreases k + 1,
{
    if k < 0 {
        None
    } else if occurs_at(s, w, k) {
        Some(k)
    } else {
        last_occurrence(s, w, k - 1)
    }
}

/// Where the word `w` starts in `b`: its last occurrence, or the end of
/// `b` when it is empty or does not occur.
pub open spec fn word_start(b: Seq<char>, w: Seq<char>) -> int {
    if w.len() == 0 {
        b.len() as int
    } else {
        match last_occurrence(b, w, b.len() - w.len()) {
            Some(k) => k,
            None => b.len() as int,
        }
    }
}

/// What to complete for the text `b` before the cursor.
pub open spec fn spec_request(b: Seq<char>) -> (Seq<char>, int, CompletionKind) {
    let w = word_under_cursor(b);
    let kind = if w.len() > 0 && w[0] == '$' {
        CompletionKind::Variable
    } else if command_position(spec_tokenize(b), ends_with_space(b)) {
        CompletionKind::Command
    } else {
        CompletionKind::Path
    };
    (w, word_start(b, w), kind)
}

/// The last place where `w` occurs in `s`.
fn rfind_chars(s: &Vec<char>, w: &Vec<char>) -> (r: Option<usize>)
    ensures
        match r {
            Some(k) => last_occurrence(s@, w@, s@.len() - w@.len()) == Some(k as int),
            None => last_occurrence(s@, w@, s@.len() - w@.len()) is None,
        },
{
    if w.len() > s.len() {
        assert(last_occurrence(s@, w@, s@.len() - w@.len()) is None);
        return None;
    }
    let mut k: usize = s.len() - w.len();
    loop
        invariant
            w.len() <= s.len(),
            k <= s.len() - w.len(),
            last_occurrence(s@, w@, s@.len() - w@.len()) == last_occurrence(s@, w@, k as int),
        decreases k,
    {
        let mut j: usize = 0;
        while j < w.len() && s[k + j] == w[j]
            invariant
                k + w.len() <= s.len(),
                j <= w.len(),
                forall|m: int| 0 <= m < j ==> s@[k + m] == w@[m],
            decreases w.len() - j,
        {
            j = j + 1;
        }
        if j == w.len() {
            assert(s@.subrange(k as int, k + w.len()) =~= w@);
            return Some(k);
        }
        assert(s@.subrange(k as int, k + w.len())[j as int] != w@[j as int]);
        if k == 0 {
            return None;
        }
        k = k - 1;
    }
}

/// Works out what to complete from the text before the cursor: the word
/// under it, where that word starts, and whether it is a variable, a
/// command name or a file name.
pub fn completion_request(buf: &str) -> (r: CompletionRequest)
    ensures
        r@ == spec_request(buf@),
{
    let b = chars_of(buf);
    let tokens = tokenize(buf);
    let ends_space = b.len() > 0 && b[b.len() - 1] == ' ';
    assert(ends_space == ends_with_space(buf@));
    let word: String = if ends_space || tokens.len() == 0 {
        String::new()
    } else {
        assert(tokens_view(tokens@)[tokens.len() - 1] == tokens@[tokens.len() - 1]@);
        tokens[tokens.len() - 1].value.clone()
    };
    let w = chars_of(word.as_str());
    let start: usize = if w.len() == 0 {
        b.len()
    } else {
        match rfind_chars(&b, &w) {
            Some(k) => k,
            None => b.len(),
        }
    };
    let kind = if w.len() > 0 && w[0] == '$' {
        CompletionKind::Variable
    } else if is_at_command_position(tokens.as_slice(), ends_space) {
        CompletionKind::Command
    } else {
        CompletionKind::Path
    };
    CompletionRequest { word, start, kind }
}

// ── cycling with Tab ──

/// Above this many candidates the user is asked before they are listed.
pub const LISTMAX: usize = 100;

/// The candidates being cycled through, which one is selected, and where
/// the completed word starts.
#[derive(Debug)]
pub struct CyclingState {
    pub candidates: Vec<CompletionCandidate>,
    pub selected: usize,
    pub start_pos: usize,
    pub original_line: String,
    pub original_pos: usize,
}

impl CyclingState {
    /// More than one candidate, and the selection is one of them.
    pub open spec fn wf(&self) -> bool {
        self.candidates@.len() > 1 && self.selected < self.candidates@.len()
    }
}

/// No state, or a well-formed one.
pub open spec fn state_wf(s: Option<CyclingState>) -> bool {
    s matches Some(c) ==> c.wf()
}

/// The selection after one more Tab: the next candidate, wrapping round
/// to the second (the first stands for the common text).
pub open spec fn next_selected(selected: int, len: int) -> int {
    let n = (selected + 1) % len;
    if n == 0 && len > 1 {
        1
    } else {
        n
    }
}

/// The completer: it offers the selected candidate again while cycling
/// goes on at the same place.
#[derive(Debug)]
pub struct ShellHelper {
    pub cycling: Option<CyclingState>,
}

/// What the completer does next.
#[derive(Debug)]
pub enum CompletionStep {
    /// Offer this candidate alone, for the word starting at `start`.
    Offer { start: usize, candidate: CompletionCandidate },
    /// Look up the candidates for this request.
    Lookup(CompletionRequest),
}

impl ShellHelper {
    pub fn new(cycling: Option<CyclingState>) -> (h: Self)
        ensures
            h.cycling == cycling,
    {
        ShellHelper { cycling }
    }

    /// Completion of the text `buf` before the cursor: while a candidate
    /// past the first is selected for the word at the same place, that
    /// candidate; otherwise cycling ends and the candidates are looked up.
    pub fn complete(&mut self, buf: &str) -> (step: CompletionStep)
        requires
            state_wf(old(self).cycling),
        ensures
            state_wf(final(self).cycling),
            ({
                let (w, st, kind) = spec_request(buf@);
                match old(self).cycling {
                    Some(c) => if c.selected > 0 && c.start_pos == st {
                        &&& final(self).cycling == old(self).cycling
                        &&& step matches CompletionStep::Offer { start, candidate }
                        &&& start == c.start_pos
                        &&& candidate@ == c.candidates@[c.selected as int]@
                    } else {
                        &&& final(self).cycling is None
                        &&& step matches CompletionStep::Lookup(req)
                        &&& req@ == (w, st, kind)
                    },
                    None => {
                        &&& final(self).cycling is None
                        &&& step matches CompletionStep::Lookup(req)
                        &&& req@ == (w, st, kind)
                    },
                }
            }),
    {
        let req = completion_request(buf);
        match &self.cycling {
            Some(c) => {
                if c.selected > 0 && c.start_pos == req.start {
                    let candidate = c.candidates[c.selected].duplicate();
                    return CompletionStep::Offer { start: c.start_pos, candidate };
                }
            },
            None => {},
        }
        self.cycling = None;
        CompletionStep::Lookup(req)
    }
}

/// The Tab key: cycles through the candidates while the word stays at the
/// same place, and starts anew otherwise.
#[derive(Debug)]
pub struct TabHandler {
    pub cycling: Option<CyclingState>,
}

/// What Tab does first.
#[derive(Debug)]
pub enum TabStep {
    /// The selection moved on; nothing else to do.
    Cycled,
    /// Look up the candidates for this request, then `offer` them.
    Lookup(CompletionRequest),
}

/// What Tab does with the candidates found.
#[derive(Clone, Copy, Debug, PartialEq, Eq, Structural)]
pub enum TabOffer {
    /// Too many: ask before listing this many.
    Ask(usize),
    /// Done: the line editor lists them.
    Done,
}

impl TabHandler {
    /// Tab on the text `buf` before the cursor.
    pub fn handle(&mut self, buf: &str) -> (step: TabStep)
        requires
            state_wf(old(self).cycling),
        ensures
            state_wf(final(self).cycling),
            ({
                let (w, st, kind) = spec_request(buf@);
                match old(self).cycling {
                    Some(c) => if c.start_pos == st {
                        &&& step is Cycled
                        &&& final(self).cycling matches Some(n)
                        &&& n.candidates == c.candidates
                        &&& n.selected == next_selected(c.selected as int, c.candidates@.len() as int)
                        &&& n.start_pos == c.start_pos
                        &&& n.original_line == c.original_line
                        &&& n.original_pos == c.original_pos
                    } else {
                        &&& final(self).cycling is None
                        &&& step matches TabStep::Lookup(req)
                        &&& req@ == (w, st, kind)
                    },
                    None => {
                        &&& final(self).cycling is None
                        &&& step matches TabStep::Lookup(req)
                        &&& req@ == (w, st, kind)
                    },
                }
            }),
    {
        let req = completion_request(buf);
        match self.cycling.take() {
            Some(mut c) => {
                if c.start_pos == req.start {
                    let len = c.candidates.len();
                    let mut n = (c.selected + 1) % len;
                    if n == 0 && len > 1 {
                        n = 1;
                    }
                    c.selected = n;
                    self.cycling = Some(c);
                    return TabStep::Cycled;
                }
            },
            None => {},
        }
        TabStep::Lookup(req)
    }

    /// Offers the candidates found for the word starting at `start`: more
    /// than `LISTMAX` of them need the user's consent; with more than one,
    /// cycling starts at the first; otherwise there is nothing to cycle.
    pub fn offer(
        &mut self,
        candidates: Vec<CompletionCandidate>,
        start: usize,
        line: &str,
        pos: usize,
    ) -> (o: TabOffer)
        requires
            state_wf(old(self).cycling),
        ensures
            state_wf(final(self).cycling),
            candidates@.len() > LISTMAX ==> o == TabOffer::Ask(candidates@.len() as usize)
                && final(self).cycling == old(self).cycling,
            candidates@.len() <= LISTMAX ==> o == TabOffer::Done,
            1 < candidates@.len() <= LISTMAX ==> (final(self).cycling matches Some(c)
                && c.candidates == candidates && c.selected == 0 && c.start_pos == start
                && c.original_line@ == line@ && c.original_pos == pos),
            candidates@.len() <= 1 ==> final(self).cycling is None,
    {
        let n = candidates.len();
        if n > LISTMAX {
            return TabOffer::Ask(n);
        }
        if n > 1 {
            self.cycling = Some(
                CyclingState {
                    candidates,
                    selected: 0,
                    start_pos: start,
                    original_line: line.to_owned(),
                    original_pos: pos,
                },
            );
        } else {
            self.cycling = None;
        }
        TabOffer::Done
    }
}

/// Tab keeps the selection on a candidate past the first: it moves to the
/// next one, and from the last back to the second.
pub proof fn law_tab_cycles_past_first(selected: int, len: int)
    requires
        0 <= selected < len,
        len > 1,
    ensures
        1 <= next_selected(selected, len) < len,
        selected + 1 < len ==> next_selected(selected, len) == selected + 1,
        selected + 1 == len ==> next_selected(selected, len) == 1,
{
    if selected + 1 < len {
        vstd::arithmetic::div_mod::lemma_small_mod((selected + 1) as nat, len as nat);
    } else {
        vstd::arithmetic::div_mod::lemma_mod_self_0(len);
    }
}

} // verus!
