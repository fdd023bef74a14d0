//! The lexer: turns a command line into words and operators, honouring
//! single quotes, double quotes, backslash escapes and comments.
use vstd::prelude::*;
use crate::ast::{Token, TokenKind, TokenS, tokens_view};
use crate::text::{
    is_digit, is_white_space, char_is_digit, char_is_whitespace, chars_of, string_of,
    string_of_range,
};

verus! {

/// An empty word is never emitted: a pending word becomes a token only
/// when it holds at least one character.
pub open spec fn flush(cur: Seq<char>, toks: Seq<TokenS>) -> Seq<TokenS> {
    if cur.len() > 0 {
        toks.push((TokenKind::Word, cur))
    } else {
        toks
    }
}

/// The character at `i`, if there is one.
pub open spec fn char_at(s: Seq<char>, i: int) -> Option<char> {
    if 0 <= i < s.len() {
        Some(s[i])
    } else {
        None
    }
}

/// The operator that starts at position `i` of `s` (outside quotes), with
/// its length in characters. A digit immediately followed by `>` or `<`
/// names the file descriptor of a redirection; `>&` and `<&` duplicate a
/// descriptor.
pub open spec fn operator_at(s: Seq<char>, i: int) -> Option<(TokenKind, nat)> {
    let c = s[i];
    let n1 = char_at(s, i + 1);
    let n2 = char_at(s, i + 2);
    if is_digit(c) {
        if n1 == Some('>') {
            if n2 == Some('>') {
                Some((TokenKind::DGreat, 3))
            } else if n2 == Some('&') {
                Some((TokenKind::Great, 3))
            } else {
                Some((TokenKind::Great, 2))
            }
        } else if n1 == Some('<') {
            if n2 == Some('<') {
                Some((TokenKind::DLass, 3))
            } else if n2 == Some('&') {
                Some((TokenKind::Less, 3))
            } else {
                Some((TokenKind::Less, 2))
            }
        } else {
            None
        }
    } else if c == '>' {
        if n1 == Some('>') {
            Some((TokenKind::DGreat, 2))
        } else if n1 == Some('&') {
            Some((TokenKind::Great, 2))
        } else {
            Some((TokenKind::Great, 1))
        }
    } else if c == '<' {
        if n1 == Some('<') {
            Some((TokenKind::DLass, 2))
        } else if n1 == Some('&') {
            Some((TokenKind::Less, 2))
        } else {
            Some((TokenKind::Less, 1))
        }
    } else if c == '|' {
        if n1 == Some('|') {
            Some((TokenKind::OrIf, 2))
        } else {
            Some((TokenKind::Pipe, 1))
        }
    } else if c == '&' {
        if n1 == Some('&') {
            Some((TokenKind::AndIf, 2))
        } else {
            Some((TokenKind::Background, 1))
        }
    } else if c == ';' {
        if n1 == Some(';') {
            Some((TokenKind::DSemicolon, 2))
        } else {
            Some((TokenKind::Semicolon, 1))
        }
    } else if c == '!' {
        Some((TokenKind::Bang, 1))
    } else if c == '(' {
        Some((TokenKind::LParen, 1))
    } else if c == ')' {
        Some((TokenKind::RParen, 1))
    } else {
        None
    }
}

/// What a backslash at `i` contributes to the current word, and how many
/// characters it consumes. Inside single quotes it is literal; at the end
/// of the input it stays a backslash; before a newline it is a line
/// continuation; inside double quotes it escapes only `"`, `\`, `$` and
/// `` ` `` and is kept before anything else; outside quotes it escapes any
/// character.
pub open spec fn backslash_at(s: Seq<char>, i: int, sq: bool, dq: bool) -> (Seq<char>, nat) {
    let n1 = char_at(s, i + 1);
    if sq {
        (seq!['\\'], 1)
    } else if n1 is None {
        (seq!['\\'], 1)
    } else {
        let n = n1->0;
        if n == '\n' {
            (seq![], 2)
        } else if dq {
            if n == '"' || n == '\\' || n == '$' || n == '`' {
                (seq![n], 2)
            } else {
                (seq!['\\', n], 2)
            }
        } else {
            (seq![n], 2)
        }
    }
}

/// The lexer as a state machine over the input: position `i`, whether a
/// single or double quote is open, the word being built and the tokens
/// emitted so far.
pub open spec fn lex(
    s: Seq<char>,
    i: int,
    sq: bool,
    dq: bool,
    cur: Seq<char>,
    toks: Seq<TokenS>,
) -> Seq<TokenS>
    decreases s.len() - i,
{
    if i < 0 || i >= s.len() {
        flush(cur, toks)
    } else {
        let c = s[i];
        let quoted = sq || dq;
        if c == '\'' && !dq {
            lex(s, i + 1, !sq, dq, cur, toks)
        } else if c == '"' && !sq {
            lex(s, i + 1, sq, !dq, cur, toks)
        } else if c == '\\' {
            let (add, used) = backslash_at(s, i, sq, dq);
            lex(s, i + used, sq, dq, cur + add, toks)
        } else if c == '#' && !quoted && cur.len() == 0 {
            toks
        } else if is_white_space(c) && !quoted {
            lex(s, i + 1, sq, dq, seq![], flush(cur, toks))
        } else if !quoted && operator_at(s, i) is Some {
            let (kind, len) = operator_at(s, i)->0;
            lex(
                s,
                i + len,
                sq,
                dq,
                seq![],
                flush(cur, toks).push((kind, s.subrange(i, i + len))),
            )
        } else {
            lex(s, i + 1, sq, dq, cur.push(c), toks)
        }
    }
}

/// The tokens of a whole input.
pub open spec fn spec_tokenize(s: Seq<char>) -> Seq<TokenS> {
    lex(s, 0, false, false, seq![], seq![])
}

/// Every token carries at least one character.
pub open spec fn all_nonempty(toks: Seq<TokenS>) -> bool {
    forall|k: int| 0 <= k < toks.len() ==> (#[trigger] toks[k]).1.len() > 0
}

fn operator_at_exec(s: &Vec<char>, i: usize) -> (r: Option<(TokenKind, usize)>)
    requires
        i < s.len(),
    ensures
        match r {
            Some((k, n)) => operator_at(s@, i as int) == Some((k, n as nat)),
            None => operator_at(s@, i as int) is None,
        },
{
    let c = s[i];
    let n1: Option<char> = if i + 1 < s.len() { Some(s[i + 1]) } else { None };
    let n2: Option<char> = if i + 1 < s.len() && i + 2 < s.len() { Some(s[i + 2]) } else { None };
    assert(char_at(s@, i + 1) == n1);
    assert(char_at(s@, i + 2) == n2);
    if char_is_digit(c) {
        if n1 == Some('>') {
            if n2 == Some('>') {
                Some((TokenKind::DGreat, 3))
            } else if n2 == Some('&') {
                Some((TokenKind::Great, 3))
            } else {
                Some((TokenKind::Great, 2))
            }
        } else if n1 == Some('<') {
            if n2 == Some('<') {
                Some((TokenKind::DLass, 3))
            } else if n2 == Some('&') {
                Some((TokenKind::Less, 3))
            } else {
                Some((TokenKind::Less, 2))
            }
        } else {
            None
        }
    } else if c == '>' {
        if n1 == Some('>') {
            Some((TokenKind::DGreat, 2))
        } else if n1 == Some('&') {
            Some((TokenKind::Great, 2))
        } else {
            Some((TokenKind::Great, 1))
        }
    } else if c == '<' {
        if n1 == Some('<') {
            Some((TokenKind::DLass, 2))
        } else if n1 == Some('&') {
            Some((TokenKind::Less, 2))
        } else {
            Some((TokenKind::Less, 1))
        }
    } else if c == '|' {
        if n1 == Some('|') {
            Some((TokenKind::OrIf, 2))
        } else {
            Some((TokenKind::Pipe, 1))
        }
    } else if c == '&' {
        if n1 == Some('&') {
            Some((TokenKind::AndIf, 2))
        } else {
            Some((TokenKind::Background, 1))
        }
    } else if c == ';' {
        if n1 == Some(';') {
            Some((TokenKind::DSemicolon, 2))
        } else {
            Some((TokenKind::Semicolon, 1))
        }
    } else if c == '!' {
        Some((TokenKind::Bang, 1))
    } else if c == '(' {
        Some((TokenKind::LParen, 1))
    } else if c == ')' {
        Some((TokenKind::RParen, 1))
    } else {
        None
    }
}

/// Emits the pending word, if it is not empty.
fn flush_word(cur: &mut Vec<char>, toks: &mut Vec<Token>)
    ensures
        final(cur)@ == Seq::<char>::empty(),
        tokens_view(final(toks)@) == flush(old(cur)@, tokens_view(old(toks)@)),
{
    if cur.len() > 0 {
        let t = Token { kind: TokenKind::Word, value: string_of(cur) };
        toks.push(t);
        assert(tokens_view(toks@) =~= tokens_view(old(toks)@).push((TokenKind::Word, old(cur)@)));
    } else {
        assert(tokens_view(toks@) =~= tokens_view(old(toks)@));
    }
    *cur = Vec::new();
}

/// Splits a command line into tokens.
///
/// Whitespace outside quotes separates words; quotes group characters and
/// are removed; a backslash escapes as in the shell; an unquoted `#` at the
/// start of a word begins a comment that runs to the end of the line; the
/// control and redirection operators become tokens of their own.
pub fn tokenize(input: &str) -> (toks: Vec<Token>)
    ensures
        tokens_view(toks@) == spec_tokenize(input@),
        all_nonempty(tokens_view(toks@)),
{
    let s = chars_of(input);
    let mut toks: Vec<Token> = Vec::new();
    let mut cur: Vec<char> = Vec::new();
    let mut sq = false;
    let mut dq = false;
    let mut i: usize = 0;
    let ghost goal = spec_tokenize(s@);
    assert(tokens_view(toks@) =~= Seq::<TokenS>::empty());
    while i < s.len()
        invariant_except_break
            lex(s@, i as int, sq, dq, cur@, tokens_view(toks@)) == goal,
        invariant
            i <= s.len(),
            s@ == input@,
            goal == spec_tokenize(s@),
            all_nonempty(tokens_view(toks@)),
        ensures
            flush(cur@, tokens_view(toks@)) == goal,
        decreases s.len() - i,
    {
        let c = s[i];
        let quoted = sq || dq;
        if c == '\'' && !dq {
            sq = !sq;
            i = i + 1;
        } else if c == '"' && !sq {
            dq = !dq;
            i = i + 1;
        } else if c == '\\' {
            let ghost old_cur = cur@;
            let ghost bs = backslash_at(s@, i as int, sq, dq);
            if sq || i + 1 >= s.len() {
                cur.push('\\');
                i = i + 1;
            } else {
                let n = s[i + 1];
                if n == '\n' {
                } else if dq {
                    if n == '"' || n == '\\' || n == '$' || n == '`' {
                        cur.push(n);
                    } else {
                        cur.push('\\');
                        cur.push(n);
                    }
                } else {
                    cur.push(n);
                }
                i = i + 2;
            }
            assert(cur@ =~= old_cur + bs.0);
        } else if c == '#' && !quoted && cur.len() == 0 {
            assert(flush(cur@, tokens_view(toks@)) == tokens_view(toks@));
            break;
        } else if !quoted && char_is_whitespace(c) {
            flush_word(&mut cur, &mut toks);
            i = i + 1;
        } else if !quoted && operator_at_exec(&s, i).is_some() {
            let (kind, len) = operator_at_exec(&s, i).unwrap();
            flush_word(&mut cur, &mut toks);
            let t = Token { kind, value: string_of_range(&s, i, i + len) };
            let ghost before = tokens_view(toks@);
            toks.push(t);
            assert(tokens_view(toks@) =~= before.push((kind, s@.subrange(i as int, i + len))));
            i = i + len;
        } else {
            cur.push(c);
            i = i + 1;
        }
    }
    flush_word(&mut cur, &mut toks);
    toks
}

/// The text of each token of `input`, in order.
pub fn tokenize_strings(input: &str) -> (words: Vec<String>)
    ensures
        words@.len() == spec_tokenize(input@).len(),
        forall|k: int|
            0 <= k < words@.len() ==> #[trigger] words@[k]@ == spec_tokenize(input@)[k].1,
{
    let toks = tokenize(input);
    let mut words: Vec<String> = Vec::new();
    for k in 0..toks.len()
        invariant
            tokens_view(toks@) == spec_tokenize(input@),
            words@.len() == k,
            forall|j: int| 0 <= j < k ==> #[trigger] words@[j]@ == spec_tokenize(input@)[j].1,
    {
        words.push(toks[k].value.clone());
        assert(tokens_view(toks@)[k as int] == toks@[k as int]@);
    }
    words
}

} // verus!

verus! {

// ── what the tokens hold ──

/// The token texts one after another.
pub open spec fn joined(toks: Seq<TokenS>) -> Seq<char>
    decreases toks.len(),
{
    if toks.len() == 0 {
        seq![]
    } else {
        joined(toks.drop_last()) + toks.last().1
    }
}

/// `s` with its whitespace characters left out.
pub open spec fn without_ws(s: Seq<char>) -> Seq<char>
    decreases s.len(),
{
    if s.len() == 0 {
        s
    } else {
        (if is_white_space(s[0]) {
            seq![]
        } else {
            seq![s[0]]
        }) + without_ws(s.skip(1))
    }
}

/// `s` holds no quote, no backslash and no `#`.
pub open spec fn plain_input(s: Seq<char>) -> bool {
    forall|i: int| 0 <= i < s.len() ==> #[trigger] s[i] != '\'' && s[i] != '"' && s[i] != '\\' && s[i] != '#'
}

/// No word token holds a whitespace character.
pub open spec fn words_without_ws(toks: Seq<TokenS>) -> bool {
    forall|k: int, j: int|
        0 <= k < toks.len() && toks[k].0 == TokenKind::Word && 0 <= j < toks[k].1.len() ==> !is_white_space(
            #[trigger] toks[k].1[j],
        )
}

proof fn lemma_without_ws_step(s: Seq<char>, i: int)
    requires
        0 <= i < s.len(),
    ensures
        without_ws(s.skip(i)) == (if is_white_space(s[i]) {
            seq![]
        } else {
            seq![s[i]]
        }) + without_ws(s.skip(i + 1)),
{
    assert(s.skip(i).skip(1) =~= s.skip(i + 1));
    assert(s.skip(i)[0] == s[i]);
}

proof fn lemma_without_ws_run(s: Seq<char>, i: int, m: int)
    requires
        0 <= i,
        0 <= m,
        i + m <= s.len(),
        forall|j: int| i <= j < i + m ==> !is_white_space(#[trigger] s[j]),
    ensures
        without_ws(s.skip(i)) == s.subrange(i, i + m) + without_ws(s.skip(i + m)),
    decreases m,
{
    if m > 0 {
        lemma_without_ws_step(s, i);
        lemma_without_ws_run(s, i + 1, m - 1);
        assert(s.subrange(i, i + m) =~= seq![s[i]] + s.subrange(i + 1, i + m));
    } else {
        assert(s.subrange(i, i) =~= Seq::<char>::empty());
    }
}

proof fn lemma_flush_joined(cur: Seq<char>, toks: Seq<TokenS>)
    ensures
        joined(flush(cur, toks)) == joined(toks) + cur,
{
    if cur.len() > 0 {
        assert(flush(cur, toks).drop_last() =~= toks);
    } else {
        assert(joined(toks) + cur =~= joined(toks));
    }
}

proof fn lemma_lex_plain(s: Seq<char>, i: int, cur: Seq<char>, toks: Seq<TokenS>)
    requires
        0 <= i <= s.len(),
        plain_input(s),
        words_without_ws(toks),
        forall|j: int| 0 <= j < cur.len() ==> !is_white_space(#[trigger] cur[j]),
    ensures
        joined(lex(s, i, false, false, cur, toks)) == joined(toks) + cur + without_ws(s.skip(i)),
        words_without_ws(lex(s, i, false, false, cur, toks)),
    decreases s.len() - i,
{
    let f = flush(cur, toks);
    lemma_flush_joined(cur, toks);
    assert(words_without_ws(f)) by {
        if cur.len() > 0 {
            assert forall|k: int, j: int|
                0 <= k < f.len() && f[k].0 == TokenKind::Word && 0 <= j < f[k].1.len() implies !is_white_space(
                #[trigger] f[k].1[j],
            ) by {
                if k < toks.len() {
                    assert(f[k] == toks[k]);
                }
            }
        }
    }
    if i == s.len() {
        assert(s.skip(i).len() == 0);
        assert(without_ws(s.skip(i)) =~= Seq::<char>::empty());
        assert(joined(toks) + cur + seq![] =~= joined(toks) + cur);
    } else {
        let c = s[i];
        lemma_without_ws_step(s, i);
        if is_white_space(c) {
            lemma_lex_plain(s, i + 1, seq![], f);
            assert(joined(f) + seq![] =~= joined(f));
            assert(joined(toks) + cur + without_ws(s.skip(i)) =~= joined(toks) + cur + without_ws(s.skip(i + 1)));
        } else if operator_at(s, i) is Some {
            let (kind, len) = operator_at(s, i)->0;
            let op = s.subrange(i, i + len);
            let g = f.push((kind, op));
            assert(g.drop_last() =~= f);
            assert(i + len <= s.len());
            assert forall|j: int| i <= j < i + len implies !is_white_space(#[trigger] s[j]) by {
                assert(s[j] == '>' || s[j] == '<' || s[j] == '&' || s[j] == '|' || s[j] == ';' || s[j] == '!'
                    || s[j] == '(' || s[j] == ')' || is_digit(s[j]));
            }
            assert(words_without_ws(g)) by {
                assert forall|k: int, j: int|
                    0 <= k < g.len() && g[k].0 == TokenKind::Word && 0 <= j < g[k].1.len() implies !is_white_space(
                    #[trigger] g[k].1[j],
                ) by {
                    if k < f.len() {
                        assert(g[k] == f[k]);
                    }
                }
            }
            lemma_lex_plain(s, i + len, seq![], g);
            lemma_without_ws_run(s, i, len as int);
            assert(joined(g) == joined(f) + op);
            assert(joined(g) + seq![] =~= joined(g));
        } else {
            let cur2 = cur.push(c);
            assert forall|j: int| 0 <= j < cur2.len() implies !is_white_space(#[trigger] cur2[j]) by {
                if j < cur.len() {
                    assert(cur2[j] == cur[j]);
                }
            }
            assert(c != '\'' && c != '"' && c != '\\' && c != '#');
            lemma_lex_plain(s, i + 1, cur2, toks);
            assert(joined(toks) + cur2 + without_ws(s.skip(i + 1)) =~= joined(toks) + cur + without_ws(s.skip(i)));
        }
    }
}

/// On input with no quote, backslash or `#`, the tokens' texts one after
/// another are the input with its whitespace left out, and no word holds
/// whitespace: tokenizing only cuts the input at whitespace and operators.
pub proof fn law_tokens_cover_input(s: Seq<char>)
    requires
        plain_input(s),
    ensures
        joined(spec_tokenize(s)) == without_ws(s),
        words_without_ws(spec_tokenize(s)),
{
    lemma_lex_plain(s, 0, seq![], seq![]);
    assert(s.skip(0) =~= s);
    assert(joined(Seq::<TokenS>::empty()) + Seq::<char>::empty() + without_ws(s) =~= without_ws(s));
}

/// A character that starts an operator wherever it stands.
pub open spec fn op_char(c: char) -> bool {
    c == '|' || c == '&' || c == ';' || c == '<' || c == '>' || c == '(' || c == ')' || c == '!'
}

/// No word token holds an operator character, and every other token's
/// text, read from its start, is exactly one operator of its kind.
pub open spec fn tokens_well_split(toks: Seq<TokenS>) -> bool {
    &&& forall|k: int, j: int|
        0 <= k < toks.len() && toks[k].0 == TokenKind::Word && 0 <= j < toks[k].1.len() ==> !op_char(
            #[trigger] toks[k].1[j],
        )
    &&& forall|k: int|
        0 <= k < toks.len() && (#[trigger] toks[k]).0 != TokenKind::Word ==> operator_at(toks[k].1, 0) == Some(
            (toks[k].0, toks[k].1.len()),
        )
}

proof fn lemma_operator_text(s: Seq<char>, i: int)
    requires
        0 <= i < s.len(),
        operator_at(s, i) is Some,
    ensures
        i + (operator_at(s, i)->0).1 <= s.len(),
        (operator_at(s, i)->0).0 != TokenKind::Word,
        operator_at(s.subrange(i, i + (operator_at(s, i)->0).1 as int), 0) == operator_at(s, i),
{
    let (k, len) = operator_at(s, i)->0;
    assert(len >= 1);
    if i + len <= s.len() {
        let t = s.subrange(i, i + len as int);
        assert(t[0] == s[i]);
        if len >= 2 {
            assert(t[1] == s[i + 1]);
        }
        if len >= 3 {
            assert(t[2] == s[i + 2]);
        }
        assert(char_at(t, 1) == (if len >= 2 { char_at(s, i + 1) } else { None::<char> }));
        assert(char_at(t, 2) == (if len >= 3 { char_at(s, i + 2) } else { None::<char> }));
    }
}

proof fn lemma_lex_split(s: Seq<char>, i: int, cur: Seq<char>, toks: Seq<TokenS>)
    requires
        0 <= i <= s.len(),
        plain_input(s),
        tokens_well_split(toks),
        forall|j: int| 0 <= j < cur.len() ==> !op_char(#[trigger] cur[j]),
    ensures
        tokens_well_split(lex(s, i, false, false, cur, toks)),
    decreases s.len() - i,
{
    let f = flush(cur, toks);
    assert(tokens_well_split(f)) by {
        if cur.len() > 0 {
            assert forall|k: int, j: int|
                0 <= k < f.len() && f[k].0 == TokenKind::Word && 0 <= j < f[k].1.len() implies !op_char(
                #[trigger] f[k].1[j],
            ) by {
                if k < toks.len() {
                    assert(f[k] == toks[k]);
                }
            }
            assert forall|k: int| 0 <= k < f.len() && (#[trigger] f[k]).0 != TokenKind::Word implies operator_at(
                f[k].1,
                0,
            ) == Some((f[k].0, f[k].1.len())) by {
                if k < toks.len() {
                    assert(f[k] == toks[k]);
                }
            }
        }
    }
    if i < s.len() {
        let c = s[i];
        assert(c != '\'' && c != '"' && c != '\\' && c != '#');
        if is_white_space(c) {
            lemma_lex_split(s, i + 1, seq![], f);
        } else if operator_at(s, i) is Some {
            let (kind, len) = operator_at(s, i)->0;
            lemma_operator_text(s, i);
            let g = f.push((kind, s.subrange(i, i + len)));
            assert forall|k: int, j: int|
                0 <= k < g.len() && g[k].0 == TokenKind::Word && 0 <= j < g[k].1.len() implies !op_char(
                #[trigger] g[k].1[j],
            ) by {
                if k < f.len() {
                    assert(g[k] == f[k]);
                }
            }
            assert forall|k: int| 0 <= k < g.len() && (#[trigger] g[k]).0 != TokenKind::Word implies operator_at(
                g[k].1,
                0,
            ) == Some((g[k].0, g[k].1.len())) by {
                if k < f.len() {
                    assert(g[k] == f[k]);
                }
            }
            lemma_lex_split(s, i + len, seq![], g);
        } else {
            assert(!op_char(c));
            let cur2 = cur.push(c);
            assert forall|j: int| 0 <= j < cur2.len() implies !op_char(#[trigger] cur2[j]) by {
                if j < cur.len() {
                    assert(cur2[j] == cur[j]);
                }
            }
            lemma_lex_split(s, i + 1, cur2, toks);
        }
    }
}

/// On input with no quote, backslash or `#`, every token has text, no
/// word holds an operator character (`|`, `&`, `;`, `<`, `>`, `(`, `)`,
/// `!`), and every other token's text is exactly one operator of its kind
/// (for example `|` for a pipe, `||` or `2>>`).
pub proof fn law_tokens_well_split(s: Seq<char>)
    requires
        plain_input(s),
    ensures
        tokens_well_split(spec_tokenize(s)),
{
    lemma_lex_split(s, 0, seq![], seq![]);
}

} // verus!
