//! A small JSON reader, as the theme loader uses it: strings with their
//! escapes, objects (a later key replaces an earlier one), arrays, `true`,
//! `false`, `null`, and numbers kept as their text.
use vstd::prelude::*;
use crate::text::{
    chars_of, string_of_range, string_push, string_append, ws_lead, is_white_space, char_is_whitespace,
    is_digit, parse_hex, trim_ws, trim_whitespace, str_eq, upper_text, to_uppercase,
};
use crate::shell::digits_end;

verus! {

/// A JSON value as a mathematical value.
pub enum JsonS {
    Null,
    Bool(bool),
    Number(Seq<char>),
    Str(Seq<char>),
    Array(Seq<JsonS>),
    Object(Seq<(Seq<char>, JsonS)>),
}

/// A JSON value; a number is kept as the text it was written with.
#[derive(Debug)]
pub enum JsonValue {
    Null,
    Bool(bool),
    Number(String),
    String(String),
    Array(Vec<JsonValue>),
    Object(Vec<(String, JsonValue)>),
}

pub open spec fn json_view(v: JsonValue) -> JsonS
    decreases v,
{
    match v {
        JsonValue::Null => JsonS::Null,
        JsonValue::Bool(b) => JsonS::Bool(b),
        JsonValue::Number(t) => JsonS::Number(t@),
        JsonValue::String(t) => JsonS::Str(t@),
        JsonValue::Array(vs) => JsonS::Array(json_seq_view(vs@)),
        JsonValue::Object(ps) => JsonS::Object(json_pairs_view(ps@)),
    }
}

pub open spec fn json_seq_view(vs: Seq<JsonValue>) -> Seq<JsonS>
    decreases vs,
{
    if vs.len() == 0 {
        seq![]
    } else {
        seq![json_view(vs[0])] + json_seq_view(vs.subrange(1, vs.len() as int))
    }
}

pub open spec fn json_pairs_view(ps: Seq<(String, JsonValue)>) -> Seq<(Seq<char>, JsonS)>
    decreases ps,
{
    if ps.len() == 0 {
        seq![]
    } else {
        seq![(ps[0].0@, json_view(ps[0].1))] + json_pairs_view(ps.subrange(1, ps.len() as int))
    }
}

pub proof fn lemma_seq_view_push(vs: Seq<JsonValue>, x: JsonValue)
    ensures
        json_seq_view(vs.push(x)) == json_seq_view(vs).push(json_view(x)),
        json_seq_view(vs).len() == vs.len(),
    decreases vs.len(),
{
    if vs.len() == 0 {
        let e = vs.push(x).subrange(1, 1);
        assert(e =~= Seq::<JsonValue>::empty());
        assert(json_seq_view(e) == Seq::<JsonS>::empty());
        assert(vs.push(x)[0] == x);
        assert(json_seq_view(vs.push(x)) =~= seq![json_view(x)]);
    } else {
        let t = vs.subrange(1, vs.len() as int);
        lemma_seq_view_push(t, x);
        assert(vs.push(x).subrange(1, vs.len() + 1 as int) =~= t.push(x));
        assert(json_seq_view(vs.push(x)) =~= json_seq_view(vs).push(json_view(x)));
    }
}

pub proof fn lemma_pairs_view_len(ps: Seq<(String, JsonValue)>)
    ensures
        json_pairs_view(ps).len() == ps.len(),
        forall|i: int| 0 <= i < ps.len() ==> #[trigger] json_pairs_view(ps)[i] == (ps[i].0@, json_view(ps[i].1)),
    decreases ps.len(),
{
    if ps.len() > 0 {
        let t = ps.subrange(1, ps.len() as int);
        lemma_pairs_view_len(t);
        assert forall|i: int| 0 <= i < ps.len() implies #[trigger] json_pairs_view(ps)[i] == (
            ps[i].0@,
            json_view(ps[i].1),
        ) by {
            if i > 0 {
                assert(t[i - 1] == ps[i]);
            }
        }
    }
}

/// Two sequences of pairs with the same views, element by element, have
/// the same view.
pub proof fn lemma_pairs_view_ext(ps: Seq<(String, JsonValue)>, v: Seq<(Seq<char>, JsonS)>)
    requires
        ps.len() == v.len(),
        forall|i: int| 0 <= i < ps.len() ==> (ps[i].0@, json_view(ps[i].1)) == #[trigger] v[i],
    ensures
        json_pairs_view(ps) == v,
{
    lemma_pairs_view_len(ps);
    assert(json_pairs_view(ps) =~= v);
}

// ── the grammar ──

/// A character a number is read over.
pub open spec fn number_char(c: char) -> bool {
    is_digit(c) || c == '.' || c == 'e' || c == 'E' || c == '+' || c == '-'
}

/// The end of the run of number characters from `p`.
pub open spec fn number_end(s: Seq<char>, p: int) -> int
    decreases s.len() - p,
{
    if 0 <= p < s.len() && number_char(s[p]) {
        number_end(s, p + 1)
    } else {
        p
    }
}

/// The text is a floating-point number as Rust reads one (without the
/// words `inf` and `nan`): a sign, digits with at most one `.` and at
/// least one digit, then optionally `e` or `E`, a sign and digits.
pub open spec fn float_syntax(t: Seq<char>) -> bool {
    let a: int = if t.len() > 0 && (t[0] == '+' || t[0] == '-') {
        1
    } else {
        0
    };
    let d1 = digits_end(t, a);
    let dot = d1 < t.len() && t[d1] == '.';
    let d2 = if dot {
        digits_end(t, d1 + 1)
    } else {
        d1
    };
    let frac = if dot {
        d2 - (d1 + 1)
    } else {
        0
    };
    &&& (d1 - a) + frac > 0
    &&& (d2 == t.len() || ((t[d2] == 'e' || t[d2] == 'E') && {
        let b0 = d2 + 1;
        let b = if b0 < t.len() && (t[b0] == '+' || t[b0] == '-') {
            b0 + 1
        } else {
            b0
        };
        let d3 = digits_end(t, b);
        d3 > b && d3 == t.len()
    }))
}

/// A Unicode scalar value.
pub open spec fn valid_scalar(v: int) -> bool {
    0 <= v <= 0x10FFFF && !(0xD800 <= v <= 0xDFFF)
}

/// The character a `\u` escape with these (up to four) hex digits gives,
/// when they read as a scalar value.
pub open spec fn hex_char(h: Seq<char>) -> Option<char> {
    match parse_hex(h) {
        Some(v) => if valid_scalar(v) {
            Some(v as char)
        } else {
            None
        },
        None => None,
    }
}

/// What a backslash escape other than `\u` stands for.
pub open spec fn escaped(e: char) -> char {
    if e == 'n' {
        '\n'
    } else if e == 'r' {
        '\r'
    } else if e == 't' {
        '\t'
    } else {
        e
    }
}

/// The rest of a string from `p` (after its opening quote), read into
/// `acc`, and the position after the closing quote; nothing when the text
/// ends first.
pub open spec fn string_from(s: Seq<char>, p: int, acc: Seq<char>) -> Option<(Seq<char>, int)>
    decreases s.len() - p,
{
    if p < 0 || p >= s.len() {
        None
    } else if s[p] == '"' {
        Some((acc, p + 1))
    } else if s[p] == '\\' {
        if p + 1 >= s.len() {
            None
        } else if s[p + 1] == 'u' {
            let end = if p + 6 < s.len() {
                p + 6
            } else {
                s.len() as int
            };
            let acc2 = match hex_char(s.subrange(p + 2, end)) {
                Some(c) => acc.push(c),
                None => acc,
            };
            string_from(s, end, acc2)
        } else {
            string_from(s, p + 2, acc.push(escaped(s[p + 1])))
        }
    } else {
        string_from(s, p + 1, acc.push(s[p]))
    }
}

pub proof fn lemma_string_from(s: Seq<char>, p: int, acc: Seq<char>)
    ensures
        string_from(s, p, acc) matches Some((_, r)) ==> p < r <= s.len(),
    decreases s.len() - p,
{
    if 0 <= p < s.len() && s[p] != '"' {
        if s[p] == '\\' {
            if p + 1 < s.len() {
                if s[p + 1] == 'u' {
                    let end = if p + 6 < s.len() {
                        p + 6
                    } else {
                        s.len() as int
                    };
                    let acc2 = match hex_char(s.subrange(p + 2, end)) {
                        Some(c) => acc.push(c),
                        None => acc,
                    };
                    lemma_string_from(s, end, acc2);
                } else {
                    lemma_string_from(s, p + 2, acc.push(escaped(s[p + 1])));
                }
            }
        } else {
            lemma_string_from(s, p + 1, acc.push(s[p]));
        }
    }
}

pub proof fn lemma_ws_lead(s: Seq<char>, i: int)
    requires
        0 <= i <= s.len(),
    ensures
        i <= ws_lead(s, i) <= s.len(),
        ws_lead(s, i) < s.len() ==> !is_white_space(s[ws_lead(s, i)]),
    decreases s.len() - i,
{
    if i < s.len() && is_white_space(s[i]) {
        lemma_ws_lead(s, i + 1);
    }
}

pub proof fn lemma_number_end(s: Seq<char>, p: int)
    requires
        0 <= p <= s.len(),
    ensures
        p <= number_end(s, p) <= s.len(),
        forall|k: int| p <= k < number_end(s, p) ==> number_char(#[trigger] s[k]),
    decreases s.len() - p,
{
    if p < s.len() && number_char(s[p]) {
        lemma_number_end(s, p + 1);
    }
}

/// The position of the pair with key `k` from `i` on.
pub open spec fn key_pos(ps: Seq<(Seq<char>, JsonS)>, k: Seq<char>, i: int) -> Option<int>
    decreases ps.len() - i,
{
    if i < 0 || i >= ps.len() {
        None
    } else if ps[i].0 == k {
        Some(i)
    } else {
        key_pos(ps, k, i + 1)
    }
}

/// An object with `k` bound to `v`: replacing the value of a pair with
/// that key, or adding the pair at the end.
pub open spec fn obj_insert(ps: Seq<(Seq<char>, JsonS)>, k: Seq<char>, v: JsonS) -> Seq<(Seq<char>, JsonS)> {
    match key_pos(ps, k, 0) {
        Some(i) => ps.update(i, (k, v)),
        None => ps.push((k, v)),
    }
}

/// The value that starts at `p` after any whitespace, and the position
/// after it.
pub open spec fn value_at(s: Seq<char>, p: int) -> Option<(JsonS, int)>
    decreases s.len() - p, 0int,
{
    if p < 0 || p > s.len() {
        None
    } else {
        let q = ws_lead(s, p);
        proof {
            lemma_ws_lead(s, p);
        }
        if q >= s.len() {
            None
        } else {
            let c = s[q];
            let len = s.len() as int;
            if c == '"' {
                match string_from(s, q + 1, seq![]) {
                    Some((t, r)) => Some((JsonS::Str(t), r)),
                    None => None,
                }
            } else if c == '{' {
                object_from(s, q + 1, seq![])
            } else if c == '[' {
                array_from(s, q + 1, seq![])
            } else if c == 't' {
                Some((JsonS::Bool(true), if len - q > 4 { q + 4 } else { len }))
            } else if c == 'f' {
                Some((JsonS::Bool(false), if len - q > 5 { q + 5 } else { len }))
            } else if c == 'n' {
                Some((JsonS::Null, if len - q > 4 { q + 4 } else { len }))
            } else if is_digit(c) || c == '-' {
                let start = if c == '-' {
                    q + 1
                } else {
                    q
                };
                let e = number_end(s, start);
                let t = s.subrange(q, e);
                if float_syntax(t) {
                    Some((JsonS::Number(t), e))
                } else {
                    None
                }
            } else {
                None
            }
        }
    }
}

/// The elements of an array from `p` (after `[` or a previous element),
/// after the elements `acc`, and the position after the closing `]`.
pub open spec fn array_from(s: Seq<char>, p: int, acc: Seq<JsonS>) -> Option<(JsonS, int)>
    decreases s.len() - p, 1int,
{
    if p < 0 || p > s.len() {
        None
    } else {
        let q = ws_lead(s, p);
        proof {
            lemma_ws_lead(s, p);
        }
        if q >= s.len() {
            None
        } else if s[q] == ']' {
            Some((JsonS::Array(acc), q + 1))
        } else {
            match value_at(s, q) {
                Some((v, r)) => if r <= q || r > s.len() {
                    None
                } else {
                    let r2 = ws_lead(s, r);
                    proof {
                        lemma_ws_lead(s, r);
                    }
                    let r3 = if r2 < s.len() && s[r2] == ',' {
                        r2 + 1
                    } else {
                        r2
                    };
                    array_from(s, r3, acc.push(v))
                },
                None => None,
            }
        }
    }
}

/// The members of an object from `p` (after `{` or a previous member),
/// with the members `acc` read, and the position after the closing `}`.
/// A key is read as a string whose first character, whatever it is,
/// stands for the opening quote; one character, whatever it is, stands for
/// the colon.
pub open spec fn object_from(s: Seq<char>, p: int, acc: Seq<(Seq<char>, JsonS)>) -> Option<(JsonS, int)>
    decreases s.len() - p, 1int,
{
    if p < 0 || p > s.len() {
        None
    } else {
        let q = ws_lead(s, p);
        proof {
            lemma_ws_lead(s, p);
        }
        if q >= s.len() {
            None
        } else if s[q] == '}' {
            Some((JsonS::Object(acc), q + 1))
        } else {
            match string_from(s, q + 1, seq![]) {
                Some((key, r1)) => {
                    proof {
                        lemma_string_from(s, q + 1, seq![]);
                        lemma_ws_lead(s, r1);
                    }
                    let r2 = ws_lead(s, r1);
                    if r2 >= s.len() {
                        None
                    } else {
                        match value_at(s, r2 + 1) {
                            Some((v, r4)) => if r4 <= q || r4 > s.len() {
                                None
                            } else {
                                let r5 = ws_lead(s, r4);
                                proof {
                                    lemma_ws_lead(s, r4);
                                }
                                let r6 = if r5 < s.len() && s[r5] == ',' {
                                    r5 + 1
                                } else {
                                    r5
                                };
                                object_from(s, r6, obj_insert(acc, key, v))
                            },
                            None => None,
                        }
                    }
                },
                None => None,
            }
        }
    }
}

/// The value a JSON text holds: read from its start, surrounding
/// whitespace ignored, anything after the value ignored.
pub open spec fn parse_json_spec(input: Seq<char>) -> Option<JsonS> {
    match value_at(trim_ws(input), 0) {
        Some((v, _)) => Some(v),
        None => None,
    }
}

// ── reading ──

fn digits_end_exec(t: &Vec<char>, j: usize) -> (e: usize)
    requires
        j <= t.len(),
    ensures
        e as int == digits_end(t@, j as int),
        j <= e <= t.len(),
{
    let mut e = j;
    while e < t.len() && '0' <= t[e] && t[e] <= '9'
        invariant
            j <= e <= t.len(),
            digits_end(t@, e as int) == digits_end(t@, j as int),
        decreases t.len() - e,
    {
        e = e + 1;
    }
    e
}

/// Whether a text is a number as Rust's `f64` parsing reads one (see
/// `float_syntax`).
fn is_float_text(t: &Vec<char>) -> (r: bool)
    ensures
        r == float_syntax(t@),
{
    let n = t.len();
    let a: usize = if n > 0 && (t[0] == '+' || t[0] == '-') {
        1
    } else {
        0
    };
    let d1 = digits_end_exec(t, a);
    let dot = d1 < n && t[d1] == '.';
    let d2 = if dot {
        digits_end_exec(t, d1 + 1)
    } else {
        d1
    };
    let frac = if dot {
        d2 - (d1 + 1)
    } else {
        0
    };
    if (d1 - a) + frac == 0 {
        return false;
    }
    if d2 == n {
        return true;
    }
    if !(t[d2] == 'e' || t[d2] == 'E') {
        return false;
    }
    let b0 = d2 + 1;
    let b = if b0 < n && (t[b0] == '+' || t[b0] == '-') {
        b0 + 1
    } else {
        b0
    };
    let d3 = digits_end_exec(t, b);
    d3 > b && d3 == n
}

/// `u32::from_str_radix(s, 16)`: the value when `s` is a well-formed
/// base-16 number that fits, nothing otherwise.
#[verifier::external_body]
fn u32_from_hex(s: &str) -> (r: Option<u32>)
    ensures
        r == (match parse_hex(s@) {
            Some(v) => if 0 <= v <= u32::MAX {
                Some(v as u32)
            } else {
                None
            },
            None => None,
        }),
{
    u32::from_str_radix(s, 16).ok()
}

/// `char::try_from(u32)`: the character when `v` is a Unicode scalar value.
#[verifier::external_body]
fn char_from_u32(v: u32) -> (r: Option<char>)
    ensures
        r == (if valid_scalar(v as int) {
            Some(v as char)
        } else {
            None
        }),
{
    char::try_from(v).ok()
}

/// The position of the first non-whitespace character from `p` on.
fn skip_whitespace(s: &Vec<char>, p: usize) -> (q: usize)
    requires
        p <= s.len(),
    ensures
        q as int == ws_lead(s@, p as int),
        p <= q <= s.len(),
{
    let mut i = p;
    proof {
        lemma_ws_lead(s@, p as int);
    }
    while i < s.len() && char_is_whitespace(s[i])
        invariant
            p <= i <= s.len(),
            ws_lead(s@, i as int) == ws_lead(s@, p as int),
        decreases s.len() - i,
    {
        i = i + 1;
    }
    i
}

/// Reads a string from `p`, just after its opening quote.
fn parse_string(s: &Vec<char>, p: usize) -> (r: Option<(String, usize)>)
    requires
        p <= s.len(),
    ensures
        match r {
            Some((t, q)) => string_from(s@, p as int, seq![]) == Some((t@, q as int)),
            None => string_from(s@, p as int, seq![]) is None,
        },
{
    let mut acc = String::new();
    let mut i = p;
    while i < s.len() && s[i] != '"'
        invariant
            p <= i <= s.len(),
            string_from(s@, i as int, acc@) == string_from(s@, p as int, seq![]),
        decreases s.len() - i,
    {
        if s[i] == '\\' {
            if i + 1 >= s.len() {
                return None;
            }
            let e = s[i + 1];
            if e == 'u' {
                let end = if s.len() - i > 6 {
                    i + 6
                } else {
                    s.len()
                };
                let h = string_of_range(s, i + 2, end);
                match u32_from_hex(h.as_str()) {
                    Some(v) => match char_from_u32(v) {
                        Some(c) => string_push(&mut acc, c),
                        None => {},
                    },
                    None => {},
                }
                i = end;
            } else {
                let c = if e == 'n' {
                    '\n'
                } else if e == 'r' {
                    '\r'
                } else if e == 't' {
                    '\t'
                } else {
                    e
                };
                string_push(&mut acc, c);
                i = i + 2;
            }
        } else {
            string_push(&mut acc, s[i]);
            i = i + 1;
        }
    }
    if i >= s.len() {
        return None;
    }
    Some((acc, i + 1))
}

/// Reads a number from `q`, kept as its text.
fn parse_number(s: &Vec<char>, q: usize) -> (r: Option<(JsonValue, usize)>)
    requires
        q < s.len(),
        is_digit(s@[q as int]) || s@[q as int] == '-',
    ensures
        match r {
            Some((v, e)) => value_at(s@, q as int) == Some((json_view(v), e as int)),
            None => value_at(s@, q as int) is None,
        },
{
    let start = if s[q] == '-' {
        q + 1
    } else {
        q
    };
    let mut e = start;
    while e < s.len() && (('0' <= s[e] && s[e] <= '9') || s[e] == '.' || s[e] == 'e' || s[e] == 'E'
        || s[e] == '+' || s[e] == '-')
        invariant
            start <= e <= s.len(),
            number_end(s@, e as int) == number_end(s@, start as int),
        decreases s.len() - e,
    {
        e = e + 1;
    }
    proof {
        lemma_number_end(s@, start as int);
        lemma_ws_lead(s@, q as int);
        assert(!is_white_space(s@[q as int]));
        assert(ws_lead(s@, q as int) == q);
    }
    let t = string_of_range(s, q, e);
    let tc = chars_of(t.as_str());
    if is_float_text(&tc) {
        Some((JsonValue::Number(t), e))
    } else {
        None
    }
}

/// Binds `key` to `v` in an object: a pair with that key gets the value,
/// otherwise the pair is added.
fn insert_member(acc: &mut Vec<(String, JsonValue)>, key: String, v: JsonValue)
    ensures
        json_pairs_view(final(acc)@) == obj_insert(json_pairs_view(old(acc)@), key@, json_view(v)),
{
    let ghost pv = json_pairs_view(acc@);
    proof {
        lemma_pairs_view_len(acc@);
    }
    let mut i: usize = 0;
    while i < acc.len()
        invariant
            i <= acc.len(),
            pv == json_pairs_view(acc@),
            acc@ == old(acc)@,
            pv.len() == acc.len(),
            forall|k: int| 0 <= k < pv.len() ==> #[trigger] pv[k] == (acc@[k].0@, json_view(acc@[k].1)),
            key_pos(pv, key@, i as int) == key_pos(pv, key@, 0),
        decreases acc.len() - i,
    {
        if str_eq(acc[i].0.as_str(), key.as_str()) {
            assert(pv[i as int].0 == key@);
            let ghost old_acc = acc@;
            let ghost kv = key@;
            let ghost jv = json_view(v);
            acc.set(i, (key, v));
            proof {
                let u = pv.update(i as int, (kv, jv));
                assert forall|k: int| 0 <= k < acc@.len() implies (acc@[k].0@, json_view(acc@[k].1))
                    == #[trigger] u[k] by {
                    if k != i {
                        assert(acc@[k] == old_acc[k]);
                    }
                }
                lemma_pairs_view_ext(acc@, u);
            }
            return;
        }
        i = i + 1;
    }
    let ghost kv = key@;
    let ghost jv = json_view(v);
    let ghost old_acc = acc@;
    acc.push((key, v));
    proof {
        let u = pv.push((kv, jv));
        assert forall|k: int| 0 <= k < acc@.len() implies (acc@[k].0@, json_view(acc@[k].1))
            == #[trigger] u[k] by {
            if k < old_acc.len() {
                assert(acc@[k] == old_acc[k]);
            }
        }
        lemma_pairs_view_ext(acc@, u);
    }
}

/// Reads the value that starts at `p` after any whitespace.
fn parse_value(s: &Vec<char>, p: usize) -> (r: Option<(JsonValue, usize)>)
    requires
        p <= s.len(),
    ensures
        match r {
            Some((v, e)) => value_at(s@, p as int) == Some((json_view(v), e as int)),
            None => value_at(s@, p as int) is None,
        },
    decreases s.len() - p, 0usize,
{
    let q = skip_whitespace(s, p);
    if q >= s.len() {
        return None;
    }
    let c = s[q];
    let len = s.len();
    if c == '"' {
        match parse_string(s, q + 1) {
            Some((t, r)) => Some((JsonValue::String(t), r)),
            None => None,
        }
    } else if c == '{' {
        parse_object(s, q + 1, Vec::new())
    } else if c == '[' {
        proof {
            assert(json_seq_view(Seq::<JsonValue>::empty()) == Seq::<JsonS>::empty());
        }
        parse_array(s, q + 1, Vec::new())
    } else if c == 't' || c == 'f' {
        parse_bool(s, q)
    } else if c == 'n' {
        Some((JsonValue::Null, if len - q > 4 { q + 4 } else { len }))
    } else if ('0' <= c && c <= '9') || c == '-' {
        let r = parse_number(s, q);
        proof {
            lemma_ws_lead(s@, q as int);
            assert(ws_lead(s@, q as int) == q);
        }
        r
    } else {
        None
    }
}

/// Reads `true` (four characters from `t`) or `false` (five from `f`).
fn parse_bool(s: &Vec<char>, q: usize) -> (r: Option<(JsonValue, usize)>)
    requires
        q < s.len(),
        s@[q as int] == 't' || s@[q as int] == 'f',
    ensures
        r matches Some((JsonValue::Bool(b), e)) && b == (s@[q as int] == 't') && e as int == (if s@[q as int] == 't' {
            if q + 4 < s.len() { q + 4 } else { s.len() as int }
        } else {
            if q + 5 < s.len() { q + 5 } else { s.len() as int }
        }),
{
    let len = s.len();
    if s[q] == 't' {
        Some((JsonValue::Bool(true), if len - q > 4 { q + 4 } else { len }))
    } else {
        Some((JsonValue::Bool(false), if len - q > 5 { q + 5 } else { len }))
    }
}

/// Reads the elements of an array from `p`, after the elements `acc`.
fn parse_array(s: &Vec<char>, p: usize, acc: Vec<JsonValue>) -> (r: Option<(JsonValue, usize)>)
    requires
        p <= s.len(),
    ensures
        match r {
            Some((v, e)) => array_from(s@, p as int, json_seq_view(acc@)) == Some((json_view(v), e as int)),
            None => array_from(s@, p as int, json_seq_view(acc@)) is None,
        },
    decreases s.len() - p, 1usize,
{
    let mut acc = acc;
    let q = skip_whitespace(s, p);
    if q >= s.len() {
        return None;
    }
    if s[q] == ']' {
        return Some((JsonValue::Array(acc), q + 1));
    }
    match parse_value(s, q) {
        Some((v, r)) => {
            if r <= q || r > s.len() {
                return None;
            }
            let r2 = skip_whitespace(s, r);
            let r3 = if r2 < s.len() && s[r2] == ',' {
                r2 + 1
            } else {
                r2
            };
            proof {
                lemma_seq_view_push(acc@, v);
            }
            acc.push(v);
            parse_array(s, r3, acc)
        },
        None => None,
    }
}

/// Reads the members of an object from `p`, after the members `acc`.
fn parse_object(s: &Vec<char>, p: usize, acc: Vec<(String, JsonValue)>) -> (r: Option<(JsonValue, usize)>)
    requires
        p <= s.len(),
    ensures
        match r {
            Some((v, e)) => object_from(s@, p as int, json_pairs_view(acc@)) == Some((json_view(v), e as int)),
            None => object_from(s@, p as int, json_pairs_view(acc@)) is None,
        },
    decreases s.len() - p, 1usize,
{
    let mut acc = acc;
    let q = skip_whitespace(s, p);
    if q >= s.len() {
        return None;
    }
    if s[q] == '}' {
        return Some((JsonValue::Object(acc), q + 1));
    }
    match parse_string(s, q + 1) {
        Some((key, r1)) => {
            proof {
                lemma_string_from(s@, q + 1, seq![]);
            }
            let r2 = skip_whitespace(s, r1);
            if r2 >= s.len() {
                return None;
            }
            match parse_value(s, r2 + 1) {
                Some((v, r4)) => {
                    if r4 <= q || r4 > s.len() {
                        return None;
                    }
                    let r5 = skip_whitespace(s, r4);
                    let r6 = if r5 < s.len() && s[r5] == ',' {
                        r5 + 1
                    } else {
                        r5
                    };
                    insert_member(&mut acc, key, v);
                    parse_object(s, r6, acc)
                },
                None => None,
            }
        },
        None => None,
    }
}

/// Reads a JSON text (see `parse_json_spec`).
pub fn parse_json(input: &str) -> (r: Option<JsonValue>)
    ensures
        match r {
            Some(v) => parse_json_spec(input@) == Some(json_view(v)),
            None => parse_json_spec(input@) is None,
        },
{
    let t = trim_whitespace(input);
    let s = chars_of(t.as_str());
    match parse_value(&s, 0) {
        Some((v, _)) => Some(v),
        None => None,
    }
}

// ── reading values ──

pub open spec fn as_object_s(j: JsonS) -> Option<Seq<(Seq<char>, JsonS)>> {
    match j {
        JsonS::Object(ps) => Some(ps),
        _ => None,
    }
}

pub open spec fn as_array_s(j: JsonS) -> Option<Seq<JsonS>> {
    match j {
        JsonS::Array(vs) => Some(vs),
        _ => None,
    }
}

pub open spec fn as_str_s(j: JsonS) -> Option<Seq<char>> {
    match j {
        JsonS::Str(t) => Some(t),
        _ => None,
    }
}

/// The value bound to `k` in an object.
pub open spec fn get_s(ps: Seq<(Seq<char>, JsonS)>, k: Seq<char>) -> Option<JsonS> {
    match key_pos(ps, k, 0) {
        Some(i) => Some(ps[i].1),
        None => None,
    }
}

/// The text bound to `k` in an object, when it is a string.
pub open spec fn get_str(ps: Seq<(Seq<char>, JsonS)>, k: Seq<char>) -> Option<Seq<char>> {
    match get_s(ps, k) {
        Some(JsonS::Str(t)) => Some(t),
        _ => None,
    }
}

proof fn lemma_key_pos(ps: Seq<(Seq<char>, JsonS)>, k: Seq<char>, i: int)
    requires
        0 <= i,
    ensures
        key_pos(ps, k, i) matches Some(j) ==> i <= j < ps.len() && ps[j].0 == k,
    decreases ps.len() - i,
{
    if i < ps.len() && ps[i].0 != k {
        lemma_key_pos(ps, k, i + 1);
    }
}

impl JsonValue {
    /// The members, when this is an object.
    pub fn as_object(&self) -> (r: Option<&Vec<(String, JsonValue)>>)
        ensures
            match r {
                Some(ps) => as_object_s(json_view(*self)) == Some(json_pairs_view(ps@)),
                None => as_object_s(json_view(*self)) is None,
            },
    {
        match self {
            JsonValue::Object(m) => Some(m),
            _ => None,
        }
    }

    /// The elements, when this is an array.
    pub fn as_array(&self) -> (r: Option<&Vec<JsonValue>>)
        ensures
            match r {
                Some(vs) => as_array_s(json_view(*self)) == Some(json_seq_view(vs@)),
                None => as_array_s(json_view(*self)) is None,
            },
    {
        match self {
            JsonValue::Array(a) => Some(a),
            _ => None,
        }
    }

    /// The text, when this is a string.
    pub fn as_str(&self) -> (r: Option<&str>)
        ensures
            match r {
                Some(t) => as_str_s(json_view(*self)) == Some(t@),
                None => as_str_s(json_view(*self)) is None,
            },
    {
        match self {
            JsonValue::String(t) => Some(t.as_str()),
            _ => None,
        }
    }

    /// The value bound to `key`, when this is an object that binds it.
    pub fn get(&self, key: &str) -> (r: Option<&JsonValue>)
        ensures
            match r {
                Some(v) => as_object_s(json_view(*self)) matches Some(ps) && get_s(ps, key@) == Some(
                    json_view(*v),
                ),
                None => as_object_s(json_view(*self)) matches Some(ps) ==> get_s(ps, key@) is None,
            },
    {
        match self {
            JsonValue::Object(m) => {
                let ghost pv = json_pairs_view(m@);
                proof {
                    lemma_pairs_view_len(m@);
                }
                let mut i: usize = 0;
                assert(json_view(*self) == JsonS::Object(pv));
                while i < m.len()
                    invariant
                        i <= m.len(),
                        json_view(*self) == JsonS::Object(pv),
                        pv == json_pairs_view(m@),
                        pv.len() == m.len(),
                        forall|k: int| 0 <= k < pv.len() ==> #[trigger] pv[k] == (m@[k].0@, json_view(m@[k].1)),
                        key_pos(pv, key@, i as int) == key_pos(pv, key@, 0),
                    decreases m.len() - i,
                {
                    if str_eq(m[i].0.as_str(), key) {
                        assert(pv[i as int].0 == key@);
                        assert(key_pos(pv, key@, i as int) == Some(i as int));
                        assert(json_view(*self) == JsonS::Object(pv));
                        assert(pv[i as int].1 == json_view(m@[i as int].1));
                        return Some(&m[i].1);
                    }
                    i = i + 1;
                }
                None
            },
            _ => None,
        }
    }
}

/// Whether the object value `seg`'s member `k` is a string, and which.
fn get_str_exec<'a>(seg: &'a JsonValue, k: &str) -> (r: Option<&'a str>)
    ensures
        as_object_s(json_view(*seg)) matches Some(ps) ==> match r {
            Some(t) => get_str(ps, k@) == Some(t@),
            None => get_str(ps, k@) is None,
        },
{
    match seg.get(k) {
        Some(v) => v.as_str(),
        None => None,
    }
}

// ── oh-my-posh themes ──

/// `s` from `i` on with every occurrence of `pat` (left to right, not
/// overlapping) replaced by `rep`.
pub open spec fn replace_from(s: Seq<char>, pat: Seq<char>, rep: Seq<char>, i: int) -> Seq<char>
    decreases s.len() - i,
{
    if i < 0 || i >= s.len() {
        seq![]
    } else if pat.len() > 0 && crate::helper::occurs_at(s, pat, i) {
        rep + replace_from(s, pat, rep, i + pat.len())
    } else {
        seq![s[i]] + replace_from(s, pat, rep, i + 1)
    }
}

/// `rep` before each character of `s` from `i` on, and once more at the
/// end.
pub open spec fn interleave_from(s: Seq<char>, rep: Seq<char>, i: int) -> Seq<char>
    decreases s.len() - i,
{
    if i < 0 || i >= s.len() {
        rep
    } else {
        rep + seq![s[i]] + interleave_from(s, rep, i + 1)
    }
}

/// `str::replace`: every occurrence of `pat` (left to right, not
/// overlapping) replaced by `rep`; the empty pattern occurs before each
/// character and at the end.
pub open spec fn replace_all(s: Seq<char>, pat: Seq<char>, rep: Seq<char>) -> Seq<char> {
    if pat.len() == 0 {
        interleave_from(s, rep, 0)
    } else {
        replace_from(s, pat, rep, 0)
    }
}

/// Replaces every occurrence of `pat` in `s` by `rep`.
pub fn replace_str(s: &str, pat: &str, rep: &str) -> (r: String)
    ensures
        r@ == replace_all(s@, pat@, rep@),
{
    let c = chars_of(s);
    let pc = chars_of(pat);
    let mut r = String::new();
    if pc.len() == 0 {
        let mut i: usize = 0;
        assert(r@ =~= seq![]);
        while i < c.len()
            invariant
                i <= c.len(),
                c@ == s@,
                pc@ == pat@,
                pat@.len() == 0,
                replace_all(s@, pat@, rep@) == r@ + interleave_from(c@, rep@, i as int),
            decreases c.len() - i,
        {
            let ghost r0 = r@;
            crate::text::string_append(&mut r, rep);
            string_push(&mut r, c[i]);
            assert(r@ =~= r0 + rep@ + seq![c@[i as int]]);
            i = i + 1;
            assert(r@ + interleave_from(c@, rep@, i as int) =~= r0 + interleave_from(c@, rep@, (i - 1) as int));
        }
        crate::text::string_append(&mut r, rep);
        return r;
    }
    let mut i: usize = 0;
    while i < c.len()
        invariant
            i <= c.len(),
            c@ == s@,
            pc@ == pat@,
            pc.len() > 0,
            replace_all(s@, pat@, rep@) == r@ + replace_from(c@, pc@, rep@, i as int),
        decreases c.len() - i,
    {
        let ghost r0 = r@;
        let mut j: usize = 0;
        let fits = pc.len() <= c.len() - i;
        if fits {
            while j < pc.len() && c[i + j] == pc[j]
                invariant
                    i + pc.len() <= c.len(),
                    j <= pc.len(),
                    forall|m: int| 0 <= m < j ==> c@[i + m] == pc@[m],
                decreases pc.len() - j,
            {
                j = j + 1;
            }
        }
        if fits && j == pc.len() {
            assert(c@.subrange(i as int, i + pc.len()) =~= pc@);
            crate::text::string_append(&mut r, rep);
            i = i + pc.len();
        } else {
            proof {
                if fits {
                    assert(c@.subrange(i as int, i + pc.len())[j as int] != pc@[j as int]);
                }
            }
            string_push(&mut r, c[i]);
            i = i + 1;
            assert(r@ =~= r0 + seq![c@[i - 1]]);
        }
        assert(r@ + replace_from(c@, pc@, rep@, i as int) =~= r0 + replace_from(c@, pc@, rep@, (if fits && j == pc.len() { i - pc.len() } else { i - 1 }) as int));
    }
    assert(replace_from(c@, pc@, rep@, i as int) =~= seq![]);
    r
}

/// The oh-my-posh template placeholders and glyph escapes, each with what
/// stands for it in a prompt format.
pub open spec fn template_rules() -> Seq<(Seq<char>, Seq<char>)> {
    seq![
        ("\\ue0b6"@, "\u{e0b6}"@),
        ("\\ue0b0"@, "\u{e0b0}"@),
        ("\\ue0b1"@, "\u{e0b1}"@),
        ("\\ue0b2"@, "\u{e0b2}"@),
        ("\\ue0b3"@, "\u{e0b3}"@),
        ("\\ue0b4"@, "\u{e0b4}"@),
        ("{{ .Folder }}"@, "{path}"@),
        ("{{ .Path }}"@, "{path}"@),
        ("{{ .UserName }}"@, "{user}"@),
        ("{{ .HostName }}"@, "{host}"@),
        ("{{ .Branch }}"@, "{git}"@),
        ("{{ .Code }}"@, "{exit}"@),
        ("{{ .Time }}"@, "{time}"@),
    ]
}

/// A template with the first `n` rules applied in turn.
pub open spec fn apply_rules(t: Seq<char>, n: int) -> Seq<char>
    decreases n,
{
    if n <= 0 || n > 13 {
        t
    } else {
        replace_all(apply_rules(t, n - 1), template_rules()[n - 1].0, template_rules()[n - 1].1)
    }
}

/// The prompt format for an oh-my-posh segment of type `ty`; nothing for
/// a type without one, or a text segment without a template.
pub open spec fn map_segment(ty: Seq<char>, seg: JsonS) -> Option<Seq<char>> {
    if ty == "session"@ {
        Some("{user}@{host}"@)
    } else if ty == "path"@ {
        Some("{path}"@)
    } else if ty == "git"@ {
        Some(" {git}"@)
    } else if ty == "exit"@ {
        Some("{exit}"@)
    } else if ty == "time"@ {
        Some("{time}"@)
    } else if ty == "text"@ {
        match as_object_s(seg) {
            Some(o) => match get_str(o, "template"@) {
                Some(t) => Some(apply_rules(t, 13)),
                None => None,
            },
            None => None,
        }
    } else {
        None
    }
}

/// A colour that stands for no colour.
pub open spec fn no_colour(c: Seq<char>) -> bool {
    c == "transparent"@ || c == "default"@
}

/// The style description of a segment's colours.
pub open spec fn style_text(fg: Option<Seq<char>>, bg: Option<Seq<char>>) -> Seq<char> {
    let a = match fg {
        Some(c) => if !no_colour(c) {
            c
        } else {
            seq![]
        },
        None => seq![],
    };
    match bg {
        Some(c) => if !no_colour(c) {
            a + " on_"@ + c
        } else {
            a
        },
        None => a,
    }
}

/// One segment: its prompt format and the style variable it sets, if any;
/// nothing when it is not an object with a string `type` that maps.
pub open spec fn segment_step(seg: JsonS) -> Option<(Seq<char>, Option<(Seq<char>, Seq<char>)>)> {
    match as_object_s(seg) {
        None => None,
        Some(o) => match get_str(o, "type"@) {
            None => None,
            Some(ty) => match map_segment(ty, seg) {
                None => None,
                Some(m) => {
                    let st = style_text(get_str(o, "foreground"@), get_str(o, "background"@));
                    if st.len() == 0 {
                        Some((m, None))
                    } else {
                        Some((m, Some(("GS_STYLE_"@ + upper_text(ty), st))))
                    }
                },
            },
        },
    }
}

/// The first `n` segments: whether all of them could be read, their
/// formats joined, and the style variables set on the way.
pub open spec fn segs_fold(segs: Seq<JsonS>, n: int) -> (bool, Seq<char>, Seq<(Seq<char>, Seq<char>)>)
    decreases n,
{
    if n <= 0 {
        (true, seq![], seq![])
    } else {
        let (ok, text, st) = segs_fold(segs, n - 1);
        if !ok {
            (ok, text, st)
        } else {
            match segment_step(segs[n - 1]) {
                None => (false, text, st),
                Some((m, set)) => (true, text + m, match set {
                    Some(p) => st.push(p),
                    None => st,
                }),
            }
        }
    }
}

/// The first `n` blocks: whether all could be read, the format of each
/// block that has a segment list, and the style variables set.
pub open spec fn blocks_fold(bs: Seq<JsonS>, n: int) -> (bool, Seq<Seq<char>>, Seq<(Seq<char>, Seq<char>)>)
    decreases n,
{
    if n <= 0 {
        (true, seq![], seq![])
    } else {
        let (ok, parts, st) = blocks_fold(bs, n - 1);
        if !ok {
            (ok, parts, st)
        } else {
            match as_object_s(bs[n - 1]) {
                None => (false, parts, st),
                Some(bo) => match get_s(bo, "segments"@) {
                    None => (false, parts, st),
                    Some(sv) => match as_array_s(sv) {
                        None => (true, parts, st),
                        Some(segs) => {
                            let (ok2, text, st2) = segs_fold(segs, segs.len() as int);
                            if ok2 {
                                (true, parts.push(text), st + st2)
                            } else {
                                (false, parts, st + st2)
                            }
                        },
                    },
                },
            }
        }
    }
}

/// The parts joined.
pub open spec fn concat(ps: Seq<Seq<char>>) -> Seq<char>
    decreases ps.len(),
{
    if ps.len() == 0 {
        seq![]
    } else {
        concat(ps.drop_last()) + ps.last()
    }
}

/// What an oh-my-posh theme gives: the prompt format of its blocks (none
/// when it cannot be read or has no block with segments), and the
/// `GS_STYLE_<TYPE>` variables to set, in order, as far as it was read.
pub open spec fn omp_spec(j: JsonS) -> (Option<Seq<char>>, Seq<(Seq<char>, Seq<char>)>) {
    match as_object_s(j) {
        None => (None, seq![]),
        Some(o) => match get_s(o, "blocks"@) {
            None => (None, seq![]),
            Some(b) => match as_array_s(b) {
                None => (None, seq![]),
                Some(bs) => {
                    let (ok, parts, st) = blocks_fold(bs, bs.len() as int);
                    if ok && parts.len() > 0 {
                        (Some(concat(parts)), st)
                    } else {
                        (None, st)
                    }
                },
            },
        },
    }
}

pub proof fn lemma_seq_view_index(vs: Seq<JsonValue>)
    ensures
        json_seq_view(vs).len() == vs.len(),
        forall|i: int| 0 <= i < vs.len() ==> #[trigger] json_seq_view(vs)[i] == json_view(vs[i]),
    decreases vs.len(),
{
    if vs.len() > 0 {
        let t = vs.subrange(1, vs.len() as int);
        lemma_seq_view_index(t);
        assert forall|i: int| 0 <= i < vs.len() implies #[trigger] json_seq_view(vs)[i] == json_view(vs[i]) by {
            if i > 0 {
                assert(t[i - 1] == vs[i]);
            }
        }
    }
}

proof fn lemma_segs_fold_stays(segs: Seq<JsonS>, k: int, n: int)
    requires
        0 <= k <= n,
        !segs_fold(segs, k).0,
    ensures
        segs_fold(segs, n) == segs_fold(segs, k),
    decreases n - k,
{
    if n > k {
        lemma_segs_fold_stays(segs, k, n - 1);
    }
}

proof fn lemma_blocks_fold_stays(bs: Seq<JsonS>, k: int, n: int)
    requires
        0 <= k <= n,
        !blocks_fold(bs, k).0,
    ensures
        blocks_fold(bs, n) == blocks_fold(bs, k),
    decreases n - k,
{
    if n > k {
        lemma_blocks_fold_stays(bs, k, n - 1);
    }
}

pub open spec fn string_pairs_view(v: Seq<(String, String)>) -> Seq<(Seq<char>, Seq<char>)> {
    v.map_values(|p: (String, String)| (p.0@, p.1@))
}

/// What an oh-my-posh theme gives (see `omp_spec`): the prompt format, and
/// the style variables to set, in order.
#[derive(Debug)]
pub struct OmpTheme {
    pub format: Option<String>,
    pub styles: Vec<(String, String)>,
}

fn apply_template_rules(t: &str) -> (r: String)
    ensures
        r@ == apply_rules(t@, 13),
{
    proof {
        reveal_strlit("\\ue0b6");
        reveal_strlit("\\ue0b0");
        reveal_strlit("\\ue0b1");
        reveal_strlit("\\ue0b2");
        reveal_strlit("\\ue0b3");
        reveal_strlit("\\ue0b4");
        reveal_strlit("{{ .Folder }}");
        reveal_strlit("{{ .Path }}");
        reveal_strlit("{{ .UserName }}");
        reveal_strlit("{{ .HostName }}");
        reveal_strlit("{{ .Branch }}");
        reveal_strlit("{{ .Code }}");
        reveal_strlit("{{ .Time }}");
    }
    let r0 = t.to_owned();
    let r1 = replace_str(r0.as_str(), "\\ue0b6", "\u{e0b6}");
    let r2 = replace_str(r1.as_str(), "\\ue0b0", "\u{e0b0}");
    let r3 = replace_str(r2.as_str(), "\\ue0b1", "\u{e0b1}");
    let r4 = replace_str(r3.as_str(), "\\ue0b2", "\u{e0b2}");
    let r5 = replace_str(r4.as_str(), "\\ue0b3", "\u{e0b3}");
    let r6 = replace_str(r5.as_str(), "\\ue0b4", "\u{e0b4}");
    let r7 = replace_str(r6.as_str(), "{{ .Folder }}", "{path}");
    let r8 = replace_str(r7.as_str(), "{{ .Path }}", "{path}");
    let r9 = replace_str(r8.as_str(), "{{ .UserName }}", "{user}");
    let r10 = replace_str(r9.as_str(), "{{ .HostName }}", "{host}");
    let r11 = replace_str(r10.as_str(), "{{ .Branch }}", "{git}");
    let r12 = replace_str(r11.as_str(), "{{ .Code }}", "{exit}");
    let r13 = replace_str(r12.as_str(), "{{ .Time }}", "{time}");
    assert(apply_rules(t@, 0) == t@);
    assert(apply_rules(t@, 1) == r1@);
    assert(apply_rules(t@, 2) == r2@);
    assert(apply_rules(t@, 3) == r3@);
    assert(apply_rules(t@, 4) == r4@);
    assert(apply_rules(t@, 5) == r5@);
    assert(apply_rules(t@, 6) == r6@);
    assert(apply_rules(t@, 7) == r7@);
    assert(apply_rules(t@, 8) == r8@);
    assert(apply_rules(t@, 9) == r9@);
    assert(apply_rules(t@, 10) == r10@);
    assert(apply_rules(t@, 11) == r11@);
    assert(apply_rules(t@, 12) == r12@);
    r13
}

fn map_segment_exec(ty: &str, seg: &JsonValue) -> (r: Option<String>)
    ensures
        match r {
            Some(m) => map_segment(ty@, json_view(*seg)) == Some(m@),
            None => map_segment(ty@, json_view(*seg)) is None,
        },
{
    if str_eq(ty, "session") {
        Some("{user}@{host}".to_owned())
    } else if str_eq(ty, "path") {
        Some("{path}".to_owned())
    } else if str_eq(ty, "git") {
        Some(" {git}".to_owned())
    } else if str_eq(ty, "exit") {
        Some("{exit}".to_owned())
    } else if str_eq(ty, "time") {
        Some("{time}".to_owned())
    } else if str_eq(ty, "text") {
        match seg.as_object() {
            Some(_) => match get_str_exec(seg, "template") {
                Some(t) => Some(apply_template_rules(t)),
                None => None,
            },
            None => None,
        }
    } else {
        None
    }
}

fn style_text_exec(fg: Option<&str>, bg: Option<&str>) -> (r: String)
    ensures
        r@ == style_text(
            match fg {
                Some(c) => Some(c@),
                None => None,
            },
            match bg {
                Some(c) => Some(c@),
                None => None,
            },
        ),
{
    let mut r = String::new();
    match fg {
        Some(c) => if !(str_eq(c, "transparent") || str_eq(c, "default")) {
            string_append(&mut r, c);
        },
        None => {},
    }
    match bg {
        Some(c) => if !(str_eq(c, "transparent") || str_eq(c, "default")) {
            string_append(&mut r, " on_");
            string_append(&mut r, c);
        },
        None => {},
    }
    r
}

fn segment_exec(seg: &JsonValue) -> (r: Option<(String, Option<(String, String)>)>)
    ensures
        match r {
            Some((m, set)) => segment_step(json_view(*seg)) == Some(
                (
                    m@,
                    match set {
                        Some(p) => Some((p.0@, p.1@)),
                        None => None,
                    },
                ),
            ),
            None => segment_step(json_view(*seg)) is None,
        },
{
    if seg.as_object().is_none() {
        return None;
    }
    let ty = match get_str_exec(seg, "type") {
        Some(t) => t,
        None => return None,
    };
    let m = match map_segment_exec(ty, seg) {
        Some(m) => m,
        None => return None,
    };
    let st = style_text_exec(get_str_exec(seg, "foreground"), get_str_exec(seg, "background"));
    if chars_of(st.as_str()).len() == 0 {
        Some((m, None))
    } else {
        let mut name = String::new();
        string_append(&mut name, "GS_STYLE_");
        string_append(&mut name, to_uppercase(ty).as_str());
        Some((m, Some((name, st))))
    }
}

fn segments_exec(segs: &Vec<JsonValue>) -> (r: (bool, String, Vec<(String, String)>))
    ensures
        (r.0, r.1@, string_pairs_view(r.2@)) == segs_fold(json_seq_view(segs@), segs@.len() as int),
{
    let ghost sv = json_seq_view(segs@);
    proof {
        lemma_seq_view_index(segs@);
    }
    let mut text = String::new();
    let mut styles: Vec<(String, String)> = Vec::new();
    let mut i: usize = 0;
    assert(string_pairs_view(styles@) =~= Seq::<(Seq<char>, Seq<char>)>::empty());
    while i < segs.len()
        invariant
            i <= segs.len(),
            sv == json_seq_view(segs@),
            sv.len() == segs.len(),
            forall|k: int| 0 <= k < segs.len() ==> #[trigger] sv[k] == json_view(segs@[k]),
            segs_fold(sv, i as int) == (true, text@, string_pairs_view(styles@)),
        decreases segs.len() - i,
    {
        assert(sv[i as int] == json_view(segs@[i as int]));
        match segment_exec(&segs[i]) {
            None => {
                proof {
                    lemma_segs_fold_stays(sv, i + 1, segs.len() as int);
                }
                return (false, text, styles);
            },
            Some((m, set)) => {
                string_append(&mut text, m.as_str());
                match set {
                    Some(p) => {
                        let ghost before = styles@;
                        let ghost pv = (p.0@, p.1@);
                        styles.push(p);
                        assert(string_pairs_view(styles@) =~= string_pairs_view(before).push(pv));
                    },
                    None => {},
                }
            },
        }
        i = i + 1;
    }
    (true, text, styles)
}

/// Reads an oh-my-posh theme (see `omp_spec`).
pub fn omp_theme(json: &JsonValue) -> (r: OmpTheme)
    ensures
        (
            match r.format {
                Some(f) => Some(f@),
                None => None,
            },
            string_pairs_view(r.styles@),
        ) == omp_spec(json_view(*json)),
{
    let none = OmpTheme { format: None, styles: Vec::new() };
    assert(string_pairs_view(none.styles@) =~= Seq::<(Seq<char>, Seq<char>)>::empty());
    if json.as_object().is_none() {
        return none;
    }
    let blocks_v = match json.get("blocks") {
        Some(b) => b,
        None => return none,
    };
    let blocks = match blocks_v.as_array() {
        Some(bs) => bs,
        None => return none,
    };
    let ghost bv = json_seq_view(blocks@);
    proof {
        lemma_seq_view_index(blocks@);
    }
    let mut parts: Vec<String> = Vec::new();
    let mut styles: Vec<(String, String)> = Vec::new();
    let mut i: usize = 0;
    assert(parts@.map_values(|t: String| t@) =~= Seq::<Seq<char>>::empty());
    assert(string_pairs_view(styles@) =~= Seq::<(Seq<char>, Seq<char>)>::empty());
    assert(json_view(*json) == JsonS::Object(
        as_object_s(json_view(*json))->0,
    ));
    while i < blocks.len()
        invariant
            i <= blocks.len(),
            bv == json_seq_view(blocks@),
            bv.len() == blocks.len(),
            forall|k: int| 0 <= k < blocks.len() ==> #[trigger] bv[k] == json_view(blocks@[k]),
            blocks_fold(bv, i as int) == (true, parts@.map_values(|t: String| t@), string_pairs_view(styles@)),
            as_object_s(json_view(*json)) matches Some(o) && get_s(o, "blocks"@) == Some(json_view(*blocks_v)),
            as_array_s(json_view(*blocks_v)) == Some(bv),
        decreases blocks.len() - i,
    {
        let block = &blocks[i];
        assert(bv[i as int] == json_view(*block));
        if block.as_object().is_none() {
            proof {
                lemma_blocks_fold_stays(bv, i + 1, blocks.len() as int);
            }
            return OmpTheme { format: None, styles };
        }
        let segs_v = match block.get("segments") {
            Some(sv) => sv,
            None => {
                proof {
                    lemma_blocks_fold_stays(bv, i + 1, blocks.len() as int);
                }
                return OmpTheme { format: None, styles };
            },
        };
        match segs_v.as_array() {
            None => {},
            Some(segs) => {
                proof {
                    lemma_seq_view_index(segs@);
                }
                let (ok2, text, st2) = segments_exec(segs);
                let ghost before = styles@;
                let mut st2 = st2;
                let ghost s2 = st2@;
                styles.append(&mut st2);
                assert(styles@ == before + s2);
                assert(string_pairs_view(styles@) =~= string_pairs_view(before) + string_pairs_view(s2));
                if !ok2 {
                    proof {
                        lemma_blocks_fold_stays(bv, i + 1, blocks.len() as int);
                    }
                    return OmpTheme { format: None, styles };
                }
                let ghost pb = parts@;
                parts.push(text);
                assert(parts@.map_values(|t: String| t@) =~= pb.map_values(|t: String| t@).push(text@));
            },
        }
        i = i + 1;
    }
    let ghost pv = parts@.map_values(|t: String| t@);
    if parts.len() == 0 {
        return OmpTheme { format: None, styles };
    }
    let mut f = String::new();
    let mut k: usize = 0;
    assert(pv.take(0) =~= Seq::<Seq<char>>::empty());
    while k < parts.len()
        invariant
            k <= parts.len(),
            pv == parts@.map_values(|t: String| t@),
            pv.len() == parts.len(),
            f@ == concat(pv.take(k as int)),
        decreases parts.len() - k,
    {
        string_append(&mut f, parts[k].as_str());
        assert(pv.take(k + 1).drop_last() =~= pv.take(k as int));
        assert(pv[k as int] == parts@[k as int]@);
        k = k + 1;
    }
    assert(pv.take(parts.len() as int) =~= pv);
    OmpTheme { format: Some(f), styles }
}

} // verus!
