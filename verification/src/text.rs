//! Character-sequence helpers shared by the lexer, the parser and the
//! expansion code.
use vstd::prelude::*;

verus! {

/// Characters with the Unicode `White_Space` property.
pub open spec fn is_white_space(c: char) -> bool {
    let u = c as u32;
    ||| 0x9 <= u <= 0xd
    ||| u == 0x20
    ||| u == 0x85
    ||| u == 0xa0
    ||| u == 0x1680
    ||| 0x2000 <= u <= 0x200a
    ||| u == 0x2028
    ||| u == 0x2029
    ||| u == 0x202f
    ||| u == 0x205f
    ||| u == 0x3000
}

/// `char::is_whitespace`: true exactly for the characters with the
/// Unicode `White_Space` property.
#[verifier::external_body]
pub(crate) fn char_is_whitespace(c: char) -> (r: bool)
    ensures
        r == is_white_space(c),
{
    c.is_whitespace()
}

/// Whether a character has the Unicode `Uppercase` property, as
/// `char::is_uppercase` decides it by the Unicode tables.
pub uninterp spec fn upper_char(c: char) -> bool;

/// `char::is_uppercase`: the result depends on `c` alone; the ASCII
/// capitals are upper case and the ASCII small letters are not.
#[verifier::external_body]
pub(crate) fn char_is_uppercase(c: char) -> (r: bool)
    ensures
        r == upper_char(c),
        'A' <= c <= 'Z' ==> r,
        'a' <= c <= 'z' ==> !r,
{
    c.is_uppercase()
}

/// ASCII decimal digit.
pub open spec fn is_digit(c: char) -> bool {
    '0' <= c && c <= '9'
}

pub fn char_is_digit(c: char) -> (r: bool)
    ensures
        r == is_digit(c),
{
    '0' <= c && c <= '9'
}

/// `String::push`: appends one character.
#[verifier::external_body]
pub(crate) fn string_push(s: &mut String, c: char)
    ensures
        final(s)@ == old(s)@.push(c),
{
    s.push(c);
}

/// The characters of a string slice, in order.
pub fn chars_of(s: &str) -> (r: Vec<char>)
    ensures
        r@ == s@,
{
    let mut r: Vec<char> = Vec::new();
    for c in it: s.chars()
        invariant
            r@ == it.seq().take(it.index() as int),
    {
        r.push(c);
    }
    r
}

/// A string holding the characters `v[lo..hi]`.
pub fn string_of_range(v: &Vec<char>, lo: usize, hi: usize) -> (r: String)
    requires
        lo <= hi <= v.len(),
    ensures
        r@ == v@.subrange(lo as int, hi as int),
{
    let mut r = String::new();
    let mut i = lo;
    while i < hi
        invariant
            lo <= i <= hi <= v.len(),
            r@ == v@.subrange(lo as int, i as int),
        decreases hi - i,
    {
        string_push(&mut r, v[i]);
        i = i + 1;
        assert(r@ =~= v@.subrange(lo as int, i as int));
    }
    r
}

/// A string holding all characters of `v`.
pub fn string_of(v: &Vec<char>) -> (r: String)
    ensures
        r@ == v@,
{
    let r = string_of_range(v, 0, v.len());
    assert(v@.subrange(0, v@.len() as int) =~= v@);
    r
}

} // verus!

verus! {

/// The value of a run of decimal digits.
pub open spec fn digits_value(s: Seq<char>) -> int
    decreases s.len(),
{
    if s.len() == 0 {
        0
    } else {
        digits_value(s.drop_last()) * 10 + (s.last() as int - '0' as int)
    }
}

/// A run of digits has a value of at least zero.
pub proof fn lemma_digits_value_nonneg(s: Seq<char>)
    requires
        all_digits(s),
    ensures
        digits_value(s) >= 0,
    decreases s.len(),
{
    if s.len() > 0 {
        assert(is_digit(s[s.len() - 1]));
        assert(all_digits(s.drop_last())) by {
            assert forall|k: int| 0 <= k < s.drop_last().len() implies is_digit(#[trigger] s.drop_last()[k]) by {
                assert(s.drop_last()[k] == s[k]);
            }
        }
        lemma_digits_value_nonneg(s.drop_last());
    }
}

/// Every character is an ASCII decimal digit.
pub open spec fn all_digits(s: Seq<char>) -> bool {
    forall|k: int| 0 <= k < s.len() ==> is_digit(#[trigger] s[k])
}

/// The integer written in `s` the way Rust's `FromStr` for signed
/// integers reads it: an optional `+` or `-`, then one or more ASCII
/// digits, and nothing else.
pub open spec fn parse_signed(s: Seq<char>) -> Option<int> {
    if s.len() > 0 && (s[0] == '+' || s[0] == '-') {
        let rest = s.skip(1);
        if rest.len() > 0 && all_digits(rest) {
            if s[0] == '-' {
                Some(-digits_value(rest))
            } else {
                Some(digits_value(rest))
            }
        } else {
            None
        }
    } else if s.len() > 0 && all_digits(s) {
        Some(digits_value(s))
    } else {
        None
    }
}

/// The integer written in `s` the way Rust's `FromStr` for unsigned
/// integers reads it: an optional `+`, then one or more ASCII digits.
pub open spec fn parse_unsigned(s: Seq<char>) -> Option<int> {
    if s.len() > 0 && s[0] == '+' {
        let rest = s.skip(1);
        if rest.len() > 0 && all_digits(rest) {
            Some(digits_value(rest))
        } else {
            None
        }
    } else if s.len() > 0 && all_digits(s) {
        Some(digits_value(s))
    } else {
        None
    }
}

/// What `parse_unsigned` reads is never negative.
pub proof fn lemma_parse_unsigned_nonneg(s: Seq<char>)
    ensures
        parse_unsigned(s) matches Some(v) ==> v >= 0,
{
    if s.len() > 0 && s[0] == '+' {
        if s.skip(1).len() > 0 && all_digits(s.skip(1)) {
            lemma_digits_value_nonneg(s.skip(1));
        }
    } else if s.len() > 0 && all_digits(s) {
        lemma_digits_value_nonneg(s);
    }
}

/// `str::parse::<i32>`: the value when `s` is a well-formed integer that
/// fits in an `i32`, nothing otherwise.
#[verifier::external_body]
pub(crate) fn parse_i32(s: &str) -> (r: Option<i32>)
    ensures
        r == (match parse_signed(s@) {
            Some(v) => if i32::MIN <= v <= i32::MAX {
                Some(v as i32)
            } else {
                None
            },
            None => None,
        }),
{
    s.parse::<i32>().ok()
}

/// `str::parse::<i64>`: the value when `s` is a well-formed integer that
/// fits in an `i64`, nothing otherwise.
#[verifier::external_body]
pub(crate) fn parse_i64(s: &str) -> (r: Option<i64>)
    ensures
        r == (match parse_signed(s@) {
            Some(v) => if i64::MIN <= v <= i64::MAX {
                Some(v as i64)
            } else {
                None
            },
            None => None,
        }),
{
    s.parse::<i64>().ok()
}

/// `str::parse::<usize>`: the value when `s` is a well-formed unsigned
/// integer that fits in a `usize`, nothing otherwise.
#[verifier::external_body]
pub(crate) fn parse_usize(s: &str) -> (r: Option<usize>)
    ensures
        r == (match parse_unsigned(s@) {
            Some(v) => if v <= usize::MAX {
                Some(v as usize)
            } else {
                None
            },
            None => None,
        }),
{
    s.parse::<usize>().ok()
}

/// `str::parse::<u8>`: the value when `s` is a well-formed unsigned
/// integer below 256, nothing otherwise.
#[verifier::external_body]
pub(crate) fn parse_u8(s: &str) -> (r: Option<u8>)
    ensures
        r == (match parse_unsigned(s@) {
            Some(v) => if v <= 255 {
                Some(v as u8)
            } else {
                None
            },
            None => None,
        }),
{
    s.parse::<u8>().ok()
}

/// Whether two character sequences are equal.
pub fn chars_eq(a: &Vec<char>, b: &Vec<char>) -> (r: bool)
    ensures
        r == (a@ == b@),
{
    if a.len() != b.len() {
        return false;
    }
    let mut i: usize = 0;
    while i < a.len()
        invariant
            a.len() == b.len(),
            i <= a.len(),
            forall|k: int| 0 <= k < i ==> a@[k] == b@[k],
        decreases a.len() - i,
    {
        if a[i] != b[i] {
            return false;
        }
        i = i + 1;
    }
    assert(a@ =~= b@);
    true
}

/// Whether a string has exactly the characters of `lit`.
pub fn str_eq(s: &str, lit: &str) -> (r: bool)
    ensures
        r == (s@ == lit@),
{
    let a = chars_of(s);
    let b = chars_of(lit);
    chars_eq(&a, &b)
}

} // verus!

verus! {

/// The decimal digits of a natural number.
pub open spec fn nat_digits(n: nat) -> Seq<char>
    decreases n,
{
    if n < 10 {
        seq![(('0' as int) + n) as char]
    } else {
        nat_digits(n / 10).push((('0' as int) + n % 10) as char)
    }
}

/// The decimal text of an integer, with a leading `-` when negative.
pub open spec fn decimal(n: int) -> Seq<char> {
    if n < 0 {
        seq!['-'] + nat_digits((-n) as nat)
    } else {
        nat_digits(n as nat)
    }
}

/// `i32::to_string`: the decimal text of `n`.
#[verifier::external_body]
pub(crate) fn i32_to_string(n: i32) -> (r: String)
    ensures
        r@ == decimal(n as int),
{
    n.to_string()
}

/// `usize::to_string`: the decimal text of `n`.
#[verifier::external_body]
pub(crate) fn usize_to_string(n: usize) -> (r: String)
    ensures
        r@ == decimal(n as int),
{
    n.to_string()
}

/// `String::push_str`: appends the characters of `t`.
pub fn string_append(s: &mut String, t: &str)
    ensures
        final(s)@ == old(s)@ + t@,
{
    let v = chars_of(t);
    let ghost start = s@;
    let mut i: usize = 0;
    while i < v.len()
        invariant
            i <= v.len(),
            v@ == t@,
            s@ == start + v@.take(i as int),
        decreases v.len() - i,
    {
        string_push(s, v[i]);
        i = i + 1;
        assert(s@ =~= start + v@.take(i as int));
    }
    assert(v@.take(v.len() as int) =~= v@);
}

} // verus!

verus! {

/// The position of the first non-whitespace character from `i` on.
pub open spec fn ws_lead(s: Seq<char>, i: int) -> int
    decreases s.len() - i,
{
    if i < 0 || i >= s.len() || !is_white_space(s[i]) {
        i
    } else {
        ws_lead(s, i + 1)
    }
}

/// The end of `s[..j]` once its trailing whitespace is dropped.
pub open spec fn ws_trail(s: Seq<char>, j: int) -> int
    decreases j,
{
    if j <= 0 || j > s.len() || !is_white_space(s[j - 1]) {
        j
    } else {
        ws_trail(s, j - 1)
    }
}

/// `s` without leading and trailing whitespace.
pub open spec fn trim_ws(s: Seq<char>) -> Seq<char> {
    let lo = ws_lead(s, 0);
    let hi = ws_trail(s, s.len() as int);
    if lo >= hi {
        seq![]
    } else {
        s.subrange(lo, hi)
    }
}

/// `s` without trailing whitespace.
pub open spec fn trim_end_ws(s: Seq<char>) -> Seq<char> {
    s.take(ws_trail(s, s.len() as int))
}

proof fn lemma_ws_trail_bounds(s: Seq<char>, j: int)
    requires
        0 <= j <= s.len(),
    ensures
        0 <= ws_trail(s, j) <= j,
    decreases j,
{
    if j > 0 && is_white_space(s[j - 1]) {
        lemma_ws_trail_bounds(s, j - 1);
    }
}

/// `str::trim`: the text without surrounding whitespace.
pub fn trim_whitespace(s: &str) -> (r: String)
    ensures
        r@ == trim_ws(s@),
{
    let v = chars_of(s);
    let mut lo: usize = 0;
    while lo < v.len() && char_is_whitespace(v[lo])
        invariant
            lo <= v.len(),
            v@ == s@,
            ws_lead(v@, lo as int) == ws_lead(v@, 0),
        decreases v.len() - lo,
    {
        lo = lo + 1;
    }
    let mut hi: usize = v.len();
    while hi > 0 && char_is_whitespace(v[hi - 1])
        invariant
            hi <= v.len(),
            v@ == s@,
            ws_trail(v@, hi as int) == ws_trail(v@, v@.len() as int),
        decreases hi,
    {
        hi = hi - 1;
    }
    if lo >= hi {
        return String::new();
    }
    string_of_range(&v, lo, hi)
}

/// `str::trim_end`: the text without trailing whitespace.
pub fn trim_end_whitespace(s: &str) -> (r: String)
    ensures
        r@ == trim_end_ws(s@),
{
    let v = chars_of(s);
    let mut hi: usize = v.len();
    while hi > 0 && char_is_whitespace(v[hi - 1])
        invariant
            hi <= v.len(),
            v@ == s@,
            ws_trail(v@, hi as int) == ws_trail(v@, v@.len() as int),
        decreases hi,
    {
        hi = hi - 1;
    }
    proof {
        lemma_ws_trail_bounds(v@, v@.len() as int);
    }
    string_of_range(&v, 0, hi)
}

} // verus!

verus! {

/// `p` is a prefix of `s`.
pub open spec fn is_prefix(p: Seq<char>, s: Seq<char>) -> bool {
    p.len() <= s.len() && s.take(p.len() as int) == p
}

/// Whether `s` begins with `p`.
pub fn starts_with_chars(s: &Vec<char>, p: &Vec<char>) -> (r: bool)
    ensures
        r == is_prefix(p@, s@),
{
    if p.len() > s.len() {
        return false;
    }
    let mut i: usize = 0;
    while i < p.len()
        invariant
            p.len() <= s.len(),
            i <= p.len(),
            forall|k: int| 0 <= k < i ==> s@[k] == p@[k],
        decreases p.len() - i,
    {
        if s[i] != p[i] {
            assert(s@.take(p.len() as int)[i as int] != p@[i as int]);
            return false;
        }
        i = i + 1;
    }
    assert(s@.take(p.len() as int) =~= p@);
    true
}

/// The lower-case form of a string, as `str::to_lowercase` computes it
/// by the Unicode case tables.
pub uninterp spec fn lowercase(s: Seq<char>) -> Seq<char>;

/// The upper-case form of a string, as `str::to_uppercase` computes it
/// by the Unicode case tables.
pub uninterp spec fn uppercase(s: Seq<char>) -> Seq<char>;

/// Every character is ASCII.
pub open spec fn is_ascii_str(s: Seq<char>) -> bool {
    forall|i: int| 0 <= i < s.len() ==> (#[trigger] s[i] as u32) < 128
}

/// An ASCII capital made small; any other character as it is.
pub open spec fn ascii_lower_char(c: char) -> char {
    if 'A' <= c <= 'Z' {
        ((c as u32) + 32) as char
    } else {
        c
    }
}

/// An ASCII small letter made a capital; any other character as it is.
pub open spec fn ascii_upper_char(c: char) -> char {
    if 'a' <= c <= 'z' {
        ((c as u32) - 32) as char
    } else {
        c
    }
}

/// An ASCII string with its capitals made small.
pub open spec fn ascii_lower(s: Seq<char>) -> Seq<char> {
    s.map_values(|c: char| ascii_lower_char(c))
}

/// An ASCII string with its small letters made capitals.
pub open spec fn ascii_upper(s: Seq<char>) -> Seq<char> {
    s.map_values(|c: char| ascii_upper_char(c))
}

/// The lower-case form of a string: for an ASCII string its capitals made
/// small, otherwise by the Unicode case tables.
pub open spec fn lower_text(s: Seq<char>) -> Seq<char> {
    if is_ascii_str(s) {
        ascii_lower(s)
    } else {
        lowercase(s)
    }
}

/// The upper-case form of a string: for an ASCII string its small letters
/// made capitals, otherwise by the Unicode case tables.
pub open spec fn upper_text(s: Seq<char>) -> Seq<char> {
    if is_ascii_str(s) {
        ascii_upper(s)
    } else {
        uppercase(s)
    }
}

/// `str::to_lowercase`; the result depends on `s` alone, and on an ASCII
/// string it turns `A`..`Z` into `a`..`z` and keeps every other character.
#[verifier::external_body]
pub(crate) fn to_lowercase(s: &str) -> (r: String)
    ensures
        r@ == lowercase(s@),
        is_ascii_str(s@) ==> r@ == ascii_lower(s@),
{
    s.to_lowercase()
}

/// `str::to_uppercase`; the result depends on `s` alone, and on an ASCII
/// string it turns `a`..`z` into `A`..`Z` and keeps every other character.
#[verifier::external_body]
pub(crate) fn to_uppercase(s: &str) -> (r: String)
    ensures
        r@ == uppercase(s@),
        is_ascii_str(s@) ==> r@ == ascii_upper(s@),
{
    s.to_uppercase()
}

} // verus!

verus! {

/// The whitespace-separated words of `s[i..]`, after the words `acc` and
/// the partial word `cur` already read.
pub open spec fn words_from(s: Seq<char>, i: int, cur: Seq<char>, acc: Seq<Seq<char>>) -> Seq<Seq<char>>
    decreases s.len() - i,
{
    if i < 0 || i >= s.len() {
        if cur.len() > 0 {
            acc.push(cur)
        } else {
            acc
        }
    } else if is_white_space(s[i]) {
        words_from(s, i + 1, seq![], if cur.len() > 0 {
            acc.push(cur)
        } else {
            acc
        })
    } else {
        words_from(s, i + 1, cur.push(s[i]), acc)
    }
}

/// `str::split_whitespace`: the maximal runs of non-whitespace characters.
pub open spec fn ws_words(s: Seq<char>) -> Seq<Seq<char>> {
    words_from(s, 0, seq![], seq![])
}

/// The words of `s`, as `str::split_whitespace` yields them.
pub fn split_whitespace(s: &str) -> (r: Vec<String>)
    ensures
        r@.map_values(|w: String| w@) == ws_words(s@),
{
    let v = chars_of(s);
    let mut acc: Vec<String> = Vec::new();
    let mut cur: Vec<char> = Vec::new();
    let mut i: usize = 0;
    assert(acc@.map_values(|w: String| w@) =~= Seq::<Seq<char>>::empty());
    assert(cur@ =~= Seq::<char>::empty());
    while i < v.len()
        invariant
            i <= v.len(),
            v@ == s@,
            words_from(v@, i as int, cur@, acc@.map_values(|w: String| w@)) == ws_words(s@),
        decreases v.len() - i,
    {
        let ghost acc0 = acc@;
        if char_is_whitespace(v[i]) {
            if cur.len() > 0 {
                let w = string_of(&cur);
                acc.push(w);
                assert(acc@.map_values(|w: String| w@) =~= acc0.map_values(|w: String| w@).push(cur@));
            }
            cur = Vec::new();
        } else {
            cur.push(v[i]);
        }
        i = i + 1;
    }
    if cur.len() > 0 {
        let ghost acc0 = acc@;
        let w = string_of(&cur);
        acc.push(w);
        assert(acc@.map_values(|w: String| w@) =~= acc0.map_values(|w: String| w@).push(cur@));
    }
    acc
}

} // verus!

verus! {

/// ASCII hexadecimal digit.
pub open spec fn is_hex_digit(c: char) -> bool {
    ('0' <= c && c <= '9') || ('a' <= c && c <= 'f') || ('A' <= c && c <= 'F')
}

/// The value of one hexadecimal digit.
pub open spec fn hex_digit_value(c: char) -> int {
    if '0' <= c && c <= '9' {
        c as int - '0' as int
    } else if 'a' <= c && c <= 'f' {
        c as int - 'a' as int + 10
    } else {
        c as int - 'A' as int + 10
    }
}

/// The value of a run of hexadecimal digits.
pub open spec fn hex_value(s: Seq<char>) -> int
    decreases s.len(),
{
    if s.len() == 0 {
        0
    } else {
        hex_value(s.drop_last()) * 16 + hex_digit_value(s.last())
    }
}

pub open spec fn all_hex(s: Seq<char>) -> bool {
    forall|k: int| 0 <= k < s.len() ==> is_hex_digit(#[trigger] s[k])
}

/// The number written in `s` in base 16 the way `from_str_radix` reads
/// an unsigned integer: an optional `+`, then one or more hex digits.
pub open spec fn parse_hex(s: Seq<char>) -> Option<int> {
    if s.len() > 0 && s[0] == '+' {
        let rest = s.skip(1);
        if rest.len() > 0 && all_hex(rest) {
            Some(hex_value(rest))
        } else {
            None
        }
    } else if s.len() > 0 && all_hex(s) {
        Some(hex_value(s))
    } else {
        None
    }
}

/// `u8::from_str_radix(s, 16)`: the value when `s` is a well-formed
/// base-16 number below 256, nothing otherwise.
#[verifier::external_body]
pub(crate) fn u8_from_hex(s: &str) -> (r: Option<u8>)
    ensures
        r == (match parse_hex(s@) {
            Some(v) => if 0 <= v <= 255 {
                Some(v as u8)
            } else {
                None
            },
            None => None,
        }),
{
    u8::from_str_radix(s, 16).ok()
}

} // verus!
