//! The prompt: colour styles and their ANSI codes, and the expansion of a
//! prompt format with `{segment}` placeholders and backslash escapes.
use vstd::prelude::*;
use crate::text::{
    chars_of, string_of, string_of_range, string_push, string_append, str_eq, is_prefix,
    starts_with_chars, ws_words, split_whitespace, lower_text, to_lowercase, upper_text,
    to_uppercase, decimal, usize_to_string, i32_to_string, parse_unsigned, parse_u8,
    parse_hex, u8_from_hex, trim_whitespace, trim_ws,
};
use crate::tab::opt_str_view;
use crate::expand::{lookup, env_s, lookup_exec};
use crate::parser::find_from;

verus! {

// ── styles ──

/// A text style: colours by name, number or `#rrggbb`, and attributes.
#[derive(Clone, Debug)]
pub struct Style {
    pub fg: Option<String>,
    pub bg: Option<String>,
    pub bold: bool,
    pub dim: bool,
    pub italic: bool,
}

/// A style as a value: foreground, background, bold, dim, italic.
pub type StyleS = (Option<Seq<char>>, Option<Seq<char>>, bool, bool, bool);

pub open spec fn opt_view(o: Option<String>) -> Option<Seq<char>> {
    match o {
        Some(s) => Some(s@),
        None => None,
    }
}

impl View for Style {
    type V = StyleS;

    open spec fn view(&self) -> StyleS {
        (opt_view(self.fg), opt_view(self.bg), self.bold, self.dim, self.italic)
    }
}

/// One word of a style description applied to a style: the attributes
/// `bold`, `dim`, `italic` (any case; `underline` is accepted and
/// ignored), `on_COLOR` for the background, and the first other word for
/// the foreground.
pub open spec fn style_word(st: StyleS, w: Seq<char>) -> StyleS {
    let l = lower_text(w);
    if l == "bold"@ {
        (st.0, st.1, true, st.3, st.4)
    } else if l == "dim"@ {
        (st.0, st.1, st.2, true, st.4)
    } else if l == "italic"@ {
        (st.0, st.1, st.2, st.3, true)
    } else if l == "underline"@ {
        st
    } else if is_prefix("on_"@, w) {
        (st.0, Some(w.skip(3)), st.2, st.3, st.4)
    } else if st.0 is None {
        (Some(w), st.1, st.2, st.3, st.4)
    } else {
        st
    }
}

/// The style that a sequence of words describes.
pub open spec fn style_words(ws: Seq<Seq<char>>) -> StyleS
    decreases ws.len(),
{
    if ws.len() == 0 {
        (None, None, false, false, false)
    } else {
        style_word(style_words(ws.drop_last()), ws.last())
    }
}

/// `38` for a foreground colour, `48` for a background one.
pub open spec fn color_base(bg: bool) -> Seq<char> {
    if bg {
        "48"@
    } else {
        "38"@
    }
}

/// The number of a named colour of the 256-colour palette.
pub open spec fn named_color(name: Seq<char>) -> Option<int> {
    if name == "black"@ {
        Some(0)
    } else if name == "red"@ {
        Some(1)
    } else if name == "green"@ {
        Some(2)
    } else if name == "yellow"@ {
        Some(3)
    } else if name == "blue"@ {
        Some(4)
    } else if name == "magenta"@ || name == "purple"@ {
        Some(5)
    } else if name == "cyan"@ {
        Some(6)
    } else if name == "white"@ {
        Some(7)
    } else if name == "bright_black"@ || name == "gray"@ || name == "grey"@ {
        Some(8)
    } else if name == "bright_red"@ {
        Some(9)
    } else if name == "bright_green"@ {
        Some(10)
    } else if name == "bright_yellow"@ {
        Some(11)
    } else if name == "bright_blue"@ {
        Some(12)
    } else if name == "bright_magenta"@ || name == "bright_purple"@ {
        Some(13)
    } else if name == "bright_cyan"@ {
        Some(14)
    } else if name == "bright_white"@ {
        Some(15)
    } else {
        None
    }
}

/// A byte written as hexadecimal digits.
pub open spec fn hex_byte(s: Seq<char>) -> Option<int> {
    match parse_hex(s) {
        Some(v) => if 0 <= v <= 255 {
            Some(v)
        } else {
            None
        },
        None => None,
    }
}

/// The red, green and blue of `#rrggbb`.
pub open spec fn hex_color(name: Seq<char>) -> Option<(int, int, int)> {
    if name.len() == 7 && name[0] == '#' {
        match (
            hex_byte(name.subrange(1, 3)),
            hex_byte(name.subrange(3, 5)),
            hex_byte(name.subrange(5, 7)),
        ) {
            (Some(r), Some(g), Some(b)) => Some((r, g, b)),
            _ => None,
        }
    } else {
        None
    }
}

/// The ANSI parameters that select a colour: a palette entry for a name
/// or a number below 256, a 24-bit colour for `#rrggbb`, nothing for
/// anything else.
pub open spec fn ansi_color(name: Seq<char>, bg: bool) -> Seq<char> {
    match named_color(name) {
        Some(n) => color_base(bg) + ";5;"@ + decimal(n),
        None => match hex_color(name) {
            Some((r, g, b)) => color_base(bg) + ";2;"@ + decimal(r) + ";"@ + decimal(g) + ";"@
                + decimal(b),
            None => match parse_unsigned(name) {
                Some(v) => if v <= 255 {
                    color_base(bg) + ";5;"@ + decimal(v)
                } else {
                    seq![]
                },
                None => seq![],
            },
        },
    }
}

/// The ANSI parameters of a style, in order: bold, dim, italic,
/// foreground, background.
pub open spec fn ansi_codes(st: StyleS) -> Seq<Seq<char>> {
    let c1: Seq<Seq<char>> = if st.2 {
        seq!["1"@]
    } else {
        seq![]
    };
    let c2 = if st.3 {
        c1.push("2"@)
    } else {
        c1
    };
    let c3 = if st.4 {
        c2.push("3"@)
    } else {
        c2
    };
    let c4 = match st.0 {
        Some(fg) => c3.push(ansi_color(fg, false)),
        None => c3,
    };
    match st.1 {
        Some(bg) => c4.push(ansi_color(bg, true)),
        None => c4,
    }
}

/// The parts joined by `sep`.
pub open spec fn join_with(ws: Seq<Seq<char>>, sep: Seq<char>) -> Seq<char>
    decreases ws.len(),
{
    if ws.len() == 0 {
        seq![]
    } else if ws.len() == 1 {
        ws[0]
    } else {
        join_with(ws.drop_last(), sep) + sep + ws.last()
    }
}

/// The escape sequence that switches a terminal to a style; empty for the
/// plain style.
pub open spec fn style_ansi(st: StyleS) -> Seq<char> {
    let cs = ansi_codes(st);
    if cs.len() == 0 {
        seq![]
    } else {
        seq!['\x1b', '['] + join_with(cs, ";"@) + "m"@
    }
}

/// The ANSI parameters for a colour given by name, palette number or
/// `#rrggbb`, as foreground or background; empty when it is none of these.
pub fn color_to_ansi(name: &str, bg: bool) -> (r: String)
    ensures
        r@ == ansi_color(name@, bg),
{
    let named: Option<usize> = if str_eq(name, "black") {
        Some(0)
    } else if str_eq(name, "red") {
        Some(1)
    } else if str_eq(name, "green") {
        Some(2)
    } else if str_eq(name, "yellow") {
        Some(3)
    } else if str_eq(name, "blue") {
        Some(4)
    } else if str_eq(name, "magenta") || str_eq(name, "purple") {
        Some(5)
    } else if str_eq(name, "cyan") {
        Some(6)
    } else if str_eq(name, "white") {
        Some(7)
    } else if str_eq(name, "bright_black") || str_eq(name, "gray") || str_eq(name, "grey") {
        Some(8)
    } else if str_eq(name, "bright_red") {
        Some(9)
    } else if str_eq(name, "bright_green") {
        Some(10)
    } else if str_eq(name, "bright_yellow") {
        Some(11)
    } else if str_eq(name, "bright_blue") {
        Some(12)
    } else if str_eq(name, "bright_magenta") || str_eq(name, "bright_purple") {
        Some(13)
    } else if str_eq(name, "bright_cyan") {
        Some(14)
    } else if str_eq(name, "bright_white") {
        Some(15)
    } else {
        None
    };
    assert(named_color(name@) == match named {
        Some(n) => Some(n as int),
        None => None::<int>,
    });
    let mut r = String::new();
    if bg {
        string_append(&mut r, "48");
    } else {
        string_append(&mut r, "38");
    }
    assert(r@ == color_base(bg));
    match named {
        Some(n) => {
            string_append(&mut r, ";5;");
            string_append(&mut r, usize_to_string(n).as_str());
            return r;
        },
        None => {},
    }
    let c = chars_of(name);
    if c.len() == 7 && c[0] == '#' {
        let rr = u8_from_hex(string_of_range(&c, 1, 3).as_str());
        let gg = u8_from_hex(string_of_range(&c, 3, 5).as_str());
        let bb = u8_from_hex(string_of_range(&c, 5, 7).as_str());
        match (rr, gg, bb) {
            (Some(x), Some(y), Some(z)) => {
                string_append(&mut r, ";2;");
                string_append(&mut r, usize_to_string(x as usize).as_str());
                string_append(&mut r, ";");
                string_append(&mut r, usize_to_string(y as usize).as_str());
                string_append(&mut r, ";");
                string_append(&mut r, usize_to_string(z as usize).as_str());
                return r;
            },
            _ => {},
        }
    }
    assert(hex_color(name@) is None);
    proof {
        crate::text::lemma_parse_unsigned_nonneg(name@);
    }
    match parse_u8(name) {
        Some(n) => {
            string_append(&mut r, ";5;");
            string_append(&mut r, usize_to_string(n as usize).as_str());
            r
        },
        None => String::new(),
    }
}

impl Style {
    /// Reads a style description: whitespace-separated words, see
    /// `style_word`.
    pub fn parse(s: &str) -> (st: Style)
        ensures
            st@ == style_words(ws_words(s@)),
    {
        let words = split_whitespace(s);
        let ghost ws = words@.map_values(|w: String| w@);
        let mut style = Style { fg: None, bg: None, bold: false, dim: false, italic: false };
        let mut i: usize = 0;
        assert(ws.take(0) =~= Seq::<Seq<char>>::empty());
        while i < words.len()
            invariant
                i <= words.len(),
                ws == words@.map_values(|w: String| w@),
                ws.len() == words.len(),
                style@ == style_words(ws.take(i as int)),
            decreases words.len() - i,
        {
            let word = words[i].as_str();
            proof {
                reveal_strlit("on_");
            }
            assert(ws[i as int] == word@);
            assert(ws.take(i + 1).drop_last() =~= ws.take(i as int));
            let l = to_lowercase(word);
            if str_eq(l.as_str(), "bold") {
                style.bold = true;
            } else if str_eq(l.as_str(), "dim") {
                style.dim = true;
            } else if str_eq(l.as_str(), "italic") {
                style.italic = true;
            } else if str_eq(l.as_str(), "underline") {
            } else {
                let wc = chars_of(word);
                if starts_with_chars(&wc, &chars_of("on_")) {
                    let rest = string_of_range(&wc, 3, wc.len());
                    assert(rest@ == word@.skip(3));
                    style.bg = Some(rest);
                } else if style.fg.is_none() {
                    style.fg = Some(word.to_owned());
                }
            }
            i = i + 1;
        }
        assert(ws.take(words.len() as int) =~= ws);
        style
    }

    /// The escape sequence that switches a terminal to this style; empty
    /// for the plain style.
    pub fn to_ansi(&self) -> (r: String)
        ensures
            r@ == style_ansi(self@),
    {
        let mut codes: Vec<String> = Vec::new();
        if self.bold {
            codes.push("1".to_owned());
        }
        if self.dim {
            codes.push("2".to_owned());
        }
        if self.italic {
            codes.push("3".to_owned());
        }
        match &self.fg {
            Some(fg) => codes.push(color_to_ansi(fg.as_str(), false)),
            None => {},
        }
        match &self.bg {
            Some(bg) => codes.push(color_to_ansi(bg.as_str(), true)),
            None => {},
        }
        let ghost cs = codes@.map_values(|w: String| w@);
        assert(cs =~= ansi_codes(self@));
        if codes.len() == 0 {
            return String::new();
        }
        let mut r = String::new();
        string_push(&mut r, '\x1b');
        string_push(&mut r, '[');
        let ghost head = r@;
        let mut i: usize = 0;
        while i < codes.len()
            invariant
                i <= codes.len(),
                cs == codes@.map_values(|w: String| w@),
                cs.len() == codes.len(),
                r@ == head + join_with(cs.take(i as int), ";"@),
            decreases codes.len() - i,
        {
            if i > 0 {
                string_append(&mut r, ";");
            }
            string_append(&mut r, codes[i].as_str());
            assert(cs[i as int] == codes@[i as int]@);
            assert(cs.take(i + 1).drop_last() =~= cs.take(i as int));
            proof {
                if i == 0 {
                    assert(cs.take(1) =~= seq![cs[0]]);
                    assert(cs.take(0) =~= Seq::<Seq<char>>::empty());
                }
            }
            assert(r@ =~= head + join_with(cs.take(i + 1), ";"@));
            i = i + 1;
        }
        assert(cs.take(codes.len() as int) =~= cs);
        string_append(&mut r, "m");
        assert(r@ =~= style_ansi(self@));
        r
    }
}

// ── segments ──

/// The exit segment: the status in parentheses, nothing after success.
pub open spec fn exit_text(code: int) -> Seq<char> {
    if code == 0 {
        seq![]
    } else {
        "("@ + decimal(code) + ")"@
    }
}

/// The text of the exit segment for the last exit status.
pub fn render_exit(last_exit_code: i32) -> (r: String)
    ensures
        r@ == exit_text(last_exit_code as int),
{
    if last_exit_code == 0 {
        String::new()
    } else {
        let mut r = String::new();
        string_append(&mut r, "(");
        string_append(&mut r, i32_to_string(last_exit_code).as_str());
        string_append(&mut r, ")");
        r
    }
}

/// A number below 100 in two digits, with a leading zero below ten.
pub open spec fn two_digits(n: int) -> Seq<char> {
    if n < 10 {
        "0"@ + decimal(n)
    } else {
        decimal(n)
    }
}

/// The time of day of a count of seconds since the epoch, as `HH:MM:SS`.
pub open spec fn clock_text(secs: int) -> Seq<char> {
    let sec = secs % 86400;
    two_digits(sec / 3600) + ":"@ + two_digits(sec / 60 % 60) + ":"@ + two_digits(sec % 60)
}

fn push_two_digits(r: &mut String, n: u64)
    requires
        n < 100,
    ensures
        final(r)@ == old(r)@ + two_digits(n as int),
{
    if n < 10 {
        string_append(r, "0");
    }
    string_append(r, usize_to_string(n as usize).as_str());
}

/// The time segment for a count of seconds since the epoch (UTC).
pub fn render_time(secs_since_epoch: u64) -> (r: String)
    ensures
        r@ == clock_text(secs_since_epoch as int),
{
    let sec = secs_since_epoch % 86400;
    let h = sec / 3600;
    let m = sec / 60 % 60;
    let s = sec % 60;
    let mut r = String::new();
    push_two_digits(&mut r, h);
    string_append(&mut r, ":");
    push_two_digits(&mut r, m);
    string_append(&mut r, ":");
    push_two_digits(&mut r, s);
    assert(r@ =~= clock_text(secs_since_epoch as int));
    r
}

/// What the prompt segments show, read from the system by the caller:
/// the user, the host, the working directory (with the home directory as
/// `~`), the git status, the time, and the environment that holds the
/// segment styles.
#[derive(Debug)]
pub struct PromptContext {
    pub user: String,
    pub host: String,
    pub path: String,
    pub git: String,
    pub time: String,
    pub env: Vec<(String, String)>,
}

/// `#` for root, nothing for others.
pub open spec fn root_mark(user: Seq<char>) -> Seq<char> {
    if user == "root"@ {
        "#"@
    } else {
        seq![]
    }
}

/// `#` for root, `$` for others.
pub open spec fn prompt_mark(user: Seq<char>) -> Seq<char> {
    if user == "root"@ {
        "#"@
    } else {
        "$"@
    }
}

/// What follows the last `/` of `p[..j]` and the rest of `p`; all of `p`
/// when there is none.
pub open spec fn after_last_slash(p: Seq<char>, j: int) -> Seq<char>
    decreases j,
{
    if j <= 0 || j > p.len() {
        p
    } else if p[j - 1] == '/' {
        p.subrange(j, p.len() as int)
    } else {
        after_last_slash(p, j - 1)
    }
}

/// The last component of a path.
pub open spec fn base_name(p: Seq<char>) -> Seq<char> {
    after_last_slash(p, p.len() as int)
}

/// What a backslash escape stands for.
pub open spec fn escape_text(c: char, ctx: PromptContext) -> Seq<char> {
    if c == 'w' {
        ctx.path@
    } else if c == 'W' {
        base_name(ctx.path@)
    } else if c == 'u' {
        ctx.user@
    } else if c == 'h' {
        ctx.host@
    } else if c == '$' {
        prompt_mark(ctx.user@)
    } else if c == 't' {
        ctx.time@
    } else if c == 'e' {
        seq!['\x1b']
    } else if c == 'n' {
        seq!['\n']
    } else {
        seq!['\\', c]
    }
}

/// The text of the segment `{name}`; an unknown name stands for itself.
pub open spec fn segment_text(name: Seq<char>, code: int, ctx: PromptContext) -> Seq<char> {
    if name == "user"@ {
        ctx.user@
    } else if name == "host"@ {
        ctx.host@
    } else if name == "path"@ {
        ctx.path@
    } else if name == "git"@ {
        ctx.git@
    } else if name == "exit"@ {
        exit_text(code)
    } else if name == "time"@ {
        ctx.time@
    } else if name == "root"@ {
        root_mark(ctx.user@)
    } else if name == "prompt"@ {
        prompt_mark(ctx.user@)
    } else if name == "newline"@ {
        seq!['\n']
    } else {
        "{"@ + name + "}"@
    }
}

/// The text of a segment in the style that `GS_STYLE_<NAME>` describes
/// (the name in upper case), followed by a reset when there is one.
pub open spec fn styled(name: Seq<char>, text: Seq<char>, env: Seq<(Seq<char>, Seq<char>)>) -> Seq<char> {
    let val = match lookup(env, "GS_STYLE_"@ + upper_text(name)) {
        Some(v) => v,
        None => seq![],
    };
    let a = style_ansi(style_words(ws_words(val)));
    if a.len() == 0 {
        text
    } else {
        a + text + seq!['\x1b', '[', '0', 'm']
    }
}

/// The prompt that the format `f` from position `i` on expands to.
pub open spec fn prompt_from(f: Seq<char>, i: int, code: int, ctx: PromptContext) -> Seq<char>
    decreases f.len() - i,
{
    if i < 0 || i >= f.len() {
        seq![]
    } else if f[i] == '\\' {
        if i + 1 < f.len() {
            escape_text(f[i + 1], ctx) + prompt_from(f, i + 2, code, ctx)
        } else {
            seq!['\\']
        }
    } else if f[i] == '{' {
        match find_from(f, '}', i + 1) {
            Some(k) => {
                proof {
                    lemma_find_from_bounds(f, '}', i + 1);
                }
                let name = f.subrange(i + 1, k);
                styled(name, segment_text(name, code, ctx), env_s(ctx.env@)) + prompt_from(
                    f,
                    k + 1,
                    code,
                    ctx,
                )
            },
            None => {
                let name = f.subrange(i + 1, f.len() as int);
                styled(name, segment_text(name, code, ctx), env_s(ctx.env@))
            },
        }
    } else {
        seq![f[i]] + prompt_from(f, i + 1, code, ctx)
    }
}

pub proof fn lemma_find_from_bounds(w: Seq<char>, c: char, i: int)
    ensures
        find_from(w, c, i) matches Some(k) ==> i <= k < w.len() && w[k] == c,
    decreases w.len() - i,
{
    if 0 <= i < w.len() && w[i] != c {
        lemma_find_from_bounds(w, c, i + 1);
    }
}

/// The last component of a path: what follows its last `/`.
fn base_name_exec(p: &str) -> (r: String)
    ensures
        r@ == base_name(p@),
{
    let v = chars_of(p);
    let mut j: usize = v.len();
    while j > 0 && v[j - 1] != '/'
        invariant
            j <= v.len(),
            v@ == p@,
            after_last_slash(v@, j as int) == base_name(p@),
        decreases j,
    {
        j = j - 1;
    }
    if j == 0 {
        string_of(&v)
    } else {
        string_of_range(&v, j, v.len())
    }
}

/// A segment's text in the style the environment gives it.
fn styled_exec(name: &str, text: &str, env: &Vec<(String, String)>) -> (r: String)
    ensures
        r@ == styled(name@, text@, env_s(env@)),
{
    let mut key = String::new();
    string_append(&mut key, "GS_STYLE_");
    string_append(&mut key, to_uppercase(name).as_str());
    let val = match lookup_exec(env, key.as_str()) {
        Some(v) => v,
        None => String::new(),
    };
    let ansi = Style::parse(val.as_str()).to_ansi();
    let mut r = String::new();
    if chars_of(ansi.as_str()).len() == 0 {
        string_append(&mut r, text);
    } else {
        string_append(&mut r, ansi.as_str());
        string_append(&mut r, text);
        string_push(&mut r, '\x1b');
        string_append(&mut r, "[0m");
        proof {
            reveal_strlit("[0m");
        }
        assert(r@ =~= ansi@ + text@ + seq!['\x1b', '[', '0', 'm']);
    }
    r
}

/// The text of the segment `{name}`.
fn segment_exec(name: &str, last_exit_code: i32, ctx: &PromptContext) -> (r: String)
    ensures
        r@ == segment_text(name@, last_exit_code as int, *ctx),
{
    let mut r = String::new();
    if str_eq(name, "user") {
        string_append(&mut r, ctx.user.as_str());
    } else if str_eq(name, "host") {
        string_append(&mut r, ctx.host.as_str());
    } else if str_eq(name, "path") {
        string_append(&mut r, ctx.path.as_str());
    } else if str_eq(name, "git") {
        string_append(&mut r, ctx.git.as_str());
    } else if str_eq(name, "exit") {
        string_append(&mut r, render_exit(last_exit_code).as_str());
    } else if str_eq(name, "time") {
        string_append(&mut r, ctx.time.as_str());
    } else if str_eq(name, "root") {
        if str_eq(ctx.user.as_str(), "root") {
            string_append(&mut r, "#");
        }
    } else if str_eq(name, "prompt") {
        if str_eq(ctx.user.as_str(), "root") {
            string_append(&mut r, "#");
        } else {
            string_append(&mut r, "$");
        }
    } else if str_eq(name, "newline") {
        string_push(&mut r, '\n');
    } else {
        string_append(&mut r, "{");
        string_append(&mut r, name);
        string_append(&mut r, "}");
    }
    r
}

/// Expands a prompt format: `{name}` placeholders become segment texts,
/// styled by `GS_STYLE_<NAME>`, and the backslash escapes `\w`, `\W`, `\u`,
/// `\h`, `\$`, `\t`, `\e` and `\n` what they stand for; any other character
/// stays as it is.
pub fn render_prompt(format: &str, last_exit_code: i32, ctx: &PromptContext) -> (r: String)
    ensures
        r@ == prompt_from(format@, 0, last_exit_code as int, *ctx),
{
    let f = chars_of(format);
    let mut result = String::new();
    let mut i: usize = 0;
    while i < f.len()
        invariant
            i <= f.len(),
            f@ == format@,
            prompt_from(f@, 0, last_exit_code as int, *ctx) == result@ + prompt_from(
                f@,
                i as int,
                last_exit_code as int,
                *ctx,
            ),
        decreases f.len() - i,
    {
        let ghost r0 = result@;
        let c = f[i];
        if c == '\\' {
            if i + 1 < f.len() {
                let e = f[i + 1];
                if e == 'w' {
                    string_append(&mut result, ctx.path.as_str());
                } else if e == 'W' {
                    string_append(&mut result, base_name_exec(ctx.path.as_str()).as_str());
                } else if e == 'u' {
                    string_append(&mut result, ctx.user.as_str());
                } else if e == 'h' {
                    string_append(&mut result, ctx.host.as_str());
                } else if e == '$' {
                    if str_eq(ctx.user.as_str(), "root") {
                        string_append(&mut result, "#");
                    } else {
                        string_append(&mut result, "$");
                    }
                } else if e == 't' {
                    string_append(&mut result, ctx.time.as_str());
                } else if e == 'e' {
                    string_push(&mut result, '\x1b');
                } else if e == 'n' {
                    string_push(&mut result, '\n');
                } else {
                    string_push(&mut result, '\\');
                    string_push(&mut result, e);
                }
                assert(result@ =~= r0 + escape_text(e, *ctx));
                i = i + 2;
            } else {
                string_push(&mut result, '\\');
                i = i + 1;
                assert(prompt_from(f@, i as int, last_exit_code as int, *ctx) =~= seq![]);
                assert(result@ =~= r0 + seq!['\\']);
            }
        } else if c == '{' {
            let mut k: usize = i + 1;
            while k < f.len() && f[k] != '}'
                invariant
                    i < k <= f.len(),
                    find_from(f@, '}', k as int) == find_from(f@, '}', i + 1),
                decreases f.len() - k,
            {
                k = k + 1;
            }
            proof {
                lemma_find_from_bounds(f@, '}', i + 1);
            }
            let name = string_of_range(&f, i + 1, k);
            let text = segment_exec(name.as_str(), last_exit_code, ctx);
            let seg = styled_exec(name.as_str(), text.as_str(), &ctx.env);
            string_append(&mut result, seg.as_str());
            if k < f.len() {
                i = k + 1;
            } else {
                i = k;
                assert(prompt_from(f@, i as int, last_exit_code as int, *ctx) =~= seq![]);
            }
            assert(result@ =~= r0 + seg@);
        } else {
            string_push(&mut result, c);
            i = i + 1;
            assert(result@ =~= r0 + seq![c]);
        }
        assert(result@ + prompt_from(f@, i as int, last_exit_code as int, *ctx) =~= prompt_from(f@, 0, last_exit_code as int, *ctx));
    }
    assert(prompt_from(f@, i as int, last_exit_code as int, *ctx) =~= seq![]);
    result
}

/// The path segment: the working directory, with the home directory at its
/// start written `~`.
pub open spec fn path_text(cwd: Seq<char>, home: Option<Seq<char>>) -> Seq<char> {
    match home {
        Some(h) => if is_prefix(h, cwd) {
            "~"@ + cwd.skip(h.len() as int)
        } else {
            cwd
        },
        None => cwd,
    }
}

/// The path segment for the working directory `cwd` and the home
/// directory `home` (when it is set).
pub fn render_path(cwd: &str, home: Option<&str>) -> (r: String)
    ensures
        r@ == path_text(cwd@, match home {
            Some(h) => Some(h@),
            None => None,
        }),
{
    match home {
        Some(h) => {
            let c = chars_of(cwd);
            let hc = chars_of(h);
            if starts_with_chars(&c, &hc) {
                let mut r = String::new();
                string_append(&mut r, "~");
                let rest = string_of_range(&c, hc.len(), c.len());
                assert(rest@ =~= cwd@.skip(h@.len() as int));
                string_append(&mut r, rest.as_str());
                r
            } else {
                cwd.to_owned()
            }
        },
        None => cwd.to_owned(),
    }
}

/// The root segment for the user: `#` for root, nothing for others.
pub fn render_root(user: &str) -> (r: String)
    ensures
        r@ == root_mark(user@),
{
    if str_eq(user, "root") {
        "#".to_owned()
    } else {
        String::new()
    }
}

/// The prompt character for the user: `#` for root, `$` for others.
pub fn render_prompt_char(user: &str) -> (r: String)
    ensures
        r@ == prompt_mark(user@),
{
    if str_eq(user, "root") {
        "#".to_owned()
    } else {
        "$".to_owned()
    }
}

} // verus!

verus! {

// ── the git segment ──

/// `s` holds a character other than a line break.
pub open spec fn has_content(s: Seq<char>) -> bool {
    exists|i: int| 0 <= i < s.len() && s[i] != '\n'
}

/// The git segment: the current branch (what `git rev-parse --abbrev-ref
/// HEAD` printed, trimmed) after a space, then `✗` when `git status
/// --porcelain` listed anything and `✓` otherwise; nothing outside a
/// repository or for an empty branch name.
pub open spec fn git_text(branch: Option<Seq<char>>, status: Seq<char>) -> Seq<char> {
    match branch {
        Some(b) => if trim_ws(b).len() > 0 {
            seq![' '] + trim_ws(b) + seq![' ', if has_content(status) {
                '\u{2717}'
            } else {
                '\u{2713}'
            }]
        } else {
            seq![]
        },
        None => seq![],
    }
}

/// The git segment of the prompt, `branch` being the output of the branch
/// query (none when it failed) and `status` that of the status query.
pub fn git_segment(branch: Option<&str>, status: &str) -> (r: String)
    ensures
        r@ == git_text(opt_str_view(branch), status@),
{
    match branch {
        Some(b) => {
            let t = trim_whitespace(b);
            let tc = chars_of(t.as_str());
            if tc.len() == 0 {
                return String::new();
            }
            let sc = chars_of(status);
            let mut dirty = false;
            let mut i: usize = 0;
            while i < sc.len()
                invariant
                    i <= sc.len(),
                    sc@ == status@,
                    dirty == (exists|j: int| 0 <= j < i && sc@[j] != '\n'),
                decreases sc.len() - i,
            {
                if sc[i] != '\n' {
                    dirty = true;
                }
                i = i + 1;
            }
            let mut r = String::new();
            string_push(&mut r, ' ');
            string_append(&mut r, t.as_str());
            string_push(&mut r, ' ');
            string_push(&mut r, if dirty {
                '\u{2717}'
            } else {
                '\u{2713}'
            });
            assert(r@ =~= git_text(opt_str_view(branch), status@));
            r
        },
        None => String::new(),
    }
}

// ── the palette ──

/// The sixteen colours of the standard terminal palette, in palette order.
pub open spec fn standard_colors() -> Seq<Seq<char>> {
    seq![
        "black"@,
        "red"@,
        "green"@,
        "yellow"@,
        "blue"@,
        "magenta"@,
        "cyan"@,
        "white"@,
        "bright_black"@,
        "bright_red"@,
        "bright_green"@,
        "bright_yellow"@,
        "bright_blue"@,
        "bright_magenta"@,
        "bright_cyan"@,
        "bright_white"@,
    ]
}

proof fn lemma_nat_digits(n: nat)
    ensures
        crate::text::nat_digits(n).len() > 0,
        crate::text::all_digits(crate::text::nat_digits(n)),
        crate::text::digits_value(crate::text::nat_digits(n)) == n,
    decreases n,
{
    let c = (('0' as int) + n % 10) as char;
    assert(c as int == '0' as int + n % 10);
    if n < 10 {
        let e = crate::text::nat_digits(n);
        assert(e == seq![c]);
        assert(e.drop_last() =~= Seq::<char>::empty());
        assert(crate::text::digits_value(e.drop_last()) == 0);
        assert(crate::text::digits_value(e) == crate::text::digits_value(e.drop_last()) * 10 + (c as int - '0' as int));
        assert(crate::text::is_digit(e[0]));
    } else {
        lemma_nat_digits(n / 10);
        let d = crate::text::nat_digits(n / 10);
        let e = d.push(c);
        assert(e == crate::text::nat_digits(n));
        assert(e.drop_last() =~= d);
        assert(e.last() == c);
        assert(n == (n / 10) * 10 + n % 10);
        assert(crate::text::digits_value(e) == crate::text::digits_value(d) * 10 + (c as int - '0' as int));
        assert forall|k: int| 0 <= k < e.len() implies crate::text::is_digit(#[trigger] e[k]) by {
            if k < d.len() {
                assert(e[k] == d[k]);
            }
        }
    }
}

/// A palette number written in decimal reads back as that number.
proof fn lemma_decimal_reads_back(n: nat)
    ensures
        parse_unsigned(decimal(n as int)) == Some(n as int),
        decimal(n as int).len() > 0,
        crate::text::is_digit(decimal(n as int)[0]),
{
    lemma_nat_digits(n);
    assert(crate::text::is_digit(crate::text::nat_digits(n)[0]));
}

#[verifier::rlimit(50)]
#[verifier::spinoff_prover]
proof fn lemma_palette_name(i: int)
    requires
        0 <= i < 16,
    ensures
        named_color(standard_colors()[i]) == Some(i),
{
    reveal_strlit("black");
    reveal_strlit("red");
    reveal_strlit("green");
    reveal_strlit("yellow");
    reveal_strlit("blue");
    reveal_strlit("magenta");
    reveal_strlit("purple");
    reveal_strlit("cyan");
    reveal_strlit("white");
    reveal_strlit("bright_black");
    reveal_strlit("gray");
    reveal_strlit("grey");
    reveal_strlit("bright_red");
    reveal_strlit("bright_green");
    reveal_strlit("bright_yellow");
    reveal_strlit("bright_blue");
    reveal_strlit("bright_magenta");
    reveal_strlit("bright_purple");
    reveal_strlit("bright_cyan");
    reveal_strlit("bright_white");
    let names = standard_colors();
    if i == 0 {
        assert(names[0] == "black"@);
        assert(named_color("black"@) == Some(0int));
    } else if i == 1 {
        assert(names[1] == "red"@);
        assert("red"@.len() == 3 && "black"@.len() == 5);
        assert(named_color("red"@) == Some(1int));
    } else if i == 2 {
        assert(names[2] == "green"@);
        assert("green"@[0] == 'g' && "black"@[0] == 'b');
        assert("green"@.len() == 5 && "red"@.len() == 3);
        assert(named_color("green"@) == Some(2int));
    } else if i == 3 {
        assert(names[3] == "yellow"@);
        assert("yellow"@.len() == 6 && "black"@.len() == 5);
        assert("yellow"@.len() == 6 && "red"@.len() == 3);
        assert("yellow"@.len() == 6 && "green"@.len() == 5);
        assert(named_color("yellow"@) == Some(3int));
    } else if i == 4 {
        assert(names[4] == "blue"@);
        assert("blue"@.len() == 4 && "black"@.len() == 5);
        assert("blue"@.len() == 4 && "red"@.len() == 3);
        assert("blue"@.len() == 4 && "green"@.len() == 5);
        assert("blue"@.len() == 4 && "yellow"@.len() == 6);
        assert(named_color("blue"@) == Some(4int));
    } else if i == 5 {
        assert(names[5] == "magenta"@);
        assert("magenta"@.len() == 7 && "black"@.len() == 5);
        assert("magenta"@.len() == 7 && "red"@.len() == 3);
        assert("magenta"@.len() == 7 && "green"@.len() == 5);
        assert("magenta"@.len() == 7 && "yellow"@.len() == 6);
        assert("magenta"@.len() == 7 && "blue"@.len() == 4);
        assert(named_color("magenta"@) == Some(5int));
    } else if i == 6 {
        assert(names[6] == "cyan"@);
        assert("cyan"@.len() == 4 && "black"@.len() == 5);
        assert("cyan"@.len() == 4 && "red"@.len() == 3);
        assert("cyan"@.len() == 4 && "green"@.len() == 5);
        assert("cyan"@.len() == 4 && "yellow"@.len() == 6);
        assert("cyan"@[0] == 'c' && "blue"@[0] == 'b');
        assert("cyan"@.len() == 4 && "magenta"@.len() == 7);
        assert("cyan"@.len() == 4 && "purple"@.len() == 6);
        assert(named_color("cyan"@) == Some(6int));
    } else if i == 7 {
        assert(names[7] == "white"@);
        assert("white"@[0] == 'w' && "black"@[0] == 'b');
        assert("white"@.len() == 5 && "red"@.len() == 3);
        assert("white"@[0] == 'w' && "green"@[0] == 'g');
        assert("white"@.len() == 5 && "yellow"@.len() == 6);
        assert("white"@.len() == 5 && "blue"@.len() == 4);
        assert("white"@.len() == 5 && "magenta"@.len() == 7);
        assert("white"@.len() == 5 && "purple"@.len() == 6);
        assert("white"@.len() == 5 && "cyan"@.len() == 4);
        assert(named_color("white"@) == Some(7int));
    } else if i == 8 {
        assert(names[8] == "bright_black"@);
        assert("bright_black"@.len() == 12 && "black"@.len() == 5);
        assert("bright_black"@.len() == 12 && "red"@.len() == 3);
        assert("bright_black"@.len() == 12 && "green"@.len() == 5);
        assert("bright_black"@.len() == 12 && "yellow"@.len() == 6);
        assert("bright_black"@.len() == 12 && "blue"@.len() == 4);
        assert("bright_black"@.len() == 12 && "magenta"@.len() == 7);
        assert("bright_black"@.len() == 12 && "purple"@.len() == 6);
        assert("bright_black"@.len() == 12 && "cyan"@.len() == 4);
        assert("bright_black"@.len() == 12 && "white"@.len() == 5);
        assert(named_color("bright_black"@) == Some(8int));
    } else if i == 9 {
        assert(names[9] == "bright_red"@);
        assert("bright_red"@.len() == 10 && "black"@.len() == 5);
        assert("bright_red"@.len() == 10 && "red"@.len() == 3);
        assert("bright_red"@.len() == 10 && "green"@.len() == 5);
        assert("bright_red"@.len() == 10 && "yellow"@.len() == 6);
        assert("bright_red"@.len() == 10 && "blue"@.len() == 4);
        assert("bright_red"@.len() == 10 && "magenta"@.len() == 7);
        assert("bright_red"@.len() == 10 && "purple"@.len() == 6);
        assert("bright_red"@.len() == 10 && "cyan"@.len() == 4);
        assert("bright_red"@.len() == 10 && "white"@.len() == 5);
        assert("bright_red"@.len() == 10 && "bright_black"@.len() == 12);
        assert("bright_red"@.len() == 10 && "gray"@.len() == 4);
        assert("bright_red"@.len() == 10 && "grey"@.len() == 4);
        assert(named_color("bright_red"@) == Some(9int));
    } else if i == 10 {
        assert(names[10] == "bright_green"@);
        assert("bright_green"@.len() == 12 && "black"@.len() == 5);
        assert("bright_green"@.len() == 12 && "red"@.len() == 3);
        assert("bright_green"@.len() == 12 && "green"@.len() == 5);
        assert("bright_green"@.len() == 12 && "yellow"@.len() == 6);
        assert("bright_green"@.len() == 12 && "blue"@.len() == 4);
        assert("bright_green"@.len() == 12 && "magenta"@.len() == 7);
        assert("bright_green"@.len() == 12 && "purple"@.len() == 6);
        assert("bright_green"@.len() == 12 && "cyan"@.len() == 4);
        assert("bright_green"@.len() == 12 && "white"@.len() == 5);
        assert("bright_green"@[7] == 'g' && "bright_black"@[7] == 'b');
        assert("bright_green"@.len() == 12 && "gray"@.len() == 4);
        assert("bright_green"@.len() == 12 && "grey"@.len() == 4);
        assert("bright_green"@.len() == 12 && "bright_red"@.len() == 10);
        assert(named_color("bright_green"@) == Some(10int));
    } else if i == 11 {
        assert(names[11] == "bright_yellow"@);
        assert("bright_yellow"@.len() == 13 && "black"@.len() == 5);
        assert("bright_yellow"@.len() == 13 && "red"@.len() == 3);
        assert("bright_yellow"@.len() == 13 && "green"@.len() == 5);
        assert("bright_yellow"@.len() == 13 && "yellow"@.len() == 6);
        assert("bright_yellow"@.len() == 13 && "blue"@.len() == 4);
        assert("bright_yellow"@.len() == 13 && "magenta"@.len() == 7);
        assert("bright_yellow"@.len() == 13 && "purple"@.len() == 6);
        assert("bright_yellow"@.len() == 13 && "cyan"@.len() == 4);
        assert("bright_yellow"@.len() == 13 && "white"@.len() == 5);
        assert("bright_yellow"@.len() == 13 && "bright_black"@.len() == 12);
        assert("bright_yellow"@.len() == 13 && "gray"@.len() == 4);
        assert("bright_yellow"@.len() == 13 && "grey"@.len() == 4);
        assert("bright_yellow"@.len() == 13 && "bright_red"@.len() == 10);
        assert("bright_yellow"@.len() == 13 && "bright_green"@.len() == 12);
        assert(named_color("bright_yellow"@) == Some(11int));
    } else if i == 12 {
        assert(names[12] == "bright_blue"@);
        assert("bright_blue"@.len() == 11 && "black"@.len() == 5);
        assert("bright_blue"@.len() == 11 && "red"@.len() == 3);
        assert("bright_blue"@.len() == 11 && "green"@.len() == 5);
        assert("bright_blue"@.len() == 11 && "yellow"@.len() == 6);
        assert("bright_blue"@.len() == 11 && "blue"@.len() == 4);
        assert("bright_blue"@.len() == 11 && "magenta"@.len() == 7);
        assert("bright_blue"@.len() == 11 && "purple"@.len() == 6);
        assert("bright_blue"@.len() == 11 && "cyan"@.len() == 4);
        assert("bright_blue"@.len() == 11 && "white"@.len() == 5);
        assert("bright_blue"@.len() == 11 && "bright_black"@.len() == 12);
        assert("bright_blue"@.len() == 11 && "gray"@.len() == 4);
        assert("bright_blue"@.len() == 11 && "grey"@.len() == 4);
        assert("bright_blue"@.len() == 11 && "bright_red"@.len() == 10);
        assert("bright_blue"@.len() == 11 && "bright_green"@.len() == 12);
        assert("bright_blue"@.len() == 11 && "bright_yellow"@.len() == 13);
        assert(named_color("bright_blue"@) == Some(12int));
    } else if i == 13 {
        assert(names[13] == "bright_magenta"@);
        assert("bright_magenta"@.len() == 14 && "black"@.len() == 5);
        assert("bright_magenta"@.len() == 14 && "red"@.len() == 3);
        assert("bright_magenta"@.len() == 14 && "green"@.len() == 5);
        assert("bright_magenta"@.len() == 14 && "yellow"@.len() == 6);
        assert("bright_magenta"@.len() == 14 && "blue"@.len() == 4);
        assert("bright_magenta"@.len() == 14 && "magenta"@.len() == 7);
        assert("bright_magenta"@.len() == 14 && "purple"@.len() == 6);
        assert("bright_magenta"@.len() == 14 && "cyan"@.len() == 4);
        assert("bright_magenta"@.len() == 14 && "white"@.len() == 5);
        assert("bright_magenta"@.len() == 14 && "bright_black"@.len() == 12);
        assert("bright_magenta"@.len() == 14 && "gray"@.len() == 4);
        assert("bright_magenta"@.len() == 14 && "grey"@.len() == 4);
        assert("bright_magenta"@.len() == 14 && "bright_red"@.len() == 10);
        assert("bright_magenta"@.len() == 14 && "bright_green"@.len() == 12);
        assert("bright_magenta"@.len() == 14 && "bright_yellow"@.len() == 13);
        assert("bright_magenta"@.len() == 14 && "bright_blue"@.len() == 11);
        assert(named_color("bright_magenta"@) == Some(13int));
    } else if i == 14 {
        assert(names[14] == "bright_cyan"@);
        assert("bright_cyan"@.len() == 11 && "black"@.len() == 5);
        assert("bright_cyan"@.len() == 11 && "red"@.len() == 3);
        assert("bright_cyan"@.len() == 11 && "green"@.len() == 5);
        assert("bright_cyan"@.len() == 11 && "yellow"@.len() == 6);
        assert("bright_cyan"@.len() == 11 && "blue"@.len() == 4);
        assert("bright_cyan"@.len() == 11 && "magenta"@.len() == 7);
        assert("bright_cyan"@.len() == 11 && "purple"@.len() == 6);
        assert("bright_cyan"@.len() == 11 && "cyan"@.len() == 4);
        assert("bright_cyan"@.len() == 11 && "white"@.len() == 5);
        assert("bright_cyan"@.len() == 11 && "bright_black"@.len() == 12);
        assert("bright_cyan"@.len() == 11 && "gray"@.len() == 4);
        assert("bright_cyan"@.len() == 11 && "grey"@.len() == 4);
        assert("bright_cyan"@.len() == 11 && "bright_red"@.len() == 10);
        assert("bright_cyan"@.len() == 11 && "bright_green"@.len() == 12);
        assert("bright_cyan"@.len() == 11 && "bright_yellow"@.len() == 13);
        assert("bright_cyan"@[7] == 'c' && "bright_blue"@[7] == 'b');
        assert("bright_cyan"@.len() == 11 && "bright_magenta"@.len() == 14);
        assert("bright_cyan"@.len() == 11 && "bright_purple"@.len() == 13);
        assert(named_color("bright_cyan"@) == Some(14int));
    } else {
        assert(names[15] == "bright_white"@);
        assert("bright_white"@.len() == 12 && "black"@.len() == 5);
        assert("bright_white"@.len() == 12 && "red"@.len() == 3);
        assert("bright_white"@.len() == 12 && "green"@.len() == 5);
        assert("bright_white"@.len() == 12 && "yellow"@.len() == 6);
        assert("bright_white"@.len() == 12 && "blue"@.len() == 4);
        assert("bright_white"@.len() == 12 && "magenta"@.len() == 7);
        assert("bright_white"@.len() == 12 && "purple"@.len() == 6);
        assert("bright_white"@.len() == 12 && "cyan"@.len() == 4);
        assert("bright_white"@.len() == 12 && "white"@.len() == 5);
        assert("bright_white"@[7] == 'w' && "bright_black"@[7] == 'b');
        assert("bright_white"@.len() == 12 && "gray"@.len() == 4);
        assert("bright_white"@.len() == 12 && "grey"@.len() == 4);
        assert("bright_white"@.len() == 12 && "bright_red"@.len() == 10);
        assert("bright_white"@[7] == 'w' && "bright_green"@[7] == 'g');
        assert("bright_white"@.len() == 12 && "bright_yellow"@.len() == 13);
        assert("bright_white"@.len() == 12 && "bright_blue"@.len() == 11);
        assert("bright_white"@.len() == 12 && "bright_magenta"@.len() == 14);
        assert("bright_white"@.len() == 12 && "bright_purple"@.len() == 13);
        assert("bright_white"@.len() == 12 && "bright_cyan"@.len() == 11);
        assert(named_color("bright_white"@) == Some(15int));
    }
}

/// A colour of the standard palette, given by name, selects the same
/// colour as its palette number: `black` is 0, `red` 1, … `white` 7,
/// `bright_black` 8, … `bright_white` 15.
pub proof fn law_palette_names(i: int, bg: bool)
    requires
        0 <= i < 16,
    ensures
        ansi_color(standard_colors()[i], bg) == ansi_color(decimal(i), bg),
        ansi_color(decimal(i), bg) == color_base(bg) + ";5;"@ + decimal(i),
{
    lemma_decimal_reads_back(i as nat);
    let d = decimal(i);
    reveal_strlit("black");
    reveal_strlit("red");
    reveal_strlit("green");
    reveal_strlit("yellow");
    reveal_strlit("blue");
    reveal_strlit("magenta");
    reveal_strlit("purple");
    reveal_strlit("cyan");
    reveal_strlit("white");
    reveal_strlit("bright_black");
    reveal_strlit("gray");
    reveal_strlit("grey");
    reveal_strlit("bright_red");
    reveal_strlit("bright_green");
    reveal_strlit("bright_yellow");
    reveal_strlit("bright_blue");
    reveal_strlit("bright_magenta");
    reveal_strlit("bright_purple");
    reveal_strlit("bright_cyan");
    reveal_strlit("bright_white");
    // a number is no colour name and no `#rrggbb`
    assert(named_color(d) is None) by {
        assert('0' <= d[0] <= '9');
    }
    assert(hex_color(d) is None);
    lemma_palette_name(i);
}

} // verus!
