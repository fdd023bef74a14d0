//! The decisions and texts of the builtin commands; the caller does the
//! reading and writing.
use vstd::prelude::*;
use crate::text::{
    chars_of, string_of, string_of_range, string_push, string_append, str_eq, parse_i64,
    parse_i32, parse_usize, parse_signed, parse_unsigned, usize_to_string, decimal,
    lemma_parse_unsigned_nonneg, is_digit,
};
use crate::parser::find_from;

verus! {

// ── test / [ ──

/// A question about a file that `test` asks.
#[derive(Clone, Copy, Debug, PartialEq, Eq, Structural)]
pub enum FileTest {
    /// `-f`: a regular file.
    IsFile,
    /// `-d`: a directory.
    IsDir,
    /// `-e`: exists.
    Exists,
    /// `-x`: a regular file with an execute bit set.
    Executable,
    /// `-r`: a regular file that can be opened for reading.
    Readable,
    /// `-w`: exists and is not read-only.
    Writable,
    /// `-s`: exists and is not empty.
    NonEmpty,
}

/// What `test` decides from its arguments alone: a status, or a question
/// about a file whose answer gives status 0 (yes) or 1 (no).
#[derive(Debug)]
pub enum TestPlan {
    Status(i32),
    Probe(FileTest, String),
}

pub enum TestPlanS {
    Status(int),
    Probe(FileTest, Seq<char>),
}

/// The file test an operator names.
pub open spec fn file_op(op: Seq<char>) -> Option<FileTest> {
    if op == "-f"@ {
        Some(FileTest::IsFile)
    } else if op == "-d"@ {
        Some(FileTest::IsDir)
    } else if op == "-e"@ {
        Some(FileTest::Exists)
    } else if op == "-x"@ {
        Some(FileTest::Executable)
    } else if op == "-r"@ {
        Some(FileTest::Readable)
    } else if op == "-w"@ {
        Some(FileTest::Writable)
    } else if op == "-s"@ {
        Some(FileTest::NonEmpty)
    } else {
        None
    }
}

/// A number operand of `test`: its value, or 0 when it is not a number.
pub open spec fn num_operand(s: Seq<char>) -> int {
    match parse_signed(s) {
        Some(v) => if i64::MIN <= v <= i64::MAX {
            v
        } else {
            0
        },
        None => 0,
    }
}

/// Status 0 when `b` holds, 1 otherwise.
pub open spec fn status_of(b: bool) -> int {
    if b {
        0
    } else {
        1
    }
}

/// The outcome of a binary comparison `a op b`.
pub open spec fn compare_op(a: Seq<char>, op: Seq<char>, b: Seq<char>) -> int {
    let x = num_operand(a);
    let y = num_operand(b);
    if op == "="@ {
        status_of(a == b)
    } else if op == "!="@ {
        status_of(a != b)
    } else if op == "-eq"@ {
        status_of(x == y)
    } else if op == "-ne"@ {
        status_of(x != y)
    } else if op == "-lt"@ {
        status_of(x < y)
    } else if op == "-gt"@ {
        status_of(x > y)
    } else if op == "-le"@ {
        status_of(x <= y)
    } else if op == "-ge"@ {
        status_of(x >= y)
    } else {
        1
    }
}

/// What `test` decides: a trailing `]` is dropped; no argument is false;
/// a file operator asks about its operand; `-n` / `-z` test for a
/// non-empty / empty operand; one argument is true when non-empty; three
/// or more compare the first and third with the second (`=`, `!=`, `-eq`,
/// `-ne`, `-lt`, `-gt`, `-le`, `-ge`); anything else is false.
pub open spec fn spec_test(input: Seq<Seq<char>>) -> TestPlanS {
    if input.len() == 0 {
        TestPlanS::Status(1)
    } else {
        let args = if input.last() == "]"@ {
            input.drop_last()
        } else {
            input
        };
        if args.len() == 0 {
            TestPlanS::Status(1)
        } else if file_op(args[0]) is Some {
            if args.len() < 2 {
                TestPlanS::Status(1)
            } else {
                TestPlanS::Probe(file_op(args[0])->0, args[1])
            }
        } else if args[0] == "-n"@ {
            if args.len() < 2 {
                TestPlanS::Status(1)
            } else {
                TestPlanS::Status(status_of(args[1].len() > 0))
            }
        } else if args[0] == "-z"@ {
            if args.len() < 2 {
                TestPlanS::Status(1)
            } else {
                TestPlanS::Status(status_of(args[1].len() == 0))
            }
        } else if args.len() == 1 {
            TestPlanS::Status(status_of(args[0].len() > 0))
        } else if args.len() >= 3 {
            TestPlanS::Status(compare_op(args[0], args[1], args[2]))
        } else {
            TestPlanS::Status(1)
        }
    }
}

pub open spec fn test_plan_s(p: TestPlan) -> TestPlanS {
    match p {
        TestPlan::Status(c) => TestPlanS::Status(c as int),
        TestPlan::Probe(t, s) => TestPlanS::Probe(t, s@),
    }
}

pub open spec fn strs_s(v: Seq<&str>) -> Seq<Seq<char>> {
    v.map_values(|s: &str| s@)
}

fn file_op_exec(op: &str) -> (r: Option<FileTest>)
    ensures
        r == file_op(op@),
{
    if str_eq(op, "-f") {
        Some(FileTest::IsFile)
    } else if str_eq(op, "-d") {
        Some(FileTest::IsDir)
    } else if str_eq(op, "-e") {
        Some(FileTest::Exists)
    } else if str_eq(op, "-x") {
        Some(FileTest::Executable)
    } else if str_eq(op, "-r") {
        Some(FileTest::Readable)
    } else if str_eq(op, "-w") {
        Some(FileTest::Writable)
    } else if str_eq(op, "-s") {
        Some(FileTest::NonEmpty)
    } else {
        None
    }
}

fn num_operand_exec(s: &str) -> (r: i64)
    ensures
        r as int == num_operand(s@),
{
    match parse_i64(s) {
        Some(v) => v,
        None => 0,
    }
}

fn status_exec(b: bool) -> (r: i32)
    ensures
        r as int == status_of(b),
{
    if b {
        0
    } else {
        1
    }
}

fn compare_exec(a: &str, op: &str, b: &str) -> (r: i32)
    ensures
        r as int == compare_op(a@, op@, b@),
{
    let x = num_operand_exec(a);
    let y = num_operand_exec(b);
    if str_eq(op, "=") {
        status_exec(str_eq(a, b))
    } else if str_eq(op, "!=") {
        status_exec(!str_eq(a, b))
    } else if str_eq(op, "-eq") {
        status_exec(x == y)
    } else if str_eq(op, "-ne") {
        status_exec(x != y)
    } else if str_eq(op, "-lt") {
        status_exec(x < y)
    } else if str_eq(op, "-gt") {
        status_exec(x > y)
    } else if str_eq(op, "-le") {
        status_exec(x <= y)
    } else if str_eq(op, "-ge") {
        status_exec(x >= y)
    } else {
        1
    }
}

proof fn lemma_number_ends_in_digit(s: Seq<char>)
    requires
        parse_signed(s) is Some,
    ensures
        s.len() > 0,
        is_digit(s.last()),
        s.len() == 1 ==> is_digit(s[0]),
{
    if s.len() > 0 && (s[0] == '+' || s[0] == '-') {
        let rest = s.skip(1);
        assert(rest[rest.len() - 1] == s.last());
    }
}

proof fn lemma_number_not_operator(s: Seq<char>)
    requires
        parse_signed(s) is Some,
    ensures
        file_op(s) is None,
        s != "-n"@,
        s != "-z"@,
        s != "]"@,
{
    lemma_number_ends_in_digit(s);
    reveal_strlit("-f");
    reveal_strlit("-d");
    reveal_strlit("-e");
    reveal_strlit("-x");
    reveal_strlit("-r");
    reveal_strlit("-w");
    reveal_strlit("-s");
    reveal_strlit("-n");
    reveal_strlit("-z");
    reveal_strlit("]");
    if s == "-n"@ {
        assert(s.last() == 'n');
    }
    if s == "-z"@ {
        assert(s.last() == 'z');
    }
}

/// `test a OP b` on two numbers (in the range of `i64`) compares them as
/// integers: status 0 exactly when `a < b`, `a > b`, `a <= b`, `a >= b`,
/// `a == b` or `a != b` for `-lt`, `-gt`, `-le`, `-ge`, `-eq`, `-ne`; and
/// `a -gt b` asks the same as `b -lt a`, `a -ge b` the same as `b -le a`.
pub proof fn law_test_compares_numbers(a: Seq<char>, b: Seq<char>, x: int, y: int)
    requires
        parse_signed(a) == Some(x),
        parse_signed(b) == Some(y),
        i64::MIN <= x <= i64::MAX,
        i64::MIN <= y <= i64::MAX,
    ensures
        spec_test(seq![a, "-lt"@, b]) == TestPlanS::Status(if x < y { 0 } else { 1 }),
        spec_test(seq![a, "-gt"@, b]) == TestPlanS::Status(if x > y { 0 } else { 1 }),
        spec_test(seq![a, "-le"@, b]) == TestPlanS::Status(if x <= y { 0 } else { 1 }),
        spec_test(seq![a, "-ge"@, b]) == TestPlanS::Status(if x >= y { 0 } else { 1 }),
        spec_test(seq![a, "-eq"@, b]) == TestPlanS::Status(if x == y { 0 } else { 1 }),
        spec_test(seq![a, "-ne"@, b]) == TestPlanS::Status(if x != y { 0 } else { 1 }),
        spec_test(seq![a, "-gt"@, b]) == spec_test(seq![b, "-lt"@, a]),
        spec_test(seq![a, "-ge"@, b]) == spec_test(seq![b, "-le"@, a]),
{
    lemma_number_not_operator(a);
    lemma_number_not_operator(b);
    reveal_strlit("-lt");
    reveal_strlit("-gt");
    reveal_strlit("-le");
    reveal_strlit("-ge");
    reveal_strlit("-eq");
    reveal_strlit("-ne");
    reveal_strlit("=");
    reveal_strlit("!=");
    reveal_strlit("]");
    assert(num_operand(a) == x);
    assert(num_operand(b) == y);
    let ops = seq!["="@, "!="@, "-eq"@, "-ne"@, "-lt"@, "-gt"@, "-le"@, "-ge"@];
    assert(ops[0].len() == 1 && ops[1][0] == '!');
    assert(ops[2][1] == 'e' && ops[2][2] == 'q');
    assert(ops[3][1] == 'n' && ops[3][2] == 'e');
    assert(ops[4][1] == 'l' && ops[4][2] == 't');
    assert(ops[5][1] == 'g' && ops[5][2] == 't');
    assert(ops[6][1] == 'l' && ops[6][2] == 'e');
    assert(ops[7][1] == 'g' && ops[7][2] == 'e');
    assert(compare_op(a, "-lt"@, b) == status_of(x < y));
    assert(compare_op(b, "-lt"@, a) == status_of(y < x));
    assert(compare_op(a, "-gt"@, b) == status_of(x > y));
    assert(seq![a, "-lt"@, b].last() != "]"@);
    assert(seq![a, "-gt"@, b].last() != "]"@);
    assert(seq![b, "-lt"@, a].last() != "]"@);
}

/// `test a = b` and `test a != b` compare the two texts: status 0 exactly
/// when they are equal, respectively different (for a first operand that is
/// not itself an operator and a second that is not `]`).
pub proof fn law_test_compares_texts(a: Seq<char>, b: Seq<char>)
    requires
        file_op(a) is None,
        a != "-n"@,
        a != "-z"@,
        b != "]"@,
    ensures
        spec_test(seq![a, "="@, b]) == TestPlanS::Status(if a == b { 0 } else { 1 }),
        spec_test(seq![a, "!="@, b]) == TestPlanS::Status(if a != b { 0 } else { 1 }),
{
    reveal_strlit("=");
    reveal_strlit("!=");
    assert(("!="@)[0] == '!');
    assert(("="@).len() == 1);
    assert(seq![a, "="@, b].last() == b);
    assert(seq![a, "!="@, b].last() == b);
}

/// Decides `test` / `[` (see `spec_test`).
pub fn plan_test(input: &[&str]) -> (r: TestPlan)
    ensures
        test_plan_s(r) == spec_test(strs_s(input@)),
{
    let ghost iv = strs_s(input@);
    if input.len() == 0 {
        return TestPlan::Status(1);
    }
    let n0 = input.len();
    assert(iv.last() == input@[n0 - 1]@);
    let n = if str_eq(input[n0 - 1], "]") {
        n0 - 1
    } else {
        n0
    };
    let ghost args = if iv.last() == "]"@ {
        iv.drop_last()
    } else {
        iv
    };
    assert(args.len() == n);
    assert(forall|k: int| 0 <= k < n ==> #[trigger] args[k] == input@[k]@);
    if n == 0 {
        return TestPlan::Status(1);
    }
    match file_op_exec(input[0]) {
        Some(t) => {
            if n < 2 {
                return TestPlan::Status(1);
            }
            return TestPlan::Probe(t, string_of(&chars_of(input[1])));
        },
        None => {},
    }
    if str_eq(input[0], "-n") {
        if n < 2 {
            return TestPlan::Status(1);
        }
        let c = chars_of(input[1]);
        return TestPlan::Status(status_exec(c.len() > 0));
    }
    if str_eq(input[0], "-z") {
        if n < 2 {
            return TestPlan::Status(1);
        }
        let c = chars_of(input[1]);
        return TestPlan::Status(status_exec(c.len() == 0));
    }
    if n == 1 {
        let c = chars_of(input[0]);
        return TestPlan::Status(status_exec(c.len() > 0));
    }
    if n >= 3 {
        return TestPlan::Status(compare_exec(input[0], input[1], input[2]));
    }
    TestPlan::Status(1)
}

/// The status of `test` once the file question has been answered.
pub fn probe_status(answer: bool) -> (r: i32)
    ensures
        r as int == status_of(answer),
{
    status_exec(answer)
}

// ── Splitting NAME=value arguments ──

/// `arg` split at its first `=`, if it has one.
pub open spec fn split_eq(arg: Seq<char>) -> Option<(Seq<char>, Seq<char>)> {
    match find_from(arg, '=', 0) {
        Some(e) => Some((arg.take(e), arg.skip(e + 1))),
        None => None,
    }
}

/// Splits an argument at its first `=` into a name and a value.
pub fn split_at_eq(arg: &str) -> (r: Option<(String, String)>)
    ensures
        match r {
            Some((n, v)) => split_eq(arg@) == Some((n@, v@)),
            None => split_eq(arg@) is None,
        },
{
    let c = chars_of(arg);
    let mut i: usize = 0;
    while i < c.len() && c[i] != '='
        invariant
            i <= c.len(),
            c@ == arg@,
            find_from(c@, '=', 0) == find_from(c@, '=', i as int),
        decreases c.len() - i,
    {
        i = i + 1;
    }
    if i >= c.len() {
        return None;
    }
    let name = string_of_range(&c, 0, i);
    let value = string_of_range(&c, i + 1, c.len());
    assert(c@.take(i as int) =~= c@.subrange(0, i as int));
    assert(c@.skip(i + 1) =~= c@.subrange(i + 1, c@.len() as int));
    Some((name, value))
}

/// `s` without its leading and trailing occurrences of `c`.
pub open spec fn trim_char(s: Seq<char>, c: char) -> Seq<char> {
    let lo = leading_count(s, c, 0);
    let hi = trailing_end(s, c, s.len() as int);
    if lo >= hi {
        seq![]
    } else {
        s.subrange(lo, hi)
    }
}

/// The position of the first character from `i` on that is not `c`.
pub open spec fn leading_count(s: Seq<char>, c: char, i: int) -> int
    decreases s.len() - i,
{
    if i < 0 || i >= s.len() || s[i] != c {
        i
    } else {
        leading_count(s, c, i + 1)
    }
}

/// The end of `s[..j]` once the trailing occurrences of `c` are dropped.
pub open spec fn trailing_end(s: Seq<char>, c: char, j: int) -> int
    decreases j,
{
    if j <= 0 || j > s.len() || s[j - 1] != c {
        j
    } else {
        trailing_end(s, c, j - 1)
    }
}

/// `str::trim_matches` with a single character.
pub fn trim_matches_char(s: &str, c: char) -> (r: String)
    ensures
        r@ == trim_char(s@, c),
{
    let v = chars_of(s);
    let mut lo: usize = 0;
    while lo < v.len() && v[lo] == c
        invariant
            lo <= v.len(),
            v@ == s@,
            leading_count(v@, c, lo as int) == leading_count(v@, c, 0),
        decreases v.len() - lo,
    {
        lo = lo + 1;
    }
    let mut hi: usize = v.len();
    while hi > 0 && v[hi - 1] == c
        invariant
            hi <= v.len(),
            v@ == s@,
            trailing_end(v@, c, hi as int) == trailing_end(v@, c, v@.len() as int),
        decreases hi,
    {
        hi = hi - 1;
    }
    if lo >= hi {
        return String::new();
    }
    string_of_range(&v, lo, hi)
}

/// An argument of `alias`: a definition, or a name to show.
#[derive(Debug)]
pub enum AliasArg {
    Define(String, String),
    Show(String),
}

/// The value of an alias definition: quotes trimmed, single first, then
/// double.
pub open spec fn alias_value(v: Seq<char>) -> Seq<char> {
    trim_char(trim_char(v, '\''), '"')
}

/// Reads an argument of `alias`: `name=value` defines (the value with
/// surrounding quotes trimmed), anything else names an alias to show.
pub fn alias_arg(arg: &str) -> (r: AliasArg)
    ensures
        match r {
            AliasArg::Define(n, v) => split_eq(arg@) matches Some((n0, v0)) && n@ == n0 && v@
                == alias_value(v0),
            AliasArg::Show(n) => split_eq(arg@) is None && n@ == arg@,
        },
{
    match split_at_eq(arg) {
        Some((name, value)) => {
            let t1 = trim_matches_char(value.as_str(), '\'');
            let t2 = trim_matches_char(t1.as_str(), '"');
            AliasArg::Define(name, t2)
        },
        None => AliasArg::Show(string_of(&chars_of(arg))),
    }
}

/// The line `alias` prints for an alias: `alias NAME='VALUE'`.
pub fn alias_line(name: &str, value: &str) -> (r: String)
    ensures
        r@ == "alias "@ + name@ + "='"@ + value@ + "'"@,
{
    let mut r = String::new();
    string_append(&mut r, "alias ");
    string_append(&mut r, name);
    string_append(&mut r, "='");
    string_append(&mut r, value);
    string_append(&mut r, "'");
    r
}

// ── cd ──

/// Where `cd` goes.
#[derive(Clone, Copy, Debug, PartialEq, Eq, Structural)]
pub enum CdTarget {
    /// The home directory (no argument, or `~`).
    Home,
    /// The parent of the current directory (`..`).
    Parent,
    /// Nowhere (`.`).
    Stay,
    /// The directory named by the argument.
    Named,
}

/// Decides where `cd` goes from its argument.
pub fn cd_target(dir: &str) -> (r: CdTarget)
    ensures
        r == (if dir@.len() == 0 || dir@ == "~"@ {
            CdTarget::Home
        } else if dir@ == ".."@ {
            CdTarget::Parent
        } else if dir@ == "."@ {
            CdTarget::Stay
        } else {
            CdTarget::Named
        }),
{
    if chars_of(dir).len() == 0 || str_eq(dir, "~") {
        CdTarget::Home
    } else if str_eq(dir, "..") {
        CdTarget::Parent
    } else if str_eq(dir, ".") {
        CdTarget::Stay
    } else {
        CdTarget::Named
    }
}

// ── exit ──

/// The status `exit` ends the shell with: its first argument when that is
/// an `i32`, 0 otherwise.
pub fn exit_status(args: &[&str]) -> (r: i32)
    ensures
        args@.len() == 0 ==> r == 0,
        args@.len() > 0 ==> r == (match parse_signed(args@[0]@) {
            Some(v) => if i32::MIN <= v <= i32::MAX {
                v as i32
            } else {
                0
            },
            None => 0,
        }),
{
    if args.len() == 0 {
        return 0;
    }
    match parse_i32(args[0]) {
        Some(v) => v,
        None => 0,
    }
}

/// Whether a builtin was asked for its help (`--help` first).
pub fn wants_help(args: &[&str]) -> (r: bool)
    ensures
        r == (args@.len() > 0 && args@[0]@ == "--help"@),
{
    args.len() > 0 && str_eq(args[0], "--help")
}

// ── echo ──

/// The words joined by single spaces.
pub open spec fn join_spaces(ws: Seq<Seq<char>>) -> Seq<char>
    decreases ws.len(),
{
    if ws.len() == 0 {
        seq![]
    } else if ws.len() == 1 {
        ws[0]
    } else {
        join_spaces(ws.drop_last()) + seq![' '] + ws.last()
    }
}

/// What `echo` writes: its arguments joined by single spaces.
pub fn echo_text(args: &[&str]) -> (r: String)
    ensures
        r@ == join_spaces(strs_s(args@)),
{
    let ghost av = strs_s(args@);
    let mut r = String::new();
    let mut i: usize = 0;
    while i < args.len()
        invariant
            i <= args.len(),
            av == strs_s(args@),
            r@ == join_spaces(av.take(i as int)),
        decreases args.len() - i,
    {
        if i > 0 {
            string_push(&mut r, ' ');
        }
        string_append(&mut r, args[i]);
        assert(av.take(i + 1).drop_last() =~= av.take(i as int));
        i = i + 1;
    }
    assert(av.take(args.len() as int) =~= av);
    r
}

// ── history ──

/// `s` padded on the left with spaces to at least `w` characters.
pub open spec fn pad_left(s: Seq<char>, w: int) -> Seq<char> {
    if s.len() >= w {
        s
    } else {
        Seq::new((w - s.len()) as nat, |i: int| ' ') + s
    }
}

/// The line of history entry number `n` (counting from 1): `indent`, the
/// number right-aligned to `width`, two spaces, the entry.
pub open spec fn history_line(indent: Seq<char>, n: int, width: int, entry: Seq<char>) -> Seq<char> {
    indent + pad_left(decimal(n), width) + "  "@ + entry
}

/// Builds one numbered history line.
pub fn numbered_line(indent: &str, n: usize, width: usize, entry: &str) -> (r: String)
    ensures
        r@ == history_line(indent@, n as int, width as int, entry@),
{
    let mut r = String::new();
    string_append(&mut r, indent);
    let d = usize_to_string(n);
    let dl = chars_of(d.as_str()).len();
    let ghost start = r@;
    if dl < width {
        let mut k: usize = 0;
        while k < width - dl
            invariant
                k <= width - dl,
                r@ == start + Seq::new(k as nat, |i: int| ' '),
            decreases width - dl - k,
        {
            string_push(&mut r, ' ');
            k = k + 1;
            assert(r@ =~= start + Seq::new(k as nat, |i: int| ' '));
        }
    }
    string_append(&mut r, d.as_str());
    string_append(&mut r, "  ");
    string_append(&mut r, entry);
    assert(r@ =~= history_line(indent@, n as int, width as int, entry@));
    r
}

/// How many of the last entries `history N` shows: `N` when it is a
/// number, all of them otherwise.
pub open spec fn history_count(len: int, args: Seq<Seq<char>>) -> int {
    if args.len() > 0 {
        match parse_unsigned(args[0]) {
            Some(v) => if v <= usize::MAX {
                v
            } else {
                len
            },
            None => len,
        }
    } else {
        len
    }
}

/// The lines `history [N]` prints: the last `N` entries (all by default),
/// numbered from their place in the whole history, the numbers aligned to
/// the width of the number of entries.
pub fn history_lines(entries: &Vec<String>, args: &Vec<String>) -> (lines: Vec<String>)
    ensures
        ({
            let len = entries@.len() as int;
            let n = history_count(len, strings_s_of(args@));
            let start = if n >= len {
                0
            } else {
                len - n
            };
            &&& lines@.len() == len - start
            &&& forall|k: int|
                0 <= k < lines@.len() ==> #[trigger] lines@[k]@ == history_line(
                    "  "@,
                    start + k + 1,
                    decimal(len).len() as int,
                    entries@[start + k]@,
                )
        }),
{
    let len = entries.len();
    proof {
        assert(strings_s_of(args@).len() == args@.len());
        if args@.len() > 0 {
            assert(strings_s_of(args@)[0] == args@[0]@);
        }
    }
    let n: usize = if args.len() > 0 {
        let a = args[0].as_str();
        assert(a@ == strings_s_of(args@)[0]);
        let r = parse_usize(a);
        assert(parse_unsigned(strings_s_of(args@)[0]) == parse_unsigned(a@));
        proof {
            lemma_parse_unsigned_nonneg(a@);
        }
        match r {
            Some(v) => {
                assert(history_count(len as int, strings_s_of(args@)) == v);
                v
            },
            None => {
                assert(history_count(len as int, strings_s_of(args@)) == len);
                len
            },
        }
    } else {
        len
    };
    let start = if n >= len {
        0
    } else {
        len - n
    };
    assert(n == history_count(len as int, strings_s_of(args@)));
    let width = chars_of(usize_to_string(len).as_str()).len();
    let mut lines: Vec<String> = Vec::new();
    let mut i = start;
    while i < len
        invariant
            start <= i <= len,
            len == entries@.len(),
            width == decimal(len as int).len(),
            lines@.len() == i - start,
            forall|k: int|
                0 <= k < lines@.len() ==> #[trigger] lines@[k]@ == history_line(
                    "  "@,
                    start + k + 1,
                    width as int,
                    entries@[start + k]@,
                ),
        decreases len - i,
    {
        lines.push(numbered_line("  ", i + 1, width, entries[i].as_str()));
        i = i + 1;
    }
    lines
}

pub open spec fn strings_s_of(v: Seq<String>) -> Seq<Seq<char>> {
    v.map_values(|s: String| s@)
}

/// What the `history` builtin does.
#[derive(Debug)]
pub enum HistoryAction {
    /// Print these lines.
    Show(Vec<String>),
    /// `-c`: forget every entry.
    Clear,
    /// `-r [file]`: read entries from the file.
    Load(String),
    /// `-w [file]`: write all entries to the file.
    Write(String),
    /// `-a [file]`: append the entries of this session to the file.
    Append(String),
}

/// Decides what `history` does: `-c` clears; `-r`, `-w` and `-a` read,
/// write or append the file given after them (the history file by
/// default); anything else shows entries.
pub fn history(entries: &Vec<String>, args: &Vec<String>, history_file: &str) -> (r: HistoryAction)
    ensures
        args@.len() > 0 && args@[0]@ == "-c"@ ==> r is Clear,
        args@.len() > 0 && args@[0]@ == "-r"@ ==> (r matches HistoryAction::Load(f) && f@ == (if args@.len() > 1 { args@[1]@ } else { history_file@ })),
        args@.len() > 0 && args@[0]@ == "-w"@ ==> (r matches HistoryAction::Write(f) && f@ == (if args@.len() > 1 { args@[1]@ } else { history_file@ })),
        args@.len() > 0 && args@[0]@ == "-a"@ ==> (r matches HistoryAction::Append(f) && f@ == (if args@.len() > 1 { args@[1]@ } else { history_file@ })),
        !(args@.len() > 0 && (args@[0]@ == "-c"@ || args@[0]@ == "-r"@ || args@[0]@ == "-w"@ || args@[0]@ == "-a"@)) ==> (r matches HistoryAction::Show(lines) && ({
            let len = entries@.len() as int;
            let n = history_count(len, strings_s_of(args@));
            let start = if n >= len {
                0
            } else {
                len - n
            };
            &&& lines@.len() == len - start
            &&& forall|k: int|
                0 <= k < lines@.len() ==> #[trigger] lines@[k]@ == history_line(
                    "  "@,
                    start + k + 1,
                    decimal(len).len() as int,
                    entries@[start + k]@,
                )
        })),
{
    proof {
        reveal_strlit("-c");
        reveal_strlit("-r");
        reveal_strlit("-w");
        reveal_strlit("-a");
        assert("-c"@[1] == 'c' && "-r"@[1] == 'r' && "-w"@[1] == 'w' && "-a"@[1] == 'a');
    }
    if args.len() > 0 {
        let flag = args[0].as_str();
        let file = if args.len() > 1 {
            args[1].clone()
        } else {
            string_of(&chars_of(history_file))
        };
        if str_eq(flag, "-c") {
            return HistoryAction::Clear;
        } else if str_eq(flag, "-r") {
            return HistoryAction::Load(file);
        } else if str_eq(flag, "-w") {
            return HistoryAction::Write(file);
        } else if str_eq(flag, "-a") {
            return HistoryAction::Append(file);
        }
    }
    HistoryAction::Show(history_lines(entries, args))
}

} // verus!
