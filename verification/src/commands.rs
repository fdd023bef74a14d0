//! Which builtin a command name selects and what it prints; the caller
//! performs what needs the system (the environment, the file system, the
//! working directory, leaving the shell).
use vstd::prelude::*;
use crate::text::{chars_of, string_append, str_eq, trim_whitespace, trim_ws, parse_signed};
use crate::builtins::{
    TestPlan, TestPlanS, test_plan_s, spec_test, plan_test, strs_s, CdTarget, cd_target,
    exit_status, wants_help, echo_text, join_spaces, split_eq, split_at_eq, numbered_line,
    history_line,
};
use crate::eval::{is_builtin, builtin_names};
use crate::tab::{lex_le, lex_le_chars};

verus! {

pub open spec fn lines_view(v: Seq<String>) -> Seq<Seq<char>> {
    v.map_values(|s: String| s@)
}

/// What a command does, as far as its name and arguments decide it.
#[derive(Debug)]
pub enum CommandPlan {
    /// Print these lines; the status is 0.
    Lines(Vec<String>),
    /// Print this message on standard error; the status is 1.
    Error(String),
    /// Say what kind of command the first argument names.
    TypeOf,
    /// Print the working directory.
    Pwd,
    /// Change the working directory (`Named`: to the first argument).
    Cd(CdTarget),
    /// Leave the shell with this status.
    Exit(i32),
    /// Print every environment variable, sorted by name.
    ShowVars,
    /// Set or show each argument (see `export_arg`).
    Export,
    /// Remove the variables named by the arguments.
    Unset,
    /// Run the commands of the file named by the first argument.
    Source,
    /// Define or show each argument (see `alias_arg`).
    Alias,
    /// Remove the aliases named by the arguments.
    Unalias,
    /// Print help on the arguments (see `help_lines`).
    Help,
    /// Evaluate a `test` expression.
    Test(TestPlan),
    /// Print the whole history, numbered.
    History,
    /// Run a program found on the search path.
    External,
}

pub enum CommandPlanS {
    Lines(Seq<Seq<char>>),
    Error(Seq<char>),
    TypeOf,
    Pwd,
    Cd(CdTarget),
    Exit(int),
    ShowVars,
    Export,
    Unset,
    Source,
    Alias,
    Unalias,
    Help,
    Test(TestPlanS),
    History,
    External,
}

pub open spec fn plan_view(p: CommandPlan) -> CommandPlanS {
    match p {
        CommandPlan::Lines(v) => CommandPlanS::Lines(lines_view(v@)),
        CommandPlan::Error(m) => CommandPlanS::Error(m@),
        CommandPlan::TypeOf => CommandPlanS::TypeOf,
        CommandPlan::Pwd => CommandPlanS::Pwd,
        CommandPlan::Cd(t) => CommandPlanS::Cd(t),
        CommandPlan::Exit(c) => CommandPlanS::Exit(c as int),
        CommandPlan::ShowVars => CommandPlanS::ShowVars,
        CommandPlan::Export => CommandPlanS::Export,
        CommandPlan::Unset => CommandPlanS::Unset,
        CommandPlan::Source => CommandPlanS::Source,
        CommandPlan::Alias => CommandPlanS::Alias,
        CommandPlan::Unalias => CommandPlanS::Unalias,
        CommandPlan::Help => CommandPlanS::Help,
        CommandPlan::Test(t) => CommandPlanS::Test(test_plan_s(t)),
        CommandPlan::History => CommandPlanS::History,
        CommandPlan::External => CommandPlanS::External,
    }
}

/// The first argument is `--help`.
pub open spec fn asks_help(args: Seq<Seq<char>>) -> bool {
    args.len() > 0 && args[0] == "--help"@
}

/// The status `exit` leaves with: its first argument when that is an
/// `i32`, 0 otherwise.
pub open spec fn exit_code_of(args: Seq<Seq<char>>) -> int {
    if args.len() == 0 {
        0
    } else {
        match parse_signed(args[0]) {
            Some(v) => if i32::MIN <= v <= i32::MAX {
                v
            } else {
                0
            },
            None => 0,
        }
    }
}

/// Where `cd` goes for its arguments.
pub open spec fn cd_of(args: Seq<Seq<char>>) -> CdTarget {
    let dir = if args.len() > 0 {
        args[0]
    } else {
        seq![]
    };
    if dir.len() == 0 || dir == "~"@ {
        CdTarget::Home
    } else if dir == ".."@ {
        CdTarget::Parent
    } else if dir == "."@ {
        CdTarget::Stay
    } else {
        CdTarget::Named
    }
}

/// What the command `program` with `args` does.
pub open spec fn command_plan(program: Seq<char>, args: Seq<Seq<char>>) -> CommandPlanS {
    if program == "echo"@ {
        if asks_help(args) {
            CommandPlanS::Lines(seq!["echo: echo [string ...]"@, "    Write arguments to standard output."@])
        } else {
            CommandPlanS::Lines(seq![join_spaces(args)])
        }
    } else if program == "type"@ {
        if asks_help(args) {
            CommandPlanS::Lines(seq!["type: type [name ...]"@, "    Display information about command type."@])
        } else if args.len() > 0 {
            CommandPlanS::TypeOf
        } else {
            CommandPlanS::Error("type: missing operand"@)
        }
    } else if program == "pwd"@ {
        if asks_help(args) {
            CommandPlanS::Lines(seq!["pwd: pwd"@, "    Print the current working directory."@])
        } else {
            CommandPlanS::Pwd
        }
    } else if program == "cd"@ {
        if asks_help(args) {
            CommandPlanS::Lines(seq!["cd: cd [dir]"@, "    Change the current working directory."@])
        } else {
            CommandPlanS::Cd(cd_of(args))
        }
    } else if program == "exit"@ {
        CommandPlanS::Exit(exit_code_of(args))
    } else if program == "export"@ {
        if args.len() == 0 {
            CommandPlanS::ShowVars
        } else {
            CommandPlanS::Export
        }
    } else if program == "unset"@ {
        CommandPlanS::Unset
    } else if program == "set"@ || program == "env"@ {
        CommandPlanS::ShowVars
    } else if program == "source"@ {
        if args.len() > 0 {
            CommandPlanS::Source
        } else {
            CommandPlanS::Error("source: missing filename"@)
        }
    } else if program == "alias"@ {
        CommandPlanS::Alias
    } else if program == "unalias"@ {
        CommandPlanS::Unalias
    } else if program == "help"@ {
        CommandPlanS::Help
    } else if program == "test"@ || program == "["@ {
        CommandPlanS::Test(spec_test(args))
    } else if program == "history"@ {
        CommandPlanS::History
    } else {
        CommandPlanS::External
    }
}

fn two_lines(a: &str, b: &str) -> (r: Vec<String>)
    ensures
        lines_view(r@) == seq![a@, b@],
{
    let r = vec![a.to_owned(), b.to_owned()];
    assert(lines_view(r@) =~= seq![a@, b@]);
    r
}

/// The message printed for a program name that the search did not find.
pub open spec fn not_found_message(name: Seq<char>) -> Seq<char> {
    name + ": command not found"@
}

/// The status of a command whose program was not found.
pub open spec fn not_found_status() -> int {
    127
}

/// What running program `name` comes to, `found` being the path the search
/// gave for it: that path to start, or, when there is none, the status 127
/// with the message `NAME: command not found`.
pub fn resolve_program(name: &str, found: Option<String>) -> (r: Result<String, (i32, String)>)
    ensures
        match found {
            Some(path) => r == Ok::<String, (i32, String)>(path),
            None => r is Err && r->Err_0.0 == not_found_status() && r->Err_0.1@
                == not_found_message(name@),
        },
{
    match found {
        Some(path) => Ok(path),
        None => {
            let mut message = String::new();
            string_append(&mut message, name);
            string_append(&mut message, ": command not found");
            proof {
                reveal_strlit(": command not found");
                assert(message@ =~= not_found_message(name@));
            }
            Err((127, message))
        },
    }
}

/// Decides what the command `program` with `args` does: each builtin by
/// its name, anything else runs a program.
pub fn plan_command(program: &str, args: &[&str]) -> (r: CommandPlan)
    ensures
        plan_view(r) == command_plan(program@, strs_s(args@)),
{
    let ghost av = strs_s(args@);
    proof {
        if args@.len() > 0 {
            assert(av[0] == args@[0]@);
        }
    }
    if str_eq(program, "echo") {
        if wants_help(args) {
            CommandPlan::Lines(two_lines("echo: echo [string ...]", "    Write arguments to standard output."))
        } else {
            let t = echo_text(args);
            let v = vec![t];
            assert(lines_view(v@) =~= seq![join_spaces(av)]);
            CommandPlan::Lines(v)
        }
    } else if str_eq(program, "type") {
        if wants_help(args) {
            CommandPlan::Lines(two_lines("type: type [name ...]", "    Display information about command type."))
        } else if args.len() > 0 {
            CommandPlan::TypeOf
        } else {
            CommandPlan::Error("type: missing operand".to_owned())
        }
    } else if str_eq(program, "pwd") {
        if wants_help(args) {
            CommandPlan::Lines(two_lines("pwd: pwd", "    Print the current working directory."))
        } else {
            CommandPlan::Pwd
        }
    } else if str_eq(program, "cd") {
        if wants_help(args) {
            CommandPlan::Lines(two_lines("cd: cd [dir]", "    Change the current working directory."))
        } else if args.len() > 0 {
            CommandPlan::Cd(cd_target(args[0]))
        } else {
            proof {
                reveal_strlit("");
            }
            CommandPlan::Cd(cd_target(""))
        }
    } else if str_eq(program, "exit") {
        CommandPlan::Exit(exit_status(args))
    } else if str_eq(program, "export") {
        if args.len() == 0 {
            CommandPlan::ShowVars
        } else {
            CommandPlan::Export
        }
    } else if str_eq(program, "unset") {
        CommandPlan::Unset
    } else if str_eq(program, "set") || str_eq(program, "env") {
        CommandPlan::ShowVars
    } else if str_eq(program, "source") {
        if args.len() > 0 {
            CommandPlan::Source
        } else {
            CommandPlan::Error("source: missing filename".to_owned())
        }
    } else if str_eq(program, "alias") {
        CommandPlan::Alias
    } else if str_eq(program, "unalias") {
        CommandPlan::Unalias
    } else if str_eq(program, "help") {
        CommandPlan::Help
    } else if str_eq(program, "test") || str_eq(program, "[") {
        CommandPlan::Test(plan_test(args))
    } else if str_eq(program, "history") {
        CommandPlan::History
    } else {
        CommandPlan::External
    }
}

// ── export, set, env ──

/// An argument of `export`: an assignment, or a name to show.
#[derive(Debug)]
pub enum ExportArg {
    Assign(String, String),
    Show(String),
}

/// Reads an argument of `export`: `NAME=VALUE` sets, anything else names a
/// variable to show.
pub fn export_arg(arg: &str) -> (r: ExportArg)
    ensures
        match r {
            ExportArg::Assign(n, v) => split_eq(arg@) == Some((n@, v@)),
            ExportArg::Show(n) => split_eq(arg@) is None && n@ == arg@,
        },
{
    match split_at_eq(arg) {
        Some((n, v)) => ExportArg::Assign(n, v),
        None => ExportArg::Show(arg.to_owned()),
    }
}

/// The line `export NAME` prints for a set variable.
pub fn export_line(name: &str, value: &str) -> (r: String)
    ensures
        r@ == "declare -x "@ + name@ + "="@ + value@,
{
    let mut r = String::new();
    string_append(&mut r, "declare -x ");
    string_append(&mut r, name);
    string_append(&mut r, "=");
    string_append(&mut r, value);
    r
}

pub open spec fn pairs_view(v: Seq<(String, String)>) -> Seq<(Seq<char>, Seq<char>)> {
    v.map_values(|p: (String, String)| (p.0@, p.1@))
}

/// The first place from `j` on whose name sorts after `x`'s.
pub open spec fn var_insert_pos(t: Seq<(Seq<char>, Seq<char>)>, x: (Seq<char>, Seq<char>), j: int) -> int
    decreases t.len() - j,
{
    if j < 0 || j >= t.len() || !lex_le(t[j].0, x.0) {
        j
    } else {
        var_insert_pos(t, x, j + 1)
    }
}

/// Stable sorting by name.
pub open spec fn sort_vars(s: Seq<(Seq<char>, Seq<char>)>) -> Seq<(Seq<char>, Seq<char>)>
    decreases s.len(),
{
    if s.len() == 0 {
        s
    } else {
        let t = sort_vars(s.drop_last());
        t.insert(var_insert_pos(t, s.last(), 0), s.last())
    }
}

/// `NAME=VALUE` for each variable, sorted by name.
pub open spec fn var_lines_spec(vars: Seq<(Seq<char>, Seq<char>)>) -> Seq<Seq<char>> {
    sort_vars(vars).map_values(|p: (Seq<char>, Seq<char>)| p.0 + "="@ + p.1)
}

/// The lines `set` and `env` print: `NAME=VALUE` for each variable, sorted
/// by name (variables of equal names keep their order).
pub fn var_lines(vars: &Vec<(String, String)>) -> (r: Vec<String>)
    ensures
        lines_view(r@) == var_lines_spec(pairs_view(vars@)),
{
    let ghost pv = pairs_view(vars@);
    let mut sorted: Vec<(String, String)> = Vec::new();
    let mut i: usize = 0;
    assert(pv.take(0) =~= Seq::<(Seq<char>, Seq<char>)>::empty());
    assert(pairs_view(sorted@) =~= Seq::<(Seq<char>, Seq<char>)>::empty());
    while i < vars.len()
        invariant
            i <= vars.len(),
            pv == pairs_view(vars@),
            pv.len() == vars.len(),
            pairs_view(sorted@) == sort_vars(pv.take(i as int)),
        decreases vars.len() - i,
    {
        let x = (vars[i].0.clone(), vars[i].1.clone());
        assert(pv[i as int] == (x.0@, x.1@));
        let xn = chars_of(x.0.as_str());
        let ghost t = pairs_view(sorted@);
        let mut j: usize = 0;
        while j < sorted.len() && lex_le_chars(&chars_of(sorted[j].0.as_str()), &xn)
            invariant
                j <= sorted.len(),
                t == pairs_view(sorted@),
                t.len() == sorted.len(),
                xn@ == x.0@,
                var_insert_pos(t, (x.0@, x.1@), j as int) == var_insert_pos(t, (x.0@, x.1@), 0),
            decreases sorted.len() - j,
        {
            assert(t[j as int] == (sorted@[j as int].0@, sorted@[j as int].1@));
            j = j + 1;
        }
        proof {
            if j < sorted.len() {
                assert(t[j as int] == (sorted@[j as int].0@, sorted@[j as int].1@));
            }
        }
        assert(pv.take(i + 1).drop_last() =~= pv.take(i as int));
        assert(pv.take(i + 1).last() == (x.0@, x.1@));
        let ghost before = sorted@;
        sorted.insert(j, x);
        assert(pairs_view(sorted@) =~= pairs_view(before).insert(j as int, (x.0@, x.1@)));
        i = i + 1;
    }
    assert(pv.take(vars.len() as int) =~= pv);
    let ghost sv = pairs_view(sorted@);
    let mut lines: Vec<String> = Vec::new();
    let mut k: usize = 0;
    while k < sorted.len()
        invariant
            k <= sorted.len(),
            sv == pairs_view(sorted@),
            sv.len() == sorted.len(),
            lines_view(lines@) == sv.take(k as int).map_values(
                |p: (Seq<char>, Seq<char>)| p.0 + "="@ + p.1,
            ),
        decreases sorted.len() - k,
    {
        let mut l = String::new();
        string_append(&mut l, sorted[k].0.as_str());
        string_append(&mut l, "=");
        string_append(&mut l, sorted[k].1.as_str());
        assert(sv[k as int] == (sorted@[k as int].0@, sorted@[k as int].1@));
        let ghost before = lines@;
        lines.push(l);
        assert(lines_view(lines@) =~= lines_view(before).push(l@));
        assert(sv.take(k + 1).map_values(|p: (Seq<char>, Seq<char>)| p.0 + "="@ + p.1) =~= sv.take(
            k as int,
        ).map_values(|p: (Seq<char>, Seq<char>)| p.0 + "="@ + p.1).push(sv[k as int].0 + "="@ + sv[k as int].1));
        k = k + 1;
    }
    assert(sv.take(sorted.len() as int) =~= sv);
    lines
}

// ── type ──

/// What `type` says of a name: a builtin, a program found at `path`, or
/// nothing found.
pub open spec fn type_text(name: Seq<char>, path: Option<Seq<char>>) -> Seq<char> {
    if builtin_names().contains(name) {
        name + " is a shell builtin"@
    } else {
        match path {
            Some(p) => name + " is "@ + p,
            None => name + ": not found"@,
        }
    }
}

/// The line `type` prints, given where the search path has the name (when
/// it is not a builtin).
pub fn type_line(name: &str, path: Option<&str>) -> (r: String)
    ensures
        r@ == type_text(name@, match path {
            Some(p) => Some(p@),
            None => None,
        }),
{
    let mut r = String::new();
    string_append(&mut r, name);
    if is_builtin(name) {
        string_append(&mut r, " is a shell builtin");
    } else {
        match path {
            Some(p) => {
                string_append(&mut r, " is ");
                string_append(&mut r, p);
            },
            None => {
                string_append(&mut r, ": not found");
            },
        }
    }
    r
}

// ── history ──

/// Every history entry, numbered from 1, the number right-aligned in five
/// places.
pub fn history_all(entries: &Vec<String>) -> (r: Vec<String>)
    requires
        entries@.len() < usize::MAX,
    ensures
        r@.len() == entries@.len(),
        forall|k: int|
            0 <= k < r@.len() ==> #[trigger] r@[k]@ == history_line(""@, k + 1, 5, entries@[k]@),
{
    let mut r: Vec<String> = Vec::new();
    let mut i: usize = 0;
    while i < entries.len()
        invariant
            i <= entries.len(),
            entries@.len() < usize::MAX,
            r@.len() == i,
            forall|k: int|
                0 <= k < i ==> #[trigger] r@[k]@ == history_line(""@, k + 1, 5, entries@[k]@),
        decreases entries.len() - i,
    {
        r.push(numbered_line("", i + 1, 5, entries[i].as_str()));
        i = i + 1;
    }
    r
}

// ── source and start-up files ──

/// The pieces of `s[i..]` between occurrences of `sep`, after the pieces
/// `acc` and the partial piece `cur` already read.
pub open spec fn split_on(s: Seq<char>, sep: char, i: int, cur: Seq<char>, acc: Seq<Seq<char>>) -> Seq<Seq<char>>
    decreases s.len() - i,
{
    if i < 0 || i >= s.len() {
        acc.push(cur)
    } else if s[i] == sep {
        split_on(s, sep, i + 1, seq![], acc.push(cur))
    } else {
        split_on(s, sep, i + 1, cur.push(s[i]), acc)
    }
}

/// The pieces of `s` between occurrences of `sep` (`str::split`).
pub open spec fn pieces(s: Seq<char>, sep: char) -> Seq<Seq<char>> {
    split_on(s, sep, 0, seq![], seq![])
}

/// `str::split` on one character.
pub fn split_char(s: &str, sep: char) -> (r: Vec<String>)
    ensures
        lines_view(r@) == pieces(s@, sep),
{
    let c = chars_of(s);
    let mut out: Vec<String> = Vec::new();
    let mut cur = String::new();
    let mut i: usize = 0;
    assert(lines_view(out@) =~= Seq::<Seq<char>>::empty());
    while i < c.len()
        invariant
            i <= c.len(),
            c@ == s@,
            split_on(c@, sep, i as int, cur@, lines_view(out@)) == pieces(s@, sep),
        decreases c.len() - i,
    {
        if c[i] == sep {
            let ghost before = out@;
            let ghost cv = cur@;
            out.push(cur);
            assert(lines_view(out@) =~= lines_view(before).push(cv));
            cur = String::new();
        } else {
            crate::text::string_push(&mut cur, c[i]);
        }
        i = i + 1;
    }
    let ghost before = out@;
    let ghost cv = cur@;
    out.push(cur);
    assert(lines_view(out@) =~= lines_view(before).push(cv));
    out
}

/// A line that holds a command: not blank, not a `#` comment.
pub open spec fn is_command_line(t: Seq<char>) -> bool {
    t.len() > 0 && t[0] != '#'
}

/// The command lines of a script, trimmed, in order.
pub open spec fn script_lines_spec(s: Seq<char>) -> Seq<Seq<char>> {
    pieces(s, '\n').map_values(|l: Seq<char>| trim_ws(l)).filter(
        |t: Seq<char>| is_command_line(t),
    )
}

/// The lines of a script that hold commands, trimmed: blank lines and
/// lines starting with `#` are left out.
pub fn script_lines(contents: &str) -> (r: Vec<String>)
    ensures
        lines_view(r@) == script_lines_spec(contents@),
{
    let pieces = split_char(contents, '\n');
    let ghost all = lines_view(pieces@);
    let ghost trimmed = all.map_values(|l: Seq<char>| trim_ws(l));
    let mut r: Vec<String> = Vec::new();
    let mut k: usize = 0;
    assert(trimmed.take(0).filter(|t: Seq<char>| is_command_line(t)) =~= Seq::<Seq<char>>::empty());
    assert(lines_view(r@) =~= Seq::<Seq<char>>::empty());
    while k < pieces.len()
        invariant
            k <= pieces.len(),
            all == lines_view(pieces@),
            trimmed == all.map_values(|l: Seq<char>| trim_ws(l)),
            trimmed.len() == pieces.len(),
            lines_view(r@) == trimmed.take(k as int).filter(|t: Seq<char>| is_command_line(t)),
        decreases pieces.len() - k,
    {
        let t = trim_whitespace(pieces[k].as_str());
        assert(trimmed[k as int] == t@);
        let tc = chars_of(t.as_str());
        assert(trimmed.take(k + 1).drop_last() =~= trimmed.take(k as int));
        proof {
            trimmed.take(k as int).lemma_filter_push(t@, |t: Seq<char>| is_command_line(t));
            assert(trimmed.take(k as int).push(t@) =~= trimmed.take(k + 1));
        }
        if tc.len() > 0 && tc[0] != '#' {
            let ghost before = r@;
            r.push(t);
            assert(lines_view(r@) =~= lines_view(before).push(tc@));
        }
        k = k + 1;
    }
    assert(trimmed.take(pieces.len() as int) =~= trimmed);
    r
}

// ── help ──

/// What `help` prints without arguments.
pub open spec fn help_overview(version: Seq<char>) -> Seq<Seq<char>> {
    seq![
        "G-shell v"@ + version + " - A shell written in Rust"@,
        "Type 'help <name>' for info about a specific command."@,
        ""@,
        "Built-in commands:"@,
        "  alias, cd, echo, env, exit, export, help, history,"@,
        "  pwd, set, source, test, type, unalias, unset"@,
        ""@,
        "Features:"@,
        "  glob (*?[]), variables ($NAME ${} $?), command substitution"@,
        "  ($(cmd) `cmd`), heredocs (<<), pipelines (|), sequences (;),"@,
        "  AND/OR lists (&& ||), background (&), history expansion"@,
        "  (!! !$ !N), tab completion, $PS1 prompt"@,
    ]
}

/// What `help` prints on one topic.
pub open spec fn help_topic(t: Seq<char>) -> Seq<Seq<char>> {
    if t == "alias"@ {
        seq!["alias: alias [name=value ...]"@, "    Define or display aliases."@]
    } else if t == "cd"@ {
        seq!["cd: cd [dir]"@, "    Change the current working directory."@]
    } else if t == "echo"@ {
        seq!["echo: echo [string ...]"@, "    Write arguments to standard output."@]
    } else if t == "env"@ {
        seq!["env: env"@, "    Display environment variables."@]
    } else if t == "exit"@ {
        seq!["exit: exit [n]"@, "    Exit the shell with status n."@]
    } else if t == "export"@ {
        seq!["export: export [name[=value] ...]"@, "    Set environment variables."@]
    } else if t == "help"@ {
        seq!["help: help [name ...]"@, "    Display help information."@]
    } else if t == "history"@ {
        seq!["history: history [-c|-r|-w|-a] [n|file]"@, "    Display or manipulate history."@]
    } else if t == "pwd"@ {
        seq!["pwd: pwd"@, "    Print the current working directory."@]
    } else if t == "set"@ {
        seq!["set: set"@, "    Display all environment variables."@]
    } else if t == "source"@ {
        seq!["source: source <file>"@, "    Execute commands from a file."@]
    } else if t == "test"@ || t == "["@ {
        seq![
            "test: test [expr] or [ [expr] ]"@,
            "    Evaluate expression (file tests, string/number compare)."@,
        ]
    } else if t == "type"@ {
        seq!["type: type <name>"@, "    Display command type (builtin or external)."@]
    } else if t == "unalias"@ {
        seq!["unalias: unalias <name> ..."@, "    Remove alias definitions."@]
    } else if t == "unset"@ {
        seq!["unset: unset <name> ..."@, "    Unset environment variables."@]
    } else {
        seq!["help: no help topics match '"@ + t + "'."@]
    }
}

/// The help on each topic in turn.
pub open spec fn help_on(ts: Seq<Seq<char>>) -> Seq<Seq<char>>
    decreases ts.len(),
{
    if ts.len() == 0 {
        seq![]
    } else {
        help_on(ts.drop_last()) + help_topic(ts.last())
    }
}

/// What `help` prints: the overview, or the help on each topic.
pub open spec fn help_spec(ts: Seq<Seq<char>>, version: Seq<char>) -> Seq<Seq<char>> {
    if ts.len() == 0 {
        help_overview(version)
    } else {
        help_on(ts)
    }
}

fn push_two(r: &mut Vec<String>, a: &str, b: &str)
    ensures
        lines_view(final(r)@) == lines_view(old(r)@) + seq![a@, b@],
{
    let ghost before = r@;
    r.push(a.to_owned());
    r.push(b.to_owned());
    assert(lines_view(r@) =~= lines_view(before) + seq![a@, b@]);
}

fn topic_lines(r: &mut Vec<String>, t: &str)
    ensures
        lines_view(final(r)@) == lines_view(old(r)@) + help_topic(t@),
{
    if str_eq(t, "alias") {
        push_two(r, "alias: alias [name=value ...]", "    Define or display aliases.");
    } else if str_eq(t, "cd") {
        push_two(r, "cd: cd [dir]", "    Change the current working directory.");
    } else if str_eq(t, "echo") {
        push_two(r, "echo: echo [string ...]", "    Write arguments to standard output.");
    } else if str_eq(t, "env") {
        push_two(r, "env: env", "    Display environment variables.");
    } else if str_eq(t, "exit") {
        push_two(r, "exit: exit [n]", "    Exit the shell with status n.");
    } else if str_eq(t, "export") {
        push_two(r, "export: export [name[=value] ...]", "    Set environment variables.");
    } else if str_eq(t, "help") {
        push_two(r, "help: help [name ...]", "    Display help information.");
    } else if str_eq(t, "history") {
        push_two(r, "history: history [-c|-r|-w|-a] [n|file]", "    Display or manipulate history.");
    } else if str_eq(t, "pwd") {
        push_two(r, "pwd: pwd", "    Print the current working directory.");
    } else if str_eq(t, "set") {
        push_two(r, "set: set", "    Display all environment variables.");
    } else if str_eq(t, "source") {
        push_two(r, "source: source <file>", "    Execute commands from a file.");
    } else if str_eq(t, "test") || str_eq(t, "[") {
        push_two(
            r,
            "test: test [expr] or [ [expr] ]",
            "    Evaluate expression (file tests, string/number compare).",
        );
    } else if str_eq(t, "type") {
        push_two(r, "type: type <name>", "    Display command type (builtin or external).");
    } else if str_eq(t, "unalias") {
        push_two(r, "unalias: unalias <name> ...", "    Remove alias definitions.");
    } else if str_eq(t, "unset") {
        push_two(r, "unset: unset <name> ...", "    Unset environment variables.");
    } else {
        let mut l = String::new();
        string_append(&mut l, "help: no help topics match '");
        string_append(&mut l, t);
        string_append(&mut l, "'.");
        let ghost before = r@;
        r.push(l);
        assert(lines_view(r@) =~= lines_view(before) + seq![l@]);
    }
}

/// The lines `help` prints: an overview naming the builtins and features
/// (with the shell's version), or two lines on each topic asked for.
pub fn help_lines(topics: &[&str], version: &str) -> (r: Vec<String>)
    ensures
        lines_view(r@) == help_spec(strs_s(topics@), version@),
{
    let ghost tv = strs_s(topics@);
    let mut r: Vec<String> = Vec::new();
    if topics.len() == 0 {
        let mut first = String::new();
        string_append(&mut first, "G-shell v");
        string_append(&mut first, version);
        string_append(&mut first, " - A shell written in Rust");
        r.push(first);
        r.push("Type 'help <name>' for info about a specific command.".to_owned());
        r.push("".to_owned());
        r.push("Built-in commands:".to_owned());
        r.push("  alias, cd, echo, env, exit, export, help, history,".to_owned());
        r.push("  pwd, set, source, test, type, unalias, unset".to_owned());
        r.push("".to_owned());
        r.push("Features:".to_owned());
        r.push("  glob (*?[]), variables ($NAME ${} $?), command substitution".to_owned());
        r.push("  ($(cmd) `cmd`), heredocs (<<), pipelines (|), sequences (;),".to_owned());
        r.push("  AND/OR lists (&& ||), background (&), history expansion".to_owned());
        r.push("  (!! !$ !N), tab completion, $PS1 prompt".to_owned());
        assert(lines_view(r@) =~= help_overview(version@));
        return r;
    }
    let mut i: usize = 0;
    assert(lines_view(r@) =~= Seq::<Seq<char>>::empty());
    assert(tv.take(0) =~= Seq::<Seq<char>>::empty());
    while i < topics.len()
        invariant
            i <= topics.len(),
            tv == strs_s(topics@),
            tv.len() == topics.len(),
            lines_view(r@) == help_on(tv.take(i as int)),
        decreases topics.len() - i,
    {
        assert(tv[i as int] == topics@[i as int]@);
        assert(tv.take(i + 1).drop_last() =~= tv.take(i as int));
        topic_lines(&mut r, topics[i]);
        i = i + 1;
    }
    assert(tv.take(topics.len() as int) =~= tv);
    r
}

// ── output of builtins in a pipeline ──

/// What the history looks like in a pipeline: each of the first `n`
/// entries numbered from 1, right-aligned in three places, on a line.
pub open spec fn history_text(es: Seq<Seq<char>>, n: int) -> Seq<char>
    decreases n,
{
    if n <= 0 || n > es.len() {
        seq![]
    } else {
        history_text(es, n - 1) + history_line("  "@, n, 3, es[n - 1]) + "\n"@
    }
}

/// What a builtin writes when its output feeds a pipe. `registry` lists
/// the names that `type` calls builtins; `type_path` is where the search
/// path has the name `type` asks about.
pub open spec fn builtin_output_spec(
    name: Seq<char>,
    args: Seq<Seq<char>>,
    history: Seq<Seq<char>>,
    cwd: Seq<char>,
    registry: Seq<Seq<char>>,
    type_path: Option<Seq<char>>,
) -> Seq<char> {
    if name == "echo"@ {
        join_spaces(args) + "\n"@
    } else if name == "pwd"@ {
        cwd + "\n"@
    } else if name == "history"@ {
        history_text(history, history.len() as int)
    } else if name == "type"@ {
        if args.len() > 0 {
            if registry.contains(args[0]) {
                args[0] + " is a shell builtin\n"@
            } else {
                match type_path {
                    Some(p) => args[0] + " is "@ + p + "\n"@,
                    None => args[0] + ": not found\n"@,
                }
            }
        } else {
            seq![]
        }
    } else {
        seq![]
    }
}

pub fn contains_str(names: &[&str], w: &str) -> (r: bool)
    ensures
        r == strs_s(names@).contains(w@),
{
    let ghost nv = strs_s(names@);
    let mut i: usize = 0;
    while i < names.len()
        invariant
            i <= names.len(),
            nv == strs_s(names@),
            nv.len() == names.len(),
            forall|k: int| 0 <= k < i ==> nv[k] != w@,
        decreases names.len() - i,
    {
        assert(nv[i as int] == names@[i as int]@);
        if str_eq(names[i], w) {
            return true;
        }
        i = i + 1;
    }
    false
}

/// What the builtin `name` writes into a pipe: `echo` its words, `pwd` the
/// directory, `history` the numbered entries, `type` what the name is;
/// the others write nothing.
pub fn builtin_output(
    name: &str,
    args: &[&str],
    history: &Vec<String>,
    cwd: &str,
    registry: &[&str],
    type_path: Option<&str>,
) -> (r: String)
    requires
        history@.len() < usize::MAX,
    ensures
        r@ == builtin_output_spec(
            name@,
            strs_s(args@),
            lines_view(history@),
            cwd@,
            strs_s(registry@),
            match type_path {
                Some(p) => Some(p@),
                None => None,
            },
        ),
{
    let ghost av = strs_s(args@);
    let mut r = String::new();
    if str_eq(name, "echo") {
        string_append(&mut r, echo_text(args).as_str());
        string_append(&mut r, "\n");
    } else if str_eq(name, "pwd") {
        string_append(&mut r, cwd);
        string_append(&mut r, "\n");
    } else if str_eq(name, "history") {
        let ghost hv = lines_view(history@);
        let mut i: usize = 0;
        while i < history.len()
            invariant
                i <= history.len(),
                history@.len() < usize::MAX,
                hv == lines_view(history@),
                hv.len() == history.len(),
                r@ == history_text(hv, i as int),
            decreases history.len() - i,
        {
            assert(hv[i as int] == history@[i as int]@);
            let l = numbered_line("  ", i + 1, 3, history[i].as_str());
            string_append(&mut r, l.as_str());
            string_append(&mut r, "\n");
            i = i + 1;
        }
    } else if str_eq(name, "type") {
        if args.len() > 0 {
            assert(av[0] == args@[0]@);
            string_append(&mut r, args[0]);
            if contains_str(registry, args[0]) {
                string_append(&mut r, " is a shell builtin\n");
            } else {
                match type_path {
                    Some(p) => {
                        string_append(&mut r, " is ");
                        string_append(&mut r, p);
                        string_append(&mut r, "\n");
                    },
                    None => {
                        string_append(&mut r, ": not found\n");
                    },
                }
            }
        }
    }
    r
}

} // verus!
