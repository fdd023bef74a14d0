//! The evaluator: a state machine that walks the syntax tree and decides
//! what runs next. The caller performs the outside work it asks for
//! (running a pipeline, setting a loop variable, recording a function)
//! and feeds back each pipeline's exit status.
use vstd::prelude::*;
use crate::ast::{
    Program, CompleteCommand, AndOrList, AndOrOp, CommandNode, Pipeline, ScriptCommand, IfCommand,
    ForCommand, WhileCommand, CaseCommand,
};
use crate::glob::{glob_match, glob_matches};

verus! {

/// The builtin command names.
pub open spec fn builtin_names() -> Seq<Seq<char>> {
    seq![
        "echo"@,
        "type"@,
        "exit"@,
        "pwd"@,
        "cd"@,
        "history"@,
        "export"@,
        "unset"@,
        "set"@,
        "env"@,
        "source"@,
        "test"@,
        "["@,
        "alias"@,
        "unalias"@,
        "help"@,
    ]
}

/// Whether `name` is one of the builtin commands.
pub fn is_builtin(name: &str) -> (r: bool)
    ensures
        r == builtin_names().contains(name@),
{
    let names: [&str; 16] = [
        "echo",
        "type",
        "exit",
        "pwd",
        "cd",
        "history",
        "export",
        "unset",
        "set",
        "env",
        "source",
        "test",
        "[",
        "alias",
        "unalias",
        "help",
    ];
    let ghost bn = builtin_names();
    assert(names@.map_values(|s: &str| s@) =~= bn);
    let mut i: usize = 0;
    while i < 16
        invariant
            i <= 16,
            bn == builtin_names(),
            names@.map_values(|s: &str| s@) == bn,
            forall|k: int| 0 <= k < i ==> bn[k] != name@,
        decreases 16 - i,
    {
        assert(bn[i as int] == names@[i as int]@);
        if crate::text::str_eq(names[i], name) {
            assert(bn[i as int] == name@);
            return true;
        }
        i = i + 1;
    }
    assert(!bn.contains(name@));
    false
}

/// Pattern matching as used by `case`.
pub fn glob_match_simple(pattern: &str, text: &str) -> (r: bool)
    ensures
        r == glob_matches(pattern@, text@),
{
    glob_match(pattern, text)
}

} // verus!

verus! {

/// A pending piece of evaluation.
#[allow(inconsistent_fields)]
pub enum Frame<'a> {
    /// Running the complete commands of a program in order; `next` is the
    /// index of the next one, `code` the status so far.
    Prog { prog: &'a Program, next: usize, code: i32 },
    /// Running the commands of an and-or list; `next` is the index of the
    /// next node, `code` the status so far.
    AndOr { list: &'a AndOrList, next: usize, code: i32 },
    /// Waiting for the status of a pipeline that the caller runs.
    Pipe { pipeline: &'a Pipeline, last: i32 },
    /// About to test clause `clause` of an `if`.
    IfTest { cmd: &'a IfCommand, clause: usize, last: i32 },
    /// Waiting for the status of the condition of clause `clause`.
    IfCond { cmd: &'a IfCommand, clause: usize, last: i32 },
    /// Running the body of a `for` for word `next`; `code` is the status
    /// so far.
    For { cmd: &'a ForCommand, next: usize, code: i32 },
    /// About to evaluate the condition of a `while`.
    WhileStart { cmd: &'a WhileCommand, code: i32 },
    /// Waiting for the status of the condition of a `while`.
    WhileCond { cmd: &'a WhileCommand, code: i32 },
    /// Waiting for the status of the body of a `while`.
    WhileBody { cmd: &'a WhileCommand, code: i32 },
}

/// What the caller has to do next.
pub enum Action<'a> {
    /// Nothing outside: call `step` again.
    Continue,
    /// Run this pipeline (its commands, with `last_exit_code` as `$?`) and
    /// report its status with `resume`.
    Run { pipeline: &'a Pipeline, last_exit_code: i32 },
    /// Set the loop variable `name` to `value`, then call `step` again.
    SetVar { name: &'a String, value: &'a String },
    /// Record the function `name`, then call `step` again.
    Define { name: &'a String },
    /// The program has finished with this status.
    Done(i32),
}

/// The status of `!` applied to status `v`.
pub open spec fn negate(v: i32) -> i32 {
    if v == 0 {
        1
    } else {
        0
    }
}

/// Whether a node preceded by `op` runs after status `code`: always for
/// the first node, after success for `&&`, after failure for `||`.
pub open spec fn should_run(op: Option<AndOrOp>, code: i32) -> bool {
    match op {
        None => true,
        Some(AndOrOp::And) => code == 0,
        Some(AndOrOp::Or) => code != 0,
    }
}

/// Whether some pattern of `pats` matches `word`.
pub open spec fn any_pattern_matches(pats: Seq<String>, word: Seq<char>) -> bool {
    exists|j: int| 0 <= j < pats.len() && glob_matches(#[trigger] pats[j]@, word)
}

/// The first item of a `case` one of whose patterns matches its word.
pub open spec fn case_choice(cmd: CaseCommand) -> Option<int> {
    if exists|i: int|
        0 <= i < cmd.items@.len() && any_pattern_matches(#[trigger] cmd.items@[i].patterns@, cmd.word@) {
        let i = choose|i: int|
            0 <= i < cmd.items@.len() && any_pattern_matches(cmd.items@[i].patterns@, cmd.word@)
                && forall|k: int|
                0 <= k < i ==> !any_pattern_matches(#[trigger] cmd.items@[k].patterns@, cmd.word@);
        Some(i)
    } else {
        None
    }
}

/// The state after starting the evaluation of `node` with status `last`,
/// on top of `fs`, and the action that goes with it.
pub open spec fn descend<'a>(fs: Seq<Frame<'a>>, node: &'a CommandNode, last: i32) -> (
    Seq<Frame<'a>>,
    Option<i32>,
    Action<'a>,
) {
    match node {
        CommandNode::Pipeable(p) => if p.commands@.len() == 0 {
            (fs, Some(if p.negated { 1i32 } else { 0i32 }), Action::Continue)
        } else {
            (fs.push(Frame::Pipe { pipeline: p, last }), None, Action::Run { pipeline: p, last_exit_code: last })
        },
        CommandNode::Compound(s) => match s {
            ScriptCommand::Subshell(prog) => (
                fs.push(Frame::Prog { prog, next: 0, code: last }),
                None,
                Action::Continue,
            ),
            ScriptCommand::If(cmd) => (
                fs.push(Frame::IfTest { cmd, clause: 0, last }),
                None,
                Action::Continue,
            ),
            ScriptCommand::For(cmd) => (
                fs.push(Frame::For { cmd, next: 0, code: 0 }),
                None,
                Action::Continue,
            ),
            ScriptCommand::While(cmd) => (
                fs.push(Frame::WhileStart { cmd, code: 0 }),
                None,
                Action::Continue,
            ),
            ScriptCommand::Case(cmd) => match case_choice(*cmd) {
                Some(i) => (
                    fs.push(Frame::Prog { prog: &cmd.items@[i].body, next: 0, code: last }),
                    None,
                    Action::Continue,
                ),
                None => (fs, Some(0i32), Action::Continue),
            },
            ScriptCommand::Function(f) => (fs, Some(0i32), Action::Define { name: &f.name }),
        },
    }
}

/// The state after the top frame of `fs` receives status `v`.
pub open spec fn deliver<'a>(fs: Seq<Frame<'a>>, v: i32) -> (Seq<Frame<'a>>, Option<i32>) {
    let rest = fs.drop_last();
    match fs.last() {
        Frame::Prog { prog, next, code } => (rest.push(Frame::Prog { prog, next, code: v }), None),
        Frame::AndOr { list, next, code } => (rest.push(Frame::AndOr { list, next, code: v }), None),
        Frame::Pipe { pipeline, last } => (
            rest,
            Some(if pipeline.negated { negate(v) } else { v }),
        ),
        Frame::IfCond { cmd, clause, last } => if v == 0 {
            (rest.push(Frame::Prog { prog: &cmd.clauses@[clause as int].body, next: 0, code: last }), None)
        } else {
            (rest.push(Frame::IfTest { cmd, clause: (clause + 1) as usize, last }), None)
        },
        Frame::For { cmd, next, code } => (rest.push(Frame::For { cmd, next, code: v }), None),
        Frame::WhileCond { cmd, code } => if v != 0 {
            (rest, Some(code))
        } else {
            (
                rest.push(Frame::WhileBody { cmd, code }).push(
                    Frame::Prog { prog: &cmd.body, next: 0, code },
                ),
                None,
            )
        },
        Frame::WhileBody { cmd, code } => (rest.push(Frame::WhileStart { cmd, code: v }), None),
        _ => (fs, None),
    }
}

/// The state after the top frame of `fs` acts with no status to receive,
/// and the action that goes with it.
pub open spec fn act<'a>(fs: Seq<Frame<'a>>) -> (Seq<Frame<'a>>, Option<i32>, Action<'a>) {
    let rest = fs.drop_last();
    match fs.last() {
        Frame::Prog { prog, next, code } => if next < prog.commands@.len() {
            (
                rest.push(Frame::Prog { prog, next: (next + 1) as usize, code }).push(
                    Frame::AndOr { list: &prog.commands@[next as int].and_or, next: 0, code },
                ),
                None,
                Action::Continue,
            )
        } else {
            (rest, Some(code), Action::Continue)
        },
        Frame::AndOr { list, next, code } => if next < list.nodes@.len() {
            let node = &list.nodes@[next as int];
            let fs1 = rest.push(Frame::AndOr { list, next: (next + 1) as usize, code });
            if should_run(node.operator, code) {
                descend(fs1, &node.command, code)
            } else {
                (fs1, None, Action::Continue)
            }
        } else {
            (rest, Some(code), Action::Continue)
        },
        Frame::Pipe { pipeline, last } => (fs, None, Action::Run { pipeline, last_exit_code: last }),
        Frame::IfTest { cmd, clause, last } => if clause < cmd.clauses@.len() {
            (
                rest.push(Frame::IfCond { cmd, clause, last }).push(
                    Frame::Prog { prog: &cmd.clauses@[clause as int].condition, next: 0, code: last },
                ),
                None,
                Action::Continue,
            )
        } else {
            match &cmd.else_body {
                Some(e) => (rest.push(Frame::Prog { prog: e, next: 0, code: last }), None, Action::Continue),
                None => (rest, Some(0i32), Action::Continue),
            }
        },
        Frame::For { cmd, next, code } => if next < cmd.words@.len() {
            (
                rest.push(Frame::For { cmd, next: (next + 1) as usize, code }).push(
                    Frame::Prog { prog: &cmd.body, next: 0, code },
                ),
                None,
                Action::SetVar { name: &cmd.var, value: &cmd.words@[next as int] },
            )
        } else {
            (rest, Some(code), Action::Continue)
        },
        Frame::WhileStart { cmd, code } => (
            rest.push(Frame::WhileCond { cmd, code }).push(
                Frame::Prog { prog: &cmd.condition, next: 0, code },
            ),
            None,
            Action::Continue,
        ),
        _ => (fs, None, Action::Continue),
    }
}

/// One step of the evaluator: with no frame left it is done; a pending
/// status is delivered to the top frame; otherwise the top frame acts.
pub open spec fn step_spec<'a>(fs: Seq<Frame<'a>>, pending: Option<i32>) -> (
    Seq<Frame<'a>>,
    Option<i32>,
    Action<'a>,
) {
    if fs.len() == 0 {
        (fs, pending, Action::Done(match pending { Some(v) => v, None => 0 }))
    } else {
        match pending {
            Some(v) => {
                let (fs1, p1) = deliver(fs, v);
                (fs1, p1, Action::Continue)
            },
            None => act(fs),
        }
    }
}

} // verus!

verus! {

/// The indices a frame holds stay within the lists they index.
pub open spec fn frame_wf(f: Frame) -> bool {
    match f {
        Frame::Prog { prog, next, code } => next <= prog.commands@.len(),
        Frame::AndOr { list, next, code } => next <= list.nodes@.len(),
        Frame::IfTest { cmd, clause, last } => clause <= cmd.clauses@.len(),
        Frame::IfCond { cmd, clause, last } => clause < cmd.clauses@.len(),
        Frame::For { cmd, next, code } => next <= cmd.words@.len(),
        _ => true,
    }
}

pub open spec fn frames_wf(fs: Seq<Frame>) -> bool {
    forall|k: int| 0 <= k < fs.len() ==> frame_wf(#[trigger] fs[k])
}

fn any_pattern_matches_exec(pats: &Vec<String>, word: &String) -> (r: bool)
    ensures
        r == any_pattern_matches(pats@, word@),
{
    let mut j: usize = 0;
    while j < pats.len()
        invariant
            j <= pats.len(),
            forall|k: int| 0 <= k < j ==> !glob_matches(#[trigger] pats@[k]@, word@),
        decreases pats.len() - j,
    {
        if glob_match(pats[j].as_str(), word.as_str()) {
            return true;
        }
        j = j + 1;
    }
    false
}

fn case_choice_exec(cmd: &CaseCommand) -> (r: Option<usize>)
    ensures
        match r {
            Some(i) => case_choice(*cmd) == Some(i as int) && i < cmd.items@.len(),
            None => case_choice(*cmd) is None,
        },
{
    let mut i: usize = 0;
    while i < cmd.items.len()
        invariant
            i <= cmd.items@.len(),
            forall|k: int| 0 <= k < i ==> !any_pattern_matches(#[trigger] cmd.items@[k].patterns@, cmd.word@),
        decreases cmd.items.len() - i,
    {
        if any_pattern_matches_exec(&cmd.items[i].patterns, &cmd.word) {
            proof {
                let c = choose|c: int|
                    0 <= c < cmd.items@.len() && any_pattern_matches(cmd.items@[c].patterns@, cmd.word@)
                        && forall|k: int|
                        0 <= k < c ==> !any_pattern_matches(#[trigger] cmd.items@[k].patterns@, cmd.word@);
                assert(0 <= i < cmd.items@.len() && any_pattern_matches(cmd.items@[i as int].patterns@, cmd.word@)
                    && forall|k: int|
                    0 <= k < i ==> !any_pattern_matches(#[trigger] cmd.items@[k].patterns@, cmd.word@));
                if c < i {
                    assert(!any_pattern_matches(cmd.items@[c].patterns@, cmd.word@));
                }
                if c > i {
                    assert(!any_pattern_matches(cmd.items@[i as int].patterns@, cmd.word@));
                }
                assert(c == i);
            }
            return Some(i);
        }
        i = i + 1;
    }
    None
}

/// The evaluator's state: the stack of pending frames and a status waiting
/// to be handed to the top frame.
pub struct Evaluator<'a> {
    frames: Vec<Frame<'a>>,
    pending: Option<i32>,
}

impl<'a> Evaluator<'a> {
    pub closed spec fn frames(&self) -> Seq<Frame<'a>> {
        self.frames@
    }

    pub closed spec fn pending(&self) -> Option<i32> {
        self.pending
    }

    pub open spec fn wf(&self) -> bool {
        frames_wf(self.frames())
    }

    /// Hands the status of the pipeline last asked for to the evaluator.
    pub fn resume(&mut self, code: i32)
        requires
            old(self).wf(),
        ensures
            final(self).frames() == old(self).frames(),
            final(self).pending() == Some(code),
            final(self).wf(),
    {
        self.pending = Some(code);
    }

    /// Performs one step (see `step_spec`) and says what the caller has to
    /// do.
    pub fn step(&mut self) -> (a: Action<'a>)
        requires
            old(self).wf(),
        ensures
            (final(self).frames(), final(self).pending(), a) == step_spec(
                old(self).frames(),
                old(self).pending(),
            ),
            final(self).wf(),
    {
        if self.frames.len() == 0 {
            let v = match self.pending {
                Some(v) => v,
                None => 0,
            };
            return Action::Done(v);
        }
        match self.pending {
            Some(v) => {
                self.pending = None;
                self.deliver_exec(v);
                Action::Continue
            },
            None => self.act_exec(),
        }
    }

    fn deliver_exec(&mut self, v: i32)
        requires
            frames_wf(old(self).frames@),
            old(self).frames@.len() > 0,
            old(self).pending is None,
        ensures
            (final(self).frames@, final(self).pending) == deliver(old(self).frames@, v),
            frames_wf(final(self).frames@),
    {
        let ghost fs = self.frames@;
        let top = self.frames.pop().unwrap();
        assert(self.frames@ == fs.drop_last());
        assert(frame_wf(fs[fs.len() - 1]));
        assert(top == fs[fs.len() - 1]);
        match top {
            Frame::Prog { prog, next, code } => {
                self.frames.push(Frame::Prog { prog, next, code: v });
            },
            Frame::AndOr { list, next, code } => {
                self.frames.push(Frame::AndOr { list, next, code: v });
            },
            Frame::Pipe { pipeline, last } => {
                self.pending = Some(
                    if pipeline.negated {
                        if v == 0 {
                            1
                        } else {
                            0
                        }
                    } else {
                        v
                    },
                );
            },
            Frame::IfCond { cmd, clause, last } => {
                assert(clause < cmd.clauses.len());
                if v == 0 {
                    self.frames.push(Frame::Prog { prog: &cmd.clauses[clause].body, next: 0, code: last });
                } else {
                    self.frames.push(Frame::IfTest { cmd, clause: clause + 1, last });
                }
            },
            Frame::For { cmd, next, code } => {
                self.frames.push(Frame::For { cmd, next, code: v });
            },
            Frame::WhileCond { cmd, code } => {
                if v != 0 {
                    self.pending = Some(code);
                } else {
                    self.frames.push(Frame::WhileBody { cmd, code });
                    self.frames.push(Frame::Prog { prog: &cmd.body, next: 0, code });
                }
            },
            Frame::WhileBody { cmd, code } => {
                self.frames.push(Frame::WhileStart { cmd, code: v });
            },
            other => {
                self.frames.push(other);
                assert(self.frames@ =~= fs);
            },
        }
        proof {
            assert forall|k: int| 0 <= k < self.frames@.len() implies frame_wf(#[trigger] self.frames@[k]) by {
                if k < fs.len() - 1 {
                    assert(self.frames@[k] == fs[k]);
                }
            }
        }
    }

    fn descend_exec(&mut self, node: &'a CommandNode, last: i32) -> (a: Action<'a>)
        requires
            frames_wf(old(self).frames@),
            old(self).pending is None,
        ensures
            (final(self).frames@, final(self).pending, a) == descend(old(self).frames@, node, last),
            frames_wf(final(self).frames@),
    {
        let ghost fs = self.frames@;
        let a = match node {
            CommandNode::Pipeable(p) => {
                if p.commands.len() == 0 {
                    self.pending = Some(
                        if p.negated {
                            1
                        } else {
                            0
                        },
                    );
                    Action::Continue
                } else {
                    self.frames.push(Frame::Pipe { pipeline: p, last });
                    Action::Run { pipeline: p, last_exit_code: last }
                }
            },
            CommandNode::Compound(s) => match s {
                ScriptCommand::Subshell(prog) => {
                    self.frames.push(Frame::Prog { prog, next: 0, code: last });
                    Action::Continue
                },
                ScriptCommand::If(cmd) => {
                    self.frames.push(Frame::IfTest { cmd, clause: 0, last });
                    Action::Continue
                },
                ScriptCommand::For(cmd) => {
                    self.frames.push(Frame::For { cmd, next: 0, code: 0 });
                    Action::Continue
                },
                ScriptCommand::While(cmd) => {
                    self.frames.push(Frame::WhileStart { cmd, code: 0 });
                    Action::Continue
                },
                ScriptCommand::Case(cmd) => {
                    match case_choice_exec(cmd) {
                        Some(i) => {
                            self.frames.push(Frame::Prog { prog: &cmd.items[i].body, next: 0, code: last });
                        },
                        None => {
                            self.pending = Some(0);
                        },
                    }
                    Action::Continue
                },
                ScriptCommand::Function(f) => {
                    self.pending = Some(0);
                    Action::Define { name: &f.name }
                },
            },
        };
        proof {
            assert forall|k: int| 0 <= k < self.frames@.len() implies frame_wf(#[trigger] self.frames@[k]) by {
                if k < fs.len() {
                    assert(self.frames@[k] == fs[k]);
                }
            }
        }
        a
    }

    fn act_exec(&mut self) -> (a: Action<'a>)
        requires
            frames_wf(old(self).frames@),
            old(self).frames@.len() > 0,
            old(self).pending is None,
        ensures
            (final(self).frames@, final(self).pending, a) == act(old(self).frames@),
            frames_wf(final(self).frames@),
    {
        let ghost fs = self.frames@;
        let top = self.frames.pop().unwrap();
        assert(self.frames@ == fs.drop_last());
        assert(frame_wf(fs[fs.len() - 1]));
        let ghost rest = self.frames@;
        assert(frames_wf(rest)) by {
            assert forall|k: int| 0 <= k < rest.len() implies frame_wf(#[trigger] rest[k]) by {
                assert(rest[k] == fs[k]);
            }
        }
        let a = match top {
            Frame::Prog { prog, next, code } => {
                if next < prog.commands.len() {
                    self.frames.push(Frame::Prog { prog, next: next + 1, code });
                    self.frames.push(Frame::AndOr { list: &prog.commands[next].and_or, next: 0, code });
                } else {
                    self.pending = Some(code);
                }
                Action::Continue
            },
            Frame::AndOr { list, next, code } => {
                if next < list.nodes.len() {
                    let node = &list.nodes[next];
                    self.frames.push(Frame::AndOr { list, next: next + 1, code });
                    let run = match node.operator {
                        None => true,
                        Some(AndOrOp::And) => code == 0,
                        Some(AndOrOp::Or) => code != 0,
                    };
                    if run {
                        self.descend_exec(&node.command, code)
                    } else {
                        Action::Continue
                    }
                } else {
                    self.pending = Some(code);
                    Action::Continue
                }
            },
            Frame::Pipe { pipeline, last } => {
                self.frames.push(Frame::Pipe { pipeline, last });
                assert(self.frames@ =~= fs);
                Action::Run { pipeline, last_exit_code: last }
            },
            Frame::IfTest { cmd, clause, last } => {
                if clause < cmd.clauses.len() {
                    self.frames.push(Frame::IfCond { cmd, clause, last });
                    self.frames.push(Frame::Prog { prog: &cmd.clauses[clause].condition, next: 0, code: last });
                } else {
                    match &cmd.else_body {
                        Some(e) => {
                            self.frames.push(Frame::Prog { prog: e, next: 0, code: last });
                        },
                        None => {
                            self.pending = Some(0);
                        },
                    }
                }
                Action::Continue
            },
            Frame::For { cmd, next, code } => {
                if next < cmd.words.len() {
                    self.frames.push(Frame::For { cmd, next: next + 1, code });
                    self.frames.push(Frame::Prog { prog: &cmd.body, next: 0, code });
                    Action::SetVar { name: &cmd.var, value: &cmd.words[next] }
                } else {
                    self.pending = Some(code);
                    Action::Continue
                }
            },
            Frame::WhileStart { cmd, code } => {
                self.frames.push(Frame::WhileCond { cmd, code });
                self.frames.push(Frame::Prog { prog: &cmd.condition, next: 0, code });
                Action::Continue
            },
            other => {
                self.frames.push(other);
                assert(self.frames@ =~= fs);
                Action::Continue
            },
        };
        proof {
            assert forall|k: int| 0 <= k < self.frames@.len() implies frame_wf(#[trigger] self.frames@[k]) by {
                if k < rest.len() {
                    assert(self.frames@[k] == rest[k]);
                }
            }
        }
        a
    }
}

/// Starts evaluating `program` with `last_exit_code` as the status of the
/// previous command; drive the result with `Evaluator::step`.
pub fn eval_program<'a>(program: &'a Program, last_exit_code: i32) -> (ev: Evaluator<'a>)
    ensures
        ev.frames() == seq![Frame::Prog { prog: program, next: 0, code: last_exit_code }],
        ev.pending() is None,
        ev.wf(),
{
    let mut frames: Vec<Frame<'a>> = Vec::new();
    frames.push(Frame::Prog { prog: program, next: 0, code: last_exit_code });
    assert(frames@ =~= seq![Frame::Prog { prog: program, next: 0, code: last_exit_code }]);
    let ev = Evaluator { frames, pending: None };
    assert(frame_wf(ev.frames()[0]));
    ev
}

/// Starts evaluating one complete command (its and-or list; running it in
/// the background is the caller's business).
pub fn eval_complete_command<'a>(cmd: &'a CompleteCommand, last_exit_code: i32) -> (ev: Evaluator<'a>)
    ensures
        ev.frames() == seq![Frame::AndOr { list: &cmd.and_or, next: 0, code: last_exit_code }],
        ev.pending() is None,
        ev.wf(),
{
    let mut frames: Vec<Frame<'a>> = Vec::new();
    frames.push(Frame::AndOr { list: &cmd.and_or, next: 0, code: last_exit_code });
    assert(frames@ =~= seq![Frame::AndOr { list: &cmd.and_or, next: 0, code: last_exit_code }]);
    let ev = Evaluator { frames, pending: None };
    assert(frame_wf(ev.frames()[0]));
    ev
}

// ── laws of evaluation ──

/// `a && b`: after `a` fails, `b` is skipped and the status stays.
pub proof fn law_and_skips_after_failure<'a>(fs: Seq<Frame<'a>>, list: &'a AndOrList, next: usize, code: i32)
    requires
        fs.len() > 0,
        fs.last() == (Frame::AndOr { list, next, code }),
        next < list.nodes@.len(),
        list.nodes@[next as int].operator == Some(AndOrOp::And),
        code != 0,
    ensures
        step_spec(fs, None) == (
            fs.drop_last().push(Frame::AndOr { list, next: (next + 1) as usize, code }),
            None::<i32>,
            Action::Continue,
        ),
{
}

/// `a || b`: after `a` succeeds, `b` is skipped and the status stays.
pub proof fn law_or_skips_after_success<'a>(fs: Seq<Frame<'a>>, list: &'a AndOrList, next: usize, code: i32)
    requires
        fs.len() > 0,
        fs.last() == (Frame::AndOr { list, next, code }),
        next < list.nodes@.len(),
        list.nodes@[next as int].operator == Some(AndOrOp::Or),
        code == 0,
    ensures
        step_spec(fs, None) == (
            fs.drop_last().push(Frame::AndOr { list, next: (next + 1) as usize, code }),
            None::<i32>,
            Action::Continue,
        ),
{
}

/// `a && p` after `a` succeeds, and `a || p` after `a` fails: the pipeline
/// `p` (when it has commands) is run, with the status of `a` as `$?`.
pub proof fn law_next_runs<'a>(fs: Seq<Frame<'a>>, list: &'a AndOrList, next: usize, code: i32, p: &'a Pipeline)
    requires
        fs.len() > 0,
        fs.last() == (Frame::AndOr { list, next, code }),
        next < list.nodes@.len(),
        list.nodes@[next as int].command == CommandNode::Pipeable(*p),
        p.commands@.len() > 0,
        (list.nodes@[next as int].operator == Some(AndOrOp::And) && code == 0)
            || (list.nodes@[next as int].operator == Some(AndOrOp::Or) && code != 0),
    ensures
        step_spec(fs, None).2 == (Action::Run { pipeline: &list.nodes@[next as int].command->Pipeable_0, last_exit_code: code }),
{
}

/// The status of an and-or list is the status it holds when its nodes
/// are exhausted: that of the last command that ran.
pub proof fn law_and_or_status<'a>(fs: Seq<Frame<'a>>, list: &'a AndOrList, code: i32)
    requires
        fs.len() > 0,
        fs.last() == (Frame::AndOr { list, next: list.nodes@.len() as usize, code }),
        list.nodes@.len() <= usize::MAX,
    ensures
        step_spec(fs, None) == (fs.drop_last(), Some(code), Action::Continue),
{
}

/// `! p`: the status of a negated pipeline is 1 after success and 0 after
/// failure; otherwise it is the pipeline's own.
pub proof fn law_negation<'a>(fs: Seq<Frame<'a>>, p: &'a Pipeline, last: i32, v: i32)
    requires
        fs.len() > 0,
        fs.last() == (Frame::Pipe { pipeline: p, last }),
    ensures
        step_spec(fs, Some(v)).1 == Some(if p.negated {
            if v == 0 {
                1i32
            } else {
                0i32
            }
        } else {
            v
        }),
        step_spec(fs, Some(v)).0 == fs.drop_last(),
{
}

/// `if`: the body of the first clause whose condition succeeds runs;
/// after a failing condition the next clause is tested.
pub proof fn law_if_takes_first_true_clause<'a>(fs: Seq<Frame<'a>>, cmd: &'a IfCommand, clause: usize, last: i32, v: i32)
    requires
        fs.len() > 0,
        fs.last() == (Frame::IfCond { cmd, clause, last }),
        clause < cmd.clauses@.len(),
    ensures
        v == 0 ==> step_spec(fs, Some(v)).0 == fs.drop_last().push(
            Frame::Prog { prog: &cmd.clauses@[clause as int].body, next: 0, code: last },
        ),
        v != 0 ==> step_spec(fs, Some(v)).0 == fs.drop_last().push(
            Frame::IfTest { cmd, clause: (clause + 1) as usize, last },
        ),
{
}

/// `while`: a failing condition ends the loop with the status of the last
/// body run (0 when none ran); a succeeding one runs the body.
pub proof fn law_while_stops_on_failure<'a>(fs: Seq<Frame<'a>>, cmd: &'a WhileCommand, code: i32, v: i32)
    requires
        fs.len() > 0,
        fs.last() == (Frame::WhileCond { cmd, code }),
    ensures
        v != 0 ==> step_spec(fs, Some(v)) == (fs.drop_last(), Some(code), Action::Continue),
        v == 0 ==> step_spec(fs, Some(v)).0 == fs.drop_last().push(Frame::WhileBody { cmd, code }).push(
            Frame::Prog { prog: &cmd.body, next: 0, code },
        ),
{
}

/// Evaluation is over exactly when no frame is left; it ends with the
/// status last delivered.
pub proof fn law_done_with_last_status<'a>(v: i32)
    ensures
        step_spec(Seq::<Frame<'a>>::empty(), Some(v)).2 == Action::<'a>::Done(v),
{
}

// ── whole runs ──

/// One step of a run in which the caller answers each pipeline it is
/// asked to run with `status(pipeline)`.
pub open spec fn run_step<'a>(fs: Seq<Frame<'a>>, pending: Option<i32>, status: spec_fn(Pipeline) -> i32) -> (
    Seq<Frame<'a>>,
    Option<i32>,
) {
    let (fs1, p1, a) = step_spec(fs, pending);
    match a {
        Action::Run { pipeline, last_exit_code } => (fs1, Some(status(*pipeline))),
        _ => (fs1, p1),
    }
}

/// The state after `n` steps of such a run.
pub open spec fn run_steps<'a>(
    fs: Seq<Frame<'a>>,
    pending: Option<i32>,
    status: spec_fn(Pipeline) -> i32,
    n: nat,
) -> (Seq<Frame<'a>>, Option<i32>)
    decreases n,
{
    if n == 0 {
        (fs, pending)
    } else {
        let (fs1, p1) = run_step(fs, pending, status);
        run_steps(fs1, p1, status, (n - 1) as nat)
    }
}

/// The status of pipeline `p` when its program ends with `status(p)`: an
/// empty pipeline succeeds; `!` inverts.
pub open spec fn pipeline_value(p: Pipeline, status: spec_fn(Pipeline) -> i32) -> i32 {
    if p.commands@.len() == 0 {
        if p.negated {
            1
        } else {
            0
        }
    } else if p.negated {
        negate(status(p))
    } else {
        status(p)
    }
}

/// The steps a pipeline node takes: one for an empty pipeline, three
/// otherwise (ask for it, hand its status to the pipeline, then to the
/// list).
pub open spec fn pipeline_steps(p: Pipeline) -> nat {
    if p.commands@.len() == 0 {
        2
    } else {
        3
    }
}

proof fn lemma_run_steps_split<'a>(
    fs: Seq<Frame<'a>>,
    pending: Option<i32>,
    status: spec_fn(Pipeline) -> i32,
    a: nat,
    b: nat,
)
    ensures
        run_steps(fs, pending, status, a + b) == {
            let (f1, p1) = run_steps(fs, pending, status, a);
            run_steps(f1, p1, status, b)
        },
    decreases a,
{
    if a > 0 {
        let (f1, p1) = run_step(fs, pending, status);
        lemma_run_steps_split(f1, p1, status, (a - 1) as nat, b);
        assert((a + b - 1) as nat == ((a - 1) as nat + b) as nat);
    }
}

/// A whole pipeline, run as a node of an and-or list by a caller that
/// answers each pipeline with `status(pipeline)`: after `pipeline_steps`
/// steps the list moves to its next node with the pipeline's status. An
/// empty pipeline gives 0 (1 when negated) and runs nothing; otherwise the
/// status is the program's, and `!` turns 0 into 1 and any other status
/// into 0.
pub proof fn law_pipeline_run<'a>(
    fs: Seq<Frame<'a>>,
    list: &'a AndOrList,
    next: usize,
    code: i32,
    p: &'a Pipeline,
    status: spec_fn(Pipeline) -> i32,
)
    requires
        next < list.nodes@.len(),
        list.nodes@[next as int].command == CommandNode::Pipeable(*p),
        should_run(list.nodes@[next as int].operator, code),
    ensures
        run_steps(fs.push(Frame::AndOr { list, next, code }), None, status, pipeline_steps(*p)) == (
            fs.push(Frame::AndOr { list, next: (next + 1) as usize, code: pipeline_value(*p, status) }),
            None::<i32>,
        ),
        pipeline_value(*p, status) == (if p.commands@.len() == 0 {
            if p.negated {
                1i32
            } else {
                0i32
            }
        } else if p.negated {
            if status(*p) == 0 {
                1i32
            } else {
                0i32
            }
        } else {
            status(*p)
        }),
{
    let s0 = fs.push(Frame::AndOr { list, next, code });
    assert(s0.drop_last() =~= fs);
    let s1 = fs.push(Frame::AndOr { list, next: (next + 1) as usize, code });
    assert(s1.drop_last() =~= fs);
    let pp = &list.nodes@[next as int].command->Pipeable_0;
    assert(*pp == *p);
    let c = pipeline_value(*p, status);
    let s3 = fs.push(Frame::AndOr { list, next: (next + 1) as usize, code: c });
    if p.commands@.len() == 0 {
        assert(run_step(s0, None, status) == (s1, Some(c)));
        assert(run_step(s1, Some(c), status) == (s3, None::<i32>));
        assert(run_steps(s0, None, status, 2) == run_steps(s3, None, status, 0)) by {
            reveal_with_fuel(run_steps, 3);
        }
    } else {
        let s2 = s1.push(Frame::Pipe { pipeline: pp, last: code });
        assert(s2.drop_last() =~= s1);
        assert(run_step(s0, None, status) == (s2, Some(status(*p))));
        assert(run_step(s2, Some(status(*p)), status) == (s1, Some(c)));
        assert(run_step(s1, Some(c), status) == (s3, None::<i32>));
        assert(run_steps(s0, None, status, 3) == run_steps(s3, None, status, 0)) by {
            reveal_with_fuel(run_steps, 4);
        }
    }
}

proof fn lemma_first_match(cmd: CaseCommand, j: int)
    requires
        0 <= j <= cmd.items@.len(),
        forall|k: int| 0 <= k < j ==> !any_pattern_matches(#[trigger] cmd.items@[k].patterns@, cmd.word@),
        exists|i: int| j <= i < cmd.items@.len() && any_pattern_matches(#[trigger] cmd.items@[i].patterns@, cmd.word@),
    ensures
        exists|i: int|
            0 <= i < cmd.items@.len() && any_pattern_matches(cmd.items@[i].patterns@, cmd.word@) && forall|k: int|
                0 <= k < i ==> !any_pattern_matches(#[trigger] cmd.items@[k].patterns@, cmd.word@),
    decreases cmd.items@.len() - j,
{
    if !any_pattern_matches(cmd.items@[j].patterns@, cmd.word@) {
        assert forall|k: int| 0 <= k < j + 1 implies !any_pattern_matches(#[trigger] cmd.items@[k].patterns@, cmd.word@) by {
        }
        let i = choose|i: int| j <= i < cmd.items@.len() && any_pattern_matches(#[trigger] cmd.items@[i].patterns@, cmd.word@);
        assert(i != j);
        lemma_first_match(cmd, j + 1);
    }
}

/// The item `case` chooses is one of its items, and its patterns match.
proof fn lemma_case_choice_bounds(cmd: CaseCommand)
    ensures
        case_choice(cmd) matches Some(i) ==> 0 <= i < cmd.items@.len(),
{
    if exists|i: int|
        0 <= i < cmd.items@.len() && any_pattern_matches(#[trigger] cmd.items@[i].patterns@, cmd.word@) {
        lemma_first_match(cmd, 0);
    }
}

} // verus!

verus! {

// ── whole runs of any program without `while` ──

/// Whether the commands of `p` from `next` on hold no `while` loop (and
/// every list in them fits the evaluator's counters).
pub open spec fn prog_ok(p: Program, next: int) -> bool
    decreases p, p.commands@.len() - next,
{
    p.commands@.len() < usize::MAX && (next < 0 || next >= p.commands@.len() || (ao_ok(
        p.commands@[next].and_or,
        0,
    ) && prog_ok(p, next + 1)))
}

/// Whether the nodes of `l` from `next` on hold no `while` loop.
pub open spec fn ao_ok(l: AndOrList, next: int) -> bool
    decreases l, l.nodes@.len() - next,
{
    l.nodes@.len() < usize::MAX && (next < 0 || next >= l.nodes@.len() || (node_ok(l.nodes@[next].command)
        && ao_ok(l, next + 1)))
}

/// Whether the clauses of `cmd` from `clause` on, and its `else` body,
/// hold no `while` loop.
pub open spec fn if_ok(cmd: IfCommand, clause: int) -> bool
    decreases cmd, cmd.clauses@.len() - clause,
{
    cmd.clauses@.len() < usize::MAX && if clause < 0 || clause >= cmd.clauses@.len() {
        match cmd.else_body {
            Some(e) => prog_ok(e, 0),
            None => true,
        }
    } else {
        prog_ok(cmd.clauses@[clause].condition, 0) && prog_ok(cmd.clauses@[clause].body, 0) && if_ok(
            cmd,
            clause + 1,
        )
    }
}

/// Whether the item bodies of `cmd` from `next` on hold no `while` loop.
pub open spec fn case_ok(cmd: CaseCommand, next: int) -> bool
    decreases cmd, cmd.items@.len() - next,
{
    if next < 0 || next >= cmd.items@.len() {
        true
    } else {
        prog_ok(cmd.items@[next].body, 0) && case_ok(cmd, next + 1)
    }
}

/// Whether a command holds no `while` loop.
pub open spec fn node_ok(n: CommandNode) -> bool
    decreases n, 0int,
{
    match n {
        CommandNode::Pipeable(p) => true,
        CommandNode::Compound(sc) => match sc {
            ScriptCommand::Subshell(prog) => prog_ok(prog, 0),
            ScriptCommand::If(cmd) => if_ok(cmd, 0),
            ScriptCommand::For(cmd) => cmd.words@.len() < usize::MAX && prog_ok(cmd.body, 0),
            ScriptCommand::While(cmd) => false,
            ScriptCommand::Case(cmd) => case_ok(cmd, 0),
            ScriptCommand::Function(f) => true,
        },
    }
}

/// The status a program ends with, from complete command `next` on with
/// status `code` so far, when each pipeline run ends with
/// `status(pipeline)`: the complete commands in order, each starting from
/// the status of the one before.
pub open spec fn prog_val(p: Program, next: int, code: i32, status: spec_fn(Pipeline) -> i32) -> i32
    decreases p, p.commands@.len() - next,
{
    if next < 0 || next >= p.commands@.len() {
        code
    } else {
        prog_val(p, next + 1, ao_val(p.commands@[next].and_or, 0, code, status), status)
    }
}

/// The status an and-or list ends with, from node `next` on with status
/// `code` so far: each node runs when its operator allows (`&&` after
/// success, `||` after failure) and is skipped otherwise; the status is
/// that of the last node that ran.
pub open spec fn ao_val(l: AndOrList, next: int, code: i32, status: spec_fn(Pipeline) -> i32) -> i32
    decreases l, l.nodes@.len() - next,
{
    if next < 0 || next >= l.nodes@.len() {
        code
    } else {
        let n = l.nodes@[next];
        let c = if should_run(n.operator, code) {
            node_val(n.command, code, status)
        } else {
            code
        };
        ao_val(l, next + 1, c, status)
    }
}

/// The status an `if` ends with from clause `clause` on, entered with
/// status `last`: the body of the first clause whose condition ends with 0
/// (the conditions run in order, none after it); with none, the `else`
/// body, or 0 without one.
pub open spec fn if_val(cmd: IfCommand, clause: int, last: i32, status: spec_fn(Pipeline) -> i32) -> i32
    decreases cmd, cmd.clauses@.len() - clause,
{
    if clause < 0 || clause >= cmd.clauses@.len() {
        match cmd.else_body {
            Some(e) => prog_val(e, 0, last, status),
            None => 0,
        }
    } else if prog_val(cmd.clauses@[clause].condition, 0, last, status) == 0 {
        prog_val(cmd.clauses@[clause].body, 0, last, status)
    } else {
        if_val(cmd, clause + 1, last, status)
    }
}

/// The status a `for` ends with from word `next` on, with status `code`
/// so far: the body runs once per word, the status being that of its last
/// run (0 for no word).
pub open spec fn for_val(cmd: ForCommand, next: int, code: i32, status: spec_fn(Pipeline) -> i32) -> i32
    decreases cmd, cmd.words@.len() - next,
{
    if next < 0 || next >= cmd.words@.len() {
        code
    } else {
        for_val(cmd, next + 1, prog_val(cmd.body, 0, code, status), status)
    }
}

/// The status a `case` ends with, entered with status `code`: the body of
/// the first item with a pattern that matches the word; 0, with no body
/// run, when none matches.
pub open spec fn case_val(cmd: CaseCommand, code: i32, status: spec_fn(Pipeline) -> i32) -> i32
    decreases cmd, 0int,
{
    match case_choice(cmd) {
        Some(i) => if 0 <= i < cmd.items@.len() {
            prog_val(cmd.items@[i].body, 0, code, status)
        } else {
            0
        },
        None => 0,
    }
}

/// The status a command ends with, entered with status `code`.
pub open spec fn node_val(n: CommandNode, code: i32, status: spec_fn(Pipeline) -> i32) -> i32
    decreases n, 1int,
{
    match n {
        CommandNode::Pipeable(p) => pipeline_value(p, status),
        CommandNode::Compound(sc) => match sc {
            ScriptCommand::Subshell(prog) => prog_val(prog, 0, code, status),
            ScriptCommand::If(cmd) => if_val(cmd, 0, code, status),
            ScriptCommand::For(cmd) => for_val(cmd, 0, 0, status),
            ScriptCommand::While(cmd) => 0,
            ScriptCommand::Case(cmd) => case_val(cmd, code, status),
            ScriptCommand::Function(f) => 0,
        },
    }
}

/// The number of steps the rest of a program takes, from its frame acting
/// to its status waiting below it.
pub open spec fn prog_steps(p: Program, next: int, code: i32, status: spec_fn(Pipeline) -> i32) -> nat
    decreases p, p.commands@.len() - next,
{
    if next < 0 || next >= p.commands@.len() {
        1
    } else {
        let l = p.commands@[next].and_or;
        1 + ao_steps(l, 0, code, status) + 1 + prog_steps(p, next + 1, ao_val(l, 0, code, status), status)
    }
}

/// The number of steps the rest of an and-or list takes.
pub open spec fn ao_steps(l: AndOrList, next: int, code: i32, status: spec_fn(Pipeline) -> i32) -> nat
    decreases l, l.nodes@.len() - next,
{
    if next < 0 || next >= l.nodes@.len() {
        1
    } else {
        let n = l.nodes@[next];
        if should_run(n.operator, code) {
            node_steps(n.command, code, status) + ao_steps(l, next + 1, node_val(n.command, code, status), status)
        } else {
            1 + ao_steps(l, next + 1, code, status)
        }
    }
}

/// The number of steps the rest of an `if` takes.
pub open spec fn if_steps_all(cmd: IfCommand, clause: int, last: i32, status: spec_fn(Pipeline) -> i32) -> nat
    decreases cmd, cmd.clauses@.len() - clause,
{
    if clause < 0 || clause >= cmd.clauses@.len() {
        match cmd.else_body {
            Some(e) => 1 + prog_steps(e, 0, last, status),
            None => 1,
        }
    } else {
        let c = cmd.clauses@[clause];
        let head = 1 + prog_steps(c.condition, 0, last, status) + 1;
        if prog_val(c.condition, 0, last, status) == 0 {
            head + prog_steps(c.body, 0, last, status)
        } else {
            head + if_steps_all(cmd, clause + 1, last, status)
        }
    }
}

/// The number of steps the rest of a `for` takes.
pub open spec fn for_steps(cmd: ForCommand, next: int, code: i32, status: spec_fn(Pipeline) -> i32) -> nat
    decreases cmd, cmd.words@.len() - next,
{
    if next < 0 || next >= cmd.words@.len() {
        1
    } else {
        1 + prog_steps(cmd.body, 0, code, status) + 1 + for_steps(
            cmd,
            next + 1,
            prog_val(cmd.body, 0, code, status),
            status,
        )
    }
}

/// The number of steps a command takes as a node of an and-or list, from
/// the list's turn to the list holding the command's status.
pub open spec fn node_steps(n: CommandNode, code: i32, status: spec_fn(Pipeline) -> i32) -> nat
    decreases n, 1int,
{
    match n {
        CommandNode::Pipeable(p) => pipeline_steps(p),
        CommandNode::Compound(sc) => match sc {
            ScriptCommand::Subshell(prog) => 1 + prog_steps(prog, 0, code, status) + 1,
            ScriptCommand::If(cmd) => 1 + if_steps_all(cmd, 0, code, status) + 1,
            ScriptCommand::For(cmd) => 1 + for_steps(cmd, 0, 0, status) + 1,
            ScriptCommand::While(cmd) => 0,
            ScriptCommand::Case(cmd) => match case_choice(cmd) {
                Some(i) => if 0 <= i < cmd.items@.len() {
                    1 + prog_steps(cmd.items@[i].body, 0, code, status) + 1
                } else {
                    2
                },
                None => 2,
            },
            ScriptCommand::Function(f) => 2,
        },
    }
}

proof fn lemma_case_ok_item(cmd: CaseCommand, next: int, i: int)
    requires
        0 <= next <= i < cmd.items@.len(),
        case_ok(cmd, next),
    ensures
        prog_ok(cmd.items@[i].body, 0),
    decreases i - next,
{
    if next < i {
        lemma_case_ok_item(cmd, next + 1, i);
    }
}

proof fn lemma_prog_run_all<'a>(
    fs: Seq<Frame<'a>>,
    prog: &'a Program,
    next: usize,
    code: i32,
    status: spec_fn(Pipeline) -> i32,
)
    requires
        next <= prog.commands@.len(),
        prog_ok(*prog, next as int),
    ensures
        run_steps(fs.push(Frame::Prog { prog, next, code }), None, status, prog_steps(*prog, next as int, code, status))
            == (fs, Some(prog_val(*prog, next as int, code, status))),
    decreases *prog, prog.commands@.len() - next,
{
    let s0 = fs.push(Frame::Prog { prog, next, code });
    assert(s0.drop_last() =~= fs);
    if next == prog.commands@.len() {
        assert(run_steps(s0, None, status, 1) == run_steps(fs, Some(code), status, 0));
    } else {
        let list = &prog.commands@[next as int].and_or;
        let v = ao_val(*list, 0, code, status);
        let n1 = ao_steps(*list, 0, code, status);
        let rest = prog_steps(*prog, next + 1, v, status);
        let base = fs.push(Frame::Prog { prog, next: (next + 1) as usize, code });
        let s1 = base.push(Frame::AndOr { list, next: 0, code });
        let s2 = fs.push(Frame::Prog { prog, next: (next + 1) as usize, code: v });
        assert(base.drop_last() =~= fs);
        assert(s1.drop_last() =~= base);
        assert(run_step(s0, None, status) == (s1, None::<i32>));
        assert(run_steps(s0, None, status, 1) == run_steps(s1, None, status, 0)) by {
            reveal_with_fuel(run_steps, 2);
        }
        lemma_ao_run_all(base, list, 0, code, status);
        assert(run_step(base, Some(v), status) == (s2, None::<i32>));
        assert(run_steps(base, Some(v), status, 1) == run_steps(s2, None, status, 0)) by {
            reveal_with_fuel(run_steps, 2);
        }
        lemma_run_steps_split(s0, None, status, 1, n1 + 1 + rest);
        lemma_run_steps_split(s1, None, status, n1, 1 + rest);
        lemma_run_steps_split(base, Some(v), status, 1, rest);
        assert(prog_steps(*prog, next as int, code, status) == 1 + (n1 + (1 + rest)));
        lemma_prog_run_all(fs, prog, (next + 1) as usize, v, status);
    }
}

proof fn lemma_ao_run_all<'a>(
    fs: Seq<Frame<'a>>,
    list: &'a AndOrList,
    next: usize,
    code: i32,
    status: spec_fn(Pipeline) -> i32,
)
    requires
        next <= list.nodes@.len(),
        ao_ok(*list, next as int),
    ensures
        run_steps(fs.push(Frame::AndOr { list, next, code }), None, status, ao_steps(*list, next as int, code, status))
            == (fs, Some(ao_val(*list, next as int, code, status))),
    decreases *list, list.nodes@.len() - next,
{
    let s0 = fs.push(Frame::AndOr { list, next, code });
    assert(s0.drop_last() =~= fs);
    if next == list.nodes@.len() {
        assert(run_steps(s0, None, status, 1) == run_steps(fs, Some(code), status, 0));
    } else {
        let node = &list.nodes@[next as int];
        let s1 = fs.push(Frame::AndOr { list, next: (next + 1) as usize, code });
        assert(s1.drop_last() =~= fs);
        if should_run(node.operator, code) {
            let c = node_val(node.command, code, status);
            let rest = ao_steps(*list, next + 1, c, status);
            lemma_node_run_all(fs, list, next, code, status);
            lemma_run_steps_split(s0, None, status, node_steps(node.command, code, status), rest);
            lemma_ao_run_all(fs, list, (next + 1) as usize, c, status);
        } else {
            let rest = ao_steps(*list, next + 1, code, status);
            lemma_run_steps_split(s0, None, status, 1, rest);
            assert(run_step(s0, None, status) == (s1, None::<i32>));
            assert(run_steps(s0, None, status, 1) == run_steps(s1, None, status, 0)) by {
                reveal_with_fuel(run_steps, 2);
            }
            lemma_ao_run_all(fs, list, (next + 1) as usize, code, status);
        }
    }
}

/// A frame pushed for a command runs to `v` in `n` steps; then the list
/// takes the status in one more.
proof fn lemma_node_frame<'a>(
    fs: Seq<Frame<'a>>,
    list: &'a AndOrList,
    next: usize,
    code: i32,
    status: spec_fn(Pipeline) -> i32,
    top: Frame<'a>,
    n: nat,
    v: i32,
)
    requires
        next < list.nodes@.len(),
        list.nodes@.len() < usize::MAX,
        run_step(fs.push(Frame::AndOr { list, next, code }), None, status) == (
            fs.push(Frame::AndOr { list, next: (next + 1) as usize, code }).push(top),
            None::<i32>,
        ),
        run_steps(
            fs.push(Frame::AndOr { list, next: (next + 1) as usize, code }).push(top),
            None,
            status,
            n,
        ) == (fs.push(Frame::AndOr { list, next: (next + 1) as usize, code }), Some(v)),
    ensures
        run_steps(fs.push(Frame::AndOr { list, next, code }), None, status, 1 + n + 1) == (
            fs.push(Frame::AndOr { list, next: (next + 1) as usize, code: v }),
            None::<i32>,
        ),
{
    let s0 = fs.push(Frame::AndOr { list, next, code });
    let base = fs.push(Frame::AndOr { list, next: (next + 1) as usize, code });
    let s1 = base.push(top);
    let done = fs.push(Frame::AndOr { list, next: (next + 1) as usize, code: v });
    assert(base.drop_last() =~= fs);
    assert(run_steps(s0, None, status, 1) == run_steps(s1, None, status, 0)) by {
        reveal_with_fuel(run_steps, 2);
    }
    assert(run_step(base, Some(v), status) == (done, None::<i32>));
    assert(run_steps(base, Some(v), status, 1) == run_steps(done, None, status, 0)) by {
        reveal_with_fuel(run_steps, 2);
    }
    lemma_run_steps_split(s0, None, status, 1, n + 1);
    lemma_run_steps_split(s1, None, status, n, 1);
}

proof fn lemma_node_run_all<'a>(
    fs: Seq<Frame<'a>>,
    list: &'a AndOrList,
    next: usize,
    code: i32,
    status: spec_fn(Pipeline) -> i32,
)
    requires
        next < list.nodes@.len(),
        list.nodes@.len() < usize::MAX,
        should_run(list.nodes@[next as int].operator, code),
        node_ok(list.nodes@[next as int].command),
    ensures
        run_steps(
            fs.push(Frame::AndOr { list, next, code }),
            None,
            status,
            node_steps(list.nodes@[next as int].command, code, status),
        ) == (
            fs.push(Frame::AndOr { list, next: (next + 1) as usize, code: node_val(list.nodes@[next as int].command, code, status) }),
            None::<i32>,
        ),
    decreases list.nodes@[next as int].command, 0int,
{
    let s0 = fs.push(Frame::AndOr { list, next, code });
    assert(s0.drop_last() =~= fs);
    let base = fs.push(Frame::AndOr { list, next: (next + 1) as usize, code });
    assert(base.drop_last() =~= fs);
    let node = &list.nodes@[next as int].command;
    match node {
        CommandNode::Pipeable(p) => {
            law_pipeline_run(fs, list, next, code, p, status);
        },
        CommandNode::Compound(sc) => match sc {
            ScriptCommand::Subshell(prog) => {
                let top = Frame::Prog { prog, next: 0, code };
                assert(run_step(s0, None, status) == (base.push(top), None::<i32>));
                lemma_prog_run_all(base, prog, 0, code, status);
                lemma_node_frame(fs, list, next, code, status, top, prog_steps(*prog, 0, code, status), prog_val(*prog, 0, code, status));
            },
            ScriptCommand::If(cmd) => {
                let top = Frame::IfTest { cmd, clause: 0, last: code };
                assert(run_step(s0, None, status) == (base.push(top), None::<i32>));
                lemma_if_run_all(base, cmd, 0, code, status);
                lemma_node_frame(fs, list, next, code, status, top, if_steps_all(*cmd, 0, code, status), if_val(*cmd, 0, code, status));
            },
            ScriptCommand::For(cmd) => {
                let top = Frame::For { cmd, next: 0, code: 0 };
                assert(run_step(s0, None, status) == (base.push(top), None::<i32>));
                lemma_for_run_all(base, cmd, 0, 0, status);
                lemma_node_frame(fs, list, next, code, status, top, for_steps(*cmd, 0, 0, status), for_val(*cmd, 0, 0, status));
            },
            ScriptCommand::While(cmd) => {},
            ScriptCommand::Case(cmd) => {
                lemma_case_choice_bounds(*cmd);
                match case_choice(*cmd) {
                    Some(i) => {
                        lemma_case_ok_item(*cmd, 0, i);
                        let body = &cmd.items@[i].body;
                        let top = Frame::Prog { prog: body, next: 0, code };
                        assert(run_step(s0, None, status) == (base.push(top), None::<i32>));
                        lemma_prog_run_all(base, body, 0, code, status);
                        lemma_node_frame(fs, list, next, code, status, top, prog_steps(*body, 0, code, status), prog_val(*body, 0, code, status));
                    },
                    None => {
                        let done = fs.push(Frame::AndOr { list, next: (next + 1) as usize, code: 0 });
                        assert(run_step(s0, None, status) == (base, Some(0i32)));
                        assert(run_step(base, Some(0i32), status) == (done, None::<i32>));
                        assert(run_steps(s0, None, status, 2) == run_steps(done, None, status, 0)) by {
                            reveal_with_fuel(run_steps, 3);
                        }
                    },
                }
            },
            ScriptCommand::Function(f) => {
                let done = fs.push(Frame::AndOr { list, next: (next + 1) as usize, code: 0 });
                assert(run_step(s0, None, status) == (base, Some(0i32)));
                assert(run_step(base, Some(0i32), status) == (done, None::<i32>));
                assert(run_steps(s0, None, status, 2) == run_steps(done, None, status, 0)) by {
                    reveal_with_fuel(run_steps, 3);
                }
            },
        },
    }
}

proof fn lemma_if_run_all<'a>(
    fs: Seq<Frame<'a>>,
    cmd: &'a IfCommand,
    clause: usize,
    last: i32,
    status: spec_fn(Pipeline) -> i32,
)
    requires
        clause <= cmd.clauses@.len(),
        if_ok(*cmd, clause as int),
    ensures
        run_steps(
            fs.push(Frame::IfTest { cmd, clause, last }),
            None,
            status,
            if_steps_all(*cmd, clause as int, last, status),
        ) == (fs, Some(if_val(*cmd, clause as int, last, status))),
    decreases *cmd, cmd.clauses@.len() - clause,
{
    let s0 = fs.push(Frame::IfTest { cmd, clause, last });
    assert(s0.drop_last() =~= fs);
    if clause == cmd.clauses@.len() {
        match &cmd.else_body {
            Some(e) => {
                let s1 = fs.push(Frame::Prog { prog: e, next: 0, code: last });
                assert(run_step(s0, None, status) == (s1, None::<i32>));
                lemma_run_steps_split(s0, None, status, 1, prog_steps(*e, 0, last, status));
                assert(run_steps(s0, None, status, 1) == run_steps(s1, None, status, 0)) by {
                    reveal_with_fuel(run_steps, 2);
                }
                lemma_prog_run_all(fs, e, 0, last, status);
            },
            None => {
                assert(run_steps(s0, None, status, 1) == run_steps(fs, Some(0i32), status, 0));
            },
        }
    } else {
        let c = &cmd.clauses@[clause as int];
        let base = fs.push(Frame::IfCond { cmd, clause, last });
        let s1 = base.push(Frame::Prog { prog: &c.condition, next: 0, code: last });
        assert(base.drop_last() =~= fs);
        assert(s1.drop_last() =~= base);
        let cv = prog_val(c.condition, 0, last, status);
        let n1 = prog_steps(c.condition, 0, last, status);
        assert(run_step(s0, None, status) == (s1, None::<i32>));
        assert(run_steps(s0, None, status, 1) == run_steps(s1, None, status, 0)) by {
            reveal_with_fuel(run_steps, 2);
        }
        lemma_prog_run_all(base, &c.condition, 0, last, status);
        if cv == 0 {
            let s2 = fs.push(Frame::Prog { prog: &c.body, next: 0, code: last });
            let rest = prog_steps(c.body, 0, last, status);
            assert(run_step(base, Some(cv), status) == (s2, None::<i32>));
            assert(run_steps(base, Some(cv), status, 1) == run_steps(s2, None, status, 0)) by {
                reveal_with_fuel(run_steps, 2);
            }
            lemma_run_steps_split(s0, None, status, 1, n1 + 1 + rest);
            lemma_run_steps_split(s1, None, status, n1, 1 + rest);
            lemma_run_steps_split(base, Some(cv), status, 1, rest);
            assert(if_steps_all(*cmd, clause as int, last, status) == 1 + (n1 + (1 + rest)));
            lemma_prog_run_all(fs, &c.body, 0, last, status);
        } else {
            let s2 = fs.push(Frame::IfTest { cmd, clause: (clause + 1) as usize, last });
            let rest = if_steps_all(*cmd, clause + 1, last, status);
            assert(run_step(base, Some(cv), status) == (s2, None::<i32>));
            assert(run_steps(base, Some(cv), status, 1) == run_steps(s2, None, status, 0)) by {
                reveal_with_fuel(run_steps, 2);
            }
            lemma_run_steps_split(s0, None, status, 1, n1 + 1 + rest);
            lemma_run_steps_split(s1, None, status, n1, 1 + rest);
            lemma_run_steps_split(base, Some(cv), status, 1, rest);
            assert(if_steps_all(*cmd, clause as int, last, status) == 1 + (n1 + (1 + rest)));
            lemma_if_run_all(fs, cmd, (clause + 1) as usize, last, status);
        }
    }
}

proof fn lemma_for_run_all<'a>(
    fs: Seq<Frame<'a>>,
    cmd: &'a ForCommand,
    next: usize,
    code: i32,
    status: spec_fn(Pipeline) -> i32,
)
    requires
        next <= cmd.words@.len(),
        cmd.words@.len() < usize::MAX,
        prog_ok(cmd.body, 0),
    ensures
        run_steps(fs.push(Frame::For { cmd, next, code }), None, status, for_steps(*cmd, next as int, code, status))
            == (fs, Some(for_val(*cmd, next as int, code, status))),
    decreases *cmd, cmd.words@.len() - next,
{
    let s0 = fs.push(Frame::For { cmd, next, code });
    assert(s0.drop_last() =~= fs);
    if next == cmd.words@.len() {
        assert(run_steps(s0, None, status, 1) == run_steps(fs, Some(code), status, 0));
    } else {
        let v = prog_val(cmd.body, 0, code, status);
        let n1 = prog_steps(cmd.body, 0, code, status);
        let rest = for_steps(*cmd, next + 1, v, status);
        let base = fs.push(Frame::For { cmd, next: (next + 1) as usize, code });
        let s1 = base.push(Frame::Prog { prog: &cmd.body, next: 0, code });
        let s2 = fs.push(Frame::For { cmd, next: (next + 1) as usize, code: v });
        assert(base.drop_last() =~= fs);
        assert(s1.drop_last() =~= base);
        assert(run_step(s0, None, status) == (s1, None::<i32>));
        assert(run_steps(s0, None, status, 1) == run_steps(s1, None, status, 0)) by {
            reveal_with_fuel(run_steps, 2);
        }
        lemma_prog_run_all(base, &cmd.body, 0, code, status);
        assert(run_step(base, Some(v), status) == (s2, None::<i32>));
        assert(run_steps(base, Some(v), status, 1) == run_steps(s2, None, status, 0)) by {
            reveal_with_fuel(run_steps, 2);
        }
        lemma_run_steps_split(s0, None, status, 1, n1 + 1 + rest);
        lemma_run_steps_split(s1, None, status, n1, 1 + rest);
        lemma_run_steps_split(base, Some(v), status, 1, rest);
        assert(for_steps(*cmd, next as int, code, status) == 1 + (n1 + (1 + rest)));
        lemma_for_run_all(fs, cmd, (next + 1) as usize, v, status);
    }
}

/// Some pattern of the item, at any position in its list, matches the word.
pub open spec fn item_matches(cmd: CaseCommand, k: int) -> bool {
    exists|j: int| 0 <= j < cmd.items@[k].patterns@.len() && #[trigger] glob_matches(cmd.items@[k].patterns@[j]@, cmd.word@)
}

/// `case` chooses the first item one of whose patterns (any of them, not
/// only the first) glob-matches the word, and no item when none does: `y|z)`
/// is chosen for the word `z`.
pub proof fn law_case_chooses_first_matching_item(cmd: CaseCommand)
    ensures
        case_choice(cmd) matches Some(i) ==> 0 <= i < cmd.items@.len() && item_matches(cmd, i) && forall|k: int|
            0 <= k < i ==> !#[trigger] item_matches(cmd, k),
        case_choice(cmd) is None <==> forall|k: int| 0 <= k < cmd.items@.len() ==> !#[trigger] item_matches(cmd, k),
{
    assert forall|k: int| 0 <= k < cmd.items@.len() implies #[trigger] item_matches(cmd, k) == any_pattern_matches(
        cmd.items@[k].patterns@,
        cmd.word@,
    ) by {
        if item_matches(cmd, k) {
            let j = choose|j: int|
                0 <= j < cmd.items@[k].patterns@.len() && #[trigger] glob_matches(cmd.items@[k].patterns@[j]@, cmd.word@);
            assert(glob_matches(cmd.items@[k].patterns@[j]@, cmd.word@));
        }
        if any_pattern_matches(cmd.items@[k].patterns@, cmd.word@) {
            let j = choose|j: int|
                0 <= j < cmd.items@[k].patterns@.len() && glob_matches(#[trigger] cmd.items@[k].patterns@[j]@, cmd.word@);
            assert(glob_matches(cmd.items@[k].patterns@[j]@, cmd.word@));
        }
    }
    lemma_case_choice_bounds(cmd);
    if exists|i: int| 0 <= i < cmd.items@.len() && any_pattern_matches(#[trigger] cmd.items@[i].patterns@, cmd.word@) {
        lemma_first_match(cmd, 0);
        let c = case_choice(cmd)->0;
        assert(0 <= c < cmd.items@.len() && any_pattern_matches(cmd.items@[c].patterns@, cmd.word@) && forall|k: int|
            0 <= k < c ==> !any_pattern_matches(#[trigger] cmd.items@[k].patterns@, cmd.word@));
        assert(item_matches(cmd, c));
        assert forall|k: int| 0 <= k < c implies !#[trigger] item_matches(cmd, k) by {
            assert(!any_pattern_matches(cmd.items@[k].patterns@, cmd.word@));
        }
        let w = choose|i: int| 0 <= i < cmd.items@.len() && any_pattern_matches(#[trigger] cmd.items@[i].patterns@, cmd.word@);
        assert(item_matches(cmd, w));
    } else {
        assert forall|k: int| 0 <= k < cmd.items@.len() implies !#[trigger] item_matches(cmd, k) by {
            assert(!any_pattern_matches(cmd.items@[k].patterns@, cmd.word@));
        }
    }
}

// ── the laws of whole runs ──
//
// Each law speaks of a run in which the caller answers each pipeline it is
// asked to run with `status(pipeline)`, and of programs without `while`
// (a `while` run need not end).

/// A whole program runs its complete commands in order, each starting from
/// the status of the one before: from its frame on top of `fs`, after
/// `prog_steps` steps the frame is gone and `prog_val` waits to be handed
/// on.
pub proof fn law_program_run<'a>(fs: Seq<Frame<'a>>, prog: &'a Program, code: i32, status: spec_fn(Pipeline) -> i32)
    requires
        prog_ok(*prog, 0),
    ensures
        run_steps(fs.push(Frame::Prog { prog, next: 0, code }), None, status, prog_steps(*prog, 0, code, status))
            == (fs, Some(prog_val(*prog, 0, code, status))),
{
    lemma_prog_run_all(fs, prog, 0, code, status);
}

/// A whole and-or list, whatever its commands: each node runs only when its
/// operator allows (`&&` after success, `||` after failure), a skipped
/// node runs nothing and keeps the status, and the list ends with the
/// status of the last node that ran (`ao_val`).
pub proof fn law_and_or_run<'a>(fs: Seq<Frame<'a>>, list: &'a AndOrList, code: i32, status: spec_fn(Pipeline) -> i32)
    requires
        ao_ok(*list, 0),
    ensures
        run_steps(fs.push(Frame::AndOr { list, next: 0, code }), None, status, ao_steps(*list, 0, code, status))
            == (fs, Some(ao_val(*list, 0, code, status))),
{
    lemma_ao_run_all(fs, list, 0, code, status);
}

/// A whole `if`, whatever its conditions and bodies: the conditions run in
/// order until one ends with 0, whose body then runs; with none, the
/// `else` body runs, or the status is 0 without one (`if_val`).
pub proof fn law_if_run<'a>(fs: Seq<Frame<'a>>, cmd: &'a IfCommand, last: i32, status: spec_fn(Pipeline) -> i32)
    requires
        if_ok(*cmd, 0),
    ensures
        run_steps(fs.push(Frame::IfTest { cmd, clause: 0, last }), None, status, if_steps_all(*cmd, 0, last, status))
            == (fs, Some(if_val(*cmd, 0, last, status))),
{
    lemma_if_run_all(fs, cmd, 0, last, status);
}

/// A whole `for`: the body runs once per word, and the status is that of
/// its last run, 0 for no word (`for_val`).
pub proof fn law_for_run<'a>(fs: Seq<Frame<'a>>, cmd: &'a ForCommand, status: spec_fn(Pipeline) -> i32)
    requires
        cmd.words@.len() < usize::MAX,
        prog_ok(cmd.body, 0),
    ensures
        run_steps(fs.push(Frame::For { cmd, next: 0, code: 0 }), None, status, for_steps(*cmd, 0, 0, status))
            == (fs, Some(for_val(*cmd, 0, 0, status))),
{
    lemma_for_run_all(fs, cmd, 0, 0, status);
}

/// A whole `case` run as a node of an and-or list, whatever its bodies:
/// only the body of the first item with a pattern that matches the word
/// runs, and with no match nothing runs and the status is 0 (`case_val`).
pub proof fn law_case_run<'a>(
    fs: Seq<Frame<'a>>,
    list: &'a AndOrList,
    next: usize,
    code: i32,
    cmd: &'a CaseCommand,
    status: spec_fn(Pipeline) -> i32,
)
    requires
        next < list.nodes@.len(),
        list.nodes@.len() < usize::MAX,
        list.nodes@[next as int].command == CommandNode::Compound(ScriptCommand::Case(*cmd)),
        should_run(list.nodes@[next as int].operator, code),
        case_ok(*cmd, 0),
    ensures
        run_steps(
            fs.push(Frame::AndOr { list, next, code }),
            None,
            status,
            node_steps(list.nodes@[next as int].command, code, status),
        ) == (fs.push(Frame::AndOr { list, next: (next + 1) as usize, code: case_val(*cmd, code, status) }), None::<i32>),
        case_val(*cmd, code, status) == (match case_choice(*cmd) {
            Some(i) => prog_val(cmd.items@[i].body, 0, code, status),
            None => 0,
        }),
{
    lemma_case_choice_bounds(*cmd);
    lemma_node_run_all(fs, list, next, code, status);
}

/// The status after complete commands `cs` run in order from status `code`.
pub open spec fn commands_val(cs: Seq<CompleteCommand>, code: i32, status: spec_fn(Pipeline) -> i32) -> i32
    decreases cs.len(),
{
    if cs.len() == 0 {
        code
    } else {
        commands_val(cs.skip(1), ao_val(cs[0].and_or, 0, code, status), status)
    }
}

proof fn lemma_prog_val_commands(p: Program, next: int, code: i32, status: spec_fn(Pipeline) -> i32)
    requires
        0 <= next <= p.commands@.len(),
    ensures
        prog_val(p, next, code, status) == commands_val(p.commands@.skip(next), code, status),
    decreases p.commands@.len() - next,
{
    let cs = p.commands@.skip(next);
    if next < p.commands@.len() {
        lemma_prog_val_commands(p, next + 1, ao_val(p.commands@[next].and_or, 0, code, status), status);
        assert(cs.skip(1) =~= p.commands@.skip(next + 1));
        assert(cs[0] == p.commands@[next]);
    } else {
        assert(cs.len() == 0);
    }
}

proof fn lemma_commands_val_concat(a: Seq<CompleteCommand>, b: Seq<CompleteCommand>, code: i32, status: spec_fn(Pipeline) -> i32)
    ensures
        commands_val(a + b, code, status) == commands_val(b, commands_val(a, code, status), status),
    decreases a.len(),
{
    if a.len() > 0 {
        assert((a + b).skip(1) =~= a.skip(1) + b);
        assert((a + b)[0] == a[0]);
        lemma_commands_val_concat(a.skip(1), b, ao_val(a[0].and_or, 0, code, status), status);
    } else {
        assert(a + b =~= b);
    }
}

/// Programs run in sequence, whatever their commands: a program made of
/// the complete commands of `p1` followed by those of `p2` ends as `p2`
/// run from the status that `p1` ends with.
pub proof fn law_program_sequence(p: Program, p1: Program, p2: Program, code: i32, status: spec_fn(Pipeline) -> i32)
    requires
        p.commands@ == p1.commands@ + p2.commands@,
    ensures
        prog_val(p, 0, code, status) == prog_val(p2, 0, prog_val(p1, 0, code, status), status),
{
    lemma_prog_val_commands(p, 0, code, status);
    lemma_prog_val_commands(p1, 0, code, status);
    lemma_prog_val_commands(p2, 0, prog_val(p1, 0, code, status), status);
    assert(p.commands@.skip(0) =~= p1.commands@.skip(0) + p2.commands@.skip(0));
    lemma_commands_val_concat(p1.commands@.skip(0), p2.commands@.skip(0), code, status);
}

} // verus!

