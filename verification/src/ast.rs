//! Tokens (the lexer's output) and the syntax tree (the parser's output).
use vstd::prelude::*;

verus! {

/// The kind of a lexical token.
#[derive(Clone, Copy, Debug, PartialEq, Eq, Structural)]
pub enum TokenKind {
    Word,
    Pipe,
    AndIf,
    OrIf,
    Semicolon,
    DSemicolon,
    Background,
    Bang,
    LParen,
    RParen,
    Great,
    DGreat,
    Less,
    DLass,
}

/// A lexical token: its kind and its text.
#[derive(Clone, Debug, PartialEq)]
pub struct Token {
    pub kind: TokenKind,
    pub value: String,
}

/// A token as a mathematical value.
pub type TokenS = (TokenKind, Seq<char>);

impl View for Token {
    type V = TokenS;

    open spec fn view(&self) -> TokenS {
        (self.kind, self.value@)
    }
}

impl Token {
    pub fn new(kind: TokenKind, value: &str) -> (t: Token)
        ensures
            t.kind == kind,
            t.value@ == value@,
    {
        Token { kind, value: value.to_owned() }
    }

    /// A token that carries its own copy of the text of `self`.
    pub fn duplicate(&self) -> (t: Token)
        ensures
            t@ == self@,
    {
        Token { kind: self.kind, value: self.value.clone() }
    }
}

/// The views of a sequence of tokens.
pub open spec fn tokens_view(ts: Seq<Token>) -> Seq<TokenS> {
    ts.map_values(|t: Token| t@)
}

} // verus!

verus! {

/// A whole program: complete commands run one after the other.
#[derive(Debug)]
pub struct Program {
    pub commands: Vec<CompleteCommand>,
}

/// An and-or list, possibly sent to the background (`&`).
#[derive(Debug)]
pub struct CompleteCommand {
    pub and_or: AndOrList,
    pub background: bool,
}

/// Commands joined by `&&` and `||`.
#[derive(Debug)]
pub struct AndOrList {
    pub nodes: Vec<AndOrNode>,
}

/// One command of an and-or list with the operator that precedes it
/// (`None` for the first).
#[derive(Debug)]
pub struct AndOrNode {
    pub command: CommandNode,
    pub operator: Option<AndOrOp>,
}

#[derive(Debug, Clone, Copy, PartialEq, Eq, Structural)]
pub enum AndOrOp {
    And,
    Or,
}

#[derive(Debug)]
pub enum CommandNode {
    Pipeable(Pipeline),
    Compound(ScriptCommand),
}

/// Simple commands joined by `|`, possibly negated with `!`.
#[derive(Debug)]
pub struct Pipeline {
    pub negated: bool,
    pub commands: Vec<SimpleCommand>,
}

/// Leading `NAME=value` assignments, the words, and the redirections.
#[derive(Debug)]
pub struct SimpleCommand {
    pub env_overrides: Vec<(String, String)>,
    pub words: Vec<String>,
    pub redirects: Vec<Redirect>,
}

#[derive(Debug, Clone, Copy, PartialEq, Eq, Structural)]
pub enum RedirectKind {
    Output,
    Append,
    Input,
    Heredoc,
    /// `n>&m` or `n<&m`: descriptor `n` becomes a copy of descriptor `m`,
    /// the target.
    Duplicate,
}

#[derive(Debug)]
pub struct Redirect {
    pub fd: i32,
    pub kind: RedirectKind,
    pub target: String,
}

#[derive(Debug)]
pub enum ScriptCommand {
    If(IfCommand),
    For(ForCommand),
    While(WhileCommand),
    Case(CaseCommand),
    Function(FunctionDef),
    Subshell(Program),
}

#[derive(Debug)]
pub struct IfCommand {
    pub clauses: Vec<IfClause>,
    pub else_body: Option<Program>,
}

#[derive(Debug)]
pub struct IfClause {
    pub condition: Program,
    pub body: Program,
}

#[derive(Debug)]
pub struct ForCommand {
    pub var: String,
    pub words: Vec<String>,
    pub body: Program,
}

#[derive(Debug)]
pub struct WhileCommand {
    pub condition: Program,
    pub body: Program,
}

#[derive(Debug)]
pub struct CaseCommand {
    pub word: String,
    pub items: Vec<CaseItem>,
}

#[derive(Debug)]
pub struct CaseItem {
    pub patterns: Vec<String>,
    pub body: Program,
}

#[derive(Debug)]
pub struct FunctionDef {
    pub name: String,
    pub body: Program,
}

// ── The syntax tree as mathematical values ──

pub struct RedirectS {
    pub fd: int,
    pub kind: RedirectKind,
    pub target: Seq<char>,
}

pub struct SimpleS {
    pub env_overrides: Seq<(Seq<char>, Seq<char>)>,
    pub words: Seq<Seq<char>>,
    pub redirects: Seq<RedirectS>,
}

pub struct PipelineS {
    pub negated: bool,
    pub commands: Seq<SimpleS>,
}

pub struct AndOrNodeS {
    pub command: CommandS,
    pub operator: Option<AndOrOp>,
}

pub struct CompleteS {
    pub nodes: Seq<AndOrNodeS>,
    pub background: bool,
}

pub struct ProgramS {
    pub commands: Seq<CompleteS>,
}

pub enum CommandS {
    Pipeable(PipelineS),
    Compound(ScriptS),
}

pub struct IfClauseS {
    pub condition: ProgramS,
    pub body: ProgramS,
}

pub struct CaseItemS {
    pub patterns: Seq<Seq<char>>,
    pub body: ProgramS,
}

pub enum ScriptS {
    If { clauses: Seq<IfClauseS>, else_body: Option<ProgramS> },
    For { var: Seq<char>, words: Seq<Seq<char>>, body: ProgramS },
    While { condition: ProgramS, body: ProgramS },
    Case { word: Seq<char>, items: Seq<CaseItemS> },
    Function { name: Seq<char>, body: ProgramS },
    Subshell(ProgramS),
}

pub open spec fn strings_s(v: Seq<String>) -> Seq<Seq<char>> {
    v.map_values(|s: String| s@)
}

pub open spec fn pairs_s(v: Seq<(String, String)>) -> Seq<(Seq<char>, Seq<char>)> {
    v.map_values(|p: (String, String)| (p.0@, p.1@))
}

pub open spec fn redirect_s(r: Redirect) -> RedirectS {
    RedirectS { fd: r.fd as int, kind: r.kind, target: r.target@ }
}

pub open spec fn simple_s(c: SimpleCommand) -> SimpleS {
    SimpleS {
        env_overrides: pairs_s(c.env_overrides@),
        words: strings_s(c.words@),
        redirects: c.redirects@.map_values(|r: Redirect| redirect_s(r)),
    }
}

pub open spec fn pipeline_s(p: Pipeline) -> PipelineS {
    PipelineS { negated: p.negated, commands: p.commands@.map_values(|c: SimpleCommand| simple_s(c)) }
}

pub open spec fn program_s(p: Program) -> ProgramS
    decreases p, 3nat,
{
    ProgramS { commands: completes_s(p.commands@) }
}

pub open spec fn completes_s(cs: Seq<CompleteCommand>) -> Seq<CompleteS>
    decreases cs, 2nat,
{
    if cs.len() == 0 {
        seq![]
    } else {
        let c = cs[cs.len() - 1];
        completes_s(cs.subrange(0, cs.len() - 1)).push(
            CompleteS { nodes: nodes_s(c.and_or.nodes@), background: c.background },
        )
    }
}

pub open spec fn nodes_s(ns: Seq<AndOrNode>) -> Seq<AndOrNodeS>
    decreases ns, 2nat,
{
    if ns.len() == 0 {
        seq![]
    } else {
        let n = ns[ns.len() - 1];
        nodes_s(ns.subrange(0, ns.len() - 1)).push(
            AndOrNodeS { command: command_s(n.command), operator: n.operator },
        )
    }
}

pub open spec fn command_s(c: CommandNode) -> CommandS
    decreases c, 2nat,
{
    match c {
        CommandNode::Pipeable(p) => CommandS::Pipeable(pipeline_s(p)),
        CommandNode::Compound(s) => CommandS::Compound(script_s(s)),
    }
}

pub open spec fn script_s(s: ScriptCommand) -> ScriptS
    decreases s, 2nat,
{
    match s {
        ScriptCommand::If(c) => ScriptS::If {
            clauses: clauses_s(c.clauses@),
            else_body: match c.else_body {
                Some(p) => Some(program_s(p)),
                None => None,
            },
        },
        ScriptCommand::For(c) => ScriptS::For {
            var: c.var@,
            words: strings_s(c.words@),
            body: program_s(c.body),
        },
        ScriptCommand::While(c) => ScriptS::While {
            condition: program_s(c.condition),
            body: program_s(c.body),
        },
        ScriptCommand::Case(c) => ScriptS::Case { word: c.word@, items: items_s(c.items@) },
        ScriptCommand::Function(f) => ScriptS::Function { name: f.name@, body: program_s(f.body) },
        ScriptCommand::Subshell(p) => ScriptS::Subshell(program_s(p)),
    }
}

pub open spec fn clauses_s(cs: Seq<IfClause>) -> Seq<IfClauseS>
    decreases cs, 2nat,
{
    if cs.len() == 0 {
        seq![]
    } else {
        let c = cs[cs.len() - 1];
        clauses_s(cs.subrange(0, cs.len() - 1)).push(
            IfClauseS { condition: program_s(c.condition), body: program_s(c.body) },
        )
    }
}

pub open spec fn items_s(its: Seq<CaseItem>) -> Seq<CaseItemS>
    decreases its, 2nat,
{
    if its.len() == 0 {
        seq![]
    } else {
        let it = its[its.len() - 1];
        items_s(its.subrange(0, its.len() - 1)).push(
            CaseItemS { patterns: strings_s(it.patterns@), body: program_s(it.body) },
        )
    }
}

impl View for Program {
    type V = ProgramS;

    open spec fn view(&self) -> ProgramS {
        program_s(*self)
    }
}

impl View for SimpleCommand {
    type V = SimpleS;

    open spec fn view(&self) -> SimpleS {
        simple_s(*self)
    }
}

impl View for Pipeline {
    type V = PipelineS;

    open spec fn view(&self) -> PipelineS {
        pipeline_s(*self)
    }
}

impl View for Redirect {
    type V = RedirectS;

    open spec fn view(&self) -> RedirectS {
        redirect_s(*self)
    }
}

impl View for CommandNode {
    type V = CommandS;

    open spec fn view(&self) -> CommandS {
        command_s(*self)
    }
}

impl View for ScriptCommand {
    type V = ScriptS;

    open spec fn view(&self) -> ScriptS {
        script_s(*self)
    }
}

} // verus!

verus! {

pub proof fn lemma_completes_push(cs: Seq<CompleteCommand>, c: CompleteCommand)
    ensures
        completes_s(cs.push(c)) == completes_s(cs).push(
            CompleteS { nodes: nodes_s(c.and_or.nodes@), background: c.background },
        ),
{
    assert(cs.push(c).subrange(0, cs.len() as int) =~= cs);
}

pub proof fn lemma_nodes_push(ns: Seq<AndOrNode>, n: AndOrNode)
    ensures
        nodes_s(ns.push(n)) == nodes_s(ns).push(
            AndOrNodeS { command: command_s(n.command), operator: n.operator },
        ),
{
    assert(ns.push(n).subrange(0, ns.len() as int) =~= ns);
}

pub proof fn lemma_clauses_push(cs: Seq<IfClause>, c: IfClause)
    ensures
        clauses_s(cs.push(c)) == clauses_s(cs).push(
            IfClauseS { condition: program_s(c.condition), body: program_s(c.body) },
        ),
{
    assert(cs.push(c).subrange(0, cs.len() as int) =~= cs);
}

pub proof fn lemma_items_push(its: Seq<CaseItem>, it: CaseItem)
    ensures
        items_s(its.push(it)) == items_s(its).push(
            CaseItemS { patterns: strings_s(it.patterns@), body: program_s(it.body) },
        ),
{
    assert(its.push(it).subrange(0, its.len() as int) =~= its);
}

pub proof fn lemma_strings_push(v: Seq<String>, s: String)
    ensures
        strings_s(v.push(s)) == strings_s(v).push(s@),
{
    assert(v.push(s).map_values(|x: String| x@) =~= v.map_values(|x: String| x@).push(s@));
}

} // verus!
