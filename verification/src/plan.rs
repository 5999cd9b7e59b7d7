//! What a command asks the frontend to do: lines to show, files to write, and
//! one thing to do at the end.
//!
//! The types take their texts as a parameter: `String` in code, and a sequence
//! of characters where contracts speak of them.

use vstd::prelude::*;

verus! {

/// Which stream a line of output belongs to.
#[derive(Clone, Copy, Debug, PartialEq, Eq, Structural)]
pub enum OutKind {
    Stdout,
    Stderr,
}

/// A remote to connect to.
#[derive(Debug)]
pub struct Target<T> {
    pub host: T,
    pub port: u16,
    pub user: T,
}

impl DeepView for Target<String> {
    type V = Target<Seq<char>>;

    open spec fn deep_view(&self) -> Target<Seq<char>> {
        Target { host: self.host@, port: self.port, user: self.user@ }
    }
}

/// Something to do on the way.
#[derive(Debug)]
pub enum Effect<T> {
    /// Print a line.
    Line(OutKind, T),
    /// Print a text as it is.
    Page(T),
    /// Write the state file. If that fails, the warning goes in front of what
    /// went wrong.
    Save { contents: T, warning: T },
    /// Remove the password of a remote from the credential store.
    ForgetPassword(Target<T>),
    /// Close the connection to the remote.
    Disconnect,
}

impl DeepView for Effect<String> {
    type V = Effect<Seq<char>>;

    open spec fn deep_view(&self) -> Effect<Seq<char>> {
        match self {
            Effect::Line(kind, text) => Effect::Line(*kind, text@),
            Effect::Page(text) => Effect::Page(text@),
            Effect::Save { contents, warning } => Effect::Save {
                contents: contents@,
                warning: warning@,
            },
            Effect::ForgetPassword(t) => Effect::ForgetPassword(t.deep_view()),
            Effect::Disconnect => Effect::Disconnect,
        }
    }
}

/// Who asked to change the directory, and so speaks when that fails.
#[derive(Clone, Copy, Debug, PartialEq, Eq, Structural)]
pub enum Mover {
    Cd,
    Bm,
}

/// What is left to do when the effects are done.
#[derive(Debug)]
pub enum Next<T> {
    /// Nothing: read the next line.
    Done,
    /// Leave the shell.
    Exit,
    /// Run this command line.
    Rerun(T),
    /// Run a line in the system shell.
    Run(T),
    /// Run a line in the system shell, in another directory.
    RunIn { line: T, dir: T },
    /// Show the contents of a file.
    Cat(T),
    /// Commit and push with a message.
    Sync(T),
    /// Follow the log of a service.
    Follow(T),
    /// Change the directory. `recent` is the entry of the recent directories
    /// that names it.
    ChangeDir { target: T, recent: Option<usize>, mover: Mover },
    /// Connect to a remote.
    Connect(Target<T>),
    /// Ask for a password for a remote, and save the remote.
    AddRemote(Target<T>),
    /// Run a line on the remote.
    RunRemote(T),
    /// Put the connection in command mode.
    EnterExec,
    /// Put the connection in terminal mode.
    EnterPty,
}


impl DeepView for Next<String> {
    type V = Next<Seq<char>>;

    open spec fn deep_view(&self) -> Next<Seq<char>> {
        match self {
            Next::Done => Next::Done,
            Next::Exit => Next::Exit,
            Next::Rerun(t) => Next::Rerun(t@),
            Next::Run(t) => Next::Run(t@),
            Next::RunIn { line, dir } => Next::RunIn { line: line@, dir: dir@ },
            Next::Cat(t) => Next::Cat(t@),
            Next::Sync(t) => Next::Sync(t@),
            Next::Follow(t) => Next::Follow(t@),
            Next::ChangeDir { target, recent, mover } => Next::ChangeDir {
                target: target@,
                recent: *recent,
                mover: *mover,
            },
            Next::Connect(t) => Next::Connect(t.deep_view()),
            Next::AddRemote(t) => Next::AddRemote(t.deep_view()),
            Next::RunRemote(t) => Next::RunRemote(t@),
            Next::EnterExec => Next::EnterExec,
            Next::EnterPty => Next::EnterPty,
        }
    }
}

/// The effects of a command in order, and what is left to do.
#[derive(Debug)]
pub struct Plan {
    pub effects: Vec<Effect<String>>,
    pub next: Next<String>,
}

pub ghost struct PlanRow {
    pub effects: Seq<Effect<Seq<char>>>,
    pub next: Next<Seq<char>>,
}

impl DeepView for Plan {
    type V = PlanRow;

    open spec fn deep_view(&self) -> PlanRow {
        PlanRow { effects: self.effects.deep_view(), next: self.next.deep_view() }
    }
}

impl PlanRow {
    /// Only something to do at the end.
    pub open spec fn just(next: Next<Seq<char>>) -> PlanRow {
        PlanRow { effects: Seq::empty(), next }
    }

    /// A line of output, and nothing more.
    pub open spec fn line(kind: OutKind, text: Seq<char>) -> PlanRow {
        PlanRow { effects: seq![Effect::Line(kind, text)], next: Next::Done }
    }

    /// A text as it is, and nothing more.
    pub open spec fn page(text: Seq<char>) -> PlanRow {
        PlanRow { effects: seq![Effect::Page(text)], next: Next::Done }
    }

    /// A line of output, and something to do at the end.
    pub open spec fn then_do(kind: OutKind, text: Seq<char>, next: Next<Seq<char>>) -> PlanRow {
        PlanRow { effects: seq![Effect::Line(kind, text)], next }
    }

    /// With an effect in front.
    pub open spec fn after(self, e: Effect<Seq<char>>) -> PlanRow {
        PlanRow { effects: seq![e] + self.effects, next: self.next }
    }
}

impl Plan {
    pub(crate) fn just(next: Next<String>) -> (r: Plan)
        ensures
            r.deep_view() == PlanRow::just(next.deep_view()),
    {
        let effects: Vec<Effect<String>> = Vec::new();
        assert(effects.deep_view() =~= Seq::empty());
        Plan { effects, next }
    }

    pub(crate) fn line(kind: OutKind, text: String) -> (r: Plan)
        ensures
            r.deep_view() == PlanRow::line(kind, text@),
    {
        Plan::then_do(kind, text, Next::Done)
    }

    pub(crate) fn page(text: String) -> (r: Plan)
        ensures
            r.deep_view() == PlanRow::page(text@),
    {
        let mut effects: Vec<Effect<String>> = Vec::new();
        effects.push(Effect::Page(text));
        assert(effects.deep_view() =~= seq![Effect::Page(text@)]);
        Plan { effects, next: Next::Done }
    }

    pub(crate) fn then_do(kind: OutKind, text: String, next: Next<String>) -> (r: Plan)
        ensures
            r.deep_view() == PlanRow::then_do(kind, text@, next.deep_view()),
    {
        let mut effects: Vec<Effect<String>> = Vec::new();
        effects.push(Effect::Line(kind, text));
        assert(effects.deep_view() =~= seq![Effect::Line(kind, text@)]);
        Plan { effects, next }
    }

    pub(crate) fn after(self, e: Effect<String>) -> (r: Plan)
        ensures
            r.deep_view() == self.deep_view().after(e.deep_view()),
    {
        let mut effects: Vec<Effect<String>> = self.effects;
        let ghost was = effects.deep_view();
        effects.insert(0, e);
        assert(effects.deep_view() =~= seq![e.deep_view()] + was);
        Plan { effects, next: self.next }
    }
}

} // verus!
