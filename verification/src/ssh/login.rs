//! Getting into a remote: where the password comes from, and what follows.
//!
//! Each function takes what the outside has answered and says what to show and
//! what to do next.

use crate::commands::{
    add_prompt, cmd_ssh, connect_prompt, connected_outcome, connecting_line, Outcome,
};
use crate::plan::{Effect, OutKind, Plan, PlanRow, Target};
use crate::ssh::secrets::account_name;
use crate::state::{State, StateRow};
use crate::text::chars_of;
use vstd::prelude::*;

verus! {

/// What a password is for.
#[derive(Clone, Copy, Debug, PartialEq, Eq, Structural)]
pub enum Purpose {
    /// `ssh`: to connect.
    Connect,
    /// `remote add`: to save it with the remote.
    Add,
}

/// The next thing to do.
#[derive(Debug)]
pub enum LoginStep<T> {
    /// Ask for the password with this prompt.
    Ask(T),
    /// Store this password.
    Keep(T),
    /// Connect with this password.
    Connect(T),
    /// Save the remote.
    Save,
    /// Nothing more.
    Over,
}

impl DeepView for LoginStep<String> {
    type V = LoginStep<Seq<char>>;

    open spec fn deep_view(&self) -> LoginStep<Seq<char>> {
        match self {
            LoginStep::Ask(t) => LoginStep::Ask(t@),
            LoginStep::Keep(t) => LoginStep::Keep(t@),
            LoginStep::Connect(t) => LoginStep::Connect(t@),
            LoginStep::Save => LoginStep::Save,
            LoginStep::Over => LoginStep::Over,
        }
    }
}

/// A step, and a line to show before it.
#[derive(Debug)]
pub struct Login {
    pub shown: Vec<Effect<String>>,
    pub step: LoginStep<String>,
}

pub ghost struct LoginRow {
    pub shown: Seq<Effect<Seq<char>>>,
    pub step: LoginStep<Seq<char>>,
}

impl DeepView for Login {
    type V = LoginRow;

    open spec fn deep_view(&self) -> LoginRow {
        LoginRow { shown: self.shown.deep_view(), step: self.step.deep_view() }
    }
}

pub open spec fn speaker(p: Purpose) -> Seq<char> {
    match p {
        Purpose::Connect => "ssh"@,
        Purpose::Add => "remote"@,
    }
}

fn speaker_name(p: Purpose) -> (r: &'static str)
    ensures
        r@ == speaker(p),
{
    match p {
        Purpose::Connect => "ssh",
        Purpose::Add => "remote",
    }
}

pub open spec fn connecting(t: Target<Seq<char>>) -> Effect<Seq<char>> {
    Effect::Line(
        OutKind::Stdout,
        "Connecting to "@ + account_name(t.host, t.port, t.user) + " …"@,
    )
}

fn nothing_shown() -> (r: Vec<Effect<String>>)
    ensures
        r.deep_view() == Seq::<Effect<Seq<char>>>::empty(),
{
    let r: Vec<Effect<String>> = Vec::new();
    assert(r.deep_view() =~= Seq::empty());
    r
}

fn one_shown(kind: OutKind, text: String) -> (r: Vec<Effect<String>>)
    ensures
        r.deep_view() == seq![Effect::Line(kind, text@)],
{
    let mut r: Vec<Effect<String>> = Vec::new();
    r.push(Effect::Line(kind, text));
    assert(r.deep_view() =~= seq![Effect::Line(kind, text@)]);
    r
}

/// How getting into a remote starts. `ssh` takes the password that is stored;
/// without one, and for `remote add`, it is asked for.
pub open spec fn first_step(
    p: Purpose,
    t: Target<Seq<char>>,
    stored: Option<Seq<char>>,
) -> LoginRow {
    match (p, stored) {
        (Purpose::Connect, Some(pw)) => LoginRow {
            shown: seq![connecting(t)],
            step: LoginStep::Connect(pw),
        },
        (Purpose::Connect, None) => LoginRow {
            shown: Seq::empty(),
            step: LoginStep::Ask("Password for "@ + t.user + "@"@ + t.host + ": "@),
        },
        (Purpose::Add, _) => LoginRow {
            shown: Seq::empty(),
            step: LoginStep::Ask(
                "Password for "@ + t.user + "@"@ + t.host + " (blank to skip): "@,
            ),
        },
    }
}

/// See [`first_step`].
pub fn begin(p: Purpose, t: &Target<String>, stored: Option<String>) -> (r: Login)
    ensures
        r.deep_view() == first_step(p, t.deep_view(), stored.deep_view()),
{
    match p {
        Purpose::Connect => match stored {
            Some(pw) => Login {
                shown: one_shown(OutKind::Stdout, connecting_line(t)),
                step: LoginStep::Connect(pw),
            },
            None => Login { shown: nothing_shown(), step: LoginStep::Ask(connect_prompt(t)) },
        },
        Purpose::Add => Login { shown: nothing_shown(), step: LoginStep::Ask(add_prompt(t)) },
    }
}

/// When a password was asked for. `remote add` stores no blank one.
pub open spec fn after_asking(p: Purpose, typed: Result<String, String>) -> LoginRow {
    match typed {
        Err(e) => LoginRow {
            shown: seq![Effect::Line(OutKind::Stderr, speaker(p) + ": "@ + e@)],
            step: LoginStep::Over,
        },
        Ok(pw) => LoginRow {
            shown: Seq::empty(),
            step: if p == Purpose::Add && pw@.len() == 0 {
                LoginStep::Save
            } else {
                LoginStep::Keep(pw@)
            },
        },
    }
}

/// See [`after_asking`].
pub fn asked(p: Purpose, typed: Result<String, String>) -> (r: Login)
    ensures
        r.deep_view() == after_asking(p, typed),
{
    match typed {
        Err(e) => Login {
            shown: one_shown(
                OutKind::Stderr,
                speaker_name(p).to_owned().concat(": ").concat(&e),
            ),
            step: LoginStep::Over,
        },
        Ok(pw) => {
            let blank = chars_of(&pw).len() == 0;
            match p {
                Purpose::Add => if blank {
                    Login { shown: nothing_shown(), step: LoginStep::Save }
                } else {
                    Login { shown: nothing_shown(), step: LoginStep::Keep(pw) }
                },
                Purpose::Connect => Login { shown: nothing_shown(), step: LoginStep::Keep(pw) },
            }
        },
    }
}

/// When a password was to be stored. That it could not be is worth a warning and
/// no more.
pub open spec fn after_keeping(
    p: Purpose,
    t: Target<Seq<char>>,
    password: Seq<char>,
    kept: Result<(), String>,
) -> LoginRow {
    let warning = match kept {
        Ok(_) => Seq::empty(),
        Err(e) => seq![
            Effect::Line(
                OutKind::Stderr,
                speaker(p) + ": warning: couldn't save password to keyring: "@ + e@,
            ),
        ],
    };
    match p {
        Purpose::Connect => LoginRow {
            shown: warning.push(connecting(t)),
            step: LoginStep::Connect(password),
        },
        Purpose::Add => LoginRow { shown: warning, step: LoginStep::Save },
    }
}

/// See [`after_keeping`].
pub fn kept(
    p: Purpose,
    t: &Target<String>,
    password: String,
    reply: Result<(), String>,
) -> (r: Login)
    ensures
        r.deep_view() == after_keeping(p, t.deep_view(), password@, reply),
{
    let mut shown = match reply {
        Ok(()) => nothing_shown(),
        Err(e) => one_shown(
            OutKind::Stderr,
            speaker_name(p).to_owned().concat(
                ": warning: couldn't save password to keyring: ",
            ).concat(&e),
        ),
    };
    match p {
        Purpose::Connect => {
            let ghost before = shown.deep_view();
            let line = connecting_line(t);
            shown.push(Effect::Line(OutKind::Stdout, line));
            assert(shown.deep_view() =~= before.push(Effect::Line(OutKind::Stdout, line@)));
            Login { shown, step: LoginStep::Connect(password) }
        },
        Purpose::Add => Login { shown, step: LoginStep::Save },
    }
}

/// When the connection was tried: it is in use from now on, or what went wrong
/// is said and nothing changes.
pub fn tried(state: &mut State, t: &Target<String>, result: Result<(), String>) -> (r: Plan)
    ensures
        (Outcome { state: final(state).deep_view(), plan: r.deep_view() }) == match result {
            Ok(_) => connected_outcome(old(state).deep_view(), t.deep_view()),
            Err(e) => Outcome::of(
                old(state).deep_view(),
                PlanRow::line(OutKind::Stderr, "ssh: "@ + e@),
            ),
        },
        (Outcome { state: final(state).deep_view(), plan: r.deep_view() }) == tried_outcome(
            old(state).deep_view(),
            t.deep_view(),
            result,
        ),
{
    match result {
        Ok(()) => cmd_ssh(state, t),
        Err(e) => Plan::line(OutKind::Stderr, "ssh: ".to_owned().concat(&e)),
    }
}

/// `ssh` does not ask for a password that is stored: it connects with it.
pub proof fn stored_passwords_need_no_typing(t: Target<Seq<char>>, stored: Seq<char>)
    ensures
        first_step(Purpose::Connect, t, Some(stored)).step == LoginStep::Connect(stored),
{
}

/// After a connection was tried.
pub open spec fn tried_outcome(
    s: StateRow,
    t: Target<Seq<char>>,
    result: Result<(), String>,
) -> Outcome {
    match result {
        Ok(_) => connected_outcome(s, t),
        Err(e) => Outcome::of(s, PlanRow::line(OutKind::Stderr, "ssh: "@ + e@)),
    }
}

/// A connection that could not be made changes nothing, saves nothing and says
/// why; one that was made is to the remote that was asked for.
pub proof fn failed_connections_change_nothing(
    s: StateRow,
    t: Target<Seq<char>>,
    e: String,
)
    ensures
        ({
            let o = tried_outcome(s, t, Err(e));
            &&& o.state == s
            &&& o.plan.effects == seq![Effect::Line(OutKind::Stderr, "ssh: "@ + e@)]
        }),
        ({
            let o = tried_outcome(s, t, Ok(()));
            &&& o.state.active_remote is Some
            &&& o.state.active_remote->0.host == t.host
            &&& o.state.active_remote->0.port == t.port
            &&& o.state.active_remote->0.user == t.user
        }),
{
}

} // verus!
