//! Terminal mode and password entry: what a key press means.

use crate::ssh::{RemoteSession, SessionRow, SshMode};
use crate::text::text_of;
use vstd::prelude::*;
use vstd::utf8::encode_utf8;

verus! {

/// A key, the modifiers aside.
#[derive(Clone, Copy, Debug, PartialEq, Eq, Structural)]
pub enum Key {
    Char(char),
    Enter,
    Backspace,
    Tab,
    Esc,
    Up,
    Down,
    Right,
    Left,
    Home,
    End,
    Delete,
    PageUp,
    PageDown,
    Other,
}

/// A key event: the key, whether Ctrl is held, and whether it is a release.
#[derive(Clone, Copy, Debug, PartialEq, Eq, Structural)]
pub struct KeyPress {
    pub key: Key,
    pub ctrl: bool,
    pub release: bool,
}

/// The letter as a capital, for `A` to `Z` and `a` to `z`.
pub open spec fn letter_number(c: char) -> Option<u8> {
    if 'A' <= c <= 'Z' {
        Some((c as u8 - 'A' as u8 + 1) as u8)
    } else if 'a' <= c <= 'z' {
        Some((c as u8 - 'a' as u8 + 1) as u8)
    } else {
        None
    }
}

/// What a terminal sends for a key: control codes for Ctrl with a letter, escape
/// sequences for the arrows and their like, and else the character in UTF-8.
pub open spec fn sent_bytes(key: Key, ctrl: bool) -> Option<Seq<u8>> {
    match key {
        Key::Char(c) => if ctrl && letter_number(c) is Some {
            Some(seq![letter_number(c)->0])
        } else if ctrl && c == ' ' {
            Some(seq![0u8])
        } else if ctrl && c == '\\' {
            Some(seq![0x1cu8])
        } else {
            Some(encode_utf8(seq![c]))
        },
        Key::Enter => Some(seq![13u8]),
        Key::Backspace => Some(seq![0x7fu8]),
        Key::Tab => Some(seq![9u8]),
        Key::Esc => Some(seq![0x1bu8]),
        Key::Up => Some(seq![0x1bu8, 0x5bu8, 0x41u8]),
        Key::Down => Some(seq![0x1bu8, 0x5bu8, 0x42u8]),
        Key::Right => Some(seq![0x1bu8, 0x5bu8, 0x43u8]),
        Key::Left => Some(seq![0x1bu8, 0x5bu8, 0x44u8]),
        Key::Home => Some(seq![0x1bu8, 0x5bu8, 0x48u8]),
        Key::End => Some(seq![0x1bu8, 0x5bu8, 0x46u8]),
        Key::Delete => Some(seq![0x1bu8, 0x5bu8, 0x33u8, 0x7eu8]),
        Key::PageUp => Some(seq![0x1bu8, 0x5bu8, 0x35u8, 0x7eu8]),
        Key::PageDown => Some(seq![0x1bu8, 0x5bu8, 0x36u8, 0x7eu8]),
        Key::Other => None,
    }
}

fn utf8_of(c: char) -> (r: Vec<u8>)
    ensures
        r@ == encode_utf8(seq![c]),
{
    let mut s = String::new();
    s.push(c);
    assert(s@ =~= seq![c]);
    let b = s.as_str().as_bytes();
    let mut out: Vec<u8> = Vec::new();
    let mut i: usize = 0;
    while i < b.len()
        invariant
            i <= b@.len(),
            out@ == b@.take(i as int),
        decreases b@.len() - i,
    {
        out.push(b[i]);
        assert(out@ =~= b@.take(i + 1));
        i = i + 1;
    }
    assert(out@ =~= b@);
    out
}

fn ctrl_number(c: char) -> (r: Option<u8>)
    ensures
        r == letter_number(c),
{
    if 'A' <= c && c <= 'Z' {
        Some(c as u8 - 65 + 1)
    } else if 'a' <= c && c <= 'z' {
        Some(c as u8 - 97 + 1)
    } else {
        None
    }
}

fn bytes3(c: u8) -> (r: Vec<u8>)
    ensures
        r@ == seq![0x1bu8, 0x5bu8, c],
{
    let r: Vec<u8> = vec![0x1b, 0x5b, c];
    assert(r@ =~= seq![0x1bu8, 0x5bu8, c]);
    r
}

fn bytes4(c: u8) -> (r: Vec<u8>)
    ensures
        r@ == seq![0x1bu8, 0x5bu8, c, 0x7eu8],
{
    let r: Vec<u8> = vec![0x1b, 0x5b, c, 0x7e];
    assert(r@ =~= seq![0x1bu8, 0x5bu8, c, 0x7eu8]);
    r
}

fn bytes1(c: u8) -> (r: Vec<u8>)
    ensures
        r@ == seq![c],
{
    let r: Vec<u8> = vec![c];
    assert(r@ =~= seq![c]);
    r
}

/// The bytes to send to the remote terminal for a key, if any.
pub fn key_to_bytes(key: Key, ctrl: bool) -> (r: Option<Vec<u8>>)
    ensures
        match r {
            Some(b) => sent_bytes(key, ctrl) == Some(b@),
            None => sent_bytes(key, ctrl) is None,
        },
{
    match key {
        Key::Char(c) => {
            if ctrl {
                if let Some(n) = ctrl_number(c) {
                    return Some(bytes1(n));
                }
                if c == ' ' {
                    return Some(bytes1(0));
                }
                if c == '\\' {
                    return Some(bytes1(0x1c));
                }
            }
            Some(utf8_of(c))
        },
        Key::Enter => Some(bytes1(13)),
        Key::Backspace => Some(bytes1(0x7f)),
        Key::Tab => Some(bytes1(9)),
        Key::Esc => Some(bytes1(0x1b)),
        Key::Up => Some(bytes3(0x41)),
        Key::Down => Some(bytes3(0x42)),
        Key::Right => Some(bytes3(0x43)),
        Key::Left => Some(bytes3(0x44)),
        Key::Home => Some(bytes3(0x48)),
        Key::End => Some(bytes3(0x46)),
        Key::Delete => Some(bytes4(0x33)),
        Key::PageUp => Some(bytes4(0x35)),
        Key::PageDown => Some(bytes4(0x36)),
        Key::Other => None,
    }
}

/// Control codes are below 32 and tell the letters apart, letter case aside.
pub proof fn control_codes_are_distinct(a: char, b: char)
    requires
        letter_number(a) is Some,
        letter_number(b) is Some,
    ensures
        1 <= letter_number(a)->0 <= 26,
        letter_number(a) == letter_number(b) <==> crate::text::ascii_lower_char(a)
            == crate::text::ascii_lower_char(b),
{
}

/// Something that happens while the terminal of a remote is shown.
#[derive(Clone, Copy, Debug, PartialEq, Eq, Structural)]
pub enum TerminalEvent {
    Key(KeyPress),
    Resize(u16, u16),
    Other,
}

/// What to do about it.
#[derive(Debug)]
pub enum TerminalAction {
    Nothing,
    /// Leave terminal mode; the connection stays.
    Detach,
    Send(Vec<u8>),
    Resize(u32, u32),
}

/// `r` is what is to be done about an event in terminal mode.
pub open spec fn answers(event: TerminalEvent, r: TerminalAction) -> bool {
    match event {
        TerminalEvent::Key(k) => if k.release {
            r is Nothing
        } else if k.ctrl && k.key == Key::Char(']') {
            r is Detach
        } else {
            match sent_bytes(k.key, k.ctrl) {
                Some(b) => r is Send && r->Send_0@ == b,
                None => r is Nothing,
            }
        },
        TerminalEvent::Resize(cols, rows) => r is Resize && r->Resize_0 == cols && r->Resize_1
            == rows,
        TerminalEvent::Other => r is Nothing,
    }
}

/// What an event in terminal mode leads to. Ctrl with `]` detaches; releasing a
/// key does nothing.
pub fn terminal_step(event: TerminalEvent) -> (r: TerminalAction)
    ensures
        match event {
            TerminalEvent::Key(k) => if k.release {
                r is Nothing
            } else if k.ctrl && k.key == Key::Char(']') {
                r is Detach
            } else {
                match sent_bytes(k.key, k.ctrl) {
                    Some(b) => r is Send && r->Send_0@ == b,
                    None => r is Nothing,
                }
            },
            TerminalEvent::Resize(cols, rows) => r is Resize && r->Resize_0 == cols && r->Resize_1
                == rows,
            TerminalEvent::Other => r is Nothing,
        },
        answers(event, r),
{
    match event {
        TerminalEvent::Key(k) => {
            if k.release {
                return TerminalAction::Nothing;
            }
            if k.ctrl {
                if let Key::Char(c) = k.key {
                    if c == ']' {
                        return TerminalAction::Detach;
                    }
                }
            }
            match key_to_bytes(k.key, k.ctrl) {
                Some(b) => TerminalAction::Send(b),
                None => TerminalAction::Nothing,
            }
        },
        TerminalEvent::Resize(cols, rows) => TerminalAction::Resize(cols as u32, rows as u32),
        TerminalEvent::Other => TerminalAction::Nothing,
    }
}

/// What is left of a session when terminal mode ends, and what to say. A remote
/// shell that has exited takes the connection with it; else the session goes back
/// to command mode.
pub open spec fn after_terminal(session: Option<SessionRow>, closed: bool) -> (
    Option<SessionRow>,
    Option<Seq<char>>,
) {
    match session {
        None => (None, None),
        Some(s) => if closed {
            (None, Some("ssh: remote shell exited; disconnected"@))
        } else {
            (
                Some(SessionRow { mode: SshMode::Exec, ..s }),
                Some(
                    "ssh: detached to command mode (`mode pty` resumes the interactive shell, `exit` disconnects)"@,
                ),
            )
        },
    }
}

/// See [`after_terminal`]. `closed` tells whether the remote shell has exited.
pub fn leave_terminal(session: &mut Option<RemoteSession>, closed: bool) -> (r: Option<String>)
    ensures
        (final(session).deep_view(), r.deep_view()) == after_terminal(
            old(session).deep_view(),
            closed,
        ),
{
    let mut taken: Option<RemoteSession> = None;
    std::mem::swap(&mut taken, session);
    match taken {
        None => None,
        Some(s) => if closed {
            Some("ssh: remote shell exited; disconnected".to_owned())
        } else {
            let mut s = s;
            let _ = s.set_mode(SshMode::Exec, true);
            *session = Some(s);
            Some(
                "ssh: detached to command mode (`mode pty` resumes the interactive shell, `exit` disconnects)".to_owned(),
            )
        },
    }
}

/// A password as it is typed.
#[derive(Debug)]
pub struct PasswordEntry {
    pub typed: Vec<char>,
}

/// Where typing a password stands.
#[derive(Clone, Copy, Debug, PartialEq, Eq, Structural)]
pub enum Typing {
    More,
    Finished,
    Cancelled,
}

/// What a key does to what is typed, and where that leaves it.
pub open spec fn typed_after(typed: Seq<char>, k: KeyPress) -> (Seq<char>, Typing) {
    if k.release {
        (typed, Typing::More)
    } else if k.ctrl && k.key == Key::Char('c') {
        (typed, Typing::Cancelled)
    } else {
        match k.key {
            Key::Enter => (typed, Typing::Finished),
            Key::Esc => (typed, Typing::Cancelled),
            Key::Backspace => (
                if typed.len() > 0 {
                    typed.drop_last()
                } else {
                    typed
                },
                Typing::More,
            ),
            Key::Char(c) => (typed.push(c), Typing::More),
            _ => (typed, Typing::More),
        }
    }
}

impl PasswordEntry {
    pub fn new() -> (r: PasswordEntry)
        ensures
            r.typed@ == Seq::<char>::empty(),
    {
        PasswordEntry { typed: Vec::new() }
    }

    /// Take in a key. Enter finishes; Esc and Ctrl with `c` cancel.
    pub fn press(&mut self, k: KeyPress) -> (r: Typing)
        ensures
            (final(self).typed@, r) == typed_after(old(self).typed@, k),
    {
        if k.release {
            return Typing::More;
        }
        match k.key {
            Key::Enter => Typing::Finished,
            Key::Esc => Typing::Cancelled,
            Key::Backspace => {
                let ghost was = self.typed@;
                let _ = self.typed.pop();
                assert(was.len() == 0 ==> self.typed@ =~= was);
                Typing::More
            },
            Key::Char(c) => {
                if k.ctrl && c == 'c' {
                    return Typing::Cancelled;
                }
                self.typed.push(c);
                Typing::More
            },
            _ => Typing::More,
        }
    }

    /// What was typed.
    pub fn text(&self) -> (r: String)
        ensures
            r@ == self.typed@,
    {
        text_of(&self.typed)
    }
}

/// In terminal mode Ctrl with `]` is the one key that detaches. Any other key that
/// is pressed is sent on, if a terminal has something to send for it: a character
/// as it is, a letter with Ctrl as its number in the alphabet. A key that is let
/// go sends nothing, and a new size is passed on with its columns and rows.
pub proof fn terminal_keys_reach_the_remote(k: KeyPress, r: TerminalAction, cols: u16, rows: u16)
    ensures
        answers(TerminalEvent::Key(k), r) && k.release ==> r is Nothing,
        answers(TerminalEvent::Key(k), r) && !k.release ==> (r is Detach <==> k.ctrl && k.key
            == Key::Char(']')),
        answers(TerminalEvent::Key(k), r) && !k.release && !k.ctrl && k.key is Char ==> r is Send
            && r->Send_0@ == encode_utf8(seq![k.key->Char_0]),
        answers(TerminalEvent::Key(k), r) && !k.release && k.ctrl && k.key is Char && 'a'
            <= k.key->Char_0 <= 'z' ==> r is Send && r->Send_0@.len() == 1 && r->Send_0@[0]
            == k.key->Char_0 as u32 - 96,
        answers(TerminalEvent::Key(k), r) && !k.release && k.ctrl && k.key is Char && 'A'
            <= k.key->Char_0 <= 'Z' ==> r is Send && r->Send_0@.len() == 1 && r->Send_0@[0]
            == k.key->Char_0 as u32 - 64,
        answers(TerminalEvent::Key(k), r) && !k.release && k.key == Key::Enter ==> r is Send
            && r->Send_0@ == seq![13u8],
        answers(TerminalEvent::Key(k), r) && !k.release && (k.key == Key::Up || k.key == Key::Down
            || k.key == Key::Right || k.key == Key::Left) ==> r is Send && r->Send_0@.len() == 3
            && r->Send_0@[0] == 0x1b && r->Send_0@[1] == 0x5b && r->Send_0@[2] == (if k.key
            == Key::Up {
            65u8
        } else if k.key == Key::Down {
            66u8
        } else if k.key == Key::Right {
            67u8
        } else {
            68u8
        }),
        answers(TerminalEvent::Resize(cols, rows), r) ==> r is Resize && r->Resize_0 == cols
            && r->Resize_1 == rows,
{
}

/// Leaving terminal mode keeps the session, its directory and its target, and
/// goes back to command mode, unless the shell there is gone, which ends it.
pub proof fn detaching_keeps_the_session(s: SessionRow)
    ensures
        after_terminal(Some(s), true).0 is None,
        after_terminal(Some(s), false).0 == Some(SessionRow { mode: SshMode::Exec, ..s }),
        after_terminal(Some(s), false).1 is Some && after_terminal(Some(s), true).1 is Some,
        after_terminal(Some(s), false).1 != after_terminal(Some(s), true).1,
        forall|closed: bool|
            (#[trigger] after_terminal(None, closed)).0 is None && after_terminal(None, closed).1
                is None,
{
    reveal_strlit("ssh: remote shell exited; disconnected");
    reveal_strlit(
        "ssh: detached to command mode (`mode pty` resumes the interactive shell, `exit` disconnects)",
    );
    assert(after_terminal(Some(s), false).1->0[5] == 'd');
    assert(after_terminal(Some(s), true).1->0[5] == 'r');
}

/// The text that is typed: characters are put behind it, and Backspace takes the
/// last one away again. Enter is what finishes it, Esc and Ctrl with `c` what
/// cancels it, and no key changes what was typed otherwise.
pub proof fn typing_is_taken_in(typed: Seq<char>, c: char, k: KeyPress)
    ensures
        !k.release && !k.ctrl && k.key == Key::Char(c) ==> typed_after(typed, k) == (
            typed.push(c),
            Typing::More,
        ),
        !k.release && k.key == Key::Backspace ==> typed_after(typed.push(c), k) == (
            typed,
            Typing::More,
        ),
        typed_after(typed, k).1 == Typing::Finished <==> !k.release && k.key == Key::Enter,
        typed_after(typed, k).1 == Typing::Cancelled <==> !k.release && (k.key == Key::Esc || (
        k.ctrl && k.key == Key::Char('c'))),
        k.release ==> typed_after(typed, k).0 == typed,
        typed_after(typed, k).1 != Typing::More ==> typed_after(typed, k).0 == typed,
{
    assert(typed.push(c).drop_last() =~= typed);
}

/// No two of the keys that have a sequence of their own send the same bytes, and
/// a key that is not known sends none.
pub proof fn keys_send_different_bytes(a: Key, b: Key, ctrl: bool)
    requires
        a !is Char && b !is Char,
        sent_bytes(a, ctrl) == sent_bytes(b, ctrl),
    ensures
        a == b,
        sent_bytes(Key::Other, ctrl) is None,
        a != Key::Other ==> sent_bytes(a, ctrl) is Some,
{
    if a != Key::Other && b != Key::Other && a != b {
        let x = sent_bytes(a, ctrl)->0;
        let y = sent_bytes(b, ctrl)->0;
        assert(x.len() != y.len() || x[0] != y[0] || (x.len() >= 3 && x[2] != y[2]));
    }
}

/// Enter, Backspace, Tab and Esc send their control codes; the keys that move or
/// delete send the sequences that terminals give them.
pub proof fn keys_send_their_codes(ctrl: bool)
    ensures
        sent_bytes(Key::Enter, ctrl) == Some(seq![13u8]),
        sent_bytes(Key::Backspace, ctrl) == Some(seq![127u8]),
        sent_bytes(Key::Tab, ctrl) == Some(seq![9u8]),
        sent_bytes(Key::Esc, ctrl) == Some(seq![27u8]),
        sent_bytes(Key::Home, ctrl) == Some(seq![27u8, 91, 72]),
        sent_bytes(Key::End, ctrl) == Some(seq![27u8, 91, 70]),
        sent_bytes(Key::Delete, ctrl) == Some(seq![27u8, 91, 51, 126]),
        sent_bytes(Key::PageUp, ctrl) == Some(seq![27u8, 91, 53, 126]),
        sent_bytes(Key::PageDown, ctrl) == Some(seq![27u8, 91, 54, 126]),
{
}

} // verus!
