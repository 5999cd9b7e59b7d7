//! How passwords are filed in the credential store of the operating system.

use crate::num::{decimal, show};
use vstd::prelude::*;

verus! {

/// The name that all passwords of the shell are filed under.
pub const SERVICE: &'static str = "shell-ssh";

/// `user@host:port`, by which a remote's password is found.
pub open spec fn account_name(host: Seq<char>, port: u16, user: Seq<char>) -> Seq<char> {
    user + "@"@ + host + ":"@ + decimal(port as nat)
}

/// See [`account_name`].
pub fn account(host: &str, port: u16, user: &str) -> (r: String)
    ensures
        r@ == account_name(host@, port, user@),
{
    user.to_owned().concat("@").concat(host).concat(":").concat(&show(port as u64))
}

/// What the credential store answers when it is to forget a password.
#[derive(Debug)]
pub enum Forgotten {
    Removed,
    NoEntry,
    Failed(String),
}

/// Forgetting a password that was never there is no failure.
pub fn delete_password(reply: Forgotten) -> (r: Result<(), String>)
    ensures
        match reply {
            Forgotten::Failed(e) => r is Err && r->Err_0@ == "keyring: "@ + e@,
            _ => r is Ok,
        },
{
    match reply {
        Forgotten::Removed => Ok(()),
        Forgotten::NoEntry => Ok(()),
        Forgotten::Failed(e) => Err("keyring: ".to_owned().concat(&e)),
    }
}

/// Storing a password fails as the store says.
pub fn set_password(reply: Result<(), String>) -> (r: Result<(), String>)
    ensures
        match reply {
            Err(e) => r is Err && r->Err_0@ == "keyring: "@ + e@,
            Ok(_) => r is Ok,
        },
{
    match reply {
        Ok(()) => Ok(()),
        Err(e) => Err("keyring: ".to_owned().concat(&e)),
    }
}

/// A password that cannot be had counts as none.
pub fn get_password(reply: Result<String, String>) -> (r: Option<String>)
    ensures
        match reply {
            Ok(p) => r is Some && r->0@ == p@,
            Err(_) => r is None,
        },
{
    match reply {
        Ok(p) => Some(p),
        Err(_) => None,
    }
}

} // verus!
