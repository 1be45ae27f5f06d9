//! The central error type of the Steam integration.

use vstd::prelude::*;

use crate::text::{decimal, decimal_string, extend_chars, string_of};

verus! {

/// Central error type; its text crosses the command boundary as a string.
#[derive(Debug, Clone, PartialEq, Eq)]
pub enum SteamError {
    Http(String),
    Parse(String),
    NotAuthenticated,
    NotOwned(u32),
    Unresolved(String),
    NotImplemented(String),
    Other(String),
}

/// The text shown for an error.
pub open spec fn error_text(e: SteamError) -> Seq<char> {
    match e {
        SteamError::Http(s) => "HTTP error: "@ + s@,
        SteamError::Parse(s) => "Could not parse response: "@ + s@,
        SteamError::NotAuthenticated => "Not signed in"@,
        SteamError::NotOwned(id) => "Game not owned by this account (app id "@ + decimal(
            id as nat,
        ) + ")"@,
        SteamError::Unresolved(s) => "Could not resolve version: "@ + s@,
        SteamError::NotImplemented(s) => "Not implemented yet: "@ + s@,
        SteamError::Other(s) => s@,
    }
}

impl SteamError {
    /// The text of the error, as shown to the user.
    pub fn message(&self) -> (r: String)
        ensures
            r@ == error_text(*self),
    {
        let (head, tail): (&str, Vec<char>) = match self {
            SteamError::Http(s) => ("HTTP error: ", crate::text::chars_of(s.as_str())),
            SteamError::Parse(s) => ("Could not parse response: ", crate::text::chars_of(s.as_str())),
            SteamError::NotAuthenticated => ("Not signed in", Vec::new()),
            SteamError::NotOwned(id) => {
                let mut t = decimal_string(*id as u64);
                extend_chars(&mut t, &crate::text::chars_of(")"));
                ("Game not owned by this account (app id ", t)
            },
            SteamError::Unresolved(s) => ("Could not resolve version: ", crate::text::chars_of(s.as_str())),
            SteamError::NotImplemented(s) => ("Not implemented yet: ", crate::text::chars_of(s.as_str())),
            SteamError::Other(s) => ("", crate::text::chars_of(s.as_str())),
        };
        let mut out = crate::text::chars_of(head);
        extend_chars(&mut out, &tail);
        proof {
            reveal_strlit("");
            reveal_strlit("Not signed in");
        }
        let r = string_of(&out);
        assert(r@ =~= error_text(*self));
        r
    }
}

/// `std::io::Error`, carried as an opaque value.
#[verifier::external_type_specification]
#[verifier::external_body]
pub struct ExIoError(std::io::Error);

/// An I/O failure as an error of this crate: `Other` with the I/O error's
/// display text.
pub fn io(e: std::io::Error) -> (r: SteamError)
    ensures
        r matches SteamError::Other(m) && vstd::string::to_string_from_display_ensures::<
            std::io::Error,
        >(&e, m),
{
    SteamError::Other(e.to_string())
}

} // verus!
