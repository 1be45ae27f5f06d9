//! The exchange with the helper process: newline-delimited JSON requests and
//! replies over its standard input and output. Running the process and moving
//! the lines is the caller's part; reading a reply's outcome is here.

use vstd::prelude::*;

use crate::error::SteamError;

verus! {

/// How long a request waits for its reply by default, in seconds (covers
/// sign-in with a second factor and app-info lookups).
pub const DEFAULT_TIMEOUT_SECS: u64 = 600;

/// The error a reply carries: none when its `ok` is `true`; otherwise its
/// `error` text, or `unknown error` when it has none.
pub fn reply_error(ok: Option<bool>, error: Option<&str>) -> (r: Option<SteamError>)
    ensures
        ok == Some(true) ==> r is None,
        ok != Some(true) ==> match r {
            Some(SteamError::Other(m)) => m@ == match error {
                Some(e) => e@,
                None => "unknown error"@,
            },
            _ => false,
        },
{
    match ok {
        Some(true) => None,
        _ => Some(
            SteamError::Other(
                match error {
                    Some(e) => String::from_str(e),
                    None => String::from_str("unknown error"),
                },
            ),
        ),
    }
}

/// The error for a request that got no reply in time.
pub fn timeout_error(cmd: &str) -> (r: SteamError)
    ensures
        r matches SteamError::Other(m) && m@ == "timeout on command '"@ + cmd@ + "'"@,
{
    let mut m = String::from_str("timeout on command '");
    m.append(cmd);
    m.append("'");
    SteamError::Other(m)
}

} // verus!
