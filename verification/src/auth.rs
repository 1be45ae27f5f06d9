//! Steam sign-in through the helper process. The exchange with the helper is
//! the caller's part; this is the session it yields.

use vstd::prelude::*;

verus! {

/// A signed-in Steam account.
#[derive(Debug, Clone)]
pub struct Session {
    pub steam_id: u64,
    pub account_name: String,
}

/// The session from the helper's reply: its `steam_id` and `account`, with 0
/// and the empty name where the reply lacks them.
pub fn session_from(steam_id: Option<u64>, account: Option<&str>) -> (s: Session)
    ensures
        s.steam_id == match steam_id {
            Some(x) => x,
            None => 0,
        },
        s.account_name@ == match account {
            Some(a) => a@,
            None => Seq::<char>::empty(),
        },
{
    Session {
        steam_id: match steam_id {
            Some(x) => x,
            None => 0,
        },
        account_name: match account {
            Some(a) => String::from_str(a),
            None => String::new(),
        },
    }
}

} // verus!
