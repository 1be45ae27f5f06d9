//! Small app settings: the opt-in state for the community manifest archive.
//!
//! Nothing is shared unless the user opts in; the consent dialog is shown
//! again when the consent version is raised. Reading and writing
//! `settings.json` is done by the caller.

use vstd::prelude::*;

use crate::paths::{join, joined_path_of, store_dir, store_dir_of};

verus! {

/// Raised when the archive consent text or privacy policy changes, so the
/// app asks again after an update; not on every update otherwise.
pub const CONSENT_VERSION: u32 = 1;

/// The persisted settings.
#[derive(Debug, Clone, Copy, PartialEq, Eq)]
pub struct Settings {
    /// `None` means the user has not decided yet.
    pub archive_opt_in: Option<bool>,
    /// The consent version the user last acted on.
    pub consent_version: u32,
}

impl Default for Settings {
    /// Nothing decided yet.
    fn default() -> (s: Self)
        ensures
            s.archive_opt_in.is_none(),
            s.consent_version == 0,
    {
        Settings { archive_opt_in: None, consent_version: 0 }
    }
}

/// What the front end needs: the current choice plus whether to show the dialog.
#[derive(Debug, Clone, Copy, PartialEq, Eq)]
pub struct SettingsView {
    pub archive_opt_in: Option<bool>,
    pub needs_consent: bool,
    pub consent_version: u32,
}

/// The consent dialog is due: no decision yet, or the consent version was
/// raised since the user last acted.
pub open spec fn consent_due(s: Settings) -> bool {
    s.archive_opt_in.is_none() || s.consent_version < CONSENT_VERSION
}

/// `v` shows the settings `s`.
pub open spec fn shows(v: SettingsView, s: Settings) -> bool {
    &&& v.archive_opt_in == s.archive_opt_in
    &&& v.needs_consent == consent_due(s)
    &&& v.consent_version == CONSENT_VERSION
}

/// The view of the settings for the front end.
pub fn view(s: &Settings) -> (v: SettingsView)
    ensures
        shows(v, *s),
{
    SettingsView {
        needs_consent: s.archive_opt_in.is_none() || s.consent_version < CONSENT_VERSION,
        archive_opt_in: s.archive_opt_in,
        consent_version: CONSENT_VERSION,
    }
}

/// Records the user's archive choice under the current consent version.
pub fn set_opt_in(s: &mut Settings, opt_in: bool) -> (v: SettingsView)
    ensures
        final(s).archive_opt_in == Some(opt_in),
        final(s).consent_version == CONSENT_VERSION,
        shows(v, *final(s)),
{
    s.archive_opt_in = Some(opt_in);
    s.consent_version = CONSENT_VERSION;
    view(s)
}

/// Whether the community archive is enabled (gates every call to it).
pub fn opt_in_enabled(s: &Settings) -> (r: bool)
    ensures
        r == (s.archive_opt_in == Some(true)),
{
    match s.archive_opt_in {
        Some(b) => b,
        None => false,
    }
}

/// Fresh settings ask for consent.
pub proof fn lemma_default_asks(s: Settings)
    requires
        s.archive_opt_in.is_none(),
    ensures
        consent_due(s),
{
}

/// Once the user has chosen, the dialog is not due and the archive is
/// enabled exactly when the user opted in.
pub proof fn lemma_choice_settles(s: Settings, opt_in: bool)
    requires
        s.archive_opt_in == Some(opt_in),
        s.consent_version == CONSENT_VERSION,
    ensures
        !consent_due(s),
        (s.archive_opt_in == Some(true)) == opt_in,
{
}

/// Raising the consent version above the one the user acted on asks again.
pub proof fn lemma_outdated_consent_asks(s: Settings)
    requires
        s.consent_version < CONSENT_VERSION,
    ensures
        consent_due(s),
{
}

/// The file the settings are kept in.
pub fn store_file(appdata: Option<&str>) -> (r: String)
    ensures
        r@ == joined_path_of(
            store_dir_of(
                match appdata {
                    Some(a) => Some(a@),
                    None => None,
                },
            ),
            "settings.json"@,
        ),
{
    let dir = store_dir(appdata);
    join(dir.as_str(), "settings.json")
}

} // verus!
