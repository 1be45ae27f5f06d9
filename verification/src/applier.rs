//! Applying a downloaded build to an installed game, in one of two models:
//!
//! - in-place freeze: the install folder is moved to `<name>.downgrader-backup`,
//!   the old build is copied into its place and the app manifest is patched so
//!   Steam does not update it;
//! - separate copy: the old build is copied to `<name>_frozen` and a non-Steam
//!   shortcut to its main executable is added to every user's `shortcuts.vdf`.
//!
//! Copying, moving and deleting folders and reading and writing files is the
//! caller's part. What is decided or computed on the way (the paths, which
//! step to take, the shortcut list edits, the result and its warnings, the
//! choice of the main executable, the installed-games list) is here.

use vstd::prelude::*;

use crate::error::SteamError;
use crate::order::{key_views, order_asc_stable, stable_asc, text_le};
use crate::paths::{
    extension, extension_of, file_name, file_name_of, join, joined_path_of, parent, parent_of,
    path_starts_with_of, plain_component, same_path_of, starts_with_path, with_extension, with_extension_of,
    with_file_name, with_file_name_of,
};
use crate::shortcuts::{
    ascii_lower, entry_nul_free, key_is, lemma_shortcuts_roundtrip, parse_shortcuts,
    parse_shortcuts_bytes, same_ignoring_ascii_case, serialize_shortcuts, shortcuts_bytes, views,
    Shortcut,
};
use crate::text::{
    chars_of, contains_str, contains_text, decimal, decimal_string,
    ends_with_str, has_prefix, has_suffix, lowercase_of, parse_i64,
    parse_signed_i64, parse_u32, parse_u64, parse_unsigned, starts_with_str, string_of, string_of_range,
    strip_suffix_str, to_lowercase,
};
use crate::vdf::{extract_kv_value, extract_library_paths, kv_value, library_paths_from, quoted, string_views};

verus! {

// --- Types ---------------------------------------------------------------------

/// How a downloaded build is applied.
#[derive(Debug, Clone, Copy, PartialEq, Eq, Structural)]
pub enum ApplyModel {
    /// In-place overwrite, with Steam's updates for the app switched off.
    InPlaceFreeze,
    /// A separate copy, started through a non-Steam shortcut.
    SeparateCopyShortcut,
}

/// What applying a build did.
#[derive(Debug, Clone)]
pub struct ApplyResult {
    pub model: ApplyModel,
    /// The backup of the install folder (in-place) or the frozen copy (separate).
    pub backup_or_copy_path: String,
    pub launch_hint: String,
    pub warnings: Vec<String>,
}

/// A locally installed Steam app, read from its `appmanifest_<id>.acf`.
#[derive(Debug, Clone)]
pub struct InstalledGame {
    pub app_id: u32,
    pub name: String,
    pub install_dir: String,
    pub build_id: Option<u64>,
    pub size_bytes: Option<u64>,
    pub last_updated: Option<i64>,
}

// --- Backup and frozen-copy paths -------------------------------------------------

/// The suffix of the backup folder's name.
pub open spec fn backup_suffix() -> Seq<char> {
    ".downgrader-backup"@
}

/// The backup folder's name for an install folder named `name` (`game` when
/// the path has no file name).
pub open spec fn backup_name(name: Option<Seq<char>>) -> Seq<char> {
    match name {
        Some(n) => n + backup_suffix(),
        None => "game"@ + backup_suffix(),
    }
}

/// The backup folder of an install folder: a sibling named `<name>.downgrader-backup`.
pub open spec fn backup_path_of(install_dir: Seq<char>) -> Seq<char> {
    with_file_name_of(install_dir, backup_name(file_name_of(install_dir)))
}

/// The install folder a backup folder belongs to: the sibling whose name is
/// the backup's name without the suffix, if the backup's name is longer than
/// the suffix and ends with it.
pub open spec fn restored_of(backup: Seq<char>) -> Option<Seq<char>> {
    match file_name_of(backup) {
        Some(n) => if has_suffix(n, backup_suffix()) && n.len() > backup_suffix().len() {
            Some(with_file_name_of(backup, n.subrange(0, n.len() - backup_suffix().len())))
        } else {
            None
        },
        None => None,
    }
}

proof fn lemma_backup_suffix_plain(n: Seq<char>)
    requires
        plain_component(n),
    ensures
        plain_component(n + backup_suffix()),
        has_suffix(n + backup_suffix(), backup_suffix()),
        (n + backup_suffix()).subrange(0, n.len() as int) == n,
{
    reveal_strlit(".downgrader-backup");
    let m = n + backup_suffix();
    assert(m.subrange(m.len() - backup_suffix().len(), m.len() as int) =~= backup_suffix());
    assert(m.subrange(0, n.len() as int) =~= n);
    assert(m.len() > 2);
    assert(m != seq!['.']);
    assert(m != seq!['.', '.']);
}

/// The backup folder for an install folder. Where the install folder's name
/// is a plain component, the backup is a sibling of the install folder named
/// with the suffix, and the install folder derived back from the backup is
/// the install folder with its own name set again: same parent, same name,
/// the same path.
pub fn backup_path_for(install_dir: &str) -> (r: String)
    ensures
        r@ == backup_path_of(install_dir@),
        match file_name_of(install_dir@) {
            Some(n) => plain_component(n) ==> {
                &&& file_name_of(r@) == Some(n + backup_suffix())
                &&& parent_of(r@) == parent_of(install_dir@)
                &&& restored_of(r@) == Some(with_file_name_of(r@, n))
                &&& restored_of(r@) == Some(with_file_name_of(install_dir@, n))
                &&& same_path_of(with_file_name_of(r@, n), install_dir@)
            },
            None => true,
        },
{
    let mut name = match file_name(install_dir) {
        Some(n) => n,
        None => String::from_str("game"),
    };
    name.append(".downgrader-backup");
    proof {
        if let Some(n) = file_name_of(install_dir@) {
            if plain_component(n) {
                lemma_backup_suffix_plain(n);
            }
        }
    }
    with_file_name(install_dir, name.as_str())
}

/// The install folder a backup folder belongs to (`None` where the backup's
/// name does not end in `.downgrader-backup`). Where the restored name is a
/// plain component, it is the file name of the result.
pub fn install_dir_from_backup(backup: &str) -> (r: Option<String>)
    ensures
        match r {
            Some(q) => restored_of(backup@) == Some(q@),
            None => restored_of(backup@).is_none(),
        },
        match (r, file_name_of(backup@)) {
            (Some(q), Some(n)) => plain_component(n.subrange(0, n.len() - backup_suffix().len()))
                ==> {
                &&& file_name_of(q@) == Some(n.subrange(0, n.len() - backup_suffix().len()))
                &&& parent_of(q@) == parent_of(backup@)
            },
            _ => true,
        },
{
    let name = match file_name(backup) {
        Some(n) => n,
        None => return None,
    };
    proof {
        reveal_strlit(".downgrader-backup");
    }
    match strip_suffix_str(name.as_str(), ".downgrader-backup") {
        Some(orig) => if orig.as_str().is_empty() {
            None
        } else {
            Some(with_file_name(backup, orig.as_str()))
        },
        None => None,
    }
}

/// The frozen copy's name for an install folder named `name` (`app_<id>`
/// when the path has no file name).
pub open spec fn frozen_name(app_id: u32, name: Option<Seq<char>>) -> Seq<char> {
    match name {
        Some(n) => n + "_frozen"@,
        None => "app_"@ + decimal(app_id as nat) + "_frozen"@,
    }
}

proof fn lemma_frozen_suffix_plain(n: Seq<char>)
    requires
        plain_component(n),
    ensures
        plain_component(n + "_frozen"@),
        n + "_frozen"@ != n,
{
    reveal_strlit("_frozen");
    let m = n + "_frozen"@;
    assert(m.len() > 2);
    assert(m != seq!['.']);
    assert(m != seq!['.', '.']);
    assert forall|k: int| 0 <= k < m.len() implies m[k] != '/' && m[k] != '\\' && m[k] != ':' by {
        if k < n.len() {
            assert(m[k] == n[k]);
        }
    }
}

/// The frozen copy of an install folder: a sibling named `<name>_frozen`.
/// Where the install folder's name is a plain component, the copy is another
/// folder with the same parent, so the install folder itself is left as it is.
pub fn frozen_path_for(app_id: u32, install_dir: &str) -> (r: String)
    ensures
        r@ == with_file_name_of(install_dir@, frozen_name(app_id, file_name_of(install_dir@))),
        match file_name_of(install_dir@) {
            Some(n) => plain_component(n) ==> {
                &&& file_name_of(r@) == Some(n + "_frozen"@)
                &&& parent_of(r@) == parent_of(install_dir@)
                &&& r@ != install_dir@
            },
            None => true,
        },
{
    let mut name = match file_name(install_dir) {
        Some(n) => n,
        None => {
            let mut s = String::from_str("app_");
            let digits = string_of(&decimal_string(app_id as u64));
            s.append(digits.as_str());
            s
        },
    };
    name.append("_frozen");
    proof {
        if let Some(n) = file_name_of(install_dir@) {
            if plain_component(n) {
                lemma_frozen_suffix_plain(n);
            }
        }
    }
    with_file_name(install_dir, name.as_str())
}

// --- App manifests -----------------------------------------------------------------

/// `appmanifest_<id>.acf`.
pub open spec fn acf_file_name(app_id: u32) -> Seq<char> {
    "appmanifest_"@ + decimal(app_id as nat) + ".acf"@
}

fn acf_name(app_id: u32) -> (r: String)
    ensures
        r@ == acf_file_name(app_id),
{
    let mut s = String::from_str("appmanifest_");
    let digits = string_of(&decimal_string(app_id as u64));
    s.append(digits.as_str());
    s.append(".acf");
    s
}

/// The app manifest of an app installed at `.../steamapps/common/<name>`:
/// `appmanifest_<id>.acf` two levels up.
pub open spec fn acf_candidate(app_id: u32, install_dir: Seq<char>) -> Option<Seq<char>> {
    match parent_of(install_dir) {
        Some(common) => match parent_of(common) {
            Some(steamapps) => Some(joined_path_of(steamapps, acf_file_name(app_id))),
            None => None,
        },
        None => None,
    }
}

/// Where the app manifest of an app installed at `install_dir` lies
/// (whether that file exists is for the caller to check).
pub fn find_acf(app_id: u32, install_dir: &str) -> (r: Option<String>)
    ensures
        match r {
            Some(p) => acf_candidate(app_id, install_dir@) == Some(p@),
            None => acf_candidate(app_id, install_dir@).is_none(),
        },
{
    let common = match parent(install_dir) {
        Some(c) => c,
        None => return None,
    };
    let steamapps = match parent(common.as_str()) {
        Some(s) => s,
        None => return None,
    };
    let name = acf_name(app_id);
    Some(join(steamapps.as_str(), name.as_str()))
}

/// The backup of an app manifest: the same path with the extension
/// `acf.downgrader-backup`.
pub fn acf_backup_path(acf: &str) -> (r: String)
    ensures
        r@ == with_extension_of(acf@, "acf.downgrader-backup"@),
{
    proof {
        reveal_strlit("acf.downgrader-backup");
    }
    with_extension(acf, "acf.downgrader-backup")
}

/// Where to copy an app manifest before it is patched: its backup path, or
/// `None` when a backup is there already (left by an earlier apply), which is
/// kept, so the backup stays the manifest as it was before the first apply.
pub fn acf_backup_copy_to(acf: &str, backup_exists: bool) -> (r: Option<String>)
    ensures
        match r {
            Some(p) => !backup_exists && p@ == with_extension_of(acf@, "acf.downgrader-backup"@),
            None => backup_exists,
        },
{
    if backup_exists {
        None
    } else {
        Some(acf_backup_path(acf))
    }
}

/// Whether a file name is that of an app manifest (`appmanifest_*.acf`).
pub fn is_appmanifest_name(name: &str) -> (r: bool)
    ensures
        r == (has_prefix(name@, "appmanifest_"@) && has_suffix(name@, ".acf"@)),
{
    starts_with_str(name, "appmanifest_") && ends_with_str(name, ".acf")
}

/// The `steamapps` folder of a Steam library.
pub fn steamapps_dir(library: &str) -> (r: String)
    ensures
        r@ == joined_path_of(library@, "steamapps"@),
{
    join(library, "steamapps")
}

/// The app manifest of `app_id` in a `steamapps` folder.
pub fn acf_path_in(steamapps: &str, app_id: u32) -> (r: String)
    ensures
        r@ == joined_path_of(steamapps@, acf_file_name(app_id)),
{
    let name = acf_name(app_id);
    join(steamapps, name.as_str())
}

/// The install folder named by an app manifest's `installdir`, under
/// `steamapps/common`.
pub open spec fn install_dir_named(steamapps: Seq<char>, installdir: Seq<char>) -> Seq<char> {
    joined_path_of(joined_path_of(steamapps, "common"@), installdir)
}

fn common_dir(steamapps: &str, installdir: &str) -> (r: String)
    ensures
        r@ == install_dir_named(steamapps@, installdir@),
{
    let common = join(steamapps, "common");
    join(common.as_str(), installdir)
}

/// The install folder that an app manifest in `steamapps` names, if it has an
/// `installdir` entry.
pub fn install_dir_in(steamapps: &str, acf_text: &str) -> (r: Option<String>)
    ensures
        match r {
            Some(d) => match kv_value(acf_text@, "installdir"@) {
                Some(v) => d@ == install_dir_named(steamapps@, v),
                None => false,
            },
            None => kv_value(acf_text@, "installdir"@).is_none(),
        },
{
    match extract_kv_value(acf_text, "installdir") {
        Some(v) => Some(common_dir(steamapps, v.as_str())),
        None => None,
    }
}

/// The views of `(steamapps folder, manifest text if it could be read)` pairs.
pub open spec fn manifest_views(v: Seq<(String, Option<String>)>) -> Seq<(Seq<char>, Option<Seq<char>>)> {
    v.map_values(
        |e: (String, Option<String>)|
            (
                e.0@,
                match e.1 {
                    Some(t) => Some(t@),
                    None => None,
                },
            ),
    )
}

/// The install folders that the app manifests name, in library order: one
/// for each manifest that was read and has an `installdir` entry.
pub open spec fn install_candidates_of(found: Seq<(Seq<char>, Option<Seq<char>>)>) -> Seq<Seq<char>>
    decreases found.len(),
{
    if found.len() == 0 {
        Seq::empty()
    } else {
        let prev = install_candidates_of(found.drop_last());
        match found.last().1 {
            Some(t) => match kv_value(t, "installdir"@) {
                Some(v) => prev.push(install_dir_named(found.last().0, v)),
                None => prev,
            },
            None => prev,
        }
    }
}

/// Where an app may be installed, given each library's `steamapps` folder
/// with the text of the app's manifest there (if it could be read): the
/// folders the manifests name, in library order. The first of them that
/// exists is the install folder.
pub fn install_candidates(found: &Vec<(String, Option<String>)>) -> (r: Vec<String>)
    ensures
        string_views(r@) == install_candidates_of(manifest_views(found@)),
{
    let ghost fv = manifest_views(found@);
    let mut out: Vec<String> = Vec::new();
    let mut i: usize = 0;
    assert(fv.subrange(0, 0) =~= Seq::<(Seq<char>, Option<Seq<char>>)>::empty());
    while i < found.len()
        invariant
            i <= found@.len(),
            fv == manifest_views(found@),
            string_views(out@) == install_candidates_of(fv.subrange(0, i as int)),
        decreases found@.len() - i,
    {
        let ghost sub = fv.subrange(0, i + 1);
        assert(sub.drop_last() =~= fv.subrange(0, i as int));
        assert(sub.last() == fv[i as int]);
        match &found[i].1 {
            Some(t) => match install_dir_in(found[i].0.as_str(), t.as_str()) {
                Some(d) => {
                    let ghost prev = string_views(out@);
                    out.push(d);
                    assert(string_views(out@) =~= prev.push(out@[out@.len() - 1]@));
                },
                None => {},
            },
            None => {},
        }
        i = i + 1;
    }
    assert(fv.subrange(0, fv.len() as int) =~= fv);
    out
}

/// The Steam libraries to search: the Steam folder itself, then every path
/// listed in `libraryfolders.vdf` (when it could be read).
pub fn library_roots(root: &str, libraryfolders: Option<&str>) -> (r: Vec<String>)
    ensures
        string_views(r@) == seq![root@] + match libraryfolders {
            Some(t) => library_paths_from(t@, 0),
            None => Seq::<Seq<char>>::empty(),
        },
{
    let mut out: Vec<String> = Vec::new();
    out.push(String::from_str(root));
    match libraryfolders {
        Some(t) => {
            let paths = extract_library_paths(t);
            let mut i: usize = 0;
            while i < paths.len()
                invariant
                    i <= paths@.len(),
                    string_views(paths@) == library_paths_from(t@, 0),
                    string_views(out@) == seq![root@] + string_views(paths@).subrange(0, i as int),
                decreases paths@.len() - i,
            {
                let ghost prev = out@;
                out.push(paths[i].clone());
                assert(string_views(out@) =~= string_views(prev).push(paths@[i as int]@));
                assert(string_views(paths@)[i as int] == paths@[i as int]@);
                i = i + 1;
                assert(string_views(out@) =~= seq![root@] + string_views(paths@).subrange(
                    0,
                    i as int,
                ));
            }
            assert(string_views(paths@).subrange(0, paths@.len() as int) =~= string_views(paths@));
        },
        None => {
            assert(string_views(out@) =~= seq![root@] + Seq::<Seq<char>>::empty());
        },
    }
    out
}

/// The `shortcuts.vdf` of a user folder under `userdata`.
pub fn shortcuts_vdf_path(user_dir: &str) -> (r: String)
    ensures
        r@ == joined_path_of(joined_path_of(user_dir@, "config"@), "shortcuts.vdf"@),
{
    let config = join(user_dir, "config");
    join(config.as_str(), "shortcuts.vdf")
}

// --- Model A: in-place freeze ------------------------------------------------------

/// What to do with the install folder before the old build is copied in.
#[derive(Debug, Clone, Copy, PartialEq, Eq, Structural)]
pub enum InPlaceStep {
    /// A backup of the untouched install exists already (an earlier in-place
    /// downgrade is active): keep it and delete the current build.
    ClearInstall,
    /// First downgrade: move the install folder aside as the backup.
    MoveInstallToBackup,
    /// Nothing to move or delete.
    KeepAsIs,
}

/// The step before copying: the untouched install is preserved once, and a
/// re-apply only replaces the current build.
pub fn in_place_step(backup_exists: bool, install_exists: bool) -> (r: InPlaceStep)
    ensures
        r == (if backup_exists {
            if install_exists {
                InPlaceStep::ClearInstall
            } else {
                InPlaceStep::KeepAsIs
            }
        } else if install_exists {
            InPlaceStep::MoveInstallToBackup
        } else {
            InPlaceStep::KeepAsIs
        }),
{
    if backup_exists {
        if install_exists {
            InPlaceStep::ClearInstall
        } else {
            InPlaceStep::KeepAsIs
        }
    } else if install_exists {
        InPlaceStep::MoveInstallToBackup
    } else {
        InPlaceStep::KeepAsIs
    }
}

/// How patching the app manifest went.
#[derive(Debug, Clone)]
pub enum AcfPatch {
    /// No app manifest was found next to the install folder.
    NotFound,
    /// The manifest was patched.
    Patched,
    /// Patching failed with this message.
    Failed(String),
}

/// The note that Steam may still want to update when online.
pub open spec fn offline_note() -> Seq<char> {
    "Online, Steam may still mark this as 'update required'. Safest: start Steam in Offline Mode, or leave auto-update disabled."@
}

/// The warnings of an in-place apply.
pub open spec fn in_place_warnings(acf: AcfPatch) -> Seq<Seq<char>> {
    let first = match acf {
        AcfPatch::NotFound => seq!["appmanifest_*.acf not found, auto-update block not set."@],
        AcfPatch::Patched => Seq::<Seq<char>>::empty(),
        AcfPatch::Failed(e) => seq!["could not patch the ACF: "@ + e@],
    };
    first.push(offline_note())
}

/// The result of an in-place apply whose backup is `backup`.
pub fn in_place_result(backup: String, acf: AcfPatch) -> (r: ApplyResult)
    ensures
        r.model == ApplyModel::InPlaceFreeze,
        r.backup_or_copy_path@ == backup@,
        r.launch_hint@ == "Start it through Steam as usual (in Offline Mode if needed)."@,
        string_views(r.warnings@) == in_place_warnings(acf),
{
    let mut warnings: Vec<String> = Vec::new();
    match &acf {
        AcfPatch::NotFound => {
            warnings.push(String::from_str("appmanifest_*.acf not found, auto-update block not set."));
        },
        AcfPatch::Patched => {},
        AcfPatch::Failed(e) => {
            let mut w = String::from_str("could not patch the ACF: ");
            w.append(e.as_str());
            warnings.push(w);
        },
    }
    warnings.push(
        String::from_str(
            "Online, Steam may still mark this as 'update required'. Safest: start Steam in Offline Mode, or leave auto-update disabled.",
        ),
    );
    assert(string_views(warnings@) =~= in_place_warnings(acf));
    ApplyResult {
        model: ApplyModel::InPlaceFreeze,
        backup_or_copy_path: backup,
        launch_hint: String::from_str("Start it through Steam as usual (in Offline Mode if needed)."),
        warnings,
    }
}

// --- Model B: separate copy + shortcut -------------------------------------------------

/// What was found of the Steam users' `shortcuts.vdf` files.
#[derive(Debug, Clone)]
pub enum ProfileScan {
    /// The `shortcuts.vdf` path of every user folder.
    Found(Vec<String>),
    /// The user folders could not be listed, with the reason.
    Missing(String),
}

/// Whether shortcuts are added: there are user folders and a main executable.
pub open spec fn adds_shortcuts(scan: ProfileScan, exe_found: bool) -> bool {
    match scan {
        ProfileScan::Found(c) => c@.len() > 0 && exe_found,
        ProfileScan::Missing(_) => false,
    }
}

/// The `shortcuts.vdf` files to add the shortcut to: every one found, when
/// there are any and the main executable was found; none otherwise.
pub fn shortcut_targets(scan: &ProfileScan, exe_found: bool) -> (r: Vec<String>)
    ensures
        adds_shortcuts(*scan, exe_found) ==> (match *scan {
            ProfileScan::Found(c) => r@ == c@,
            ProfileScan::Missing(_) => false,
        }),
        !adds_shortcuts(*scan, exe_found) ==> r@.len() == 0,
{
    match scan {
        ProfileScan::Found(c) => if c.len() > 0 && exe_found {
            c.clone()
        } else {
            Vec::new()
        },
        ProfileScan::Missing(_) => Vec::new(),
    }
}

/// The launch hint of a separate copy.
pub open spec fn launch_hint_for(exe: Option<Seq<char>>) -> Seq<char> {
    match exe {
        Some(e) => "Launch directly (leave Steam running in the background): "@ + e,
        None => "Pick the main .exe in the frozen folder manually."@,
    }
}

/// The warning for a `shortcuts.vdf` that could not be updated.
pub open spec fn shortcut_failure_text(failure: (Seq<char>, Seq<char>)) -> Seq<char> {
    "shortcuts.vdf ("@ + failure.0 + ") not updated: "@ + failure.1
}

/// The failure warnings, in order.
pub open spec fn shortcut_failure_texts(failures: Seq<(Seq<char>, Seq<char>)>) -> Seq<Seq<char>>
    decreases failures.len(),
{
    if failures.len() == 0 {
        Seq::empty()
    } else {
        shortcut_failure_texts(failures.drop_last()).push(shortcut_failure_text(failures.last()))
    }
}

/// The views of `(path, message)` pairs.
pub open spec fn pair_views(v: Seq<(String, String)>) -> Seq<(Seq<char>, Seq<char>)> {
    v.map_values(|p: (String, String)| (p.0@, p.1@))
}

/// The warnings of a separate-copy apply: the shortcut outcome (one warning
/// per file that could not be updated, or why none was added), then whether
/// the main executable was missed, then the reminder to restart Steam.
pub open spec fn separate_warnings(
    exe_found: bool,
    scan: ProfileScan,
    failures: Seq<(Seq<char>, Seq<char>)>,
) -> Seq<Seq<char>> {
    let shortcut_part = if adds_shortcuts(scan, exe_found) {
        shortcut_failure_texts(failures)
    } else {
        match scan {
            ProfileScan::Found(_) => seq!["No Steam user profiles found for the shortcut."@],
            ProfileScan::Missing(e) => seq!["Steam userdata not found: "@ + e@],
        }
    };
    let exe_part = if exe_found {
        Seq::<Seq<char>>::empty()
    } else {
        seq!["Main .exe not detected automatically."@]
    };
    shortcut_part + exe_part + seq!["Restart Steam after adding so the entry shows up."@]
}

fn failure_texts(failures: &Vec<(String, String)>) -> (r: Vec<String>)
    ensures
        string_views(r@) == shortcut_failure_texts(pair_views(failures@)),
{
    let mut out: Vec<String> = Vec::new();
    let mut i: usize = 0;
    while i < failures.len()
        invariant
            i <= failures@.len(),
            string_views(out@) == shortcut_failure_texts(pair_views(failures@).subrange(0, i as int)),
        decreases failures@.len() - i,
    {
        let mut w = String::from_str("shortcuts.vdf (");
        w.append(failures[i].0.as_str());
        w.append(") not updated: ");
        w.append(failures[i].1.as_str());
        let ghost prev = out@;
        out.push(w);
        proof {
            let sub = pair_views(failures@).subrange(0, i + 1);
            assert(sub.drop_last() =~= pair_views(failures@).subrange(0, i as int));
            assert(sub.last() == (failures@[i as int].0@, failures@[i as int].1@));
            assert(string_views(out@) =~= string_views(prev).push(w@));
        }
        i = i + 1;
    }
    assert(pair_views(failures@).subrange(0, failures@.len() as int) =~= pair_views(failures@));
    out
}

/// The result of a separate-copy apply: the frozen copy, the launch hint for
/// the main executable (if found), and the warnings. `failures` lists the
/// `shortcuts.vdf` files that could not be updated, with the reason.
pub fn separate_result(
    frozen: String,
    exe: Option<String>,
    scan: ProfileScan,
    failures: Vec<(String, String)>,
) -> (r: ApplyResult)
    ensures
        r.model == ApplyModel::SeparateCopyShortcut,
        r.backup_or_copy_path@ == frozen@,
        r.launch_hint@ == launch_hint_for(match exe {
            Some(e) => Some(e@),
            None => None,
        }),
        string_views(r.warnings@) == separate_warnings(exe.is_some(), scan, pair_views(failures@)),
{
    let exe_found = exe.is_some();
    let launch_hint = match &exe {
        Some(e) => {
            let mut h = String::from_str("Launch directly (leave Steam running in the background): ");
            h.append(e.as_str());
            h
        },
        None => String::from_str("Pick the main .exe in the frozen folder manually."),
    };
    let mut warnings: Vec<String> = Vec::new();
    let adds = match &scan {
        ProfileScan::Found(c) => c.len() > 0 && exe_found,
        ProfileScan::Missing(_) => false,
    };
    if adds {
        warnings = failure_texts(&failures);
    } else {
        match &scan {
            ProfileScan::Found(_) => {
                warnings.push(String::from_str("No Steam user profiles found for the shortcut."));
            },
            ProfileScan::Missing(e) => {
                let mut w = String::from_str("Steam userdata not found: ");
                w.append(e.as_str());
                warnings.push(w);
            },
        }
    }
    if !exe_found {
        warnings.push(String::from_str("Main .exe not detected automatically."));
    }
    warnings.push(String::from_str("Restart Steam after adding so the entry shows up."));
    assert(string_views(warnings@) =~= separate_warnings(exe_found, scan, pair_views(failures@)));
    ApplyResult {
        model: ApplyModel::SeparateCopyShortcut,
        backup_or_copy_path: frozen,
        launch_hint,
        warnings,
    }
}

// --- Preconditions and undo -----------------------------------------------------------

/// Applying needs the downloaded build: its folder must exist.
pub fn check_download_dir(downloaded_dir: &str, exists: bool) -> (r: Result<(), SteamError>)
    ensures
        exists ==> r is Ok,
        !exists ==> match r {
            Err(SteamError::Other(m)) => m@ == "download directory is missing: "@ + downloaded_dir@,
            _ => false,
        },
{
    if exists {
        Ok(())
    } else {
        let mut m = String::from_str("download directory is missing: ");
        m.append(downloaded_dir);
        Err(SteamError::Other(m))
    }
}

/// Undoing an in-place apply starts from its backup: there must be one, and
/// its name must lead back to the install folder, which is returned.
pub fn revert_target(backup: &str, backup_exists: bool) -> (r: Result<String, SteamError>)
    ensures
        !backup_exists ==> match r {
            Err(SteamError::Other(m)) => m@ == "no backup found, nothing to undo"@,
            _ => false,
        },
        backup_exists ==> match restored_of(backup@) {
            Some(d) => r matches Ok(q) && q@ == d,
            None => match r {
                Err(SteamError::Other(m)) => m@
                    == "could not derive the install folder from the backup path"@,
                _ => false,
            },
        },
{
    if !backup_exists {
        return Err(SteamError::Other(String::from_str("no backup found, nothing to undo")));
    }
    match install_dir_from_backup(backup) {
        Some(d) => Ok(d),
        None => Err(
            SteamError::Other(
                String::from_str("could not derive the install folder from the backup path"),
            ),
        ),
    }
}

// --- shortcuts.vdf edits ------------------------------------------------------------------

/// The start folder of a shortcut: the executable's folder, or empty.
pub open spec fn start_dir_of(exe: Seq<char>) -> Seq<char> {
    match parent_of(exe) {
        Some(p) => p,
        None => Seq::empty(),
    }
}

/// The entry added for `exe` under `name`: the executable and its folder, in quotes.
pub open spec fn new_shortcut(name: Seq<char>, exe: Seq<char>) -> (Seq<char>, Seq<char>, Seq<char>) {
    (name, quoted(exe), quoted(start_dir_of(exe)))
}

/// The list holds the entry that adding `exe` under `name` would write: this
/// name, and `exe` in quotes as the executable.
pub open spec fn has_shortcut(
    list: Seq<(Seq<char>, Seq<char>, Seq<char>)>,
    name: Seq<char>,
    exe: Seq<char>,
) -> bool {
    exists|k: int| 0 <= k < list.len() && (#[trigger] list[k]).1 == quoted(exe) && list[k].0 == name
}

/// The entries of an existing `shortcuts.vdf`: none when there is no file or
/// it does not parse.
pub open spec fn existing_shortcuts(existing: Option<Seq<u8>>) -> Seq<(Seq<char>, Seq<char>, Seq<char>)> {
    match existing {
        Some(b) => match parse_shortcuts_bytes(b) {
            Some(l) => l,
            None => Seq::empty(),
        },
        None => Seq::empty(),
    }
}

/// The list after adding the shortcut, or `None` where an entry with the same
/// name and executable is there already (duplicates are avoided).
pub open spec fn with_shortcut(
    list: Seq<(Seq<char>, Seq<char>, Seq<char>)>,
    name: Seq<char>,
    exe: Seq<char>,
) -> Option<Seq<(Seq<char>, Seq<char>, Seq<char>)>> {
    if has_shortcut(list, name, exe) {
        None
    } else {
        Some(list.push(new_shortcut(name, exe)))
    }
}

/// The view of optional file contents.
pub open spec fn bytes_view(existing: Option<&[u8]>) -> Option<Seq<u8>> {
    match existing {
        Some(b) => Some(b@),
        None => None,
    }
}

fn quote(s: &str) -> (r: String)
    ensures
        r@ == quoted(s@),
{
    let mut r = String::from_str("\"");
    r.append(s);
    r.append("\"");
    proof {
        reveal_strlit("\"");
    }
    assert(r@ =~= quoted(s@));
    r
}

/// Adds a non-Steam shortcut for `exe` named `name` to the contents of a
/// `shortcuts.vdf` (`None` when there is no such file yet; contents that do
/// not parse count as an empty list). Returns the bytes to write, or `None`
/// when the same shortcut is there already. Adding the same shortcut again
/// to the bytes it returned finds it there (for a name and path free of NUL
/// chars, which would end a string in this format).
pub fn add_shortcut(existing: Option<&[u8]>, name: &str, exe: &str) -> (r: Option<Vec<u8>>)
    ensures
        match with_shortcut(existing_shortcuts(bytes_view(existing)), name@, exe@) {
            Some(l) => r matches Some(b) && b@ == shortcuts_bytes(l),
            None => r is None,
        },
        match r {
            Some(b) => entry_nul_free(new_shortcut(name@, exe@)) ==> with_shortcut(
                existing_shortcuts(Some(b@)),
                name@,
                exe@,
            ) is None,
            None => true,
        },
{
    let mut list: Vec<Shortcut> = match existing {
        Some(b) => match parse_shortcuts(b) {
            Some(l) => l,
            None => Vec::new(),
        },
        None => Vec::new(),
    };
    let ghost base = views(list@);
    assert(base =~= existing_shortcuts(bytes_view(existing)));
    assert(forall|j: int| 0 <= j < base.len() ==> entry_nul_free(#[trigger] base[j]));
    let exe_s = quote(exe);
    let name_s = String::from_str(name);
    let mut k: usize = 0;
    while k < list.len()
        invariant
            k <= list@.len(),
            base == views(list@),
            base == existing_shortcuts(bytes_view(existing)),
            exe_s@ == quoted(exe@),
            name_s@ == name@,
            forall|j: int| 0 <= j < k ==> !((#[trigger] base[j]).1 == quoted(exe@) && base[j].0 == name@),
        decreases list@.len() - k,
    {
        if list[k].exe == exe_s && list[k].app_name == name_s {
            assert(base[k as int] == list@[k as int]@);
            return None;
        }
        assert(base[k as int] == list@[k as int]@);
        k = k + 1;
    }
    let start_dir = match parent(exe) {
        Some(p) => p,
        None => String::new(),
    };
    list.push(Shortcut { app_name: name_s, exe: exe_s, start_dir: quote(start_dir.as_str()) });
    assert(views(list@) =~= base.push(new_shortcut(name@, exe@)));
    proof {
        if entry_nul_free(new_shortcut(name@, exe@)) {
            lemma_add_twice(bytes_view(existing), name@, exe@);
        }
    }
    Some(serialize_shortcuts(list.as_slice()))
}

/// A shortcut's executable path without the quotes it is stored in.
pub open spec fn unquoted(e: Seq<char>) -> Seq<char> {
    if e.len() >= 2 && e[0] == '"' && e[e.len() - 1] == '"' {
        e.subrange(1, e.len() - 1)
    } else {
        e
    }
}

/// The shortcut's executable (quotes removed) lies in the folder `frozen`,
/// compared by whole path components.
pub open spec fn points_into(exe: Seq<char>, frozen: Seq<char>) -> bool {
    path_starts_with_of(unquoted(exe), frozen)
}

fn unquote(e: &str) -> (r: String)
    ensures
        r@ == unquoted(e@),
{
    let v = chars_of(e);
    if v.len() >= 2 && v[0] == '"' && v[v.len() - 1] == '"' {
        string_of_range(&v, 1, v.len() - 1)
    } else {
        String::from_str(e)
    }
}

/// The entries whose executable does not lie in `frozen`, in order.
pub open spec fn kept_shortcuts(list: Seq<(Seq<char>, Seq<char>, Seq<char>)>, frozen: Seq<char>) -> Seq<
    (Seq<char>, Seq<char>, Seq<char>),
>
    decreases list.len(),
{
    if list.len() == 0 {
        Seq::empty()
    } else {
        let prev = kept_shortcuts(list.drop_last(), frozen);
        if points_into(list.last().1, frozen) {
            prev
        } else {
            prev.push(list.last())
        }
    }
}

/// The entries left after removing those that point into `frozen`, or `None`
/// when the contents do not parse or no entry points there.
pub open spec fn after_removal(bytes: Seq<u8>, frozen: Seq<char>) -> Option<
    Seq<(Seq<char>, Seq<char>, Seq<char>)>,
> {
    match parse_shortcuts_bytes(bytes) {
        Some(l) => if kept_shortcuts(l, frozen).len() == l.len() {
            None
        } else {
            Some(kept_shortcuts(l, frozen))
        },
        None => None,
    }
}

/// Removes from the contents of a `shortcuts.vdf` every shortcut whose
/// executable lies in the folder `frozen`. Returns the bytes to write, or `None`
/// when there is nothing to change (the contents do not parse, or no
/// shortcut points there).
pub fn remove_shortcut(bytes: &[u8], frozen: &str) -> (r: Option<Vec<u8>>)
    ensures
        match after_removal(bytes@, frozen@) {
            Some(l) => r matches Some(b) && b@ == shortcuts_bytes(l),
            None => r is None,
        },
{
    let list = match parse_shortcuts(bytes) {
        Some(l) => l,
        None => return None,
    };
    let ghost all = views(list@);
    let mut kept: Vec<Shortcut> = Vec::new();
    let mut i: usize = 0;
    assert(all.subrange(0, 0) =~= Seq::<(Seq<char>, Seq<char>, Seq<char>)>::empty());
    while i < list.len()
        invariant
            i <= list@.len(),
            all == views(list@),
            views(kept@) == kept_shortcuts(all.subrange(0, i as int), frozen@),
        decreases list@.len() - i,
    {
        let e = &list[i];
        let ghost sub = all.subrange(0, i + 1);
        assert(sub.drop_last() =~= all.subrange(0, i as int));
        assert(sub.last() == e@);
        let ghost prev = views(kept@);
        let path = unquote(e.exe.as_str());
        if !starts_with_path(path.as_str(), frozen) {
            kept.push(
                Shortcut {
                    app_name: e.app_name.clone(),
                    exe: e.exe.clone(),
                    start_dir: e.start_dir.clone(),
                },
            );
            assert(views(kept@) =~= prev.push(e@));
        }
        i = i + 1;
    }
    assert(all.subrange(0, all.len() as int) =~= all);
    proof {
        lemma_kept_len(all, frozen@);
    }
    if kept.len() == list.len() {
        return None;
    }
    Some(serialize_shortcuts(kept.as_slice()))
}

proof fn lemma_kept_len(list: Seq<(Seq<char>, Seq<char>, Seq<char>)>, frozen: Seq<char>)
    ensures
        kept_shortcuts(list, frozen).len() <= list.len(),
    decreases list.len(),
{
    if list.len() > 0 {
        lemma_kept_len(list.drop_last(), frozen);
    }
}

/// Every entry kept by the removal comes from the list and does not point
/// into `frozen`; every entry of the list that does not point there is kept.
pub proof fn lemma_kept_shortcuts(list: Seq<(Seq<char>, Seq<char>, Seq<char>)>, frozen: Seq<char>)
    ensures
        forall|k: int|
            0 <= k < kept_shortcuts(list, frozen).len() ==> !points_into(
                (#[trigger] kept_shortcuts(list, frozen)[k]).1,
                frozen,
            ) && list.contains(kept_shortcuts(list, frozen)[k]),
        forall|k: int|
            0 <= k < list.len() && !points_into((#[trigger] list[k]).1, frozen)
                ==> kept_shortcuts(list, frozen).contains(list[k]),
    decreases list.len(),
{
    if list.len() > 0 {
        let prev = list.drop_last();
        lemma_kept_shortcuts(prev, frozen);
        let kp = kept_shortcuts(prev, frozen);
        let kl = kept_shortcuts(list, frozen);
        assert forall|k: int| 0 <= k < kl.len() implies !points_into((#[trigger] kl[k]).1, frozen)
            && list.contains(kl[k]) by {
            if k < kp.len() {
                assert(kl[k] == kp[k]);
                let j = choose|j: int| 0 <= j < prev.len() && prev[j] == kp[k];
                assert(list[j] == prev[j]);
            } else {
                assert(kl[k] == list.last());
                assert(list[list.len() - 1] == list.last());
            }
        }
        assert forall|k: int| 0 <= k < list.len() && !points_into((#[trigger] list[k]).1, frozen)
            implies kl.contains(list[k]) by {
            if k < list.len() - 1 {
                assert(prev[k] == list[k]);
                let j = choose|j: int| 0 <= j < kp.len() && kp[j] == prev[k];
                assert(kl[j] == kp[j]);
            } else {
                assert(kl[kl.len() - 1] == list.last());
            }
        }
    }
}

/// Undoing the separate copy takes out the shortcut that applying added: when
/// a shortcut for an executable inside `frozen` was added to a list, removing
/// the shortcuts that lie in `frozen` from the written file leaves exactly the
/// earlier entries that do not lie there. This needs the entries to be
/// free of NUL chars, which end a string in this format.
pub proof fn lemma_remove_after_add(
    existing: Option<Seq<u8>>,
    name: Seq<char>,
    exe: Seq<char>,
    frozen: Seq<char>,
)
    requires
        forall|k: int|
            0 <= k < existing_shortcuts(existing).len() ==> entry_nul_free(
                #[trigger] existing_shortcuts(existing)[k],
            ),
        entry_nul_free(new_shortcut(name, exe)),
        path_starts_with_of(exe, frozen),
        with_shortcut(existing_shortcuts(existing), name, exe) is Some,
    ensures
        after_removal(
            shortcuts_bytes(with_shortcut(existing_shortcuts(existing), name, exe).unwrap()),
            frozen,
        ) == Some(kept_shortcuts(existing_shortcuts(existing), frozen)),
{
    let l = existing_shortcuts(existing);
    let l2 = l.push(new_shortcut(name, exe));
    assert forall|k: int| 0 <= k < l2.len() implies entry_nul_free(#[trigger] l2[k]) by {
        if k < l.len() {
            assert(l2[k] == l[k]);
        }
    }
    lemma_shortcuts_roundtrip(l2);
    assert(l2.drop_last() =~= l);
    assert(unquoted(quoted(exe)) =~= exe);
    lemma_kept_len(l, frozen);
}

/// Duplicates are avoided: once a shortcut was added and the file written,
/// adding the same shortcut again finds it and leaves the file as it is.
/// This needs the entries to be free of NUL chars, which end a string in
/// this format; every entry read from a file is (see `parse_shortcuts`).
pub proof fn lemma_add_twice(existing: Option<Seq<u8>>, name: Seq<char>, exe: Seq<char>)
    requires
        forall|k: int|
            0 <= k < existing_shortcuts(existing).len() ==> entry_nul_free(
                #[trigger] existing_shortcuts(existing)[k],
            ),
        entry_nul_free(new_shortcut(name, exe)),
        with_shortcut(existing_shortcuts(existing), name, exe) is Some,
    ensures
        with_shortcut(
            existing_shortcuts(
                Some(shortcuts_bytes(with_shortcut(existing_shortcuts(existing), name, exe).unwrap())),
            ),
            name,
            exe,
        ) is None,
{
    let l = existing_shortcuts(existing);
    let l2 = l.push(new_shortcut(name, exe));
    assert forall|k: int| 0 <= k < l2.len() implies entry_nul_free(#[trigger] l2[k]) by {
        if k < l.len() {
            assert(l2[k] == l[k]);
        }
    }
    lemma_shortcuts_roundtrip(l2);
    assert(existing_shortcuts(Some(shortcuts_bytes(l2))) == l2);
    assert(l2[l2.len() - 1] == new_shortcut(name, exe));
    assert(has_shortcut(l2, name, exe));
}

// --- The main executable ------------------------------------------------------------

/// Names of helper programs that are never the main executable.
pub open spec fn helper_words() -> Seq<Seq<char>> {
    seq!["unins"@, "crashh"@, "vcredist"@, "dxsetup"@, "setup"@]
}

/// The lowercase file name of a path (empty when it has none).
pub open spec fn lower_file_name(p: Seq<char>) -> Seq<char> {
    lowercase_of(
        match file_name_of(p) {
            Some(n) => n,
            None => Seq::empty(),
        },
    )
}

/// The path's extension is `exe`, in any ASCII case.
pub open spec fn is_exe_path(p: Seq<char>) -> bool {
    match extension_of(p) {
        Some(e) => same_ignoring_ascii_case(e, "exe"@),
        None => false,
    }
}

/// The path's lowercase file name contains a helper program's name.
pub open spec fn is_helper_program(p: Seq<char>) -> bool {
    exists|w: int|
        0 <= w < helper_words().len() && contains_text(lower_file_name(p), #[trigger] helper_words()[w])
}

/// An executable that may be the main one.
pub open spec fn is_main_exe_candidate(p: Seq<char>) -> bool {
    is_exe_path(p) && !is_helper_program(p)
}

/// The first of the largest candidates among `(path, size)` entries, with its size.
pub open spec fn best_exe(entries: Seq<(Seq<char>, u64)>) -> Option<(u64, Seq<char>)>
    decreases entries.len(),
{
    if entries.len() == 0 {
        None
    } else {
        let prev = best_exe(entries.drop_last());
        let (p, size) = entries.last();
        if is_main_exe_candidate(p) && match prev {
            None => true,
            Some(b) => size > b.0,
        } {
            Some((size, p))
        } else {
            prev
        }
    }
}

/// The views of `(path, size)` entries.
pub open spec fn sized_views(v: Seq<(String, u64)>) -> Seq<(Seq<char>, u64)> {
    v.map_values(|e: (String, u64)| (e.0@, e.1))
}

fn is_helper_name(lower: &str) -> (r: bool)
    ensures
        r == exists|w: int| 0 <= w < helper_words().len() && contains_text(lower@, #[trigger] helper_words()[w]),
{
    let r = contains_str(lower, "unins") || contains_str(lower, "crashh") || contains_str(
        lower,
        "vcredist",
    ) || contains_str(lower, "dxsetup") || contains_str(lower, "setup");
    assert(helper_words()[0] == "unins"@);
    assert(helper_words()[1] == "crashh"@);
    assert(helper_words()[2] == "vcredist"@);
    assert(helper_words()[3] == "dxsetup"@);
    assert(helper_words()[4] == "setup"@);
    r
}

fn is_candidate(p: &str) -> (r: bool)
    ensures
        r == is_main_exe_candidate(p@),
{
    let is_exe = match extension(p) {
        Some(e) => {
            let exe_chars = chars_of("exe");
            key_is(&chars_of(e.as_str()), &exe_chars)
        },
        None => false,
    };
    if !is_exe {
        return false;
    }
    let name = match file_name(p) {
        Some(n) => n,
        None => String::new(),
    };
    let lower = to_lowercase(name.as_str());
    !is_helper_name(lower.as_str())
}

/// The path's extension is `exe` in any ASCII case (`exe`, `EXE`, `Exe`, ...),
/// written out char by char.
pub open spec fn has_exe_extension(p: Seq<char>) -> bool {
    match extension_of(p) {
        Some(e) => e.len() == 3 && (e[0] == 'e' || e[0] == 'E') && (e[1] == 'x' || e[1] == 'X')
            && (e[2] == 'e' || e[2] == 'E'),
        None => false,
    }
}

/// The path's lowercase file name holds none of the helper programs' names.
pub open spec fn no_helper_word(p: Seq<char>) -> bool {
    &&& !contains_text(lower_file_name(p), "unins"@)
    &&& !contains_text(lower_file_name(p), "crashh"@)
    &&& !contains_text(lower_file_name(p), "vcredist"@)
    &&& !contains_text(lower_file_name(p), "dxsetup"@)
    &&& !contains_text(lower_file_name(p), "setup"@)
}

proof fn lemma_exe_candidate(p: Seq<char>)
    ensures
        is_main_exe_candidate(p) <==> (has_exe_extension(p) && no_helper_word(p)),
{
    reveal_strlit("exe");
    if let Some(e) = extension_of(p) {
        let x = "exe"@;
        assert(x.len() == 3 && x[0] == 'e' && x[1] == 'x' && x[2] == 'e');
        if e.len() == 3 {
            assert forall|c: char| ascii_lower(c) == 'e' <==> (c == 'e' || c == 'E') by {
                if 'A' <= c && c <= 'Z' {
                    assert((c as u32) + 32 == 'e' as u32 <==> c as u32 == 'E' as u32);
                }
            }
            assert forall|c: char| ascii_lower(c) == 'x' <==> (c == 'x' || c == 'X') by {
                if 'A' <= c && c <= 'Z' {
                    assert((c as u32) + 32 == 'x' as u32 <==> c as u32 == 'X' as u32);
                }
            }
            assert(ascii_lower('e') == 'e' && ascii_lower('x') == 'x');
            if same_ignoring_ascii_case(e, x) {
                assert(ascii_lower(e[0]) == ascii_lower(x[0]));
                assert(ascii_lower(e[1]) == ascii_lower(x[1]));
                assert(ascii_lower(e[2]) == ascii_lower(x[2]));
            }
        }
    }
    assert(helper_words()[0] == "unins"@);
    assert(helper_words()[1] == "crashh"@);
    assert(helper_words()[2] == "vcredist"@);
    assert(helper_words()[3] == "dxsetup"@);
    assert(helper_words()[4] == "setup"@);
    if !no_helper_word(p) {
        if contains_text(lower_file_name(p), "unins"@) {
            assert(contains_text(lower_file_name(p), helper_words()[0]));
        } else if contains_text(lower_file_name(p), "crashh"@) {
            assert(contains_text(lower_file_name(p), helper_words()[1]));
        } else if contains_text(lower_file_name(p), "vcredist"@) {
            assert(contains_text(lower_file_name(p), helper_words()[2]));
        } else if contains_text(lower_file_name(p), "dxsetup"@) {
            assert(contains_text(lower_file_name(p), helper_words()[3]));
        } else {
            assert(contains_text(lower_file_name(p), helper_words()[4]));
        }
    }
}

/// The main executable picked: `None` exactly when no file is a candidate
/// (extension `exe` in any ASCII case, no helper name in its lowercase file
/// name); otherwise one of the entries, a candidate, at least as large as
/// every candidate and larger than every candidate listed before it.
pub proof fn lemma_best_exe(entries: Seq<(Seq<char>, u64)>)
    ensures
        best_exe(entries) is None <==> forall|j: int|
            0 <= j < entries.len() ==> !(has_exe_extension((#[trigger] entries[j]).0) && no_helper_word(
                entries[j].0,
            )),
        best_exe(entries) matches Some(b) ==> exists|i: int|
            {
                &&& 0 <= i < entries.len()
                &&& entries[i].0 == b.1
                &&& entries[i].1 == b.0
                &&& has_exe_extension(b.1) && no_helper_word(b.1)
                &&& forall|j: int|
                    0 <= j < entries.len() && has_exe_extension((#[trigger] entries[j]).0)
                        && no_helper_word(entries[j].0) ==> entries[j].1 <= b.0 && (j < i
                        ==> entries[j].1 < b.0)
            },
    decreases entries.len(),
{
    if entries.len() > 0 {
        let rest = entries.drop_last();
        lemma_best_exe(rest);
        let n = entries.len() - 1;
        assert forall|j: int| 0 <= j < rest.len() implies #[trigger] rest[j] == entries[j] by {}
        assert forall|j: int| 0 <= j < entries.len() implies is_main_exe_candidate(
            (#[trigger] entries[j]).0,
        ) == (has_exe_extension(entries[j].0) && no_helper_word(entries[j].0)) by {
            lemma_exe_candidate(entries[j].0);
        }
        let prev = best_exe(rest);
        let (pn, sn) = entries[n];
        assert(entries.last() == (pn, sn));
        let cn = has_exe_extension(pn) && no_helper_word(pn);
        match prev {
            None => {
                if cn {
                    assert(best_exe(entries) == Some((sn, pn)));
                    assert forall|j: int|
                        0 <= j < entries.len() && has_exe_extension((#[trigger] entries[j]).0)
                            && no_helper_word(entries[j].0) implies entries[j].1 <= sn && (j < n
                        ==> entries[j].1 < sn) by {
                        if j < n {
                            assert(rest[j] == entries[j]);
                        }
                    }
                    assert(entries[n].0 == pn && entries[n].1 == sn);
                } else {
                    assert(best_exe(entries) is None);
                    assert forall|j: int| 0 <= j < entries.len() implies !(has_exe_extension(
                        (#[trigger] entries[j]).0,
                    ) && no_helper_word(entries[j].0)) by {
                        if j < n {
                            assert(rest[j] == entries[j]);
                        }
                    }
                }
            },
            Some(b) => {
                let i = choose|i: int|
                    {
                        &&& 0 <= i < rest.len()
                        &&& rest[i].0 == b.1
                        &&& rest[i].1 == b.0
                        &&& has_exe_extension(b.1) && no_helper_word(b.1)
                        &&& forall|j: int|
                            0 <= j < rest.len() && has_exe_extension((#[trigger] rest[j]).0)
                                && no_helper_word(rest[j].0) ==> rest[j].1 <= b.0 && (j < i
                                ==> rest[j].1 < b.0)
                    };
                assert(entries[i] == rest[i]);
                if cn && sn > b.0 {
                    assert(best_exe(entries) == Some((sn, pn)));
                    assert forall|j: int|
                        0 <= j < entries.len() && has_exe_extension((#[trigger] entries[j]).0)
                            && no_helper_word(entries[j].0) implies entries[j].1 <= sn && (j < n
                        ==> entries[j].1 < sn) by {
                        if j < n {
                            assert(rest[j] == entries[j]);
                        }
                    }
                    assert(entries[n].0 == pn && entries[n].1 == sn);
                } else {
                    assert(best_exe(entries) == Some(b));
                    assert forall|j: int|
                        0 <= j < entries.len() && has_exe_extension((#[trigger] entries[j]).0)
                            && no_helper_word(entries[j].0) implies entries[j].1 <= b.0 && (j < i
                        ==> entries[j].1 < b.0) by {
                        if j < n {
                            assert(rest[j] == entries[j]);
                        }
                    }
                }
            },
        }
    }
}

/// Picks the main executable among the files of a build, given as
/// `(path, size)`: the largest file with the extension `exe` (any case) whose
/// lowercase name holds none of the helper names; of equal sizes the first.
pub fn pick_main_exe(entries: &Vec<(String, u64)>) -> (r: Option<String>)
    ensures
        match best_exe(sized_views(entries@)) {
            Some(b) => r matches Some(p) && p@ == b.1,
            None => r is None,
        },
{
    let ghost ev = sized_views(entries@);
    let mut best: Option<(u64, String)> = None;
    let mut i: usize = 0;
    assert(ev.subrange(0, 0) =~= Seq::<(Seq<char>, u64)>::empty());
    while i < entries.len()
        invariant
            i <= entries@.len(),
            ev == sized_views(entries@),
            match best_exe(ev.subrange(0, i as int)) {
                Some(b) => best matches Some(x) && x.0 == b.0 && x.1@ == b.1,
                None => best is None,
            },
        decreases entries@.len() - i,
    {
        let ghost sub = ev.subrange(0, i + 1);
        assert(sub.drop_last() =~= ev.subrange(0, i as int));
        assert(sub.last() == (entries@[i as int].0@, entries@[i as int].1));
        let size = entries[i].1;
        if is_candidate(entries[i].0.as_str()) {
            let better = match &best {
                None => true,
                Some(b) => size > b.0,
            };
            if better {
                best = Some((size, entries[i].0.clone()));
            }
        }
        i = i + 1;
    }
    assert(ev.subrange(0, ev.len() as int) =~= ev);
    match best {
        Some((_, p)) => Some(p),
        None => None,
    }
}

// --- Installed games ---------------------------------------------------------------

/// An unsigned field of an app manifest, if present and a valid number.
pub open spec fn u64_field(text: Seq<char>, key: Seq<char>) -> Option<u64> {
    match kv_value(text, key) {
        Some(v) => match parse_unsigned(v, u64::MAX as nat) {
            Some(x) => Some(x as u64),
            None => None,
        },
        None => None,
    }
}

/// A signed field of an app manifest, if present and a valid number.
pub open spec fn i64_field(text: Seq<char>, key: Seq<char>) -> Option<i64> {
    match kv_value(text, key) {
        Some(v) => match parse_signed_i64(v) {
            Some(x) => Some(x as i64),
            None => None,
        },
        None => None,
    }
}

/// The app id of an app manifest (0 when missing or not a valid `u32`).
pub open spec fn app_id_of(text: Seq<char>) -> u32 {
    match kv_value(text, "appid"@) {
        Some(v) => match parse_unsigned(v, u32::MAX as nat) {
            Some(x) => x as u32,
            None => 0,
        },
        None => 0,
    }
}

/// The display name: the manifest's `name`, else `App <id>`.
pub open spec fn game_name_of(text: Seq<char>, app_id: u32) -> Seq<char> {
    match kv_value(text, "name"@) {
        Some(n) => n,
        None => "App "@ + decimal(app_id as nat),
    }
}

/// `g` is the game that the app manifest `text` in `steamapps` describes.
pub open spec fn describes(g: InstalledGame, steamapps: Seq<char>, text: Seq<char>) -> bool {
    &&& g.app_id == app_id_of(text)
    &&& g.name@ == game_name_of(text, g.app_id)
    &&& g.install_dir@ == install_dir_named(
        steamapps,
        match kv_value(text, "installdir"@) {
            Some(v) => v,
            None => Seq::empty(),
        },
    )
    &&& g.build_id == u64_field(text, "buildid"@)
    &&& g.size_bytes == u64_field(text, "SizeOnDisk"@)
    &&& g.last_updated == i64_field(text, "LastUpdated"@)
}

fn u64_value(text: &str, key: &str) -> (r: Option<u64>)
    ensures
        r == u64_field(text@, key@),
{
    match extract_kv_value(text, key) {
        Some(v) => parse_u64(v.as_str()),
        None => None,
    }
}

/// The game an app manifest in `steamapps` describes.
pub fn installed_game(steamapps: &str, text: &str) -> (g: InstalledGame)
    ensures
        describes(g, steamapps@, text@),
{
    let app_id: u32 = match extract_kv_value(text, "appid") {
        Some(v) => match parse_u32(v.as_str()) {
            Some(x) => x,
            None => 0,
        },
        None => 0,
    };
    let installdir = match extract_kv_value(text, "installdir") {
        Some(v) => v,
        None => String::new(),
    };
    let name = match extract_kv_value(text, "name") {
        Some(n) => n,
        None => {
            let mut s = String::from_str("App ");
            let digits = string_of(&decimal_string(app_id as u64));
            s.append(digits.as_str());
            s
        },
    };
    let last_updated = match extract_kv_value(text, "LastUpdated") {
        Some(v) => parse_i64(v.as_str()),
        None => None,
    };
    InstalledGame {
        app_id,
        name,
        install_dir: common_dir(steamapps, installdir.as_str()),
        build_id: u64_value(text, "buildid"),
        size_bytes: u64_value(text, "SizeOnDisk"),
        last_updated,
    }
}

/// The positions of the app manifests that are listed: those with a
/// non-zero app id that no earlier listed manifest has.
pub open spec fn listed_positions(found: Seq<(Seq<char>, Seq<char>)>) -> Seq<int>
    decreases found.len(),
{
    if found.len() == 0 {
        Seq::empty()
    } else {
        let prev = listed_positions(found.drop_last());
        let id = app_id_of(found.last().1);
        if id == 0 || exists|k: int|
            0 <= k < prev.len() && app_id_of(found[#[trigger] prev[k]].1) == id {
            prev
        } else {
            prev.push(found.len() - 1)
        }
    }
}

proof fn lemma_listed_positions(found: Seq<(Seq<char>, Seq<char>)>)
    ensures
        forall|k: int|
            0 <= k < listed_positions(found).len() ==> 0 <= #[trigger] listed_positions(found)[k]
                < found.len(),
    decreases found.len(),
{
    if found.len() > 0 {
        let prev = listed_positions(found.drop_last());
        lemma_listed_positions(found.drop_last());
        let l = listed_positions(found);
        assert(l == prev || l == prev.push(found.len() - 1));
        assert forall|k: int| 0 <= k < l.len() implies 0 <= #[trigger] l[k] < found.len() by {
            if k < prev.len() {
                assert(l[k] == prev[k]);
            }
        }
    }
}

proof fn lemma_listed_ids(found: Seq<(Seq<char>, Seq<char>)>)
    ensures
        forall|k: int|
            0 <= k < listed_positions(found).len() ==> app_id_of(
                found[#[trigger] listed_positions(found)[k]].1,
            ) != 0,
        forall|k: int, l: int|
            0 <= k < l < listed_positions(found).len() ==> app_id_of(
                found[#[trigger] listed_positions(found)[k]].1,
            ) != app_id_of(found[#[trigger] listed_positions(found)[l]].1),
    decreases found.len(),
{
    if found.len() > 0 {
        let u = found.drop_last();
        let prev = listed_positions(u);
        lemma_listed_ids(u);
        lemma_listed_positions(u);
        let l = listed_positions(found);
        assert forall|k: int| 0 <= k < prev.len() implies #[trigger] found[prev[k]] == u[prev[k]] by {}
        assert forall|k: int| 0 <= k < l.len() implies app_id_of(found[#[trigger] l[k]].1) != 0 by {
            if k < prev.len() {
                assert(l[k] == prev[k]);
            }
        }
        assert forall|k: int, m: int| 0 <= k < m < l.len() implies app_id_of(found[#[trigger] l[k]].1)
            != app_id_of(found[#[trigger] l[m]].1) by {
            if m < prev.len() {
                assert(l[k] == prev[k] && l[m] == prev[m]);
            } else {
                assert(l[k] == prev[k]);
                assert(l[m] == found.len() - 1);
            }
        }
    }
}

/// Every listed game has a non-zero app id, and no two share one.
pub proof fn lemma_installed_ids_unique(out: Seq<InstalledGame>, found: Seq<(Seq<char>, Seq<char>)>)
    requires
        installed_list(out, found),
    ensures
        forall|k: int| 0 <= k < out.len() ==> (#[trigger] out[k]).app_id != 0,
        forall|k: int, l: int| 0 <= k < l < out.len() ==> (#[trigger] out[k]).app_id != (#[trigger] out[l]).app_id,
{
    let pos = listed_positions(found);
    let perm = choose|perm: Seq<usize>|
        {
            &&& stable_asc(name_keys(found), perm)
            &&& out.len() == pos.len()
            &&& forall|k: int|
                0 <= k < out.len() ==> describes(
                    #[trigger] out[k],
                    found[pos[perm[k] as int]].0,
                    found[pos[perm[k] as int]].1,
                )
        };
    lemma_listed_ids(found);
    crate::order::lemma_stable_asc_distinct(name_keys(found), perm);
    assert forall|k: int| 0 <= k < out.len() implies (#[trigger] out[k]).app_id != 0 by {
        assert(describes(out[k], found[pos[perm[k] as int]].0, found[pos[perm[k] as int]].1));
    }
    assert forall|k: int, l: int| 0 <= k < l < out.len() implies (#[trigger] out[k]).app_id != (
    #[trigger] out[l]).app_id by {
        assert(describes(out[k], found[pos[perm[k] as int]].0, found[pos[perm[k] as int]].1));
        assert(describes(out[l], found[pos[perm[l] as int]].0, found[pos[perm[l] as int]].1));
        assert(perm[k] != perm[l]);
    }
}

/// The installed-games list is in order of lowercase display name: of any
/// two games, the earlier one's lowercase name comes first (or equal) in
/// char order, so names differing only in case sort together. Equal
/// lowercase names keep the order in which their manifests were found.
pub proof fn lemma_installed_sorted(out: Seq<InstalledGame>, found: Seq<(Seq<char>, Seq<char>)>)
    requires
        installed_list(out, found),
    ensures
        forall|k: int, l: int|
            0 <= k < l < out.len() ==> text_le(
                lowercase_of((#[trigger] out[k]).name@),
                lowercase_of((#[trigger] out[l]).name@),
            ),
{
    let pos = listed_positions(found);
    let perm = choose|perm: Seq<usize>|
        {
            &&& stable_asc(name_keys(found), perm)
            &&& out.len() == pos.len()
            &&& forall|k: int|
                0 <= k < out.len() ==> describes(
                    #[trigger] out[k],
                    found[pos[perm[k] as int]].0,
                    found[pos[perm[k] as int]].1,
                )
        };
    let keys = name_keys(found);
    assert forall|k: int, l: int| 0 <= k < l < out.len() implies text_le(
        lowercase_of((#[trigger] out[k]).name@),
        lowercase_of((#[trigger] out[l]).name@),
    ) by {
        assert(describes(out[k], found[pos[perm[k] as int]].0, found[pos[perm[k] as int]].1));
        assert(describes(out[l], found[pos[perm[l] as int]].0, found[pos[perm[l] as int]].1));
        assert(crate::order::key_le(keys[perm[k] as int], keys[perm[l] as int]));
        assert(keys[perm[k] as int] == name_key(found, pos[perm[k] as int]));
        assert(keys[perm[l] as int] == name_key(found, pos[perm[l] as int]));
    }
}

/// Each listed position is the first manifest of its app id, and every
/// manifest with a non-zero app id has its id listed.
proof fn lemma_listed_first(found: Seq<(Seq<char>, Seq<char>)>)
    ensures
        forall|t: int, i: int|
            0 <= t < listed_positions(found).len() && 0 <= i < #[trigger] listed_positions(found)[t]
                ==> app_id_of(#[trigger] found[i].1) != app_id_of(found[listed_positions(found)[t]].1),
        forall|i: int|
            0 <= i < found.len() && app_id_of(#[trigger] found[i].1) != 0 ==> exists|t: int|
                0 <= t < listed_positions(found).len() && app_id_of(
                    found[#[trigger] listed_positions(found)[t]].1,
                ) == app_id_of(found[i].1),
    decreases found.len(),
{
    lemma_listed_positions(found);
    if found.len() > 0 {
        let u = found.drop_last();
        let prev = listed_positions(u);
        let l = listed_positions(found);
        let n = found.len() - 1;
        lemma_listed_first(u);
        lemma_listed_positions(u);
        assert forall|x: int| 0 <= x < n implies #[trigger] found[x] == u[x] by {}
        let id = app_id_of(found[n].1);
        let pushed = !(id == 0 || exists|k: int|
            0 <= k < prev.len() && app_id_of(found[#[trigger] prev[k]].1) == id);
        if pushed {
            assert(l == prev.push(n));
        } else {
            assert(l == prev);
        }
        assert forall|t: int, i: int|
            0 <= t < l.len() && 0 <= i < #[trigger] l[t] implies app_id_of(#[trigger] found[i].1)
            != app_id_of(found[l[t]].1) by {
            if t < prev.len() {
                assert(l[t] == prev[t]);
                assert(found[i] == u[i]);
                assert(found[prev[t]] == u[prev[t]]);
            } else {
                assert(l[t] == n);
                assert(found[i] == u[i]);
                if app_id_of(u[i].1) == id {
                    let t2 = choose|t2: int|
                        0 <= t2 < prev.len() && app_id_of(u[#[trigger] prev[t2]].1) == app_id_of(u[i].1);
                    assert(found[prev[t2]] == u[prev[t2]]);
                }
            }
        }
        assert forall|i: int| 0 <= i < found.len() && app_id_of(#[trigger] found[i].1) != 0 implies exists|
            t: int,
        | 0 <= t < l.len() && app_id_of(found[#[trigger] l[t]].1) == app_id_of(found[i].1) by {
            if i < n {
                assert(found[i] == u[i]);
                let t = choose|t: int|
                    0 <= t < prev.len() && app_id_of(u[#[trigger] prev[t]].1) == app_id_of(u[i].1);
                assert(l[t] == prev[t]);
                assert(found[prev[t]] == u[prev[t]]);
            } else if pushed {
                assert(l[prev.len() as int] == n);
            } else {
                let k = choose|k: int| 0 <= k < prev.len() && app_id_of(found[#[trigger] prev[k]].1) == id;
                assert(l[k] == prev[k]);
            }
        }
    }
}

/// Nothing installed is lost and each game is read from the right manifest:
/// every app manifest with a non-zero app id has a game of that id in the
/// list, and each listed game is the one described by the first manifest
/// found with its app id.
pub proof fn lemma_installed_complete(out: Seq<InstalledGame>, found: Seq<(Seq<char>, Seq<char>)>)
    requires
        installed_list(out, found),
    ensures
        forall|i: int|
            0 <= i < found.len() && app_id_of(#[trigger] found[i].1) != 0 ==> exists|k: int|
                0 <= k < out.len() && (#[trigger] out[k]).app_id == app_id_of(found[i].1),
        forall|k: int|
            0 <= k < out.len() ==> exists|i: int|
                {
                    &&& 0 <= i < found.len()
                    &&& describes(#[trigger] out[k], found[i].0, found[i].1)
                    &&& forall|j: int| 0 <= j < i ==> app_id_of(#[trigger] found[j].1) != out[k].app_id
                },
{
    let pos = listed_positions(found);
    let perm = choose|perm: Seq<usize>|
        {
            &&& stable_asc(name_keys(found), perm)
            &&& out.len() == pos.len()
            &&& forall|k: int|
                0 <= k < out.len() ==> describes(
                    #[trigger] out[k],
                    found[pos[perm[k] as int]].0,
                    found[pos[perm[k] as int]].1,
                )
        };
    crate::order::lemma_stable_asc_distinct(name_keys(found), perm);
    assert forall|i: int| 0 <= i < found.len() && app_id_of(#[trigger] found[i].1) != 0 implies exists|
        k: int,
    | 0 <= k < out.len() && (#[trigger] out[k]).app_id == app_id_of(found[i].1) by {
        lemma_listed_first(found);
        let t = choose|t: int| 0 <= t < pos.len() && app_id_of(found[#[trigger] pos[t]].1) == app_id_of(found[i].1);
        assert(name_keys(found).len() == pos.len());
        assert(forall|a: int| 0 <= a < pos.len() ==> #[trigger] perm[a] < pos.len());
        crate::order::lemma_perm_covers(perm, pos.len() as int);
        assert(crate::order::lists(perm, t));
        let k = choose|k: int| 0 <= k < perm.len() && perm[k] as int == t;
        assert(perm[k] as int == t);
        assert(describes(out[k], found[pos[perm[k] as int]].0, found[pos[perm[k] as int]].1));
        assert(out[k].app_id == app_id_of(found[pos[t]].1));
    }
    assert forall|k: int| 0 <= k < out.len() implies exists|i: int|
        {
            &&& 0 <= i < found.len()
            &&& describes(#[trigger] out[k], found[i].0, found[i].1)
            &&& forall|j: int| 0 <= j < i ==> app_id_of(#[trigger] found[j].1) != out[k].app_id
        } by {
        lemma_listed_positions(found);
        lemma_listed_first(found);
        let t = perm[k] as int;
        let i = pos[t];
        assert(describes(out[k], found[i].0, found[i].1));
        assert forall|j: int| 0 <= j < i implies app_id_of(#[trigger] found[j].1) != out[k].app_id by {
            assert(0 <= j < pos[t]);
        }
    }
}

/// The sort key of a listed manifest: its display name in lowercase.
pub open spec fn name_key(found: Seq<(Seq<char>, Seq<char>)>, pos: int) -> Option<Seq<char>> {
    Some(lowercase_of(game_name_of(found[pos].1, app_id_of(found[pos].1))))
}

/// The sort keys of the listed manifests.
pub open spec fn name_keys(found: Seq<(Seq<char>, Seq<char>)>) -> Seq<Option<Seq<char>>> {
    listed_positions(found).map_values(|pos: int| name_key(found, pos))
}

/// The views of `(steamapps, manifest text)` pairs.
pub open spec fn found_views(v: Seq<(String, String)>) -> Seq<(Seq<char>, Seq<char>)> {
    v.map_values(|e: (String, String)| (e.0@, e.1@))
}

/// `out` lists the games of the listed manifests, sorted by lowercase name
/// (games of the same name keep the order in which they were found).
pub open spec fn installed_list(out: Seq<InstalledGame>, found: Seq<(Seq<char>, Seq<char>)>) -> bool {
    let pos = listed_positions(found);
    exists|perm: Seq<usize>|
        {
            &&& stable_asc(name_keys(found), perm)
            &&& out.len() == pos.len()
            &&& forall|k: int|
                0 <= k < out.len() ==> describes(
                    #[trigger] out[k],
                    found[pos[perm[k] as int]].0,
                    found[pos[perm[k] as int]].1,
                )
        }
}

fn copy_game(g: &InstalledGame) -> (r: InstalledGame)
    ensures
        r.app_id == g.app_id,
        r.name@ == g.name@,
        r.install_dir@ == g.install_dir@,
        r.build_id == g.build_id,
        r.size_bytes == g.size_bytes,
        r.last_updated == g.last_updated,
{
    InstalledGame {
        app_id: g.app_id,
        name: g.name.clone(),
        install_dir: g.install_dir.clone(),
        build_id: g.build_id,
        size_bytes: g.size_bytes,
        last_updated: g.last_updated,
    }
}

/// The installed games from the app manifests found, given as `(steamapps
/// folder, manifest text)` in the order they were read: manifests without a
/// valid non-zero app id are skipped, as is every manifest of an app id seen
/// before; the list is sorted by lowercase name.
pub fn installed_games(found: &Vec<(String, String)>) -> (r: Vec<InstalledGame>)
    ensures
        installed_list(r@, found_views(found@)),
{
    let ghost fv = found_views(found@);
    let mut games: Vec<InstalledGame> = Vec::new();
    let mut keys: Vec<Option<Vec<char>>> = Vec::new();
    let mut i: usize = 0;
    assert(fv.subrange(0, 0) =~= Seq::<(Seq<char>, Seq<char>)>::empty());
    while i < found.len()
        invariant
            i <= found@.len(),
            fv == found_views(found@),
            games@.len() == listed_positions(fv.subrange(0, i as int)).len(),
            keys@.len() == games@.len(),
            forall|j: int|
                0 <= j < games@.len() ==> 0 <= #[trigger] listed_positions(fv.subrange(0, i as int))[j] < i,
            forall|j: int|
                0 <= j < games@.len() ==> describes(
                    #[trigger] games@[j],
                    fv[listed_positions(fv.subrange(0, i as int))[j]].0,
                    fv[listed_positions(fv.subrange(0, i as int))[j]].1,
                ),
            key_views(keys@) == name_keys(fv.subrange(0, i as int)),
        decreases found@.len() - i,
    {
        let ghost sub = fv.subrange(0, i as int);
        let ghost sub1 = fv.subrange(0, i + 1);
        assert(sub1.drop_last() =~= sub);
        assert(sub1.last() == fv[i as int]);
        proof {
            lemma_listed_positions(sub);
            lemma_listed_positions(sub1);
        }
        let g = installed_game(found[i].0.as_str(), found[i].1.as_str());
        let mut seen = false;
        let mut k: usize = 0;
        while k < games.len()
            invariant
                k <= games@.len(),
                !seen ==> forall|j: int| 0 <= j < k ==> (#[trigger] games@[j]).app_id != g.app_id,
                seen ==> exists|j: int| 0 <= j < games@.len() && (#[trigger] games@[j]).app_id == g.app_id,
            decreases games@.len() - k,
        {
            if games[k].app_id == g.app_id {
                seen = true;
            }
            k = k + 1;
        }
        let ghost prev_pos = listed_positions(sub);
        assert(forall|j: int| 0 <= j < prev_pos.len() ==> #[trigger] sub1[prev_pos[j]] == fv[prev_pos[j]]);
        assert(forall|j: int| 0 <= j < prev_pos.len() ==> #[trigger] sub[prev_pos[j]] == fv[prev_pos[j]]);
        if g.app_id != 0 && !seen {
            let lower = to_lowercase(g.name.as_str());
            keys.push(Some(chars_of(lower.as_str())));
            games.push(g);
            proof {
                assert(!(exists|k: int|
                    0 <= k < prev_pos.len() && app_id_of(sub1[#[trigger] prev_pos[k]].1) == app_id_of(
                        sub1.last().1,
                    ))) by {
                    assert forall|k: int| 0 <= k < prev_pos.len() implies !(app_id_of(
                        sub1[#[trigger] prev_pos[k]].1,
                    ) == app_id_of(sub1.last().1)) by {
                        assert(games@[k].app_id != g.app_id);
                    }
                }
                assert(listed_positions(sub1) == prev_pos.push(i as int));
                assert(name_keys(sub1) =~= name_keys(sub).push(name_key(sub1, i as int)));
                assert forall|j: int| 0 <= j < prev_pos.len() implies name_key(sub, #[trigger] prev_pos[j])
                    == name_key(sub1, prev_pos[j]) by {
                }
                assert(name_keys(sub1) =~= name_keys(sub).push(name_key(sub1, i as int)));
                assert(key_views(keys@) =~= name_keys(sub1));
            }
        } else {
            proof {
                if g.app_id != 0 {
                    let j = choose|j: int| 0 <= j < games@.len() && (#[trigger] games@[j]).app_id == g.app_id;
                    assert(app_id_of(sub1[prev_pos[j]].1) == app_id_of(sub1.last().1));
                }
                assert(listed_positions(sub1) == prev_pos);
                assert(name_keys(sub1) =~= name_keys(sub));
            }
        }
        i = i + 1;
    }
    assert(fv.subrange(0, fv.len() as int) =~= fv);
    let perm = order_asc_stable(&keys);
    let mut out: Vec<InstalledGame> = Vec::new();
    let mut k: usize = 0;
    while k < perm.len()
        invariant
            k <= perm@.len(),
            stable_asc(key_views(keys@), perm@),
            keys@.len() == games@.len(),
            out@.len() == k,
            forall|j: int|
                0 <= j < k ==> describes(
                    #[trigger] out@[j],
                    fv[listed_positions(fv)[perm@[j] as int]].0,
                    fv[listed_positions(fv)[perm@[j] as int]].1,
                ),
            forall|j: int|
                0 <= j < games@.len() ==> describes(
                    #[trigger] games@[j],
                    fv[listed_positions(fv)[j]].0,
                    fv[listed_positions(fv)[j]].1,
                ),
        decreases perm@.len() - k,
    {
        let g = copy_game(&games[perm[k]]);
        out.push(g);
        k = k + 1;
    }
    assert(stable_asc(name_keys(fv), perm@));
    out
}

// --- Depot caches -------------------------------------------------------------------

/// The `depotcache` folder of a Steam library.
pub open spec fn library_depotcache(library: Seq<char>) -> Seq<char> {
    joined_path_of(joined_path_of(library, "steamapps"@), "depotcache"@)
}

/// Where Steam keeps depot manifests: `depotcache` and `config/depotcache`
/// in the Steam folder, then `steamapps/depotcache` of every library (whether
/// they exist is for the caller to check).
pub fn depotcache_candidates(root: &str, libraries: &Vec<String>) -> (r: Vec<String>)
    ensures
        string_views(r@) == seq![
            joined_path_of(root@, "depotcache"@),
            joined_path_of(joined_path_of(root@, "config"@), "depotcache"@),
        ] + string_views(libraries@).map_values(|l: Seq<char>| library_depotcache(l)),
{
    let mut out: Vec<String> = Vec::new();
    out.push(join(root, "depotcache"));
    let config = join(root, "config");
    out.push(join(config.as_str(), "depotcache"));
    let ghost head = string_views(out@);
    let mut i: usize = 0;
    while i < libraries.len()
        invariant
            i <= libraries@.len(),
            head == seq![
                joined_path_of(root@, "depotcache"@),
                joined_path_of(joined_path_of(root@, "config"@), "depotcache"@),
            ],
            string_views(out@) == head + string_views(libraries@).subrange(0, i as int).map_values(
                |l: Seq<char>| library_depotcache(l),
            ),
        decreases libraries@.len() - i,
    {
        let steamapps = join(libraries[i].as_str(), "steamapps");
        let d = join(steamapps.as_str(), "depotcache");
        let ghost prev = string_views(out@);
        out.push(d);
        assert(string_views(out@) =~= prev.push(d@));
        assert(string_views(libraries@)[i as int] == libraries@[i as int]@);
        i = i + 1;
        assert(string_views(out@) =~= head + string_views(libraries@).subrange(0, i as int).map_values(
            |l: Seq<char>| library_depotcache(l),
        ));
    }
    assert(string_views(libraries@).subrange(0, libraries@.len() as int) =~= string_views(libraries@));
    out
}

} // verus!
