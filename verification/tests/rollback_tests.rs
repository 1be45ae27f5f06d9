use steam_downgrader::rollback::{add, remove, set_applied, store_file, AppliedInfo, RollbackDepot, RollbackEntry};
use steam_downgrader::settings::{opt_in_enabled, set_opt_in, view, Settings, CONSENT_VERSION};

fn entry(id: &str, dir: &str) -> RollbackEntry {
    RollbackEntry {
        id: id.into(),
        app_id: 1,
        game_name: "G".into(),
        target_label: "before X".into(),
        target_date: "2024-01-01".into(),
        depots: vec![RollbackDepot { depot_id: 2, manifest_id: "3".into() }],
        download_dir: dir.into(),
        bytes: 10,
        downloaded_at: 5,
        applied: None,
    }
}

fn ids(list: &[RollbackEntry]) -> Vec<&str> {
    list.iter().map(|e| e.id.as_str()).collect()
}

#[test]
fn add_puts_newest_first_and_replaces_same_id() {
    let list = add(Vec::new(), entry("a", "/a"));
    let list = add(list, entry("b", "/b"));
    assert_eq!(ids(&list), vec!["b", "a"]);
    let list = add(list, entry("a", "/a2"));
    assert_eq!(ids(&list), vec!["a", "b"]);
    assert_eq!(list[0].download_dir, "/a2");
}

#[test]
fn remove_drops_the_entry_and_names_its_folder() {
    let list = vec![entry("a", "/a"), entry("b", "/b")];
    let (left, dir) = remove(list.clone(), "a", true);
    assert_eq!(ids(&left), vec!["b"]);
    assert_eq!(dir, Some("/a".to_string()));
    let (left, dir) = remove(list.clone(), "a", false);
    assert_eq!(ids(&left), vec!["b"]);
    assert_eq!(dir, None);
    let (left, dir) = remove(list, "zzz", true);
    assert_eq!(ids(&left), vec!["a", "b"]);
    assert_eq!(dir, None);
}

#[test]
fn remove_after_add_restores_the_list() {
    let list = vec![entry("a", "/a"), entry("b", "/b")];
    let (left, _) = remove(add(list, entry("c", "/c")), "c", false);
    assert_eq!(ids(&left), vec!["a", "b"]);
}

#[test]
fn set_applied_marks_only_that_entry() {
    let list = vec![entry("a", "/a"), entry("b", "/b")];
    let info = AppliedInfo { model: "InPlaceFreeze".into(), path: "/p".into(), at: 9 };
    let list = set_applied(list, "b", Some(info));
    assert!(list[0].applied.is_none());
    assert_eq!(list[1].applied.as_ref().map(|a| a.at), Some(9));
    let list = set_applied(list, "b", None);
    assert!(list[1].applied.is_none());
    let list = set_applied(list, "missing", None);
    assert_eq!(ids(&list), vec!["a", "b"]);
}

#[test]
fn rollback_store_file() {
    assert_eq!(store_file(Some("/appdata")), "/appdata/steam-downgrader/rollbacks.json");
    assert_eq!(steam_downgrader::settings::store_file(None), "./steam-downgrader/settings.json");
}

#[test]
fn consent_is_asked_until_given_for_this_version() {
    let s = Settings::default();
    assert_eq!(s.archive_opt_in, None);
    let v = view(&s);
    assert!(v.needs_consent);
    assert_eq!(v.consent_version, CONSENT_VERSION);
    let mut s = s;
    let v = set_opt_in(&mut s, true);
    assert!(!v.needs_consent);
    assert_eq!(v.archive_opt_in, Some(true));
    assert!(opt_in_enabled(&s));
    let old = Settings { archive_opt_in: Some(true), consent_version: 0 };
    assert!(view(&old).needs_consent);
    let mut declined = Settings::default();
    set_opt_in(&mut declined, false);
    assert!(!opt_in_enabled(&declined));
    assert!(!view(&declined).needs_consent);
}
