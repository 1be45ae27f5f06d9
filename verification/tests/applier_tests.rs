use steam_downgrader::applier::{
    acf_backup_copy_to, acf_backup_path, acf_path_in, backup_path_for, check_download_dir, depotcache_candidates,
    find_acf, frozen_path_for, in_place_result, in_place_step, install_dir_from_backup,
    install_candidates, install_dir_in, installed_game, installed_games, is_appmanifest_name, library_roots,
    pick_main_exe, revert_target, separate_result, shortcut_targets, shortcuts_vdf_path,
    steamapps_dir, AcfPatch, ApplyModel, InPlaceStep, ProfileScan,
};
use steam_downgrader::error::SteamError;

#[test]
fn backup_sits_next_to_the_install_folder() {
    assert_eq!(
        backup_path_for("/games/steamapps/common/Terraria"),
        "/games/steamapps/common/Terraria.downgrader-backup"
    );
    assert_eq!(backup_path_for("/"), "/game.downgrader-backup");
    assert_eq!(
        install_dir_from_backup(&backup_path_for("/games/steamapps/common/Terraria/")),
        Some("/games/steamapps/common/Terraria".to_string())
    );
}

#[test]
fn backup_leads_back_to_the_install_folder() {
    let install = "/games/steamapps/common/Terraria";
    let backup = backup_path_for(install);
    assert_eq!(install_dir_from_backup(&backup), Some(install.to_string()));
    assert_eq!(install_dir_from_backup("/games/steamapps/common/Terraria"), None);
    assert_eq!(install_dir_from_backup("/"), None);
    // A backup named only by the suffix has no install folder to go back to.
    assert_eq!(install_dir_from_backup("/games/.downgrader-backup"), None);
    assert_eq!(
        revert_target("/games/.downgrader-backup", true),
        Err(SteamError::Other("could not derive the install folder from the backup path".to_string()))
    );
}

#[test]
fn frozen_copy_is_a_sibling() {
    assert_eq!(frozen_path_for(5, "/g/common/T"), "/g/common/T_frozen");
    assert_eq!(frozen_path_for(5, "/"), "/app_5_frozen");
}

#[test]
fn acf_is_two_levels_up() {
    assert_eq!(
        find_acf(105600, "/lib/steamapps/common/Terraria"),
        Some("/lib/steamapps/appmanifest_105600.acf".to_string())
    );
    assert_eq!(find_acf(1, "/"), None);
    assert_eq!(find_acf(1, "x"), None);
    assert_eq!(
        acf_backup_path("/lib/steamapps/appmanifest_1.acf"),
        "/lib/steamapps/appmanifest_1.acf.downgrader-backup"
    );
    assert_eq!(acf_path_in("/lib/steamapps", 7), "/lib/steamapps/appmanifest_7.acf");
}

#[test]
fn appmanifest_names() {
    assert!(is_appmanifest_name("appmanifest_105600.acf"));
    assert!(!is_appmanifest_name("appmanifest_105600.acf.downgrader-backup"));
    assert!(!is_appmanifest_name("libraryfolders.vdf"));
    assert!(!is_appmanifest_name("appmanifest_.ac"));
}

#[test]
fn library_folders() {
    let vdf = "\"libraryfolders\"\n{\n\t\"1\"\n\t{\n\t\t\"path\"\t\t\"/mnt/lib\"\n\t}\n}\n";
    assert_eq!(library_roots("/steam", Some(vdf)), vec!["/steam".to_string(), "/mnt/lib".to_string()]);
    assert_eq!(library_roots("/steam", None), vec!["/steam".to_string()]);
    assert_eq!(steamapps_dir("/mnt/lib"), "/mnt/lib/steamapps");
    assert_eq!(shortcuts_vdf_path("/steam/userdata/42"), "/steam/userdata/42/config/shortcuts.vdf");
}

#[test]
fn install_dir_from_manifest() {
    let acf = "\"AppState\"\n{\n\t\"installdir\"\t\t\"Terraria\"\n}\n";
    assert_eq!(install_dir_in("/lib/steamapps", acf), Some("/lib/steamapps/common/Terraria".to_string()));
    assert_eq!(install_dir_in("/lib/steamapps", "{}"), None);
}

#[test]
fn depotcache_folders_in_order() {
    let libs = vec!["/steam".to_string(), "/mnt/lib".to_string()];
    assert_eq!(
        depotcache_candidates("/steam", &libs),
        vec![
            "/steam/depotcache".to_string(),
            "/steam/config/depotcache".to_string(),
            "/steam/steamapps/depotcache".to_string(),
            "/mnt/lib/steamapps/depotcache".to_string(),
        ]
    );
}

#[test]
fn in_place_keeps_the_first_backup() {
    assert_eq!(in_place_step(false, true), InPlaceStep::MoveInstallToBackup);
    assert_eq!(in_place_step(true, true), InPlaceStep::ClearInstall);
    assert_eq!(in_place_step(true, false), InPlaceStep::KeepAsIs);
    assert_eq!(in_place_step(false, false), InPlaceStep::KeepAsIs);
}

const OFFLINE: &str = "Online, Steam may still mark this as 'update required'. Safest: start Steam in Offline Mode, or leave auto-update disabled.";

#[test]
fn in_place_result_warnings() {
    let r = in_place_result("/b".to_string(), AcfPatch::Patched);
    assert_eq!(r.model, ApplyModel::InPlaceFreeze);
    assert_eq!(r.backup_or_copy_path, "/b");
    assert_eq!(r.launch_hint, "Start it through Steam as usual (in Offline Mode if needed).");
    assert_eq!(r.warnings, vec![OFFLINE.to_string()]);
    let r = in_place_result("/b".to_string(), AcfPatch::NotFound);
    assert_eq!(
        r.warnings,
        vec!["appmanifest_*.acf not found, auto-update block not set.".to_string(), OFFLINE.to_string()]
    );
    let r = in_place_result("/b".to_string(), AcfPatch::Failed("disk full".to_string()));
    assert_eq!(r.warnings, vec!["could not patch the ACF: disk full".to_string(), OFFLINE.to_string()]);
}

const RESTART: &str = "Restart Steam after adding so the entry shows up.";

#[test]
fn separate_result_with_shortcuts() {
    let scan = ProfileScan::Found(vec!["/u/1/config/shortcuts.vdf".to_string(), "/u/2/config/shortcuts.vdf".to_string()]);
    assert_eq!(shortcut_targets(&scan, true).len(), 2);
    let r = separate_result(
        "/g/T_frozen".to_string(),
        Some("/g/T_frozen/t.exe".to_string()),
        scan,
        vec![("/u/2/config/shortcuts.vdf".to_string(), "denied".to_string())],
    );
    assert_eq!(r.model, ApplyModel::SeparateCopyShortcut);
    assert_eq!(r.backup_or_copy_path, "/g/T_frozen");
    assert_eq!(r.launch_hint, "Launch directly (leave Steam running in the background): /g/T_frozen/t.exe");
    assert_eq!(
        r.warnings,
        vec!["shortcuts.vdf (/u/2/config/shortcuts.vdf) not updated: denied".to_string(), RESTART.to_string()]
    );
}

#[test]
fn separate_result_without_exe_or_profiles() {
    let scan = ProfileScan::Found(vec!["/u/1/config/shortcuts.vdf".to_string()]);
    assert!(shortcut_targets(&scan, false).is_empty());
    let r = separate_result("/f".to_string(), None, scan, vec![]);
    assert_eq!(r.launch_hint, "Pick the main .exe in the frozen folder manually.");
    assert_eq!(
        r.warnings,
        vec![
            "No Steam user profiles found for the shortcut.".to_string(),
            "Main .exe not detected automatically.".to_string(),
            RESTART.to_string(),
        ]
    );
    let r = separate_result("/f".to_string(), Some("/f/a.exe".to_string()), ProfileScan::Found(vec![]), vec![]);
    assert_eq!(r.warnings, vec!["No Steam user profiles found for the shortcut.".to_string(), RESTART.to_string()]);
    let missing = ProfileScan::Missing("Steam directory not found".to_string());
    assert!(shortcut_targets(&missing, true).is_empty());
    let r = separate_result("/f".to_string(), Some("/f/a.exe".to_string()), missing, vec![]);
    assert_eq!(
        r.warnings,
        vec!["Steam userdata not found: Steam directory not found".to_string(), RESTART.to_string()]
    );
}

#[test]
fn main_exe_is_the_largest_plain_exe() {
    let entries = vec![
        ("/f/game.exe".to_string(), 100u64),
        ("/f/unins000.exe".to_string(), 500),
        ("/f/Setup.EXE".to_string(), 900),
        ("/f/readme.txt".to_string(), 1000),
        ("/f/Big.Exe".to_string(), 100),
        ("/f/bin/main.exe".to_string(), 300),
        ("/f/CrashHandler.exe".to_string(), 800),
        ("/f/vcredist_x64.exe".to_string(), 700),
        ("/f/DXSETUP.exe".to_string(), 600),
    ];
    assert_eq!(pick_main_exe(&entries), Some("/f/bin/main.exe".to_string()));
    let ties = vec![("/f/a.exe".to_string(), 5u64), ("/f/B.EXE".to_string(), 5)];
    assert_eq!(pick_main_exe(&ties), Some("/f/a.exe".to_string()));
    let none = vec![("/f/setup.exe".to_string(), 5u64), ("/f/x.dll".to_string(), 9)];
    assert_eq!(pick_main_exe(&none), None);
    assert_eq!(pick_main_exe(&vec![]), None);
}

#[test]
fn download_dir_must_exist() {
    assert_eq!(check_download_dir("/d", true), Ok(()));
    assert_eq!(
        check_download_dir("/d", false),
        Err(SteamError::Other("download directory is missing: /d".to_string()))
    );
}

#[test]
fn revert_needs_a_usable_backup() {
    assert_eq!(
        revert_target("/g/T.downgrader-backup", false),
        Err(SteamError::Other("no backup found, nothing to undo".to_string()))
    );
    assert_eq!(
        revert_target("/g/T.backup", true),
        Err(SteamError::Other("could not derive the install folder from the backup path".to_string()))
    );
    assert_eq!(revert_target("/g/T.downgrader-backup", true), Ok("/g/T".to_string()));
}

fn acf(id: &str, name: Option<&str>, dir: &str) -> String {
    let mut s = format!("\"AppState\"\n{{\n\t\"appid\"\t\t\"{id}\"\n");
    if let Some(n) = name {
        s.push_str(&format!("\t\"name\"\t\t\"{n}\"\n"));
    }
    s.push_str(&format!("\t\"installdir\"\t\t\"{dir}\"\n\t\"buildid\"\t\t\"123\"\n\t\"SizeOnDisk\"\t\t\"4096\"\n\t\"LastUpdated\"\t\t\"-5\"\n}}\n"));
    s
}

#[test]
fn installed_game_reads_the_manifest() {
    let g = installed_game("/lib/steamapps", &acf("105600", Some("Terraria"), "Terraria"));
    assert_eq!(g.app_id, 105600);
    assert_eq!(g.name, "Terraria");
    assert_eq!(g.install_dir, "/lib/steamapps/common/Terraria");
    assert_eq!(g.build_id, Some(123));
    assert_eq!(g.size_bytes, Some(4096));
    assert_eq!(g.last_updated, Some(-5));
    let unnamed = installed_game("/lib/steamapps", &acf("7", None, "X"));
    assert_eq!(unnamed.name, "App 7");
    let bare = installed_game("/s", "{}");
    assert_eq!(bare.app_id, 0);
    assert_eq!(bare.install_dir, "/s/common/");
    assert_eq!(bare.build_id, None);
}

#[test]
fn installed_games_are_deduped_and_sorted_by_name() {
    let found = vec![
        ("/a/steamapps".to_string(), acf("3", Some("zeta"), "Z")),
        ("/a/steamapps".to_string(), acf("1", Some("Alpha"), "A")),
        ("/b/steamapps".to_string(), acf("3", Some("Zeta copy"), "Z2")),
        ("/b/steamapps".to_string(), acf("0", Some("Broken"), "B")),
        ("/b/steamapps".to_string(), acf("x", Some("Bad id"), "B")),
        ("/b/steamapps".to_string(), acf("2", Some("beta"), "Beta")),
    ];
    let games = installed_games(&found);
    let names: Vec<&str> = games.iter().map(|g| g.name.as_str()).collect();
    assert_eq!(names, vec!["Alpha", "beta", "zeta"]);
    assert_eq!(games[2].install_dir, "/a/steamapps/common/Z");
}

#[test]
fn install_candidates_follow_library_order() {
    let acf = "\"AppState\"\n{\n\t\"appid\"\t\t\"105600\"\n\t\"installdir\"\t\t\"Terraria\"\n}\n";
    let found = vec![
        ("/a/steamapps".to_string(), None),
        ("/b/steamapps".to_string(), Some("\"AppState\"\n{\n}\n".to_string())),
        ("/c/steamapps".to_string(), Some(acf.to_string())),
        ("/d/steamapps".to_string(), Some(acf.to_string())),
    ];
    assert_eq!(
        install_candidates(&found),
        vec![
            "/c/steamapps/common/Terraria".to_string(),
            "/d/steamapps/common/Terraria".to_string()
        ]
    );
    assert!(install_candidates(&Vec::new()).is_empty());
}

#[test]
fn backup_of_a_folder_with_a_trailing_slash_leads_back_to_the_same_path() {
    let install = "/games/steamapps/common/Terraria/";
    let restored = install_dir_from_backup(&backup_path_for(install)).unwrap();
    assert_eq!(std::path::Path::new(&restored), std::path::Path::new(install));
}

#[test]
fn frozen_copy_is_a_sibling_and_not_the_install_folder() {
    let install = "/g/common/T";
    let frozen = frozen_path_for(7, install);
    assert_ne!(frozen, install);
    assert_eq!(
        std::path::Path::new(&frozen).parent(),
        std::path::Path::new(install).parent()
    );
}

#[test]
fn manifest_is_backed_up_only_once() {
    let acf = "/lib/steamapps/appmanifest_1.acf";
    assert_eq!(acf_backup_copy_to(acf, false), Some(acf_backup_path(acf)));
    assert_eq!(acf_backup_copy_to(acf, true), None);
}
