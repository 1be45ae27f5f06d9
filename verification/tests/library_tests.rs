use steam_downgrader::auth::session_from;
use steam_downgrader::downloader::{download_depots, download_result, is_available, DOWNLOAD_TIMEOUT_SECS};
use steam_downgrader::error::{io, SteamError};
use steam_downgrader::library::owned_games;
use steam_downgrader::resolver::{DepotManifest, ManifestSource, ResolvedVersion};
use steam_downgrader::sidecar::{reply_error, timeout_error, DEFAULT_TIMEOUT_SECS};

#[test]
fn owned_games_drop_zero_ids_and_sort_by_name() {
    let raw = vec![
        (Some(30u64), Some("Zork".to_string())),
        (None, Some("No id".to_string())),
        (Some(10u64), None),
        (Some(1u64 << 32), Some("Wraps to zero".to_string())),
        (Some(20u64), Some("Alpha".to_string())),
        (Some((1u64 << 32) + 5), Some("Alpha".to_string())),
    ];
    let games = owned_games(&raw);
    let got: Vec<(u32, Option<String>)> = games.iter().map(|g| (g.app_id, g.name.clone())).collect();
    assert_eq!(
        got,
        vec![
            (10, None),
            (20, Some("Alpha".to_string())),
            (5, Some("Alpha".to_string())),
            (30, Some("Zork".to_string())),
        ]
    );
}

#[test]
fn names_sort_by_code_point() {
    let raw = vec![(Some(1u64), Some("b".to_string())), (Some(2u64), Some("B".to_string())), (Some(3u64), Some("ab".to_string())), (Some(4u64), Some("a".to_string()))];
    let names: Vec<String> = owned_games(&raw).into_iter().map(|g| g.name.unwrap()).collect();
    assert_eq!(names, vec!["B", "a", "ab", "b"]);
}

#[test]
fn session_defaults() {
    let s = session_from(Some(76561198000000000), Some("gabe"));
    assert_eq!(s.steam_id, 76561198000000000);
    assert_eq!(s.account_name, "gabe");
    let d = session_from(None, None);
    assert_eq!(d.steam_id, 0);
    assert_eq!(d.account_name, "");
}

#[test]
fn download_request_and_result() {
    assert!(is_available());
    assert_eq!(DOWNLOAD_TIMEOUT_SECS, 14400);
    let v = ResolvedVersion {
        app_id: 1,
        target_timestamp: 2,
        depots: vec![DepotManifest { depot_id: 11, manifest_id: u64::MAX, timestamp: 0, build_id: None, source: ManifestSource::Pics }],
        source: ManifestSource::Pics,
    };
    assert_eq!(download_depots(&v), vec![(11, "18446744073709551615".to_string())]);
    let r = download_result("/out".to_string(), None);
    assert_eq!(r.output_dir, "/out");
    assert_eq!(r.bytes_total, 0);
    assert_eq!(download_result("/o".to_string(), Some(9)).bytes_total, 9);
}

#[test]
fn helper_replies() {
    assert_eq!(DEFAULT_TIMEOUT_SECS, 600);
    assert_eq!(reply_error(Some(true), Some("ignored")), None);
    assert_eq!(reply_error(Some(false), Some("bad login")), Some(SteamError::Other("bad login".to_string())));
    assert_eq!(reply_error(None, None), Some(SteamError::Other("unknown error".to_string())));
    assert_eq!(timeout_error("download"), SteamError::Other("timeout on command 'download'".to_string()));
}

#[test]
fn error_messages() {
    assert_eq!(SteamError::Http("503".into()).message(), "HTTP error: 503");
    assert_eq!(SteamError::Parse("eof".into()).message(), "Could not parse response: eof");
    assert_eq!(SteamError::NotAuthenticated.message(), "Not signed in");
    assert_eq!(SteamError::NotOwned(42).message(), "Game not owned by this account (app id 42)");
    assert_eq!(SteamError::Unresolved("x".into()).message(), "Could not resolve version: x");
    assert_eq!(SteamError::NotImplemented("y".into()).message(), "Not implemented yet: y");
    assert_eq!(SteamError::Other("z".into()).message(), "z");
}

#[test]
fn io_errors_keep_their_text() {
    let e = std::io::Error::new(std::io::ErrorKind::Other, "disk on fire");
    assert_eq!(io(e), SteamError::Other("disk on fire".to_string()));
}
