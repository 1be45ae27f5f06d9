use steam_downgrader::error::SteamError;
use steam_downgrader::resolver::{manifest_active_before, pics_manifests, resolve_from, DepotManifest, ManifestSource};

fn mk(ts: i64) -> DepotManifest {
    DepotManifest {
        depot_id: 1,
        manifest_id: ts as u64,
        timestamp: ts,
        build_id: None,
        source: ManifestSource::Manual,
    }
}

#[test]
fn picks_latest_before_target() {
    let hist = vec![mk(100), mk(200), mk(300)];
    // A patch landed at 250, so "the version before" is the manifest from 200.
    let got = manifest_active_before(&hist, 250).unwrap();
    assert_eq!(got.timestamp, 200);
}

#[test]
fn none_when_all_after() {
    let hist = vec![mk(400), mk(500)];
    assert!(manifest_active_before(&hist, 300).is_none());
}

#[test]
fn the_target_time_itself_is_excluded() {
    let hist = vec![mk(100), mk(250)];
    assert_eq!(manifest_active_before(&hist, 250).unwrap().timestamp, 100);
}

#[test]
fn of_equal_times_the_last_wins() {
    let mut a = mk(200);
    a.manifest_id = 1;
    let mut b = mk(200);
    b.manifest_id = 2;
    let hist = vec![a, b, mk(100)];
    assert_eq!(manifest_active_before(&hist, 300).unwrap().manifest_id, 2);
}

fn dm(depot: u32, mid: u64, ts: i64, source: ManifestSource) -> DepotManifest {
    DepotManifest { depot_id: depot, manifest_id: mid, timestamp: ts, build_id: None, source }
}

#[test]
fn resolve_picks_per_depot_in_first_appearance_order() {
    let all = vec![
        dm(20, 1, 100, ManifestSource::Pics),
        dm(10, 2, 150, ManifestSource::Pics),
        dm(20, 3, 200, ManifestSource::Pics),
        dm(10, 4, 400, ManifestSource::Pics),
    ];
    let v = resolve_from(7, 300, all).expect("resolved");
    assert_eq!(v.app_id, 7);
    assert_eq!(v.target_timestamp, 300);
    assert_eq!(v.depots.len(), 2);
    assert_eq!(v.depots[0].depot_id, 20);
    assert_eq!(v.depots[0].manifest_id, 3);
    assert_eq!(v.depots[1].depot_id, 10);
    assert_eq!(v.depots[1].manifest_id, 2);
    assert_eq!(v.source, ManifestSource::Pics);
}

#[test]
fn resolve_mixed_sources_count_as_manual() {
    let all = vec![dm(1, 1, 100, ManifestSource::Pics), dm(2, 2, 100, ManifestSource::SteamDb)];
    let v = resolve_from(7, 300, all).expect("resolved");
    assert_eq!(v.source, ManifestSource::Manual);
}

#[test]
fn resolve_reports_missing_depots_sorted() {
    let all = vec![dm(30, 1, 500, ManifestSource::Pics), dm(5, 2, 100, ManifestSource::Pics), dm(12, 3, 900, ManifestSource::Pics)];
    let err = resolve_from(7, 300, all).unwrap_err();
    match err {
        SteamError::Unresolved(m) => {
            assert_eq!(
                m,
                "No older version is available in the sources for these depots: [12, 30]. Enter a manifest id manually, or pick a later version."
            );
        }
        other => panic!("unexpected error {:?}", other),
    }
}

#[test]
fn pics_manifests_skip_incomplete_depots() {
    let depots = vec![
        (Some(11u64), Some("123".to_string())),
        (None, Some("5".to_string())),
        (Some(12u64), None),
        (Some(13u64), Some("x".to_string())),
    ];
    let got = pics_manifests(Some("1700000000".to_string()), Some("99".to_string()), depots);
    assert_eq!(got.len(), 1);
    assert_eq!(got[0].depot_id, 11);
    assert_eq!(got[0].manifest_id, 123);
    assert_eq!(got[0].timestamp, 1_700_000_000);
    assert_eq!(got[0].build_id, Some(99));
    assert_eq!(got[0].source, ManifestSource::Pics);
}
