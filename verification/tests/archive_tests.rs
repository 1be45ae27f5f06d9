use steam_downgrader::archive::{
    cache_file, contribute_url, fresh_manifests, is_configured, key, manifest_keys, manifests_url,
    merge_keys, ArchiveManifest, ARCHIVE_BASE_URL,
};

fn am(depot: u32, mid: &str) -> ArchiveManifest {
    ArchiveManifest { depot_id: depot, manifest_id: mid.into(), build_id: None, timestamp: Some(1), label: None }
}

#[test]
fn archive_is_configured() {
    assert!(is_configured());
    assert!(!ARCHIVE_BASE_URL.is_empty());
}

#[test]
fn archive_addresses() {
    assert_eq!(manifests_url(105600), format!("{ARCHIVE_BASE_URL}/v1/manifests/105600"));
    assert_eq!(contribute_url(), format!("{ARCHIVE_BASE_URL}/v1/contribute"));
}

#[test]
fn keys_join_app_depot_and_manifest() {
    assert_eq!(key(105600, 105601, "123456789"), "105600:105601:123456789");
    assert_eq!(key(0, 0, ""), "0:0:");
}

#[test]
fn only_unsent_manifests_are_fresh() {
    let depots = vec![am(1, "a"), am(2, "b"), am(3, "c")];
    let sent = vec!["7:2:b".to_string(), "8:3:c".to_string()];
    let fresh = fresh_manifests(7, &depots, &sent);
    let ids: Vec<u32> = fresh.iter().map(|m| m.depot_id).collect();
    assert_eq!(ids, vec![1, 3]);
    assert_eq!(fresh[1].timestamp, Some(1));
}

#[test]
fn merging_keys_reports_changes_only() {
    let sent = vec!["a".to_string()];
    assert_eq!(merge_keys(sent.clone(), &vec!["a".to_string()]), None);
    assert_eq!(
        merge_keys(sent, &vec!["b".to_string(), "a".to_string(), "b".to_string()]),
        Some(vec!["a".to_string(), "b".to_string()])
    );
}

#[test]
fn sent_manifests_are_not_sent_again() {
    let depots = vec![am(1, "a"), am(2, "b")];
    let sent = vec!["7:1:a".to_string()];
    let fresh = fresh_manifests(7, &depots, &sent);
    assert_eq!(fresh.len(), 1);
    let merged = merge_keys(sent, &manifest_keys(7, &fresh)).expect("changed");
    assert!(fresh_manifests(7, &depots, &merged).is_empty());
}

#[test]
fn cache_file_lives_in_the_app_folder() {
    assert_eq!(cache_file(Some("/home/u/.config")), "/home/u/.config/steam-downgrader/contributed.json");
    assert_eq!(cache_file(None), "./steam-downgrader/contributed.json");
}
