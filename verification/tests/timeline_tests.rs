use steam_downgrader::changelog::ChangelogEntry;
use steam_downgrader::timeline::{
    assemble, next_patch_after, patch_entries, pics_depot_ids, timeline_from_sources, PatchEntry,
};

fn iso(ts: i64) -> String {
    chrono::DateTime::from_timestamp(ts, 0)
        .map(|dt| dt.format("%Y-%m-%d").to_string())
        .unwrap_or_default()
}

fn patch(title: &str, date: i64) -> PatchEntry {
    PatchEntry {
        title: title.into(),
        date,
        date_iso: iso(date),
        url: String::new(),
    }
}

const DAY: i64 = 24 * 3600;

#[test]
fn labels_build_with_the_next_patch() {
    let patches = vec![patch("Balance update", 100 * DAY)];
    // A build from 98 days: the update at day 100 came right after it.
    assert_eq!(next_patch_after(&patches, 98 * DAY), Some("Balance update"));
    // A build long before the window: not labelled (would be misleading).
    assert_eq!(next_patch_after(&patches, 10 * DAY), None);
    // A build after the patch: that patch is not "next".
    assert_eq!(next_patch_after(&patches, 101 * DAY), None);
}

#[test]
fn current_first_then_history_newest_first() {
    let current = Some(("cur".to_string(), 300 * DAY));
    let cached = vec![
        ("a".to_string(), 100 * DAY),
        ("b".to_string(), 200 * DAY),
    ];
    let builds = assemble(current, &cached, &[]);
    assert_eq!(builds.len(), 3);
    assert!(builds[0].is_current);
    assert_eq!(builds[0].manifest_id, "cur");
    assert_eq!(builds[1].manifest_id, "b"); // newer history before older
    assert_eq!(builds[2].manifest_id, "a");
}

#[test]
fn dedupes_current_against_cache() {
    // The current manifest is also present in the depotcache: keep it once,
    // and keep the is_current flag / PICS timestamp.
    let current = Some(("same".to_string(), 300 * DAY));
    let cached = vec![("same".to_string(), 299 * DAY), ("old".to_string(), 100 * DAY)];
    let builds = assemble(current, &cached, &[]);
    assert_eq!(builds.len(), 2);
    assert_eq!(builds[0].manifest_id, "same");
    assert!(builds[0].is_current);
    assert_eq!(builds[0].timestamp, 300 * DAY);
    assert_eq!(builds[1].manifest_id, "old");
}

#[test]
fn dedupes_repeated_cache_entries() {
    // The same manifest can live in several depotcache folders.
    let cached = vec![("x".to_string(), 100 * DAY), ("x".to_string(), 100 * DAY)];
    let builds = assemble(None, &cached, &[]);
    assert_eq!(builds.len(), 1);
}

#[test]
fn the_nearest_patch_in_the_window_wins() {
    let patches = vec![patch("Later", 130 * DAY), patch("Sooner", 110 * DAY), patch("Old", 90 * DAY)];
    assert_eq!(next_patch_after(&patches, 100 * DAY), Some("Sooner"));
    // Exactly 45 days later still counts; a second more does not.
    let edge = vec![patch("Edge", 45 * DAY)];
    assert_eq!(next_patch_after(&edge, 0), Some("Edge"));
    assert_eq!(next_patch_after(&edge, -1), None);
    // A patch at the build's own time is not after it.
    assert_eq!(next_patch_after(&edge, 45 * DAY), None);
}

#[test]
fn builds_are_dated_labelled_and_sourced() {
    let patches = vec![patch("Fix", 201 * DAY)];
    let builds = assemble(Some(("cur".to_string(), 300 * DAY)), &[("b".to_string(), 200 * DAY)], &patches);
    assert_eq!(builds[0].source, "pics");
    assert_eq!(builds[0].patch_title, None);
    assert_eq!(builds[1].source, "depotcache");
    assert_eq!(builds[1].patch_title, Some("Fix".to_string()));
    assert_eq!(builds[1].date_iso, iso(200 * DAY));
    assert_eq!(builds[1].date_iso, "1970-07-20");
}

#[test]
fn equal_times_keep_their_order() {
    let cached = vec![("p".to_string(), 5), ("q".to_string(), 5), ("r".to_string(), 9)];
    let builds = assemble(None, &cached, &[]);
    let ids: Vec<&str> = builds.iter().map(|b| b.manifest_id.as_str()).collect();
    assert_eq!(ids, vec!["r", "p", "q"]);
}

#[test]
fn timeline_groups_by_depot_in_pics_order() {
    let pics = vec![
        (Some(20u64), Some("m20".to_string())),
        (Some(10u64), Some("m10".to_string())),
        (None, Some("skip".to_string())),
        (Some(20u64), Some("m20b".to_string())),
    ];
    let cached = vec![
        (Some(10u64), Some("old10".to_string()), Some(50 * DAY)),
        (Some(20u64), Some(String::new()), Some(60 * DAY)),
        (Some(20u64), Some("old20".to_string()), None),
    ];
    let t = timeline_from_sources(9, Some("8640000".to_string()), Some("77".to_string()), pics, cached, vec![]);
    assert_eq!(t.app_id, 9);
    assert_eq!(t.current_ts, 100 * DAY);
    assert_eq!(t.current_build_id, Some(77));
    assert_eq!(t.depots.len(), 2);
    assert_eq!(t.depots[0].depot_id, 20);
    assert_eq!(t.depots[0].builds.len(), 2);
    assert_eq!(t.depots[0].builds[0].manifest_id, "m20b");
    assert_eq!(t.depots[0].builds[1].manifest_id, "old20");
    assert_eq!(t.depots[0].builds[1].timestamp, 0);
    assert_eq!(t.depots[1].depot_id, 10);
    assert_eq!(t.depots[1].builds[1].manifest_id, "old10");
}

#[test]
fn unparsable_pics_time_counts_as_zero() {
    let t = timeline_from_sources(1, Some("soon".to_string()), Some("x".to_string()), vec![], vec![], vec![]);
    assert_eq!(t.current_ts, 0);
    assert_eq!(t.current_build_id, None);
    assert!(t.depots.is_empty());
}

#[test]
fn patch_entries_copy_the_changelog() {
    let e = ChangelogEntry {
        gid: "g".into(),
        title: "T".into(),
        url: "u".into(),
        author: "a".into(),
        summary: "s".into(),
        date: 5,
        date_iso: "1970-01-01".into(),
        feed: "f".into(),
        tags: vec![],
    };
    let p = patch_entries(vec![e]);
    assert_eq!(p.len(), 1);
    assert_eq!(p[0].title, "T");
    assert_eq!(p[0].date, 5);
    assert_eq!(p[0].date_iso, "1970-01-01");
    assert_eq!(p[0].url, "u");
}

#[test]
fn depot_ids_asked_for_are_those_with_a_manifest_each_once() {
    let pics = vec![
        (Some(11u64), Some("1".to_string())),
        (Some(12), None),
        (None, Some("3".to_string())),
        (Some(13), Some("4".to_string())),
        (Some(11), Some("5".to_string())),
        (Some(4294967307), Some("6".to_string())),
    ];
    assert_eq!(pics_depot_ids(&pics), vec![11u32, 13]);
    assert!(pics_depot_ids(&Vec::new()).is_empty());
}
