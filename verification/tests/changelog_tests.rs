use steam_downgrader::changelog::{changelog_entries, changelog_entry, clean_contents, news_url, NewsItem};

#[test]
fn clean_strips_clan_image_and_bbcode() {
    let raw = "{STEAM_CLAN_IMAGE}/123/abc.jpg [h2]Patch[/h2] [b]Fix[/b] crash";
    let cleaned = clean_contents(raw);
    assert!(!cleaned.contains("STEAM_CLAN_IMAGE"));
    assert!(!cleaned.contains("[h2]"));
    assert!(cleaned.contains("Patch"));
    assert!(cleaned.contains("crash"));
}

#[test]
fn clean_gives_the_exact_text() {
    let raw = "{STEAM_CLAN_IMAGE}/123/abc.jpg [h2]Patch[/h2] [b]Fix[/b] crash";
    assert_eq!(clean_contents(raw), "Patch Fix crash");
    assert_eq!(clean_contents("  a \n\n b\t"), "a b");
    assert_eq!(clean_contents(""), "");
    assert_eq!(clean_contents("[list][*]one[*]two[/list]"), "one two");
}

#[test]
fn clean_caps_long_text_at_400_chars() {
    let long = "x".repeat(450);
    let cleaned = clean_contents(&long);
    assert_eq!(cleaned.chars().count(), 403);
    assert!(cleaned.ends_with("..."));
    let exact = "y".repeat(400);
    assert_eq!(clean_contents(&exact), exact);
}

fn item(label: &str, name: &str) -> NewsItem {
    NewsItem {
        gid: "1".into(),
        title: "Update 1.4".into(),
        url: "https://example.invalid/n".into(),
        author: "dev".into(),
        contents: "[b]New[/b] items".into(),
        feedlabel: label.into(),
        date: 86400,
        feedname: name.into(),
        tags: vec!["patchnotes".into()],
    }
}

#[test]
fn entry_uses_label_or_feed_name() {
    let e = changelog_entry(item("Community Announcements", "steam_community_announcements"));
    assert_eq!(e.feed, "Community Announcements");
    assert_eq!(e.summary, "New items");
    assert_eq!(e.date_iso, "1970-01-02");
    assert_eq!(e.tags, vec!["patchnotes".to_string()]);
    let e2 = changelog_entry(item("", "steam_community_announcements"));
    assert_eq!(e2.feed, "steam_community_announcements");
}

#[test]
fn entries_keep_order() {
    let list = changelog_entries(vec![item("a", "x"), item("b", "y")]);
    assert_eq!(list.len(), 2);
    assert_eq!(list[0].feed, "a");
    assert_eq!(list[1].feed, "b");
}

#[test]
fn news_url_lists_feeds() {
    assert_eq!(
        news_url(105600, 20, &["steam_community_announcements"]),
        "https://api.steampowered.com/ISteamNews/GetNewsForApp/v2/?appid=105600&count=20&maxlength=600&feeds=steam_community_announcements"
    );
    assert_eq!(
        news_url(7, 5, &["a", "b"]),
        "https://api.steampowered.com/ISteamNews/GetNewsForApp/v2/?appid=7&count=5&maxlength=600&feeds=a,b"
    );
    assert_eq!(
        news_url(7, 5, &[]),
        "https://api.steampowered.com/ISteamNews/GetNewsForApp/v2/?appid=7&count=5&maxlength=600"
    );
}

#[test]
fn cleaning_leaves_no_markup() {
    let raw = "[b][b]x[/b]{STEAM_CLAN_IMAGE}/a/b.png{STEAM_CLAN_IMAGE}";
    assert_eq!(clean_contents(raw), "x");
    let nested = clean_contents("[[b]b] {STEAM_{STEAM_CLAN_IMAGE}/x CLAN_IMAGE}");
    assert_eq!(nested, "[ b] {STEAM_ CLAN_IMAGE}");
    assert!(!nested.contains("[b]"));
    assert!(!nested.contains("{STEAM_CLAN_IMAGE}"));
}

#[test]
fn cleaning_twice_is_cleaning_once() {
    let raw = "{STEAM_CLAN_IMAGE}/1/a.png  [h1]Update[/h1]\n\n\n\n[list][*]one[*]two[/list]   end";
    let once = clean_contents(raw);
    assert_eq!(clean_contents(&once), once);
}
