use steam_downgrader::applier::{add_shortcut, remove_shortcut};
use steam_downgrader::shortcuts::{parse_shortcuts, serialize_shortcuts, Shortcut};

#[test]
fn shortcuts_roundtrip() {
    let shortcuts = vec![
        Shortcut {
            app_name: "Terraria (old)".into(),
            exe: "\"C:\\games\\terraria\\Terraria.exe\"".into(),
            start_dir: "\"C:\\games\\terraria\"".into(),
        },
        Shortcut {
            app_name: "Witcher 3 v1.31".into(),
            exe: "\"D:\\w3\\witcher3.exe\"".into(),
            start_dir: "\"D:\\w3\"".into(),
        },
    ];
    let bytes = serialize_shortcuts(&shortcuts);
    let parsed = parse_shortcuts(&bytes).expect("parse");
    assert_eq!(parsed, shortcuts);
}

#[test]
fn parse_empty_shortcuts() {
    let bytes = serialize_shortcuts(&[]);
    let parsed = parse_shortcuts(&bytes).expect("parse");
    assert!(parsed.is_empty());
}

#[test]
fn empty_list_has_the_exact_layout() {
    let mut expected = vec![0x00u8];
    expected.extend_from_slice(b"shortcuts\0");
    expected.extend_from_slice(&[0x08, 0x08]);
    assert_eq!(serialize_shortcuts(&[]), expected);
}

#[test]
fn one_entry_has_the_exact_layout() {
    let list = vec![Shortcut { app_name: "A".into(), exe: "B".into(), start_dir: "C".into() }];
    let mut expected = vec![0x00u8];
    expected.extend_from_slice(b"shortcuts\0");
    expected.push(0x00);
    expected.extend_from_slice(b"0\0");
    expected.push(0x01);
    expected.extend_from_slice(b"AppName\0A\0");
    expected.push(0x01);
    expected.extend_from_slice(b"Exe\0B\0");
    expected.push(0x01);
    expected.extend_from_slice(b"StartDir\0C\0");
    expected.extend_from_slice(&[0x08, 0x08, 0x08]);
    assert_eq!(serialize_shortcuts(&list), expected);
}

#[test]
fn parse_skips_other_fields_and_reads_keys_in_any_case() {
    let mut b = vec![0x00u8];
    b.extend_from_slice(b"shortcuts\0");
    b.push(0x00);
    b.extend_from_slice(b"0\0");
    b.push(0x02);
    b.extend_from_slice(b"appid\0");
    b.extend_from_slice(&[1, 2, 3, 4]);
    b.push(0x01);
    b.extend_from_slice(b"APPNAME\0Game\0");
    b.push(0x00);
    b.extend_from_slice(b"tags\0");
    b.push(0x01);
    b.extend_from_slice(b"0\0fav\0");
    b.push(0x08);
    b.push(0x01);
    b.extend_from_slice(b"exe\0\"x.exe\"\0");
    b.push(0x01);
    b.extend_from_slice(b"Icon\0i.ico\0");
    b.extend_from_slice(&[0x08, 0x08, 0x08]);
    let parsed = parse_shortcuts(&b).expect("parse");
    assert_eq!(
        parsed,
        vec![Shortcut { app_name: "Game".into(), exe: "\"x.exe\"".into(), start_dir: String::new() }]
    );
}

#[test]
fn parse_rejects_broken_input() {
    assert!(parse_shortcuts(&[]).is_none());
    assert!(parse_shortcuts(&[0x01]).is_none());
    let mut truncated = vec![0x00u8];
    truncated.extend_from_slice(b"shortcuts\0");
    assert!(parse_shortcuts(&truncated).is_none());
    let mut bad_tag = truncated.clone();
    bad_tag.push(0x07);
    assert!(parse_shortcuts(&bad_tag).is_none());
}

#[test]
fn add_shortcut_appends_quoted_entry() {
    let bytes = add_shortcut(None, "Terraria (old)", "/games/Terraria_frozen/Terraria.exe").expect("added");
    let parsed = parse_shortcuts(&bytes).expect("parse");
    assert_eq!(
        parsed,
        vec![Shortcut {
            app_name: "Terraria (old)".into(),
            exe: "\"/games/Terraria_frozen/Terraria.exe\"".into(),
            start_dir: "\"/games/Terraria_frozen\"".into(),
        }]
    );
}

#[test]
fn add_shortcut_keeps_existing_entries() {
    let existing = serialize_shortcuts(&[Shortcut { app_name: "Other".into(), exe: "\"o.exe\"".into(), start_dir: "\"\"".into() }]);
    let bytes = add_shortcut(Some(&existing), "New", "n.exe").expect("added");
    let parsed = parse_shortcuts(&bytes).expect("parse");
    assert_eq!(parsed.len(), 2);
    assert_eq!(parsed[0].app_name, "Other");
    assert_eq!(parsed[1].exe, "\"n.exe\"");
    assert_eq!(parsed[1].start_dir, "\"\"");
}

#[test]
fn add_shortcut_treats_unparsable_file_as_empty() {
    let bytes = add_shortcut(Some(&[0xff, 0x00]), "G", "/a/g.exe").expect("added");
    assert_eq!(parse_shortcuts(&bytes).expect("parse").len(), 1);
}

#[test]
fn add_shortcut_skips_an_exact_duplicate() {
    let first = add_shortcut(None, "G", "/a/g.exe").expect("added");
    assert!(add_shortcut(Some(&first), "G", "/a/g.exe").is_none());
    // Another name or another executable is a different shortcut.
    assert!(add_shortcut(Some(&first), "H", "/a/g.exe").is_some());
    assert!(add_shortcut(Some(&first), "G", "/a/h.exe").is_some());
    // An entry stored without quotes is not the entry this tool writes.
    let unquoted = serialize_shortcuts(&[Shortcut { app_name: "G".into(), exe: "/a/g.exe".into(), start_dir: String::new() }]);
    assert!(add_shortcut(Some(&unquoted), "G", "/a/g.exe").is_some());
}

#[test]
fn remove_shortcut_drops_entries_inside_the_frozen_copy() {
    let list = vec![
        Shortcut { app_name: "Keep".into(), exe: "\"/games/Other/o.exe\"".into(), start_dir: "\"/games/Other\"".into() },
        Shortcut { app_name: "Old".into(), exe: "\"/games/T_frozen/t.exe\"".into(), start_dir: "\"/games/T_frozen\"".into() },
    ];
    let bytes = remove_shortcut(&serialize_shortcuts(&list), "/games/T_frozen").expect("changed");
    assert_eq!(parse_shortcuts(&bytes).expect("parse"), vec![list[0].clone()]);
}

#[test]
fn remove_shortcut_keeps_a_sibling_folder_with_a_longer_name() {
    let list = vec![
        Shortcut { app_name: "Sibling".into(), exe: "\"/games/T_frozen2/t.exe\"".into(), start_dir: String::new() },
        Shortcut { app_name: "Inside".into(), exe: "/games/T_frozen/bin/t.exe".into(), start_dir: String::new() },
    ];
    let bytes = remove_shortcut(&serialize_shortcuts(&list), "/games/T_frozen").expect("changed");
    assert_eq!(parse_shortcuts(&bytes).expect("parse"), vec![list[0].clone()]);
    let only_sibling = vec![list[0].clone()];
    assert!(remove_shortcut(&serialize_shortcuts(&only_sibling), "/games/T_frozen").is_none());
}

#[test]
fn remove_shortcut_reports_nothing_to_do() {
    let list = vec![Shortcut { app_name: "Keep".into(), exe: "\"/x/y.exe\"".into(), start_dir: String::new() }];
    assert!(remove_shortcut(&serialize_shortcuts(&list), "/games/T_frozen").is_none());
    assert!(remove_shortcut(&[0x05], "/games/T_frozen").is_none());
}

#[test]
fn shortcut_added_on_apply_is_removed_on_revert() {
    let existing = serialize_shortcuts(&[Shortcut { app_name: "Keep".into(), exe: "\"/x/k.exe\"".into(), start_dir: String::new() }]);
    let added = add_shortcut(Some(&existing), "Game (old)", "/games/G_frozen/bin/g.exe").expect("added");
    let removed = remove_shortcut(&added, "/games/G_frozen").expect("changed");
    assert_eq!(removed, existing);
}

#[test]
fn add_shortcut_twice_skips_it_also_next_to_an_entry_that_is_not_utf8() {
    let mut existing = serialize_shortcuts(&[Shortcut {
        app_name: "Old?".into(),
        exe: "\"o.exe\"".into(),
        start_dir: "\"\"".into(),
    }]);
    let at = existing.iter().position(|b| *b == b'?').expect("placeholder");
    existing[at] = 0xFF;
    let once = add_shortcut(Some(&existing), "New", "/g/n.exe").expect("added");
    assert_eq!(add_shortcut(Some(&once), "New", "/g/n.exe"), None);
}
