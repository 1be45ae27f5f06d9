use steam_downgrader::vdf::{extract_kv_value, extract_library_paths, next_quoted, patch_acf, set_kv};

#[test]
fn patch_acf_replaces_existing_and_adds_missing() {
    let acf = "\"AppState\"\n{\n\t\"appid\"\t\t\"105600\"\n\t\"StateFlags\"\t\t\"4\"\n\t\"buildid\"\t\t\"111\"\n}\n";
    let patched = patch_acf(acf);
    assert!(patched.contains("\"StateFlags\"\t\t\"6\""));
    assert!(patched.contains("\"AutoUpdateBehavior\"\t\t\"1\""));
    // appid is preserved
    assert!(patched.contains("\"appid\"\t\t\"105600\""));
}

#[test]
fn extract_installdir_from_acf() {
    let acf = "\"AppState\"\n{\n\t\"appid\"\t\t\"105600\"\n\t\"installdir\"\t\t\"Terraria\"\n}\n";
    assert_eq!(extract_kv_value(acf, "installdir"), Some("Terraria".into()));
}

#[test]
fn extract_library_paths_parses_all() {
    let vdf = "\"libraryfolders\"\n{\n\t\"0\"\n\t{\n\t\t\"path\"\t\t\"C:\\\\Program Files (x86)\\\\Steam\"\n\t}\n\t\"1\"\n\t{\n\t\t\"path\"\t\t\"D:\\\\SteamLibrary\"\n\t}\n}\n";
    let paths = extract_library_paths(vdf);
    assert_eq!(paths.len(), 2);
    assert!(paths[1].contains("SteamLibrary"));
}

#[test]
fn library_paths_are_unescaped() {
    let vdf = "\"libraryfolders\"\n{\n\t\"0\"\n\t{\n\t\t\"path\"\t\t\"C:\\\\Program Files (x86)\\\\Steam\"\n\t}\n\t\"1\"\n\t{\n\t\t\"path\"\t\t\"D:\\\\SteamLibrary\"\n\t}\n}\n";
    let paths = extract_library_paths(vdf);
    assert_eq!(paths, vec!["C:\\Program Files (x86)\\Steam".to_string(), "D:\\SteamLibrary".to_string()]);
}

#[test]
fn next_quoted_takes_the_first_pair_of_quotes() {
    assert_eq!(next_quoted("\t\t\"abc\" \"def\""), Some("abc".to_string()));
    assert_eq!(next_quoted("no quotes"), None);
    assert_eq!(next_quoted("one \" only"), None);
    assert_eq!(next_quoted("\"\""), Some(String::new()));
}

#[test]
fn missing_key_reads_as_none() {
    let acf = "\"AppState\"\n{\n\t\"appid\"\t\t\"105600\"\n}\n";
    assert_eq!(extract_kv_value(acf, "installdir"), None);
}

#[test]
fn set_kv_replaces_the_whole_line_keeping_indentation() {
    let acf = "\"AppState\"\n{\n\t\t\"StateFlags\"\t\"4\" trailing\n}\n";
    assert_eq!(set_kv(acf, "StateFlags", "6"), "\"AppState\"\n{\n\t\t\"StateFlags\"\t\t\"6\"\n}\n");
}

#[test]
fn set_kv_inserts_before_the_last_brace() {
    let acf = "\"AppState\"\n{\n\t\"appid\"\t\t\"1\"\n}\n";
    assert_eq!(
        set_kv(acf, "AutoUpdateBehavior", "1"),
        "\"AppState\"\n{\n\t\"appid\"\t\t\"1\"\n\t\"AutoUpdateBehavior\"\t\t\"1\"\n}\n"
    );
}

#[test]
fn set_kv_appends_without_a_brace() {
    assert_eq!(set_kv("plain", "k", "v"), "plain\n\"k\"\t\t\"v\"\n");
}

#[test]
fn set_kv_then_read_gives_the_value() {
    let acf = "\"AppState\"\n{\n\t\"StateFlags\"\t\t\"4\"\n}\n";
    let out = set_kv(acf, "StateFlags", "1026");
    assert_eq!(extract_kv_value(&out, "StateFlags"), Some("1026".to_string()));
    let out2 = set_kv(acf, "LastOwner", "76561198000000000");
    assert_eq!(extract_kv_value(&out2, "LastOwner"), Some("76561198000000000".to_string()));
}

#[test]
fn patched_acf_reads_back_the_freeze_flags() {
    let acf = "\"AppState\"\n{\n\t\"appid\"\t\t\"105600\"\n\t\"StateFlags\"\t\t\"4\"\n}\n";
    let patched = patch_acf(acf);
    assert_eq!(extract_kv_value(&patched, "StateFlags"), Some("6".to_string()));
    assert_eq!(extract_kv_value(&patched, "AutoUpdateBehavior"), Some("1".to_string()));
    assert_eq!(extract_kv_value(&patched, "appid"), Some("105600".to_string()));
}

#[test]
fn patch_acf_on_a_one_line_manifest_sets_both_keys() {
    // The missing pair goes on a line of its own before the closing brace, so
    // setting StateFlags afterwards (which rewrites its whole line) keeps it.
    let patched = patch_acf("{ \"StateFlags\" \"4\" }");
    assert_eq!(patched, "\"StateFlags\"\t\t\"6\"\n\t\"AutoUpdateBehavior\"\t\t\"1\"\n}");
    assert_eq!(extract_kv_value(&patched, "AutoUpdateBehavior"), Some("1".to_string()));
    assert_eq!(extract_kv_value(&patched, "StateFlags"), Some("6".to_string()));
}

#[test]
fn set_kv_puts_the_new_pair_on_its_own_line() {
    let c = "{ \"a\" \"b\" }";
    let once = set_kv(c, "k", "v");
    assert_eq!(once, "{ \"a\" \"b\" \n\t\"k\"\t\t\"v\"\n}");
    assert_eq!(set_kv(&once, "k", "v"), once);
}

#[test]
fn set_kv_twice_is_set_kv_once() {
    let acf = "\"AppState\"\n{\n\t\"appid\"\t\t\"105600\"\n\t\"StateFlags\"\t\t\"4\"\n}\n";
    let once = set_kv(acf, "AutoUpdateBehavior", "1");
    assert_eq!(set_kv(&once, "AutoUpdateBehavior", "1"), once);
    let replaced = set_kv(acf, "StateFlags", "6");
    assert_eq!(set_kv(&replaced, "StateFlags", "6"), replaced);
    let patched = patch_acf(acf);
    assert_eq!(patch_acf(&patched), patched);
}
