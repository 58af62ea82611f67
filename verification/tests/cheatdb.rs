use rom_mod::cheatdb::{
    cache_file_name, cache_fresh, cache_text, cached_names, cht_url, listing_sha, status_error,
    tree_names, find, index_names, norm, parse_cht, percent_encode,
    system_dir, system_sha, title_of, tree_url,
};
use rom_mod::rom::Platform;

#[test]
fn parses_cht_pairs() {
    let t = "cheats = 2\n\ncheat0_desc = \"Infinite Energy P1\"\ncheat0_code = \"ALAA-AA9C\"\ncheat0_enable = false\n\ncheat1_desc = \"Two\"\ncheat1_code = \"A+B\"\n";
    let v = parse_cht(t);
    assert_eq!(v.len(), 2);
    assert_eq!(v[0].desc, "Infinite Energy P1");
    assert_eq!(v[1].code, "A+B");
}

#[test]
fn matching_ignores_punctuation() {
    assert_eq!(norm("Mortal Kombat II (World)"), "mortalkombatiiworld");
    assert_eq!(title_of("Contra (USA)"), "contra");
}

#[test]
fn percent_encoding_keeps_unreserved() {
    assert_eq!(
        percent_encode("Sega - Mega Drive"),
        "Sega%20-%20Mega%20Drive"
    );
    assert_eq!(percent_encode("Contra (USA)"), "Contra%20%28USA%29");
}

#[test]
fn percent_encoding_escapes_utf8_bytes() {
    assert_eq!(percent_encode("Pok\u{e9}mon_~."), "Pok%C3%A9mon_~.");
}

#[test]
fn cht_orders_by_number_and_keeps_last_value() {
    let t = "cheat2_code = \"C\"\r\ncheat0_code = \"A\"\ncheat2_desc = \"Third\"\ncheat0_code = \"A2\"\ncheat1_code = \"\"\ncheat5_desc = \"no code\"\ncheatx_code = \"bad\"\n";
    let v = parse_cht(t);
    assert_eq!(v.len(), 2);
    assert_eq!(v[0].desc, "Cheat 0");
    assert_eq!(v[0].code, "A2");
    assert_eq!(v[1].desc, "Third");
    assert_eq!(v[1].code, "C");
}

#[test]
fn cht_values_lose_quotes_and_space() {
    let v = parse_cht("  cheat+3_code =   \"  1234:56 \"  ");
    assert_eq!(v.len(), 1);
    assert_eq!(v[0].code, "1234:56");
    assert_eq!(v[0].desc, "Cheat 3");
}

#[test]
fn titles_stop_at_the_first_tag() {
    assert_eq!(title_of("Sonic the Hedgehog 2 (World) (Rev A)"), "sonicthehedgehog2");
    assert_eq!(title_of("NoTags"), "notags");
    assert_eq!(title_of("A(B) (C)"), "ab");
}

#[test]
fn find_prefers_exact_then_titles_then_prefixes() {
    let names: Vec<String> = vec![
        "Contra (USA)".to_string(),
        "Contra (Japan)".to_string(),
        "Super Contra (USA)".to_string(),
        "Contra Force (USA)".to_string(),
    ];
    let m = find(&names, "Contra (USA)");
    assert_eq!(m.exact.as_deref(), Some("Contra (USA)"));
    assert_eq!(m.candidates, vec!["Contra (Japan)".to_string(), "Contra (USA)".to_string()]);
    let m = find(&names, "Contra Force II (Europe)");
    assert_eq!(m.exact, None);
    assert_eq!(m.candidates, vec!["Contra (Japan)".to_string(), "Contra (USA)".to_string(), "Contra Force (USA)".to_string()]);
    let m = find(&names, "Con (USA)");
    assert!(m.candidates.is_empty());
}

#[test]
fn find_keeps_at_most_twenty_four() {
    let names: Vec<String> = (0..30).map(|i| format!("Game (Disc {:02})", 29 - i)).collect();
    let m = find(&names, "Game (USA)");
    assert_eq!(m.candidates.len(), 24);
    assert_eq!(m.candidates[0], "Game (Disc 00)");
    assert_eq!(m.candidates[23], "Game (Disc 23)");
}

#[test]
fn index_helpers() {
    assert!(cache_fresh(100, 50));
    assert!(!cache_fresh(50 + 7 * 24 * 3600, 50));
    assert!(cache_fresh(10, 50));
    let entries = vec![
        (Some("Other".to_string()), Some("1".to_string())),
        (Some(system_dir(Platform::Snes).to_string()), Some("abc".to_string())),
    ];
    assert_eq!(system_sha(&entries, Platform::Snes).unwrap(), "abc");
    assert_eq!(
        system_sha(&entries, Platform::Nes).unwrap_err(),
        "system folder missing from the database listing"
    );
    let names = index_names(&["A (USA).cht".to_string(), "readme.md".to_string()]).unwrap();
    assert_eq!(names, vec!["A (USA)".to_string()]);
    assert_eq!(
        index_names(&["x.txt".to_string()]).unwrap_err(),
        "database index came back empty"
    );
}

#[test]
fn cache_names_and_urls() {
    assert_eq!(cache_file_name("Contra (USA) / v1.0"), "Contra _USA_ _ v1.0.cht");
    assert_eq!(
        cht_url(Platform::Genesis, "Sonic (World)"),
        "https://raw.githubusercontent.com/libretro/libretro-database/master/cht/Sega%20-%20Mega%20Drive%20-%20Genesis/Sonic%20%28World%29.cht"
    );
    assert_eq!(
        tree_url("abc123"),
        "https://api.github.com/repos/libretro/libretro-database/git/trees/abc123"
    );
}

#[test]
fn refused_requests_say_why() {
    assert_eq!(status_error(404, ""), "not found");
    assert_eq!(status_error(403, "rate limited"), "GitHub returned 403: rate limited");
}

#[test]
fn listing_picks_the_platform_folder() {
    let text = r#"[{"name":"Atari - 2600","sha":"111"},{"name":"Sega - Mega Drive - Genesis","sha":"abc","type":"dir"}]"#;
    assert_eq!(listing_sha(text, Platform::Genesis).unwrap(), "abc");
    assert_eq!(
        listing_sha(text, Platform::Nes).unwrap_err(),
        "system folder missing from the database listing"
    );
    assert_eq!(
        listing_sha("{}", Platform::Nes).unwrap_err(),
        "system folder missing from the database listing"
    );
    assert!(listing_sha("not json", Platform::Nes).is_err());
}

#[test]
fn tree_keeps_cheat_files() {
    let text = r#"{"sha":"x","tree":[{"path":"Contra (USA).cht"},{"path":"README.md"},{"mode":"100644"}]}"#;
    assert_eq!(tree_names(text).unwrap(), vec!["Contra (USA)".to_string()]);
    assert_eq!(tree_names("{}").unwrap_err(), "database index came back empty");
    assert!(tree_names("[").is_err());
}

#[test]
fn cache_round_trip() {
    let names = vec!["A \"quoted\" name".to_string(), "B".to_string()];
    let text = cache_text(1000, &names);
    assert_eq!(text, r#"{"fetched":1000,"names":["A \"quoted\" name","B"]}"#);
    assert_eq!(cached_names(&text, 1000 + 60), Some(names));
    assert_eq!(cached_names(&text, 1000 + 7 * 24 * 3600), None);
    assert_eq!(cached_names("garbage", 0), None);
    assert_eq!(cached_names(r#"{"names":["x",3]}"#, 100), Some(vec!["x".to_string()]));
    assert_eq!(cached_names(r#"{"fetched":90}"#, 100), None);
    assert_eq!(cached_names(r#"{"fetched":90,"names":["x",3]}"#, 100), Some(vec!["x".to_string()]));
}

#[test]
fn folding_keeps_letters_and_digits() {
    assert_eq!(norm("A-b C! 3"), "abc3");
    assert_eq!(norm("Ålesund"), "ålesund");
}

#[test]
fn cache_text_escapes_like_json() {
    let names = vec![
        "tab\there".to_string(),
        "line\n".to_string(),
        "ctl\u{1}\u{1f}".to_string(),
        "back\\slash".to_string(),
        "é".to_string(),
    ];
    assert_eq!(
        cache_text(7, &names),
        r#"{"fetched":7,"names":["tab\there","line\n","ctl\u0001\u001f","back\\slash","é"]}"#
    );
    assert_eq!(cache_text(0, &[]), r#"{"fetched":0,"names":[]}"#);
}
