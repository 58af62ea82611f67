use rom_mod::cheatdb::{DbCheat, Match};
use rom_mod::report::{hexs, info_lines, part_lines};
use rom_mod::patch::{collect_ops, decode};
use rom_mod::rom::{load_bytes, sort_library, LibraryEntry, Platform, Rom};
use rom_mod::server::{chosen_name, classify, classify_all, decode_lines, split_label};

fn nes_rom() -> Rom {
    let mut d = vec![0u8; 16 + 2 * 0x4000];
    d[..4].copy_from_slice(b"NES\x1a");
    d[4] = 2;
    for (i, b) in d.iter_mut().enumerate().skip(16) {
        *b = (i % 251) as u8;
    }
    load_bytes("games/Test Game (USA).nes", None, d).unwrap()
}

#[test]
fn classify_sorts_cheats_into_kinds() {
    let rom = nes_rom();
    let c = classify(&rom, "Lives", "9234:05");
    assert!(c.patchable && !c.runtime && !c.broken);
    assert_eq!(c.desc, "Lives");
    let c = classify(&rom, "Timer", "0300:05");
    assert!(c.runtime && !c.patchable && !c.broken);
    let c = classify(&rom, "Bad", "QQQQ");
    assert!(c.broken && !c.patchable);
    let c = classify(&rom, "Nothing", "");
    assert!(c.broken && c.parts.is_empty());
    let same = rom.data[16 + 0x1234];
    let c = classify(&rom, "Same", &format!("9234:{:02X}", same));
    assert!(c.patchable && c.noop);
    let c = classify(&rom, "Mixed", "9234:05+0300:01");
    assert!(c.runtime && !c.patchable);
}

#[test]
fn typed_lines_split_at_the_first_equals() {
    assert_eq!(split_label("  Lives = 9234:05 "), ("Lives".to_string(), "9234:05".to_string()));
    assert_eq!(split_label("9234:05"), ("9234:05".to_string(), "9234:05".to_string()));
    assert_eq!(split_label("a=b=c"), ("a".to_string(), "b=c".to_string()));
    assert_eq!(split_label("label ="), ("label".to_string(), "".to_string()));
}

#[test]
fn decode_lines_skips_lines_without_code() {
    let rom = nes_rom();
    let lines = vec![
        "Lives = 9234:05".to_string(),
        "empty =".to_string(),
        "A000:07".to_string(),
    ];
    let v = decode_lines(&rom, &lines);
    assert_eq!(v.len(), 2);
    assert_eq!(v[0].desc, "Lives");
    assert_eq!(v[1].desc, "A000:07");
    assert!(v[1].patchable);
}

#[test]
fn classify_all_keeps_database_order() {
    let rom = nes_rom();
    let cheats = vec![
        DbCheat { desc: "one".to_string(), code: "0300:01".to_string() },
        DbCheat { desc: "two".to_string(), code: "9234:05".to_string() },
    ];
    let v = classify_all(&rom, &cheats);
    assert_eq!(v.len(), 2);
    assert!(v[0].runtime);
    assert_eq!(v[1].code, "9234:05");
}

#[test]
fn chosen_name_prefers_the_request() {
    let m = Match { exact: Some("Exact (USA)".to_string()), candidates: vec!["Only".to_string()] };
    assert_eq!(chosen_name(Some("Asked".to_string()), &m).as_deref(), Some("Asked"));
    assert_eq!(chosen_name(Some("  ".to_string()), &m).as_deref(), Some("Exact (USA)"));
    let m = Match { exact: None, candidates: vec!["Only".to_string()] };
    assert_eq!(chosen_name(None, &m).as_deref(), Some("Only"));
    let m = Match { exact: None, candidates: vec!["A".to_string(), "B".to_string()] };
    assert_eq!(chosen_name(None, &m), None);
}

#[test]
fn hex_pairs_are_upper_case_and_spaced() {
    assert_eq!(hexs(&[0x0A, 0xFF, 0x00]), "0A FF 00");
    assert_eq!(hexs(&[]), "");
}

#[test]
fn part_lines_show_writes_and_notes() {
    let rom = nes_rom();
    let parts = decode(&rom, "9234:05+0300:01+XYZ");
    let old = rom.data[16 + 0x1234];
    assert_eq!(
        part_lines(&parts[0]),
        vec![
            "9234:05      Raw                $009234 = $05".to_string(),
            format!("             file $001244: {:02X} -> 05", old),
        ]
    );
    assert_eq!(
        part_lines(&parts[1]),
        vec![
            "0300:01      Raw                RAM $000300 = $01  (runtime cheat)".to_string(),
            "             Runtime write to work RAM; delivered as an emulator cheat file".to_string(),
        ]
    );
    assert!(part_lines(&parts[2])[0].starts_with("XYZ          "));
    assert!(part_lines(&parts[2])[0].contains(" error: "));
}

#[test]
fn info_lines_report_the_image() {
    let rom = nes_rom();
    let lines = info_lines(&rom);
    assert_eq!(lines[0], "Test Game (USA)");
    assert_eq!(lines[1], "  platform   NES");
    assert!(lines.iter().any(|l| l == "  region     USA"));
    assert!(lines.iter().any(|l| l == "  size       32 KB"));
    assert!(lines.iter().any(|l| l.starts_with("  sha1       ") && l.len() == 13 + 40));
}

fn entry(id: &str, name: &str, platform: Platform) -> LibraryEntry {
    LibraryEntry {
        id: id.to_string(),
        name: name.to_string(),
        platform,
        path: format!("/roms/{name}"),
        entry: None,
        bytes: 1,
    }
}

#[test]
fn library_sorts_by_platform_then_name_and_drops_repeats() {
    let v = vec![
        entry("3", "zelda", Platform::Snes),
        entry("1", "Contra", Platform::Nes),
        entry("2", "alpha", Platform::Nes),
        entry("1", "contra", Platform::Nes),
        entry("4", "Sonic", Platform::Genesis),
    ];
    let s = sort_library(v);
    let names: Vec<&str> = s.iter().map(|e| e.name.as_str()).collect();
    assert_eq!(names, vec!["alpha", "Contra", "zelda", "Sonic"]);
}

#[test]
fn patchable_cheats_build() {
    let rom = nes_rom();
    for code in ["9234:05", "9234:05+A000:01", "0300:05", "QQQQ"] {
        let c = classify(&rom, "x", code);
        if c.patchable {
            assert!(collect_ops(&rom, &[code.to_string()]).is_ok());
        } else {
            assert!(collect_ops(&rom, &[code.to_string()]).is_err());
        }
    }
}
