use rom_mod::patch::{
    collect_ops, decode, ips, output_names, patch_image, retroarch_cht, safe_component, safe_label,
    RomOp,
};
use rom_mod::rom::genesis;
use rom_mod::rom::check_image_size;
use rom_mod::server::request_allowed;
use sha1::{Digest, Sha1};
use rom_mod::rom::{load_bytes, Rom};

fn nes_image() -> Vec<u8> {
    let mut d = vec![0u8; 16 + 2 * 0x4000];
    d[..4].copy_from_slice(b"NES\x1a");
    d[4] = 2;
    for (i, b) in d.iter_mut().enumerate().skip(16) {
        *b = (i % 251) as u8;
    }
    d
}

fn nes_rom() -> Rom {
    load_bytes("games/Test Game (USA).nes", None, nes_image()).unwrap()
}

fn genesis_rom() -> Rom {
    let mut d = vec![0u8; 0x8000];
    d[0x100..0x110].copy_from_slice(b"SEGA MEGA DRIVE ");
    for (i, b) in d.iter_mut().enumerate().skip(0x200) {
        *b = (i % 97) as u8;
    }
    load_bytes("games/Sonic (World).md", None, d).unwrap()
}

/// Applies the records between `PATCH` and `EOF` to `data`, as an IPS reader does.
fn apply_ips(data: &[u8], p: &[u8]) -> Vec<u8> {
    let mut out = data.to_vec();
    let body = &p[5..];
    let mut i = 0;
    while &body[i..i + 3] != b"EOF" {
        let off = ((body[i] as usize) << 16) | ((body[i + 1] as usize) << 8) | body[i + 2] as usize;
        let len = ((body[i + 3] as usize) << 8) | body[i + 4] as usize;
        out[off..off + len].copy_from_slice(&body[i + 5..i + 5 + len]);
        i += 5 + len;
    }
    out
}

#[test]
fn ips_records_cover_changes() {
    let orig = vec![0u8; 16];
    let mut patched = orig.clone();
    patched[3] = 1;
    patched[4] = 2;
    patched[10] = 9;
    let p = ips(&orig, &patched).unwrap();
    assert_eq!(&p[..5], b"PATCH");
    assert_eq!(&p[p.len() - 3..], b"EOF");
    assert_eq!(&p[5..12], &[0, 0, 3, 0, 2, 1, 2]);
    assert_eq!(&p[12..18], &[0, 0, 10, 0, 1, 9]);
}

#[test]
fn labels_are_filename_safe() {
    assert_eq!(safe_label("Infinite lives: P1/P2?"), "Infinite lives P1 P2");
    assert_eq!(safe_label("   "), "Modded");
}

#[test]
fn path_components_reject_traversal() {
    assert_eq!(
        safe_component("Genesis Plus GX").as_deref(),
        Some("Genesis Plus GX")
    );
    assert_eq!(
        safe_component("Contra (USA) [Rev 1]").as_deref(),
        Some("Contra (USA) [Rev 1]")
    );
    assert_eq!(safe_component("..").as_deref(), None);
    assert_eq!(safe_component("../x").as_deref(), Some("x"));
    assert_eq!(safe_component("a/b\\c").as_deref(), Some("a b c"));
    assert_eq!(safe_component("   ").as_deref(), None);
}

#[test]
fn ips_identical_images_hold_no_records() {
    let d = vec![7u8; 32];
    assert_eq!(ips(&d, &d).unwrap(), b"PATCHEOF".to_vec());
}

#[test]
fn ips_splits_runs_longer_than_a_record() {
    let orig = vec![0u8; 0x10002];
    let mut patched = orig.clone();
    for b in patched.iter_mut().take(0x10000) {
        *b = 1;
    }
    let p = ips(&orig, &patched).unwrap();
    assert_eq!(&p[5..10], &[0, 0, 0, 0xFF, 0xFF]);
    let second = 10 + 0xFFFF;
    assert_eq!(&p[second..second + 6], &[0, 0xFF, 0xFF, 0, 1, 1]);
    assert_eq!(p.len(), 5 + 5 + 0xFFFF + 5 + 1 + 3);
    assert_eq!(apply_ips(&orig, &p), patched);
}

#[test]
fn ips_refuses_offsets_past_sixteen_megabytes() {
    let orig = vec![0u8; 0x1000001];
    let mut patched = orig.clone();
    patched[0x1000000] = 1;
    assert_eq!(ips(&orig, &patched).unwrap_err(), "IPS cannot address offset $1000000");
}

#[test]
fn ips_round_trip_restores_the_patched_image() {
    let orig: Vec<u8> = (0..300u32).map(|i| (i * 7 % 256) as u8).collect();
    let mut patched = orig.clone();
    patched[0] ^= 0xFF;
    for b in patched[100..140].iter_mut() {
        *b = b.wrapping_add(3);
    }
    patched[299] = 0;
    let p = ips(&orig, &patched).unwrap();
    assert_eq!(apply_ips(&orig, &p), patched);
}

#[test]
fn ips_compares_only_the_common_length() {
    let orig = vec![0u8; 4];
    let patched = vec![0u8, 0, 5, 0, 9, 9];
    let p = ips(&orig, &patched).unwrap();
    assert_eq!(p, b"PATCH\x00\x00\x02\x00\x01\x05EOF".to_vec());
}

#[test]
fn labels_lose_brackets_and_collapse_space() {
    assert_eq!(safe_label("[Hack]  <v2>"), "Hack v2");
    assert_eq!(safe_label("***"), "Modded");
}

#[test]
fn components_drop_controls_and_trim_dots() {
    assert_eq!(safe_component("a\u{7}b").as_deref(), Some("ab"));
    assert_eq!(safe_component(". name .").as_deref(), Some("name"));
    assert_eq!(safe_component("x:y*z").as_deref(), Some("x y z"));
    assert_eq!(safe_component("...").as_deref(), None);
}

#[test]
fn collect_ops_resolves_sorts_and_dedups() {
    let rom = nes_rom();
    let codes = vec!["A000:07".to_string(), "9234:05".to_string(), "9234:05".to_string()];
    let ops = collect_ops(&rom, &codes).unwrap();
    assert_eq!(ops.len(), 2);
    assert_eq!(ops[0].offset, 16 + 0x1234);
    assert_eq!(ops[0].new, vec![5]);
    assert_eq!(ops[0].old, vec![rom.data[16 + 0x1234]]);
    assert_eq!(ops[1].offset, 16 + 0x2000);
}

#[test]
fn collect_ops_refuses_ram_and_overlaps() {
    let rom = nes_rom();
    let err = collect_ops(&rom, &["0300:05".to_string()]).unwrap_err();
    assert_eq!(
        err,
        "0300:05: Runtime write to work RAM; delivered as an emulator cheat file"
    );
    let err = collect_ops(&rom, &["9234:05".to_string(), "9234:06".to_string()]).unwrap_err();
    assert_eq!(err, "two codes write overlapping bytes at $001244; pick one");
    let err = collect_ops(&rom, &["ZZZZ".to_string()]).unwrap_err();
    assert!(err.starts_with("ZZZZ: "));
}

#[test]
fn decode_marks_parts() {
    let rom = nes_rom();
    let parts = decode(&rom, "9234:05+0300:01");
    assert_eq!(parts.len(), 2);
    assert!(parts[0].patchable);
    assert!(!parts[1].patchable);
    assert_eq!(
        parts[1].notes,
        vec!["Runtime write to work RAM; delivered as an emulator cheat file".to_string()]
    );
    let same = rom.data[16 + 0x1234];
    let parts = decode(&rom, &format!("9234:{:02X}", same));
    assert!(parts[0].noop);
    assert_eq!(parts[0].notes, vec!["ROM already contains these bytes".to_string()]);
}

#[test]
fn patch_image_writes_bytes_and_builds_ips() {
    let rom = nes_rom();
    let ops = collect_ops(&rom, &["9234:05".to_string(), "A000:07".to_string()]).unwrap();
    let p = patch_image(&rom, &ops).unwrap();
    assert_eq!(p.data[16 + 0x1234], 5);
    assert_eq!(p.data[16 + 0x2000], 7);
    assert_eq!(p.data.len(), rom.data.len());
    assert!(p.checksum.is_none());
    let changed = (rom.data[16 + 0x1234] != 5) as usize + (rom.data[16 + 0x2000] != 7) as usize;
    assert_eq!(p.changed_bytes, changed);
    assert_eq!(p.sha1.len(), 40);
    assert_eq!(apply_ips(&rom.data, &p.ips), p.data);
}

#[test]
fn patch_image_refusals() {
    let rom = nes_rom();
    assert_eq!(patch_image(&rom, &[]).unwrap_err(), "nothing to patch");
    let far = RomOp {
        offset: rom.data.len() - 1,
        old: vec![0, 0],
        new: vec![1, 2],
    };
    assert_eq!(
        patch_image(&rom, &[far]).unwrap_err(),
        format!("patch at ${:06X} runs past the end of the ROM", rom.data.len() - 1)
    );
}

#[test]
fn patch_image_fixes_the_genesis_checksum() {
    let rom = genesis_rom();
    let ops = collect_ops(&rom, &["00639A:7200".to_string()]).unwrap();
    let p = patch_image(&rom, &ops).unwrap();
    assert_eq!(p.data[0x639A], 0x72);
    assert_eq!(p.data[0x639B], 0x00);
    let stored = u16::from_be_bytes([p.data[0x18E], p.data[0x18F]]);
    assert_eq!(genesis::compute_checksum(&p.data), stored);
    let (old, new) = p.checksum.unwrap();
    assert_eq!(old, "0000");
    assert_eq!(new, format!("{:04X}", stored));
}

#[test]
fn output_names_follow_the_source() {
    let rom = nes_rom();
    let n = output_names(&rom, "Lives: 99");
    assert_eq!(n.rom_file, "Test Game (USA) [Lives 99].nes");
    assert_eq!(n.ips_file, "Test Game (USA) [Lives 99].ips");
    let zipped = load_bytes("games/Pack.zip", Some("Inner (Japan).nes".to_string()), nes_image()).unwrap();
    let n = output_names(&zipped, "");
    assert_eq!(n.rom_file, "Pack [Modded].zip");
    assert_eq!(n.entry_file, "Pack [Modded].nes");
}

#[test]
fn retroarch_cheat_file_text() {
    let cheats = vec![
        ("Say \"hi\"".to_string(), "ABC-DEF".to_string()),
        ("Lives".to_string(), "0300:09".to_string()),
    ];
    let f = retroarch_cht("Genesis Plus GX", "Sonic (World)", &cheats).unwrap();
    assert_eq!(f.core_dir, "Genesis Plus GX");
    assert_eq!(f.file_name, "Sonic (World).cht");
    assert_eq!(
        f.text,
        "cheats = 2\n\ncheat0_desc = \"Say 'hi'\"\ncheat0_code = \"ABC-DEF\"\ncheat0_enable = true\n\ncheat1_desc = \"Lives\"\ncheat1_code = \"0300:09\"\ncheat1_enable = true\n\n"
    );
}

#[test]
fn retroarch_cheat_file_refusals() {
    let one = vec![("a".to_string(), "b".to_string())];
    assert_eq!(retroarch_cht("core", "x", &[]).unwrap_err(), "no cheats selected");
    assert_eq!(retroarch_cht("..", "x", &one).unwrap_err(), "invalid core name");
    assert_eq!(retroarch_cht("core", "/", &one).unwrap_err(), "invalid content name");
}

#[test]
fn loaded_images_carry_their_digests() {
    let rom = nes_rom();
    assert_eq!(rom.info.crc32, format!("{:08x}", crc32fast::hash(&rom.data)));
    let expect: String = Sha1::digest(&rom.data).iter().map(|b| format!("{b:02x}")).collect();
    assert_eq!(rom.info.sha1, expect);
    let ops = collect_ops(&rom, &["9234:05".to_string()]).unwrap();
    let p = patch_image(&rom, &ops).unwrap();
    let expect: String = Sha1::digest(&p.data).iter().map(|b| format!("{b:02x}")).collect();
    assert_eq!(p.sha1, expect);
}

#[test]
fn image_size_limit() {
    assert!(check_image_size(64 * 1024 * 1024).is_ok());
    assert_eq!(
        check_image_size(64 * 1024 * 1024 + 1).unwrap_err(),
        "ROM images larger than 64 MB are not supported"
    );
}

#[test]
fn requests_need_the_token_and_own_origin() {
    let own = "http://127.0.0.1:4310";
    assert!(request_allowed("t0k", Some("t0k"), None, own));
    assert!(request_allowed("t0k", Some("t0k"), Some(own), own));
    assert!(!request_allowed("t0k", None, None, own));
    assert!(!request_allowed("t0k", Some("nope"), None, own));
    assert!(!request_allowed("t0k", Some("t0k"), Some("http://evil.example"), own));
}

#[test]
fn ips_never_starts_a_record_at_the_eof_offset() {
    let orig = vec![0u8; 0x454F50];
    let mut patched = orig.clone();
    patched[0x454F46] = 1;
    patched[0x454F4A] = 2;
    let p = ips(&orig, &patched).unwrap();
    assert_eq!(&p[5..10], &[0x45, 0x4F, 0x45, 0x00, 0x02]);
    assert_eq!(&p[10..12], &[0x00, 0x01]);
    assert_eq!(apply_ips(&orig, &p), patched);
}

#[test]
fn components_keep_only_single_spaces() {
    assert_eq!(safe_component("a\u{2003}b\t c").as_deref(), Some("a b c"));
    assert_eq!(safe_component(" x \u{a0}\u{2003} y ").as_deref(), Some("x y"));
    assert_eq!(safe_component("\u{2003}.\t"), None);
}
