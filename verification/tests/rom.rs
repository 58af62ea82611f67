use rom_mod::rom::genesis::{self, compute_checksum as gen_checksum, deinterleave_smd};
use rom_mod::rom::nes::{self, resolve, NesHeader};
use rom_mod::rom::snes::{compute_checksum, fix_checksum, map_to_offset, MapMode, SnesHeader};
use rom_mod::rom::{entry_id, ext_of, hex, human_size, region_from_name, sniff, stem_of, Platform};

fn fake(mapper: u16, prg_banks_16k: u8) -> (NesHeader, Vec<u8>) {
    let mut d = vec![0u8; 16 + prg_banks_16k as usize * 0x4000];
    d[..4].copy_from_slice(b"NES\x1a");
    d[4] = prg_banks_16k;
    d[6] = ((mapper & 0x0F) << 4) as u8;
    d[7] = (mapper & 0xF0) as u8;
    for (i, b) in d.iter_mut().enumerate().skip(16) {
        *b = (i % 251) as u8;
    }
    (nes::parse(&d).unwrap(), d)
}

#[test]
fn nrom_resolves_to_one_offset() {
    let (h, d) = fake(0, 2);
    let (offs, _) = resolve(&h, &d, 0x9234, None);
    assert_eq!(offs, vec![16 + 0x1234]);
    let (h16, d16) = fake(0, 1);
    let (offs, _) = resolve(&h16, &d16, 0xD234, None);
    assert_eq!(offs, vec![16 + 0x1234]);
}

#[test]
fn uxrom_fixed_bank_is_unique_and_switchable_is_not() {
    let (h, d) = fake(2, 8);
    let (offs, notes) = resolve(&h, &d, 0xDAD2, None);
    assert_eq!(offs, vec![16 + 7 * 0x4000 + 0x1AD2]);
    assert!(notes.is_empty());
    let (offs, _) = resolve(&h, &d, 0x9000, None);
    assert_eq!(offs.len(), 8);
}

#[test]
fn compare_mismatch_in_fixed_bank_falls_back_to_scan() {
    let (h, d) = fake(2, 4);
    let fixed = 16 + 3 * 0x4000 + 0x0100;
    let (offs, notes) = resolve(&h, &d, 0xC100, Some(d[fixed]));
    assert_eq!(offs, vec![fixed]);
    assert!(notes.is_empty());
    let wrong = d[fixed].wrapping_add(1);
    let (offs, notes) = resolve(&h, &d, 0xC100, Some(wrong));
    assert!(offs.iter().all(|&o| d[o] == wrong));
    assert!(!notes.is_empty());
}

#[test]
fn mmc3_tail_is_last_8k() {
    let (h, d) = fake(4, 8);
    let (offs, _) = resolve(&h, &d, 0xFFFC, None);
    assert_eq!(offs, vec![16 + 8 * 0x4000 - 0x2000 + 0x1FFC]);
}

#[test]
fn resolve_notes_spell_out_the_search() {
    let (h, d) = fake(0, 2);
    let (offs, notes) = resolve(&h, &d, 0x1234, None);
    assert!(offs.is_empty());
    assert_eq!(notes, vec!["$1234 is outside the cartridge range $8000-$FFFF".to_string()]);
    let (h, d) = fake(2, 2);
    let (offs, notes) = resolve(&h, &d, 0x8010, None);
    assert_eq!(offs.len(), 2);
    assert_eq!(
        notes,
        vec!["No compare byte; applied to all 2 banks that can map $8010".to_string()]
    );
    let (h, d) = fake(0xF0, 1);
    let (_, notes) = resolve(&h, &d, 0x8000, None);
    assert_eq!(
        notes,
        vec![
            "Mapper 240 has no bank table entry; assuming 8 KB banks".to_string(),
            "No compare byte; applied to all 2 banks that can map $8000".to_string()
        ]
    );
}

#[test]
fn nes_inspect_fields() {
    let (_, d) = fake(4, 8);
    let (info, h) = nes::inspect(&d).unwrap();
    assert_eq!(h.mapper, 4);
    assert_eq!(h.prg_size, 8 * 16384);
    assert_eq!(info.fields[0].value, "iNES");
    assert_eq!(info.fields[1].value, "128 KB");
    assert_eq!(info.fields[2].value, "RAM");
    assert_eq!(info.fields[3].value, "4 \u{b7} 8 KB banks");
    assert_eq!(info.fields[4].value, "horizontal");
    assert_eq!(nes::parse(b"NES").unwrap_err(), "not an iNES file");
}

fn lorom() -> SnesHeader {
    SnesHeader {
        copier_header: 0,
        map: MapMode::LoRom,
        header_at: 0x7FC0,
        title: String::new(),
        map_byte: 0x20,
        rom_type: 0,
        rom_size_code: 0,
        sram_code: 0,
        country: 1,
        version: 0,
        complement: 0,
        checksum: 0,
    }
}

#[test]
fn checksum_pair_is_self_consistent() {
    // Build a fake 64 KB LoROM image with a header block and verify fix_checksum
    // produces a pair that validates when recomputed.
    let mut d = vec![0x37u8; 0x10000];
    let h = lorom();
    let (_, sum) = fix_checksum(&mut d, &h);
    let stored = u16::from_le_bytes([d[0x7FDE], d[0x7FDF]]);
    let comp = u16::from_le_bytes([d[0x7FDC], d[0x7FDD]]);
    assert_eq!(stored, sum);
    assert_eq!(stored ^ comp, 0xFFFF);
    assert_eq!(compute_checksum(&d, 0x7FC0), sum);
}

#[test]
fn snes_checksum_values() {
    // 64 KB of 0x37, with the checksum bytes counted as 0x1FE: 0x37 * 0xFFFC + 0x1FE.
    let d = vec![0x37u8; 0x10000];
    assert_eq!(compute_checksum(&d, 0x7FC0) as u32, (0x37u32 * 0xFFFC + 0x1FE) & 0xFFFF);
    // A 48 KB image: the 16 KB tail is counted twice to fill 64 KB.
    let mut d = vec![0u8; 0xC000];
    d[0x8000] = 1;
    assert_eq!(compute_checksum(&d, 0x100000), 2);
    assert_eq!(compute_checksum(&[], 0), 0);
}

#[test]
fn lorom_and_hirom_mapping() {
    let lo = lorom();
    assert_eq!(map_to_offset(&lo, 0x008000, 0x100000), Some(0));
    assert_eq!(map_to_offset(&lo, 0x01FFFF, 0x100000), Some(0xFFFF));
    assert_eq!(map_to_offset(&lo, 0x818000, 0x100000), Some(0x8000));
    assert_eq!(map_to_offset(&lo, 0x7E0000, 0x100000), None);
    let hi = SnesHeader {
        map: MapMode::HiRom,
        header_at: 0xFFC0,
        ..lo.clone()
    };
    assert_eq!(map_to_offset(&hi, 0xC00000, 0x100000), Some(0));
    assert_eq!(map_to_offset(&hi, 0x408000, 0x100000), Some(0x8000));
    assert_eq!(map_to_offset(&hi, 0x7E1234, 0x100000), None);
}

#[test]
fn mapping_wraps_only_power_of_two_sizes() {
    let lo = lorom();
    assert_eq!(map_to_offset(&lo, 0x208000, 0x80000), Some(0x100000 % 0x80000));
    assert_eq!(map_to_offset(&lo, 0x208000, 0xC0000), None);
    let copier = SnesHeader { copier_header: 512, ..lorom() };
    assert_eq!(map_to_offset(&copier, 0x008000, 0x80200), Some(512));
    assert_eq!(map_to_offset(&copier, 0x008000, 100), None);
}

#[test]
fn smd_deinterleave_round_trip() {
    // Build a 2-block plain image, interleave it by hand, and check we get it back.
    let plain: Vec<u8> = (0..32768u32).map(|i| (i * 7 % 251) as u8).collect();
    let mut smd = vec![0u8; 512];
    smd[8] = 0xAA;
    smd[9] = 0xBB;
    for blk in plain.chunks(16384) {
        let mut odd = Vec::new();
        let mut even = Vec::new();
        for (i, b) in blk.iter().enumerate() {
            if i % 2 == 1 {
                odd.push(*b)
            } else {
                even.push(*b)
            }
        }
        smd.extend(odd);
        smd.extend(even);
    }
    assert_eq!(deinterleave_smd(&smd), plain);
}

#[test]
fn checksum_sums_words_after_header() {
    let mut d = vec![0u8; 0x204];
    d[0x200] = 0x12;
    d[0x201] = 0x34;
    d[0x202] = 0x00;
    d[0x203] = 0x01;
    assert_eq!(gen_checksum(&d), 0x1235);
}

#[test]
fn genesis_fix_checksum_then_verifies() {
    let mut d = vec![0u8; 0x205];
    d[0x200] = 0xFF;
    d[0x201] = 0xFF;
    d[0x202] = 0x00;
    d[0x203] = 0x02;
    d[0x204] = 0x03;
    let (old, new) = genesis::fix_checksum(&mut d);
    assert_eq!(old, 0);
    assert_eq!(new, (0xFFFFu32 + 0x0002 + 0x0300) as u16);
    assert_eq!(u16::from_be_bytes([d[0x18E], d[0x18F]]), new);
    assert_eq!(gen_checksum(&d), new);
}

#[test]
fn genesis_header_text_and_region() {
    let mut d = vec![0u8; 0x200];
    d[0x100..0x110].copy_from_slice(b"SEGA MEGA DRIVE ");
    d[0x120..0x130].copy_from_slice(b"SONIC  THE     H");
    d[0x1F0..0x1F3].copy_from_slice(b"JUE");
    d[0x1B0] = b'R';
    d[0x1B1] = b'A';
    let h = genesis::parse(&d).unwrap();
    assert_eq!(h.system, "SEGA MEGA DRIVE");
    assert_eq!(h.domestic_title, "SONIC THE H");
    assert_eq!(h.region, "Japan, USA, Europe");
    assert!(h.sram);
    d[0x1F0..0x1F3].copy_from_slice(b"4  ");
    assert_eq!(genesis::parse(&d).unwrap().region, "USA");
    let (info, _) = genesis::inspect(&d).unwrap();
    assert_eq!(info.title, "SONIC THE H");
    assert_eq!(info.fields[3].value, "0 KB");
    assert!(genesis::parse(&[0u8; 0x100]).is_err());
}

#[test]
fn paths_platforms_and_sizes() {
    assert_eq!(ext_of("roms/Contra (USA).NES"), "nes");
    assert_eq!(ext_of("roms/.hidden"), "");
    assert_eq!(ext_of("archive.tar.gz"), "gz");
    assert_eq!(ext_of("noext"), "");
    assert_eq!(stem_of("a/b/Sonic (World).md"), "Sonic (World)");
    assert_eq!(stem_of("a/b/"), "b");
    assert_eq!(Platform::from_ext("SFC"), Some(Platform::Snes));
    assert_eq!(Platform::from_ext("bin"), None);
    assert_eq!(sniff("bin", b"NES\x1a...."), Some(Platform::Nes));
    assert_eq!(sniff("bin", b"xx"), None);
    assert_eq!(hex(&[0x00, 0xAB, 0x7f]), "00ab7f");
    assert_eq!(human_size(4096), "4 KB");
    assert_eq!(human_size(1 << 20), "1 MB");
    assert_eq!(human_size(1536 * 1024), "1.50 MB");
    assert_eq!(human_size((1 << 20) + 5000), "1 MB");
    assert_eq!(human_size(3 * (1 << 20) - 5000), "3 MB");
    assert_eq!(human_size(1179648), "1.12 MB");
    assert_eq!(region_from_name("Game (USA, Europe)"), "USA, Europe");
    assert_eq!(region_from_name("Sonic The Hedgehog (USA, Europe)"), "USA, Europe");
    assert_eq!(region_from_name("Contra (USA)"), "USA");
    assert_eq!(region_from_name("Tetris"), "");
    assert_eq!(region_from_name("Game (En,Fr) (Europe, Asia"), "Europe, Asia");
    assert_eq!(region_from_name("Game (Japan) (World)"), "Japan, World");
    assert_eq!(region_from_name("Game"), "");
}

#[test]
fn library_ids_ignore_letter_case() {
    assert_eq!(entry_id("Roms/Contra (USA).NES"), entry_id("roms/contra (usa).nes"));
    assert_ne!(entry_id("roms/contra.nes"), entry_id("roms/contra2.nes"));
    assert_eq!(entry_id("x").len(), 16);
}

#[test]
fn resolved_offsets_ascend_inside_prg() {
    let (h, d) = fake(2, 8);
    let (offs, _) = resolve(&h, &d, 0x9000, None);
    assert_eq!(offs.len(), 8);
    assert!(offs.windows(2).all(|w| w[0] < w[1]));
    assert!(offs.iter().all(|&o| (16..16 + 8 * 0x4000).contains(&o)));
    let (offs, _) = resolve(&h, &d, 0x9000, Some(d[offs[3]]));
    assert!(offs.windows(2).all(|w| w[0] < w[1]));
    assert!(!offs.is_empty());
}

#[test]
fn checksum_counts_a_tail_as_if_mirrored() {
    let body: Vec<u8> = (0..0x30000usize).map(|i| (i * 7 % 253) as u8).collect();
    let mut mirrored = body.clone();
    mirrored.extend_from_slice(&body[0x20000..]);
    assert_eq!(mirrored.len(), 0x40000);
    assert_eq!(compute_checksum(&body, 0x7FC0), compute_checksum(&mirrored, 0x7FC0));
    let odd: Vec<u8> = body[..0x28000].to_vec();
    let mut four = odd.clone();
    for _ in 0..3 {
        four.extend_from_slice(&odd[0x20000..]);
    }
    assert_eq!(compute_checksum(&odd, 0x7FC0), compute_checksum(&four, 0x7FC0));
}

#[test]
fn checksum_ignores_the_field_in_a_tail_counted_once() {
    let mut a: Vec<u8> = (0..0x38000usize).map(|i| (i * 13 % 251) as u8).collect();
    let hdr = 0x30000;
    let before = compute_checksum(&a, hdr);
    for k in 0x1C..0x20 {
        a[hdr + k] = a[hdr + k].wrapping_add(0x55);
    }
    assert_eq!(compute_checksum(&a, hdr), before);
}
