use rom_mod::codes::{genesis_game_genie, nes_game_genie, parse, parse_one, snes_game_genie, Op};
use rom_mod::rom::Platform;

#[test]
fn genesis_game_genie_known_vectors() {
    // Mortal Kombat II (World): verified against the ROM bytes.
    assert_eq!(
        genesis_game_genie("ALAA-AA9C").unwrap(),
        Op::Rom {
            cpu_addr: 0x0080E2,
            value: 0x6002,
            width: 2,
            compare: None
        }
    );
    assert_eq!(
        genesis_game_genie("ABVT-BE64").unwrap(),
        Op::Rom {
            cpu_addr: 0x00639A,
            value: 0x7200,
            width: 2,
            compare: None
        }
    );
}

#[test]
fn genesis_action_replay_kinds() {
    let ram = parse(Platform::Genesis, "FFB622:0078");
    assert_eq!(
        ram[0].op,
        Some(Op::Ram {
            addr: 0xFFB622,
            value: 0x78,
            width: 2
        })
    );
    let rom = parse(Platform::Genesis, "00639A:7200");
    assert_eq!(
        rom[0].op,
        Some(Op::Rom {
            cpu_addr: 0x639A,
            value: 0x7200,
            width: 2,
            compare: None
        })
    );
}

#[test]
fn nes_game_genie_shapes() {
    let six = nes_game_genie("SXIOPO").unwrap();
    let eight = nes_game_genie("ZEXPYGLA").unwrap();
    assert!(matches!(
        six,
        Op::Rom {
            compare: None,
            width: 1,
            ..
        }
    ));
    assert!(matches!(
        eight,
        Op::Rom {
            compare: Some(_),
            width: 1,
            ..
        }
    ));
    assert!(nes_game_genie("SXIOP").is_err());
    assert!(nes_game_genie("BBBBBB").is_err());
}

#[test]
fn nes_game_genie_bit_layout() {
    assert_eq!(
        nes_game_genie("AAAAAA").unwrap(),
        Op::Rom {
            cpu_addr: 0x8000,
            value: 0,
            width: 1,
            compare: None
        }
    );
    assert_eq!(
        nes_game_genie("NNNNNN").unwrap(),
        Op::Rom {
            cpu_addr: 0xFFFF,
            value: 0xFF,
            width: 1,
            compare: None
        }
    );
}

#[test]
fn snes_game_genie_bit_layout() {
    assert_eq!(
        snes_game_genie("DDDD-DDDD").unwrap(),
        Op::Rom {
            cpu_addr: 0,
            value: 0,
            width: 1,
            compare: None
        }
    );
    assert_eq!(
        snes_game_genie("EEEE-EEEE").unwrap(),
        Op::Rom {
            cpu_addr: 0xFFFFFF,
            value: 0xFF,
            width: 1,
            compare: None
        }
    );
}

#[test]
fn snes_action_replay_kinds() {
    assert_eq!(
        parse(Platform::Snes, "7E0DBF:63")[0].op,
        Some(Op::Ram {
            addr: 0x7E0DBF,
            value: 0x63,
            width: 1
        })
    );
    assert_eq!(
        parse(Platform::Snes, "C0FFEE:EA")[0].op,
        Some(Op::Rom {
            cpu_addr: 0xC0FFEE,
            value: 0xEA,
            width: 1,
            compare: None
        })
    );
}

#[test]
fn multipart_codes_split() {
    let parts = parse(Platform::Genesis, "9VVT-BCRJ+SBVT-AAGL+EKVT-BPRN");
    assert_eq!(parts.len(), 3);
    assert!(parts.iter().all(|p| p.op.is_some()));
}

#[test]
fn separators_split_parts_and_are_dropped() {
    let parts = parse(Platform::Nes, " SXIOPO,  ZEXPYGLA +AAAAAA ");
    assert_eq!(parts.len(), 3);
    assert_eq!(parts[0].raw, "SXIOPO");
    assert_eq!(parts[1].raw, "ZEXPYGLA");
    assert_eq!(parts[2].raw, "AAAAAA");
    assert!(parse(Platform::Nes, " + , ").is_empty());
}

#[test]
fn nes_raw_codes() {
    let p = parse_one(Platform::Nes, "8123?4F:0a");
    assert_eq!(p.format, "Raw");
    assert_eq!(
        p.op,
        Some(Op::Rom {
            cpu_addr: 0x8123,
            value: 0x0A,
            width: 1,
            compare: Some(0x4F)
        })
    );
    let ram = parse_one(Platform::Nes, "07A0:09");
    assert_eq!(
        ram.op,
        Some(Op::Ram {
            addr: 0x07A0,
            value: 9,
            width: 1
        })
    );
    assert_eq!(
        parse_one(Platform::Nes, "12345:01").error.as_deref(),
        Some("raw NES codes are AAAA:VV")
    );
    assert_eq!(
        parse_one(Platform::Nes, "zz:01").error.as_deref(),
        Some("'ZZ' is not hexadecimal")
    );
    // The compare field is one byte.
    assert_eq!(
        parse_one(Platform::Nes, "8000?1FF:00").error.as_deref(),
        Some("raw NES codes are AAAA?CC:VV")
    );
}

#[test]
fn nes_game_genie_errors() {
    assert_eq!(
        nes_game_genie("SXIOPQ").unwrap_err(),
        "NES Game Genie codes use only the letters APZLGITYEOXUKSVN"
    );
    assert_eq!(nes_game_genie("SXIOPOA").unwrap_err(), "NES Game Genie codes are 6 or 8 letters");
    assert_eq!(parse_one(Platform::Nes, "sxiopo").format, "Game Genie");
}

#[test]
fn snes_codes_errors_and_unknown() {
    assert_eq!(snes_game_genie("DDD-DDDD").unwrap_err(), "SNES Game Genie codes are XXXX-XXXX");
    assert_eq!(
        snes_game_genie("DDDD-DDDG").unwrap_err(),
        "SNES Game Genie codes use the digits DF4709156BC8A23E"
    );
    let u = parse_one(Platform::Snes, "hello");
    assert_eq!(u.format, "Unknown");
    assert_eq!(
        u.error.as_deref(),
        Some("expected Game Genie XXXX-XXXX or Action Replay AAAAAA:VV")
    );
    // The low 8 KB of a system bank is work RAM.
    assert_eq!(
        parse_one(Platform::Snes, "801234:01").op,
        Some(Op::Ram {
            addr: 0x801234,
            value: 1,
            width: 1
        })
    );
}

#[test]
fn genesis_codes_errors() {
    assert_eq!(
        genesis_game_genie("ALAA-AAIC").unwrap_err(),
        "'I' is not a Mega Drive Game Genie character"
    );
    assert_eq!(
        genesis_game_genie("ALAA-AA9").unwrap_err(),
        "Mega Drive Game Genie codes are XXXX-XXXX"
    );
    assert_eq!(
        parse_one(Platform::Genesis, "500000:0001").error.as_deref(),
        Some("$500000 is neither ROM nor work RAM")
    );
    assert_eq!(
        parse_one(Platform::Genesis, "E01234:12").op,
        Some(Op::Ram {
            addr: 0xFF1234,
            value: 0x12,
            width: 1
        })
    );
    assert_eq!(
        parse_one(Platform::Genesis, "12345:12").error.as_deref(),
        Some("Action Replay codes are AAAAAA:VVVV or AAAAAA:VV")
    );
}

#[test]
fn raw_nes_compare_is_one_byte() {
    let p = parse_one(Platform::Nes, "8000?1FF:EA");
    assert_eq!(p.op, None);
    assert_eq!(p.error.as_deref(), Some("raw NES codes are AAAA?CC:VV"));
    let p = parse_one(Platform::Nes, "8000?FF:EA");
    assert_eq!(
        p.op,
        Some(Op::Rom { cpu_addr: 0x8000, value: 0xEA, width: 1, compare: Some(0xFF) })
    );
}

#[test]
fn game_genie_codes_reach_every_bit_once() {
    let rom = |cpu_addr: u32, value: u32, width: u8| Op::Rom {
        cpu_addr,
        value,
        width,
        compare: None,
    };
    assert_eq!(snes_game_genie("DDDD-DDDF").unwrap(), rom(0x400, 0, 1));
    assert_eq!(snes_game_genie("FDDD-DDDD").unwrap(), rom(0, 0x10, 1));
    assert_ne!(snes_game_genie("DDDD-DDDF"), snes_game_genie("DDDD-DDFD"));
    assert_eq!(genesis_game_genie("AAAA-AAAA").unwrap(), rom(0, 0, 2));
    assert_eq!(genesis_game_genie("AAAA-AAAB").unwrap(), rom(1, 0, 2));
    assert_eq!(genesis_game_genie("9999-9999").unwrap(), rom(0xFFFFFF, 0xFFFF, 2));
    assert_ne!(genesis_game_genie("AAAA-AAAB"), genesis_game_genie("AAAA-AABA"));
}

#[test]
fn parsing_joined_codes_parses_each_part() {
    let view = |v: Vec<rom_mod::codes::Parsed>| -> Vec<(String, Option<Op>, Option<String>)> {
        v.into_iter().map(|p| (p.raw, p.op, p.error)).collect()
    };
    let a = "SXIOPO";
    let b = "8123?4F:0a";
    let mut both = view(parse(Platform::Nes, a));
    both.extend(view(parse(Platform::Nes, b)));
    assert_eq!(view(parse(Platform::Nes, &format!("{a}+{b}"))), both);
    assert!(parse(Platform::Snes, "").is_empty());
}

#[test]
fn letter_case_does_not_change_a_decoded_part() {
    for (platform, part) in [
        (Platform::Nes, "sxiopo"),
        (Platform::Nes, "8123?4f:0a"),
        (Platform::Snes, "dd62-d4d4"),
        (Platform::Snes, "7e0dbf:ff"),
        (Platform::Genesis, "alaa-aa9c"),
        (Platform::Genesis, "ffc000:0a"),
        (Platform::Genesis, "abcd"),
    ] {
        let lower = parse_one(platform, part);
        let upper = parse_one(platform, &part.to_ascii_uppercase());
        assert_eq!(lower.format, upper.format);
        assert_eq!(lower.op, upper.op);
        assert_eq!(lower.error, upper.error);
        assert_ne!(lower.op.is_some(), lower.error.is_some());
    }
}

#[test]
fn nes_game_genie_compare_byte_only_with_eight_letters() {
    assert!(matches!(nes_game_genie("SXIOPO").unwrap(), Op::Rom { compare: None, width: 1, .. }));
    assert!(matches!(nes_game_genie("ZEXPYGLA").unwrap(), Op::Rom { compare: Some(_), width: 1, .. }));
    assert!(nes_game_genie("SXIOP").is_err());
}
