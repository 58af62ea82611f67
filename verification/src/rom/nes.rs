//! iNES / NES 2.0 header handling and CPU address to PRG offset resolution.
use vstd::prelude::*;
use crate::number::{dec, hex_text};
use crate::rom::{
    blank_info, blank_view, field, human_size, spec_human_size, RomInfo, RomInfoView,
};
use crate::text::{owned, push_dec, push_hex, push_str};

verus! {

broadcast use vstd::string::group_string_axioms;

/// The fields of an iNES or NES 2.0 header.
#[derive(Clone, Debug)]
pub struct NesHeader {
    pub prg_size: usize,
    pub chr_size: usize,
    pub mapper: u16,
    pub submapper: u8,
    pub mirroring: String,
    pub battery: bool,
    pub trainer: bool,
    pub nes2: bool,
    pub prg_offset: usize,
}

pub struct NesHeaderView {
    pub prg_size: usize,
    pub chr_size: usize,
    pub mapper: u16,
    pub submapper: u8,
    pub mirroring: Seq<char>,
    pub battery: bool,
    pub trainer: bool,
    pub nes2: bool,
    pub prg_offset: usize,
}

impl View for NesHeader {
    type V = NesHeaderView;

    open spec fn view(&self) -> NesHeaderView {
        NesHeaderView {
            prg_size: self.prg_size,
            chr_size: self.chr_size,
            mapper: self.mapper,
            submapper: self.submapper,
            mirroring: self.mirroring@,
            battery: self.battery,
            trainer: self.trainer,
            nes2: self.nes2,
            prg_offset: self.prg_offset,
        }
    }
}

/// The iNES magic `NES\x1A`.
pub open spec fn nes_magic() -> Seq<u8> {
    seq![0x4Eu8, 0x45, 0x53, 0x1A]
}

pub open spec fn is_nes2(d: Seq<u8>) -> bool {
    d[7] & 0x0C == 0x08
}

/// Number of 16 KB PRG units: byte 4, extended by the low nibble of byte 9 in NES 2.0.
pub open spec fn prg_units(d: Seq<u8>) -> usize {
    if is_nes2(d) {
        (d[4] as usize) | (((d[9] & 0x0F) as usize) << 8usize)
    } else {
        d[4] as usize
    }
}

/// Number of 8 KB CHR units: byte 5, extended by the high nibble of byte 9 in NES 2.0.
pub open spec fn chr_units(d: Seq<u8>) -> usize {
    if is_nes2(d) {
        (d[5] as usize) | (((d[9] >> 4u8) as usize) << 8usize)
    } else {
        d[5] as usize
    }
}

/// The mapper number: high nibbles of bytes 6 and 7, and in NES 2.0 the low nibble of byte 8.
pub open spec fn mapper_number(d: Seq<u8>) -> u16 {
    let base = ((d[6] >> 4u8) as u16) | ((d[7] & 0xF0) as u16);
    if is_nes2(d) {
        base | (((d[8] & 0x0F) as u16) << 8u16)
    } else {
        base
    }
}

pub open spec fn mirroring_of(b6: u8) -> Seq<char> {
    if b6 & 8 != 0 {
        "four-screen"@
    } else if b6 & 1 != 0 {
        "vertical"@
    } else {
        "horizontal"@
    }
}

/// What the 16-byte header of an iNES or NES 2.0 image says.
pub open spec fn spec_parse(d: Seq<u8>) -> Result<NesHeaderView, Seq<char>> {
    if d.len() < 16 || d.take(4) != nes_magic() {
        Err("not an iNES file"@)
    } else {
        let trainer = d[6] & 4 != 0;
        Ok(
            NesHeaderView {
                prg_size: (prg_units(d) * 16384) as usize,
                chr_size: (chr_units(d) * 8192) as usize,
                mapper: mapper_number(d),
                submapper: if is_nes2(d) {
                    d[8] >> 4u8
                } else {
                    0
                },
                mirroring: mirroring_of(d[6]),
                battery: d[6] & 2 != 0,
                trainer,
                nes2: is_nes2(d),
                prg_offset: if trainer {
                    528
                } else {
                    16
                },
            },
        )
    }
}

pub open spec fn header_view(r: Result<NesHeader, String>) -> Result<NesHeaderView, Seq<char>> {
    match r {
        Ok(h) => Ok(h@),
        Err(e) => Err(e@),
    }
}

/// Reads the iNES / NES 2.0 header.
pub fn parse(d: &[u8]) -> (r: Result<NesHeader, String>)
    ensures
        header_view(r) == spec_parse(d@),
        r matches Ok(h) ==> h.prg_size <= 0xFFF * 16384 && h.prg_offset <= 528,
{
    if d.len() < 16 || !(d[0] == 0x4E && d[1] == 0x45 && d[2] == 0x53 && d[3] == 0x1A) {
        proof {
            if d@.len() >= 16 {
                assert(d@.take(4)[0] == d@[0] && d@.take(4)[1] == d@[1] && d@.take(4)[2] == d@[2]
                    && d@.take(4)[3] == d@[3]);
            }
        }
        return Err(owned("not an iNES file"));
    }
    assert(d@.take(4) =~= nes_magic());
    let nes2 = d[7] & 0x0C == 0x08;
    let mut prg = d[4] as usize;
    let mut chr = d[5] as usize;
    let mut mapper = ((d[6] >> 4u8) as u16) | ((d[7] & 0xF0) as u16);
    let mut submapper: u8 = 0;
    if nes2 {
        mapper = mapper | (((d[8] & 0x0F) as u16) << 8u16);
        submapper = d[8] >> 4u8;
        prg = prg | (((d[9] & 0x0F) as usize) << 8usize);
        chr = chr | (((d[9] >> 4u8) as usize) << 8usize);
    }
    let b4 = d[4];
    let b5 = d[5];
    let b9 = d[9];
    assert((b4 as usize) | (((b9 & 0x0F) as usize) << 8usize) <= 0xFFF) by (bit_vector);
    assert((b5 as usize) | (((b9 >> 4u8) as usize) << 8usize) <= 0xFFF) by (bit_vector);
    let trainer = d[6] & 4 != 0;
    let battery = d[6] & 2 != 0;
    let mirroring = if d[6] & 8 != 0 {
        owned("four-screen")
    } else if d[6] & 1 != 0 {
        owned("vertical")
    } else {
        owned("horizontal")
    };
    let prg_offset: usize = if trainer {
        528
    } else {
        16
    };
    Ok(
        NesHeader {
            prg_size: prg * 16384,
            chr_size: chr * 8192,
            mapper,
            submapper,
            mirroring,
            battery,
            trainer,
            nes2,
            prg_offset,
        },
    )
}

/// Size of the switchable PRG window for common mappers. `None` means unknown.
pub open spec fn spec_bank_window(mapper: u16) -> Option<usize> {
    match mapper {
        0 | 3 | 7 | 11 | 13 | 34 | 38 | 66 | 79 | 87 | 101 | 113 | 140 | 185 => Some(0x8000),
        1 | 2 | 10 | 71 | 94 | 152 | 180 | 232 => Some(0x4000),
        4 | 5 | 9 | 16 | 18 | 19 | 21 | 22 | 23 | 24 | 25 | 26 | 33 | 48 | 64 | 65 | 67 | 68 | 69
        | 74 | 76 | 80 | 82 | 85 | 88 | 95 | 118 | 119 | 154 | 206 | 210 => Some(0x2000),
        _ => None,
    }
}

pub fn bank_window(mapper: u16) -> (r: Option<usize>)
    ensures
        r == spec_bank_window(mapper),
{
    match mapper {
        0 | 3 | 7 | 11 | 13 | 34 | 38 | 66 | 79 | 87 | 101 | 113 | 140 | 185 => Some(0x8000),
        1 | 2 | 10 | 71 | 94 | 152 | 180 | 232 => Some(0x4000),
        4 | 5 | 9 | 16 | 18 | 19 | 21 | 22 | 23 | 24 | 25 | 26 | 33 | 48 | 64 | 65 | 67 | 68 | 69
        | 74 | 76 | 80 | 82 | 85 | 88 | 95 | 118 | 119 | 154 | 206 | 210 => Some(0x2000),
        _ => None,
    }
}

/// How a mapper hard-wires part of the CPU window to PRG.
#[derive(Clone, Copy)]
pub enum Fixed {
    /// CPU addresses from `start` up always show the last `size` bytes of PRG.
    Tail { start: u32, size: usize },
    /// CPU addresses below `end` always show the first `size` bytes of PRG.
    Head { end: u32, size: usize },
}

pub open spec fn spec_fixed_region(mapper: u16) -> Option<Fixed> {
    match mapper {
        1 | 2 | 10 | 71 | 94 | 152 | 232 => Some(Fixed::Tail { start: 0xC000, size: 0x4000 }),
        180 => Some(Fixed::Head { end: 0xC000, size: 0x4000 }),
        9 => Some(Fixed::Tail { start: 0xA000, size: 0x6000 }),
        4 | 19 | 24 | 26 | 33 | 48 | 64 | 65 | 67 | 68 | 69 | 74 | 76 | 88 | 95 | 118 | 119 | 154
        | 206 | 210 => Some(Fixed::Tail { start: 0xE000, size: 0x2000 }),
        _ => None,
    }
}

fn fixed_region(mapper: u16) -> (r: Option<Fixed>)
    ensures
        r == spec_fixed_region(mapper),
{
    match mapper {
        1 | 2 | 10 | 71 | 94 | 152 | 232 => Some(Fixed::Tail { start: 0xC000, size: 0x4000 }),
        180 => Some(Fixed::Head { end: 0xC000, size: 0x4000 }),
        9 => Some(Fixed::Tail { start: 0xA000, size: 0x6000 }),
        4 | 19 | 24 | 26 | 33 | 48 | 64 | 65 | 67 | 68 | 69 | 74 | 76 | 88 | 95 | 118 | 119 | 154
        | 206 | 210 => Some(Fixed::Tail { start: 0xE000, size: 0x2000 }),
        _ => None,
    }
}

/// The one PRG offset a hard-wired bank gives for `cpu`, if the mapper has one covering it.
pub open spec fn fixed_offset(h: NesHeaderView, cpu: u32) -> Option<int> {
    match spec_fixed_region(h.mapper) {
        Some(Fixed::Tail { start, size }) => if cpu >= start && h.prg_size >= size {
            Some(h.prg_offset + h.prg_size - size + (cpu - start))
        } else {
            None
        },
        Some(Fixed::Head { end, size }) => if cpu < end && h.prg_size >= size {
            Some(h.prg_offset + (cpu - 0x8000))
        } else {
            None
        },
        None => None,
    }
}

/// The bank size used when scanning: the mapper's window, 8 KB when unknown, never more than
/// the PRG size (or 1).
pub open spec fn scan_window(h: NesHeaderView) -> nat {
    let w: nat = match spec_bank_window(h.mapper) {
        Some(w) => w as nat,
        None => 0x2000,
    };
    let cap: nat = if h.prg_size > 1 {
        h.prg_size as nat
    } else {
        1
    };
    if w < cap {
        w
    } else {
        cap
    }
}

pub open spec fn scan_banks(h: NesHeaderView) -> nat {
    let b = (h.prg_size as nat) / scan_window(h);
    if b > 1 {
        b
    } else {
        1
    }
}

/// Every PRG offset at which a bank could put `cpu`, one per bank, keeping those inside the
/// file.
pub open spec fn scan_offsets(h: NesHeaderView, len: nat, cpu: u32) -> Seq<usize> {
    let w = scan_window(h);
    let rel = ((cpu - 0x8000) as nat) % w;
    Seq::new(scan_banks(h), |b: int| (h.prg_offset + b * w + rel) as usize).filter(
        |o: usize| o < len,
    )
}

pub open spec fn outside_msg(cpu: u32) -> Seq<char> {
    "$"@ + hex_text(cpu as nat, 4, true) + " is outside the cartridge range $8000-$FFFF"@
}

pub open spec fn fixed_mismatch_msg(held: u8, cpu: u32, c: u8) -> Seq<char> {
    "Fixed bank holds $"@ + hex_text(held as nat, 2, true) + " at $"@ + hex_text(cpu as nat, 4, true)
        + ", not the compare byte $"@ + hex_text(c as nat, 2, true) + "; scanning every bank"@
}

pub open spec fn unknown_mapper_msg(m: u16) -> Seq<char> {
    "Mapper "@ + dec(m as nat) + " has no bank table entry; assuming 8 KB banks"@
}

pub open spec fn compare_missing_msg(c: u8, cpu: u32, before: nat) -> Seq<char> {
    "Compare byte $"@ + hex_text(c as nat, 2, true) + " was not found at $"@ + hex_text(
        cpu as nat,
        4,
        true,
    ) + " in any of "@ + dec(before) + " bank(s); the code may target another revision"@
}

pub open spec fn all_banks_msg(n: nat, cpu: u32) -> Seq<char> {
    "No compare byte; applied to all "@ + dec(n) + " banks that can map $"@ + hex_text(
        cpu as nat,
        4,
        true,
    )
}

/// All PRG file offsets that can appear at `cpu`, filtered by the compare byte if given, with
/// notes on how they were found.
pub open spec fn spec_resolve(h: NesHeaderView, d: Seq<u8>, cpu: u32, compare: Option<u8>) -> (
    Seq<usize>,
    Seq<Seq<char>>,
) {
    if !(0x8000 <= cpu && cpu <= 0xFFFF) {
        (Seq::empty(), seq![outside_msg(cpu)])
    } else {
        let fx = fixed_offset(h, cpu);
        let hit = fx is Some && fx.unwrap() < d.len();
        let o = fx.unwrap();
        if hit && !(compare is Some && d[o] != compare.unwrap()) {
            (seq![o as usize], Seq::empty())
        } else {
            let n1: Seq<Seq<char>> = if hit {
                seq![fixed_mismatch_msg(d[o], cpu, compare.unwrap())]
            } else {
                Seq::empty()
            };
            let n2 = if spec_bank_window(h.mapper) is None {
                n1.push(unknown_mapper_msg(h.mapper))
            } else {
                n1
            };
            let offs = scan_offsets(h, d.len(), cpu);
            match compare {
                Some(c) => {
                    let kept = offs.filter(|x: usize| d[x as int] == c);
                    (
                        kept,
                        if kept.len() == 0 {
                            n2.push(compare_missing_msg(c, cpu, offs.len()))
                        } else {
                            n2
                        },
                    )
                },
                None => (
                    offs,
                    if offs.len() > 1 {
                        n2.push(all_banks_msg(offs.len(), cpu))
                    } else {
                        n2
                    },
                ),
            }
        }
    }
}

pub open spec fn strings_view(v: Seq<String>) -> Seq<Seq<char>> {
    v.map_values(|s: String| s@)
}

proof fn lemma_scan_bound(off: nat, p: nat, w: nat, b: nat, rel: nat, banks: nat)
    requires
        w >= 1,
        w <= (if p > 1 { p } else { 1 }),
        banks == (if p / w > 1 { p / w } else { 1 }),
        b < banks,
        rel < w,
    ensures
        b * w + rel < (if p > 1 { p } else { 1 }),
{
    if p / w > 1 {
        assert(b * w + rel < (p / w) * w) by (nonlinear_arith)
            requires
                b + 1 <= p / w,
                rel < w,
                w >= 1,
        ;
        assert((p / w) * w <= p) by (nonlinear_arith)
            requires
                w >= 1,
        ;
    } else {
        assert(b == 0);
    }
}

fn scan(h: &NesHeader, d: &[u8], cpu_addr: u32) -> (r: Vec<usize>)
    requires
        h.prg_offset + h.prg_size + 1 <= usize::MAX,
        0x8000 <= cpu_addr <= 0xFFFF,
    ensures
        r@ == scan_offsets(h@, d@.len(), cpu_addr),
        forall|i: int| 0 <= i < r@.len() ==> #[trigger] r@[i] < d@.len(),
{
    let w0: usize = match bank_window(h.mapper) {
        Some(w) => w,
        None => 0x2000,
    };
    let cap: usize = if h.prg_size > 1 {
        h.prg_size
    } else {
        1
    };
    let window = if w0 < cap {
        w0
    } else {
        cap
    };
    let rel = ((cpu_addr - 0x8000) as usize) % window;
    let b0 = h.prg_size / window;
    let banks = if b0 > 1 {
        b0
    } else {
        1
    };
    let ghost w = scan_window(h@);
    let ghost f = |b: int| (h.prg_offset + b * w + rel) as usize;
    let ghost keep = |o: usize| o < d@.len();
    assert(window == w);
    assert(banks == scan_banks(h@));
    let mut out: Vec<usize> = Vec::new();
    let mut b: usize = 0;
    while b < banks
        invariant
            b <= banks,
            banks == scan_banks(h@),
            window == w,
            w == scan_window(h@),
            w >= 1,
            rel == ((cpu_addr - 0x8000) as nat) % w,
            rel < w,
            h.prg_offset + h.prg_size + 1 <= usize::MAX,
            f == (|b: int| (h.prg_offset + b * w + rel) as usize),
            keep == (|o: usize| o < d@.len()),
            out@ == Seq::new(b as nat, f).filter(keep),
        decreases banks - b,
    {
        proof {
            lemma_scan_bound(h.prg_offset as nat, h.prg_size as nat, w, b as nat, rel as nat, banks as nat);
        }
        assert(b * window + rel <= usize::MAX) by (nonlinear_arith)
            requires
                b * window + rel <= (if h.prg_size > 1 { h.prg_size as int } else { 1 }),
        ;
        let o = h.prg_offset + b * window + rel;
        proof {
            Seq::new(b as nat, f).lemma_filter_push(o, keep);
            assert(Seq::new((b + 1) as nat, f) =~= Seq::new(b as nat, f).push(o));
        }
        if o < d.len() {
            out.push(o);
        }
        b = b + 1;
    }
    proof {
        assert forall|i: int| 0 <= i < out@.len() implies #[trigger] out@[i] < d@.len() by {
            Seq::new(banks as nat, f).lemma_filter_pred(keep, i);
        }
    }
    out
}


fn hex4(s: &mut String, v: u32)
    ensures
        final(s)@ == old(s)@ + hex_text(v as nat, 4, true),
{
    push_hex(s, v as u64, 4, true);
}

fn hex2(s: &mut String, v: u8)
    ensures
        final(s)@ == old(s)@ + hex_text(v as nat, 2, true),
{
    push_hex(s, v as u64, 2, true);
}

/// All PRG file offsets that can appear at `cpu_addr`, filtered by the compare byte if given.
pub fn resolve(h: &NesHeader, d: &[u8], cpu_addr: u32, compare: Option<u8>) -> (r: (
    Vec<usize>,
    Vec<String>,
))
    requires
        h.prg_offset + h.prg_size + 1 <= usize::MAX,
    ensures
        r.0@ == spec_resolve(h@, d@, cpu_addr, compare).0,
        strings_view(r.1@) == spec_resolve(h@, d@, cpu_addr, compare).1,
        forall|i: int| 0 <= i < r.0@.len() ==> #[trigger] r.0@[i] < d@.len(),
        forall|i: int|
            0 <= i < r.0@.len() && compare is Some ==> d@[#[trigger] r.0@[i] as int]
                == compare.unwrap(),
{
    let mut notes: Vec<String> = Vec::new();
    if !(0x8000 <= cpu_addr && cpu_addr <= 0xFFFF) {
        let mut m = owned("$");
        hex4(&mut m, cpu_addr);
        push_str(&mut m, " is outside the cartridge range $8000-$FFFF");
        notes.push(m);
        assert(strings_view(notes@) =~= seq![outside_msg(cpu_addr)]);
        return (Vec::new(), notes);
    }
    let fx: Option<usize> = match fixed_region(h.mapper) {
        Some(Fixed::Tail { start, size }) => {
            if cpu_addr >= start && h.prg_size >= size {
                Some(h.prg_offset + h.prg_size - size + (cpu_addr - start) as usize)
            } else {
                None
            }
        },
        Some(Fixed::Head { end, size }) => {
            if cpu_addr < end && h.prg_size >= size {
                Some(h.prg_offset + (cpu_addr - 0x8000) as usize)
            } else {
                None
            }
        },
        None => None,
    };
    assert(match fx {
        Some(o) => fixed_offset(h@, cpu_addr) == Some(o as int),
        None => fixed_offset(h@, cpu_addr) is None,
    });
    let ghost hit = fixed_offset(h@, cpu_addr) is Some && fixed_offset(h@, cpu_addr).unwrap() < d@.len();
    if let Some(o) = fx {
        if o < d.len() {
            match compare {
                Some(c) => {
                    if d[o] != c {
                        let mut m = owned("Fixed bank holds $");
                        hex2(&mut m, d[o]);
                        push_str(&mut m, " at $");
                        hex4(&mut m, cpu_addr);
                        push_str(&mut m, ", not the compare byte $");
                        hex2(&mut m, c);
                        push_str(&mut m, "; scanning every bank");
                        notes.push(m);
                        assert(strings_view(notes@) =~= seq![fixed_mismatch_msg(d@[o as int], cpu_addr, c)]);
                    } else {
                        let mut one: Vec<usize> = Vec::new();
                        one.push(o);
                        assert(strings_view(notes@) =~= Seq::<Seq<char>>::empty());
                        return (one, notes);
                    }
                },
                None => {
                    let mut one: Vec<usize> = Vec::new();
                    one.push(o);
                    assert(strings_view(notes@) =~= Seq::<Seq<char>>::empty());
                    return (one, notes);
                },
            }
        }
    }
    let ghost n1 = strings_view(notes@);
    assert(n1 == (if hit {
        seq![fixed_mismatch_msg(d@[fixed_offset(h@, cpu_addr).unwrap()], cpu_addr, compare.unwrap())]
    } else {
        Seq::<Seq<char>>::empty()
    }));
    if bank_window(h.mapper).is_none() {
        let mut m = owned("Mapper ");
        push_dec(&mut m, h.mapper as u64);
        push_str(&mut m, " has no bank table entry; assuming 8 KB banks");
        notes.push(m);
        assert(strings_view(notes@) =~= n1.push(unknown_mapper_msg(h.mapper)));
    }
    let ghost n2 = strings_view(notes@);
    let offs = scan(h, d, cpu_addr);
    match compare {
        Some(c) => {
            let before = offs.len();
            let ghost keep = |x: usize| d@[x as int] == c;
            let mut kept: Vec<usize> = Vec::new();
            let mut i: usize = 0;
            while i < offs.len()
                invariant
                    i <= offs@.len(),
                    forall|j: int| 0 <= j < offs@.len() ==> #[trigger] offs@[j] < d@.len(),
                    keep == (|x: usize| d@[x as int] == c),
                    kept@ == offs@.take(i as int).filter(keep),
                decreases offs.len() - i,
            {
                proof {
                    offs@.take(i as int).lemma_filter_push(offs@[i as int], keep);
                    assert(offs@.take(i + 1) == offs@.take(i as int).push(offs@[i as int]));
                }
                if d[offs[i]] == c {
                    kept.push(offs[i]);
                }
                i = i + 1;
            }
            assert(offs@.take(offs@.len() as int) == offs@);
            if kept.len() == 0 {
                let mut m = owned("Compare byte $");
                hex2(&mut m, c);
                push_str(&mut m, " was not found at $");
                hex4(&mut m, cpu_addr);
                push_str(&mut m, " in any of ");
                push_dec(&mut m, before as u64);
                push_str(&mut m, " bank(s); the code may target another revision");
                notes.push(m);
                assert(strings_view(notes@) =~= n2.push(compare_missing_msg(c, cpu_addr, offs@.len())));
            }
            proof {
                assert forall|j: int| 0 <= j < kept@.len() implies #[trigger] kept@[j] < d@.len() && d@[kept@[j] as int] == c by {
                    offs@.lemma_filter_pred(keep, j);
                    assert(offs@.filter(keep).contains(kept@[j]));
                    offs@.lemma_filter_contains_rev(keep, kept@[j]);
                    let k = choose|k: int| 0 <= k < offs@.len() && offs@[k] == kept@[j];
                    assert(offs@[k] < d@.len());
                }
            }
            (kept, notes)
        },
        None => {
            if offs.len() > 1 {
                let mut m = owned("No compare byte; applied to all ");
                push_dec(&mut m, offs.len() as u64);
                push_str(&mut m, " banks that can map $");
                hex4(&mut m, cpu_addr);
                notes.push(m);
                assert(strings_view(notes@) =~= n2.push(all_banks_msg(offs@.len(), cpu_addr)));
            }
            (offs, notes)
        },
    }
}

// ------------------------------------------------------------------ inspection

pub open spec fn mapper_text(h: NesHeaderView) -> Seq<char> {
    let m = if h.nes2 && h.submapper != 0 {
        dec(h.mapper as nat) + "."@ + dec(h.submapper as nat)
    } else {
        dec(h.mapper as nat)
    };
    let bank = match spec_bank_window(h.mapper) {
        Some(w) => " \u{b7} "@ + dec((w / 1024) as nat) + " KB banks"@,
        None => Seq::empty(),
    };
    m + bank
}

/// The lines `inspect` reports for a NES header.
pub open spec fn nes_fields(h: NesHeaderView) -> Seq<(Seq<char>, Seq<char>)> {
    let base = seq![
        ("Format"@, if h.nes2 { "NES 2.0"@ } else { "iNES"@ }),
        ("PRG ROM"@, spec_human_size(h.prg_size as nat)),
        ("CHR"@, if h.chr_size == 0 { "RAM"@ } else { spec_human_size(h.chr_size as nat) }),
        ("Mapper"@, mapper_text(h)),
        ("Mirroring"@, h.mirroring),
    ];
    let with_battery = if h.battery {
        base.push(("Battery"@, "yes"@))
    } else {
        base
    };
    if h.trainer {
        with_battery.push(("Trainer"@, "512 bytes"@))
    } else {
        with_battery
    }
}

pub open spec fn nes_info(h: NesHeaderView) -> RomInfoView {
    RomInfoView { fields: nes_fields(h), ..blank_view() }
}

fn add_field(info: &mut RomInfo, label: &str, value: String)
    ensures
        final(info)@ == (RomInfoView {
            fields: old(info)@.fields.push((label@, value@)),
            ..old(info)@
        }),
{
    let f = field(label, value);
    info.fields.push(f);
    assert(info@.fields =~= old(info)@.fields.push((label@, value@)));
}

/// Reads the header and describes it.
pub fn inspect(d: &[u8]) -> (r: Result<(RomInfo, NesHeader), String>)
    ensures
        match spec_parse(d@) {
            Ok(hv) => r matches Ok((info, h)) && h@ == hv && info@ == nes_info(hv),
            Err(e) => r matches Err(x) && x@ == e,
        },
        r matches Ok((_, h)) ==> h.prg_offset + h.prg_size + 1 <= usize::MAX,
{
    let h = match parse(d) {
        Ok(h) => h,
        Err(e) => {
            return Err(e);
        },
    };
    let mut info = blank_info();
    add_field(&mut info, "Format", if h.nes2 { owned("NES 2.0") } else { owned("iNES") });
    add_field(&mut info, "PRG ROM", human_size(h.prg_size));
    add_field(&mut info, "CHR", if h.chr_size == 0 { owned("RAM") } else { human_size(h.chr_size) });
    let mut m = String::new();
    push_dec(&mut m, h.mapper as u64);
    if h.nes2 && h.submapper != 0 {
        push_str(&mut m, ".");
        push_dec(&mut m, h.submapper as u64);
    }
    match bank_window(h.mapper) {
        Some(w) => {
            push_str(&mut m, " \u{b7} ");
            push_dec(&mut m, (w / 1024) as u64);
            push_str(&mut m, " KB banks");
        },
        None => {},
    }
    assert(m@ =~= mapper_text(h@));
    add_field(&mut info, "Mapper", m);
    add_field(&mut info, "Mirroring", h.mirroring.clone());
    if h.battery {
        add_field(&mut info, "Battery", owned("yes"));
    }
    if h.trainer {
        add_field(&mut info, "Trainer", owned("512 bytes"));
    }
    assert(info@.fields =~= nes_fields(h@));
    Ok((info, h))
}

} // verus!

verus! {

// ------------------------------------------------------------------ where resolved offsets lie

/// The end of the PRG area as the scan sees it: a PRG size of zero still spans one byte.
pub open spec fn prg_end(h: NesHeaderView) -> int {
    h.prg_offset + (if h.prg_size > 1 { h.prg_size as int } else { 1 })
}

/// Keeping the elements of a strictly increasing sequence that pass a test leaves a strictly
/// increasing sequence of its elements.
proof fn lemma_filter_increasing(s: Seq<usize>, keep: spec_fn(usize) -> bool)
    requires
        forall|i: int, j: int| 0 <= i < j < s.len() ==> s[i] < s[j],
    ensures
        forall|i: int, j: int| 0 <= i < j < s.filter(keep).len() ==> s.filter(keep)[i] < s.filter(keep)[j],
        forall|i: int| 0 <= i < s.filter(keep).len() ==> exists|j: int| 0 <= j < s.len() && s[j] == #[trigger] s.filter(keep)[i],
    decreases s.len(),
{
    reveal(Seq::filter);
    if s.len() > 0 {
        let t = s.drop_last();
        lemma_filter_increasing(t, keep);
        let ft = t.filter(keep);
        assert(s.filter(keep) == if keep(s.last()) { ft.push(s.last()) } else { ft });
        assert forall|i: int| 0 <= i < ft.len() implies #[trigger] ft[i] < s.last() by {
            let j = choose|j: int| 0 <= j < t.len() && t[j] == ft[i];
            assert(s[j] == t[j]);
        }
        let f = s.filter(keep);
        assert forall|i: int| 0 <= i < f.len() implies exists|j: int| 0 <= j < s.len() && s[j] == #[trigger] f[i] by {
            if i < ft.len() {
                let j = choose|j: int| 0 <= j < t.len() && t[j] == ft[i];
                assert(s[j] == t[j]);
            } else {
                assert(s[s.len() - 1] == f[i]);
            }
        }
    }
}

/// What `resolve` returns lies in the PRG area and inside the file, in strictly increasing
/// order. When no offset comes back although the file holds the whole PRG area, a note says
/// why.
pub proof fn law_resolve_offsets(h: NesHeaderView, d: Seq<u8>, cpu: u32, compare: Option<u8>)
    requires
        h.prg_offset + h.prg_size + 1 <= usize::MAX,
    ensures
        ({
            let (offs, notes) = spec_resolve(h, d, cpu, compare);
            &&& forall|i: int, j: int| 0 <= i < j < offs.len() ==> offs[i] < offs[j]
            &&& forall|i: int| 0 <= i < offs.len() ==> h.prg_offset <= #[trigger] offs[i] < prg_end(h)
                && offs[i] < d.len()
            &&& offs.len() == 0 && d.len() >= prg_end(h) ==> notes.len() > 0
        }),
{
    let (offs, notes) = spec_resolve(h, d, cpu, compare);
    if 0x8000 <= cpu && cpu <= 0xFFFF {
        let fx = fixed_offset(h, cpu);
        let hit = fx is Some && fx.unwrap() < d.len();
        if hit && !(compare is Some && d[fx.unwrap()] != compare.unwrap()) {
            assert(offs == seq![fx.unwrap() as usize]);
        } else {
            let w = scan_window(h);
            let cap: nat = if h.prg_size > 1 { h.prg_size as nat } else { 1 };
            let banks = scan_banks(h);
            let rel = ((cpu - 0x8000) as nat) % w;
            let f = |b: int| (h.prg_offset + b * w + rel) as usize;
            let base = Seq::new(banks, f);
            let keep = |o: usize| o < d.len();
            assert(w >= 1 && w <= cap);
            assert(rel < w);
            assert forall|b: int| 0 <= b < banks implies h.prg_offset <= #[trigger] base[b]
                && base[b] < h.prg_offset + cap && base[b] == h.prg_offset + b * w + rel by {
                lemma_scan_bound(h.prg_offset as nat, h.prg_size as nat, w, b as nat, rel, banks);
                assert(b * w >= 0) by (nonlinear_arith)
                    requires
                        b >= 0,
                        w >= 1,
                ;
            }
            assert forall|i: int, j: int| 0 <= i < j < base.len() implies base[i] < base[j] by {
                assert(i * w < j * w) by (nonlinear_arith)
                    requires
                        i < j,
                        w >= 1,
                ;
            }
            let scanned = scan_offsets(h, d.len(), cpu);
            assert(scanned == base.filter(keep));
            lemma_filter_increasing(base, keep);
            assert forall|i: int| 0 <= i < scanned.len() implies h.prg_offset <= #[trigger] scanned[i]
                < prg_end(h) && scanned[i] < d.len() by {
                base.lemma_filter_pred(keep, i);
                let j = choose|j: int| 0 <= j < base.len() && base[j] == scanned[i];
            }
            match compare {
                Some(c) => {
                    let kc = |x: usize| d[x as int] == c;
                    lemma_filter_increasing(scanned, kc);
                    assert forall|i: int| 0 <= i < offs.len() implies h.prg_offset <= #[trigger] offs[i]
                        < prg_end(h) && offs[i] < d.len() by {
                        let j = choose|j: int| 0 <= j < scanned.len() && scanned[j] == scanned.filter(kc)[i];
                    }
                },
                None => {
                    if d.len() >= prg_end(h) {
                        lemma_scan_bound(h.prg_offset as nat, h.prg_size as nat, w, 0, rel, banks);
                        assert(keep(base[0]));
                        base.filter_lemma(keep);
                        assert(scanned.contains(base[0]));
                    }
                },
            }
        }
    }
}

} // verus!

verus! {

// ------------------------------------------------------------------ bank layouts by mapper

/// Mappers whose upper 16 KB ($C000-$FFFF) always shows the last 16 KB of PRG:
/// MMC1, UxROM and their relatives.
pub open spec fn last_16k_fixed(m: u16) -> bool {
    m == 1 || m == 2 || m == 10 || m == 71 || m == 94 || m == 152 || m == 232
}

/// Mappers whose top 8 KB ($E000-$FFFF) always shows the last 8 KB of PRG: MMC3 and the
/// other 8 KB-banked boards with a fixed last bank.
pub open spec fn last_8k_fixed(m: u16) -> bool {
    m == 4 || m == 19 || m == 24 || m == 26 || m == 33 || m == 48 || m == 64 || m == 65 || m
        == 67 || m == 68 || m == 69 || m == 74 || m == 76 || m == 88 || m == 95 || m == 118
        || m == 119 || m == 154 || m == 206 || m == 210
}

/// The bank size of the switchable window, for the mappers whose layout is known.
pub open spec fn switch_window(m: u16) -> Option<nat> {
    if m == 0 || m == 3 || m == 7 || m == 11 || m == 13 || m == 34 || m == 38 || m == 66 || m
        == 79 || m == 87 || m == 101 || m == 113 || m == 140 || m == 185 {
        Some(0x8000)
    } else if last_16k_fixed(m) || m == 180 {
        Some(0x4000)
    } else if last_8k_fixed(m) || m == 5 || m == 9 || m == 16 || m == 18 || m == 21 || m == 22
        || m == 23 || m == 25 || m == 80 || m == 82 || m == 85 {
        Some(0x2000)
    } else {
        None
    }
}

/// The offset a hard-wired bank gives `cpu`: the last 16 KB for $C000-$FFFF on the
/// `last_16k_fixed` mappers, the last 8 KB for $E000-$FFFF on the `last_8k_fixed` ones, the
/// last 24 KB for $A000-$FFFF on MMC2 (mapper 9), and the first 16 KB for $8000-$BFFF on
/// mapper 180.
pub open spec fn hardwired(h: NesHeaderView, cpu: u32) -> Option<int> {
    let end = h.prg_offset + h.prg_size;
    if last_16k_fixed(h.mapper) && cpu >= 0xC000 && h.prg_size >= 0x4000 {
        Some(end - 0x4000 + (cpu - 0xC000))
    } else if last_8k_fixed(h.mapper) && cpu >= 0xE000 && h.prg_size >= 0x2000 {
        Some(end - 0x2000 + (cpu - 0xE000))
    } else if h.mapper == 9 && cpu >= 0xA000 && h.prg_size >= 0x6000 {
        Some(end - 0x6000 + (cpu - 0xA000))
    } else if h.mapper == 180 && cpu < 0xC000 && h.prg_size >= 0x4000 {
        Some(h.prg_offset + (cpu - 0x8000))
    } else {
        None
    }
}

proof fn lemma_fixed_offset_table(h: NesHeaderView, cpu: u32)
    requires
        0x8000 <= cpu <= 0xFFFF,
    ensures
        fixed_offset(h, cpu) == hardwired(h, cpu),
        spec_bank_window(h.mapper) matches Some(w) ==> switch_window(h.mapper) == Some(w as nat),
        spec_bank_window(h.mapper) is None ==> switch_window(h.mapper) is None,
{
}

/// A cartridge address in a hard-wired bank lands on exactly one offset of an image that holds
/// its whole PRG area: the matching place in the fixed bank, with no note, unless a compare
/// byte is given that this byte does not hold.
pub proof fn law_resolve_hardwired_bank(h: NesHeaderView, d: Seq<u8>, cpu: u32, compare: Option<u8>)
    requires
        h.prg_offset + h.prg_size + 1 <= usize::MAX,
        d.len() >= h.prg_offset + h.prg_size,
        0x8000 <= cpu <= 0xFFFF,
        hardwired(h, cpu) is Some,
        compare matches Some(c) ==> d[hardwired(h, cpu).unwrap()] == c,
    ensures
        spec_resolve(h, d, cpu, compare) == (seq![hardwired(h, cpu).unwrap() as usize], Seq::<Seq<char>>::empty()),
        hardwired(h, cpu).unwrap() < h.prg_offset + h.prg_size,
{
    lemma_fixed_offset_table(h, cpu);
}

proof fn lemma_filter_all_usize(s: Seq<usize>, keep: spec_fn(usize) -> bool)
    requires
        forall|i: int| 0 <= i < s.len() ==> keep(#[trigger] s[i]),
    ensures
        s.filter(keep) == s,
    decreases s.len(),
{
    reveal(Seq::filter);
    if s.len() > 0 {
        lemma_filter_all_usize(s.drop_last(), keep);
        assert(s.drop_last().push(s.last()) == s);
    }
}

/// Outside a hard-wired bank and with no compare byte, an address of a mapper with a known
/// bank size `w` lands once in every `w`-byte bank of PRG (when PRG is whole banks and the
/// image holds it): at the address's place within the bank, bank by bank. A note says so
/// when there is more than one.
pub proof fn law_resolve_every_bank(h: NesHeaderView, d: Seq<u8>, cpu: u32, w: nat)
    requires
        h.prg_offset + h.prg_size + 1 <= usize::MAX,
        d.len() >= h.prg_offset + h.prg_size,
        0x8000 <= cpu <= 0xFFFF,
        hardwired(h, cpu) is None,
        switch_window(h.mapper) == Some(w),
        h.prg_size >= w,
        (h.prg_size as nat) % w == 0,
    ensures
        spec_resolve(h, d, cpu, None).0 == Seq::new(
            (h.prg_size as nat) / w,
            |b: int| (h.prg_offset + b * w + (cpu - 0x8000) % (w as int)) as usize,
        ),
        spec_resolve(h, d, cpu, None).1.len() == (if (h.prg_size as nat) / w > 1 { 1int } else { 0int }),
{
    lemma_fixed_offset_table(h, cpu);
    let n = (h.prg_size as nat) / w;
    assert(scan_window(h) == w);
    assert(n >= 1) by (nonlinear_arith)
        requires
            h.prg_size >= w,
            w > 0,
            n == (h.prg_size as nat) / w,
    ;
    assert(scan_banks(h) == n);
    let rel = ((cpu - 0x8000) as nat) % w;
    let f = |b: int| (h.prg_offset + b * w + rel) as usize;
    let base = Seq::new(n, f);
    let keep = |o: usize| o < d.len();
    assert forall|i: int| 0 <= i < base.len() implies keep(#[trigger] base[i]) by {
        lemma_scan_bound(h.prg_offset as nat, h.prg_size as nat, w, i as nat, rel, n);
        assert(i * w >= 0) by (nonlinear_arith)
            requires
                i >= 0,
                w >= 1,
        ;
    }
    lemma_filter_all_usize(base, keep);
    assert(scan_offsets(h, d.len(), cpu) == base);
    assert(base =~= Seq::new(
        (h.prg_size as nat) / w,
        |b: int| (h.prg_offset + b * w + (cpu - 0x8000) % (w as int)) as usize,
    ));
}

} // verus!
