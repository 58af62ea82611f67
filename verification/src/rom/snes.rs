//! Super NES header detection, checksum repair and SNES CPU address mapping.
use vstd::prelude::*;
use crate::number::hex_text;
use crate::rom::{blank_info, blank_view, field, human_size, spec_human_size, ChecksumInfo, RomInfo, RomInfoView};
use crate::text::{Class, owned, push_dec, push_hex, push_str, trim, trim_class, chars_of, string_of, utf8_lossy, from_utf8_lossy};

verus! {

broadcast use vstd::string::group_string_axioms;

/// The memory layouts a Super NES cartridge can use.
#[derive(Clone, Copy, Debug, PartialEq, Eq, Structural)]
pub enum MapMode {
    LoRom,
    HiRom,
    ExHiRom,
}

impl MapMode {
    pub open spec fn spec_label(self) -> Seq<char> {
        match self {
            MapMode::LoRom => "LoROM"@,
            MapMode::HiRom => "HiROM"@,
            MapMode::ExHiRom => "ExHiROM"@,
        }
    }

    pub fn label(self) -> (r: &'static str)
        ensures
            r@ == self.spec_label(),
    {
        match self {
            MapMode::LoRom => "LoROM",
            MapMode::HiRom => "HiROM",
            MapMode::ExHiRom => "ExHiROM",
        }
    }
}

/// The fields of a Super NES internal header, and where it was found.
#[derive(Clone, Debug)]
pub struct SnesHeader {
    /// 0 or 512 bytes of copier header before the ROM image.
    pub copier_header: usize,
    pub map: MapMode,
    /// Absolute file offset of the 32-byte internal header.
    pub header_at: usize,
    pub title: String,
    pub map_byte: u8,
    pub rom_type: u8,
    pub rom_size_code: u8,
    pub sram_code: u8,
    pub country: u8,
    pub version: u8,
    pub complement: u16,
    pub checksum: u16,
}

pub struct SnesHeaderView {
    pub copier_header: usize,
    pub map: MapMode,
    pub header_at: usize,
    pub title: Seq<char>,
    pub map_byte: u8,
    pub rom_type: u8,
    pub rom_size_code: u8,
    pub sram_code: u8,
    pub country: u8,
    pub version: u8,
    pub complement: u16,
    pub checksum: u16,
}

impl View for SnesHeader {
    type V = SnesHeaderView;

    open spec fn view(&self) -> SnesHeaderView {
        SnesHeaderView {
            copier_header: self.copier_header,
            map: self.map,
            header_at: self.header_at,
            title: self.title@,
            map_byte: self.map_byte,
            rom_type: self.rom_type,
            rom_size_code: self.rom_size_code,
            sram_code: self.sram_code,
            country: self.country,
            version: self.version,
            complement: self.complement,
            checksum: self.checksum,
        }
    }
}

/// A little-endian 16-bit word.
pub open spec fn le16(lo: u8, hi: u8) -> u16 {
    (lo as u16) | ((hi as u16) << 8u16)
}

pub open spec fn mode_ok(m: u8, mode: MapMode) -> bool {
    match mode {
        MapMode::LoRom => m & 0x25 == 0x20,
        MapMode::HiRom => m & 0x25 == 0x21,
        MapMode::ExHiRom => m & 0x25 == 0x25,
    }
}

pub open spec fn printable_title(h: Seq<u8>) -> bool {
    forall|i: int| 0 <= i < 21 ==> 0x20 <= #[trigger] h[i] && h[i] < 0x7F
}

/// How plausible a 64-byte block is as the internal header for `mode`: 4 points for a
/// consistent checksum pair, 2 for a matching map byte, 1 for a printable title, 1 for a
/// reset vector in ROM.
pub open spec fn header_score(h: Seq<u8>, mode: MapMode) -> int {
    (if le16(h[0x1C], h[0x1D]) ^ le16(h[0x1E], h[0x1F]) == 0xFFFF {
        4int
    } else {
        0
    }) + (if mode_ok(h[0x15], mode) {
        2int
    } else {
        0
    }) + (if printable_title(h) {
        1int
    } else {
        0
    }) + (if le16(h[0x3C], h[0x3D]) >= 0x8000 {
        1int
    } else {
        0
    })
}

pub open spec fn candidate(body: Seq<u8>, off: nat, mode: MapMode) -> Option<(int, nat, MapMode)> {
    if off + 0x40 <= body.len() {
        Some((header_score(body.subrange(off as int, off as int + 0x40), mode), off, mode))
    } else {
        None
    }
}

/// The candidate kept when `c` is examined after `best`: it replaces it only with a higher score.
pub open spec fn better(best: Option<(int, nat, MapMode)>, c: Option<(int, nat, MapMode)>) -> Option<
    (int, nat, MapMode),
> {
    match c {
        None => best,
        Some(x) => match best {
            None => Some(x),
            Some(b) => if x.0 > b.0 {
                Some(x)
            } else {
                Some(b)
            },
        },
    }
}

/// The best-scoring header position among LoROM ($7FC0), HiROM ($FFC0) and ExHiROM ($40FFC0).
pub open spec fn best_header(body: Seq<u8>) -> Option<(int, nat, MapMode)> {
    better(
        better(candidate(body, 0x7FC0, MapMode::LoRom), candidate(body, 0xFFC0, MapMode::HiRom)),
        candidate(body, 0x40FFC0, MapMode::ExHiRom),
    )
}

pub open spec fn copier_of(len: nat) -> nat {
    if len % 1024 == 512 {
        512
    } else {
        0
    }
}

pub open spec fn spec_parse(d: Seq<u8>) -> Result<SnesHeaderView, Seq<char>> {
    let copier = copier_of(d.len());
    let body = d.skip(copier as int);
    match best_header(body) {
        None => Err("file is too small to be a SNES image"@),
        Some((score, off, map)) => if score < 3 {
            Err("no plausible SNES internal header found"@)
        } else {
            let h = body.subrange(off as int, off as int + 0x40);
            Ok(
                SnesHeaderView {
                    copier_header: copier as usize,
                    map,
                    header_at: (copier + off) as usize,
                    title: trim(utf8_lossy(h.take(21)), Class::Space),
                    map_byte: h[0x15],
                    rom_type: h[0x16],
                    rom_size_code: h[0x17],
                    sram_code: h[0x18],
                    country: h[0x19],
                    version: h[0x1B],
                    complement: le16(h[0x1C], h[0x1D]),
                    checksum: le16(h[0x1E], h[0x1F]),
                },
            )
        },
    }
}

pub open spec fn header_view(r: Result<SnesHeader, String>) -> Result<SnesHeaderView, Seq<char>> {
    match r {
        Ok(h) => Ok(h@),
        Err(e) => Err(e@),
    }
}

fn le16_of(lo: u8, hi: u8) -> (r: u16)
    ensures
        r == le16(lo, hi),
{
    (lo as u16) | ((hi as u16) << 8u16)
}

fn score_at(body: &[u8], off: usize, mode: MapMode) -> (r: Option<(i32, usize)>)
    requires
        off <= 0x40FFC0,
    ensures
        match candidate(body@, off as nat, mode) {
            Some((s, o, m)) => r matches Some((x, y)) && x == s && y == o,
            None => r is None,
        },
{
    if off + 0x40 > body.len() {
        return None;
    }
    let ghost h = body@.subrange(off as int, off + 0x40);
    let mut score: i32 = 0;
    let comp = le16_of(body[off + 0x1C], body[off + 0x1D]);
    let sum = le16_of(body[off + 0x1E], body[off + 0x1F]);
    if comp ^ sum == 0xFFFF {
        score = score + 4;
    }
    let m = body[off + 0x15];
    let ok = match mode {
        MapMode::LoRom => m & 0x25 == 0x20,
        MapMode::HiRom => m & 0x25 == 0x21,
        MapMode::ExHiRom => m & 0x25 == 0x25,
    };
    if ok {
        score = score + 2;
    }
    let mut printable = true;
    let mut i: usize = 0;
    while i < 21
        invariant
            i <= 21,
            0 <= score <= 6,
            off + 0x40 <= body@.len(),
            off <= 0x40FFC0,
            h == body@.subrange(off as int, off + 0x40),
            printable == forall|j: int| 0 <= j < i ==> 0x20 <= #[trigger] h[j] && h[j] < 0x7F,
        decreases 21 - i,
    {
        let b = body[off + i];
        assert(h[i as int] == b);
        if !(0x20 <= b && b < 0x7F) {
            printable = false;
        }
        i = i + 1;
    }
    if printable {
        score = score + 1;
    }
    let reset = le16_of(body[off + 0x3C], body[off + 0x3D]);
    if reset >= 0x8000 {
        score = score + 1;
    }
    assert(h[0x1C] == body@[off + 0x1C] && h[0x1D] == body@[off + 0x1D] && h[0x1E] == body@[off
        + 0x1E] && h[0x1F] == body@[off + 0x1F] && h[0x15] == body@[off + 0x15] && h[0x3C]
        == body@[off + 0x3C] && h[0x3D] == body@[off + 0x3D]);
    Some((score, off))
}

fn keep_better(best: Option<(i32, usize, MapMode)>, c: Option<(i32, usize)>, mode: MapMode) -> (r:
    Option<(i32, usize, MapMode)>)
    ensures
        match (best, c) {
            (Some((bs, bo, bm)), Some((cs, co))) => if cs > bs {
                r == Some((cs, co, mode))
            } else {
                r == Some((bs, bo, bm))
            },
            (None, Some((cs, co))) => r == Some((cs, co, mode)),
            (_, None) => r == best,
        },
{
    match c {
        None => best,
        Some((cs, co)) => match best {
            None => Some((cs, co, mode)),
            Some((bs, bo, bm)) => if cs > bs {
                Some((cs, co, mode))
            } else {
                Some((bs, bo, bm))
            },
        },
    }
}

/// Finds the Super NES internal header.
pub fn parse(d: &[u8]) -> (r: Result<SnesHeader, String>)
    ensures
        header_view(r) == spec_parse(d@),
        r matches Ok(h) ==> h.copier_header <= h.header_at && h.header_at + 0x40 <= d@.len()
            && (h.copier_header == 0 || h.copier_header == 512),
{
    let copier: usize = if d.len() % 1024 == 512 {
        512
    } else {
        0
    };
    let body = slice_from(d, copier);
    let ghost b = d@.skip(copier as int);
    let c1 = score_at(body, 0x7FC0, MapMode::LoRom);
    let c2 = score_at(body, 0xFFC0, MapMode::HiRom);
    let c3 = score_at(body, 0x40FFC0, MapMode::ExHiRom);
    let best = keep_better(keep_better(keep_better(None, c1, MapMode::LoRom), c2, MapMode::HiRom), c3, MapMode::ExHiRom);
    assert(match best {
        Some((s, o, m)) => best_header(b) == Some((s as int, o as nat, m)),
        None => best_header(b) is None,
    });
    let (score, off, map) = match best {
        Some(x) => x,
        None => {
            return Err(owned("file is too small to be a SNES image"));
        },
    };
    if score < 3 {
        return Err(owned("no plausible SNES internal header found"));
    }
    let ghost h = b.subrange(off as int, off + 0x40);
    assert(off + 0x40 <= b.len());
    let mut t: Vec<u8> = Vec::new();
    let mut i: usize = 0;
    while i < 21
        invariant
            i <= 21,
            copier <= 512,
            off + 0x40 <= body@.len(),
            off <= 0x40FFC0,
            h == body@.subrange(off as int, off + 0x40),
            t@ == h.take(i as int),
        decreases 21 - i,
    {
        t.push(body[off + i]);
        i = i + 1;
    }
    let raw_title = from_utf8_lossy(t.as_slice());
    let title_chars = trim_class(&chars_of(raw_title.as_str()), Class::Space);
    let title = string_of(&title_chars);
    Ok(
        SnesHeader {
            copier_header: copier,
            map,
            header_at: copier + off,
            title,
            map_byte: body[off + 0x15],
            rom_type: body[off + 0x16],
            rom_size_code: body[off + 0x17],
            sram_code: body[off + 0x18],
            country: body[off + 0x19],
            version: body[off + 0x1B],
            complement: le16_of(body[off + 0x1C], body[off + 0x1D]),
            checksum: le16_of(body[off + 0x1E], body[off + 0x1F]),
        },
    )
}

/// The bytes of `d` from `from` on (`&d[from..]`).
fn slice_from(d: &[u8], from: usize) -> (r: &[u8])
    requires
        from <= d@.len(),
    ensures
        r@ == d@.skip(from as int),
{
    let (_, b) = d.split_at(from);
    b
}


// ------------------------------------------------------------------ checksum

/// The sum of the bytes.
pub open spec fn byte_sum(s: Seq<u8>) -> nat
    decreases s.len(),
{
    if s.len() == 0 {
        0
    } else {
        byte_sum(s.drop_last()) + s.last() as nat
    }
}

/// The largest power of two not above `n` (0 for 0).
pub open spec fn pow2_floor(n: nat) -> nat
    decreases n,
{
    if n <= 1 {
        n
    } else {
        2 * pow2_floor(n / 2)
    }
}

pub open spec fn is_pow2(n: nat) -> bool {
    n > 0 && pow2_floor(n) == n
}

pub proof fn lemma_pow2_floor(n: nat)
    ensures
        n >= 1 ==> 1 <= pow2_floor(n) <= n,
        n >= 1 ==> n < 2 * pow2_floor(n),
    decreases n,
{
    if n > 1 {
        lemma_pow2_floor(n / 2);
    }
}

fn pow2_floor_of(n: usize) -> (r: usize)
    ensures
        r == pow2_floor(n as nat),
    decreases n,
{
    proof {
        lemma_pow2_floor(n as nat);
    }
    if n <= 1 {
        n
    } else {
        let h = pow2_floor_of(n / 2);
        proof {
            lemma_pow2_floor((n / 2) as nat);
        }
        2 * h
    }
}

/// How often the odd tail of an image is counted: as many times as it fits into the
/// power-of-two part when it is itself a power of two dividing it, else once.
pub open spec fn tail_mult(p: nat, rem: nat) -> nat {
    if is_pow2(rem) && p % rem == 0 {
        p / rem
    } else {
        1
    }
}

/// The contribution of the part after the largest power of two: its byte sum, counted
/// `tail_mult` times.
pub open spec fn tail_term(body: Seq<u8>) -> nat {
    let p = pow2_floor(body.len());
    let rem = (body.len() - p) as nat;
    if rem > 0 {
        byte_sum(body.skip(p as int)) * tail_mult(p, rem)
    } else {
        0
    }
}

/// The four checksum bytes of the header at `hdr`.
pub open spec fn check_bytes(body: Seq<u8>, hdr: nat) -> Seq<u8> {
    body.subrange(hdr as int + 0x1C, hdr as int + 0x20)
}

/// The checksum before reduction: the byte sum of the largest power-of-two prefix plus the
/// tail term, with the four checksum bytes of the header (when inside the image) counted as
/// a consistent pair would be ($1FE).
pub open spec fn checksum_total(body: Seq<u8>, hdr: nat) -> int {
    let a = byte_sum(body.take(pow2_floor(body.len()) as int));
    if hdr + 0x20 <= body.len() {
        a + tail_term(body) - byte_sum(check_bytes(body, hdr)) + 0x1FE
    } else {
        (a + tail_term(body)) as int
    }
}

/// The Super NES checksum of `body` (0 for an empty body).
pub open spec fn spec_compute_checksum(body: Seq<u8>, hdr: nat) -> u16 {
    if body.len() == 0 {
        0
    } else {
        (checksum_total(body, hdr) % 65536) as u16
    }
}

fn sum_mod(d: &[u8], from: usize, to: usize) -> (r: u64)
    requires
        from <= to <= d@.len(),
    ensures
        r == byte_sum(d@.subrange(from as int, to as int)) % 65536,
{
    let mut acc: u64 = 0;
    let mut i: usize = from;
    while i < to
        invariant
            from <= i <= to <= d@.len(),
            acc == byte_sum(d@.subrange(from as int, i as int)) % 65536,
        decreases to - i,
    {
        let ghost prev = byte_sum(d@.subrange(from as int, i as int));
        assert(d@.subrange(from as int, i + 1).drop_last() == d@.subrange(from as int, i as int));
        proof {
            vstd::arithmetic::div_mod::lemma_add_mod_noop(prev as int, d@[i as int] as int, 65536);
        }
        acc = (acc + d[i] as u64) % 65536;
        i = i + 1;
    }
    acc
}

proof fn lemma_byte_sum_split(s: Seq<u8>, k: int)
    requires
        0 <= k <= s.len(),
    ensures
        byte_sum(s) == byte_sum(s.take(k)) + byte_sum(s.skip(k)),
    decreases s.len(),
{
    if s.len() > k {
        lemma_byte_sum_split(s.drop_last(), k);
        assert(s.drop_last().take(k) == s.take(k));
        assert(s.skip(k).drop_last() == s.drop_last().skip(k));
    } else {
        assert(s.take(k) == s);
        assert(s.skip(k).len() == 0);
    }
}

fn tail_sum(body: &[u8], p: usize) -> (r: u64)
    requires
        p == pow2_floor(body@.len()),
        1 <= p <= body@.len(),
    ensures
        r == tail_term(body@) % 65536,
{
    let len = body.len();
    let rem = len - p;
    if rem == 0 {
        return 0;
    }
    let s = sum_mod(body, p, len);
    assert(body@.subrange(p as int, len as int) == body@.skip(p as int));
    let rp = pow2_floor_of(rem);
    let mult: usize = if rp == rem && p % rem == 0 {
        p / rem
    } else {
        1
    };
    assert(mult == tail_mult(p as nat, rem as nat));
    let mm = (mult % 65536) as u64;
    assert(s * mm < 0x1_0000_0000) by (nonlinear_arith)
        requires
            s < 65536,
            mm < 65536,
    ;
    proof {
        let S = byte_sum(body@.skip(p as int)) as int;
        vstd::arithmetic::div_mod::lemma_mul_mod_noop_general(S, mult as int, 65536);
    }
    (s * mm) % 65536
}

fn adjust_for_header(total: u64, body: &[u8], hdr: usize) -> (r: u64)
    requires
        hdr + 0x20 <= body@.len(),
        hdr + 0x20 <= usize::MAX,
        total < 65536,
    ensures
        r == (total - byte_sum(check_bytes(body@, hdr as nat)) + 0x1FE) % 65536,
{
    let f0 = body[hdr + 0x1C] as u64;
    let f1 = body[hdr + 0x1D] as u64;
    let f2 = body[hdr + 0x1E] as u64;
    let f3 = body[hdr + 0x1F] as u64;
    let actual = f0 + f1 + f2 + f3;
    let ghost f = check_bytes(body@, hdr as nat);
    assert(byte_sum(f) == actual) by {
        reveal_with_fuel(byte_sum, 5);
        assert(f.drop_last().drop_last().drop_last().drop_last().len() == 0);
    }
    proof {
        vstd::arithmetic::div_mod::lemma_mod_add_multiples_vanish(total - actual as int + 0x1FE, 65536);
    }
    (total + 0x1FE + 65536 - actual) % 65536
}

/// Checksum over the image with the checksum fields normalised, mirroring odd tails.
pub fn compute_checksum(body: &[u8], header_in_body: usize) -> (r: u16)
    requires
        header_in_body + 0x20 <= usize::MAX,
    ensures
        r == spec_compute_checksum(body@, header_in_body as nat),
{
    let len = body.len();
    if len == 0 {
        return 0;
    }
    let p = pow2_floor_of(len);
    proof {
        lemma_pow2_floor(len as nat);
    }
    let a = sum_mod(body, 0, p);
    assert(body@.subrange(0, p as int) == body@.take(p as int));
    let b = tail_sum(body, p);
    let ghost A = byte_sum(body@.take(p as int)) as int;
    let ghost B = tail_term(body@) as int;
    proof {
        vstd::arithmetic::div_mod::lemma_add_mod_noop(A, B, 65536);
    }
    let total = (a + b) % 65536;
    if header_in_body + 0x20 <= len {
        let t = adjust_for_header(total, body, header_in_body);
        proof {
            let F = byte_sum(check_bytes(body@, header_in_body as nat)) as int;
            vstd::arithmetic::div_mod::lemma_add_mod_noop_right(0x1FE - F, A + B, 65536);
        }
        assert(t == checksum_total(body@, header_in_body as nat) % 65536);
        t as u16
    } else {
        total as u16
    }
}


/// `d` with the complement and checksum of the header at `at` set to match `sum`.
pub open spec fn with_checksum(d: Seq<u8>, at: nat, sum: u16) -> Seq<u8> {
    let comp = sum ^ 0xFFFFu16;
    d.update(at as int + 0x1C, (comp & 0xFF) as u8).update(at as int + 0x1D, (comp >> 8u16) as u8).update(
        at as int + 0x1E,
        (sum & 0xFF) as u8,
    ).update(at as int + 0x1F, (sum >> 8u16) as u8)
}

/// Rewrites the complement/checksum pair. Returns (stored before, computed).
pub fn fix_checksum(d: &mut Vec<u8>, h: &SnesHeader) -> (r: (u16, u16))
    requires
        h.copier_header <= h.header_at,
        h.header_at + 0x20 <= old(d)@.len(),
    ensures
        r.0 == h.checksum,
        r.1 == spec_compute_checksum(
            old(d)@.skip(h.copier_header as int),
            (h.header_at - h.copier_header) as nat,
        ),
        final(d)@ == with_checksum(old(d)@, h.header_at as nat, r.1),
{
    let n = d.len();
    let body = slice_from(d.as_slice(), h.copier_header);
    let sum = compute_checksum(body, h.header_at - h.copier_header);
    let comp = sum ^ 0xFFFFu16;
    let at = h.header_at;
    d.set(at + 0x1C, (comp & 0xFF) as u8);
    d.set(at + 0x1D, (comp >> 8u16) as u8);
    d.set(at + 0x1E, (sum & 0xFF) as u8);
    d.set(at + 0x1F, (sum >> 8u16) as u8);
    (h.checksum, sum)
}

proof fn lemma_total_ignores_check_bytes(b1: Seq<u8>, b2: Seq<u8>, hdr: nat)
    requires
        b1.len() == b2.len(),
        hdr + 0x20 <= pow2_floor(b1.len()),
        forall|i: int|
            0 <= i < b1.len() && !(hdr + 0x1C <= i < hdr + 0x20) ==> #[trigger] b1[i] == b2[i],
    ensures
        checksum_total(b1, hdr) == checksum_total(b2, hdr),
{
    let p = pow2_floor(b1.len());
    lemma_pow2_floor(b1.len());
    let t1 = b1.take(p as int);
    let t2 = b2.take(p as int);
    let k = hdr + 0x1C;
    lemma_byte_sum_split(t1, k as int);
    lemma_byte_sum_split(t2, k as int);
    lemma_byte_sum_split(t1.skip(k as int), 4);
    lemma_byte_sum_split(t2.skip(k as int), 4);
    assert(t1.take(k as int) =~= t2.take(k as int));
    assert(t1.skip(k as int).skip(4) =~= t2.skip(k as int).skip(4));
    assert(t1.skip(k as int).take(4) =~= check_bytes(b1, hdr));
    assert(t2.skip(k as int).take(4) =~= check_bytes(b2, hdr));
    assert(b1.skip(p as int) =~= b2.skip(p as int));
}

/// After `fix_checksum`, the image checks: recomputing the checksum gives the value it wrote,
/// and the stored pair is consistent. This holds when the header lies in the power-of-two part
/// of the image, the case of every standard LoROM, HiROM and ExHiROM layout.
pub proof fn law_fixed_checksum_verifies(d: Seq<u8>, copier: nat, at: nat)
    requires
        copier <= at,
        at + 0x20 <= copier + pow2_floor((d.len() - copier) as nat),
        copier <= d.len(),
    ensures
        ({
            let sum = spec_compute_checksum(d.skip(copier as int), (at - copier) as nat);
            let fixed = with_checksum(d, at, sum);
            &&& spec_compute_checksum(fixed.skip(copier as int), (at - copier) as nat) == sum
            &&& le16(fixed[at as int + 0x1E], fixed[at as int + 0x1F]) == sum
            &&& le16(fixed[at as int + 0x1C], fixed[at as int + 0x1D]) ^ sum == 0xFFFF
        }),
{
    let body = d.skip(copier as int);
    let hdr = (at - copier) as nat;
    let sum = spec_compute_checksum(body, hdr);
    let fixed = with_checksum(d, at, sum);
    let body2 = fixed.skip(copier as int);
    lemma_pow2_floor(body.len());
    assert forall|i: int|
        0 <= i < body.len() && !(hdr + 0x1C <= i < hdr + 0x20) implies #[trigger] body[i] == body2[i] by {
        assert(body[i] == d[copier + i]);
        assert(body2[i] == fixed[copier + i]);
    }
    lemma_total_ignores_check_bytes(body, body2, hdr);
    let comp = sum ^ 0xFFFFu16;
    assert(fixed[at as int + 0x1E] == (sum & 0xFF) as u8);
    assert(fixed[at as int + 0x1F] == (sum >> 8u16) as u8);
    assert(fixed[at as int + 0x1C] == (comp & 0xFF) as u8);
    assert(fixed[at as int + 0x1D] == (comp >> 8u16) as u8);
    assert(le16((sum & 0xFF) as u8, (sum >> 8u16) as u8) == sum) by (bit_vector);
    assert(le16((comp & 0xFF) as u8, (comp >> 8u16) as u8) ^ sum == 0xFFFF) by (bit_vector)
        requires
            comp == sum ^ 0xFFFFu16,
    ;
}

// ------------------------------------------------------------------ address mapping

/// The ROM offset (within the image, before adding the copier header) that a CPU address
/// selects under each mapping, if it selects ROM at all.
pub open spec fn rom_offset(map: MapMode, addr: u32) -> Option<nat> {
    let bank = (addr >> 16u32) & 0xFF;
    let lo = addr & 0xFFFF;
    let b = bank & 0x7F;
    match map {
        MapMode::LoRom => if lo < 0x8000 || b >= 0x7E {
            None
        } else {
            Some((b as nat) * 0x8000 + (lo - 0x8000) as nat)
        },
        MapMode::HiRom => if (b < 0x40 && lo < 0x8000) || (b >= 0x7E && bank < 0x80) {
            None
        } else {
            Some(((b & 0x3F) as nat) * 0x10000 + lo as nat)
        },
        MapMode::ExHiRom => if b < 0x40 && lo < 0x8000 {
            None
        } else {
            Some(
                (if bank & 0x80 != 0 {
                    0nat
                } else {
                    0x400000nat
                }) + ((b & 0x3F) as nat) * 0x10000 + lo as nat,
            )
        },
    }
}

/// The file offset a 24-bit CPU address maps to: offsets past the end wrap around when the
/// ROM size is a power of two and are refused otherwise.
pub open spec fn spec_map_to_offset(h: SnesHeaderView, addr: u32, file_len: nat) -> Option<usize> {
    if file_len < h.copier_header || file_len - h.copier_header == 0 {
        None
    } else {
        let rom_len = (file_len - h.copier_header) as nat;
        match rom_offset(h.map, addr) {
            None => None,
            Some(off) => if off >= rom_len {
                if is_pow2(rom_len) {
                    Some((off % rom_len + h.copier_header) as usize)
                } else {
                    None
                }
            } else {
                Some((off + h.copier_header) as usize)
            },
        }
    }
}

/// Maps a 24-bit SNES CPU address to a file offset, or `None` when it is not ROM.
pub fn map_to_offset(h: &SnesHeader, addr: u32, file_len: usize) -> (r: Option<usize>)
    ensures
        r == spec_map_to_offset(h@, addr, file_len as nat),
        r matches Some(o) ==> h.copier_header <= o < file_len,
{
    let bank = (addr >> 16u32) & 0xFF;
    let lo = (addr & 0xFFFF) as usize;
    if file_len < h.copier_header {
        return None;
    }
    let rom_len = file_len - h.copier_header;
    if rom_len == 0 {
        return None;
    }
    let b = bank & 0x7F;
    assert(b <= 0x7F && b & 0x3F <= 0x3F) by (bit_vector)
        requires
            b == bank & 0x7F,
    ;
    assert(addr & 0xFFFF <= 0xFFFF) by (bit_vector);
    let off: usize = match h.map {
        MapMode::LoRom => {
            if lo < 0x8000 {
                return None;
            }
            if b >= 0x7E {
                return None;
            }
            (b as usize) * 0x8000 + (lo - 0x8000)
        },
        MapMode::HiRom => {
            if (b < 0x40 && lo < 0x8000) || (b >= 0x7E && bank < 0x80) {
                return None;
            }
            ((b & 0x3F) as usize) * 0x10000 + lo
        },
        MapMode::ExHiRom => {
            if b < 0x40 && lo < 0x8000 {
                return None;
            }
            let base: usize = if bank & 0x80 != 0 {
                0
            } else {
                0x400000
            };
            base + ((b & 0x3F) as usize) * 0x10000 + lo
        },
    };
    assert(rom_offset(h.map, addr) == Some(off as nat));
    let off = if off >= rom_len {
        if pow2_floor_of(rom_len) == rom_len {
            off % rom_len
        } else {
            return None;
        }
    } else {
        off
    };
    Some(off + h.copier_header)
}

// ------------------------------------------------------------------ inspection

pub open spec fn spec_country_label(c: u8) -> Seq<char> {
    if c == 0 {
        "Japan"@
    } else if c == 1 {
        "USA"@
    } else if (2 <= c && c <= 5) || (8 <= c && c <= 17) {
        "Europe"@
    } else if c == 6 {
        "France"@
    } else if c == 7 {
        "Netherlands"@
    } else {
        ""@
    }
}

fn country_label(c: u8) -> (r: &'static str)
    ensures
        r@ == spec_country_label(c),
{
    if c == 0 {
        "Japan"
    } else if c == 1 {
        "USA"
    } else if (2 <= c && c <= 5) || (8 <= c && c <= 17) {
        "Europe"
    } else if c == 6 {
        "France"
    } else if c == 7 {
        "Netherlands"
    } else {
        ""
    }
}

/// The SRAM size in KB that a header code announces (a shift of 1, taken modulo the 64-bit
/// width as a release build computes it).
pub open spec fn sram_kb(code: u8) -> nat {
    (1u64 << ((code % 64) as u64)) as nat
}

/// The lines `inspect` reports for a Super NES header.
pub open spec fn snes_fields(h: SnesHeaderView, len: nat) -> Seq<(Seq<char>, Seq<char>)> {
    let a = seq![("Mapping"@, h.map.spec_label())];
    let b = if h.copier_header > 0 {
        a.push(("Copier header"@, "512 bytes"@))
    } else {
        a
    };
    let c = b.push(
        ("Speed"@, if h.map_byte & 0x10 != 0 { "FastROM"@ } else { "SlowROM"@ }),
    ).push(("ROM size"@, spec_human_size((len - h.copier_header) as nat)));
    let e = if h.sram_code > 0 {
        c.push(("SRAM"@, crate::number::dec(sram_kb(h.sram_code)) + " KB"@))
    } else {
        c
    };
    e.push(("Version"@, "1."@ + crate::number::dec(h.version as nat)))
}

/// What `inspect` reports for a Super NES image.
pub open spec fn snes_info(h: SnesHeaderView, d: Seq<u8>) -> RomInfoView {
    let computed = spec_compute_checksum(
        d.skip(h.copier_header as int),
        (h.header_at - h.copier_header) as nat,
    );
    RomInfoView {
        title: h.title,
        region: spec_country_label(h.country),
        checksum: Some(
            (
                hex_text(h.checksum as nat, 4, true),
                hex_text(computed as nat, 4, true),
                computed == h.checksum && h.checksum ^ h.complement == 0xFFFF,
            ),
        ),
        fields: snes_fields(h, d.len()),
        ..blank_view()
    }
}

fn add_field(info: &mut RomInfo, label: &str, value: String)
    ensures
        final(info)@ == (RomInfoView {
            fields: old(info)@.fields.push((label@, value@)),
            ..old(info)@
        }),
{
    let f = field(label, value);
    info.fields.push(f);
    assert(info@.fields =~= old(info)@.fields.push((label@, value@)));
}

/// Reads the header and describes the image, including whether its checksum holds.
pub fn inspect(d: &[u8]) -> (r: Result<(RomInfo, SnesHeader), String>)
    ensures
        match spec_parse(d@) {
            Ok(hv) => r matches Ok((info, h)) && h@ == hv && info@ == snes_info(hv, d@),
            Err(e) => r matches Err(x) && x@ == e,
        },
        r matches Ok((_, h)) ==> h.copier_header <= h.header_at && h.header_at + 0x40 <= d@.len(),
{
    let h = match parse(d) {
        Ok(h) => h,
        Err(e) => {
            return Err(e);
        },
    };
    let mut info = blank_info();
    info.title = h.title.clone();
    info.region = owned(country_label(h.country));
    let computed = compute_checksum(slice_from(d, h.copier_header), h.header_at - h.copier_header);
    let mut stored = String::new();
    push_hex(&mut stored, h.checksum as u64, 4, true);
    let mut comp_text = String::new();
    push_hex(&mut comp_text, computed as u64, 4, true);
    info.checksum = Some(
        ChecksumInfo {
            stored,
            computed: comp_text,
            valid: computed == h.checksum && h.checksum ^ h.complement == 0xFFFF,
        },
    );
    add_field(&mut info, "Mapping", owned(h.map.label()));
    if h.copier_header > 0 {
        add_field(&mut info, "Copier header", owned("512 bytes"));
    }
    add_field(&mut info, "Speed", if h.map_byte & 0x10 != 0 { owned("FastROM") } else { owned("SlowROM") });
    add_field(&mut info, "ROM size", human_size(d.len() - h.copier_header));
    if h.sram_code > 0 {
        let mut v = String::new();
        push_dec(&mut v, 1u64 << ((h.sram_code % 64) as u64));
        push_str(&mut v, " KB");
        add_field(&mut info, "SRAM", v);
    }
    let mut v = owned("1.");
    push_dec(&mut v, h.version as u64);
    add_field(&mut info, "Version", v);
    assert(info@.fields =~= snes_fields(h@, d@.len()));
    Ok((info, h))
}

} // verus!

verus! {

proof fn lemma_total_once_ignores_check_bytes(b1: Seq<u8>, b2: Seq<u8>, hdr: nat)
    requires
        b1.len() == b2.len(),
        hdr + 0x20 <= b1.len(),
        b1.len() - pow2_floor(b1.len()) > 0,
        tail_mult(pow2_floor(b1.len()), (b1.len() - pow2_floor(b1.len())) as nat) == 1,
        forall|i: int|
            0 <= i < b1.len() && !(hdr + 0x1C <= i < hdr + 0x20) ==> #[trigger] b1[i] == b2[i],
    ensures
        checksum_total(b1, hdr) == checksum_total(b2, hdr),
{
    let p = pow2_floor(b1.len());
    lemma_pow2_floor(b1.len());
    lemma_byte_sum_split(b1, p as int);
    lemma_byte_sum_split(b2, p as int);
    let k = hdr + 0x1C;
    lemma_byte_sum_split(b1, k as int);
    lemma_byte_sum_split(b2, k as int);
    lemma_byte_sum_split(b1.skip(k as int), 4);
    lemma_byte_sum_split(b2.skip(k as int), 4);
    assert(b1.take(k as int) =~= b2.take(k as int));
    assert(b1.skip(k as int).skip(4) =~= b2.skip(k as int).skip(4));
    assert(b1.skip(k as int).take(4) =~= check_bytes(b1, hdr));
    assert(b2.skip(k as int).take(4) =~= check_bytes(b2, hdr));
}

/// The checksum does not depend on the four checksum bytes of the header: they count as a
/// consistent pair whatever they hold. This holds when the header lies in the power-of-two
/// part of the image, and anywhere in the image when the part after it is counted once.
pub proof fn law_checksum_ignores_field(b1: Seq<u8>, b2: Seq<u8>, hdr: nat)
    requires
        b1.len() == b2.len(),
        hdr + 0x20 <= pow2_floor(b1.len()) || (hdr + 0x20 <= b1.len() && tail_mult(
            pow2_floor(b1.len()),
            (b1.len() - pow2_floor(b1.len())) as nat,
        ) == 1),
        forall|i: int|
            0 <= i < b1.len() && !(hdr + 0x1C <= i < hdr + 0x20) ==> #[trigger] b1[i] == b2[i],
    ensures
        spec_compute_checksum(b1, hdr) == spec_compute_checksum(b2, hdr),
{
    lemma_pow2_floor(b1.len());
    if hdr + 0x20 <= pow2_floor(b1.len()) {
        lemma_total_ignores_check_bytes(b1, b2, hdr);
    } else {
        lemma_total_once_ignores_check_bytes(b1, b2, hdr);
    }
}

/// `s` written `k` times in a row.
pub open spec fn repeat_bytes(s: Seq<u8>, k: nat) -> Seq<u8>
    decreases k,
{
    if k == 0 {
        Seq::empty()
    } else {
        repeat_bytes(s, (k - 1) as nat) + s
    }
}

/// The image with its part after the largest power of two repeated until the image is twice
/// that power long.
pub open spec fn mirrored(body: Seq<u8>) -> Seq<u8> {
    let p = pow2_floor(body.len());
    let rem = (body.len() - p) as nat;
    body.take(p as int) + repeat_bytes(body.skip(p as int), p / rem)
}

proof fn lemma_byte_sum_append(a: Seq<u8>, b: Seq<u8>)
    ensures
        byte_sum(a + b) == byte_sum(a) + byte_sum(b),
{
    lemma_byte_sum_split(a + b, a.len() as int);
    assert((a + b).take(a.len() as int) == a);
    assert((a + b).skip(a.len() as int) == b);
}

proof fn lemma_repeat_bytes(s: Seq<u8>, k: nat)
    ensures
        repeat_bytes(s, k).len() == k * s.len(),
        byte_sum(repeat_bytes(s, k)) == k * byte_sum(s),
    decreases k,
{
    if k > 0 {
        lemma_repeat_bytes(s, (k - 1) as nat);
        lemma_byte_sum_append(repeat_bytes(s, (k - 1) as nat), s);
        let k1 = (k - 1) as nat;
        let a = s.len();
        let b = byte_sum(s);
        assert(k1 * a + a == k * a && k1 * b + b == k * b) by (nonlinear_arith)
            requires
                k1 + 1 == k,
        ;
        assert(repeat_bytes(s, k) == repeat_bytes(s, k1) + s);
    } else {
        let a = s.len();
        let b = byte_sum(s);
        assert(0 * a == 0 && 0 * b == 0) by (nonlinear_arith);
        assert(repeat_bytes(s, 0) == Seq::<u8>::empty());
    }
}

proof fn lemma_pow2_floor_of_pow2(n: nat)
    ensures
        pow2_floor(pow2_floor(n)) == pow2_floor(n),
        n >= 1 ==> pow2_floor(2 * pow2_floor(n)) == 2 * pow2_floor(n),
    decreases n,
{
    lemma_pow2_floor(n);
    if n > 1 {
        lemma_pow2_floor_of_pow2(n / 2);
        lemma_pow2_floor(n / 2);
        assert((2 * pow2_floor(n / 2)) / 2 == pow2_floor(n / 2));
    }
    if n >= 1 {
        assert((2 * pow2_floor(n)) / 2 == pow2_floor(n));
    }
}

/// An image whose length is a power of two plus a smaller power of two dividing it is summed
/// as if that tail were mirrored until the image is twice the power long: its checksum is
/// that of the mirrored image.
pub proof fn law_checksum_mirrors_tail(body: Seq<u8>, hdr: nat)
    requires
        ({
            let p = pow2_floor(body.len());
            let rem = (body.len() - p) as nat;
            &&& rem > 0
            &&& is_pow2(rem)
            &&& p % rem == 0
            &&& hdr + 0x20 <= p
        }),
    ensures
        mirrored(body).len() == 2 * pow2_floor(body.len()),
        is_pow2(mirrored(body).len()),
        spec_compute_checksum(body, hdr) == spec_compute_checksum(mirrored(body), hdr),
{
    let n = body.len();
    let p = pow2_floor(n);
    let rem = (n - p) as nat;
    let k = p / rem;
    let head = body.take(p as int);
    let tail = body.skip(p as int);
    let m = mirrored(body);
    lemma_pow2_floor(n);
    lemma_pow2_floor_of_pow2(n);
    lemma_repeat_bytes(tail, k);
    assert(k * rem == p) by (nonlinear_arith)
        requires
            p % rem == 0,
            rem > 0,
            k == p / rem,
    ;
    assert(m.len() == 2 * p);
    lemma_pow2_floor(m.len());
    lemma_byte_sum_append(head, repeat_bytes(tail, k));
    lemma_byte_sum_split(body, p as int);
    assert(m.take(m.len() as int) == m);
    assert(check_bytes(m, hdr) == check_bytes(body, hdr));
    assert(tail_term(body) == byte_sum(tail) * k);
    assert(byte_sum(tail) * k == k * byte_sum(tail)) by (nonlinear_arith);
    assert(tail_term(m) == 0);
}


// ------------------------------------------------------------------ where CPU addresses land

/// Where a ROM offset `off` lands in an image whose ROM part holds `rom_len` bytes after a
/// copier header of `copier` bytes: at `off` when it is inside, wrapped round when the ROM
/// size is a power of two, and nowhere otherwise.
pub open spec fn placed(off: nat, rom_len: nat, copier: nat) -> Option<usize> {
    if off < rom_len {
        Some((copier + off) as usize)
    } else if is_pow2(rom_len) {
        Some((copier + off % rom_len) as usize)
    } else {
        None
    }
}

proof fn lemma_bank_parts(addr: u32)
    requires
        addr < 0x1000000,
    ensures
        ({
            let bank = (addr >> 16u32) & 0xFF;
            &&& bank == addr / 0x10000
            &&& addr & 0xFFFF == addr % 0x10000
            &&& bank & 0x7F == bank % 0x80
            &&& (bank & 0x7F) & 0x3F == bank % 0x40
            &&& (bank & 0x80 != 0) == (bank >= 0x80)
        }),
{
    let bank = (addr >> 16u32) & 0xFF;
    assert(bank == addr / 0x10000 && addr & 0xFFFF == addr % 0x10000 && bank & 0x7F == bank % 0x80
        && (bank & 0x7F) & 0x3F == bank % 0x40 && (bank & 0x80 != 0) == (bank >= 0x80)) by (bit_vector)
        requires
            addr < 0x1000000,
            bank == (addr >> 16u32) & 0xFF,
    ;
}

/// LoROM: each bank holds 32 KB of ROM at $8000-$FFFF, bank after bank (banks $80 and up
/// mirror $00 and up); the low halves and banks $7E-$7F (work RAM) are not ROM.
pub proof fn law_lorom_mapping(h: SnesHeaderView, addr: u32, file_len: nat)
    requires
        h.map == MapMode::LoRom,
        addr < 0x1000000,
        h.copier_header < file_len,
    ensures
        ({
            let bank = addr / 0x10000;
            let lo = addr % 0x10000;
            let rom_len = (file_len - h.copier_header) as nat;
            spec_map_to_offset(h, addr, file_len) == if lo < 0x8000 || bank % 0x80 >= 0x7E {
                None
            } else {
                placed(((bank % 0x80) * 0x8000 + lo - 0x8000) as nat, rom_len, h.copier_header as nat)
            }
        }),
{
    lemma_bank_parts(addr);
}

/// HiROM: each bank holds 64 KB of ROM, bank after bank, so banks $C0-$FF (and $40-$7D) cover
/// the first 4 MB linearly; banks $00-$3F and $80-$BF show the upper 32 KB of the same banks,
/// and banks $7E-$7F are work RAM.
pub proof fn law_hirom_mapping(h: SnesHeaderView, addr: u32, file_len: nat)
    requires
        h.map == MapMode::HiRom,
        addr < 0x1000000,
        h.copier_header < file_len,
    ensures
        ({
            let bank = addr / 0x10000;
            let lo = addr % 0x10000;
            let rom_len = (file_len - h.copier_header) as nat;
            spec_map_to_offset(h, addr, file_len) == if (bank % 0x80 < 0x40 && lo < 0x8000) || bank
                == 0x7E || bank == 0x7F {
                None
            } else {
                placed(((bank % 0x40) * 0x10000 + lo) as nat, rom_len, h.copier_header as nat)
            }
        }),
{
    lemma_bank_parts(addr);
}

/// ExHiROM: banks $C0-$FF cover the first 4 MB linearly and banks $40-$7F the next 4 MB; banks
/// $80-$BF and $00-$3F show the upper 32 KB of those same banks.
pub proof fn law_exhirom_mapping(h: SnesHeaderView, addr: u32, file_len: nat)
    requires
        h.map == MapMode::ExHiRom,
        addr < 0x1000000,
        h.copier_header < file_len,
    ensures
        ({
            let bank = addr / 0x10000;
            let lo = addr % 0x10000;
            let rom_len = (file_len - h.copier_header) as nat;
            spec_map_to_offset(h, addr, file_len) == if bank % 0x80 < 0x40 && lo < 0x8000 {
                None
            } else {
                placed(
                    ((if bank >= 0x80 { 0int } else { 0x400000int }) + (bank % 0x40) * 0x10000 + lo) as nat,
                    rom_len,
                    h.copier_header as nat,
                )
            }
        }),
{
    lemma_bank_parts(addr);
}


/// For an image whose length is a power of two and whose header holds a consistent
/// complement/checksum pair, the checksum is simply the sum of all its bytes, modulo 65536.
pub proof fn law_checksum_is_byte_sum(body: Seq<u8>, hdr: nat)
    requires
        is_pow2(body.len()),
        hdr + 0x20 <= body.len(),
        le16(body[hdr as int + 0x1C], body[hdr as int + 0x1D]) ^ le16(body[hdr as int + 0x1E], body[hdr as int + 0x1F]) == 0xFFFF,
    ensures
        spec_compute_checksum(body, hdr) == byte_sum(body) % 65536,
{
    let c0 = body[hdr as int + 0x1C];
    let c1 = body[hdr as int + 0x1D];
    let s0 = body[hdr as int + 0x1E];
    let s1 = body[hdr as int + 0x1F];
    assert(c0 + s0 == 0xFF && c1 + s1 == 0xFF) by (bit_vector)
        requires
            ((c0 as u16) | ((c1 as u16) << 8u16)) ^ ((s0 as u16) | ((s1 as u16) << 8u16)) == 0xFFFF,
    ;
    let cb = check_bytes(body, hdr);
    assert(cb =~= seq![c0, c1, s0, s1]);
    reveal_with_fuel(byte_sum, 5);
    assert(byte_sum(cb) == 0x1FE);
    assert(body.take(body.len() as int) =~= body);
}

} // verus!
