//! Mega Drive / Genesis header handling, checksum repair and .smd conversion.
use vstd::prelude::*;
use crate::number::{hex_text, hex_digit, hex_digit_of};
use crate::rom::{blank_info, blank_view, field, human_size, spec_human_size, ChecksumInfo, RomInfo, RomInfoView};
use crate::text::{
    Class, chars_of, eq_str, join, join_with, owned, push_hex, split_runs, string_of, tokens,
    trim, trim_class, upper_all, upper_seq, utf8_lossy, from_utf8_lossy, position, find_char,
};

verus! {

broadcast use vstd::string::group_string_axioms;

/// The text fields and numbers of a Mega Drive header.
#[derive(Clone, Debug)]
pub struct GenHeader {
    pub system: String,
    pub copyright: String,
    pub domestic_title: String,
    pub overseas_title: String,
    pub serial: String,
    pub checksum: u16,
    pub rom_end: u32,
    pub region: String,
    pub sram: bool,
}

pub struct GenHeaderView {
    pub system: Seq<char>,
    pub copyright: Seq<char>,
    pub domestic_title: Seq<char>,
    pub overseas_title: Seq<char>,
    pub serial: Seq<char>,
    pub checksum: u16,
    pub rom_end: u32,
    pub region: Seq<char>,
    pub sram: bool,
}

impl View for GenHeader {
    type V = GenHeaderView;

    open spec fn view(&self) -> GenHeaderView {
        GenHeaderView {
            system: self.system@,
            copyright: self.copyright@,
            domestic_title: self.domestic_title@,
            overseas_title: self.overseas_title@,
            serial: self.serial@,
            checksum: self.checksum,
            rom_end: self.rom_end,
            region: self.region@,
            sram: self.sram,
        }
    }
}

/// The mark `SEGA` at $100.
pub open spec fn sega_mark() -> Seq<u8> {
    seq![0x53u8, 0x45, 0x47, 0x41]
}

// ------------------------------------------------------------------ .smd images

/// An image is interleaved when its extension says so, or when it has the copier header
/// signature $AA $BB at bytes 8-9 and no `SEGA` mark at $100.
pub open spec fn spec_is_smd(ext: Seq<char>, d: Seq<u8>) -> bool {
    ext == "smd"@ || (d.len() > 512 + 0x200 && d[8] == 0xAA && d[9] == 0xBB && d.subrange(0x100, 0x104)
        != sega_mark())
}

pub fn is_smd(ext: &str, d: &[u8]) -> (r: bool)
    ensures
        r == spec_is_smd(ext@, d@),
{
    if eq_str(&chars_of(ext), "smd") {
        return true;
    }
    if d.len() > 512 + 0x200 && d[8] == 0xAA && d[9] == 0xBB {
        let sega = d[0x100] == 0x53 && d[0x101] == 0x45 && d[0x102] == 0x47 && d[0x103] == 0x41;
        assert(sega == (d@.subrange(0x100, 0x104) == sega_mark())) by {
            if sega {
                assert(d@.subrange(0x100, 0x104) =~= sega_mark());
            } else {
                assert(d@.subrange(0x100, 0x104)[0] == d@[0x100]);
                assert(d@.subrange(0x100, 0x104)[1] == d@[0x101]);
                assert(d@.subrange(0x100, 0x104)[2] == d@[0x102]);
                assert(d@.subrange(0x100, 0x104)[3] == d@[0x103]);
            }
        }
        return !sega;
    }
    false
}

/// Byte `k` of the plain image recovered from an interleaved body: each 16 KB block stores its
/// odd bytes first and its even bytes second; a byte left over in an odd-length block is 0.
pub open spec fn plain_byte(body: Seq<u8>, k: int) -> u8 {
    let base = (k / 16384) * 16384;
    let j = k % 16384;
    let blen = if body.len() - base < 16384 {
        body.len() - base
    } else {
        16384
    };
    let half = blen / 2;
    if j >= 2 * half {
        0
    } else if j % 2 == 1 {
        body[base + j / 2]
    } else {
        body[base + half + j / 2]
    }
}

/// The plain image held by an interleaved `.smd` file (the first 512 bytes are its header).
pub open spec fn spec_deinterleave(d: Seq<u8>) -> Seq<u8> {
    let body = d.skip(512);
    Seq::new(body.len(), |k: int| plain_byte(body, k))
}

/// Converts an interleaved `.smd` image to a plain binary.
pub fn deinterleave_smd(d: &[u8]) -> (r: Vec<u8>)
    requires
        d@.len() >= 512,
    ensures
        r@ == spec_deinterleave(d@),
{
    let n = d.len() - 512;
    let ghost body = d@.skip(512);
    let mut out: Vec<u8> = Vec::new();
    let mut k: usize = 0;
    while k < n
        invariant
            k <= n,
            n == body.len(),
            body == d@.skip(512),
            d@.len() == n + 512,
            n + 512 <= usize::MAX,
            out@ == Seq::new(k as nat, |x: int| plain_byte(body, x)),
        decreases n - k,
    {
        let base = (k / 16384) * 16384;
        let j = k % 16384;
        assert(base <= k) by (nonlinear_arith)
            requires
                base == (k / 16384) * 16384,
        ;
        let blen = if n - base < 16384 {
            n - base
        } else {
            16384
        };
        let half = blen / 2;
        let v = if j >= 2 * half {
            0u8
        } else if j % 2 == 1 {
            assert(base + j / 2 < n) by (nonlinear_arith)
                requires
                    j < 2 * half,
                    half * 2 <= blen,
                    base + blen <= n,
            ;
            d[512 + base + j / 2]
        } else {
            assert(base + half + j / 2 < n) by (nonlinear_arith)
                requires
                    j < 2 * half,
                    half * 2 <= blen,
                    base + blen <= n,
            ;
            d[512 + base + half + j / 2]
        };
        assert(v == plain_byte(body, k as int));
        out.push(v);
        assert(out@ =~= Seq::new((k + 1) as nat, |x: int| plain_byte(body, x)));
        k = k + 1;
    }
    out
}

/// The `.smd` layout of a plain image: within each 16 KB block, the odd-indexed bytes and then
/// the even-indexed ones.
pub open spec fn interleave_byte(plain: Seq<u8>, k: int) -> u8 {
    let base = (k / 16384) * 16384;
    let j = k % 16384;
    let blen = if plain.len() - base < 16384 {
        plain.len() - base
    } else {
        16384
    };
    let half = blen / 2;
    if j < half {
        plain[base + 2 * j + 1]
    } else {
        plain[base + 2 * (j - half)]
    }
}

pub open spec fn spec_interleave(plain: Seq<u8>) -> Seq<u8> {
    Seq::new(plain.len(), |k: int| interleave_byte(plain, k))
}

/// Converting an interleaved image back gives the plain image it was made from, for any
/// 512-byte copier header and any image of even length (every 16 KB block then has an even
/// number of bytes).
pub proof fn law_deinterleave_undoes_interleave(header: Seq<u8>, plain: Seq<u8>)
    requires
        header.len() == 512,
        plain.len() % 2 == 0,
    ensures
        spec_deinterleave(header + spec_interleave(plain)) == plain,
{
    let d = header + spec_interleave(plain);
    let body = d.skip(512);
    assert(body =~= spec_interleave(plain));
    assert forall|k: int| 0 <= k < plain.len() implies #[trigger] plain_byte(body, k) == plain[k] by {
        let base = (k / 16384) * 16384;
        let j = k % 16384;
        let n = plain.len();
        assert(base <= k && k < base + 16384 && 0 <= j < 16384 && k == base + j) by (nonlinear_arith)
            requires
                base == (k / 16384) * 16384,
                j == k % 16384,
                k >= 0,
        ;
        let blen = if n - base < 16384 {
            n - base
        } else {
            16384
        };
        assert(blen % 2 == 0) by (nonlinear_arith)
            requires
                blen == n - base || blen == 16384,
                n % 2 == 0,
                base == (k / 16384) * 16384,
        ;
        let half = blen / 2;
        assert(j < blen);
        if j % 2 == 1 {
            let i = base + j / 2;
            assert(i / 16384 == k / 16384 && i % 16384 == j / 2) by (nonlinear_arith)
                requires
                    i == base + j / 2,
                    base == (k / 16384) * 16384,
                    0 <= j < 16384,
            ;
            assert(j / 2 < half);
            assert(interleave_byte(plain, i) == plain[base + 2 * (j / 2) + 1]);
        } else {
            let i = base + half + j / 2;
            assert(i / 16384 == k / 16384 && i % 16384 == half + j / 2) by (nonlinear_arith)
                requires
                    i == base + half + j / 2,
                    base == (k / 16384) * 16384,
                    0 <= j < blen,
                    blen <= 16384,
                    half == blen / 2,
                    blen % 2 == 0,
            ;
            assert(interleave_byte(plain, i) == plain[base + 2 * (j / 2)]);
        }
    }
    assert(spec_deinterleave(d) =~= plain);
}


// ------------------------------------------------------------------ header text

/// Header text: the bytes decoded leniently as UTF-8, NUL and white space trimmed from both
/// ends, inner runs of white space collapsed to one space.
pub open spec fn spec_text(b: Seq<u8>) -> Seq<char> {
    join(tokens(trim(utf8_lossy(b), Class::NulOrSpace), Class::Space), " "@)
}

fn text(b: &[u8]) -> (r: String)
    ensures
        r@ == spec_text(b@),
{
    let s = from_utf8_lossy(b);
    let t = trim_class(&chars_of(s.as_str()), Class::NulOrSpace);
    let parts = split_runs(&t, Class::Space);
    let sep = chars_of(" ");
    let j = join_with(&parts, &sep);
    assert(parts@.map_values(|p: Vec<char>| p@) =~= tokens(t@, Class::Space));
    string_of(&j)
}

pub open spec fn old_style_letter(c: char) -> bool {
    c == 'J' || c == 'U' || c == 'E' || c == 'A' || c == 'B' || c == 'C' || c == ' '
}

/// The region tags of the header's region field: old-style letters `J`, `U`, `E` (when the
/// field holds only `JUEABC` and spaces), otherwise the bits 1, 4 and 8 of a leading
/// hexadecimal digit.
pub open spec fn region_tags(letters: Seq<char>) -> Seq<Seq<char>> {
    let old_style = letters.len() > 0 && forall|i: int| 0 <= i < letters.len() ==> old_style_letter(#[trigger] letters[i]);
    if old_style {
        (if letters.contains('J') { seq!["Japan"@] } else { Seq::empty() })
            + (if letters.contains('U') { seq!["USA"@] } else { Seq::empty() })
            + (if letters.contains('E') { seq!["Europe"@] } else { Seq::empty() })
    } else if letters.len() > 0 && hex_digit(letters[0]) is Some {
        let v = hex_digit(letters[0]).unwrap() as u8;
        (if v & 1 != 0 { seq!["Japan"@] } else { Seq::empty() })
            + (if v & 4 != 0 { seq!["USA"@] } else { Seq::empty() })
            + (if v & 8 != 0 { seq!["Europe"@] } else { Seq::empty() })
    } else {
        Seq::empty()
    }
}

pub open spec fn spec_region_label(raw: Seq<u8>) -> Seq<char> {
    join(region_tags(upper_seq(spec_text(raw))), ", "@)
}

fn push_tag(tags: &mut Vec<Vec<char>>, on: bool, label: &str)
    ensures
        final(tags)@.map_values(|v: Vec<char>| v@) == old(tags)@.map_values(|v: Vec<char>| v@) + (
        if on {
            seq![label@]
        } else {
            Seq::empty()
        }),
{
    let ghost before = tags@.map_values(|v: Vec<char>| v@);
    if on {
        tags.push(chars_of(label));
        assert(tags@.map_values(|v: Vec<char>| v@) =~= before + seq![label@]);
    } else {
        assert(tags@.map_values(|v: Vec<char>| v@) =~= before + Seq::<Seq<char>>::empty());
    }
}

fn has_char(v: &Vec<char>, c: char) -> (r: bool)
    ensures
        r == v@.contains(c),
{
    proof {
        crate::text::lemma_find_char(v@, c);
    }
    match position(v, c) {
        Some(i) => {
            assert(v@[i as int] == c);
            true
        },
        None => false,
    }
}

fn region_label(raw: &[u8]) -> (r: String)
    ensures
        r@ == spec_region_label(raw@),
{
    let t = text(raw);
    let letters = upper_all(&chars_of(t.as_str()));
    let mut tags: Vec<Vec<char>> = Vec::new();
    assert(tags@.map_values(|v: Vec<char>| v@) =~= Seq::<Seq<char>>::empty());
    let mut all_old = letters.len() > 0;
    let mut i: usize = 0;
    while i < letters.len()
        invariant
            i <= letters.len(),
            all_old == (letters@.len() > 0 && forall|j: int| 0 <= j < i ==> old_style_letter(#[trigger] letters@[j])),
        decreases letters.len() - i,
    {
        let c = letters[i];
        if !(c == 'J' || c == 'U' || c == 'E' || c == 'A' || c == 'B' || c == 'C' || c == ' ') {
            all_old = false;
        }
        i = i + 1;
    }
    if all_old {
        push_tag(&mut tags, has_char(&letters, 'J'), "Japan");
        push_tag(&mut tags, has_char(&letters, 'U'), "USA");
        push_tag(&mut tags, has_char(&letters, 'E'), "Europe");
    } else if letters.len() > 0 {
        match hex_digit_of(letters[0]) {
            Some(d) => {
                let v = d as u8;
                push_tag(&mut tags, v & 1 != 0, "Japan");
                push_tag(&mut tags, v & 4 != 0, "USA");
                push_tag(&mut tags, v & 8 != 0, "Europe");
            },
            None => {},
        }
    }
    assert(tags@.map_values(|v: Vec<char>| v@) =~= region_tags(letters@));
    let sep = chars_of(", ");
    string_of(&join_with(&tags, &sep))
}

// ------------------------------------------------------------------ header

pub open spec fn be16(hi: u8, lo: u8) -> u16 {
    ((hi as u16) << 8u16) | (lo as u16)
}

pub open spec fn be32(a: u8, b: u8, c: u8, d: u8) -> u32 {
    ((a as u32) << 24u32) | ((b as u32) << 16u32) | ((c as u32) << 8u32) | (d as u32)
}

/// What the header at $100 says.
pub open spec fn spec_parse(d: Seq<u8>) -> Result<GenHeaderView, Seq<char>> {
    if d.len() < 0x200 || d.subrange(0x100, 0x104) != sega_mark() {
        Err("no SEGA header at $100"@)
    } else {
        Ok(
            GenHeaderView {
                system: spec_text(d.subrange(0x100, 0x110)),
                copyright: spec_text(d.subrange(0x110, 0x120)),
                domestic_title: spec_text(d.subrange(0x120, 0x150)),
                overseas_title: spec_text(d.subrange(0x150, 0x180)),
                serial: spec_text(d.subrange(0x180, 0x18E)),
                checksum: be16(d[0x18E], d[0x18F]),
                rom_end: be32(d[0x1A4], d[0x1A5], d[0x1A6], d[0x1A7]),
                region: spec_region_label(d.subrange(0x1F0, 0x1F3)),
                sram: d[0x1B0] == 0x52 && d[0x1B1] == 0x41,
            },
        )
    }
}

pub open spec fn header_view(r: Result<GenHeader, String>) -> Result<GenHeaderView, Seq<char>> {
    match r {
        Ok(h) => Ok(h@),
        Err(e) => Err(e@),
    }
}

fn bytes_between(d: &[u8], from: usize, to: usize) -> (r: Vec<u8>)
    requires
        from <= to <= d@.len(),
    ensures
        r@ == d@.subrange(from as int, to as int),
{
    let mut r: Vec<u8> = Vec::new();
    let mut i = from;
    while i < to
        invariant
            from <= i <= to <= d@.len(),
            r@ == d@.subrange(from as int, i as int),
        decreases to - i,
    {
        r.push(d[i]);
        i = i + 1;
    }
    r
}

/// Reads the Mega Drive header.
pub fn parse(d: &[u8]) -> (r: Result<GenHeader, String>)
    ensures
        header_view(r) == spec_parse(d@),
{
    if d.len() < 0x200 || !(d[0x100] == 0x53 && d[0x101] == 0x45 && d[0x102] == 0x47 && d[0x103] == 0x41) {
        proof {
            if d@.len() >= 0x200 {
                let m = d@.subrange(0x100, 0x104);
                assert(m[0] == d@[0x100] && m[1] == d@[0x101] && m[2] == d@[0x102] && m[3] == d@[0x103]);
            }
        }
        return Err(owned("no SEGA header at $100"));
    }
    assert(d@.subrange(0x100, 0x104) =~= sega_mark());
    let system = text(bytes_between(d, 0x100, 0x110).as_slice());
    let copyright = text(bytes_between(d, 0x110, 0x120).as_slice());
    let domestic_title = text(bytes_between(d, 0x120, 0x150).as_slice());
    let overseas_title = text(bytes_between(d, 0x150, 0x180).as_slice());
    let serial = text(bytes_between(d, 0x180, 0x18E).as_slice());
    let region = region_label(bytes_between(d, 0x1F0, 0x1F3).as_slice());
    Ok(
        GenHeader {
            system,
            copyright,
            domestic_title,
            overseas_title,
            serial,
            checksum: ((d[0x18E] as u16) << 8u16) | (d[0x18F] as u16),
            rom_end: ((d[0x1A4] as u32) << 24u32) | ((d[0x1A5] as u32) << 16u32) | ((d[0x1A6] as u32)
                << 8u32) | (d[0x1A7] as u32),
            region,
            sram: d[0x1B0] == 0x52 && d[0x1B1] == 0x41,
        },
    )
}

// ------------------------------------------------------------------ checksum

/// The sum of the big-endian 16-bit words of `s`, a lone last byte counting as the high byte
/// of a word.
pub open spec fn word_sum(s: Seq<u8>) -> nat
    decreases s.len(),
{
    if s.len() == 0 {
        0
    } else if s.len() == 1 {
        s[0] as nat * 256
    } else {
        s[0] as nat * 256 + s[1] as nat + word_sum(s.skip(2))
    }
}

pub open spec fn sum_start(len: nat) -> nat {
    if len < 0x200 {
        len
    } else {
        0x200
    }
}

/// The Mega Drive checksum: the word sum of everything after the $200-byte header, modulo $10000.
pub open spec fn spec_compute_checksum(d: Seq<u8>) -> u16 {
    (word_sum(d.skip(sum_start(d.len()) as int)) % 65536) as u16
}

pub fn compute_checksum(d: &[u8]) -> (r: u16)
    ensures
        r == spec_compute_checksum(d@),
{
    let start: usize = if d.len() < 0x200 {
        d.len()
    } else {
        0x200
    };
    let ghost s = d@.skip(start as int);
    let mut acc: u64 = 0;
    let mut i: usize = start;
    while i < d.len()
        invariant
            start <= i <= d@.len(),
            s == d@.skip(start as int),
            acc < 65536,
            (acc + word_sum(d@.skip(i as int))) % 65536 == word_sum(s) % 65536,
        decreases d.len() - i,
    {
        let ghost rest = d@.skip(i as int);
        let w: u64 = if i + 1 < d.len() {
            ((d[i] as u64) << 8u64) | (d[i + 1] as u64)
        } else {
            (d[i] as u64) << 8u64
        };
        let hi = d[i];
        assert(((hi as u64) << 8u64) == hi as u64 * 256) by (bit_vector);
        if i + 1 < d.len() {
            let lo = d[i + 1];
            assert(((hi as u64) << 8u64) | (lo as u64) == hi as u64 * 256 + lo as u64) by (bit_vector);
            assert(rest.skip(2) =~= d@.skip(i + 2));
            assert(word_sum(rest) == w + word_sum(d@.skip(i + 2)));
        } else {
            assert(word_sum(rest) == w);
            assert(d@.skip(i + 1).len() == 0);
        }
        let next_i: usize = if i + 1 < d.len() {
            i + 2
        } else {
            i + 1
        };
        proof {
            let g = word_sum(d@.skip(next_i as int)) as int;
            vstd::arithmetic::div_mod::lemma_add_mod_noop(acc + w, g, 65536);
            vstd::arithmetic::div_mod::lemma_add_mod_noop(((acc + w) % 65536) as int, g, 65536);
            vstd::arithmetic::div_mod::lemma_mod_twice(acc + w, 65536);
        }
        acc = (acc + w) % 65536;
        i = next_i;
    }
    assert(d@.skip(d@.len() as int).len() == 0);
    acc as u16
}

/// `d` with the header checksum set to `sum`.
pub open spec fn with_checksum(d: Seq<u8>, sum: u16) -> Seq<u8> {
    d.update(0x18E, (sum >> 8u16) as u8).update(0x18F, (sum & 0xFF) as u8)
}

/// Rewrites the header checksum. Returns (stored before, computed).
pub fn fix_checksum(d: &mut Vec<u8>) -> (r: (u16, u16))
    requires
        old(d)@.len() >= 0x190,
    ensures
        r.0 == be16(old(d)@[0x18E], old(d)@[0x18F]),
        r.1 == spec_compute_checksum(old(d)@),
        final(d)@ == with_checksum(old(d)@, r.1),
{
    let old_sum = ((d[0x18E] as u16) << 8u16) | (d[0x18F] as u16);
    let new_sum = compute_checksum(d.as_slice());
    d.set(0x18E, (new_sum >> 8u16) as u8);
    d.set(0x18F, (new_sum & 0xFF) as u8);
    (old_sum, new_sum)
}

/// After `fix_checksum`, the stored checksum is what recomputing the checksum gives: the
/// checksum bytes lie in the header, which the sum skips.
pub proof fn law_fixed_checksum_verifies(d: Seq<u8>)
    requires
        d.len() >= 0x190,
    ensures
        ({
            let fixed = with_checksum(d, spec_compute_checksum(d));
            &&& spec_compute_checksum(fixed) == spec_compute_checksum(d)
            &&& be16(fixed[0x18E], fixed[0x18F]) == spec_compute_checksum(d)
        }),
{
    let sum = spec_compute_checksum(d);
    let fixed = with_checksum(d, sum);
    assert(fixed.skip(sum_start(d.len()) as int) =~= d.skip(sum_start(d.len()) as int));
    assert(be16((sum >> 8u16) as u8, (sum & 0xFF) as u8) == sum) by (bit_vector);
}

// ------------------------------------------------------------------ inspection

pub open spec fn gen_fields(h: GenHeaderView, len: nat) -> Seq<(Seq<char>, Seq<char>)> {
    let base = seq![
        ("System"@, h.system),
        ("Serial"@, h.serial),
        ("Copyright"@, h.copyright),
        ("ROM size"@, spec_human_size(len)),
    ];
    if h.sram {
        base.push(("SRAM"@, "yes"@))
    } else {
        base
    }
}

/// What `inspect` reports for a Mega Drive image.
pub open spec fn gen_info(h: GenHeaderView, d: Seq<u8>) -> RomInfoView {
    let computed = spec_compute_checksum(d);
    RomInfoView {
        title: if h.overseas_title.len() == 0 {
            h.domestic_title
        } else {
            h.overseas_title
        },
        region: h.region,
        checksum: Some(
            (hex_text(h.checksum as nat, 4, true), hex_text(computed as nat, 4, true), computed == h.checksum),
        ),
        fields: gen_fields(h, d.len()),
        ..blank_view()
    }
}

fn add_field(info: &mut RomInfo, label: &str, value: String)
    ensures
        final(info)@ == (RomInfoView {
            fields: old(info)@.fields.push((label@, value@)),
            ..old(info)@
        }),
{
    let f = field(label, value);
    info.fields.push(f);
    assert(info@.fields =~= old(info)@.fields.push((label@, value@)));
}

/// Reads the header and describes the image, including whether its checksum holds.
pub fn inspect(d: &[u8]) -> (r: Result<(RomInfo, GenHeader), String>)
    ensures
        match spec_parse(d@) {
            Ok(hv) => r matches Ok((info, h)) && h@ == hv && info@ == gen_info(hv, d@),
            Err(e) => r matches Err(x) && x@ == e,
        },
        r is Ok ==> d@.len() >= 0x200,
{
    let h = match parse(d) {
        Ok(h) => h,
        Err(e) => {
            return Err(e);
        },
    };
    let mut info = blank_info();
    info.title = if h.overseas_title.as_str().is_empty() {
        h.domestic_title.clone()
    } else {
        h.overseas_title.clone()
    };
    info.region = h.region.clone();
    let computed = compute_checksum(d);
    let mut stored = String::new();
    push_hex(&mut stored, h.checksum as u64, 4, true);
    let mut comp_text = String::new();
    push_hex(&mut comp_text, computed as u64, 4, true);
    info.checksum = Some(ChecksumInfo { stored, computed: comp_text, valid: computed == h.checksum });
    add_field(&mut info, "System", h.system.clone());
    add_field(&mut info, "Serial", h.serial.clone());
    add_field(&mut info, "Copyright", h.copyright.clone());
    add_field(&mut info, "ROM size", human_size(d.len()));
    if h.sram {
        add_field(&mut info, "SRAM", owned("yes"));
    }
    assert(info@.fields =~= gen_fields(h@, d@.len()));
    Ok((info, h))
}

} // verus!
