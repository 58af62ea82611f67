//! Cheat code parsers: Game Genie and Action Replay formats for NES, Super NES and Mega Drive.
use vstd::prelude::*;
use vstd::utf8::encode_utf8;
use crate::number::{hex_value, hex_text, is_hex_text, parse_hex, hex_digit, parse_hex_u32, is_hex, hex_chars};
use crate::rom::Platform;
use crate::text::{
    Class, find_char, tokens, upper_seq, without, chars_of, string_of, owned, push_all,
    push_str, upper_all, position, slice_chars, remove_char, split_runs, lemma_tokens_runs,
    run_ok, lemma_find_char,
};

verus! {

broadcast use vstd::string::group_string_axioms;

/// What one cheat code does.
#[derive(Clone, Debug, PartialEq, Eq, Structural)]
pub enum Op {
    /// A patch to the cartridge address space.
    Rom { cpu_addr: u32, value: u32, width: u8, compare: Option<u8> },
    /// A runtime write to work RAM; needs an emulator cheat engine.
    Ram { addr: u32, value: u32, width: u8 },
}

/// One part of a cheat string, with what it decodes to or why it does not.
#[derive(Clone, Debug)]
pub struct Parsed {
    pub raw: String,
    pub format: String,
    pub op: Option<Op>,
    pub error: Option<String>,
}

/// The model of a [`Parsed`]: its texts as character sequences.
pub struct ParsedView {
    pub raw: Seq<char>,
    pub format: Seq<char>,
    pub op: Option<Op>,
    pub error: Option<Seq<char>>,
}

pub open spec fn opt_view(s: Option<String>) -> Option<Seq<char>> {
    match s {
        Some(t) => Some(t@),
        None => None,
    }
}

impl View for Parsed {
    type V = ParsedView;

    open spec fn view(&self) -> ParsedView {
        ParsedView { raw: self.raw@, format: self.format@, op: self.op, error: opt_view(self.error) }
    }
}

/// The model of a decoding result.
pub open spec fn res_view(r: Result<Op, String>) -> Result<Op, Seq<char>> {
    match r {
        Ok(op) => Ok(op),
        Err(e) => Err(e@),
    }
}

/// A parsed part built from its text, format name and decoding result.
pub open spec fn pv(raw: Seq<char>, format: Seq<char>, r: Result<Op, Seq<char>>) -> ParsedView {
    match r {
        Ok(op) => ParsedView { raw, format, op: Some(op), error: None },
        Err(e) => ParsedView { raw, format, op: None, error: Some(e) },
    }
}

fn parsed(raw: &Vec<char>, format: &str, r: Result<Op, String>) -> (p: Parsed)
    ensures
        p@ == pv(raw@, format@, res_view(r)),
{
    match r {
        Ok(op) => Parsed { raw: string_of(raw), format: owned(format), op: Some(op), error: None },
        Err(e) => Parsed { raw: string_of(raw), format: owned(format), op: None, error: Some(e) },
    }
}

/// The error for text that is not hexadecimal: `'<s>' is not hexadecimal`.
pub open spec fn not_hex_msg(s: Seq<char>) -> Seq<char> {
    seq!['\''] + s + "' is not hexadecimal"@
}

fn not_hex(s: &Vec<char>) -> (e: String)
    ensures
        e@ == not_hex_msg(s@),
{
    proof {
        reveal_strlit("'");
    }
    let mut e = owned("'");
    push_all(&mut e, s);
    push_str(&mut e, "' is not hexadecimal");
    e
}

fn hex(s: &Vec<char>) -> (r: Result<u32, String>)
    ensures
        match parse_hex(s@) {
            Some(v) => r == Ok::<u32, String>(v),
            None => r is Err && r->Err_0@ == not_hex_msg(s@),
        },
{
    match parse_hex_u32(s) {
        Some(v) => Ok(v),
        None => Err(not_hex(s)),
    }
}

// ---------------------------------------------------------------- splitting

/// Every part of `code`: the maximal runs without `+`, `,` or white space, each decoded for
/// `platform`.
pub open spec fn spec_parse(platform: Platform, code: Seq<char>) -> Seq<ParsedView> {
    tokens(code, Class::CodeSep).map_values(|t: Seq<char>| spec_parse_one(platform, t))
}

/// Splits a cheat string into its parts and decodes each. Multi-part codes join with `+`.
pub fn parse(platform: Platform, code: &str) -> (r: Vec<Parsed>)
    ensures
        r@.len() == spec_parse(platform, code@).len(),
        forall|i: int| 0 <= i < r@.len() ==> (#[trigger] r@[i])@ == spec_parse(platform, code@)[i],
        forall|i: int| 0 <= i < r@.len() ==> run_ok((#[trigger] r@[i]).raw@, Class::CodeSep),
        forall|i: int| 0 <= i < r@.len() ==> ((#[trigger] r@[i]).op matches Some(op) ==> op_small(op)),
{
    let v = chars_of(code);
    let parts = split_runs(&v, Class::CodeSep);
    proof {
        lemma_tokens_runs(v@, Class::CodeSep);
    }
    let mut out: Vec<Parsed> = Vec::new();
    let mut i: usize = 0;
    while i < parts.len()
        invariant
            i <= parts.len(),
            v@ == code@,
            parts@.len() == tokens(v@, Class::CodeSep).len(),
            forall|j: int| 0 <= j < parts@.len() ==> (#[trigger] parts@[j])@ == tokens(v@, Class::CodeSep)[j],
            forall|j: int| 0 <= j < tokens(v@, Class::CodeSep).len() ==> run_ok(#[trigger] tokens(v@, Class::CodeSep)[j], Class::CodeSep),
            out@.len() == i,
            forall|j: int| 0 <= j < i ==> (#[trigger] out@[j])@ == spec_parse(platform, code@)[j],
        decreases parts.len() - i,
    {
        let p = parse_part(platform, &parts[i]);
        out.push(p);
        i = i + 1;
    }
    proof {
        assert forall|j: int| 0 <= j < out@.len() implies ((#[trigger] out@[j]).op matches Some(op) ==> op_small(op)) by {
            lemma_parse_one_small(platform, tokens(v@, Class::CodeSep)[j]);
        }
        assert forall|j: int| 0 <= j < out@.len() implies run_ok((#[trigger] out@[j]).raw@, Class::CodeSep) by {
            assert(out@[j]@ == spec_parse(platform, code@)[j]);
            assert(spec_parse(platform, code@)[j].raw == tokens(v@, Class::CodeSep)[j]) by {
                lemma_parse_one_raw(platform, tokens(v@, Class::CodeSep)[j]);
            }
        }
    }
    out
}

/// Every address a code names fits in 24 bits, and every value is one or two bytes wide.
pub open spec fn op_small(op: Op) -> bool {
    match op {
        Op::Rom { cpu_addr, width, .. } => cpu_addr <= 0xFFFFFF && 1 <= width <= 2,
        Op::Ram { addr, width, .. } => addr <= 0xFFFFFF && 1 <= width <= 2,
    }
}

/// Whatever a part decodes to addresses 24 bits at most, one or two bytes wide.
pub proof fn lemma_parse_one_small(platform: Platform, part: Seq<char>)
    ensures
        spec_parse_one(platform, part).op matches Some(op) ==> op_small(op),
{
    let up = upper_seq(part);
    match platform {
        Platform::Nes => {
            if spec_nes_gg(up) is Ok {
                let n = nes_nibbles(up);
                assert forall|j: int| 0 <= j < n.len() implies n[j] < 16 by {
                    assert(nes_letter(up[j]) is Some);
                }
                lemma_nes_addr_range(n[0], n[1], n[2], n[3], n[4], n[5]);
            }
        },
        Platform::Snes => {
            let s = without(up, '-');
            lemma_snes_ranges(snes_word(s));
            let compact = without(up, ':');
            if is_hex_text(compact) && compact.len() == 8 {
                let a = compact.take(6);
                assert forall|i: int| 0 <= i < a.len() implies (#[trigger] hex_digit(a[i])) is Some by {
                    assert(a[i] == compact[i]);
                }
                crate::number::lemma_hex_value_bound(a);
                reveal_with_fuel(crate::number::pow16, 7);
            }
        },
        Platform::Genesis => {
            let s = without(up, '-');
            let w = gen_word(s);
            lemma_gen_field_bound(w, gen_addr_pos());
            lemma_gen_field_bound(w, gen_data_pos());
            assert((1u64 << 24u64) == 0x1000000) by (bit_vector);
            assert((1u64 << 16u64) == 0x10000) by (bit_vector);
            match find_char(up, ':') {
                Some(i) => {
                    let a = up.take(i);
                    if is_hex_text(a) && a.len() == 6 {
                        let x = hex_value(a) as u32;
                        assert(0xFF0000u32 | (x & 0xFFFF) <= 0xFFFFFF) by (bit_vector);
                    }
                },
                None => {},
            }
        },
    }
}

proof fn lemma_parse_one_raw(platform: Platform, t: Seq<char>)
    ensures
        spec_parse_one(platform, t).raw == t,
{
}

/// What one part decodes to on `platform`.
pub open spec fn spec_parse_one(platform: Platform, part: Seq<char>) -> ParsedView {
    match platform {
        Platform::Nes => spec_nes(part),
        Platform::Snes => spec_snes(part),
        Platform::Genesis => spec_genesis(part),
    }
}

/// Decodes one part of a cheat string.
pub fn parse_one(platform: Platform, part: &str) -> (r: Parsed)
    ensures
        r@ == spec_parse_one(platform, part@),
{
    let v = chars_of(part);
    parse_part(platform, &v)
}

fn parse_part(platform: Platform, part: &Vec<char>) -> (r: Parsed)
    ensures
        r@ == spec_parse_one(platform, part@),
{
    match platform {
        Platform::Nes => nes(part),
        Platform::Snes => snes(part),
        Platform::Genesis => genesis(part),
    }
}

// ---------------------------------------------------------------- NES

/// Position of a letter in the NES Game Genie alphabet `APZLGITYEOXUKSVN`.
pub open spec fn nes_letter(c: char) -> Option<u8> {
    match c {
        'A' => Some(0u8),
        'P' => Some(1u8),
        'Z' => Some(2u8),
        'L' => Some(3u8),
        'G' => Some(4u8),
        'I' => Some(5u8),
        'T' => Some(6u8),
        'Y' => Some(7u8),
        'E' => Some(8u8),
        'O' => Some(9u8),
        'X' => Some(10u8),
        'U' => Some(11u8),
        'K' => Some(12u8),
        'S' => Some(13u8),
        'V' => Some(14u8),
        'N' => Some(15u8),
        _ => None,
    }
}

fn nes_letter_of(c: char) -> (r: Option<u8>)
    ensures
        r == nes_letter(c),
{
    match c {
        'A' => Some(0u8),
        'P' => Some(1u8),
        'Z' => Some(2u8),
        'L' => Some(3u8),
        'G' => Some(4u8),
        'I' => Some(5u8),
        'T' => Some(6u8),
        'Y' => Some(7u8),
        'E' => Some(8u8),
        'O' => Some(9u8),
        'X' => Some(10u8),
        'U' => Some(11u8),
        'K' => Some(12u8),
        'S' => Some(13u8),
        'V' => Some(14u8),
        'N' => Some(15u8),
        _ => None,
    }
}

/// The CPU address selected by the nibbles of a NES Game Genie code.
pub open spec fn nes_gg_addr(n: Seq<u8>) -> u32 {
    0x8000u32 | (((n[3] & 7) as u32) << 12u32) | (((n[5] & 7) as u32) << 8u32) | (((n[4]
        & 8) as u32) << 8u32) | (((n[2] & 7) as u32) << 4u32) | (((n[1] & 8) as u32) << 4u32)
        | ((n[4] & 7) as u32) | ((n[3] & 8) as u32)
}

/// The replacement byte; its high bit comes from nibble 5 in six-letter codes and nibble 7
/// in eight-letter codes.
pub open spec fn nes_gg_value(n: Seq<u8>, hi: u8) -> u8 {
    ((n[1] & 7) << 4u8) | ((n[0] & 8) << 4u8) | (n[0] & 7) | (hi & 8)
}

/// The compare byte of an eight-letter code.
pub open spec fn nes_gg_compare(n: Seq<u8>) -> u8 {
    ((n[7] & 7) << 4u8) | ((n[6] & 8) << 4u8) | (n[6] & 7) | (n[5] & 8)
}

pub open spec fn nes_gg_op(n: Seq<u8>) -> Op {
    if n.len() == 6 {
        Op::Rom { cpu_addr: nes_gg_addr(n), value: nes_gg_value(n, n[5]) as u32, width: 1, compare: None }
    } else {
        Op::Rom {
            cpu_addr: nes_gg_addr(n),
            value: nes_gg_value(n, n[7]) as u32,
            width: 1,
            compare: Some(nes_gg_compare(n)),
        }
    }
}

pub open spec fn all_nes_letters(s: Seq<char>) -> bool {
    forall|i: int| 0 <= i < s.len() ==> (#[trigger] nes_letter(s[i])) is Some
}

pub open spec fn nes_nibbles(s: Seq<char>) -> Seq<u8> {
    s.map_values(|c: char| nes_letter(c).unwrap())
}

/// NES Game Genie: six or eight letters of `APZLGITYEOXUKSVN`, scrambling a CPU address in
/// $8000-$FFFF, a value and, for eight letters, a compare byte.
pub open spec fn spec_nes_gg(code: Seq<char>) -> Result<Op, Seq<char>> {
    if !all_nes_letters(code) {
        Err("NES Game Genie codes use only the letters APZLGITYEOXUKSVN"@)
    } else if code.len() != 6 && code.len() != 8 {
        Err("NES Game Genie codes are 6 or 8 letters"@)
    } else {
        Ok(nes_gg_op(nes_nibbles(code)))
    }
}

proof fn lemma_nes_addr_range(a: u8, b: u8, c: u8, d: u8, e: u8, f: u8)
    requires
        a < 16 && b < 16 && c < 16 && d < 16 && e < 16 && f < 16,
    ensures
        0x8000u32 <= (0x8000u32 | (((d & 7) as u32) << 12u32) | (((f & 7) as u32) << 8u32) | (((e
            & 8) as u32) << 8u32) | (((c & 7) as u32) << 4u32) | (((b & 8) as u32) << 4u32) | ((e
            & 7) as u32) | ((d & 8) as u32)) <= 0xFFFFu32,
{
    assert(0x8000u32 <= (0x8000u32 | (((d & 7) as u32) << 12u32) | (((f & 7) as u32) << 8u32) | (((e
        & 8) as u32) << 8u32) | (((c & 7) as u32) << 4u32) | (((b & 8) as u32) << 4u32) | ((e
        & 7) as u32) | ((d & 8) as u32)) <= 0xFFFFu32) by (bit_vector);
}

/// Decodes a NES Game Genie code.
pub fn nes_game_genie(code: &str) -> (r: Result<Op, String>)
    ensures
        res_view(r) == spec_nes_gg(code@),
        r matches Ok(Op::Rom { cpu_addr, value, .. }) ==> 0x8000 <= cpu_addr <= 0xFFFF && value <= 0xFF,
{
    let v = chars_of(code);
    nes_gg_chars(&v)
}

fn nes_gg_chars(v: &Vec<char>) -> (r: Result<Op, String>)
    ensures
        res_view(r) == spec_nes_gg(v@),
        r matches Ok(Op::Rom { cpu_addr, value, .. }) ==> 0x8000 <= cpu_addr <= 0xFFFF && value <= 0xFF,
{
    let mut n: Vec<u8> = Vec::new();
    let mut i: usize = 0;
    while i < v.len()
        invariant
            i <= v.len(),
            n@ == nes_nibbles(v@.take(i as int)),
            forall|j: int| 0 <= j < i ==> (#[trigger] nes_letter(v@[j])) is Some,
        decreases v.len() - i,
    {
        match nes_letter_of(v[i]) {
            Some(x) => {
                n.push(x);
            },
            None => {
                assert(!all_nes_letters(v@));
                return Err(owned("NES Game Genie codes use only the letters APZLGITYEOXUKSVN"));
            },
        }
        i = i + 1;
        assert(nes_nibbles(v@.take(i as int)) =~= nes_nibbles(v@.take(i - 1)).push(x_of(v@[i - 1])));
    }
    assert(v@.take(v.len() as int) == v@);
    if n.len() != 6 && n.len() != 8 {
        return Err(owned("NES Game Genie codes are 6 or 8 letters"));
    }
    proof {
        assert forall|j: int| 0 <= j < n.len() implies n@[j] < 16 by {
            assert(nes_letter(v@[j]) is Some);
        }
        lemma_nes_addr_range(n@[0], n@[1], n@[2], n@[3], n@[4], n@[5]);
    }
    let cpu_addr = 0x8000u32 | (((n[3] & 7) as u32) << 12u32) | (((n[5] & 7) as u32) << 8u32) | (((n[4]
        & 8) as u32) << 8u32) | (((n[2] & 7) as u32) << 4u32) | (((n[1] & 8) as u32) << 4u32)
        | ((n[4] & 7) as u32) | ((n[3] & 8) as u32);
    if n.len() == 6 {
        let value = ((n[1] & 7) << 4u8) | ((n[0] & 8) << 4u8) | (n[0] & 7) | (n[5] & 8);
        Ok(Op::Rom { cpu_addr, value: value as u32, width: 1, compare: None })
    } else {
        let value = ((n[1] & 7) << 4u8) | ((n[0] & 8) << 4u8) | (n[0] & 7) | (n[7] & 8);
        let compare = ((n[7] & 7) << 4u8) | ((n[6] & 8) << 4u8) | (n[6] & 7) | (n[5] & 8);
        Ok(Op::Rom { cpu_addr, value: value as u32, width: 1, compare: Some(compare) })
    }
}

spec fn x_of(c: char) -> u8 {
    nes_letter(c).unwrap()
}

/// A raw NES code `AAAA:VV` or `AAAA?CC:VV` (address, value and optional compare byte).
pub open spec fn spec_nes_raw(addr: Seq<char>, rest: Seq<char>, check: Option<Seq<char>>) -> Result<
    Op,
    Seq<char>,
> {
    match parse_hex(addr) {
        None => Err(not_hex_msg(addr)),
        Some(a) => match parse_hex(rest) {
            None => Err(not_hex_msg(rest)),
            Some(v) => if a > 0xFFFF || v > 0xFF {
                Err("raw NES codes are AAAA:VV"@)
            } else {
                match check {
                    Some(c) => match parse_hex(c) {
                        None => Err(not_hex_msg(c)),
                        Some(x) => if x > 0xFF {
                            Err("raw NES codes are AAAA?CC:VV"@)
                        } else {
                            nes_raw_op(a, v, Some(x as u8))
                        },
                    },
                    None => nes_raw_op(a, v, None),
                }
            },
        },
    }
}

/// Addresses below $8000 are work RAM; the rest is cartridge space.
pub open spec fn nes_raw_op(a: u32, v: u32, compare: Option<u8>) -> Result<Op, Seq<char>> {
    if a < 0x8000 {
        Ok(Op::Ram { addr: a, value: v, width: 1 })
    } else {
        Ok(Op::Rom { cpu_addr: a, value: v, width: 1, compare })
    }
}

/// A NES part: raw when it holds a `:`, Game Genie otherwise; letters are read in upper case.
pub open spec fn spec_nes(part: Seq<char>) -> ParsedView {
    let up = upper_seq(part);
    match find_char(up, ':') {
        Some(i) => {
            let a = up.take(i);
            let rest = up.skip(i + 1);
            match find_char(a, '?') {
                Some(j) => pv(part, "Raw"@, spec_nes_raw(a.take(j), rest, Some(a.skip(j + 1)))),
                None => pv(part, "Raw"@, spec_nes_raw(a, rest, None)),
            }
        },
        None => pv(part, "Game Genie"@, spec_nes_gg(up)),
    }
}

fn nes(part: &Vec<char>) -> (r: Parsed)
    ensures
        r@ == spec_nes(part@),
{
    let up = upper_all(part);
    match position(&up, ':') {
        Some(i) => {
            proof {
                lemma_find_char(up@, ':');
            }
            let a = slice_chars(&up, 0, i);
            let rest = slice_chars(&up, i + 1, up.len());
            assert(a@ == up@.take(i as int));
            assert(rest@ == up@.skip(i + 1));
            let (addr, check) = match position(&a, '?') {
                Some(j) => {
                    proof {
                        lemma_find_char(a@, '?');
                    }
                    let x = slice_chars(&a, 0, j);
                    let y = slice_chars(&a, j + 1, a.len());
                    assert(x@ == a@.take(j as int));
                    assert(y@ == a@.skip(j + 1));
                    (x, Some(y))
                },
                None => (a.clone(), None),
            };
            let r = nes_raw(&addr, &rest, &check);
            parsed(part, "Raw", r)
        },
        None => {
            let r = nes_gg_chars(&up);
            parsed(part, "Game Genie", r)
        },
    }
}

fn nes_raw(addr: &Vec<char>, rest: &Vec<char>, check: &Option<Vec<char>>) -> (r: Result<Op, String>)
    ensures
        res_view(r) == spec_nes_raw(
            addr@,
            rest@,
            match check {
                Some(c) => Some(c@),
                None => None,
            },
        ),
{
    let a = match hex(addr) {
        Ok(a) => a,
        Err(e) => {
            return Err(e);
        },
    };
    let v = match hex(rest) {
        Ok(v) => v,
        Err(e) => {
            return Err(e);
        },
    };
    if a > 0xFFFF || v > 0xFF {
        return Err(owned("raw NES codes are AAAA:VV"));
    }
    let compare = match check {
        Some(c) => match hex(c) {
            Ok(x) => {
                if x > 0xFF {
                    return Err(owned("raw NES codes are AAAA?CC:VV"));
                }
                Some(x as u8)
            },
            Err(e) => {
                return Err(e);
            },
        },
        None => None,
    };
    if a < 0x8000 {
        Ok(Op::Ram { addr: a, value: v, width: 1 })
    } else {
        Ok(Op::Rom { cpu_addr: a, value: v, width: 1, compare })
    }
}


// ---------------------------------------------------------------- Super NES

/// Value of a digit in the Super NES Game Genie alphabet `DF4709156BC8A23E`.
pub open spec fn snes_digit(c: char) -> Option<u32> {
    match c {
        'D' => Some(0u32),
        'F' => Some(1u32),
        '4' => Some(2u32),
        '7' => Some(3u32),
        '0' => Some(4u32),
        '9' => Some(5u32),
        '1' => Some(6u32),
        '5' => Some(7u32),
        '6' => Some(8u32),
        'B' => Some(9u32),
        'C' => Some(10u32),
        '8' => Some(11u32),
        'A' => Some(12u32),
        '2' => Some(13u32),
        '3' => Some(14u32),
        'E' => Some(15u32),
        _ => None,
    }
}

fn snes_digit_of(c: char) -> (r: Option<u32>)
    ensures
        r == snes_digit(c),
{
    match c {
        'D' => Some(0u32),
        'F' => Some(1u32),
        '4' => Some(2u32),
        '7' => Some(3u32),
        '0' => Some(4u32),
        '9' => Some(5u32),
        '1' => Some(6u32),
        '5' => Some(7u32),
        '6' => Some(8u32),
        'B' => Some(9u32),
        'C' => Some(10u32),
        '8' => Some(11u32),
        'A' => Some(12u32),
        '2' => Some(13u32),
        '3' => Some(14u32),
        'E' => Some(15u32),
        _ => None,
    }
}

/// The 32-bit word spelled by Super NES Game Genie digits, first digit most significant.
pub open spec fn snes_word(s: Seq<char>) -> u32
    decreases s.len(),
{
    if s.len() == 0 {
        0
    } else {
        (snes_word(s.drop_last()) << 4u32) | snes_digit(s.last()).unwrap_or(0)
    }
}

/// The CPU address hidden in the low 24 bits of the word.
pub open spec fn snes_gg_addr(a: u32) -> u32 {
    ((a & 0x003C00) << 10u32) | ((a & 0x00003C) << 14u32) | ((a & 0xF00000) >> 8u32) | ((a
        & 0x000003) << 10u32) | ((a & 0x00C000) >> 6u32) | ((a & 0x0F0000) >> 12u32) | ((a
        & 0x0003C0) >> 6u32)
}

pub open spec fn all_snes_digits(s: Seq<char>) -> bool {
    forall|i: int| 0 <= i < s.len() ==> (#[trigger] snes_digit(s[i])) is Some
}

/// Super NES Game Genie: eight digits (dashes ignored), the first two the value and the rest
/// a scrambled 24-bit address. The length is counted in UTF-8 bytes, as `str::len` does.
pub open spec fn spec_snes_gg(code: Seq<char>) -> Result<Op, Seq<char>> {
    let s = without(code, '-');
    if encode_utf8(s).len() != 8 {
        Err("SNES Game Genie codes are XXXX-XXXX"@)
    } else if !all_snes_digits(s) {
        Err("SNES Game Genie codes use the digits DF4709156BC8A23E"@)
    } else {
        let data = snes_word(s);
        Ok(Op::Rom { cpu_addr: snes_gg_addr(data & 0xFFFFFF), value: data >> 24u32, width: 1, compare: None })
    }
}

proof fn lemma_snes_ranges(data: u32)
    ensures
        snes_gg_addr(data & 0xFFFFFF) <= 0xFFFFFF,
        data >> 24u32 <= 0xFF,
{
    let a = data & 0xFFFFFF;
    assert(((a & 0x003C00) << 10u32) | ((a & 0x00003C) << 14u32) | ((a & 0xF00000) >> 8u32) | ((a
        & 0x000003) << 10u32) | ((a & 0x00C000) >> 6u32) | ((a & 0x0F0000) >> 12u32) | ((a
        & 0x0003C0) >> 6u32) <= 0xFFFFFF) by (bit_vector)
        requires
            a == data & 0xFFFFFF,
    ;
    assert(data >> 24u32 <= 0xFF) by (bit_vector);
}

/// Decodes a Super NES Game Genie code.
pub fn snes_game_genie(code: &str) -> (r: Result<Op, String>)
    ensures
        res_view(r) == spec_snes_gg(code@),
        r matches Ok(Op::Rom { cpu_addr, value, .. }) ==> cpu_addr <= 0xFFFFFF && value <= 0xFF,
{
    let v = chars_of(code);
    snes_gg_chars(&v)
}

fn snes_gg_chars(v: &Vec<char>) -> (r: Result<Op, String>)
    ensures
        res_view(r) == spec_snes_gg(v@),
        r matches Ok(Op::Rom { cpu_addr, value, .. }) ==> cpu_addr <= 0xFFFFFF && value <= 0xFF,
{
    let s = remove_char(v, '-');
    let st = string_of(&s);
    if st.as_str().as_bytes().len() != 8 {
        return Err(owned("SNES Game Genie codes are XXXX-XXXX"));
    }
    let mut data: u32 = 0;
    let mut i: usize = 0;
    while i < s.len()
        invariant
            i <= s.len(),
            s@ == without(v@, '-'),
            encode_utf8(s@).len() == 8,
            data == snes_word(s@.take(i as int)),
            forall|j: int| 0 <= j < i ==> (#[trigger] snes_digit(s@[j])) is Some,
        decreases s.len() - i,
    {
        assert(s@.take(i + 1).drop_last() == s@.take(i as int));
        match snes_digit_of(s[i]) {
            Some(d) => {
                data = (data << 4u32) | d;
            },
            None => {
                assert(!all_snes_digits(s@));
                return Err(owned("SNES Game Genie codes use the digits DF4709156BC8A23E"));
            },
        }
        i = i + 1;
    }
    assert(s@.take(s.len() as int) == s@);
    proof {
        lemma_snes_ranges(data);
    }
    let value = data >> 24u32;
    let a = data & 0xFFFFFF;
    let cpu_addr = ((a & 0x003C00) << 10u32) | ((a & 0x00003C) << 14u32) | ((a & 0xF00000) >> 8u32)
        | ((a & 0x000003) << 10u32) | ((a & 0x00C000) >> 6u32) | ((a & 0x0F0000) >> 12u32) | ((a
        & 0x0003C0) >> 6u32);
    Ok(Op::Rom { cpu_addr, value, width: 1, compare: None })
}

/// The kind of a Super NES Action Replay write: banks $7E-$7F and the low 8 KB mirror of the
/// system banks are work RAM, everything else is cartridge space.
pub open spec fn snes_ar_op(addr: u32, value: u32) -> Op {
    let bank = addr >> 16u32;
    let low_ram = (bank & 0x7F) < 0x40 && (addr & 0xFFFF) < 0x2000;
    if (0x7E <= bank && bank <= 0x7F) || low_ram {
        Op::Ram { addr, value, width: 1 }
    } else {
        Op::Rom { cpu_addr: addr, value, width: 1, compare: None }
    }
}

/// A Super NES part: Game Genie when it is nine bytes with a dash at byte 4; else Action
/// Replay when, with colons removed, it is eight hexadecimal digits; else unknown.
pub open spec fn spec_snes(part: Seq<char>) -> ParsedView {
    let up = upper_seq(part);
    if encode_utf8(up).len() == 9 && encode_utf8(up)[4] == 0x2Du8 {
        pv(part, "Game Genie"@, spec_snes_gg(up))
    } else {
        let compact = without(up, ':');
        if is_hex_text(compact) && compact.len() == 8 {
            let addr = hex_value(compact.take(6)) as u32;
            let value = hex_value(compact.skip(6)) as u32;
            pv(part, "Pro Action Replay"@, Ok(snes_ar_op(addr, value)))
        } else {
            pv(
                part,
                "Unknown"@,
                Err("expected Game Genie XXXX-XXXX or Action Replay AAAAAA:VV"@),
            )
        }
    }
}

fn snes(part: &Vec<char>) -> (r: Parsed)
    ensures
        r@ == spec_snes(part@),
{
    let up = upper_all(part);
    let ups = string_of(&up);
    let bytes = ups.as_str().as_bytes();
    if bytes.len() == 9 && bytes[4] == 0x2Du8 {
        let r = snes_gg_chars(&up);
        return parsed(part, "Game Genie", r);
    }
    let compact = remove_char(&up, ':');
    if is_hex(&compact) && compact.len() == 8 {
        let a = slice_chars(&compact, 0, 6);
        let b = slice_chars(&compact, 6, 8);
        proof {
            assert(a@ == compact@.take(6));
            assert(b@ == compact@.skip(6));
            assert forall|i: int| 0 <= i < a@.len() implies (#[trigger] hex_digit(a@[i])) is Some by {
                assert(a@[i] == compact@[i]);
            }
            assert forall|i: int| 0 <= i < b@.len() implies (#[trigger] hex_digit(b@[i])) is Some by {
                assert(b@[i] == compact@[i + 6]);
            }
            crate::number::lemma_parse_hex_text(a@);
            crate::number::lemma_parse_hex_text(b@);
        }
        let addr = match parse_hex_u32(&a) {
            Some(x) => x,
            None => 0,
        };
        let value = match parse_hex_u32(&b) {
            Some(x) => x,
            None => 0,
        };
        let bank = addr >> 16u32;
        let low_ram = (bank & 0x7F) < 0x40 && (addr & 0xFFFF) < 0x2000;
        let op = if (0x7E <= bank && bank <= 0x7F) || low_ram {
            Op::Ram { addr, value, width: 1 }
        } else {
            Op::Rom { cpu_addr: addr, value, width: 1, compare: None }
        };
        return parsed(part, "Pro Action Replay", Ok(op));
    }
    parsed(
        part,
        "Unknown",
        Err(owned("expected Game Genie XXXX-XXXX or Action Replay AAAAAA:VV")),
    )
}

// ---------------------------------------------------------------- Mega Drive

/// Value of a character in the Mega Drive Game Genie alphabet
/// `ABCDEFGHJKLMNPRSTVWXYZ0123456789`.
pub open spec fn gen_char(c: char) -> Option<u64> {
    match c {
        'A' => Some(0u64),
        'B' => Some(1u64),
        'C' => Some(2u64),
        'D' => Some(3u64),
        'E' => Some(4u64),
        'F' => Some(5u64),
        'G' => Some(6u64),
        'H' => Some(7u64),
        'J' => Some(8u64),
        'K' => Some(9u64),
        'L' => Some(10u64),
        'M' => Some(11u64),
        'N' => Some(12u64),
        'P' => Some(13u64),
        'R' => Some(14u64),
        'S' => Some(15u64),
        'T' => Some(16u64),
        'V' => Some(17u64),
        'W' => Some(18u64),
        'X' => Some(19u64),
        'Y' => Some(20u64),
        'Z' => Some(21u64),
        '0' => Some(22u64),
        '1' => Some(23u64),
        '2' => Some(24u64),
        '3' => Some(25u64),
        '4' => Some(26u64),
        '5' => Some(27u64),
        '6' => Some(28u64),
        '7' => Some(29u64),
        '8' => Some(30u64),
        '9' => Some(31u64),
        _ => None,
    }
}

fn gen_char_of(c: char) -> (r: Option<u64>)
    ensures
        r == gen_char(c),
{
    match c {
        'A' => Some(0u64),
        'B' => Some(1u64),
        'C' => Some(2u64),
        'D' => Some(3u64),
        'E' => Some(4u64),
        'F' => Some(5u64),
        'G' => Some(6u64),
        'H' => Some(7u64),
        'J' => Some(8u64),
        'K' => Some(9u64),
        'L' => Some(10u64),
        'M' => Some(11u64),
        'N' => Some(12u64),
        'P' => Some(13u64),
        'R' => Some(14u64),
        'S' => Some(15u64),
        'T' => Some(16u64),
        'V' => Some(17u64),
        'W' => Some(18u64),
        'X' => Some(19u64),
        'Y' => Some(20u64),
        'Z' => Some(21u64),
        '0' => Some(22u64),
        '1' => Some(23u64),
        '2' => Some(24u64),
        '3' => Some(25u64),
        '4' => Some(26u64),
        '5' => Some(27u64),
        '6' => Some(28u64),
        '7' => Some(29u64),
        '8' => Some(30u64),
        '9' => Some(31u64),
        _ => None,
    }
}

/// The first character of `s` outside the Mega Drive Game Genie alphabet.
pub open spec fn gen_first_bad(s: Seq<char>) -> Option<char>
    decreases s.len(),
{
    if s.len() == 0 {
        None
    } else if gen_char(s[0]) is None {
        Some(s[0])
    } else {
        gen_first_bad(s.drop_first())
    }
}

/// The 40-bit word spelled by the code, five bits per character, first character most
/// significant.
pub open spec fn gen_word(s: Seq<char>) -> u64
    decreases s.len(),
{
    if s.len() == 0 {
        0
    } else {
        (gen_word(s.drop_last()) << 5u64) | gen_char(s.last()).unwrap_or(0)
    }
}

/// Where each address bit sits in the code, most significant first: the positions of
/// `A`..`X` in the bit layout `ijklmnopIJKLMNOPABCDEFGHdefghabcQRSTUVWX`.
pub open spec fn gen_addr_pos() -> Seq<u64> {
    seq![16u64, 17, 18, 19, 20, 21, 22, 23, 8, 9, 10, 11, 12, 13, 14, 15, 32, 33, 34, 35, 36, 37, 38, 39]
}

/// Where each value bit sits in the code, most significant first: the positions of `a`..`p`
/// in the same layout.
pub open spec fn gen_data_pos() -> Seq<u64> {
    seq![29u64, 30, 31, 24, 25, 26, 27, 28, 0, 1, 2, 3, 4, 5, 6, 7]
}

/// The number read from the code bits at positions `pos` (bit 0 of the code is the most
/// significant of its 40 bits), first position most significant.
pub open spec fn gen_field(word: u64, pos: Seq<u64>) -> u64
    decreases pos.len(),
{
    if pos.len() == 0 {
        0
    } else {
        (gen_field(word, pos.drop_last()) << 1u64) | ((word >> (39 - pos.last()) as u64) & 1)
    }
}

/// The error for a character outside the alphabet.
pub open spec fn gen_bad_msg(c: char) -> Seq<char> {
    seq!['\'', c] + "' is not a Mega Drive Game Genie character"@
}

/// Mega Drive Game Genie: eight characters (dashes ignored, length in UTF-8 bytes) whose 40
/// bits are redistributed into a 24-bit address and a 16-bit value.
pub open spec fn spec_genesis_gg(code: Seq<char>) -> Result<Op, Seq<char>> {
    let s = without(code, '-');
    if encode_utf8(s).len() != 8 {
        Err("Mega Drive Game Genie codes are XXXX-XXXX"@)
    } else {
        match gen_first_bad(s) {
            Some(c) => Err(gen_bad_msg(c)),
            None => {
                let w = gen_word(s);
                Ok(
                    Op::Rom {
                        cpu_addr: gen_field(w, gen_addr_pos()) as u32,
                        value: gen_field(w, gen_data_pos()) as u32,
                        width: 2,
                        compare: None,
                    },
                )
            },
        }
    }
}

proof fn lemma_gen_first_bad_none(s: Seq<char>, i: int)
    requires
        0 <= i <= s.len(),
        forall|j: int| 0 <= j < i ==> (#[trigger] gen_char(s[j])) is Some,
    ensures
        gen_first_bad(s) == gen_first_bad(s.skip(i)),
    decreases i,
{
    if i > 0 {
        lemma_gen_first_bad_none(s.drop_first(), i - 1);
        assert(s.drop_first().skip(i - 1) == s.skip(i));
    } else {
        assert(s.skip(0) == s);
    }
}

proof fn lemma_gen_field_bound(word: u64, pos: Seq<u64>)
    requires
        pos.len() <= 24,
        forall|i: int| 0 <= i < pos.len() ==> #[trigger] pos[i] <= 39,
    ensures
        gen_field(word, pos) < (1u64 << (pos.len() as u64)),
    decreases pos.len(),
{
    if pos.len() > 0 {
        let t = pos.drop_last();
        assert forall|i: int| 0 <= i < t.len() implies #[trigger] t[i] <= 39 by {
            assert(t[i] == pos[i]);
        }
        lemma_gen_field_bound(word, t);
        let x = gen_field(word, t);
        let k = t.len() as u64;
        let p: u64 = pos.last();
        let sh: u64 = (39 - p) as u64;
        let b = (word >> sh) & 1;
        let k1: u64 = (k + 1) as u64;
        assert(b & 1 == b) by (bit_vector)
            requires
                b == (word >> sh) & 1,
        ;
        assert(gen_field(word, pos) == (x << 1u64) | b);
        assert(x < (1u64 << k) && k < 24 && k1 == k + 1 ==> ((x << 1u64) | (b & 1)) < (1u64 << k1)) by (bit_vector);
        assert(k1 == pos.len() as u64);
    } else {
        assert((1u64 << 0u64) == 1) by (bit_vector);
    }
}

fn gen_field_of(word: u64, pos: &[u64]) -> (r: u64)
    requires
        forall|i: int| 0 <= i < pos@.len() ==> #[trigger] pos@[i] <= 39,
    ensures
        r == gen_field(word, pos@),
{
    let mut acc: u64 = 0;
    let mut k: usize = 0;
    while k < pos.len()
        invariant
            k <= pos@.len(),
            forall|i: int| 0 <= i < pos@.len() ==> #[trigger] pos@[i] <= 39,
            acc == gen_field(word, pos@.take(k as int)),
        decreases pos.len() - k,
    {
        assert(pos@.take(k + 1).drop_last() == pos@.take(k as int));
        let p = pos[k];
        acc = (acc << 1u64) | ((word >> (39 - p)) & 1);
        k = k + 1;
    }
    assert(pos@.take(pos@.len() as int) == pos@);
    acc
}

/// Decodes a Mega Drive Game Genie code.
pub fn genesis_game_genie(code: &str) -> (r: Result<Op, String>)
    ensures
        res_view(r) == spec_genesis_gg(code@),
        r matches Ok(Op::Rom { cpu_addr, value, .. }) ==> cpu_addr <= 0xFFFFFF && value <= 0xFFFF,
{
    let v = chars_of(code);
    genesis_gg_chars(&v)
}

fn genesis_gg_chars(v: &Vec<char>) -> (r: Result<Op, String>)
    ensures
        res_view(r) == spec_genesis_gg(v@),
        r matches Ok(Op::Rom { cpu_addr, value, .. }) ==> cpu_addr <= 0xFFFFFF && value <= 0xFFFF,
{
    let s = remove_char(v, '-');
    let st = string_of(&s);
    if st.as_str().as_bytes().len() != 8 {
        return Err(owned("Mega Drive Game Genie codes are XXXX-XXXX"));
    }
    let mut word: u64 = 0;
    let mut i: usize = 0;
    while i < s.len()
        invariant
            i <= s.len(),
            s@ == without(v@, '-'),
            encode_utf8(s@).len() == 8,
            word == gen_word(s@.take(i as int)),
            forall|j: int| 0 <= j < i ==> (#[trigger] gen_char(s@[j])) is Some,
        decreases s.len() - i,
    {
        assert(s@.take(i + 1).drop_last() == s@.take(i as int));
        match gen_char_of(s[i]) {
            Some(d) => {
                word = (word << 5u64) | d;
            },
            None => {
                proof {
                    lemma_gen_first_bad_none(s@, i as int);
                    assert(s@.skip(i as int)[0] == s@[i as int]);
                }
                proof {
                    reveal_strlit("'");
                }
                let mut e = owned("'");
                crate::text::push_char(&mut e, s[i]);
                push_str(&mut e, "' is not a Mega Drive Game Genie character");
                assert(e@ =~= gen_bad_msg(s@[i as int]));
                return Err(e);
            },
        }
        i = i + 1;
    }
    assert(s@.take(s.len() as int) == s@);
    proof {
        lemma_gen_first_bad_none(s@, s@.len() as int);
        assert(s@.skip(s@.len() as int).len() == 0);
    }
    let addr_pos: [u64; 24] = [16, 17, 18, 19, 20, 21, 22, 23, 8, 9, 10, 11, 12, 13, 14, 15, 32, 33, 34, 35, 36, 37, 38, 39];
    let data_pos: [u64; 16] = [29, 30, 31, 24, 25, 26, 27, 28, 0, 1, 2, 3, 4, 5, 6, 7];
    assert(addr_pos@ == gen_addr_pos());
    assert(data_pos@ == gen_data_pos());
    let addr = gen_field_of(word, addr_pos.as_slice());
    let value = gen_field_of(word, data_pos.as_slice());
    proof {
        lemma_gen_field_bound(word, gen_addr_pos());
        lemma_gen_field_bound(word, gen_data_pos());
        assert((1u64 << 24u64) == 0x1000000) by (bit_vector);
        assert((1u64 << 16u64) == 0x10000) by (bit_vector);
    }
    Ok(Op::Rom { cpu_addr: addr as u32, value: value as u32, width: 2, compare: None })
}

/// The Action Replay error message.
pub open spec fn gen_ar_msg() -> Seq<char> {
    "Action Replay codes are AAAAAA:VVVV or AAAAAA:VV"@
}

/// A Mega Drive Action Replay code `AAAAAA:VVVV` or `AAAAAA:VV`: addresses from $E00000 are
/// work RAM (mirrored into $FF0000-$FFFFFF), those below $400000 cartridge space.
pub open spec fn spec_genesis_ar(a: Seq<char>, v: Seq<char>) -> Result<Op, Seq<char>> {
    if !is_hex_text(a) || !is_hex_text(v) || a.len() != 6 || !(v.len() == 2 || v.len() == 4) {
        Err(gen_ar_msg())
    } else {
        let addr = hex_value(a) as u32;
        let value = hex_value(v) as u32;
        let width = (v.len() / 2) as u8;
        if addr >= 0xE00000 {
            Ok(Op::Ram { addr: 0xFF0000u32 | (addr & 0xFFFF), value, width })
        } else if addr < 0x400000 {
            Ok(Op::Rom { cpu_addr: addr, value, width, compare: None })
        } else {
            Err(seq!['$'] + hex_text(addr as nat, 6, true) + " is neither ROM nor work RAM"@)
        }
    }
}

/// A Mega Drive part: Action Replay when it holds a `:`, Game Genie otherwise; letters are read
/// in upper case.
pub open spec fn spec_genesis(part: Seq<char>) -> ParsedView {
    let up = upper_seq(part);
    match find_char(up, ':') {
        Some(i) => pv(part, "Pro Action Replay"@, spec_genesis_ar(up.take(i), up.skip(i + 1))),
        None => pv(part, "Game Genie"@, spec_genesis_gg(up)),
    }
}

fn genesis(part: &Vec<char>) -> (r: Parsed)
    ensures
        r@ == spec_genesis(part@),
{
    let up = upper_all(part);
    match position(&up, ':') {
        Some(i) => {
            proof {
                lemma_find_char(up@, ':');
            }
            let a = slice_chars(&up, 0, i);
            let v = slice_chars(&up, i + 1, up.len());
            assert(a@ == up@.take(i as int));
            assert(v@ == up@.skip(i + 1));
            let r = genesis_ar(&a, &v);
            parsed(part, "Pro Action Replay", r)
        },
        None => {
            let r = genesis_gg_chars(&up);
            parsed(part, "Game Genie", r)
        },
    }
}

fn genesis_ar(a: &Vec<char>, v: &Vec<char>) -> (r: Result<Op, String>)
    ensures
        res_view(r) == spec_genesis_ar(a@, v@),
{
    if !is_hex(a) || !is_hex(v) || a.len() != 6 || !(v.len() == 2 || v.len() == 4) {
        return Err(owned("Action Replay codes are AAAAAA:VVVV or AAAAAA:VV"));
    }
    proof {
        crate::number::lemma_parse_hex_text(a@);
        crate::number::lemma_parse_hex_text(v@);
    }
    let addr = match parse_hex_u32(a) {
        Some(x) => x,
        None => 0,
    };
    let value = match parse_hex_u32(v) {
        Some(x) => x,
        None => 0,
    };
    let width = (v.len() / 2) as u8;
    if addr >= 0xE00000 {
        Ok(Op::Ram { addr: 0xFF0000u32 | (addr & 0xFFFF), value, width })
    } else if addr < 0x400000 {
        Ok(Op::Rom { cpu_addr: addr, value, width, compare: None })
    } else {
        proof {
            reveal_strlit("$");
        }
        let mut e = owned("$");
        let h = hex_chars(addr as u64, 6, true);
        push_all(&mut e, &h);
        push_str(&mut e, " is neither ROM nor work RAM");
        assert(e@ =~= seq!['$'] + hex_text(addr as nat, 6, true) + " is neither ROM nor work RAM"@);
        Err(e)
    }
}

} // verus!

verus! {

/// Parts are decoded one by one: the parts of `a`, `+`, then `b` are the parts of `a`
/// followed by those of `b`, and an empty string has no parts.
pub proof fn law_parse_concat(platform: Platform, a: Seq<char>, b: Seq<char>)
    ensures
        spec_parse(platform, a + seq!['+'] + b) == spec_parse(platform, a) + spec_parse(platform, b),
        spec_parse(platform, Seq::empty()).len() == 0,
{
    crate::text::lemma_tokens_concat(a, '+', b, Class::CodeSep);
    let f = |t: Seq<char>| spec_parse_one(platform, t);
    let ta = tokens(a, Class::CodeSep);
    let tb = tokens(b, Class::CodeSep);
    assert((ta + tb).map_values(f) =~= ta.map_values(f) + tb.map_values(f));
}

} // verus!

verus! {

// ------------------------------------------------------------------ Game Genie codes are one to one

/// `base` to the power `k`.
pub open spec fn power(base: nat, k: nat) -> nat
    decreases k,
{
    if k == 0 {
        1
    } else {
        base * power(base, (k - 1) as nat)
    }
}

proof fn lemma_power16(k: nat)
    requires
        k <= 8,
    ensures
        power(16, k) <= 0x100000000,
        k <= 7 ==> power(16, k) <= 0x10000000,
{
    assert(power(16, 0) == 1);
    assert(power(16, 1) == 16);
    assert(power(16, 2) == 0x100);
    assert(power(16, 3) == 0x1000);
    assert(power(16, 4) == 0x10000);
    assert(power(16, 5) == 0x100000);
    assert(power(16, 6) == 0x1000000);
    assert(power(16, 7) == 0x10000000);
    assert(power(16, 8) == 0x100000000);
}

/// The address field that gives a CPU address: the inverse of [`snes_gg_addr`].
pub open spec fn snes_gg_unaddr(c: u32) -> u32 {
    ((c & 0xF00000) >> 10u32) | ((c & 0x0F0000) >> 14u32) | ((c & 0x00F000) << 8u32) | ((c
        & 0x000C00) >> 10u32) | ((c & 0x000300) << 6u32) | ((c & 0x0000F0) << 12u32) | ((c
        & 0x00000F) << 6u32)
}

/// The Super NES Game Genie address is a fixed permutation of the 24 bits of its field:
/// every 24-bit CPU address comes from exactly one field value.
pub proof fn law_snes_gg_addr_permutation(a: u32)
    requires
        a <= 0xFFFFFF,
    ensures
        snes_gg_addr(a) <= 0xFFFFFF,
        snes_gg_unaddr(a) <= 0xFFFFFF,
        snes_gg_unaddr(snes_gg_addr(a)) == a,
        snes_gg_addr(snes_gg_unaddr(a)) == a,
{
    assert(snes_gg_addr(a) <= 0xFFFFFF && snes_gg_unaddr(a) <= 0xFFFFFF
        && snes_gg_unaddr(snes_gg_addr(a)) == a && snes_gg_addr(snes_gg_unaddr(a)) == a)
        by (bit_vector)
        requires
            a <= 0xFFFFFF,
    ;
}

proof fn lemma_snes_digits_ascii(s: Seq<char>)
    requires
        all_snes_digits(s),
    ensures
        encode_utf8(s).len() == s.len(),
    decreases s.len(),
{
    if s.len() > 0 {
        assert(snes_digit(s[0]) is Some);
        assert((s[0] as u32) <= 0x7F);
        assert(all_snes_digits(s.drop_first())) by {
            assert forall|i: int| 0 <= i < s.drop_first().len() implies (#[trigger] snes_digit(
                s.drop_first()[i],
            )) is Some by {
                assert(s.drop_first()[i] == s[i + 1]);
            }
        }
        lemma_snes_digits_ascii(s.drop_first());
    }
}

proof fn lemma_snes_word_bound(s: Seq<char>)
    requires
        all_snes_digits(s),
        s.len() <= 8,
    ensures
        snes_word(s) < power(16, s.len()),
    decreases s.len(),
{
    if s.len() > 0 {
        let t = s.drop_last();
        assert(all_snes_digits(t)) by {
            assert forall|i: int| 0 <= i < t.len() implies (#[trigger] snes_digit(t[i])) is Some by {
                assert(t[i] == s[i]);
            }
        }
        lemma_snes_word_bound(t);
        lemma_power16(t.len());
        let x = snes_word(t);
        assert(snes_digit(s[s.len() - 1]) is Some);
        let d = snes_digit(s.last()).unwrap();
        assert(d < 16);
        assert((x << 4u32) | d == x * 16 + d) by (bit_vector)
            requires
                x < 0x10000000,
                d < 16,
        ;
    }
}

/// Two words of equal length spelled in Super NES Game Genie digits are equal only when the
/// digits are.
proof fn lemma_snes_word_injective(s: Seq<char>, t: Seq<char>)
    requires
        all_snes_digits(s),
        all_snes_digits(t),
        s.len() == t.len(),
        s.len() <= 8,
        snes_word(s) == snes_word(t),
    ensures
        s == t,
    decreases s.len(),
{
    if s.len() > 0 {
        let s1 = s.drop_last();
        let t1 = t.drop_last();
        assert(all_snes_digits(s1)) by {
            assert forall|i: int| 0 <= i < s1.len() implies (#[trigger] snes_digit(s1[i])) is Some by {
                assert(s1[i] == s[i]);
            }
        }
        assert(all_snes_digits(t1)) by {
            assert forall|i: int| 0 <= i < t1.len() implies (#[trigger] snes_digit(t1[i])) is Some by {
                assert(t1[i] == t[i]);
            }
        }
        lemma_snes_word_bound(s1);
        lemma_snes_word_bound(t1);
        lemma_power16(s1.len());
        let x = snes_word(s1);
        let y = snes_word(t1);
        assert(snes_digit(s[s.len() - 1]) is Some);
        assert(snes_digit(t[t.len() - 1]) is Some);
        let ds = snes_digit(s.last()).unwrap();
        let dt = snes_digit(t.last()).unwrap();
        assert(x == y && ds == dt) by (bit_vector)
            requires
                x < 0x10000000,
                y < 0x10000000,
                ds < 16,
                dt < 16,
                (x << 4u32) | ds == (y << 4u32) | dt,
        ;
        lemma_snes_word_injective(s1, t1);
        assert(s.last() == t.last());
        assert(s == s1.push(s.last()));
        assert(t == t1.push(t.last()));
    }
}

/// Distinct Super NES Game Genie codes (dashes aside) never decode to the same patch.
pub proof fn law_snes_gg_one_to_one(a: Seq<char>, b: Seq<char>)
    requires
        spec_snes_gg(a) is Ok,
        spec_snes_gg(a) == spec_snes_gg(b),
    ensures
        without(a, '-') == without(b, '-'),
{
    let s = without(a, '-');
    let t = without(b, '-');
    lemma_snes_digits_ascii(s);
    lemma_snes_digits_ascii(t);
    let x = snes_word(s);
    let y = snes_word(t);
    assert(x == y) by (bit_vector)
        requires
            snes_gg_addr(x & 0xFFFFFF) == snes_gg_addr(y & 0xFFFFFF),
            x >> 24u32 == y >> 24u32,
    ;
    lemma_snes_word_injective(s, t);
}

} // verus!

verus! {

/// The `k` consecutive code positions starting at `p`.
pub open spec fn positions(p: u64, k: nat) -> Seq<u64> {
    Seq::new(k, |i: int| (p + i) as u64)
}

proof fn lemma_field_run(w: u64, p: u64, k: nat)
    requires
        p + k <= 40,
        k <= 24,
    ensures
        gen_field(w, positions(p, k)) == (w >> ((40 - p - k) as u64)) & (((1u64 << (k as u64)) - 1) as u64),
    decreases k,
{
    if k == 0 {
        assert(positions(p, 0) =~= Seq::<u64>::empty());
        let s: u64 = (40 - p) as u64;
        assert((w >> s) & (((1u64 << 0u64) - 1) as u64) == 0) by (bit_vector);
    } else {
        let k0: nat = (k - 1) as nat;
        assert(positions(p, k).drop_last() =~= positions(p, k0));
        lemma_field_run(w, p, k0);
        let g = gen_field(w, positions(p, k0));
        let s: u64 = (39 - p - k0) as u64;
        let kk: u64 = k0 as u64;
        assert(positions(p, k).last() == (p + k0) as u64);
        assert(gen_field(w, positions(p, k)) == (g << 1u64) | ((w >> s) & 1));
        assert(((((w >> ((s + 1) as u64)) & (((1u64 << kk) - 1) as u64)) << 1u64) | ((w >> s) & 1))
            == (w >> s) & (((1u64 << ((kk + 1) as u64)) - 1) as u64)) by (bit_vector)
            requires
                kk < 24,
                s < 40,
        ;
    }
}

proof fn lemma_field_concat(w: u64, a: Seq<u64>, b: Seq<u64>)
    requires
        a.len() + b.len() <= 24,
        forall|i: int| 0 <= i < a.len() ==> #[trigger] a[i] <= 39,
        forall|i: int| 0 <= i < b.len() ==> #[trigger] b[i] <= 39,
    ensures
        gen_field(w, a + b) == (gen_field(w, a) << (b.len() as u64)) | gen_field(w, b),
    decreases b.len(),
{
    let g = gen_field(w, a);
    if b.len() == 0 {
        assert(a + b =~= a);
        assert((g << 0u64) | 0 == g) by (bit_vector);
    } else {
        let b0 = b.drop_last();
        assert((a + b).drop_last() =~= a + b0);
        assert((a + b).last() == b.last());
        assert forall|i: int| 0 <= i < b0.len() implies #[trigger] b0[i] <= 39 by {
            assert(b0[i] == b[i]);
        }
        lemma_field_concat(w, a, b0);
        let h = gen_field(w, b0);
        let bit = (w >> ((39 - b.last()) as u64)) & 1;
        let k: u64 = b0.len() as u64;
        assert((((g << k) | h) << 1u64) | bit == (g << ((k + 1) as u64)) | ((h << 1u64) | bit))
            by (bit_vector)
            requires
                k < 24,
        ;
    }
}

/// The CPU address a Mega Drive Game Genie word gives, read straight from its bits.
pub open spec fn gen_addr_of(w: u64) -> u64 {
    (((w >> 16u64) & 0xFF) << 16u64) | (((w >> 24u64) & 0xFF) << 8u64) | (w & 0xFF)
}

/// The value a Mega Drive Game Genie word gives, read straight from its bits.
pub open spec fn gen_value_of(w: u64) -> u64 {
    (((w >> 8u64) & 7) << 13u64) | (((w >> 11u64) & 0x1F) << 8u64) | ((w >> 32u64) & 0xFF)
}

proof fn lemma_gen_fields(w: u64)
    ensures
        gen_field(w, gen_addr_pos()) == gen_addr_of(w),
        gen_field(w, gen_data_pos()) == gen_value_of(w),
{
    let a1 = positions(16, 8);
    let a2 = positions(8, 8);
    let a3 = positions(32, 8);
    assert(gen_addr_pos() =~= a1 + a2 + a3);
    lemma_field_run(w, 16, 8);
    lemma_field_run(w, 8, 8);
    lemma_field_run(w, 32, 8);
    lemma_field_concat(w, a1, a2);
    lemma_field_concat(w, a1 + a2, a3);
    let d1 = positions(29, 3);
    let d2 = positions(24, 5);
    let d3 = positions(0, 8);
    assert(gen_data_pos() =~= d1 + d2 + d3);
    lemma_field_run(w, 29, 3);
    lemma_field_run(w, 24, 5);
    lemma_field_run(w, 0, 8);
    lemma_field_concat(w, d1, d2);
    lemma_field_concat(w, d1 + d2, d3);
    assert((((((w >> 16u64) & (((1u64 << 8u64) - 1) as u64)) << 8u64) | ((w >> 24u64) & (((1u64
        << 8u64) - 1) as u64))) << 8u64) | ((w >> 0u64) & (((1u64 << 8u64) - 1) as u64))
        == gen_addr_of(w)) by (bit_vector);
    assert((((((w >> 8u64) & (((1u64 << 3u64) - 1) as u64)) << 5u64) | ((w >> 11u64) & (((1u64
        << 5u64) - 1) as u64))) << 8u64) | ((w >> 32u64) & (((1u64 << 8u64) - 1) as u64))
        == gen_value_of(w)) by (bit_vector);
}

} // verus!

verus! {

pub open spec fn all_gen_chars(s: Seq<char>) -> bool {
    forall|i: int| 0 <= i < s.len() ==> (#[trigger] gen_char(s[i])) is Some
}

proof fn lemma_gen_first_bad_all(s: Seq<char>)
    ensures
        gen_first_bad(s) is None <==> all_gen_chars(s),
    decreases s.len(),
{
    if s.len() > 0 {
        let t = s.drop_first();
        lemma_gen_first_bad_all(t);
        if all_gen_chars(s) {
            assert forall|i: int| 0 <= i < t.len() implies (#[trigger] gen_char(t[i])) is Some by {
                assert(t[i] == s[i + 1]);
            }
        }
        if gen_char(s[0]) is Some && all_gen_chars(t) {
            assert forall|i: int| 0 <= i < s.len() implies (#[trigger] gen_char(s[i])) is Some by {
                if i > 0 {
                    assert(s[i] == t[i - 1]);
                }
            }
        }
    }
}

proof fn lemma_gen_ascii(s: Seq<char>)
    requires
        all_gen_chars(s),
    ensures
        encode_utf8(s).len() == s.len(),
    decreases s.len(),
{
    if s.len() > 0 {
        assert(gen_char(s[0]) is Some);
        assert((s[0] as u32) <= 0x7F);
        let t = s.drop_first();
        assert forall|i: int| 0 <= i < t.len() implies (#[trigger] gen_char(t[i])) is Some by {
            assert(t[i] == s[i + 1]);
        }
        lemma_gen_ascii(t);
    }
}

proof fn lemma_power32(k: nat)
    requires
        k <= 8,
    ensures
        power(32, k) <= 0x10000000000,
        k <= 7 ==> power(32, k) <= 0x800000000,
{
    assert(power(32, 0) == 1);
    assert(power(32, 1) == 32);
    assert(power(32, 2) == 0x400);
    assert(power(32, 3) == 0x8000);
    assert(power(32, 4) == 0x100000);
    assert(power(32, 5) == 0x2000000);
    assert(power(32, 6) == 0x40000000);
    assert(power(32, 7) == 0x800000000);
    assert(power(32, 8) == 0x10000000000);
}

proof fn lemma_gen_word_bound(s: Seq<char>)
    requires
        all_gen_chars(s),
        s.len() <= 8,
    ensures
        gen_word(s) < power(32, s.len()),
    decreases s.len(),
{
    if s.len() > 0 {
        let t = s.drop_last();
        assert forall|i: int| 0 <= i < t.len() implies (#[trigger] gen_char(t[i])) is Some by {
            assert(t[i] == s[i]);
        }
        lemma_gen_word_bound(t);
        lemma_power32(t.len());
        let x = gen_word(t);
        assert(gen_char(s[s.len() - 1]) is Some);
        let d = gen_char(s.last()).unwrap();
        assert(d < 32);
        assert((x << 5u64) | d == x * 32 + d) by (bit_vector)
            requires
                x < 0x800000000,
                d < 32,
        ;
    }
}

proof fn lemma_gen_word_injective(s: Seq<char>, t: Seq<char>)
    requires
        all_gen_chars(s),
        all_gen_chars(t),
        s.len() == t.len(),
        s.len() <= 8,
        gen_word(s) == gen_word(t),
    ensures
        s == t,
    decreases s.len(),
{
    if s.len() > 0 {
        let s1 = s.drop_last();
        let t1 = t.drop_last();
        assert forall|i: int| 0 <= i < s1.len() implies (#[trigger] gen_char(s1[i])) is Some by {
            assert(s1[i] == s[i]);
        }
        assert forall|i: int| 0 <= i < t1.len() implies (#[trigger] gen_char(t1[i])) is Some by {
            assert(t1[i] == t[i]);
        }
        lemma_gen_word_bound(s1);
        lemma_gen_word_bound(t1);
        lemma_power32(s1.len());
        let x = gen_word(s1);
        let y = gen_word(t1);
        assert(gen_char(s[s.len() - 1]) is Some);
        assert(gen_char(t[t.len() - 1]) is Some);
        let ds = gen_char(s.last()).unwrap();
        let dt = gen_char(t.last()).unwrap();
        assert(x == y && ds == dt) by (bit_vector)
            requires
                x < 0x800000000,
                y < 0x800000000,
                ds < 32,
                dt < 32,
                (x << 5u64) | ds == (y << 5u64) | dt,
        ;
        lemma_gen_word_injective(s1, t1);
        assert(s == s1.push(s.last()));
        assert(t == t1.push(t.last()));
    }
}

/// Distinct Mega Drive Game Genie codes (dashes aside) never decode to the same patch.
pub proof fn law_genesis_gg_one_to_one(a: Seq<char>, b: Seq<char>)
    requires
        spec_genesis_gg(a) is Ok,
        spec_genesis_gg(a) == spec_genesis_gg(b),
    ensures
        without(a, '-') == without(b, '-'),
{
    let s = without(a, '-');
    let t = without(b, '-');
    lemma_gen_first_bad_all(s);
    lemma_gen_first_bad_all(t);
    lemma_gen_ascii(s);
    lemma_gen_ascii(t);
    lemma_gen_word_bound(s);
    lemma_gen_word_bound(t);
    lemma_power32(8);
    let x = gen_word(s);
    let y = gen_word(t);
    lemma_gen_fields(x);
    lemma_gen_fields(y);
    assert(x == y) by (bit_vector)
        requires
            x < 0x10000000000,
            y < 0x10000000000,
            gen_addr_of(x) as u32 == gen_addr_of(y) as u32,
            gen_value_of(x) as u32 == gen_value_of(y) as u32,
    ;
    lemma_gen_word_injective(s, t);
}

/// The character of the Mega Drive Game Genie alphabet worth `v`.
pub open spec fn gen_letter(v: u64) -> char {
    match v {
        0 => 'A',
        1 => 'B',
        2 => 'C',
        3 => 'D',
        4 => 'E',
        5 => 'F',
        6 => 'G',
        7 => 'H',
        8 => 'J',
        9 => 'K',
        10 => 'L',
        11 => 'M',
        12 => 'N',
        13 => 'P',
        14 => 'R',
        15 => 'S',
        16 => 'T',
        17 => 'V',
        18 => 'W',
        19 => 'X',
        20 => 'Y',
        21 => 'Z',
        22 => '0',
        23 => '1',
        24 => '2',
        25 => '3',
        26 => '4',
        27 => '5',
        28 => '6',
        29 => '7',
        30 => '8',
        _ => '9',
    }
}

/// The last `k` characters spelling word `w`, five bits each.
pub open spec fn gen_letters(w: u64, k: nat) -> Seq<char>
    decreases k,
{
    if k == 0 {
        Seq::empty()
    } else {
        gen_letters(w >> 5u64, (k - 1) as nat).push(gen_letter(w & 31))
    }
}

/// The 40-bit word whose code decodes to `addr` and `value`.
pub open spec fn gen_word_for(addr: u64, value: u64) -> u64 {
    ((value & 0xFF) << 32u64) | (((addr >> 8u64) & 0xFF) << 24u64) | ((addr >> 16u64) << 16u64)
        | (((value >> 8u64) & 0x1F) << 11u64) | (((value >> 13u64) & 7) << 8u64) | (addr & 0xFF)
}

/// The Mega Drive Game Genie code for a CPU address and a value.
pub open spec fn genesis_gg_code(addr: u32, value: u32) -> Seq<char> {
    gen_letters(gen_word_for(addr as u64, value as u64), 8)
}

proof fn lemma_gen_letters(w: u64, k: nat)
    requires
        k <= 8,
    ensures
        gen_letters(w, k).len() == k,
        all_gen_chars(gen_letters(w, k)),
        forall|i: int| 0 <= i < k ==> gen_letters(w, k)[i] != '-',
        gen_word(gen_letters(w, k)) == w & (((1u64 << ((5 * k) as u64)) - 1) as u64),
    decreases k,
{
    let s = gen_letters(w, k);
    if k == 0 {
        assert((w & (((1u64 << 0u64) - 1) as u64)) == 0) by (bit_vector);
    } else {
        let k0 = (k - 1) as nat;
        let t = gen_letters(w >> 5u64, k0);
        lemma_gen_letters(w >> 5u64, k0);
        let v = w & 31;
        assert(v < 32) by (bit_vector)
            requires
                v == w & 31,
        ;
        assert(gen_char(gen_letter(v)) == Some(v));
        assert(s.drop_last() =~= t);
        assert forall|i: int| 0 <= i < s.len() implies (#[trigger] gen_char(s[i])) is Some && s[i] != '-' by {
            if i < t.len() {
                assert(s[i] == t[i]);
            }
        }
        let n: u64 = (5 * k0) as u64;
        let x = w >> 5u64;
        assert((((x & (((1u64 << n) - 1) as u64)) << 5u64) | (w & 31)) == w & (((1u64 << ((n + 5)
            as u64)) - 1) as u64)) by (bit_vector)
            requires
                n <= 35,
                x == w >> 5u64,
        ;
    }
}

proof fn lemma_filter_keeps_all(s: Seq<char>, c: char)
    requires
        forall|i: int| 0 <= i < s.len() ==> s[i] != c,
    ensures
        without(s, c) == s,
    decreases s.len(),
{
    reveal(Seq::filter);
    if s.len() > 0 {
        lemma_filter_keeps_all(s.drop_last(), c);
        assert(s.drop_last().push(s.last()) == s);
    }
}

/// Every 24-bit CPU address and 16-bit value has a Mega Drive Game Genie code: eight
/// characters of the alphabet, no dash, decoding to exactly that patch. With the law above,
/// decoding is a one-to-one map from the valid codes onto all address and value pairs.
pub proof fn law_genesis_gg_onto(addr: u32, value: u32)
    requires
        addr <= 0xFFFFFF,
        value <= 0xFFFF,
    ensures
        genesis_gg_code(addr, value).len() == 8,
        all_gen_chars(genesis_gg_code(addr, value)),
        spec_genesis_gg(genesis_gg_code(addr, value)) == Ok::<Op, Seq<char>>(
            Op::Rom { cpu_addr: addr, value, width: 2, compare: None },
        ),
{
    let w = gen_word_for(addr as u64, value as u64);
    let code = genesis_gg_code(addr, value);
    lemma_gen_letters(w, 8);
    assert(w & (((1u64 << 40u64) - 1) as u64) == w && gen_addr_of(w) as u32 == addr
        && gen_value_of(w) as u32 == value) by (bit_vector)
        requires
            addr <= 0xFFFFFF,
            value <= 0xFFFF,
            w == gen_word_for(addr as u64, value as u64),
    ;
    lemma_filter_keeps_all(code, '-');
    lemma_gen_ascii(code);
    lemma_gen_first_bad_all(code);
    lemma_gen_fields(w);
}

} // verus!

verus! {

/// Letter case does not matter: a part and its ASCII upper-case form decode to the same
/// format, operation and error; only the raw text differs.
pub proof fn law_parse_one_ignores_case(platform: Platform, part: Seq<char>)
    ensures
        spec_parse_one(platform, upper_seq(part)).raw == upper_seq(part),
        spec_parse_one(platform, upper_seq(part)).format == spec_parse_one(platform, part).format,
        spec_parse_one(platform, upper_seq(part)).op == spec_parse_one(platform, part).op,
        spec_parse_one(platform, upper_seq(part)).error == spec_parse_one(platform, part).error,
{
    let up = upper_seq(part);
    assert forall|i: int| 0 <= i < up.len() implies #[trigger] upper_seq(up)[i] == up[i] by {
        let c = part[i];
        if 'a' <= c && c <= 'z' {
            assert(('A' <= crate::text::spec_upper(c) && crate::text::spec_upper(c) <= 'Z'));
        }
    }
    assert(upper_seq(up) =~= up);
}

} // verus!

verus! {

/// Every part decodes to exactly one of an operation and an error.
pub proof fn law_parse_one_decides(platform: Platform, part: Seq<char>)
    ensures
        (spec_parse_one(platform, part).op is Some) != (spec_parse_one(platform, part).error is Some),
{
}

/// A NES Game Genie code is accepted exactly when it has six or eight letters, all from
/// `APZLGITYEOXUKSVN`; it then patches one byte of $8000-$FFFF, with a compare byte exactly
/// when it has eight letters.
pub proof fn law_nes_gg_shape(code: Seq<char>)
    ensures
        spec_nes_gg(code) is Ok <==> all_nes_letters(code) && (code.len() == 6 || code.len() == 8),
        spec_nes_gg(code) matches Ok(op) ==> (op matches Op::Rom { cpu_addr, value, width, compare }
            && 0x8000 <= cpu_addr <= 0xFFFF && value <= 0xFF && width == 1 && (compare is Some
            <==> code.len() == 8)),
{
    if spec_nes_gg(code) is Ok {
        let n = nes_nibbles(code);
        assert forall|j: int| 0 <= j < n.len() implies n[j] < 16 by {
            assert(nes_letter(code[j]) is Some);
        }
        lemma_nes_addr_range(n[0], n[1], n[2], n[3], n[4], n[5]);
    }
}

} // verus!

verus! {

proof fn lemma_hex_value_bound(s: Seq<char>)
    requires
        forall|i: int| 0 <= i < s.len() ==> (#[trigger] hex_digit(s[i])) is Some,
    ensures
        hex_value(s) < power(16, s.len()),
    decreases s.len(),
{
    if s.len() > 0 {
        let t = s.drop_last();
        assert forall|i: int| 0 <= i < t.len() implies (#[trigger] hex_digit(t[i])) is Some by {
            assert(t[i] == s[i]);
        }
        lemma_hex_value_bound(t);
        assert(hex_digit(s[s.len() - 1]) is Some);
        assert(hex_digit(s.last()).unwrap() < 16);
    }
}

/// In `a`, `:` and `v`, where `a` holds no `:`, the first `:` is the one after `a`.
proof fn lemma_split_at_colon(a: Seq<char>, v: Seq<char>)
    requires
        forall|i: int| 0 <= i < a.len() ==> a[i] != ':',
    ensures
        find_char(a + seq![':'] + v, ':') == Some(a.len() as int),
        (a + seq![':'] + v).take(a.len() as int) == a,
        (a + seq![':'] + v).skip(a.len() as int + 1) == v,
{
    let s = a + seq![':'] + v;
    crate::text::lemma_find_char(s, ':');
    assert(s[a.len() as int] == ':');
    assert forall|j: int| 0 <= j < a.len() implies s[j] != ':' by {
        assert(s[j] == a[j]);
    }
    assert(s.take(a.len() as int) =~= a);
    assert(s.skip(a.len() as int + 1) =~= v);
}

/// A Mega Drive Action Replay code `AAAAAA:VVVV` or `AAAAAA:VV` (in either letter case)
/// writes its value, two bytes or one, at its address: a cartridge patch at that address
/// when it lies in the 4 MB cartridge space below $400000, a work-RAM write at the address
/// folded into $FF0000-$FFFFFF when it is $E00000 or above, and otherwise no operation but an
/// error.
pub proof fn law_genesis_action_replay(part: Seq<char>, a: Seq<char>, v: Seq<char>)
    requires
        upper_seq(part) == a + seq![':'] + v,
        a.len() == 6,
        v.len() == 2 || v.len() == 4,
        forall|i: int| 0 <= i < a.len() ==> (#[trigger] hex_digit(a[i])) is Some,
        forall|i: int| 0 <= i < v.len() ==> (#[trigger] hex_digit(v[i])) is Some,
    ensures
        spec_genesis(part).format == "Pro Action Replay"@,
        hex_value(a) < 0x400000 ==> spec_genesis(part).error is None && spec_genesis(part).op
            == Some(
            Op::Rom {
                cpu_addr: hex_value(a) as u32,
                value: hex_value(v) as u32,
                width: (v.len() / 2) as u8,
                compare: None,
            },
        ),
        hex_value(a) >= 0xE00000 ==> spec_genesis(part).error is None && spec_genesis(part).op
            == Some(
            Op::Ram {
                addr: (0xFF0000 + hex_value(a) % 0x10000) as u32,
                value: hex_value(v) as u32,
                width: (v.len() / 2) as u8,
            },
        ),
        0x400000 <= hex_value(a) < 0xE00000 ==> spec_genesis(part).op is None
            && spec_genesis(part).error is Some,
{
    assert forall|i: int| 0 <= i < a.len() implies a[i] != ':' by {
        assert(hex_digit(a[i]) is Some);
    }
    lemma_split_at_colon(a, v);
    assert(spec_genesis(part) == pv(part, "Pro Action Replay"@, spec_genesis_ar(a, v)));
    lemma_genesis_ar_regions(a, v);
}

proof fn lemma_genesis_ar_regions(a: Seq<char>, v: Seq<char>)
    requires
        a.len() == 6,
        v.len() == 2 || v.len() == 4,
        forall|i: int| 0 <= i < a.len() ==> (#[trigger] hex_digit(a[i])) is Some,
        forall|i: int| 0 <= i < v.len() ==> (#[trigger] hex_digit(v[i])) is Some,
    ensures
        hex_value(a) < 0x400000 ==> spec_genesis_ar(a, v) == Ok::<Op, Seq<char>>(
            Op::Rom {
                cpu_addr: hex_value(a) as u32,
                value: hex_value(v) as u32,
                width: (v.len() / 2) as u8,
                compare: None,
            },
        ),
        hex_value(a) >= 0xE00000 ==> spec_genesis_ar(a, v) == Ok::<Op, Seq<char>>(
            Op::Ram {
                addr: (0xFF0000 + hex_value(a) % 0x10000) as u32,
                value: hex_value(v) as u32,
                width: (v.len() / 2) as u8,
            },
        ),
        0x400000 <= hex_value(a) < 0xE00000 ==> spec_genesis_ar(a, v) is Err,
{
    assert(is_hex_text(a) && is_hex_text(v));
    lemma_hex_value_bound(a);
    lemma_hex_value_bound(v);
    assert(power(16, 0) == 1);
    assert(power(16, 1) == 16);
    assert(power(16, 2) == 0x100);
    assert(power(16, 3) == 0x1000);
    assert(power(16, 4) == 0x10000);
    assert(power(16, 5) == 0x100000);
    assert(power(16, 6) == 0x1000000);
    let addr = hex_value(a) as u32;
    assert(addr == hex_value(a));
    if hex_value(a) >= 0xE00000 {
        assert(0xFF0000u32 | (addr & 0xFFFF) == 0xFF0000 + addr % 0x10000) by (bit_vector)
            requires
                addr < 0x1000000,
        ;
    }
}

} // verus!

verus! {

proof fn lemma_ascii_utf8(s: Seq<char>)
    requires
        forall|i: int| 0 <= i < s.len() ==> (#[trigger] s[i] as u32) < 0x80,
    ensures
        encode_utf8(s).len() == s.len(),
        forall|i: int| 0 <= i < s.len() ==> #[trigger] encode_utf8(s)[i] == ((s[i] as u32) & 0x7F) as u8,
    decreases s.len(),
{
    if s.len() > 0 {
        let t = s.drop_first();
        assert forall|i: int| 0 <= i < t.len() implies (#[trigger] t[i] as u32) < 0x80 by {
            assert(t[i] == s[i + 1]);
            assert((s[i + 1] as u32) < 0x80);
        }
        lemma_ascii_utf8(t);
        assert((s[0] as u32) < 0x80);
        assert forall|i: int| 0 <= i < s.len() implies #[trigger] encode_utf8(s)[i] == ((s[i] as u32)
            & 0x7F) as u8 by {
            if i > 0 {
                assert(s[i] == t[i - 1]);
                assert(encode_utf8(s)[i] == encode_utf8(t)[i - 1]);
            }
        }
    }
}

/// Every character left after removing `ch` is a character of `s` other than `ch`.
proof fn lemma_without_from(s: Seq<char>, ch: char)
    ensures
        forall|i: int| 0 <= i < without(s, ch).len() ==> exists|k: int|
            0 <= k < s.len() && s[k] == #[trigger] without(s, ch)[i] && s[k] != ch,
    decreases s.len(),
{
    reveal(Seq::filter);
    if s.len() > 0 {
        let t = s.drop_last();
        lemma_without_from(t, ch);
        let w = without(s, ch);
        let wt = without(t, ch);
        assert(w == if s.last() != ch { wt.push(s.last()) } else { wt });
        assert forall|i: int| 0 <= i < w.len() implies exists|k: int|
            0 <= k < s.len() && s[k] == #[trigger] w[i] && s[k] != ch by {
            if i < wt.len() {
                let k = choose|k: int| 0 <= k < t.len() && t[k] == wt[i] && t[k] != ch;
                assert(s[k] == t[k]);
            } else {
                assert(s[s.len() - 1] == w[i]);
            }
        }
    }
}

/// A Super NES Pro Action Replay code, six address and two value digits with `:`s anywhere
/// (so `AAAAAA:VV` or `AAAAAAVV`, in either letter case), writes its value byte at its
/// 24-bit address. It is a work-RAM write when the bank is $7E or $7F, or when the address
/// is in the low 8 KB of a bank below $40 or from $80 to $BF (where work RAM is mirrored);
/// otherwise it is a cartridge patch.
pub proof fn law_snes_action_replay(part: Seq<char>)
    requires
        forall|i: int| 0 <= i < upper_seq(part).len() ==> (#[trigger] hex_digit(upper_seq(part)[i])) is Some
            || upper_seq(part)[i] == ':',
        without(upper_seq(part), ':').len() == 8,
    ensures
        ({
            let c = without(upper_seq(part), ':');
            let addr = hex_value(c.take(6));
            let value = hex_value(c.skip(6));
            let bank = addr / 0x10000;
            let ram = bank == 0x7E || bank == 0x7F || (bank % 0x80 < 0x40 && addr % 0x10000 < 0x2000);
            &&& spec_snes(part).format == "Pro Action Replay"@
            &&& spec_snes(part).error is None
            &&& spec_snes(part).op == Some(
                if ram {
                    Op::Ram { addr: addr as u32, value: value as u32, width: 1 }
                } else {
                    Op::Rom { cpu_addr: addr as u32, value: value as u32, width: 1, compare: None }
                },
            )
        }),
{
    let up = upper_seq(part);
    let c = without(up, ':');
    assert forall|i: int| 0 <= i < up.len() implies (#[trigger] up[i] as u32) < 0x80 && up[i] != '-' by {
        assert(hex_digit(up[i]) is Some || up[i] == ':');
    }
    lemma_ascii_utf8(up);
    if up.len() == 9 {
        let x = up[4] as u32;
        assert(x < 0x80 && x != 0x2D);
        assert(((x & 0x7F) as u8) != 0x2Du8) by (bit_vector)
            requires
                x < 0x80,
                x != 0x2D,
        ;
    }
    lemma_without_from(up, ':');
    assert forall|i: int| 0 <= i < c.len() implies (#[trigger] hex_digit(c[i])) is Some by {
        let k = choose|k: int| 0 <= k < up.len() && up[k] == c[i] && up[k] != ':';
        assert(hex_digit(up[k]) is Some || up[k] == ':');
    }
    assert(is_hex_text(c));
    let a = c.take(6);
    let v = c.skip(6);
    assert forall|i: int| 0 <= i < a.len() implies (#[trigger] hex_digit(a[i])) is Some by {
        assert(a[i] == c[i]);
    }
    assert forall|i: int| 0 <= i < v.len() implies (#[trigger] hex_digit(v[i])) is Some by {
        assert(v[i] == c[i + 6]);
    }
    lemma_hex_value_bound(a);
    lemma_hex_value_bound(v);
    assert(power(16, 0) == 1);
    assert(power(16, 1) == 16);
    assert(power(16, 2) == 0x100);
    assert(power(16, 3) == 0x1000);
    assert(power(16, 4) == 0x10000);
    assert(power(16, 5) == 0x100000);
    assert(power(16, 6) == 0x1000000);
    let addr = hex_value(a) as u32;
    assert(addr == hex_value(a));
    assert(hex_value(v) < 0x100);
    let bank = addr >> 16u32;
    assert(bank == addr / 0x10000 && (bank & 0x7F) == bank % 0x80 && (addr & 0xFFFF) == addr % 0x10000)
        by (bit_vector)
        requires
            addr < 0x1000000,
            bank == addr >> 16u32,
    ;
}

} // verus!

verus! {

/// The value of letter `i` of a NES Game Genie code.
pub open spec fn gg_nib(code: Seq<char>, i: int) -> int {
    nes_letter(code[i]).unwrap() as int
}

/// Where each bit of a NES Game Genie code goes, written as arithmetic on the letters'
/// values `n0`..`n7`: the address is $8000 plus the low three bits of `n3`, `n5`, `n2` and
/// `n4` at bits 12, 8, 4 and 0, with the high bits of `n4`, `n1` and `n3` at bits 11, 7 and
/// 3; the value takes the low bits of `n1` and `n0` at bits 4 and 0, the high bit of `n0` at
/// bit 7 and the high bit of the last letter at bit 3; the compare byte of an eight-letter
/// code is built the same way from `n7`, `n6` and the high bit of `n5`.
pub proof fn law_nes_gg_layout(code: Seq<char>)
    requires
        spec_nes_gg(code) is Ok,
    ensures
        ({
            let n = |i: int| gg_nib(code, i);
            let last = n(code.len() - 1);
            spec_nes_gg(code) == Ok::<Op, Seq<char>>(
                Op::Rom {
                    cpu_addr: (0x8000 + 0x1000 * (n(3) % 8) + 0x800 * (n(4) / 8) + 0x100 * (n(5) % 8)
                        + 0x80 * (n(1) / 8) + 0x10 * (n(2) % 8) + 8 * (n(3) / 8) + n(4) % 8) as u32,
                    value: (0x80 * (n(0) / 8) + 0x10 * (n(1) % 8) + 8 * (last / 8) + n(0) % 8) as u32,
                    width: 1,
                    compare: if code.len() == 8 {
                        Some((0x80 * (n(6) / 8) + 0x10 * (n(7) % 8) + 8 * (n(5) / 8) + n(6) % 8) as u8)
                    } else {
                        None
                    },
                },
            )
        }),
{
    let m = nes_nibbles(code);
    assert forall|j: int| 0 <= j < m.len() implies m[j] < 16 && m[j] == gg_nib(code, j) by {
        assert(nes_letter(code[j]) is Some);
    }
    let (a, b, c, d, e, f) = (m[0], m[1], m[2], m[3], m[4], m[5]);
    let hi = m[m.len() - 1];
    let g = if m.len() == 8 { m[6] } else { 0u8 };
    let h = if m.len() == 8 { m[7] } else { 0u8 };
    let ga = nes_gg_addr(m);
    let gv = nes_gg_value(m, hi);
    assert(ga == 0x8000u32 | (((d & 7) as u32) << 12u32) | (((f & 7) as u32) << 8u32) | (((e & 8) as u32)
        << 8u32) | (((c & 7) as u32) << 4u32) | (((b & 8) as u32) << 4u32) | ((e & 7) as u32) | ((d
        & 8) as u32));
    assert(gv == ((b & 7) << 4u8) | ((a & 8) << 4u8) | (a & 7) | (hi & 8));
    assert(ga == 0x8000 + 0x1000 * (d % 8) + 0x800 * (e / 8) + 0x100 * (f % 8) + 0x80 * (b / 8) + 0x10 * (
        c % 8) + 8 * (d / 8) + e % 8 && gv == 0x80 * (a / 8) + 0x10 * (b % 8) + 8 * (hi / 8) + a % 8
        && (((h & 7) << 4u8) | ((g & 8) << 4u8) | (g & 7) | (f & 8)) == 0x80 * (g / 8) + 0x10 * (h % 8)
        + 8 * (f / 8) + g % 8) by (bit_vector)
        requires
            a < 16 && b < 16 && c < 16 && d < 16 && e < 16 && f < 16 && g < 16 && h < 16 && hi < 16,
            ga == 0x8000u32 | (((d & 7) as u32) << 12u32) | (((f & 7) as u32) << 8u32) | (((e & 8) as u32)
                << 8u32) | (((c & 7) as u32) << 4u32) | (((b & 8) as u32) << 4u32) | ((e & 7) as u32) | ((d
                & 8) as u32),
            gv == ((b & 7) << 4u8) | ((a & 8) << 4u8) | (a & 7) | (hi & 8),
    ;
    if m.len() == 8 {
        assert(nes_gg_compare(m) == ((h & 7) << 4u8) | ((g & 8) << 4u8) | (g & 7) | (f & 8));
    }
}

} // verus!

verus! {

/// In `a`, `ch` and `v`, where `a` holds no `ch`, the first `ch` is the one after `a`.
proof fn lemma_split_at_char(a: Seq<char>, ch: char, v: Seq<char>)
    requires
        forall|i: int| 0 <= i < a.len() ==> a[i] != ch,
    ensures
        find_char(a + seq![ch] + v, ch) == Some(a.len() as int),
        (a + seq![ch] + v).take(a.len() as int) == a,
        (a + seq![ch] + v).skip(a.len() as int + 1) == v,
{
    let s = a + seq![ch] + v;
    crate::text::lemma_find_char(s, ch);
    assert(s[a.len() as int] == ch);
    assert forall|j: int| 0 <= j < a.len() implies s[j] != ch by {
        assert(s[j] == a[j]);
    }
    assert(s.take(a.len() as int) =~= a);
    assert(s.skip(a.len() as int + 1) =~= v);
}

proof fn lemma_parse_small_hex(s: Seq<char>)
    requires
        1 <= s.len() <= 4,
        forall|i: int| 0 <= i < s.len() ==> (#[trigger] hex_digit(s[i])) is Some,
    ensures
        parse_hex(s) == Some(hex_value(s) as u32),
        hex_value(s) < power(16, s.len()),
        power(16, s.len()) <= 0x10000,
        s.len() <= 2 ==> power(16, s.len()) <= 0x100,
{
    assert(hex_digit(s[0]) is Some);
    lemma_hex_value_bound(s);
    assert(power(16, 0) == 1);
    assert(power(16, 1) == 16);
    assert(power(16, 2) == 0x100);
    assert(power(16, 3) == 0x1000);
    assert(power(16, 4) == 0x10000);
}

/// A raw NES code `AAAA:VV` or `AAAA?CC:VV` (four address, two compare and two value digits,
/// in either letter case) writes its value at its address: a cartridge patch, with the
/// compare byte when there is one, for addresses from $8000, and a work-RAM write below.
pub proof fn law_nes_raw_code(part: Seq<char>, a: Seq<char>, check: Option<Seq<char>>, v: Seq<char>)
    requires
        upper_seq(part) == match check {
            Some(c) => a + seq!['?'] + c + seq![':'] + v,
            None => a + seq![':'] + v,
        },
        a.len() == 4,
        v.len() == 2,
        check matches Some(c) ==> c.len() == 2,
        forall|i: int| 0 <= i < a.len() ==> (#[trigger] hex_digit(a[i])) is Some,
        forall|i: int| 0 <= i < v.len() ==> (#[trigger] hex_digit(v[i])) is Some,
        check matches Some(c) ==> forall|i: int| 0 <= i < c.len() ==> (#[trigger] hex_digit(c[i])) is Some,
    ensures
        spec_nes(part).format == "Raw"@,
        spec_nes(part).error is None,
        spec_nes(part).op == Some(
            if hex_value(a) < 0x8000 {
                Op::Ram { addr: hex_value(a) as u32, value: hex_value(v) as u32, width: 1 }
            } else {
                Op::Rom {
                    cpu_addr: hex_value(a) as u32,
                    value: hex_value(v) as u32,
                    width: 1,
                    compare: match check {
                        Some(c) => Some(hex_value(c) as u8),
                        None => None,
                    },
                }
            },
        ),
{
    lemma_parse_small_hex(a);
    lemma_parse_small_hex(v);
    assert forall|i: int| 0 <= i < a.len() implies a[i] != ':' && a[i] != '?' by {
        assert(hex_digit(a[i]) is Some);
    }
    match check {
        Some(c) => {
            lemma_parse_small_hex(c);
            let left = a + seq!['?'] + c;
            assert forall|i: int| 0 <= i < left.len() implies left[i] != ':' by {
                if i < 4 {
                    assert(left[i] == a[i]);
                } else if i > 4 {
                    assert(left[i] == c[i - 5]);
                    assert(hex_digit(c[i - 5]) is Some);
                }
            }
            lemma_split_at_char(left, ':', v);
            lemma_split_at_char(a, '?', c);
            assert(hex_value(c) as u32 == hex_value(c));
        },
        None => {
            lemma_split_at_char(a, ':', v);
            crate::text::lemma_find_char(a, '?');
        },
    }
}

} // verus!

verus! {

proof fn lemma_snes_word_nibbles(s: Seq<char>)
    requires
        all_snes_digits(s),
        s.len() <= 8,
    ensures
        forall|k: int| 0 <= k < s.len() ==> (snes_word(s) >> ((4 * (s.len() - 1 - k)) as u32)) & 0xF
            == snes_digit(#[trigger] s[k]).unwrap(),
    decreases s.len(),
{
    if s.len() > 0 {
        let t = s.drop_last();
        assert forall|i: int| 0 <= i < t.len() implies (#[trigger] snes_digit(t[i])) is Some by {
            assert(t[i] == s[i]);
        }
        lemma_snes_word_nibbles(t);
        lemma_snes_word_bound(t);
        lemma_power16(t.len());
        let x = snes_word(t);
        assert(snes_digit(s[s.len() - 1]) is Some);
        let d = snes_digit(s.last()).unwrap();
        assert(d < 16);
        assert forall|k: int| 0 <= k < s.len() implies (snes_word(s) >> ((4 * (s.len() - 1 - k)) as u32))
            & 0xF == snes_digit(#[trigger] s[k]).unwrap() by {
            let sh: u32 = (4 * (t.len() - 1 - k)) as u32;
            if k == s.len() - 1 {
                assert((((x << 4u32) | d) >> 0u32) & 0xF == d) by (bit_vector)
                    requires
                        d < 16,
                ;
            } else {
                assert(s[k] == t[k]);
                assert((((x << 4u32) | d) >> ((sh + 4) as u32)) & 0xF == (x >> sh) & 0xF) by (bit_vector)
                    requires
                        x < 0x10000000,
                        d < 16,
                        sh <= 24,
                ;
            }
        }
    }
}

/// The digits of a Super NES Game Genie code, by their places in the alphabet
/// `DF4709156BC8A23E`: the first two spell the value, high digit first, and the other six
/// spell the address field (the CPU address run back through the fixed bit permutation),
/// most significant first.
pub proof fn law_snes_gg_digits(code: Seq<char>)
    requires
        spec_snes_gg(code) is Ok,
    ensures
        ({
            let s = without(code, '-');
            let alphabet = "DF4709156BC8A23E"@;
            spec_snes_gg(code) matches Ok(Op::Rom { cpu_addr, value, .. }) && {
                &&& s.len() == 8
                &&& alphabet[(value / 16) as int] == s[0]
                &&& alphabet[(value % 16) as int] == s[1]
                &&& forall|k: int| 0 <= k < 6 ==> alphabet[((snes_gg_unaddr(cpu_addr) >> ((4 * (5 - k)) as u32))
                    & 0xF) as int] == #[trigger] s[k + 2]
            }
        }),
{
    let s = without(code, '-');
    reveal_strlit("DF4709156BC8A23E");
    let alphabet = "DF4709156BC8A23E"@;
    lemma_snes_digits_ascii(s);
    lemma_snes_word_nibbles(s);
    let data = snes_word(s);
    let a = data & 0xFFFFFF;
    assert(a <= 0xFFFFFF) by (bit_vector)
        requires
            a == data & 0xFFFFFF,
    ;
    law_snes_gg_addr_permutation(a);
    let value = data >> 24u32;
    assert(value / 16 == (data >> 28u32) & 0xF && value % 16 == (data >> 24u32) & 0xF && forall|sh: u32|
        sh <= 20 ==> #[trigger] ((a >> sh) & 0xF) == (data >> sh) & 0xF) by (bit_vector)
        requires
            value == data >> 24u32,
            a == data & 0xFFFFFF,
    ;
    assert forall|i: int| 0 <= i < 8 implies alphabet[snes_digit(#[trigger] s[i]).unwrap() as int] == s[i] by {
        assert(snes_digit(s[i]) is Some);
    }
    assert(alphabet[(value / 16) as int] == s[0]) by {
        assert((data >> ((4 * (8 - 1 - 0)) as u32)) & 0xF == snes_digit(s[0]).unwrap());
    }
    assert(alphabet[(value % 16) as int] == s[1]) by {
        assert((data >> ((4 * (8 - 1 - 1)) as u32)) & 0xF == snes_digit(s[1]).unwrap());
    }
    assert forall|k: int| 0 <= k < 6 implies alphabet[((snes_gg_unaddr(snes_gg_addr(a)) >> ((4 * (5 - k)) as u32))
        & 0xF) as int] == #[trigger] s[k + 2] by {
        let sh = (4 * (5 - k)) as u32;
        assert(sh <= 20);
        assert((a >> sh) & 0xF == (data >> sh) & 0xF);
        assert((data >> ((4 * (8 - 1 - (k + 2))) as u32)) & 0xF == snes_digit(s[k + 2]).unwrap());
    }
}

} // verus!
