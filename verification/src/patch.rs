//! Resolving codes against a concrete ROM, building patched images, IPS and RetroArch files.
use vstd::prelude::*;
use crate::codes::{self, Op, Parsed, ParsedView, opt_view, spec_parse};
use crate::number::{dec, hex_text};
use crate::rom::{genesis, nes, snes, Header, HeaderView, Rom, rom_ok, rom_resolvable};
use crate::text::{owned, push_all, push_hex, push_str, push_dec, chars_of, string_of, Class, join, tokens, split_runs, join_with, trim, trim_class, all_chars, lemma_tokens_chars, lemma_join_chars, lemma_trim_chars, spec_is_control, is_control};

verus! {

broadcast use vstd::string::group_string_axioms;

/// One write into the image: at `offset`, the bytes `old` become `new`.
#[derive(Clone, Debug, PartialEq, Eq)]
pub struct RomOp {
    pub offset: usize,
    pub old: Vec<u8>,
    pub new: Vec<u8>,
}

impl View for RomOp {
    type V = (usize, Seq<u8>, Seq<u8>);

    open spec fn view(&self) -> (usize, Seq<u8>, Seq<u8>) {
        (self.offset, self.old@, self.new@)
    }
}

pub open spec fn ops_view(v: Seq<RomOp>) -> Seq<(usize, Seq<u8>, Seq<u8>)> {
    v.map_values(|o: RomOp| o@)
}

pub open spec fn strs_view(v: Seq<String>) -> Seq<Seq<char>> {
    v.map_values(|s: String| s@)
}

/// One decoded part of a code, resolved against an image.
#[derive(Clone, Debug)]
pub struct Decoded {
    pub raw: String,
    pub format: String,
    pub op: Option<Op>,
    pub rom_ops: Vec<RomOp>,
    /// True when this part can be written into the ROM image.
    pub patchable: bool,
    /// True when the ROM already holds the target bytes.
    pub noop: bool,
    pub notes: Vec<String>,
    pub error: Option<String>,
}

pub struct DecodedView {
    pub raw: Seq<char>,
    pub format: Seq<char>,
    pub op: Option<Op>,
    pub rom_ops: Seq<(usize, Seq<u8>, Seq<u8>)>,
    pub patchable: bool,
    pub noop: bool,
    pub notes: Seq<Seq<char>>,
    pub error: Option<Seq<char>>,
}

impl View for Decoded {
    type V = DecodedView;

    open spec fn view(&self) -> DecodedView {
        DecodedView {
            raw: self.raw@,
            format: self.format@,
            op: self.op,
            rom_ops: ops_view(self.rom_ops@),
            patchable: self.patchable,
            noop: self.noop,
            notes: strs_view(self.notes@),
            error: opt_view(self.error),
        }
    }
}

// ------------------------------------------------------------------ resolving one operation

/// The bytes a ROM operation writes: the value as a big-endian word for width 2, else its
/// low byte.
pub open spec fn new_bytes(value: u32, width: u8) -> Seq<u8> {
    if width == 2 {
        seq![((value as u16) >> 8u16) as u8, (value as u16) as u8]
    } else {
        seq![value as u8]
    }
}

pub open spec fn hex6(v: u32) -> Seq<char> {
    hex_text(v as nat, 6, true)
}

/// The file offsets a CPU address reaches on the image's platform, with notes.
pub open spec fn target_offsets(h: HeaderView, d: Seq<u8>, cpu: u32, width: nat, compare: Option<u8>) -> (
    Seq<usize>,
    Seq<Seq<char>>,
) {
    match h {
        HeaderView::Nes(n) => nes::spec_resolve(n, d, cpu, compare),
        HeaderView::Snes(s) => match snes::spec_map_to_offset(s, cpu, d.len()) {
            Some(o) => (seq![o], Seq::empty()),
            None => (
                Seq::empty(),
                seq!["$"@ + hex6(cpu) + " does not map to ROM under "@ + s.map.spec_label()],
            ),
        },
        HeaderView::Genesis(_) => if cpu + width <= d.len() {
            (seq![cpu as usize], Seq::empty())
        } else {
            (Seq::empty(), seq!["$"@ + hex6(cpu) + " is beyond the end of this ROM"@])
        },
    }
}

/// The writes for the offsets that leave room for the whole value.
pub open spec fn ops_at(offs: Seq<usize>, d: Seq<u8>, width: nat, new: Seq<u8>) -> Seq<(usize, Seq<u8>, Seq<u8>)> {
    offs.filter(|o: usize| o + width <= d.len()).map_values(
        |o: usize| (o, d.subrange(o as int, o + width), new),
    )
}

pub open spec fn all_noop(ops: Seq<(usize, Seq<u8>, Seq<u8>)>) -> bool {
    forall|i: int| 0 <= i < ops.len() ==> (#[trigger] ops[i]).1 == ops[i].2
}

/// What an operation does to an image: the writes a ROM operation needs, with notes; a RAM
/// operation needs none and is delivered as a cheat file.
pub open spec fn spec_resolve(h: HeaderView, d: Seq<u8>, op: Op) -> (Seq<(usize, Seq<u8>, Seq<u8>)>, Seq<Seq<char>>) {
    match op {
        Op::Ram { .. } => (
            Seq::empty(),
            seq!["Runtime write to work RAM; delivered as an emulator cheat file"@],
        ),
        Op::Rom { cpu_addr, value, width, compare } => {
            let (offs, notes) = target_offsets(h, d, cpu_addr, width as nat, compare);
            let ops = ops_at(offs, d, width as nat, new_bytes(value, width));
            (
                ops,
                if ops.len() > 0 && all_noop(ops) {
                    notes.push("ROM already contains these bytes"@)
                } else {
                    notes
                },
            )
        },
    }
}

/// Every write lies inside an image of `len` bytes.
pub open spec fn fits(s: Seq<OpView>, len: nat) -> bool {
    forall|i: int| 0 <= i < s.len() ==> (#[trigger] s[i]).0 + s[i].2.len() <= len
}

/// The writes an operation of one or two bytes needs lie inside the image.
pub proof fn lemma_resolve_fits(h: HeaderView, d: Seq<u8>, op: Op)
    ensures
        codes::op_small(op) ==> fits(spec_resolve(h, d, op).0, d.len()),
{
    if codes::op_small(op) {
        match op {
            Op::Rom { cpu_addr, value, width, compare } => {
                let (offs, notes) = target_offsets(h, d, cpu_addr, width as nat, compare);
                let keep = |o: usize| o + width as nat <= d.len();
                let ops = ops_at(offs, d, width as nat, new_bytes(value, width));
                assert forall|i: int| 0 <= i < ops.len() implies (#[trigger] ops[i]).0 + ops[i].2.len() <= d.len() by {
                    offs.lemma_filter_pred(keep, i);
                }
            },
            _ => {},
        }
    }
}

/// Operations whose arithmetic stays inside the address space of the image.
pub open spec fn op_fits(op: Op, len: nat) -> bool {
    match op {
        Op::Rom { cpu_addr, width, .. } => cpu_addr + width <= usize::MAX && len + width <= usize::MAX,
        Op::Ram { .. } => true,
    }
}

fn bytes_of(d: &Vec<u8>, from: usize, to: usize) -> (r: Vec<u8>)
    requires
        from <= to <= d@.len(),
    ensures
        r@ == d@.subrange(from as int, to as int),
{
    let mut r: Vec<u8> = Vec::new();
    let mut i = from;
    while i < to
        invariant
            from <= i <= to <= d@.len(),
            r@ == d@.subrange(from as int, i as int),
        decreases to - i,
    {
        r.push(d[i]);
        i = i + 1;
    }
    r
}

fn same_bytes(a: &Vec<u8>, b: &Vec<u8>) -> (r: bool)
    ensures
        r == (a@ == b@),
{
    if a.len() != b.len() {
        return false;
    }
    let mut i: usize = 0;
    while i < a.len()
        invariant
            i <= a.len() == b.len(),
            forall|j: int| 0 <= j < i ==> a@[j] == b@[j],
        decreases a.len() - i,
    {
        if a[i] != b[i] {
            return false;
        }
        i = i + 1;
    }
    assert(a@ =~= b@);
    true
}

fn make_ops(offs: &Vec<usize>, d: &Vec<u8>, width: usize, new: &Vec<u8>) -> (r: Vec<RomOp>)
    requires
        d@.len() + width <= usize::MAX,
    ensures
        ops_view(r@) == ops_at(offs@, d@, width as nat, new@),
{
    let ghost keep = |o: usize| o + width <= d@.len();
    let ghost mk = |o: usize| (o, d@.subrange(o as int, o + width), new@);
    let mut out: Vec<RomOp> = Vec::new();
    let mut i: usize = 0;
    while i < offs.len()
        invariant
            i <= offs@.len(),
            d@.len() + width <= usize::MAX,
            keep == (|o: usize| o + width <= d@.len()),
            mk == (|o: usize| (o, d@.subrange(o as int, o + width), new@)),
            ops_view(out@) == offs@.take(i as int).filter(keep).map_values(mk),
        decreases offs.len() - i,
    {
        let o = offs[i];
        proof {
            offs@.take(i as int).lemma_filter_push(o, keep);
            assert(offs@.take(i + 1) == offs@.take(i as int).push(o));
        }
        if width <= d.len() && o <= d.len() - width {
            let op = RomOp { offset: o, old: bytes_of(d, o, o + width), new: new.clone() };
            let ghost before = out@;
            out.push(op);
            assert(ops_view(out@) =~= ops_view(before).push(mk(o)));
        }
        i = i + 1;
    }
    assert(offs@.take(offs@.len() as int) == offs@);
    out
}

fn all_same(ops: &Vec<RomOp>) -> (r: bool)
    ensures
        r == all_noop(ops_view(ops@)),
{
    let mut i: usize = 0;
    while i < ops.len()
        invariant
            i <= ops.len(),
            forall|j: int| 0 <= j < i ==> (#[trigger] ops_view(ops@)[j]).1 == ops_view(ops@)[j].2,
        decreases ops.len() - i,
    {
        if !same_bytes(&ops[i].old, &ops[i].new) {
            assert(ops_view(ops@)[i as int].1 != ops_view(ops@)[i as int].2);
            return false;
        }
        i = i + 1;
    }
    true
}

/// The file offsets and notes for a ROM operation on this image.
fn offsets_for(rom: &Rom, cpu_addr: u32, width: usize, compare: Option<u8>) -> (r: (Vec<usize>, Vec<String>))
    requires
        rom_resolvable(rom),
        cpu_addr + width <= usize::MAX,
    ensures
        r.0@ == target_offsets(rom.header@, rom.data@, cpu_addr, width as nat, compare).0,
        strs_view(r.1@) == target_offsets(rom.header@, rom.data@, cpu_addr, width as nat, compare).1,
{
    let d = &rom.data;
    match &rom.header {
        Header::Nes(h) => {
            let (o, n) = nes::resolve(h, d.as_slice(), cpu_addr, compare);
            assert(strs_view(n@) == nes::strings_view(n@));
            (o, n)
        },
        Header::Snes(h) => match snes::map_to_offset(h, cpu_addr, d.len()) {
            Some(o) => {
                let mut v: Vec<usize> = Vec::new();
                v.push(o);
                let notes: Vec<String> = Vec::new();
                assert(strs_view(notes@) =~= Seq::<Seq<char>>::empty());
                (v, notes)
            },
            None => {
                let mut m = owned("$");
                push_hex(&mut m, cpu_addr as u64, 6, true);
                push_str(&mut m, " does not map to ROM under ");
                push_str(&mut m, h.map.label());
                let mut notes: Vec<String> = Vec::new();
                notes.push(m);
                assert(strs_view(notes@) =~= seq!["$"@ + hex6(cpu_addr) + " does not map to ROM under "@ + h.map.spec_label()]);
                (Vec::new(), notes)
            },
        },
        Header::Genesis(_) => {
            let o = cpu_addr as usize;
            if o + width <= d.len() {
                let mut v: Vec<usize> = Vec::new();
                v.push(o);
                let notes: Vec<String> = Vec::new();
                assert(strs_view(notes@) =~= Seq::<Seq<char>>::empty());
                (v, notes)
            } else {
                let mut m = owned("$");
                push_hex(&mut m, cpu_addr as u64, 6, true);
                push_str(&mut m, " is beyond the end of this ROM");
                let mut notes: Vec<String> = Vec::new();
                notes.push(m);
                assert(strs_view(notes@) =~= seq!["$"@ + hex6(cpu_addr) + " is beyond the end of this ROM"@]);
                (Vec::new(), notes)
            }
        },
    }
}

/// Resolves one operation against the image: the writes it needs and notes on how they were
/// found.
pub fn resolve(rom: &Rom, op: &Op) -> (r: (Vec<RomOp>, Vec<String>))
    requires
        rom_resolvable(rom),
        op_fits(*op, rom.data@.len()),
    ensures
        ops_view(r.0@) == spec_resolve(rom.header@, rom.data@, *op).0,
        strs_view(r.1@) == spec_resolve(rom.header@, rom.data@, *op).1,
        codes::op_small(*op) ==> fits(ops_view(r.0@), rom.data@.len()),
{
    proof {
        lemma_resolve_fits(rom.header@, rom.data@, *op);
    }
    match op {
        Op::Ram { .. } => {
            let mut notes: Vec<String> = Vec::new();
            notes.push(owned("Runtime write to work RAM; delivered as an emulator cheat file"));
            let ops: Vec<RomOp> = Vec::new();
            assert(strs_view(notes@) =~= seq!["Runtime write to work RAM; delivered as an emulator cheat file"@]);
            assert(ops_view(ops@) =~= Seq::<(usize, Seq<u8>, Seq<u8>)>::empty());
            (ops, notes)
        },
        Op::Rom { cpu_addr, value, width, compare } => {
            let w = *width as usize;
            let mut new: Vec<u8> = Vec::new();
            if w == 2 {
                let v16 = *value as u16;
                new.push((v16 >> 8u16) as u8);
                new.push(v16 as u8);
            } else {
                new.push(*value as u8);
            }
            assert(new@ =~= new_bytes(*value, *width));
            let (offsets, mut notes) = offsets_for(rom, *cpu_addr, w, *compare);
            let ops = make_ops(&offsets, &rom.data, w, &new);
            if ops.len() > 0 && all_same(&ops) {
                let ghost before = strs_view(notes@);
                notes.push(owned("ROM already contains these bytes"));
                assert(strs_view(notes@) =~= before.push("ROM already contains these bytes"@));
            }
            (ops, notes)
        },
    }
}


// ------------------------------------------------------------------ decoding codes

/// A parsed part resolved against an image.
pub open spec fn spec_decoded(h: HeaderView, d: Seq<u8>, p: ParsedView) -> DecodedView {
    let (ops, notes) = match p.op {
        Some(op) => spec_resolve(h, d, op),
        None => (Seq::empty(), Seq::empty()),
    };
    let patchable = (p.op matches Some(Op::Rom { .. })) && ops.len() > 0;
    DecodedView {
        raw: p.raw,
        format: p.format,
        op: p.op,
        rom_ops: ops,
        patchable,
        noop: patchable && all_noop(ops),
        notes,
        error: p.error,
    }
}

/// Every part of `code` decoded for the image's platform and resolved against it.
pub open spec fn spec_decode(rom: &Rom, code: Seq<char>) -> Seq<DecodedView> {
    spec_parse(rom.platform, code).map_values(|p: ParsedView| spec_decoded(rom.header@, rom.data@, p))
}

fn decode_part(rom: &Rom, p: Parsed) -> (r: Decoded)
    requires
        rom_resolvable(rom),
        p.op matches Some(op) ==> codes::op_small(op),
    ensures
        r@ == spec_decoded(rom.header@, rom.data@, p@),
        fits(r@.rom_ops, rom.data@.len()),
{
    let (rom_ops, notes) = match &p.op {
        Some(op) => resolve(rom, op),
        None => {
            let a: Vec<RomOp> = Vec::new();
            let b: Vec<String> = Vec::new();
            assert(ops_view(a@) =~= Seq::<(usize, Seq<u8>, Seq<u8>)>::empty());
            assert(strs_view(b@) =~= Seq::<Seq<char>>::empty());
            (a, b)
        },
    };
    let is_rom = match &p.op {
        Some(Op::Rom { .. }) => true,
        _ => false,
    };
    let patchable = is_rom && rom_ops.len() > 0;
    let noop = patchable && all_same(&rom_ops);
    Decoded {
        raw: p.raw,
        format: p.format,
        op: p.op,
        rom_ops,
        patchable,
        noop,
        notes,
        error: p.error,
    }
}

/// Decodes a cheat string against the image: each part with its writes and notes.
pub fn decode(rom: &Rom, code: &str) -> (r: Vec<Decoded>)
    requires
        rom_resolvable(rom),
    ensures
        r@.len() == spec_decode(rom, code@).len(),
        forall|i: int| 0 <= i < r@.len() ==> (#[trigger] r@[i])@ == spec_decode(rom, code@)[i],
        forall|i: int| 0 <= i < r@.len() ==> fits((#[trigger] r@[i])@.rom_ops, rom.data@.len()),
{
    let parts = codes::parse(rom.platform, code);
    let mut out: Vec<Decoded> = Vec::new();
    let mut rest = parts;
    let ghost all = rest@;
    let mut parts_rev: Vec<Parsed> = Vec::new();
    while rest.len() > 0
        invariant
            rest@.len() + parts_rev@.len() == all.len(),
            forall|j: int| 0 <= j < rest@.len() ==> rest@[j] == all[j],
            forall|j: int| 0 <= j < parts_rev@.len() ==> parts_rev@[j] == all[all.len() - 1 - j],
        decreases rest@.len(),
    {
        let p = rest.pop().unwrap();
        parts_rev.push(p);
    }
    while parts_rev.len() > 0
        invariant
            rom_resolvable(rom),
            parts_rev@.len() + out@.len() == all.len(),
            all.len() == spec_decode(rom, code@).len(),
            forall|j: int| 0 <= j < parts_rev@.len() ==> parts_rev@[j] == all[all.len() - 1 - j],
            forall|j: int| 0 <= j < all.len() ==> (#[trigger] all[j])@ == spec_parse(rom.platform, code@)[j],
            forall|j: int| 0 <= j < all.len() ==> ((#[trigger] all[j]).op matches Some(op) ==> codes::op_small(op)),
            forall|j: int| 0 <= j < out@.len() ==> (#[trigger] out@[j])@ == spec_decode(rom, code@)[j],
            forall|j: int| 0 <= j < out@.len() ==> fits((#[trigger] out@[j])@.rom_ops, rom.data@.len()),
        decreases parts_rev@.len(),
    {
        let p = parts_rev.pop().unwrap();
        let ghost k = out@.len() as int;
        assert(p == all[k]);
        let d = decode_part(rom, p);
        out.push(d);
    }
    out
}


// ------------------------------------------------------------------ collecting writes

pub type OpView = (usize, Seq<u8>, Seq<u8>);

/// `r` with `acc` in front of its writes.
pub open spec fn after(acc: Seq<OpView>, r: Result<Seq<OpView>, Seq<char>>) -> Result<Seq<OpView>, Seq<char>> {
    match r {
        Ok(b) => Ok(acc + b),
        Err(e) => Err(e),
    }
}

/// Why a part cannot be patched: its error, else its first note, else that it is no ROM patch.
pub open spec fn refusal(p: DecodedView) -> Option<Seq<char>> {
    match p.error {
        Some(e) => Some(p.raw + ": "@ + e),
        None => if !p.patchable {
            Some(
                p.raw + ": "@ + if p.notes.len() > 0 {
                    p.notes[0]
                } else {
                    "not a ROM patch"@
                },
            )
        } else {
            None
        },
    }
}

/// The writes of the parts in order, or the refusal of the first part that cannot be patched.
pub open spec fn gather_parts(parts: Seq<DecodedView>) -> Result<Seq<OpView>, Seq<char>>
    decreases parts.len(),
{
    if parts.len() == 0 {
        Ok(Seq::empty())
    } else {
        match refusal(parts[0]) {
            Some(e) => Err(e),
            None => after(parts[0].rom_ops, gather_parts(parts.drop_first())),
        }
    }
}

/// The writes of every code in order, or the first refusal.
pub open spec fn gather_codes(rom: &Rom, codes: Seq<Seq<char>>) -> Result<Seq<OpView>, Seq<char>>
    decreases codes.len(),
{
    if codes.len() == 0 {
        Ok(Seq::empty())
    } else {
        match gather_parts(spec_decode(rom, codes[0])) {
            Err(e) => Err(e),
            Ok(a) => after(a, gather_codes(rom, codes.drop_first())),
        }
    }
}

/// `x` placed in `s` after every write whose offset is not greater (stable insertion).
pub open spec fn insert_by_offset(s: Seq<OpView>, x: OpView) -> Seq<OpView>
    decreases s.len(),
{
    if s.len() > 0 && s.last().0 > x.0 {
        insert_by_offset(s.drop_last(), x).push(s.last())
    } else {
        s.push(x)
    }
}

/// The writes stably sorted by offset.
pub open spec fn sort_by_offset(s: Seq<OpView>) -> Seq<OpView>
    decreases s.len(),
{
    if s.len() == 0 {
        s
    } else {
        insert_by_offset(sort_by_offset(s.drop_last()), s.last())
    }
}

/// The writes with immediate repeats removed.
pub open spec fn dedup(s: Seq<OpView>) -> Seq<OpView>
    decreases s.len(),
{
    if s.len() <= 1 {
        s
    } else if s.last() == s[s.len() - 2] {
        dedup(s.drop_last())
    } else {
        dedup(s.drop_last()).push(s.last())
    }
}

/// The offset of the first write that starts before the previous one ends.
pub open spec fn overlap_from(s: Seq<OpView>, i: int, last_end: int) -> Option<usize>
    decreases s.len() - i,
{
    if i >= s.len() || i < 0 {
        None
    } else if s[i].0 < last_end {
        Some(s[i].0)
    } else {
        overlap_from(s, i + 1, s[i].0 + s[i].2.len())
    }
}

pub open spec fn overlap_msg(off: usize) -> Seq<char> {
    "two codes write overlapping bytes at $"@ + hex_text(off as nat, 6, true) + "; pick one"@
}

/// The writes for a list of codes: sorted by offset, repeats dropped, refused when a part
/// cannot be patched or two writes overlap.
pub open spec fn spec_collect_ops(rom: &Rom, codes: Seq<Seq<char>>) -> Result<Seq<OpView>, Seq<char>> {
    match gather_codes(rom, codes) {
        Err(e) => Err(e),
        Ok(all) => {
            let s = dedup(sort_by_offset(all));
            match overlap_from(s, 0, 0) {
                Some(off) => Err(overlap_msg(off)),
                None => Ok(s),
            }
        },
    }
}

proof fn lemma_insert_at(s: Seq<OpView>, x: OpView, k: int)
    requires
        0 <= k <= s.len(),
        forall|j: int| k <= j < s.len() ==> (#[trigger] s[j]).0 > x.0,
        k == 0 || s[k - 1].0 <= x.0,
    ensures
        insert_by_offset(s, x) == s.take(k).push(x) + s.skip(k),
    decreases s.len() - k,
{
    if k == s.len() {
        assert(s.skip(k).len() == 0);
        assert(s.take(k) == s);
        assert(s.push(x) + s.skip(k) =~= s.push(x));
    } else {
        lemma_insert_at(s.drop_last(), x, k);
        assert(s.drop_last().take(k) == s.take(k));
        assert(s.drop_last().skip(k).push(s.last()) =~= s.skip(k));
        assert((s.take(k).push(x) + s.drop_last().skip(k)).push(s.last()) =~= s.take(k).push(x) + s.skip(k));
    }
}

fn clone_op(o: &RomOp) -> (r: RomOp)
    ensures
        r@ == o@,
{
    RomOp { offset: o.offset, old: o.old.clone(), new: o.new.clone() }
}

fn same_op(a: &RomOp, b: &RomOp) -> (r: bool)
    ensures
        r == (a@ == b@),
{
    a.offset == b.offset && same_bytes(&a.old, &b.old) && same_bytes(&a.new, &b.new)
}

fn sort_ops(v: Vec<RomOp>) -> (r: Vec<RomOp>)
    ensures
        ops_view(r@) == sort_by_offset(ops_view(v@)),
{
    let ghost all = ops_view(v@);
    let mut src = v;
    let mut rev: Vec<RomOp> = Vec::new();
    while src.len() > 0
        invariant
            src@.len() + rev@.len() == all.len(),
            forall|j: int| 0 <= j < src@.len() ==> (#[trigger] src@[j])@ == all[j],
            forall|j: int| 0 <= j < rev@.len() ==> (#[trigger] rev@[j])@ == all[all.len() - 1 - j],
        decreases src@.len(),
    {
        let x = src.pop().unwrap();
        rev.push(x);
    }
    let mut out: Vec<RomOp> = Vec::new();
    while rev.len() > 0
        invariant
            rev@.len() + out@.len() <= all.len(),
            forall|j: int| 0 <= j < rev@.len() ==> (#[trigger] rev@[j])@ == all[all.len() - 1 - j],
            ops_view(out@) == sort_by_offset(all.take(all.len() - rev@.len())),
        decreases rev@.len(),
    {
        let ghost i = all.len() - rev@.len();
        let x = rev.pop().unwrap();
        assert(x@ == all[i]);
        let mut k = out.len();
        while k > 0 && out[k - 1].offset > x.offset
            invariant
                k <= out@.len(),
                forall|j: int| k <= j < out@.len() ==> (#[trigger] out@[j]).offset > x.offset,
            decreases k,
        {
            k = k - 1;
        }
        let ghost before = ops_view(out@);
        proof {
            assert forall|j: int| k <= j < before.len() implies (#[trigger] before[j]).0 > x@.0 by {
                assert(before[j] == out@[j]@);
            }
            lemma_insert_at(before, x@, k as int);
            assert(all.take(i + 1).drop_last() == all.take(i));
        }
        out.insert(k, x);
        assert(ops_view(out@) =~= before.take(k as int).push(x@) + before.skip(k as int));
    }
    assert(all.take(all.len() as int) == all);
    out
}

proof fn lemma_dedup_last(s: Seq<OpView>)
    requires
        s.len() > 0,
    ensures
        dedup(s).len() > 0,
        dedup(s).last() == s.last(),
    decreases s.len(),
{
    if s.len() > 1 {
        lemma_dedup_last(s.drop_last());
    }
}

fn dedup_ops(v: Vec<RomOp>) -> (r: Vec<RomOp>)
    ensures
        ops_view(r@) == dedup(ops_view(v@)),
{
    let ghost all = ops_view(v@);
    let mut out: Vec<RomOp> = Vec::new();
    let mut i: usize = 0;
    while i < v.len()
        invariant
            i <= v@.len(),
            all == ops_view(v@),
            ops_view(out@) == dedup(all.take(i as int)),
        decreases v.len() - i,
    {
        let ghost t = all.take(i + 1);
        assert(t.drop_last() == all.take(i as int));
        if i > 0 {
            proof {
                lemma_dedup_last(all.take(i as int));
                assert(t[t.len() - 2] == all[i - 1]);
            }
            let last = out.len() - 1;
            if same_op(&out[last], &v[i]) {
                assert(t.last() == t[t.len() - 2]);
            } else {
                let ghost before = ops_view(out@);
                out.push(clone_op(&v[i]));
                assert(ops_view(out@) =~= before.push(t.last()));
            }
        } else {
            let ghost before = ops_view(out@);
            out.push(clone_op(&v[i]));
            assert(ops_view(out@) =~= before.push(t.last()));
            assert(t.len() == 1);
        }
        i = i + 1;
    }
    assert(all.take(v.len() as int) == all);
    out
}


proof fn lemma_insert_fits(s: Seq<OpView>, x: OpView, len: nat)
    requires
        fits(s, len),
        x.0 + x.2.len() <= len,
    ensures
        fits(insert_by_offset(s, x), len),
    decreases s.len(),
{
    if s.len() > 0 && s.last().0 > x.0 {
        lemma_insert_fits(s.drop_last(), x, len);
        let t = insert_by_offset(s.drop_last(), x);
        assert forall|i: int| 0 <= i < t.push(s.last()).len() implies (#[trigger] t.push(s.last())[i]).0
            + t.push(s.last())[i].2.len() <= len by {
            if i < t.len() {
                assert(t.push(s.last())[i] == t[i]);
            } else {
                assert(s.last() == s[s.len() - 1]);
            }
        }
    } else {
        assert forall|i: int| 0 <= i < s.push(x).len() implies (#[trigger] s.push(x)[i]).0 + s.push(x)[i].2.len() <= len by {
            if i < s.len() {
                assert(s.push(x)[i] == s[i]);
            }
        }
    }
}

proof fn lemma_sort_fits(s: Seq<OpView>, len: nat)
    requires
        fits(s, len),
    ensures
        fits(sort_by_offset(s), len),
    decreases s.len(),
{
    if s.len() > 0 {
        let t = s.drop_last();
        assert forall|i: int| 0 <= i < t.len() implies (#[trigger] t[i]).0 + t[i].2.len() <= len by {
            assert(t[i] == s[i]);
        }
        lemma_sort_fits(t, len);
        assert(s.last() == s[s.len() - 1]);
        lemma_insert_fits(sort_by_offset(t), s.last(), len);
    }
}

proof fn lemma_dedup_fits(s: Seq<OpView>, len: nat)
    requires
        fits(s, len),
    ensures
        fits(dedup(s), len),
    decreases s.len(),
{
    if s.len() > 1 {
        let t = s.drop_last();
        assert forall|i: int| 0 <= i < t.len() implies (#[trigger] t[i]).0 + t[i].2.len() <= len by {
            assert(t[i] == s[i]);
        }
        lemma_dedup_fits(t, len);
        let d = dedup(t);
        assert(s.last() == s[s.len() - 1]);
        assert forall|i: int| 0 <= i < d.push(s.last()).len() implies (#[trigger] d.push(s.last())[i]).0
            + d.push(s.last())[i].2.len() <= len by {
            if i < d.len() {
                assert(d.push(s.last())[i] == d[i]);
            }
        }
    }
}

/// With no overlap found from `i` on, every write from `i` on starts at or after `last_end`
/// and ends before the next one starts.
proof fn lemma_no_overlap(s: Seq<OpView>, i: int, last_end: int)
    requires
        0 <= i,
        overlap_from(s, i, last_end) is None,
    ensures
        forall|a: int, b: int| #![trigger s[a], s[b]] i <= a < b < s.len() ==> s[a].0 + s[a].2.len() <= s[b].0,
        i < s.len() ==> s[i].0 >= last_end,
    decreases s.len() - i,
{
    if i < s.len() {
        lemma_no_overlap(s, i + 1, s[i].0 + s[i].2.len());
        assert forall|a: int, b: int| #![trigger s[a], s[b]] i <= a < b < s.len() implies s[a].0 + s[a].2.len() <= s[b].0 by {
            if a == i && b > i + 1 {
                assert(s[a].0 + s[a].2.len() <= s[i + 1].0);
                assert(s[i + 1].0 + s[i + 1].2.len() <= s[b].0);
            }
        }
    }
}

proof fn lemma_after_empty(r: Result<Seq<OpView>, Seq<char>>)
    ensures
        after(Seq::empty(), r) == r,
{
    match r {
        Ok(b) => {
            assert(Seq::<OpView>::empty() + b =~= b);
        },
        Err(_) => {},
    }
}

fn refusal_of(p: &Decoded) -> (r: Option<String>)
    ensures
        opt_view(r) == refusal(p@),
{
    match &p.error {
        Some(e) => {
            let mut m = p.raw.clone();
            push_str(&mut m, ": ");
            push_str(&mut m, e.as_str());
            Some(m)
        },
        None => {
            if !p.patchable {
                let mut m = p.raw.clone();
                push_str(&mut m, ": ");
                if p.notes.len() > 0 {
                    push_str(&mut m, p.notes[0].as_str());
                } else {
                    push_str(&mut m, "not a ROM patch");
                }
                Some(m)
            } else {
                None
            }
        },
    }
}

fn append_ops(acc: &mut Vec<RomOp>, more: &Vec<RomOp>)
    ensures
        ops_view(final(acc)@) == ops_view(old(acc)@) + ops_view(more@),
{
    let ghost start = ops_view(acc@);
    let mut i: usize = 0;
    while i < more.len()
        invariant
            i <= more@.len(),
            ops_view(acc@) == start + ops_view(more@).take(i as int),
        decreases more.len() - i,
    {
        let ghost before = ops_view(acc@);
        acc.push(clone_op(&more[i]));
        assert(ops_view(acc@) =~= before.push(ops_view(more@)[i as int]));
        assert(ops_view(more@).take(i + 1) == ops_view(more@).take(i as int).push(ops_view(more@)[i as int]));
        i = i + 1;
    }
    assert(ops_view(more@).take(more@.len() as int) == ops_view(more@));
}

/// The writes of decoded parts in order, or the first refusal among them.
fn gather_decoded(parts: &Vec<Decoded>, n: usize) -> (r: Result<Vec<RomOp>, String>)
    requires
        forall|k: int| 0 <= k < parts@.len() ==> fits((#[trigger] parts@[k])@.rom_ops, n as nat),
    ensures
        match gather_parts(parts@.map_values(|p: Decoded| p@)) {
            Ok(a) => r matches Ok(v) && ops_view(v@) == a && fits(a, n as nat),
            Err(e) => r matches Err(x) && x@ == e,
        },
{
    let ghost P = parts@.map_values(|p: Decoded| p@);
    let mut acc: Vec<RomOp> = Vec::new();
    let mut j: usize = 0;
    proof {
        assert(P.skip(0) == P);
        lemma_after_empty(gather_parts(P));
        assert(ops_view(acc@) =~= Seq::<OpView>::empty());
    }
    while j < parts.len()
        invariant
            j <= parts@.len(),
            P == parts@.map_values(|p: Decoded| p@),
            forall|k: int| 0 <= k < parts@.len() ==> fits((#[trigger] parts@[k])@.rom_ops, n as nat),
            gather_parts(P) == after(ops_view(acc@), gather_parts(P.skip(j as int))),
            fits(ops_view(acc@), n as nat),
        decreases parts.len() - j,
    {
        assert(P.skip(j as int)[0] == P[j as int]);
        assert(P.skip(j as int).drop_first() == P.skip(j + 1));
        match refusal_of(&parts[j]) {
            Some(e) => {
                assert(gather_parts(P.skip(j as int)) == Err::<Seq<OpView>, Seq<char>>(e@));
                assert(gather_parts(P) == Err::<Seq<OpView>, Seq<char>>(e@));
                return Err(e);
            },
            None => {},
        }
        let ghost before = ops_view(acc@);
        append_ops(&mut acc, &parts[j].rom_ops);
        proof {
            let more = P[j as int].rom_ops;
            assert(fits(parts@[j as int]@.rom_ops, n as nat));
            assert forall|i: int| 0 <= i < (before + more).len() implies (#[trigger] (before + more)[i]).0
                + (before + more)[i].2.len() <= n by {
                if i < before.len() {
                    assert((before + more)[i] == before[i]);
                } else {
                    assert((before + more)[i] == more[i - before.len()]);
                }
            }
            match gather_parts(P.skip(j + 1)) {
                Ok(b) => {
                    assert(before + (more + b) == (before + more) + b);
                },
                Err(_) => {},
            }
        }
        j = j + 1;
    }
    assert(P.skip(P.len() as int).len() == 0);
    assert(ops_view(acc@) + Seq::<OpView>::empty() == ops_view(acc@));
    Ok(acc)
}

/// The writes of one code, or the first refusal among its parts.
fn gather_code(rom: &Rom, code: &str) -> (r: Result<Vec<RomOp>, String>)
    requires
        rom_resolvable(rom),
    ensures
        match gather_parts(spec_decode(rom, code@)) {
            Ok(a) => r matches Ok(v) && ops_view(v@) == a && fits(a, rom.data@.len()),
            Err(e) => r matches Err(x) && x@ == e,
        },
{
    let parts = decode(rom, code);
    assert(parts@.map_values(|p: Decoded| p@) =~= spec_decode(rom, code@));
    gather_decoded(&parts, rom.data.len())
}

pub open spec fn codes_view(v: Seq<String>) -> Seq<Seq<char>> {
    v.map_values(|s: String| s@)
}

/// The writes of every code in order, or the first refusal.
#[verifier::rlimit(40)]
fn gather_all(rom: &Rom, code_list: &[String]) -> (r: Result<Vec<RomOp>, String>)
    requires
        rom_resolvable(rom),
    ensures
        match gather_codes(rom, codes_view(code_list@)) {
            Ok(a) => r matches Ok(v) && ops_view(v@) == a && fits(a, rom.data@.len()),
            Err(e) => r matches Err(x) && x@ == e,
        },
{
    let ghost C = codes_view(code_list@);
    let mut ops: Vec<RomOp> = Vec::new();
    let mut i: usize = 0;
    proof {
        assert(C.skip(0) == C);
        lemma_after_empty(gather_codes(rom, C));
        assert(ops_view(ops@) =~= Seq::<OpView>::empty());
    }
    while i < code_list.len()
        invariant
            i <= code_list@.len(),
            rom_resolvable(rom),
            C == codes_view(code_list@),
            gather_codes(rom, C) == after(ops_view(ops@), gather_codes(rom, C.skip(i as int))),
            fits(ops_view(ops@), rom.data@.len()),
        decreases code_list.len() - i,
    {
        assert(C.skip(i as int)[0] == C[i as int]);
        assert(C.skip(i as int).drop_first() == C.skip(i + 1));
        let more = match gather_code(rom, code_list[i].as_str()) {
            Ok(v) => v,
            Err(e) => {
                assert(gather_codes(rom, C.skip(i as int)) == Err::<Seq<OpView>, Seq<char>>(e@));
                return Err(e);
            },
        };
        let ghost before = ops_view(ops@);
        append_ops(&mut ops, &more);
        proof {
            let m = ops_view(more@);
            assert forall|k: int| 0 <= k < (before + m).len() implies (#[trigger] (before + m)[k]).0
                + (before + m)[k].2.len() <= rom.data@.len() by {
                if k < before.len() {
                    assert((before + m)[k] == before[k]);
                } else {
                    assert((before + m)[k] == m[k - before.len()]);
                }
            }
            match gather_codes(rom, C.skip(i + 1)) {
                Ok(b) => {
                    assert(before + (m + b) == (before + m) + b);
                },
                Err(_) => {},
            }
        }
        i = i + 1;
    }
    assert(C.skip(C.len() as int).len() == 0);
    assert(ops_view(ops@) + Seq::<OpView>::empty() == ops_view(ops@));
    Ok(ops)
}

/// Collects the ROM writes for a list of codes, failing on anything that cannot be patched.
pub fn collect_ops(rom: &Rom, code_list: &[String]) -> (r: Result<Vec<RomOp>, String>)
    requires
        rom_resolvable(rom),
    ensures
        match spec_collect_ops(rom, codes_view(code_list@)) {
            Ok(s) => r matches Ok(v) && ops_view(v@) == s,
            Err(e) => r matches Err(x) && x@ == e,
        },
        r matches Ok(v) ==> forall|a: int, b: int| #![trigger v@[a], v@[b]]
            0 <= a < b < v@.len() ==> v@[a].offset + v@[a].new@.len() <= v@[b].offset,
        r matches Ok(v) ==> forall|a: int|
            0 <= a < v@.len() ==> #[trigger] v@[a].offset + v@[a].new@.len() <= rom.data@.len(),
{
    let ops = match gather_all(rom, code_list) {
        Ok(v) => v,
        Err(e) => {
            return Err(e);
        },
    };
    let ghost all = ops_view(ops@);
    assert(gather_codes(rom, codes_view(code_list@)) == Ok::<Seq<OpView>, Seq<char>>(all));
    let sorted = sort_ops(ops);
    let s = dedup_ops(sorted);
    proof {
        lemma_sort_fits(all, rom.data@.len());
        lemma_dedup_fits(sort_by_offset(all), rom.data@.len());
    }
    let ghost sv = ops_view(s@);
    assert(sv == dedup(sort_by_offset(all)));
    let mut last_end: usize = 0;
    let mut k: usize = 0;
    while k < s.len()
        invariant
            k <= s@.len(),
            sv == ops_view(s@),
            sv == dedup(sort_by_offset(all)),
            gather_codes(rom, codes_view(code_list@)) == Ok::<Seq<OpView>, Seq<char>>(all),
            fits(sv, rom.data@.len()),
            rom.data@.len() + 2 <= usize::MAX,
            overlap_from(sv, 0, 0) == overlap_from(sv, k as int, last_end as int),
        decreases s.len() - k,
    {
        assert(sv[k as int] == s@[k as int]@);
        if s[k].offset < last_end {
            let mut m = owned("two codes write overlapping bytes at $");
            push_hex(&mut m, s[k].offset as u64, 6, true);
            push_str(&mut m, "; pick one");
            assert(overlap_from(sv, 0, 0) == Some(s@[k as int].offset));
            assert(m@ == overlap_msg(s@[k as int].offset));
            return Err(m);
        }
        last_end = s[k].offset + s[k].new.len();
        k = k + 1;
    }
    proof {
        lemma_no_overlap(sv, 0, 0);
        assert forall|a: int| 0 <= a < s@.len() implies #[trigger] s@[a].offset + s@[a].new@.len() <= rom.data@.len() by {
            assert(sv[a] == s@[a]@);
        }
        assert forall|a: int, b: int| #![trigger s@[a], s@[b]] 0 <= a < b < s@.len() implies s@[a].offset + s@[a].new@.len() <= s@[b].offset by {
            assert(sv[a] == s@[a]@);
            assert(sv[b] == s@[b]@);
        }
    }
    Ok(s)
}

} // verus!

verus! {

// ------------------------------------------------------------------ IPS

/// The `PATCH` magic that opens an IPS file.
pub open spec fn ips_magic() -> Seq<u8> {
    seq![80u8, 65u8, 84u8, 67u8, 72u8]
}

/// The `EOF` marker that closes an IPS file.
pub open spec fn ips_end() -> Seq<u8> {
    seq![69u8, 79u8, 70u8]
}

/// Three bytes, most significant first.
pub open spec fn be3(v: nat) -> Seq<u8> {
    seq![(v / 0x10000 % 0x100) as u8, (v / 0x100 % 0x100) as u8, (v % 0x100) as u8]
}

/// Two bytes, most significant first.
pub open spec fn be2(v: nat) -> Seq<u8> {
    seq![(v / 0x100 % 0x100) as u8, (v % 0x100) as u8]
}

/// Where the run of differing bytes that starts at `start` ends: at the first equal byte,
/// at `n`, or 0xFFFF bytes on.
pub open spec fn run_end(o: Seq<u8>, p: Seq<u8>, n: int, start: int, i: int) -> int
    decreases n - i,
{
    if i < n && o[i] != p[i] && i - start < 0xFFFF {
        run_end(o, p, n, start, i + 1)
    } else {
        i
    }
}

pub proof fn lemma_run_end(o: Seq<u8>, p: Seq<u8>, n: int, start: int, i: int)
    requires
        start <= i <= n,
        i - start <= 0xFFFF,
    ensures
        i <= run_end(o, p, n, start, i) <= n,
        run_end(o, p, n, start, i) - start <= 0xFFFF,
        (o[i] != p[i] && i < n && i - start < 0xFFFF) ==> run_end(o, p, n, start, i) > i,
        run_end(o, p, n, start, i) == n || o[run_end(o, p, n, start, i)] == p[run_end(o, p, n, start, i)]
            || run_end(o, p, n, start, i) - start == 0xFFFF,
        forall|x: int| i <= x < run_end(o, p, n, start, i) ==> o[x] != p[x],
    decreases n - i,
{
    if i < n && o[i] != p[i] && i - start < 0xFFFF {
        lemma_run_end(o, p, n, start, i + 1);
    }
}

/// The offset whose three bytes spell `EOF`: a record starting there would end the file.
pub open spec fn eof_offset() -> int {
    0x454F46
}

/// Where the record for a run of differing bytes found at `i` starts: at `i`, or one byte
/// earlier when `i` is the offset that would read as `EOF`.
pub open spec fn record_start(i: int) -> int {
    if i == eof_offset() {
        i - 1
    } else {
        i
    }
}

/// The IPS records for the differing bytes from `i` up to `n`: one record per run of
/// differing bytes (split every 0xFFFF bytes, and never starting at the offset that reads as
/// `EOF`), or the offset of the first run that three bytes cannot address.
pub open spec fn ips_records(o: Seq<u8>, p: Seq<u8>, n: int, i: int) -> Result<Seq<u8>, nat>
    decreases n - i,
{
    if i < 0 || i >= n {
        Ok(Seq::empty())
    } else if o[i] == p[i] {
        ips_records(o, p, n, i + 1)
    } else if i >= 0x1000000 {
        Err(i as nat)
    } else {
        let st = record_start(i);
        let e = run_end(o, p, n, st, i);
        proof {
            lemma_run_end(o, p, n, st, i);
        }
        match ips_records(o, p, n, e) {
            Ok(rest) => Ok(be3(st as nat) + be2((e - st) as nat) + p.subrange(st, e) + rest),
            Err(x) => Err(x),
        }
    }
}

/// The number of bytes that both images have.
pub open spec fn common_len(o: Seq<u8>, p: Seq<u8>) -> nat {
    if o.len() < p.len() {
        o.len()
    } else {
        p.len()
    }
}

pub open spec fn ips_error(start: nat) -> Seq<char> {
    "IPS cannot address offset $"@ + hex_text(start, 0, true)
}

/// The IPS file that turns `o` into `p` over their common length.
pub open spec fn spec_ips(o: Seq<u8>, p: Seq<u8>) -> Result<Seq<u8>, Seq<char>> {
    match ips_records(o, p, common_len(o, p) as int, 0) {
        Ok(b) => Ok(ips_magic() + b + ips_end()),
        Err(s) => Err(ips_error(s)),
    }
}

/// `r` with `acc` in front of its bytes.
pub open spec fn after_bytes(acc: Seq<u8>, r: Result<Seq<u8>, nat>) -> Result<Seq<u8>, nat> {
    match r {
        Ok(b) => Ok(acc + b),
        Err(e) => Err(e),
    }
}

fn push_bytes(out: &mut Vec<u8>, src: &[u8], from: usize, to: usize)
    requires
        from <= to <= src@.len(),
    ensures
        final(out)@ == old(out)@ + src@.subrange(from as int, to as int),
{
    let ghost start = out@;
    let mut i: usize = from;
    while i < to
        invariant
            from <= i <= to <= src@.len(),
            out@ == start + src@.subrange(from as int, i as int),
        decreases to - i,
    {
        out.push(src[i]);
        i = i + 1;
        assert(src@.subrange(from as int, i as int) == src@.subrange(from as int, i - 1).push(src@[i - 1]));
    }
}

/// IPS records covering every byte that differs between `orig` and `patched`.
#[verifier::spinoff_prover]
#[verifier::rlimit(40)]
pub fn ips(orig: &[u8], patched: &[u8]) -> (r: Result<Vec<u8>, String>)
    ensures
        match spec_ips(orig@, patched@) {
            Ok(b) => r matches Ok(v) && v@ == b,
            Err(e) => r matches Err(x) && x@ == e,
        },
{
    let ghost o = orig@;
    let ghost p = patched@;
    let n = if orig.len() < patched.len() {
        orig.len()
    } else {
        patched.len()
    };
    let mut body: Vec<u8> = Vec::new();
    let mut i: usize = 0;
    assert(after_bytes(body@, ips_records(o, p, n as int, 0)) == ips_records(o, p, n as int, 0)) by {
        match ips_records(o, p, n as int, 0) {
            Ok(b) => {
                assert(body@ + b =~= b);
            },
            Err(_) => {},
        }
    }
    while i < n
        invariant
            i <= n,
            n == common_len(o, p),
            o == orig@,
            p == patched@,
            ips_records(o, p, n as int, 0) == after_bytes(body@, ips_records(o, p, n as int, i as int)),
        decreases n - i,
    {
        if orig[i] == patched[i] {
            i = i + 1;
        } else {
            let start = i;
            let rs: usize = if start == 0x454F46 {
                start - 1
            } else {
                start
            };
            while i < n && orig[i] != patched[i] && i - rs < 0xFFFF
                invariant
                    rs <= start <= i <= n,
                    start - rs <= 1,
                    n == common_len(o, p),
                    o == orig@,
                    p == patched@,
                    i - rs <= 0xFFFF,
                    run_end(o, p, n as int, rs as int, start as int) == run_end(
                        o,
                        p,
                        n as int,
                        rs as int,
                        i as int,
                    ),
                decreases n - i,
            {
                i = i + 1;
            }
            proof {
                lemma_run_end(o, p, n as int, rs as int, start as int);
            }
            assert(i == run_end(o, p, n as int, rs as int, start as int));
            assert(rs as int == record_start(start as int));
            if start >= 0x1000000 {
                let mut m = owned("IPS cannot address offset $");
                push_hex(&mut m, start as u64, 0, true);
                assert(ips_records(o, p, n as int, start as int) == Err::<Seq<u8>, nat>(start as nat));
                return Err(m);
            }
            let ghost before = body@;
            let len = i - rs;
            body.push((rs / 0x10000 % 0x100) as u8);
            body.push((rs / 0x100 % 0x100) as u8);
            body.push((rs % 0x100) as u8);
            body.push((len / 0x100 % 0x100) as u8);
            body.push((len % 0x100) as u8);
            push_bytes(&mut body, patched, rs, i);
            proof {
                let rec = be3(rs as nat) + be2(len as nat) + p.subrange(rs as int, i as int);
                assert(body@ =~= before + rec);
                match ips_records(o, p, n as int, i as int) {
                    Ok(rest) => {
                        assert(before + (rec + rest) =~= (before + rec) + rest);
                    },
                    Err(_) => {},
                }
            }
        }
    }
    let mut out: Vec<u8> = Vec::new();
    out.push(80u8);
    out.push(65u8);
    out.push(84u8);
    out.push(67u8);
    out.push(72u8);
    let body_len = body.len();
    push_bytes(&mut out, body.as_slice(), 0, body_len);
    out.push(69u8);
    out.push(79u8);
    out.push(70u8);
    proof {
        assert(ips_records(o, p, n as int, i as int) == Ok::<Seq<u8>, nat>(Seq::empty()));
        assert(body@ + Seq::<u8>::empty() =~= body@);
        assert(body@.subrange(0, body_len as int) =~= body@);
        assert(out@ =~= ips_magic() + body@ + ips_end());
    }
    Ok(out)
}

// ------------------------------------------------------------------ reading IPS records back

/// `data` with the records of `recs` written in order up to the `EOF` tag, as an IPS reader
/// reads them; `None` when the tag is missing, or a record is cut short, is empty or writes
/// past the end of `data`.
pub open spec fn apply_records(data: Seq<u8>, recs: Seq<u8>) -> Option<Seq<u8>>
    decreases recs.len(),
{
    if recs.len() < 3 {
        None
    } else if recs.take(3) == ips_end() {
        Some(data)
    } else if recs.len() < 5 {
        None
    } else {
        let off = recs[0] as int * 0x10000 + recs[1] as int * 0x100 + recs[2] as int;
        let len = recs[3] as int * 0x100 + recs[4] as int;
        if len == 0 || recs.len() < 5 + len || off + len > data.len() {
            None
        } else {
            apply_records(
                data.take(off) + recs.subrange(5, 5 + len) + data.skip(off + len),
                recs.skip(5 + len),
            )
        }
    }
}

proof fn lemma_be3(v: u32)
    by (bit_vector)
    requires
        v < 0x1000000,
    ensures
        (v / 0x10000 % 0x100) * 0x10000 + (v / 0x100 % 0x100) * 0x100 + v % 0x100 == v,
{
}

proof fn lemma_be2(v: u32)
    by (bit_vector)
    requires
        v <= 0xFFFF,
    ensures
        (v / 0x100 % 0x100) * 0x100 + v % 0x100 == v,
{
}

/// One record read back: it writes its bytes at its offset, then reading goes on after it.
proof fn lemma_apply_one(d: Seq<u8>, st: int, e: int, bytes: Seq<u8>, tail: Seq<u8>)
    requires
        0 <= st < e,
        e - st <= 0xFFFF,
        st < 0x1000000,
        st != eof_offset(),
        bytes.len() == e - st,
        e <= d.len(),
    ensures
        apply_records(d, be3(st as nat) + be2((e - st) as nat) + bytes + tail) == apply_records(
            d.take(st) + bytes + d.skip(e),
            tail,
        ),
{
    let recs = be3(st as nat) + be2((e - st) as nat) + bytes + tail;
    lemma_be3(st as u32);
    lemma_be2((e - st) as u32);
    assert(recs[0] == be3(st as nat)[0]);
    assert(recs[1] == be3(st as nat)[1]);
    assert(recs[2] == be3(st as nat)[2]);
    assert(recs[3] == be2((e - st) as nat)[0]);
    assert(recs[4] == be2((e - st) as nat)[1]);
    let off = recs[0] as int * 0x10000 + recs[1] as int * 0x100 + recs[2] as int;
    let len = recs[3] as int * 0x100 + recs[4] as int;
    assert(off == st);
    assert(len == e - st);
    assert(recs.take(3) != ips_end()) by {
        if recs.take(3) == ips_end() {
            assert(recs[0] == ips_end()[0]);
            assert(recs[1] == ips_end()[1]);
            assert(recs[2] == ips_end()[2]);
        }
    }
    assert(recs.subrange(5, 5 + len) =~= bytes);
    assert(recs.skip(5 + len) =~= tail);
}

#[verifier::rlimit(30)]
proof fn lemma_records_apply(o: Seq<u8>, p: Seq<u8>, n: int, i: int, d: Seq<u8>)
    requires
        0 <= i <= n,
        n <= o.len(),
        n <= p.len(),
        d.len() == o.len(),
        d.take(i) == p.take(i),
        d.skip(i) == o.skip(i),
        ips_records(o, p, n, i) is Ok,
    ensures
        apply_records(d, ips_records(o, p, n, i)->Ok_0 + ips_end()) == Some(p.take(n) + o.skip(n)),
    decreases n - i,
{
    if i >= n {
        assert(d =~= d.take(i) + d.skip(i));
        assert((Seq::<u8>::empty() + ips_end()).take(3) =~= ips_end());
        assert(ips_records(o, p, n, i)->Ok_0 + ips_end() =~= ips_end());
    } else if o[i] == p[i] {
        assert(d[i] == d.skip(i)[0]);
        assert(d.take(i + 1) =~= p.take(i + 1));
        assert(d.skip(i + 1) =~= o.skip(i + 1)) by {
            assert(d.skip(i + 1) =~= d.skip(i).skip(1));
            assert(o.skip(i + 1) =~= o.skip(i).skip(1));
        }
        lemma_records_apply(o, p, n, i + 1, d);
    } else {
        let st = record_start(i);
        let e = run_end(o, p, n, st, i);
        lemma_run_end(o, p, n, st, i);
        let rest = ips_records(o, p, n, e)->Ok_0;
        assert(ips_records(o, p, n, i)->Ok_0 + ips_end() == be3(st as nat) + be2((e - st) as nat)
            + p.subrange(st, e) + (rest + ips_end()));
        lemma_apply_one(d, st, e, p.subrange(st, e), rest + ips_end());
        let d2 = d.take(st) + p.subrange(st, e) + d.skip(e);
        assert(d2.take(e) =~= p.take(e)) by {
            assert(d.take(i) == p.take(i));
            assert forall|j: int| 0 <= j < e implies d2.take(e)[j] == p.take(e)[j] by {
                if j < st {
                    assert(d2[j] == d.take(i)[j]);
                    assert(p.take(i)[j] == p[j]);
                } else {
                    assert(d2[j] == p.subrange(st, e)[j - st]);
                }
            }
        }
        assert(d2.skip(e) =~= o.skip(e)) by {
            assert forall|j: int| 0 <= j < d2.len() - e implies d2.skip(e)[j] == o.skip(e)[j] by {
                assert(d2[e + j] == d.skip(e)[j]);
                assert(d.skip(e)[j] == d.skip(i)[e - i + j]);
                assert(o.skip(e)[j] == o.skip(i)[e - i + j]);
            }
        }
        lemma_records_apply(o, p, n, e, d2);
    }
}

/// Reading an IPS file back as an IPS reader does (records after `PATCH`, up to the `EOF`
/// tag) and applying it to the original gives the patched bytes over the compared length, and
/// the original's bytes after it: the whole patched image when both have the same length. No
/// record reads as the `EOF` tag, so no change is lost.
pub proof fn law_ips_round_trip(orig: Seq<u8>, patched: Seq<u8>)
    requires
        spec_ips(orig, patched) is Ok,
    ensures
        ({
            let out = spec_ips(orig, patched)->Ok_0;
            let n = common_len(orig, patched) as int;
            &&& out.len() >= 8
            &&& out.take(5) == ips_magic()
            &&& out.skip(out.len() - 3) == ips_end()
            &&& apply_records(orig, out.skip(5)) == Some(patched.take(n) + orig.skip(n))
            &&& orig.len() == patched.len() ==> apply_records(orig, out.skip(5)) == Some(patched)
        }),
{
    let n = common_len(orig, patched) as int;
    let b = ips_records(orig, patched, n, 0)->Ok_0;
    let out = ips_magic() + b + ips_end();
    assert(out.take(5) =~= ips_magic());
    assert(out.skip(out.len() - 3) =~= ips_end());
    assert(out.skip(5) =~= b + ips_end());
    assert(orig.take(0) =~= patched.take(0));
    assert(orig.skip(0) =~= orig);
    lemma_records_apply(orig, patched, n, 0, orig);
    if orig.len() == patched.len() {
        assert(patched.take(n) + orig.skip(n) =~= patched);
    }
}

} // verus!

verus! {

// ------------------------------------------------------------------ file names

/// The characters that a file label may not hold: each becomes a space.
pub open spec fn label_forbidden(c: char) -> bool {
    c == '<' || c == '>' || c == ':' || c == '"' || c == '/' || c == '\\' || c == '|' || c == '?'
        || c == '*' || c == '[' || c == ']'
}

pub open spec fn label_char(c: char) -> char {
    if label_forbidden(c) {
        ' '
    } else {
        c
    }
}

/// A label with its forbidden characters made spaces and its white space collapsed to single
/// spaces; `Modded` when nothing is left.
pub open spec fn spec_safe_label(s: Seq<char>) -> Seq<char> {
    let j = join(tokens(s.map_values(|c: char| label_char(c)), Class::Space), " "@);
    if j.len() == 0 {
        "Modded"@
    } else {
        j
    }
}

pub open spec fn not_label_forbidden() -> spec_fn(char) -> bool {
    |c: char| !label_forbidden(c)
}

/// The words of `v`, as runs free of white space.
fn words_joined(v: &Vec<char>) -> (r: Vec<char>)
    ensures
        r@ == join(tokens(v@, Class::Space), " "@),
{
    let runs = split_runs(v, Class::Space);
    let sep = chars_of(" ");
    let r = join_with(&runs, &sep);
    assert(runs@.map_values(|p: Vec<char>| p@) =~= tokens(v@, Class::Space));
    r
}

/// A label made safe for a file name: forbidden characters become spaces, white space
/// collapses, and an empty result becomes `Modded`.
pub fn safe_label(label: &str) -> (r: String)
    ensures
        r@ == spec_safe_label(label@),
        r@.len() > 0,
        forall|j: int| 0 <= j < r@.len() ==> !label_forbidden(#[trigger] r@[j]),
{
    let cs = chars_of(label);
    let mut mapped: Vec<char> = Vec::new();
    let mut i: usize = 0;
    while i < cs.len()
        invariant
            i <= cs@.len(),
            mapped@ == cs@.take(i as int).map_values(|c: char| label_char(c)),
        decreases cs.len() - i,
    {
        let c = cs[i];
        let m = if c == '<' || c == '>' || c == ':' || c == '"' || c == '/' || c == '\\' || c == '|'
            || c == '?' || c == '*' || c == '[' || c == ']' {
            ' '
        } else {
            c
        };
        mapped.push(m);
        i = i + 1;
        assert(mapped@ =~= cs@.take(i as int).map_values(|c: char| label_char(c)));
    }
    assert(cs@.take(cs@.len() as int) == cs@);
    let j = words_joined(&mapped);
    proof {
        let p = not_label_forbidden();
        assert(all_chars(mapped@, p));
        lemma_tokens_chars(mapped@, Class::Space, p);
        reveal_strlit(" ");
        assert(all_chars(" "@, p));
        lemma_join_chars(tokens(mapped@, Class::Space), " "@, p);
        reveal_strlit("Modded");
    }
    if j.len() == 0 {
        owned("Modded")
    } else {
        string_of(&j)
    }
}

/// The characters that a path component may not hold: each becomes a space.
pub open spec fn component_forbidden(c: char) -> bool {
    c == '/' || c == '\\' || c == ':' || c == '<' || c == '>' || c == '"' || c == '|' || c == '?'
        || c == '*'
}

pub open spec fn component_char(c: char) -> char {
    if component_forbidden(c) {
        ' '
    } else {
        c
    }
}

/// Control characters dropped and separators made spaces.
pub open spec fn component_chars(s: Seq<char>) -> Seq<char> {
    s.filter(|c: char| !spec_is_control(c)).map_values(|c: char| component_char(c))
}

/// One file-name component: separators become spaces, control characters are dropped,
/// white space collapses, and leading or trailing dots and spaces are trimmed; `None` when
/// nothing is left.
pub open spec fn spec_safe_component(s: Seq<char>) -> Option<Seq<char>> {
    let j = trim(join(tokens(component_chars(s), Class::Space), " "@), Class::DotOrSpace);
    if j.len() == 0 {
        None
    } else {
        Some(j)
    }
}

pub open spec fn component_ok() -> spec_fn(char) -> bool {
    |c: char| !component_forbidden(c) && !spec_is_control(c)
}

proof fn lemma_component_chars_ok(s: Seq<char>)
    ensures
        all_chars(component_chars(s), component_ok()),
    decreases s.len(),
{
    let f = s.filter(|c: char| !spec_is_control(c));
    assert forall|j: int| 0 <= j < f.len() implies !spec_is_control(#[trigger] f[j]) by {
        s.lemma_filter_pred(|c: char| !spec_is_control(c), j);
    }
}

/// A single file-name component made safe: see `spec_safe_component`. What comes back holds no
/// separator and no control character and neither starts nor ends with a dot or a space, so
/// it is never `.` or `..`.
pub fn safe_component(s: &str) -> (r: Option<String>)
    ensures
        opt_view(r) == spec_safe_component(s@),
        r matches Some(t) ==> {
            &&& t@.len() > 0
            &&& t@[0] != '.' && t@[0] != ' '
            &&& t@.last() != '.' && t@.last() != ' '
            &&& forall|j: int| 0 <= j < t@.len() ==> !component_forbidden(#[trigger] t@[j]) && !spec_is_control(t@[j])
        },
{
    let cs = chars_of(s);
    let mut mapped: Vec<char> = Vec::new();
    let mut i: usize = 0;
    while i < cs.len()
        invariant
            i <= cs@.len(),
            mapped@ == component_chars(cs@.take(i as int)),
        decreases cs.len() - i,
    {
        let c = cs[i];
        proof {
            assert(cs@.take(i + 1).drop_last() == cs@.take(i as int));
            reveal_with_fuel(Seq::filter, 1);
        }
        if !is_control(c) {
            let m = if c == '/' || c == '\\' || c == ':' || c == '<' || c == '>' || c == '"' || c
                == '|' || c == '?' || c == '*' {
                ' '
            } else {
                c
            };
            mapped.push(m);
            proof {
                let t = cs@.take(i + 1);
                let pr = |c: char| !spec_is_control(c);
                assert(t.filter(pr) == t.drop_last().filter(pr).push(c));
                assert(mapped@ =~= component_chars(t));
            }
        } else {
            proof {
                let t = cs@.take(i + 1);
                let pr = |c: char| !spec_is_control(c);
                assert(t.filter(pr) == t.drop_last().filter(pr));
            }
        }
        i = i + 1;
    }
    assert(cs@.take(cs@.len() as int) == cs@);
    let j = words_joined(&mapped);
    let t = trim_class(&j, Class::DotOrSpace);
    proof {
        let p = component_ok();
        lemma_component_chars_ok(cs@);
        lemma_tokens_chars(mapped@, Class::Space, p);
        reveal_strlit(" ");
        assert(all_chars(" "@, p));
        lemma_join_chars(tokens(mapped@, Class::Space), " "@, p);
        lemma_trim_chars(j@, Class::DotOrSpace, p);
    }
    if t.len() == 0 {
        None
    } else {
        Some(string_of(&t))
    }
}

} // verus!

verus! {

// ------------------------------------------------------------------ patching an image

/// The writes applied in order to `d`, or the offset of the first that runs past its end.
pub open spec fn apply_ops(d: Seq<u8>, ops: Seq<OpView>) -> Result<Seq<u8>, usize>
    decreases ops.len(),
{
    if ops.len() == 0 {
        Ok(d)
    } else {
        let o = ops[0];
        if o.0 + o.2.len() > d.len() {
            Err(o.0)
        } else {
            apply_ops(d.take(o.0 as int) + o.2 + d.skip(o.0 + o.2.len()), ops.drop_first())
        }
    }
}

/// The image with its header checksum rewritten as its platform wants, and the checksum
/// before and after.
pub open spec fn fixed_image(h: HeaderView, d: Seq<u8>) -> (Seq<u8>, Option<(u16, u16)>) {
    match h {
        HeaderView::Genesis(_) => {
            let s = genesis::spec_compute_checksum(d);
            (genesis::with_checksum(d, s), Some((genesis::be16(d[0x18E], d[0x18F]), s)))
        },
        HeaderView::Snes(sh) => {
            let s = snes::spec_compute_checksum(
                d.skip(sh.copier_header as int),
                (sh.header_at - sh.copier_header) as nat,
            );
            (snes::with_checksum(d, sh.header_at as nat, s), Some((sh.checksum, s)))
        },
        HeaderView::Nes(_) => (d, None),
    }
}

/// How many of the first `n` bytes differ between `a` and `b`.
pub open spec fn count_diff(a: Seq<u8>, b: Seq<u8>, n: int) -> nat
    decreases n,
{
    if n <= 0 {
        0
    } else {
        count_diff(a, b, n - 1) + if a[n - 1] != b[n - 1] {
            1nat
        } else {
            0nat
        }
    }
}

/// A patched image and what goes with it.
#[derive(Debug)]
pub struct Patched {
    pub data: Vec<u8>,
    pub ips: Vec<u8>,
    pub changed_bytes: usize,
    /// The header checksum before and after, as four upper-case hex digits each.
    pub checksum: Option<(String, String)>,
    /// SHA-1 of the patched image, in lower-case hex.
    pub sha1: String,
}

pub struct PatchedView {
    pub data: Seq<u8>,
    pub ips: Seq<u8>,
    pub changed_bytes: nat,
    pub checksum: Option<(Seq<char>, Seq<char>)>,
    pub sha1: Seq<char>,
}

impl View for Patched {
    type V = PatchedView;

    open spec fn view(&self) -> PatchedView {
        PatchedView {
            data: self.data@,
            ips: self.ips@,
            changed_bytes: self.changed_bytes as nat,
            checksum: match self.checksum {
                Some((a, b)) => Some((a@, b@)),
                None => None,
            },
            sha1: self.sha1@,
        }
    }
}

pub open spec fn past_end_msg(off: usize) -> Seq<char> {
    "patch at $"@ + hex_text(off as nat, 6, true) + " runs past the end of the ROM"@
}

/// What patching `d` (with header `h`) with `ops` gives: refused when there is nothing to
/// write, a write runs past the end or the IPS cannot address a change.
pub open spec fn spec_patch(h: HeaderView, d: Seq<u8>, ops: Seq<OpView>) -> Result<PatchedView, Seq<char>> {
    if ops.len() == 0 {
        Err("nothing to patch"@)
    } else {
        match apply_ops(d, ops) {
            Err(off) => Err(past_end_msg(off)),
            Ok(written) => {
                let (out, sums) = fixed_image(h, written);
                match spec_ips(d, out) {
                    Err(e) => Err(e),
                    Ok(p) => Ok(
                        PatchedView {
                            data: out,
                            ips: p,
                            changed_bytes: count_diff(d, out, common_len(d, out) as int),
                            checksum: match sums {
                                Some((a, b)) => Some(
                                    (hex_text(a as nat, 4, true), hex_text(b as nat, 4, true)),
                                ),
                                None => None,
                            },
                            sha1: crate::rom::hex_bytes(crate::hashes::sha1_of(out)),
                        },
                    ),
                }
            },
        }
    }
}

/// Writes `new` over `d` at `off`.
fn write_at(d: &mut Vec<u8>, off: usize, new: &Vec<u8>)
    requires
        off + new@.len() <= old(d)@.len(),
    ensures
        final(d)@ == old(d)@.take(off as int) + new@ + old(d)@.skip(off + new@.len()),
{
    let ghost start = d@;
    let mut j: usize = 0;
    while j < new.len()
        invariant
            j <= new@.len(),
            off + new@.len() <= start.len(),
            d@.len() == start.len(),
            forall|k: int| 0 <= k < off ==> d@[k] == start[k],
            forall|k: int| 0 <= k < j ==> d@[off + k] == new@[k],
            forall|k: int| off + j <= k < start.len() ==> d@[k] == start[k],
        decreases new.len() - j,
    {
        assert(off + j < d.len());
        d.set(off + j, new[j]);
        j = j + 1;
    }
    assert(d@ =~= start.take(off as int) + new@ + start.skip(off + new@.len()));
}

fn checksum_text(v: u16) -> (r: String)
    ensures
        r@ == hex_text(v as nat, 4, true),
{
    let mut s = String::new();
    push_hex(&mut s, v as u64, 4, true);
    s
}

/// Applies the writes to a copy of the image, fixes its header checksum, and builds the IPS
/// file from the original to the result.
pub fn patch_image(rom: &Rom, ops: &[RomOp]) -> (r: Result<Patched, String>)
    requires
        rom_ok(rom),
    ensures
        match spec_patch(rom.header@, rom.data@, ops_view(ops@)) {
            Ok(pv) => r matches Ok(p) && p@ == pv,
            Err(e) => r matches Err(x) && x@ == e,
        },
{
    if ops.len() == 0 {
        return Err(owned("nothing to patch"));
    }
    let ghost all = ops_view(ops@);
    let mut data = rom.data.clone();
    let mut k: usize = 0;
    assert(all.skip(0) == all);
    while k < ops.len()
        invariant
            k <= ops@.len(),
            all == ops_view(ops@),
            data@.len() == rom.data@.len(),
            apply_ops(rom.data@, all) == apply_ops(data@, all.skip(k as int)),
        decreases ops.len() - k,
    {
        let o = &ops[k];
        assert(all.skip(k as int)[0] == o@);
        assert(all.skip(k as int).drop_first() == all.skip(k + 1));
        if o.new.len() > data.len() || o.offset > data.len() - o.new.len() {
            let mut m = owned("patch at $");
            push_hex(&mut m, o.offset as u64, 6, true);
            push_str(&mut m, " runs past the end of the ROM");
            return Err(m);
        }
        write_at(&mut data, o.offset, &o.new);
        k = k + 1;
    }
    assert(all.skip(ops@.len() as int).len() == 0);
    let ghost written = data@;
    let checksum: Option<(String, String)> = match &rom.header {
        Header::Genesis(_) => {
            let (a, b) = genesis::fix_checksum(&mut data);
            Some((checksum_text(a), checksum_text(b)))
        },
        Header::Snes(h) => {
            let (a, b) = snes::fix_checksum(&mut data, h);
            Some((checksum_text(a), checksum_text(b)))
        },
        Header::Nes(_) => None,
    };
    assert(data@ == fixed_image(rom.header@, written).0);
    let ips_bytes = match ips(rom.data.as_slice(), data.as_slice()) {
        Ok(b) => b,
        Err(e) => {
            return Err(e);
        },
    };
    let n = if rom.data.len() < data.len() {
        rom.data.len()
    } else {
        data.len()
    };
    let mut changed: usize = 0;
    let mut i: usize = 0;
    while i < n
        invariant
            i <= n,
            n <= rom.data@.len(),
            n <= data@.len(),
            changed == count_diff(rom.data@, data@, i as int),
            changed <= i,
        decreases n - i,
    {
        if rom.data[i] != data[i] {
            changed = changed + 1;
        }
        i = i + 1;
    }
    let digest = crate::hashes::sha1_digest(data.as_slice());
    let sha1 = crate::rom::hex(digest.as_slice());
    Ok(Patched { data, ips: ips_bytes, changed_bytes: changed, checksum, sha1 })
}

// ------------------------------------------------------------------ what the writes leave behind

proof fn lemma_apply_keeps_front(d: Seq<u8>, ops: Seq<OpView>, q: int)
    requires
        0 <= q <= d.len(),
        forall|i: int| 0 <= i < ops.len() ==> (#[trigger] ops[i]).0 >= q,
        apply_ops(d, ops) is Ok,
    ensures
        apply_ops(d, ops)->Ok_0.take(q) == d.take(q),
    decreases ops.len(),
{
    if ops.len() > 0 {
        let o = ops[0];
        let d1 = d.take(o.0 as int) + o.2 + d.skip(o.0 + o.2.len());
        let rest = ops.drop_first();
        assert forall|i: int| 0 <= i < rest.len() implies (#[trigger] rest[i]).0 >= q by {
            assert(rest[i] == ops[i + 1]);
        }
        lemma_apply_keeps_front(d1, rest, q);
        assert(d1.take(q) =~= d.take(q));
    }
}

/// Writes that fit the image and do not overlap, in order of offset (as `collect_ops` returns
/// them), all land: none is refused, the length stays, and afterwards each write's new bytes
/// stand at its offset.
pub proof fn law_writes_land(d: Seq<u8>, ops: Seq<OpView>)
    requires
        fits(ops, d.len()),
        forall|a: int, b: int| #![trigger ops[a], ops[b]] 0 <= a < b < ops.len() ==> ops[a].0 + ops[a].2.len() <= ops[b].0,
    ensures
        apply_ops(d, ops) is Ok,
        apply_ops(d, ops)->Ok_0.len() == d.len(),
        forall|k: int| 0 <= k < ops.len() ==> apply_ops(d, ops)->Ok_0.subrange(
            (#[trigger] ops[k]).0 as int,
            ops[k].0 + ops[k].2.len(),
        ) == ops[k].2,
    decreases ops.len(),
{
    lemma_apply_len_ok(d, ops);
    if ops.len() > 0 {
        let o = ops[0];
        assert(o.0 + o.2.len() <= d.len());
        let d1 = d.take(o.0 as int) + o.2 + d.skip(o.0 + o.2.len());
        let rest = ops.drop_first();
        assert forall|i: int| 0 <= i < rest.len() implies (#[trigger] rest[i]).0 + rest[i].2.len() <= d1.len() by {
            assert(rest[i] == ops[i + 1]);
        }
        assert forall|a: int, b: int| #![trigger rest[a], rest[b]] 0 <= a < b < rest.len() implies rest[a].0
            + rest[a].2.len() <= rest[b].0 by {
            assert(rest[a] == ops[a + 1]);
            assert(rest[b] == ops[b + 1]);
        }
        law_writes_land(d1, rest);
        let out = apply_ops(d1, rest)->Ok_0;
        let e = o.0 + o.2.len();
        assert forall|i: int| 0 <= i < rest.len() implies (#[trigger] rest[i]).0 >= e by {
            assert(rest[i] == ops[i + 1]);
            assert(ops[0].0 + ops[0].2.len() <= ops[i + 1].0);
        }
        lemma_apply_keeps_front(d1, rest, e);
        assert forall|k: int| 0 <= k < ops.len() implies out.subrange(
            (#[trigger] ops[k]).0 as int,
            ops[k].0 + ops[k].2.len(),
        ) == ops[k].2 by {
            if k == 0 {
                assert forall|j: int| 0 <= j < o.2.len() implies out.subrange(o.0 as int, e)[j] == o.2[j] by {
                    assert(out.take(e)[o.0 + j] == d1.take(e)[o.0 + j]);
                    assert(d1[o.0 + j] == o.2[j]);
                }
                assert(out.subrange(o.0 as int, e) =~= o.2);
            } else {
                assert(ops[k] == rest[k - 1]);
            }
        }
    }
}

proof fn lemma_apply_len_ok(d: Seq<u8>, ops: Seq<OpView>)
    requires
        fits(ops, d.len()),
    ensures
        apply_ops(d, ops) is Ok,
        apply_ops(d, ops)->Ok_0.len() == d.len(),
    decreases ops.len(),
{
    if ops.len() > 0 {
        let o = ops[0];
        let d1 = d.take(o.0 as int) + o.2 + d.skip(o.0 + o.2.len());
        let rest = ops.drop_first();
        assert forall|i: int| 0 <= i < rest.len() implies (#[trigger] rest[i]).0 + rest[i].2.len() <= d1.len() by {
            assert(rest[i] == ops[i + 1]);
        }
        lemma_apply_len_ok(d1, rest);
    }
}

} // verus!

verus! {

// ------------------------------------------------------------------ output files

/// What a build reports: where the files went and what changed.
#[derive(Clone, Debug)]
pub struct BuildResult {
    pub rom_path: String,
    pub ips_path: String,
    pub changed_bytes: usize,
    pub ops: Vec<RomOp>,
    pub checksum: Option<(String, String)>,
    pub sha1: String,
}

/// The names of the files a build writes.
#[derive(Debug)]
pub struct OutputNames {
    /// The patched image: a `.zip` when the source came from an archive.
    pub rom_file: String,
    /// The name of the image inside that archive (and of the plain file otherwise).
    pub entry_file: String,
    pub ips_file: String,
}

/// `<name> [<label>]`, the stem every output file shares.
pub open spec fn output_base(name: Seq<char>, label: Seq<char>) -> Seq<char> {
    name + " ["@ + spec_safe_label(label) + "]"@
}

/// The output file names for an image and a label: `<name> [<label>].<ext>` (or `.zip` for
/// an archived source) and `<name> [<label>].ips`.
pub fn output_names(rom: &Rom, label: &str) -> (r: OutputNames)
    ensures
        r.entry_file@ == output_base(rom.name@, label@) + "."@ + rom.ext@,
        r.rom_file@ == if rom.entry.is_some() {
            output_base(rom.name@, label@) + ".zip"@
        } else {
            r.entry_file@
        },
        r.ips_file@ == output_base(rom.name@, label@) + ".ips"@,
{
    let mut base = rom.name.clone();
    push_str(&mut base, " [");
    let l = safe_label(label);
    push_str(&mut base, l.as_str());
    push_str(&mut base, "]");
    let mut entry_file = base.clone();
    push_str(&mut entry_file, ".");
    push_str(&mut entry_file, rom.ext.as_str());
    let mut ips_file = base.clone();
    push_str(&mut ips_file, ".ips");
    let rom_file = if rom.entry.is_some() {
        let mut z = base.clone();
        push_str(&mut z, ".zip");
        z
    } else {
        entry_file.clone()
    };
    OutputNames { rom_file, entry_file, ips_file }
}

// ------------------------------------------------------------------ RetroArch cheat files

/// A RetroArch cheat file: the core's folder, the file name and the text.
#[derive(Debug)]
pub struct ChtFile {
    pub core_dir: String,
    pub file_name: String,
    pub text: String,
}

/// Double quotes become single quotes, so a description cannot end its quoted value.
pub open spec fn unquote(s: Seq<char>) -> Seq<char> {
    s.map_values(|c: char| if c == '"' {
        '\''
    } else {
        c
    })
}

/// The lines for cheat number `i`.
pub open spec fn cht_entry(i: nat, desc: Seq<char>, code: Seq<char>) -> Seq<char> {
    "cheat"@ + dec(i) + "_desc = \""@ + unquote(desc) + "\"\ncheat"@ + dec(i) + "_code = \""@ + code
        + "\"\ncheat"@ + dec(i) + "_enable = true\n\n"@
}

/// The entries for the first `k` cheats.
pub open spec fn cht_entries(cs: Seq<(String, String)>, k: int) -> Seq<char>
    decreases k,
{
    if k <= 0 {
        Seq::empty()
    } else {
        cht_entries(cs, k - 1) + cht_entry((k - 1) as nat, cs[k - 1].0@, cs[k - 1].1@)
    }
}

/// The whole cheat file: the count, then each cheat enabled.
pub open spec fn cht_text(cs: Seq<(String, String)>) -> Seq<char> {
    "cheats = "@ + dec(cs.len()) + "\n\n"@ + cht_entries(cs, cs.len() as int)
}

/// The cheat file for `cheats` under `<core>/<content>.cht`: refused when there are no
/// cheats, or the core or content name leaves nothing usable as a file name.
pub open spec fn spec_retroarch_cht(core: Seq<char>, content: Seq<char>, cs: Seq<(String, String)>) -> Result<
    (Seq<char>, Seq<char>, Seq<char>),
    Seq<char>,
> {
    if cs.len() == 0 {
        Err("no cheats selected"@)
    } else {
        match spec_safe_component(core) {
            None => Err("invalid core name"@),
            Some(c) => match spec_safe_component(content) {
                None => Err("invalid content name"@),
                Some(n) => Ok((c, n + ".cht"@, cht_text(cs))),
            },
        }
    }
}

fn push_unquoted(s: &mut String, t: &str)
    ensures
        final(s)@ == old(s)@ + unquote(t@),
{
    let cs = chars_of(t);
    let ghost start = s@;
    let mut i: usize = 0;
    while i < cs.len()
        invariant
            i <= cs@.len(),
            s@ == start + unquote(cs@.take(i as int)),
        decreases cs.len() - i,
    {
        let c = cs[i];
        if c == '"' {
            crate::text::push_char(s, '\'');
        } else {
            crate::text::push_char(s, c);
        }
        i = i + 1;
        assert(unquote(cs@.take(i as int)) =~= unquote(cs@.take(i - 1)).push(if c == '"' {
            '\''
        } else {
            c
        }));
    }
    assert(cs@.take(cs@.len() as int) == cs@);
}

/// Builds a RetroArch cheat file for the given cheats: see `spec_retroarch_cht`.
pub fn retroarch_cht(core: &str, content_name: &str, cheats: &[(String, String)]) -> (r: Result<ChtFile, String>)
    ensures
        match spec_retroarch_cht(core@, content_name@, cheats@) {
            Ok((c, n, t)) => r matches Ok(f) && f.core_dir@ == c && f.file_name@ == n && f.text@ == t,
            Err(e) => r matches Err(x) && x@ == e,
        },
{
    if cheats.len() == 0 {
        return Err(owned("no cheats selected"));
    }
    let core_dir = match safe_component(core) {
        Some(c) => c,
        None => {
            return Err(owned("invalid core name"));
        },
    };
    let mut file_name = match safe_component(content_name) {
        Some(n) => n,
        None => {
            return Err(owned("invalid content name"));
        },
    };
    push_str(&mut file_name, ".cht");
    let mut text = owned("cheats = ");
    push_dec(&mut text, cheats.len() as u64);
    push_str(&mut text, "\n\n");
    let ghost head = text@;
    let mut i: usize = 0;
    while i < cheats.len()
        invariant
            i <= cheats@.len(),
            text@ == head + cht_entries(cheats@, i as int),
        decreases cheats.len() - i,
    {
        let ghost before = text@;
        push_str(&mut text, "cheat");
        push_dec(&mut text, i as u64);
        push_str(&mut text, "_desc = \"");
        push_unquoted(&mut text, cheats[i].0.as_str());
        push_str(&mut text, "\"\ncheat");
        push_dec(&mut text, i as u64);
        push_str(&mut text, "_code = \"");
        push_str(&mut text, cheats[i].1.as_str());
        push_str(&mut text, "\"\ncheat");
        push_dec(&mut text, i as u64);
        push_str(&mut text, "_enable = true\n\n");
        assert(text@ =~= before + cht_entry(i as nat, cheats@[i as int].0@, cheats@[i as int].1@));
        i = i + 1;
    }
    Ok(ChtFile { core_dir, file_name, text })
}

} // verus!

verus! {

/// Each write an operation of one or two bytes (as every decoded operation is) resolves to
/// replaces the image's own bytes at its offset with the operation's value; a RAM operation
/// resolves to no write; and a note is added to those about where the operation lands
/// exactly when there are writes and every one leaves the image unchanged: it says the image
/// already holds these bytes.
pub proof fn law_resolve_writes(h: HeaderView, d: Seq<u8>, op: Op)
    requires
        codes::op_small(op),
    ensures
        ({
            let (ops, notes) = spec_resolve(h, d, op);
            &&& forall|i: int| 0 <= i < ops.len() ==> (#[trigger] ops[i]).1 == d.subrange(
                ops[i].0 as int,
                ops[i].0 + ops[i].2.len(),
            )
            &&& forall|i: int| 0 <= i < ops.len() ==> match op {
                Op::Rom { value, width, .. } => (#[trigger] ops[i]).2 == new_bytes(value, width),
                Op::Ram { .. } => false,
            }
            &&& (op is Ram ==> ops.len() == 0)
            &&& (ops.len() > 0 && all_noop(ops) ==> notes.len() > 0 && notes.last()
                == "ROM already contains these bytes"@)
            &&& (op matches Op::Rom { cpu_addr, width, compare, .. } ==> (notes.len()
                > target_offsets(h, d, cpu_addr, width as nat, compare).1.len() <==> ops.len() > 0
                && all_noop(ops)))
        }),
{
    match op {
        Op::Rom { cpu_addr, value, width, compare } => {
            let (offs, notes) = target_offsets(h, d, cpu_addr, width as nat, compare);
            let keep = |o: usize| o + width as nat <= d.len();
            let nb = new_bytes(value, width);
            let ops = ops_at(offs, d, width as nat, nb);
            assert(nb.len() == width as nat);
            assert forall|i: int| 0 <= i < ops.len() implies (#[trigger] ops[i]).1 == d.subrange(
                ops[i].0 as int,
                ops[i].0 + ops[i].2.len(),
            ) by {
                offs.lemma_filter_pred(keep, i);
            }
        },
        Op::Ram { .. } => {},
    }
}

} // verus!

verus! {

// ------------------------------------------------------------------ what collecting keeps

/// The writes of the parts, in order.
pub open spec fn parts_writes(ps: Seq<DecodedView>) -> Seq<OpView>
    decreases ps.len(),
{
    if ps.len() == 0 {
        Seq::empty()
    } else {
        ps[0].rom_ops + parts_writes(ps.drop_first())
    }
}

/// The writes of every part of every code, in order.
pub open spec fn code_writes(rom: &Rom, codes: Seq<Seq<char>>) -> Seq<OpView>
    decreases codes.len(),
{
    if codes.len() == 0 {
        Seq::empty()
    } else {
        parts_writes(spec_decode(rom, codes[0])) + code_writes(rom, codes.drop_first())
    }
}

/// No part refuses: each decodes without error and can be written.
pub open spec fn parts_accepted(ps: Seq<DecodedView>) -> bool {
    forall|j: int| 0 <= j < ps.len() ==> (#[trigger] ps[j]).error is None && ps[j].patchable
}

proof fn lemma_gather_parts(ps: Seq<DecodedView>)
    ensures
        gather_parts(ps) is Ok <==> parts_accepted(ps),
        gather_parts(ps) is Ok ==> gather_parts(ps)->Ok_0 == parts_writes(ps),
    decreases ps.len(),
{
    if ps.len() > 0 {
        let r = ps.drop_first();
        lemma_gather_parts(r);
        assert(parts_accepted(ps) <==> (ps[0].error is None && ps[0].patchable && parts_accepted(r))) by {
            if parts_accepted(ps) {
                assert forall|j: int| 0 <= j < r.len() implies (#[trigger] r[j]).error is None && r[j].patchable by {
                    assert(r[j] == ps[j + 1]);
                }
            }
            if ps[0].error is None && ps[0].patchable && parts_accepted(r) {
                assert forall|j: int| 0 <= j < ps.len() implies (#[trigger] ps[j]).error is None && ps[j].patchable by {
                    if j > 0 {
                        assert(ps[j] == r[j - 1]);
                    }
                }
            }
        }
    }
}

proof fn lemma_gather_codes(rom: &Rom, codes: Seq<Seq<char>>)
    ensures
        gather_codes(rom, codes) is Ok <==> forall|i: int| 0 <= i < codes.len() ==> parts_accepted(
            spec_decode(rom, #[trigger] codes[i]),
        ),
        gather_codes(rom, codes) is Ok ==> gather_codes(rom, codes)->Ok_0 == code_writes(rom, codes),
    decreases codes.len(),
{
    if codes.len() > 0 {
        let r = codes.drop_first();
        lemma_gather_codes(rom, r);
        lemma_gather_parts(spec_decode(rom, codes[0]));
        assert((forall|i: int| 0 <= i < codes.len() ==> parts_accepted(spec_decode(rom, #[trigger] codes[i])))
            <==> (parts_accepted(spec_decode(rom, codes[0])) && forall|i: int| 0 <= i < r.len() ==> parts_accepted(
            spec_decode(rom, #[trigger] r[i]),
        ))) by {
            assert forall|i: int| 0 <= i < r.len() implies #[trigger] r[i] == codes[i + 1] by {}
            if parts_accepted(spec_decode(rom, codes[0])) && forall|i: int| 0 <= i < r.len() ==> parts_accepted(
                spec_decode(rom, #[trigger] r[i]),
            ) {
                assert forall|i: int| 0 <= i < codes.len() implies parts_accepted(spec_decode(rom, #[trigger] codes[i])) by {
                    if i > 0 {
                        assert(codes[i] == r[i - 1]);
                    }
                }
            }
        }
    }
}

proof fn lemma_insert_contains(s: Seq<OpView>, x: OpView)
    ensures
        forall|y: OpView| #[trigger] insert_by_offset(s, x).contains(y) <==> (s.contains(y) || y == x),
    decreases s.len(),
{
    let r = insert_by_offset(s, x);
    if s.len() > 0 && s.last().0 > x.0 {
        let t = s.drop_last();
        lemma_insert_contains(t, x);
        let it = insert_by_offset(t, x);
        assert forall|y: OpView| #[trigger] r.contains(y) <==> (s.contains(y) || y == x) by {
            if r.contains(y) {
                let k = choose|k: int| 0 <= k < r.len() && r[k] == y;
                if k < it.len() {
                    assert(it[k] == y);
                    assert(it.contains(y));
                    if t.contains(y) {
                        let m = choose|m: int| 0 <= m < t.len() && t[m] == y;
                        assert(s[m] == y);
                    }
                } else {
                    assert(s[s.len() - 1] == y);
                }
            }
            if s.contains(y) {
                let m = choose|m: int| 0 <= m < s.len() && s[m] == y;
                if m < s.len() - 1 {
                    assert(t[m] == y);
                    assert(it.contains(y));
                    let k = choose|k: int| 0 <= k < it.len() && it[k] == y;
                    assert(r[k] == y);
                } else {
                    assert(r[r.len() - 1] == y);
                }
            }
            if y == x {
                assert(it.contains(x));
                let k = choose|k: int| 0 <= k < it.len() && it[k] == x;
                assert(r[k] == x);
            }
        }
    } else {
        assert forall|y: OpView| #[trigger] r.contains(y) <==> (s.contains(y) || y == x) by {
            if r.contains(y) {
                let k = choose|k: int| 0 <= k < r.len() && r[k] == y;
                if k < s.len() {
                    assert(s[k] == y);
                }
            }
            if s.contains(y) {
                let m = choose|m: int| 0 <= m < s.len() && s[m] == y;
                assert(r[m] == y);
            }
            if y == x {
                assert(r[r.len() - 1] == x);
            }
        }
    }
}

proof fn lemma_sort_contains(s: Seq<OpView>)
    ensures
        forall|y: OpView| #[trigger] sort_by_offset(s).contains(y) <==> s.contains(y),
    decreases s.len(),
{
    if s.len() > 0 {
        let t = s.drop_last();
        lemma_sort_contains(t);
        lemma_insert_contains(sort_by_offset(t), s.last());
        assert forall|y: OpView| #[trigger] sort_by_offset(s).contains(y) <==> s.contains(y) by {
            if t.contains(y) {
                let m = choose|m: int| 0 <= m < t.len() && t[m] == y;
                assert(s[m] == y);
            }
            if s.contains(y) {
                let m = choose|m: int| 0 <= m < s.len() && s[m] == y;
                if m < s.len() - 1 {
                    assert(t[m] == y);
                }
            }
            assert(s[s.len() - 1] == s.last());
        }
    }
}

proof fn lemma_dedup_contains(s: Seq<OpView>)
    ensures
        forall|y: OpView| #[trigger] dedup(s).contains(y) <==> s.contains(y),
    decreases s.len(),
{
    if s.len() > 1 {
        let t = s.drop_last();
        lemma_dedup_contains(t);
        let d = dedup(t);
        assert forall|y: OpView| #[trigger] dedup(s).contains(y) <==> s.contains(y) by {
            if t.contains(y) {
                let m = choose|m: int| 0 <= m < t.len() && t[m] == y;
                assert(s[m] == y);
            }
            if s.contains(y) {
                let m = choose|m: int| 0 <= m < s.len() && s[m] == y;
                if m < s.len() - 1 {
                    assert(t[m] == y);
                } else if s.last() == s[s.len() - 2] {
                    assert(t[s.len() - 2] == y);
                }
            }
            if s.last() != s[s.len() - 2] {
                let r = d.push(s.last());
                if r.contains(y) {
                    let k = choose|k: int| 0 <= k < r.len() && r[k] == y;
                    if k < d.len() {
                        assert(d[k] == y);
                    } else {
                        assert(s[s.len() - 1] == y);
                    }
                }
                if d.contains(y) {
                    let k = choose|k: int| 0 <= k < d.len() && d[k] == y;
                    assert(r[k] == y);
                }
                if y == s.last() {
                    assert(r[r.len() - 1] == y);
                }
            }
        }
    }
}

/// When collecting succeeds, every part of every code decoded without error and can be
/// written, and the writes returned are exactly the writes of all the parts (in order of
/// offset, each once).
pub proof fn law_collect_accepts_parts(rom: &Rom, codes: Seq<Seq<char>>)
    requires
        spec_collect_ops(rom, codes) is Ok,
    ensures
        forall|i: int| 0 <= i < codes.len() ==> parts_accepted(spec_decode(rom, #[trigger] codes[i])),
        forall|x: OpView| #[trigger] spec_collect_ops(rom, codes)->Ok_0.contains(x) <==> code_writes(
            rom,
            codes,
        ).contains(x),
{
    lemma_gather_codes(rom, codes);
    let all = gather_codes(rom, codes)->Ok_0;
    lemma_sort_contains(all);
    lemma_dedup_contains(sort_by_offset(all));
}

/// Collecting refuses exactly when some part refuses, or two of the writes overlap once sorted
/// by offset with repeats dropped; with no codes it returns no writes.
pub proof fn law_collect_refusals(rom: &Rom, codes: Seq<Seq<char>>)
    ensures
        spec_collect_ops(rom, codes) is Err <==> (exists|i: int|
            0 <= i < codes.len() && !parts_accepted(spec_decode(rom, #[trigger] codes[i])))
            || overlap_from(dedup(sort_by_offset(code_writes(rom, codes))), 0, 0) is Some,
        codes.len() == 0 ==> spec_collect_ops(rom, codes) == Ok::<Seq<OpView>, Seq<char>>(Seq::empty()),
{
    lemma_gather_codes(rom, codes);
    if codes.len() == 0 {
        assert(dedup(sort_by_offset(Seq::<OpView>::empty())) == Seq::<OpView>::empty());
    }
}

} // verus!

verus! {

/// A safe file-name component holds no white space but single spaces: no other white-space
/// character, and never two spaces side by side.
pub proof fn law_component_single_spaces(s: Seq<char>)
    ensures
        spec_safe_component(s) matches Some(t) ==> crate::text::no_double_space(t),
        spec_safe_component(s) matches Some(t) ==> forall|j: int|
            0 <= j < t.len() && crate::text::spec_is_ws(#[trigger] t[j]) ==> t[j] == ' ',
{
    let kept = component_chars(s);
    let ts = tokens(kept, Class::Space);
    crate::text::lemma_tokens_runs(kept, Class::Space);
    assert forall|i: int| 0 <= i < ts.len() implies (#[trigger] ts[i]).len() > 0 && all_chars(
        ts[i],
        |c: char| c != ' ',
    ) by {
        assert(crate::text::run_ok(ts[i], Class::Space));
        assert forall|j: int| 0 <= j < ts[i].len() implies (|c: char| c != ' ')(#[trigger] ts[i][j]) by {
            assert(!in_class_space(ts[i][j]));
        }
    }
    crate::text::lemma_join_single_spaces(ts);
    crate::text::lemma_trim_keeps_single_spaces(join(ts, " "@), Class::DotOrSpace);
    let p = |c: char| c == ' ' || !crate::text::spec_is_ws(c);
    assert forall|i: int| 0 <= i < ts.len() implies all_chars(#[trigger] ts[i], p) by {
        assert(crate::text::run_ok(ts[i], Class::Space));
        assert forall|j: int| 0 <= j < ts[i].len() implies p(#[trigger] ts[i][j]) by {
            assert(!in_class_space(ts[i][j]));
        }
    }
    reveal_strlit(" ");
    assert(all_chars(" "@, p));
    crate::text::lemma_join_chars(ts, " "@, p);
    crate::text::lemma_trim_chars(join(ts, " "@), Class::DotOrSpace, p);
    let t = trim(join(ts, " "@), Class::DotOrSpace);
    assert forall|j: int| 0 <= j < t.len() && crate::text::spec_is_ws(#[trigger] t[j]) implies t[j] == ' ' by {
        assert(p(t[j]));
    }
}

spec fn in_class_space(c: char) -> bool {
    crate::text::in_class(Class::Space, c)
}

} // verus!

verus! {

// ------------------------------------------------------------------ the records of an IPS file

/// The `(start, end)` of each IPS record for the differing bytes from `i` up to `n`, in the
/// order `ips_records` writes them.
pub open spec fn ips_runs(o: Seq<u8>, p: Seq<u8>, n: int, i: int) -> Seq<(int, int)>
    decreases n - i,
{
    if i < 0 || i >= n {
        Seq::empty()
    } else if o[i] == p[i] {
        ips_runs(o, p, n, i + 1)
    } else if i >= 0x1000000 {
        Seq::empty()
    } else {
        let st = record_start(i);
        let e = run_end(o, p, n, st, i);
        proof {
            lemma_run_end(o, p, n, st, i);
        }
        seq![(st, e)] + ips_runs(o, p, n, e)
    }
}

/// The bytes of records: each a three-byte offset, a two-byte length and the patched bytes.
pub open spec fn encode_runs(p: Seq<u8>, runs: Seq<(int, int)>) -> Seq<u8>
    decreases runs.len(),
{
    if runs.len() == 0 {
        Seq::empty()
    } else {
        be3(runs[0].0 as nat) + be2((runs[0].1 - runs[0].0) as nat) + p.subrange(runs[0].0, runs[0].1)
            + encode_runs(p, runs.drop_first())
    }
}

proof fn lemma_runs_encode(o: Seq<u8>, p: Seq<u8>, n: int, i: int)
    requires
        ips_records(o, p, n, i) is Ok,
    ensures
        ips_records(o, p, n, i)->Ok_0 == encode_runs(p, ips_runs(o, p, n, i)),
    decreases n - i,
{
    if i >= 0 && i < n {
        if o[i] == p[i] {
            lemma_runs_encode(o, p, n, i + 1);
        } else if i < 0x1000000 {
            let st = record_start(i);
            let e = run_end(o, p, n, st, i);
            lemma_run_end(o, p, n, st, i);
            lemma_runs_encode(o, p, n, e);
            let r = seq![(st, e)] + ips_runs(o, p, n, e);
            assert(r[0] == (st, e));
            assert(r.drop_first() =~= ips_runs(o, p, n, e));
        }
    }
}

proof fn lemma_runs_props(o: Seq<u8>, p: Seq<u8>, n: int, i: int)
    requires
        0 <= i <= n,
        n <= o.len(),
        n <= p.len(),
        ips_records(o, p, n, i) is Ok,
    ensures
        ({
            let r = ips_runs(o, p, n, i);
            &&& forall|k: int| 0 <= k < r.len() ==> 0 <= (#[trigger] r[k]).0 && r[k].0 < r[k].1 <= n
                && r[k].1 - r[k].0 <= 0xFFFF && r[k].0 != eof_offset() && i - 1 <= r[k].0
            &&& forall|k: int| 0 < k < r.len() ==> r[k - 1].0 < (#[trigger] r[k]).0
            &&& r.len() > 0 && r[0].0 < i ==> i == eof_offset() && i < n && o[i] != p[i]
            &&& forall|x: int| i <= x < n && o[x] != p[x] ==> exists|k: int|
                0 <= k < r.len() && (#[trigger] r[k]).0 <= x < r[k].1
            &&& forall|k: int, x: int| #![trigger r[k], o[x]] 0 <= k < r.len() && r[k].0 <= x < r[k].1
                ==> o[x] != p[x] || x == eof_offset() - 1
        }),
    decreases n - i,
{
    let r = ips_runs(o, p, n, i);
    if i < n {
        if o[i] == p[i] {
            lemma_runs_props(o, p, n, i + 1);
            assert forall|x: int| i <= x < n && o[x] != p[x] implies exists|k: int|
                0 <= k < r.len() && (#[trigger] r[k]).0 <= x < r[k].1 by {
                assert(x >= i + 1);
            }
        } else if i < 0x1000000 {
            let st = record_start(i);
            let e = run_end(o, p, n, st, i);
            lemma_run_end(o, p, n, st, i);
            lemma_runs_props(o, p, n, e);
            let rest = ips_runs(o, p, n, e);
            assert(r == seq![(st, e)] + rest);
            assert(r[0] == (st, e));
            assert forall|k: int| 0 < k < r.len() implies #[trigger] r[k] == rest[k - 1] by {}
            assert forall|k: int| 0 < k < r.len() implies r[k - 1].0 < (#[trigger] r[k]).0 by {
                if k == 1 {
                    if rest[0].0 < e {
                        assert(e - st == 0xFFFF);
                    }
                } else {
                    assert(r[k - 1] == rest[k - 2]);
                }
            }
            assert forall|x: int| i <= x < n && o[x] != p[x] implies exists|k: int|
                0 <= k < r.len() && (#[trigger] r[k]).0 <= x < r[k].1 by {
                if x >= e {
                    let k = choose|k: int| 0 <= k < rest.len() && (#[trigger] rest[k]).0 <= x < rest[k].1;
                    assert(r[k + 1] == rest[k]);
                } else {
                    assert(r[0].0 <= x < r[0].1);
                }
            }
            assert forall|k: int, x: int| #![trigger r[k], o[x]] 0 <= k < r.len() && r[k].0 <= x < r[k].1
                implies o[x] != p[x] || x == eof_offset() - 1 by {
                if k > 0 {
                    assert(r[k] == rest[k - 1]);
                }
            }
        }
    }
}

/// An IPS file is `PATCH`, its records and `EOF`. The records come in strictly increasing
/// order of offset, each of 1 to 0xFFFF bytes inside the compared length, none at the offset
/// that reads as `EOF`. They cover every differing byte, and every byte they cover differs
/// except the one before that offset, which a record may start at to avoid it.
pub proof fn law_ips_records(orig: Seq<u8>, patched: Seq<u8>)
    requires
        spec_ips(orig, patched) is Ok,
    ensures
        ({
            let n = common_len(orig, patched) as int;
            let r = ips_runs(orig, patched, n, 0);
            &&& spec_ips(orig, patched)->Ok_0 == ips_magic() + encode_runs(patched, r) + ips_end()
            &&& forall|k: int| 0 <= k < r.len() ==> 0 <= (#[trigger] r[k]).0 && r[k].0 < r[k].1 <= n
                && r[k].1 - r[k].0 <= 0xFFFF && r[k].0 != eof_offset()
            &&& forall|k: int| 0 < k < r.len() ==> r[k - 1].0 < (#[trigger] r[k]).0
            &&& forall|x: int| 0 <= x < n && orig[x] != patched[x] ==> exists|k: int|
                0 <= k < r.len() && (#[trigger] r[k]).0 <= x < r[k].1
            &&& forall|k: int, x: int| #![trigger r[k], orig[x]] 0 <= k < r.len() && r[k].0 <= x < r[k].1
                ==> orig[x] != patched[x] || x == eof_offset() - 1
        }),
{
    let n = common_len(orig, patched) as int;
    lemma_runs_encode(orig, patched, n, 0);
    lemma_runs_props(orig, patched, n, 0);
}

} // verus!

verus! {

// ------------------------------------------------------------------ the checksum of a patched image

proof fn lemma_apply_ops_len(d: Seq<u8>, ops: Seq<OpView>)
    requires
        apply_ops(d, ops) is Ok,
    ensures
        apply_ops(d, ops)->Ok_0.len() == d.len(),
    decreases ops.len(),
{
    if ops.len() > 0 {
        let o = ops[0];
        let d2 = d.take(o.0 as int) + o.2 + d.skip(o.0 + o.2.len());
        lemma_apply_ops_len(d2, ops.drop_first());
    }
}

/// A patched image is the image with the writes applied and, for Super NES and Mega Drive,
/// its header checksum made right: the stored checksum is what recomputing it over the
/// returned image gives (with a matching complement on Super NES, whose header lies in the
/// power-of-two part of the image as in every standard layout), and every other byte is the
/// written one. The checksum pair reports the checksum found before and the one stored now.
/// NES images are returned as written, with no checksum.
pub proof fn law_patch_checksum(h: HeaderView, d: Seq<u8>, ops: Seq<OpView>)
    requires
        spec_patch(h, d, ops) is Ok,
        h matches HeaderView::Snes(sh) ==> sh.copier_header <= sh.header_at && sh.header_at + 0x40
            <= d.len() && sh.header_at + 0x20 <= sh.copier_header + snes::pow2_floor(
            (d.len() - sh.copier_header) as nat,
        ),
        h matches HeaderView::Genesis(_) ==> d.len() >= 0x200,
    ensures
        ({
            let pv = spec_patch(h, d, ops)->Ok_0;
            let w = apply_ops(d, ops)->Ok_0;
            &&& pv.data.len() == d.len()
            &&& match h {
                HeaderView::Nes(_) => pv.checksum is None && pv.data == w,
                HeaderView::Snes(sh) => {
                    let at = sh.header_at as int;
                    let c = snes::le16(pv.data[at + 0x1E], pv.data[at + 0x1F]);
                    &&& c == snes::spec_compute_checksum(
                        pv.data.skip(sh.copier_header as int),
                        (sh.header_at - sh.copier_header) as nat,
                    )
                    &&& snes::le16(pv.data[at + 0x1C], pv.data[at + 0x1D]) ^ c == 0xFFFF
                    &&& pv.checksum == Some((hex_text(sh.checksum as nat, 4, true), hex_text(c as nat, 4, true)))
                    &&& forall|i: int| 0 <= i < d.len() && !(at + 0x1C <= i < at + 0x20) ==> #[trigger] pv.data[i] == w[i]
                },
                HeaderView::Genesis(_) => {
                    let c = genesis::be16(pv.data[0x18E], pv.data[0x18F]);
                    &&& c == genesis::spec_compute_checksum(pv.data)
                    &&& pv.checksum == Some((hex_text(genesis::be16(w[0x18E], w[0x18F]) as nat, 4, true), hex_text(c as nat, 4, true)))
                    &&& forall|i: int| 0 <= i < d.len() && i != 0x18E && i != 0x18F ==> #[trigger] pv.data[i] == w[i]
                },
            }
        }),
{
    lemma_apply_ops_len(d, ops);
    let w = apply_ops(d, ops)->Ok_0;
    match h {
        HeaderView::Snes(sh) => {
            snes::law_fixed_checksum_verifies(w, sh.copier_header as nat, sh.header_at as nat);
        },
        HeaderView::Genesis(_) => {
            genesis::law_fixed_checksum_verifies(w);
        },
        HeaderView::Nes(_) => {},
    }
}

} // verus!
