//! The text the command line prints: a ROM's report and each decoded part of a code.
use vstd::prelude::*;
use crate::codes::Op;
use crate::number::hex_text;
use crate::patch::{Decoded, DecodedView, OpView};
use crate::rom::{human_size, spec_human_size, Rom, RomInfoView};
use crate::text::{join, owned, push_char, push_hex, push_str, to_lowercase, unicode_lower};

verus! {

broadcast use vstd::string::group_string_axioms;

/// `s` padded with spaces on the right to at least `w` characters (the `{:<w}` format).
pub open spec fn pad_right(s: Seq<char>, w: nat) -> Seq<char> {
    if s.len() >= w {
        s
    } else {
        s + Seq::new((w - s.len()) as nat, |i: int| ' ')
    }
}

/// Appends `t` padded with spaces on the right to `w` characters.
fn push_padded(s: &mut String, t: &str, w: usize)
    ensures
        final(s)@ == old(s)@ + pad_right(t@, w as nat),
{
    let cs = crate::text::chars_of(t);
    push_str(s, t);
    if cs.len() < w {
        let ghost before = s@;
        let mut k: usize = cs.len();
        while k < w
            invariant
                cs@.len() <= k <= w,
                s@ == before + Seq::new((k - cs@.len()) as nat, |i: int| ' '),
            decreases w - k,
        {
            push_char(s, ' ');
            k = k + 1;
            assert(s@ =~= before + Seq::new((k - cs@.len()) as nat, |i: int| ' '));
        }
    }
}

/// Bytes as two upper-case hex digits each, separated by spaces.
pub open spec fn spec_hexs(b: Seq<u8>) -> Seq<char> {
    join(b.map_values(|x: u8| hex_text(x as nat, 2, true)), " "@)
}

/// Writes bytes as upper-case hex pairs separated by spaces.
pub fn hexs(b: &[u8]) -> (r: String)
    ensures
        r@ == spec_hexs(b@),
{
    let mut s = String::new();
    let mut i: usize = 0;
    while i < b.len()
        invariant
            i <= b@.len(),
            s@ == join(b@.take(i as int).map_values(|x: u8| hex_text(x as nat, 2, true)), " "@),
        decreases b.len() - i,
    {
        let ghost parts = b@.take(i + 1).map_values(|x: u8| hex_text(x as nat, 2, true));
        assert(parts.drop_last() == b@.take(i as int).map_values(|x: u8| hex_text(x as nat, 2, true)));
        if i > 0 {
            push_str(&mut s, " ");
        }
        push_hex(&mut s, b[i] as u64, 2, true);
        i = i + 1;
        proof {
            reveal_strlit(" ");
            if i == 1 {
                assert(s@ =~= parts[0]);
            }
        }
    }
    assert(b@.take(b@.len() as int) == b@);
    s
}

/// Twelve spaces: the indent under a part's raw text.
pub open spec fn indent() -> Seq<char> {
    Seq::new(12, |i: int| ' ')
}

/// The raw text and the format of a part, in their columns.
pub open spec fn head_text(p: DecodedView) -> Seq<char> {
    pad_right(p.raw, 12) + " "@ + pad_right(p.format, 18)
}

pub open spec fn compare_text(c: Option<u8>) -> Seq<char> {
    match c {
        Some(v) => " if $"@ + hex_text(v as nat, 2, true),
        None => Seq::empty(),
    }
}

/// The line for one write: its file offset, the bytes there and the new bytes.
pub open spec fn write_line(o: OpView) -> Seq<char> {
    indent() + " file $"@ + hex_text(o.0 as nat, 6, true) + ": "@ + spec_hexs(o.1) + " -> "@ + spec_hexs(o.2)
}

/// The lines for what a part decodes to: the operation, then each write into the image.
pub open spec fn op_lines(p: DecodedView) -> Seq<Seq<char>> {
    match p.op {
        Some(Op::Ram { addr, value, width }) => seq![
            head_text(p) + " RAM $"@ + hex_text(addr as nat, 6, true) + " = $"@ + hex_text(
                value as nat,
                (width * 2) as nat,
                true,
            ) + "  (runtime cheat)"@,
        ],
        Some(Op::Rom { cpu_addr, value, width, compare }) => seq![
            head_text(p) + " $"@ + hex_text(cpu_addr as nat, 6, true) + " = $"@ + hex_text(
                value as nat,
                (width * 2) as nat,
                true,
            ) + compare_text(compare),
        ] + p.rom_ops.map_values(|o: OpView| write_line(o)),
        None => Seq::empty(),
    }
}

/// The lines printed for a decoded part: its error, or what it decodes to and its notes.
pub open spec fn spec_part_lines(p: DecodedView) -> Seq<Seq<char>> {
    match p.error {
        Some(e) => seq![head_text(p) + " error: "@ + e],
        None => op_lines(p) + p.notes.map_values(|n: Seq<char>| indent() + " "@ + n),
    }
}

fn head_of(p: &Decoded) -> (r: String)
    ensures
        r@ == head_text(p@),
{
    let mut s = String::new();
    push_padded(&mut s, p.raw.as_str(), 12);
    push_str(&mut s, " ");
    push_padded(&mut s, p.format.as_str(), 18);
    s
}

fn indent_text() -> (r: String)
    ensures
        r@ == indent(),
{
    let mut s = String::new();
    push_padded(&mut s, "", 12);
    proof {
        reveal_strlit("");
    }
    assert(s@ =~= indent());
    s
}

/// The lines the command line prints for a decoded part (see `spec_part_lines`).
pub fn part_lines(p: &Decoded) -> (r: Vec<String>)
    ensures
        r@.map_values(|s: String| s@) == spec_part_lines(p@),
{
    let mut out: Vec<String> = Vec::new();
    match &p.error {
        Some(e) => {
            let mut s = head_of(p);
            push_str(&mut s, " error: ");
            push_str(&mut s, e.as_str());
            out.push(s);
            assert(out@.map_values(|s: String| s@) =~= spec_part_lines(p@));
            return out;
        },
        None => {},
    }
    match &p.op {
        Some(Op::Ram { addr, value, width }) => {
            let mut s = head_of(p);
            push_str(&mut s, " RAM $");
            push_hex(&mut s, *addr as u64, 6, true);
            push_str(&mut s, " = $");
            push_hex(&mut s, *value as u64, (*width as usize) * 2, true);
            push_str(&mut s, "  (runtime cheat)");
            out.push(s);
            assert(out@.map_values(|s: String| s@) =~= op_lines(p@));
        },
        Some(Op::Rom { cpu_addr, value, width, compare }) => {
            let mut s = head_of(p);
            push_str(&mut s, " $");
            push_hex(&mut s, *cpu_addr as u64, 6, true);
            push_str(&mut s, " = $");
            push_hex(&mut s, *value as u64, (*width as usize) * 2, true);
            match compare {
                Some(c) => {
                    push_str(&mut s, " if $");
                    push_hex(&mut s, *c as u64, 2, true);
                },
                None => {},
            }
            assert(s@ == head_text(p@) + " $"@ + hex_text(*cpu_addr as nat, 6, true) + " = $"@ + hex_text(
                *value as nat,
                (*width * 2) as nat,
                true,
            ) + compare_text(*compare));
            out.push(s);
            let mut k: usize = 0;
            while k < p.rom_ops.len()
                invariant
                    k <= p.rom_ops@.len(),
                    out@.len() == 1 + k,
                    forall|j: int| 0 <= j < k ==> (#[trigger] out@[j + 1])@ == write_line(p.rom_ops@[j]@),
                    out@[0]@ == s@,
                decreases p.rom_ops.len() - k,
            {
                let o = &p.rom_ops[k];
                let mut l = indent_text();
                push_str(&mut l, " file $");
                push_hex(&mut l, o.offset as u64, 6, true);
                push_str(&mut l, ": ");
                let a = hexs(o.old.as_slice());
                push_str(&mut l, a.as_str());
                push_str(&mut l, " -> ");
                let b = hexs(o.new.as_slice());
                push_str(&mut l, b.as_str());
                out.push(l);
                k = k + 1;
            }
            let ghost head = seq![s@];
            assert(out@.map_values(|s: String| s@) =~= head + p@.rom_ops.map_values(|o: OpView| write_line(o))) by {
                assert forall|j: int| 0 <= j < p@.rom_ops.len() implies out@[j + 1]@ == write_line(
                    p@.rom_ops[j],
                ) by {
                    assert(p@.rom_ops[j] == p.rom_ops@[j]@);
                }
            }
            assert(out@.map_values(|s: String| s@) =~= op_lines(p@));
        },
        None => {
            assert(out@.map_values(|s: String| s@) =~= op_lines(p@));
        },
    }
    let ghost firsts = out@.map_values(|s: String| s@);
    let ghost n0 = out@.len();
    let mut j: usize = 0;
    while j < p.notes.len()
        invariant
            j <= p.notes@.len(),
            n0 == firsts.len(),
            firsts == op_lines(p@),
            out@.len() == n0 + j,
            forall|m: int| 0 <= m < n0 ==> (#[trigger] out@[m])@ == firsts[m],
            forall|m: int| 0 <= m < j ==> (#[trigger] out@[n0 + m])@ == indent() + " "@ + p.notes@[m]@,
        decreases p.notes.len() - j,
    {
        let mut l = indent_text();
        push_str(&mut l, " ");
        push_str(&mut l, p.notes[j].as_str());
        out.push(l);
        j = j + 1;
    }
    proof {
        assert(out@.map_values(|s: String| s@) =~= op_lines(p@) + p@.notes.map_values(
            |n: Seq<char>| indent() + " "@ + n,
        )) by {
            assert forall|m: int| 0 <= m < p@.notes.len() implies out@[n0 + m]@ == indent() + " "@
                + p@.notes[m] by {
                assert(p@.notes[m] == p.notes@[m]@);
            }
        }
    }
    out
}

} // verus!

verus! {

// ------------------------------------------------------------------ a ROM's report

pub open spec fn checksum_line(c: (Seq<char>, Seq<char>, bool)) -> Seq<char> {
    "  checksum   "@ + c.0 + " ("@ + (if c.2 {
        "valid"@
    } else {
        "mismatch, computed "@ + c.1
    }) + ")"@
}

pub open spec fn field_line(f: (Seq<char>, Seq<char>)) -> Seq<char> {
    "  "@ + pad_right(unicode_lower(f.0), 10) + " "@ + f.1
}

pub open spec fn note_line(n: Seq<char>) -> Seq<char> {
    "  note       "@ + n
}

/// The lines before the checksum: name, platform, title and region when known, size and digests.
pub open spec fn info_head(name: Seq<char>, label: Seq<char>, i: RomInfoView) -> Seq<Seq<char>> {
    seq![name, "  platform   "@ + label] + (if i.title.len() > 0 {
        seq!["  title      "@ + i.title]
    } else {
        Seq::empty()
    }) + (if i.region.len() > 0 {
        seq!["  region     "@ + i.region]
    } else {
        Seq::empty()
    }) + seq![
        "  size       "@ + spec_human_size(i.size as nat),
        "  sha1       "@ + i.sha1,
        "  crc32      "@ + i.crc32,
    ]
}

/// The lines the command line prints about an image.
pub open spec fn spec_info_lines(name: Seq<char>, label: Seq<char>, i: RomInfoView) -> Seq<Seq<char>> {
    info_head(name, label, i) + (match i.checksum {
        Some(c) => seq![checksum_line(c)],
        None => Seq::empty(),
    }) + i.fields.map_values(|f: (Seq<char>, Seq<char>)| field_line(f)) + i.notes.map_values(
        |n: Seq<char>| note_line(n),
    )
}

pub open spec fn texts(v: Seq<String>) -> Seq<Seq<char>> {
    v.map_values(|s: String| s@)
}

fn line_with(prefix: &str, t: &str) -> (r: String)
    ensures
        r@ == prefix@ + t@,
{
    let mut s = owned(prefix);
    push_str(&mut s, t);
    s
}

/// The report the command line prints about an image (see `spec_info_lines`).
pub fn info_lines(r: &Rom) -> (out: Vec<String>)
    ensures
        texts(out@) == spec_info_lines(r.name@, r.platform.spec_label(), r.info@),
{
    let i = &r.info;
    let mut out: Vec<String> = Vec::new();
    out.push(r.name.clone());
    out.push(line_with("  platform   ", r.platform.label()));
    let ghost a = texts(out@);
    if crate::text::chars_of(i.title.as_str()).len() > 0 {
        out.push(line_with("  title      ", i.title.as_str()));
    }
    let ghost b = texts(out@);
    assert(b =~= a + (if i@.title.len() > 0 {
        seq!["  title      "@ + i@.title]
    } else {
        Seq::<Seq<char>>::empty()
    }));
    if crate::text::chars_of(i.region.as_str()).len() > 0 {
        out.push(line_with("  region     ", i.region.as_str()));
    }
    let ghost c = texts(out@);
    assert(c =~= b + (if i@.region.len() > 0 {
        seq!["  region     "@ + i@.region]
    } else {
        Seq::<Seq<char>>::empty()
    }));
    let hs = human_size(i.size);
    out.push(line_with("  size       ", hs.as_str()));
    out.push(line_with("  sha1       ", i.sha1.as_str()));
    out.push(line_with("  crc32      ", i.crc32.as_str()));
    assert(texts(out@) =~= info_head(r.name@, r.platform.spec_label(), i@));
    let ghost h = texts(out@);
    match &i.checksum {
        Some(ck) => {
            let mut s = owned("  checksum   ");
            push_str(&mut s, ck.stored.as_str());
            push_str(&mut s, " (");
            if ck.valid {
                push_str(&mut s, "valid");
            } else {
                push_str(&mut s, "mismatch, computed ");
                push_str(&mut s, ck.computed.as_str());
            }
            push_str(&mut s, ")");
            assert(s@ == checksum_line(ck@));
            let ghost before = texts(out@);
            out.push(s);
            assert(texts(out@) =~= before.push(checksum_line(ck@)));
        },
        None => {},
    }
    let ghost m = texts(out@);
    assert(m =~= h + match i@.checksum {
        Some(c) => seq![checksum_line(c)],
        None => Seq::<Seq<char>>::empty(),
    });
    let mut k: usize = 0;
    while k < i.fields.len()
        invariant
            k <= i.fields@.len(),
            texts(out@) == m + i@.fields.take(k as int).map_values(|f: (Seq<char>, Seq<char>)| field_line(f)),
        decreases i.fields.len() - k,
    {
        let f = &i.fields[k];
        let mut s = owned("  ");
        let low = to_lowercase(f.label.as_str());
        push_padded(&mut s, low.as_str(), 10);
        push_str(&mut s, " ");
        push_str(&mut s, f.value.as_str());
        let ghost before = texts(out@);
        out.push(s);
        assert(i@.fields[k as int] == f@);
        assert(i@.fields.take(k + 1) == i@.fields.take(k as int).push(i@.fields[k as int]));
        assert(texts(out@) =~= before.push(field_line(i@.fields[k as int])));
        k = k + 1;
    }
    assert(i@.fields.take(i@.fields.len() as int) == i@.fields);
    let ghost fl = texts(out@);
    let mut j: usize = 0;
    while j < i.notes.len()
        invariant
            j <= i.notes@.len(),
            texts(out@) == fl + i@.notes.take(j as int).map_values(|n: Seq<char>| note_line(n)),
        decreases i.notes.len() - j,
    {
        let s = line_with("  note       ", i.notes[j].as_str());
        let ghost before = texts(out@);
        out.push(s);
        assert(i@.notes[j as int] == i.notes@[j as int]@);
        assert(i@.notes.take(j + 1) == i@.notes.take(j as int).push(i@.notes[j as int]));
        assert(texts(out@) =~= before.push(note_line(i@.notes[j as int])));
        j = j + 1;
    }
    assert(i@.notes.take(i@.notes.len() as int) == i@.notes);
    out
}

} // verus!
