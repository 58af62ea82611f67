//! What the workbench's API decides: how a cheat is classified, how a typed line splits into a
//! label and a code, and which database file a ROM's cheats come from.
use vstd::prelude::*;
use crate::cheatdb::{DbCheat, Match, opt_text};
use crate::codes::Op;
use crate::patch::{decode, spec_decode, Decoded, DecodedView, gather_codes, gather_parts, refusal, after};
use crate::rom::{Rom, rom_resolvable};
use crate::text::{chars_of, string_of, trim, trim_class, find_char, lemma_find_char, position, Class};

verus! {

broadcast use vstd::string::group_string_axioms;

// ------------------------------------------------------------------ classifying a cheat

/// A cheat as the workbench shows it: its decoded parts and what can be done with it.
#[derive(Debug)]
pub struct CheatView {
    pub desc: String,
    pub code: String,
    pub parts: Vec<Decoded>,
    /// Every part can be written into the image.
    pub patchable: bool,
    /// Some part writes work RAM at run time.
    pub runtime: bool,
    /// A part does not decode, or a ROM write finds no place in this image.
    pub broken: bool,
    /// Patchable, and the image already holds every byte.
    pub noop: bool,
}

pub open spec fn is_ram(p: DecodedView) -> bool {
    p.op matches Some(Op::Ram { .. })
}

pub open spec fn is_rom(p: DecodedView) -> bool {
    p.op matches Some(Op::Rom { .. })
}

pub open spec fn spec_runtime(ps: Seq<DecodedView>) -> bool {
    exists|i: int| 0 <= i < ps.len() && is_ram(#[trigger] ps[i])
}

pub open spec fn spec_broken(ps: Seq<DecodedView>) -> bool {
    ps.len() == 0 || exists|i: int|
        0 <= i < ps.len() && ((#[trigger] ps[i]).error is Some || (is_rom(ps[i]) && !ps[i].patchable))
}

pub open spec fn spec_patchable(ps: Seq<DecodedView>) -> bool {
    !spec_broken(ps) && !spec_runtime(ps) && forall|i: int| 0 <= i < ps.len() ==> (#[trigger] ps[i]).patchable
}

pub open spec fn spec_noop(ps: Seq<DecodedView>) -> bool {
    spec_patchable(ps) && forall|i: int| 0 <= i < ps.len() ==> (#[trigger] ps[i]).noop
}

pub open spec fn parts_view(v: Seq<Decoded>) -> Seq<DecodedView> {
    v.map_values(|p: Decoded| p@)
}

/// Decodes a cheat against the image and says what can be done with it.
pub fn classify(rom: &Rom, desc: &str, code: &str) -> (r: CheatView)
    requires
        rom_resolvable(rom),
    ensures
        r.desc@ == desc@,
        r.code@ == code@,
        parts_view(r.parts@) == spec_decode(rom, code@),
        r.runtime == spec_runtime(spec_decode(rom, code@)),
        r.broken == spec_broken(spec_decode(rom, code@)),
        r.patchable == spec_patchable(spec_decode(rom, code@)),
        r.noop == spec_noop(spec_decode(rom, code@)),
{
    let parts = decode(rom, code);
    let ghost ps = parts_view(parts@);
    assert(ps =~= spec_decode(rom, code@));
    let mut runtime = false;
    let mut broken = parts.len() == 0;
    let mut all_patchable = true;
    let mut all_noop = true;
    let mut i: usize = 0;
    while i < parts.len()
        invariant
            i <= parts@.len(),
            ps == parts_view(parts@),
            runtime == exists|j: int| 0 <= j < i && is_ram(#[trigger] ps[j]),
            broken == (ps.len() == 0 || exists|j: int|
                0 <= j < i && ((#[trigger] ps[j]).error is Some || (is_rom(ps[j]) && !ps[j].patchable))),
            all_patchable == forall|j: int| 0 <= j < i ==> (#[trigger] ps[j]).patchable,
            all_noop == forall|j: int| 0 <= j < i ==> (#[trigger] ps[j]).noop,
        decreases parts.len() - i,
    {
        let p = &parts[i];
        assert(ps[i as int] == p@);
        let ram = match &p.op {
            Some(Op::Ram { .. }) => true,
            _ => false,
        };
        let rom_op = match &p.op {
            Some(Op::Rom { .. }) => true,
            _ => false,
        };
        if ram {
            runtime = true;
        }
        if p.error.is_some() || (rom_op && !p.patchable) {
            broken = true;
        }
        if !p.patchable {
            all_patchable = false;
        }
        if !p.noop {
            all_noop = false;
        }
        i = i + 1;
    }
    let patchable = !broken && !runtime && all_patchable;
    let noop = patchable && all_noop;
    CheatView {
        desc: string_of(&chars_of(desc)),
        code: string_of(&chars_of(code)),
        parts,
        patchable,
        runtime,
        broken,
        noop,
    }
}

/// A cheat that is patchable is neither broken nor a run-time cheat, and one that changes
/// nothing is patchable.
pub proof fn law_classes_exclusive(ps: Seq<DecodedView>)
    ensures
        spec_patchable(ps) ==> !spec_broken(ps) && !spec_runtime(ps),
        spec_noop(ps) ==> spec_patchable(ps),
{
}

/// Every part of a patchable cheat passes the checks that building makes: collecting the
/// writes of that one code refuses none of its parts.
pub proof fn law_patchable_builds(rom: &Rom, code: Seq<char>)
    requires
        spec_patchable(spec_decode(rom, code)),
    ensures
        gather_codes(rom, seq![code]) is Ok,
{
    let ps = spec_decode(rom, code);
    assert forall|i: int| 0 <= i < ps.len() implies (#[trigger] ps[i]).patchable && ps[i].error is None by {
        if ps[i].error is Some {
            assert(spec_broken(ps));
        }
    }
    lemma_parts_accepted(ps);
    let cs = seq![code];
    assert(cs[0] == code);
    assert(cs.drop_first().len() == 0);
    assert(gather_codes(rom, cs.drop_first()) == Ok::<Seq<crate::patch::OpView>, Seq<char>>(Seq::empty()));
}

proof fn lemma_parts_accepted(ps: Seq<DecodedView>)
    requires
        forall|i: int| 0 <= i < ps.len() ==> (#[trigger] ps[i]).patchable && ps[i].error is None,
    ensures
        gather_parts(ps) is Ok,
    decreases ps.len(),
{
    if ps.len() > 0 {
        assert(ps[0].patchable && ps[0].error is None);
        assert(refusal(ps[0]) is None);
        let rest = ps.drop_first();
        assert forall|i: int| 0 <= i < rest.len() implies (#[trigger] rest[i]).patchable && rest[i].error is None by {
            assert(rest[i] == ps[i + 1]);
        }
        lemma_parts_accepted(rest);
    }
}

// ------------------------------------------------------------------ typed lines

/// A typed line split into a label and a code at its first `=`, each trimmed; a line without
/// `=` is both.
pub open spec fn spec_split_label(line: Seq<char>) -> (Seq<char>, Seq<char>) {
    let l = trim(line, Class::Space);
    match find_char(l, '=') {
        Some(e) => (trim(l.take(e), Class::Space), trim(l.skip(e + 1), Class::Space)),
        None => (l, l),
    }
}

fn slice_chars_of(v: &Vec<char>, from: usize, to: usize) -> (r: Vec<char>)
    requires
        from <= to <= v@.len(),
    ensures
        r@ == v@.subrange(from as int, to as int),
{
    let mut r: Vec<char> = Vec::new();
    let mut i: usize = from;
    while i < to
        invariant
            from <= i <= to <= v@.len(),
            r@ == v@.subrange(from as int, i as int),
        decreases to - i,
    {
        r.push(v[i]);
        i = i + 1;
    }
    r
}

/// Splits `label = code` (see `spec_split_label`).
pub fn split_label(line: &str) -> (r: (String, String))
    ensures
        (r.0@, r.1@) == spec_split_label(line@),
{
    let cs = chars_of(line);
    let l = trim_class(&cs, Class::Space);
    match position(&l, '=') {
        Some(e) => {
            proof {
                lemma_find_char(l@, '=');
            }
            assert(e < l.len());
            let a = slice_chars_of(&l, 0, e);
            let b = slice_chars_of(&l, e + 1, l.len());
            assert(a@ == l@.take(e as int));
            assert(b@ == l@.skip(e + 1));
            (string_of(&trim_class(&a, Class::Space)), string_of(&trim_class(&b, Class::Space)))
        },
        None => (string_of(&l), string_of(&l)),
    }
}

pub open spec fn split_lines(lines: Seq<String>) -> Seq<(Seq<char>, Seq<char>)> {
    lines.map_values(|l: String| spec_split_label(l@))
}

/// The typed lines that carry a code, split into label and code, in order.
pub open spec fn coded_lines(lines: Seq<String>) -> Seq<(Seq<char>, Seq<char>)> {
    split_lines(lines).filter(|lc: (Seq<char>, Seq<char>)| lc.1.len() > 0)
}

pub open spec fn views_of(v: Seq<CheatView>) -> Seq<(Seq<char>, Seq<char>)> {
    v.map_values(|c: CheatView| (c.desc@, c.code@))
}

/// Classifies each typed line that carries a code.
pub fn decode_lines(rom: &Rom, lines: &[String]) -> (r: Vec<CheatView>)
    requires
        rom_resolvable(rom),
    ensures
        views_of(r@) == coded_lines(lines@),
        forall|i: int| 0 <= i < r@.len() ==> parts_view((#[trigger] r@[i]).parts@) == spec_decode(rom, r@[i].code@)
            && r@[i].patchable == spec_patchable(spec_decode(rom, r@[i].code@))
            && r@[i].runtime == spec_runtime(spec_decode(rom, r@[i].code@))
            && r@[i].broken == spec_broken(spec_decode(rom, r@[i].code@))
            && r@[i].noop == spec_noop(spec_decode(rom, r@[i].code@)),
{
    let ghost sl = split_lines(lines@);
    let ghost keep = |lc: (Seq<char>, Seq<char>)| lc.1.len() > 0;
    let mut out: Vec<CheatView> = Vec::new();
    let mut i: usize = 0;
    while i < lines.len()
        invariant
            i <= lines@.len(),
            rom_resolvable(rom),
            sl == split_lines(lines@),
            keep == |lc: (Seq<char>, Seq<char>)| lc.1.len() > 0,
            views_of(out@) == sl.take(i as int).filter(keep),
            forall|k: int| 0 <= k < out@.len() ==> parts_view((#[trigger] out@[k]).parts@) == spec_decode(rom, out@[k].code@)
                && out@[k].patchable == spec_patchable(spec_decode(rom, out@[k].code@))
                && out@[k].runtime == spec_runtime(spec_decode(rom, out@[k].code@))
                && out@[k].broken == spec_broken(spec_decode(rom, out@[k].code@))
                && out@[k].noop == spec_noop(spec_decode(rom, out@[k].code@)),
        decreases lines.len() - i,
    {
        proof {
            assert(sl.take(i + 1).drop_last() == sl.take(i as int));
            reveal_with_fuel(Seq::filter, 1);
        }
        let (desc, code) = split_label(lines[i].as_str());
        assert(sl[i as int] == (desc@, code@));
        let n = chars_of(code.as_str()).len();
        if n > 0 {
            let c = classify(rom, desc.as_str(), code.as_str());
            let ghost before = views_of(out@);
            out.push(c);
            assert(views_of(out@) =~= before.push(sl[i as int]));
        }
        i = i + 1;
    }
    assert(sl.take(lines@.len() as int) == sl);
    out
}

/// Classifies each cheat of the database, in order.
pub fn classify_all(rom: &Rom, cheats: &[DbCheat]) -> (r: Vec<CheatView>)
    requires
        rom_resolvable(rom),
    ensures
        views_of(r@) == cheats@.map_values(|c: DbCheat| c@),
        forall|i: int| 0 <= i < r@.len() ==> parts_view((#[trigger] r@[i]).parts@) == spec_decode(rom, r@[i].code@)
            && r@[i].patchable == spec_patchable(spec_decode(rom, r@[i].code@))
            && r@[i].runtime == spec_runtime(spec_decode(rom, r@[i].code@))
            && r@[i].broken == spec_broken(spec_decode(rom, r@[i].code@))
            && r@[i].noop == spec_noop(spec_decode(rom, r@[i].code@)),
{
    let mut out: Vec<CheatView> = Vec::new();
    let mut i: usize = 0;
    while i < cheats.len()
        invariant
            i <= cheats@.len(),
            rom_resolvable(rom),
            views_of(out@) == cheats@.take(i as int).map_values(|c: DbCheat| c@),
            forall|k: int| 0 <= k < out@.len() ==> parts_view((#[trigger] out@[k]).parts@) == spec_decode(rom, out@[k].code@)
                && out@[k].patchable == spec_patchable(spec_decode(rom, out@[k].code@))
                && out@[k].runtime == spec_runtime(spec_decode(rom, out@[k].code@))
                && out@[k].broken == spec_broken(spec_decode(rom, out@[k].code@))
                && out@[k].noop == spec_noop(spec_decode(rom, out@[k].code@)),
        decreases cheats.len() - i,
    {
        let c = classify(rom, cheats[i].desc.as_str(), cheats[i].code.as_str());
        let ghost before = views_of(out@);
        assert(cheats@[i as int]@ == (c.desc@, c.code@));
        out.push(c);
        assert(views_of(out@) =~= before.push(cheats@[i as int]@));
        assert(cheats@.take(i + 1).map_values(|c: DbCheat| c@) =~= cheats@.take(i as int).map_values(
            |c: DbCheat| c@,
        ).push(cheats@[i as int]@));
        i = i + 1;
    }
    assert(cheats@.take(cheats@.len() as int) == cheats@);
    out
}

// ------------------------------------------------------------------ which cheat file

/// Whether a name is blank: nothing but white space.
pub open spec fn blank(s: Seq<char>) -> bool {
    trim(s, Class::Space).len() == 0
}

/// The database file to read a ROM's cheats from: the name the user asked for (unless blank),
/// else the exact match, else the only candidate.
pub open spec fn spec_chosen_name(want: Option<Seq<char>>, exact: Option<Seq<char>>, candidates: Seq<Seq<char>>) -> Option<Seq<char>> {
    match want {
        Some(w) if !blank(w) => Some(w),
        _ => match exact {
            Some(e) => Some(e),
            None => if candidates.len() == 1 {
                Some(candidates[0])
            } else {
                None
            },
        },
    }
}

/// Picks the database file to read (see `spec_chosen_name`).
pub fn chosen_name(want: Option<String>, m: &Match) -> (r: Option<String>)
    ensures
        opt_text(r) == spec_chosen_name(
            opt_text(want),
            opt_text(m.exact),
            m.candidates@.map_values(|s: String| s@),
        ),
{
    match want {
        Some(w) => {
            let t = trim_class(&chars_of(w.as_str()), Class::Space);
            if t.len() > 0 {
                return Some(w);
            }
        },
        None => {},
    }
    match &m.exact {
        Some(e) => Some(e.clone()),
        None => {
            if m.candidates.len() == 1 {
                Some(m.candidates[0].clone())
            } else {
                None
            }
        },
    }
}

} // verus!

verus! {

// ------------------------------------------------------------------ who may call the API

/// Whether an API request is let through: it carries this session's token, and comes from the
/// page's own origin when it names one.
pub open spec fn spec_request_allowed(
    token: Seq<char>,
    given: Option<Seq<char>>,
    origin: Option<Seq<char>>,
    own_origin: Seq<char>,
) -> bool {
    given == Some(token) && match origin {
        Some(o) => o == own_origin,
        None => true,
    }
}

fn same_str(a: &str, b: &str) -> (r: bool)
    ensures
        r == (a@ == b@),
{
    let x = chars_of(a);
    let y = chars_of(b);
    crate::text::same_chars(&x, &y)
}

/// Decides whether an API request may proceed (see `spec_request_allowed`).
pub fn request_allowed(token: &str, given: Option<&str>, origin: Option<&str>, own_origin: &str) -> (r: bool)
    ensures
        r == spec_request_allowed(
            token@,
            match given {
                Some(g) => Some(g@),
                None => None,
            },
            match origin {
                Some(o) => Some(o@),
                None => None,
            },
            own_origin@,
        ),
{
    let token_ok = match given {
        Some(g) => same_str(g, token),
        None => false,
    };
    let origin_ok = match origin {
        Some(o) => same_str(o, own_origin),
        None => true,
    };
    token_ok && origin_ok
}

} // verus!
