//! The libretro cheat database: where a platform's files live, how ROM names are matched to
//! its file names, and how its `.cht` files read.
use vstd::prelude::*;
use vstd::utf8::encode_utf8;
use crate::number::{dec, hex_text, parse_dec, parse_usize};
use crate::rom::Platform;
use std::collections::BTreeMap;
use vstd::std_specs::cmp::OrdSpec;
use vstd::std_specs::iter::IteratorSpec;
use crate::text::{
    Class, tokens, trim, lex_le, lex_le_chars, find_char, lemma_find_char, position, trim_class, split_runs, eq_str,
    chars_of, owned, push_char, push_dec, push_hex, push_str, string_of, to_lowercase,
    is_alphanumeric, unicode_lower, unicode_alnum, join,
};

verus! {

broadcast use vstd::string::group_string_axioms;

// ------------------------------------------------------------------ where the files live

pub open spec fn spec_system_dir(p: Platform) -> Seq<char> {
    match p {
        Platform::Nes => "Nintendo - Nintendo Entertainment System"@,
        Platform::Snes => "Nintendo - Super Nintendo Entertainment System"@,
        Platform::Genesis => "Sega - Mega Drive - Genesis"@,
    }
}

/// The database folder that holds a platform's cheat files.
pub fn system_dir(p: Platform) -> (r: &'static str)
    ensures
        r@ == spec_system_dir(p),
{
    match p {
        Platform::Nes => "Nintendo - Nintendo Entertainment System",
        Platform::Snes => "Nintendo - Super Nintendo Entertainment System",
        Platform::Genesis => "Sega - Mega Drive - Genesis",
    }
}

pub open spec fn spec_slug(p: Platform) -> Seq<char> {
    match p {
        Platform::Nes => "nes"@,
        Platform::Snes => "snes"@,
        Platform::Genesis => "genesis"@,
    }
}

/// The short platform name used for cache files.
pub fn slug(p: Platform) -> (r: &'static str)
    ensures
        r@ == spec_slug(p),
{
    match p {
        Platform::Nes => "nes",
        Platform::Snes => "snes",
        Platform::Genesis => "genesis",
    }
}

// ------------------------------------------------------------------ percent-encoding

/// The bytes a URL may carry as they are: letters, digits and `-_.~`.
pub open spec fn unreserved(b: u8) -> bool {
    (65 <= b <= 90) || (97 <= b <= 122) || (48 <= b <= 57) || b == 45 || b == 95 || b == 46 || b == 126
}

pub open spec fn percent_byte(b: u8) -> Seq<char> {
    if unreserved(b) {
        seq![b as char]
    } else {
        "%"@ + hex_text(b as nat, 2, true)
    }
}

pub open spec fn percent_bytes(bs: Seq<u8>) -> Seq<char>
    decreases bs.len(),
{
    if bs.len() == 0 {
        Seq::empty()
    } else {
        percent_bytes(bs.drop_last()) + percent_byte(bs.last())
    }
}

/// Percent-encodes the UTF-8 bytes of `s`, keeping only the unreserved ones as they are.
pub fn percent_encode(s: &str) -> (r: String)
    ensures
        r@ == percent_bytes(encode_utf8(s@)),
{
    let bs = s.as_bytes();
    let mut out = String::new();
    let mut i: usize = 0;
    while i < bs.len()
        invariant
            i <= bs@.len(),
            bs@ == encode_utf8(s@),
            out@ == percent_bytes(bs@.take(i as int)),
        decreases bs.len() - i,
    {
        let b = bs[i];
        assert(bs@.take(i + 1).drop_last() == bs@.take(i as int));
        if (65 <= b && b <= 90) || (97 <= b && b <= 122) || (48 <= b && b <= 57) || b == 45 || b == 95
            || b == 46 || b == 126 {
            push_char(&mut out, b as char);
        } else {
            push_str(&mut out, "%");
            push_hex(&mut out, b as u64, 2, true);
        }
        i = i + 1;
    }
    assert(bs@.take(bs@.len() as int) == bs@);
    out
}

// ------------------------------------------------------------------ matching names

/// A name folded for matching: lower-cased, with everything but letters and digits dropped.
pub open spec fn spec_norm(s: Seq<char>) -> Seq<char> {
    unicode_lower(s).filter(|c: char| unicode_alnum(c))
}

/// Folds a name for matching: see `spec_norm`.
pub fn norm(s: &str) -> (r: String)
    ensures
        r@ == spec_norm(s@),
{
    let low = to_lowercase(s);
    let cs = chars_of(low.as_str());
    let mut out = String::new();
    let mut i: usize = 0;
    while i < cs.len()
        invariant
            i <= cs@.len(),
            cs@ == unicode_lower(s@),
            out@ == cs@.take(i as int).filter(|c: char| unicode_alnum(c)),
        decreases cs.len() - i,
    {
        let c = cs[i];
        proof {
            assert(cs@.take(i + 1).drop_last() == cs@.take(i as int));
            reveal_with_fuel(Seq::filter, 1);
        }
        if is_alphanumeric(c) {
            push_char(&mut out, c);
        }
        i = i + 1;
    }
    assert(cs@.take(cs@.len() as int) == cs@);
    out
}

/// Where the first ` (` starts, looking from `i` on.
pub open spec fn paren_from(s: Seq<char>, i: int) -> Option<int>
    decreases s.len() - i,
{
    if i < 0 || i + 1 >= s.len() {
        None
    } else if s[i] == ' ' && s[i + 1] == '(' {
        Some(i)
    } else {
        paren_from(s, i + 1)
    }
}

/// The part of a name before its first ` (`, where the tags begin.
pub open spec fn title_part(s: Seq<char>) -> Seq<char> {
    match paren_from(s, 0) {
        Some(i) => s.take(i),
        None => s,
    }
}

/// The title of a name, folded for matching.
pub open spec fn spec_title_of(s: Seq<char>) -> Seq<char> {
    spec_norm(title_part(s))
}

/// The folded title of a name: the part before its tags, folded as `norm` folds.
pub fn title_of(s: &str) -> (r: String)
    ensures
        r@ == spec_title_of(s@),
{
    let cs = chars_of(s);
    let mut i: usize = 0;
    let mut cut: usize = cs.len();
    while i < cs.len() && i + 1 < cs.len() && cut == cs.len()
        invariant
            i <= cs@.len(),
            cs@ == s@,
            cut <= cs@.len(),
            cut == cs@.len() ==> paren_from(s@, 0) == paren_from(s@, i as int),
            cut < cs@.len() ==> paren_from(s@, 0) == Some(cut as int),
        decreases cs.len() - i + cut,
    {
        if cs[i] == ' ' && cs[i + 1] == '(' {
            cut = i;
        } else {
            i = i + 1;
        }
    }
    assert(cut < cs@.len() ==> paren_from(s@, 0) == Some(cut as int));
    assert(cut == cs@.len() ==> paren_from(s@, 0) is None);
    let mut head: Vec<char> = Vec::new();
    let mut j: usize = 0;
    while j < cut
        invariant
            j <= cut <= cs@.len(),
            head@ == cs@.take(j as int),
        decreases cut - j,
    {
        head.push(cs[j]);
        j = j + 1;
    }
    assert(head@ == title_part(s@));
    let t = string_of(&head);
    norm(t.as_str())
}

} // verus!

verus! {

// ------------------------------------------------------------------ ordering names

/// `x` placed in `s` after every name that sorts before or equal to it.
pub open spec fn insert_sorted(s: Seq<Seq<char>>, x: Seq<char>) -> Seq<Seq<char>>
    decreases s.len(),
{
    if s.len() > 0 && !lex_le(s.last(), x) {
        insert_sorted(s.drop_last(), x).push(s.last())
    } else {
        s.push(x)
    }
}

/// The names sorted (insertion sort, which keeps equal names in order).
pub open spec fn sort_names(s: Seq<Seq<char>>) -> Seq<Seq<char>>
    decreases s.len(),
{
    if s.len() == 0 {
        s
    } else {
        insert_sorted(sort_names(s.drop_last()), s.last())
    }
}

pub open spec fn names_view(v: Seq<String>) -> Seq<Seq<char>> {
    v.map_values(|s: String| s@)
}

proof fn lemma_insert_sorted_at(s: Seq<Seq<char>>, x: Seq<char>, k: int)
    requires
        0 <= k <= s.len(),
        forall|j: int| k <= j < s.len() ==> !lex_le(#[trigger] s[j], x),
        k == 0 || lex_le(s[k - 1], x),
    ensures
        insert_sorted(s, x) == s.take(k).push(x) + s.skip(k),
    decreases s.len() - k,
{
    if k == s.len() {
        assert(s.take(k) == s);
        assert(s.push(x) + s.skip(k) =~= s.push(x));
    } else {
        lemma_insert_sorted_at(s.drop_last(), x, k);
        assert(s.drop_last().take(k) == s.take(k));
        assert(s.drop_last().skip(k).push(s.last()) =~= s.skip(k));
        assert((s.take(k).push(x) + s.drop_last().skip(k)).push(s.last()) =~= s.take(k).push(x) + s.skip(k));
    }
}

/// Sorts names by insertion; equal names keep their order.
fn sort_strings(v: Vec<String>) -> (r: Vec<String>)
    ensures
        names_view(r@) == sort_names(names_view(v@)),
{
    let ghost all = names_view(v@);
    let mut src = v;
    let mut rev: Vec<String> = Vec::new();
    while src.len() > 0
        invariant
            src@.len() + rev@.len() == all.len(),
            forall|j: int| 0 <= j < src@.len() ==> (#[trigger] src@[j])@ == all[j],
            forall|j: int| 0 <= j < rev@.len() ==> (#[trigger] rev@[j])@ == all[all.len() - 1 - j],
        decreases src@.len(),
    {
        let x = src.pop().unwrap();
        rev.push(x);
    }
    let mut out: Vec<String> = Vec::new();
    while rev.len() > 0
        invariant
            rev@.len() + out@.len() <= all.len(),
            forall|j: int| 0 <= j < rev@.len() ==> (#[trigger] rev@[j])@ == all[all.len() - 1 - j],
            names_view(out@) == sort_names(all.take(all.len() - rev@.len())),
        decreases rev@.len(),
    {
        let ghost i = all.len() - rev@.len();
        let x = rev.pop().unwrap();
        assert(x@ == all[i]);
        let xc = chars_of(x.as_str());
        let mut k = out.len();
        let ghost before = names_view(out@);
        while k > 0 && !lex_le_chars(&chars_of(out[k - 1].as_str()), &xc)
            invariant
                k <= out@.len(),
                before == names_view(out@),
                xc@ == x@,
                forall|j: int| k <= j < out@.len() ==> !lex_le(#[trigger] before[j], x@),
            decreases k,
        {
            k = k - 1;
        }
        proof {
            lemma_insert_sorted_at(before, x@, k as int);
            assert(all.take(i + 1).drop_last() == all.take(i));
        }
        out.insert(k, x);
        assert(names_view(out@) =~= before.take(k as int).push(x@) + before.skip(k as int));
    }
    assert(all.take(all.len() as int) == all);
    out
}

// ------------------------------------------------------------------ finding a ROM's cheat file

/// What the database offers for a ROM name: the file with the same folded name, if any, and
/// the files whose titles match.
#[derive(Debug)]
pub struct Match {
    pub exact: Option<String>,
    pub candidates: Vec<String>,
}

/// The first name that folds to `want`.
pub open spec fn first_norm_match(names: Seq<Seq<char>>, want: Seq<char>) -> Option<Seq<char>>
    decreases names.len(),
{
    if names.len() == 0 {
        None
    } else if spec_norm(names[0]) == want {
        Some(names[0])
    } else {
        first_norm_match(names.drop_first(), want)
    }
}

/// The names whose folded title is `t`, in order.
pub open spec fn title_matches(names: Seq<Seq<char>>, t: Seq<char>) -> Seq<Seq<char>> {
    names.filter(|n: Seq<char>| spec_title_of(n) == t)
}

/// The names whose folded title starts with `t`, or with which `t` starts, in order.
pub open spec fn near_matches(names: Seq<Seq<char>>, t: Seq<char>) -> Seq<Seq<char>> {
    names.filter(|n: Seq<char>| t.is_prefix_of(spec_title_of(n)) || spec_title_of(n).is_prefix_of(t))
}

/// The candidates: the names with the same title, else (for a title of four bytes or more)
/// those whose titles extend it or that it extends; sorted, at most 24.
pub open spec fn spec_candidates(names: Seq<Seq<char>>, name: Seq<char>) -> Seq<Seq<char>> {
    let t = spec_title_of(name);
    let same = title_matches(names, t);
    let c = if same.len() == 0 && encode_utf8(t).len() >= 4 {
        near_matches(names, t)
    } else {
        same
    };
    let s = sort_names(c);
    if s.len() > 24 {
        s.take(24)
    } else {
        s
    }
}

fn same_text(a: &str, b: &str) -> (r: bool)
    ensures
        r == (a@ == b@),
{
    let x = chars_of(a);
    let y = chars_of(b);
    if x.len() != y.len() {
        assert(a@.len() != b@.len());
        return false;
    }
    let mut i: usize = 0;
    while i < x.len()
        invariant
            i <= x@.len() == y@.len(),
            x@ == a@,
            y@ == b@,
            forall|j: int| 0 <= j < i ==> x@[j] == y@[j],
        decreases x.len() - i,
    {
        if x[i] != y[i] {
            assert(a@[i as int] != b@[i as int]);
            return false;
        }
        i = i + 1;
    }
    assert(x@ =~= y@);
    true
}

fn is_prefix(a: &Vec<char>, b: &Vec<char>) -> (r: bool)
    ensures
        r == a@.is_prefix_of(b@),
{
    if a.len() > b.len() {
        return false;
    }
    let mut i: usize = 0;
    while i < a.len()
        invariant
            i <= a@.len() <= b@.len(),
            forall|j: int| 0 <= j < i ==> a@[j] == b@[j],
        decreases a.len() - i,
    {
        if a[i] != b[i] {
            assert(b@.take(a@.len() as int)[i as int] != a@[i as int]);
            return false;
        }
        i = i + 1;
    }
    assert(b@.take(a@.len() as int) =~= a@);
    true
}

/// Matches a ROM name against the database's file names: the exactly matching file, and the
/// sorted candidates (see `spec_candidates`).
pub fn find(names: &[String], name: &str) -> (r: Match)
    ensures
        opt_text(r.exact) == first_norm_match(names_view(names@), spec_norm(name@)),
        names_view(r.candidates@) == spec_candidates(names_view(names@), name@),
        r.candidates@.len() <= 24,
{
    let ghost ns = names_view(names@);
    let want = norm(name);
    let want_title = title_of(name);
    let mut exact: Option<String> = None;
    let mut i: usize = 0;
    assert(ns.skip(0) == ns);
    while i < names.len() && exact.is_none()
        invariant
            i <= names@.len(),
            ns == names_view(names@),
            want@ == spec_norm(name@),
            exact is None ==> first_norm_match(ns, want@) == first_norm_match(ns.skip(i as int), want@),
            opt_text(exact) matches Some(e) ==> first_norm_match(ns, want@) == Some(e),
        decreases names.len() - i + (if exact is None { 1int } else { 0int }),
    {
        assert(ns.skip(i as int)[0] == names@[i as int]@);
        assert(ns.skip(i as int).drop_first() == ns.skip(i + 1));
        let nn = norm(names[i].as_str());
        if same_text(nn.as_str(), want.as_str()) {
            exact = Some(names[i].clone());
        } else {
            i = i + 1;
        }
    }
    proof {
        if exact is None {
            assert(ns.skip(i as int).len() == 0);
        }
    }
    let mut same: Vec<String> = Vec::new();
    let mut j: usize = 0;
    while j < names.len()
        invariant
            j <= names@.len(),
            ns == names_view(names@),
            want_title@ == spec_title_of(name@),
            names_view(same@) == ns.take(j as int).filter(|n: Seq<char>| spec_title_of(n) == want_title@),
        decreases names.len() - j,
    {
        proof {
            assert(ns.take(j + 1).drop_last() == ns.take(j as int));
            reveal_with_fuel(Seq::filter, 1);
        }
        let t = title_of(names[j].as_str());
        if same_text(t.as_str(), want_title.as_str()) {
            let ghost before = names_view(same@);
            same.push(names[j].clone());
            assert(names_view(same@) =~= before.push(ns[j as int]));
        }
        j = j + 1;
    }
    assert(ns.take(names@.len() as int) == ns);
    assert(names_view(same@) == title_matches(ns, spec_title_of(name@)));
    let wl = want_title.as_str().as_bytes().len();
    assert(wl == encode_utf8(want_title@).len());
    assert(names_view(same@).len() == same@.len());
    let chosen = if same.len() == 0 && wl >= 4 {
        let wt = chars_of(want_title.as_str());
        let mut near: Vec<String> = Vec::new();
        let mut k: usize = 0;
        while k < names.len()
            invariant
                k <= names@.len(),
                ns == names_view(names@),
                wt@ == want_title@,
                names_view(near@) == ns.take(k as int).filter(
                    |n: Seq<char>| wt@.is_prefix_of(spec_title_of(n)) || spec_title_of(n).is_prefix_of(wt@),
                ),
            decreases names.len() - k,
        {
            proof {
                assert(ns.take(k + 1).drop_last() == ns.take(k as int));
                reveal_with_fuel(Seq::filter, 1);
            }
            let t = title_of(names[k].as_str());
            let tc = chars_of(t.as_str());
            if is_prefix(&wt, &tc) || is_prefix(&tc, &wt) {
                let ghost before = names_view(near@);
                near.push(names[k].clone());
                assert(names_view(near@) =~= before.push(ns[k as int]));
            }
            k = k + 1;
        }
        assert(ns.take(names@.len() as int) == ns);
        assert(names_view(near@) == near_matches(ns, spec_title_of(name@)));
        near
    } else {
        same
    };
    assert(names_view(chosen@) == (if title_matches(ns, spec_title_of(name@)).len() == 0 && encode_utf8(
        spec_title_of(name@),
    ).len() >= 4 {
        near_matches(ns, spec_title_of(name@))
    } else {
        title_matches(ns, spec_title_of(name@))
    }));
    let sorted = sort_strings(chosen);
    let mut candidates: Vec<String> = Vec::new();
    let mut m: usize = 0;
    while m < sorted.len() && m < 24
        invariant
            m <= sorted@.len(),
            m <= 24,
            names_view(candidates@) == names_view(sorted@).take(m as int),
        decreases sorted.len() - m,
    {
        let ghost before = names_view(candidates@);
        candidates.push(sorted[m].clone());
        assert(names_view(candidates@) =~= before.push(names_view(sorted@)[m as int]));
        m = m + 1;
    }
    assert(sorted@.len() <= 24 ==> names_view(sorted@).take(sorted@.len() as int) == names_view(sorted@));
    assert(names_view(sorted@).len() == sorted@.len());
    Match { exact, candidates }
}

pub open spec fn opt_text(s: Option<String>) -> Option<Seq<char>> {
    match s {
        Some(t) => Some(t@),
        None => None,
    }
}

} // verus!

verus! {

// ------------------------------------------------------------------ reading .cht files

/// What one line of a `.cht` file says: a description or a code for cheat `i`, or nothing
/// this reader keeps.
pub enum ChtLine {
    Desc(usize, Seq<char>),
    Code(usize, Seq<char>),
    Other,
}

/// A value with its white space and surrounding quotes removed.
pub open spec fn cht_value(v: Seq<char>) -> Seq<char> {
    trim(trim(trim(v, Class::Space), Class::Quote), Class::Space)
}

/// Reads one line: `cheat<n>_desc = "..."` or `cheat<n>_code = "..."`, split at its first `=`.
pub open spec fn cht_line(line: Seq<char>) -> ChtLine {
    let l = trim(line, Class::Space);
    match find_char(l, '=') {
        None => ChtLine::Other,
        Some(e) => {
            let k = trim(l.take(e), Class::Space);
            let v = cht_value(l.skip(e + 1));
            if k.len() >= 5 && k.take(5) == "cheat"@ {
                let rest = k.skip(5);
                if rest.len() >= 5 && rest.skip(rest.len() - 5) == "_desc"@ {
                    match parse_dec(rest.take(rest.len() - 5)) {
                        Some(i) => ChtLine::Desc(i, v),
                        None => ChtLine::Other,
                    }
                } else if rest.len() >= 5 && rest.skip(rest.len() - 5) == "_code"@ {
                    match parse_dec(rest.take(rest.len() - 5)) {
                        Some(i) => ChtLine::Code(i, v),
                        None => ChtLine::Other,
                    }
                } else {
                    ChtLine::Other
                }
            } else {
                ChtLine::Other
            }
        },
    }
}

/// Entries kept in increasing order of their number, one per number.
pub type Table = Seq<(usize, Seq<char>)>;

/// `t` with number `k` set to `v`: replaced where it is, else inserted in order.
pub open spec fn table_put(t: Table, k: usize, v: Seq<char>) -> Table
    decreases t.len(),
{
    if t.len() == 0 {
        seq![(k, v)]
    } else if t[0].0 == k {
        seq![(k, v)] + t.drop_first()
    } else if t[0].0 > k {
        seq![(k, v)] + t
    } else {
        seq![t[0]] + table_put(t.drop_first(), k, v)
    }
}

/// The value of the first entry numbered `k`.
pub open spec fn table_get(t: Table, k: usize) -> Option<Seq<char>>
    decreases t.len(),
{
    if t.len() == 0 {
        None
    } else if t[0].0 == k {
        Some(t[0].1)
    } else {
        table_get(t.drop_first(), k)
    }
}

/// The descriptions and the codes of the lines, each number with the last value given for it.
pub open spec fn cht_tables(lines: Seq<Seq<char>>) -> (Table, Table)
    decreases lines.len(),
{
    if lines.len() == 0 {
        (Seq::empty(), Seq::empty())
    } else {
        let (d, c) = cht_tables(lines.drop_last());
        match cht_line(lines.last()) {
            ChtLine::Desc(i, v) => (table_put(d, i, v), c),
            ChtLine::Code(i, v) => (d, table_put(c, i, v)),
            ChtLine::Other => (d, c),
        }
    }
}

/// A cheat: its code with its description, or `Cheat <n>` when it has none.
pub open spec fn cheat_of(d: Table, e: (usize, Seq<char>)) -> (Seq<char>, Seq<char>) {
    (
        match table_get(d, e.0) {
            Some(x) => x,
            None => "Cheat "@ + dec(e.0 as nat),
        },
        e.1,
    )
}

/// The cheats of a `.cht` text: every non-empty code in order of its number, with its
/// description. The lines are the text's non-empty lines; empty ones say nothing.
pub open spec fn spec_parse_cht(text: Seq<char>) -> Seq<(Seq<char>, Seq<char>)> {
    let (d, c) = cht_tables(tokens(text, Class::Newline));
    c.filter(|e: (usize, Seq<char>)| e.1.len() > 0).map_values(|e: (usize, Seq<char>)| cheat_of(d, e))
}

/// One cheat of the database.
#[derive(Clone, Debug)]
pub struct DbCheat {
    pub desc: String,
    pub code: String,
}

impl View for DbCheat {
    type V = (Seq<char>, Seq<char>);

    open spec fn view(&self) -> (Seq<char>, Seq<char>) {
        (self.desc@, self.code@)
    }
}


/// Whether `k` ends with `suffix`.
fn ends_with(k: &Vec<char>, suffix: &str) -> (r: bool)
    ensures
        r == (k@.len() >= suffix@.len() && k@.skip(k@.len() - suffix@.len()) == suffix@),
{
    let s = chars_of(suffix);
    if s.len() > k.len() {
        return false;
    }
    let off = k.len() - s.len();
    let mut i: usize = 0;
    while i < s.len()
        invariant
            i <= s@.len(),
            off + s@.len() == k@.len(),
            s@ == suffix@,
            forall|j: int| 0 <= j < i ==> k@[off + j] == s@[j],
        decreases s.len() - i,
    {
        assert(off + i < k.len());
        if k[off + i] != s[i] {
            assert(k@.skip(off as int)[i as int] != s@[i as int]);
            return false;
        }
        i = i + 1;
    }
    assert(k@.skip(off as int) =~= s@);
    true
}

fn slice_vec(v: &Vec<char>, from: usize, to: usize) -> (r: Vec<char>)
    requires
        from <= to <= v@.len(),
    ensures
        r@ == v@.subrange(from as int, to as int),
{
    let mut r: Vec<char> = Vec::new();
    let mut i: usize = from;
    while i < to
        invariant
            from <= i <= to <= v@.len(),
            r@ == v@.subrange(from as int, i as int),
        decreases to - i,
    {
        r.push(v[i]);
        i = i + 1;
    }
    r
}

/// Reads one line of a `.cht` file: see `cht_line`.
fn read_cht_line(line: &Vec<char>) -> (r: Option<(bool, usize, String)>)
    ensures
        match cht_line(line@) {
            ChtLine::Desc(i, v) => r matches Some((false, j, s)) && j == i && s@ == v,
            ChtLine::Code(i, v) => r matches Some((true, j, s)) && j == i && s@ == v,
            ChtLine::Other => r is None,
        },
{
    let l = trim_class(line, Class::Space);
    let e = match position(&l, '=') {
        Some(e) => e,
        None => {
            return None;
        },
    };
    proof {
        lemma_find_char(l@, '=');
    }
    let head = slice_vec(&l, 0, e);
    let k = trim_class(&head, Class::Space);
    assert(e < l.len());
    let tail = slice_vec(&l, e + 1, l.len());
    let v1 = trim_class(&tail, Class::Space);
    let v2 = trim_class(&v1, Class::Quote);
    let v = trim_class(&v2, Class::Space);
    assert(head@ == l@.take(e as int));
    assert(tail@ == l@.skip(e + 1));
    if k.len() < 5 {
        return None;
    }
    let pre = slice_vec(&k, 0, 5);
    if !eq_str(&pre, "cheat") {
        assert(pre@ == k@.take(5));
        return None;
    }
    assert(pre@ == k@.take(5));
    let rest = slice_vec(&k, 5, k.len());
    assert(rest@ == k@.skip(5));
    let is_desc = ends_with(&rest, "_desc");
    let is_code = !is_desc && ends_with(&rest, "_code");
    proof {
        reveal_strlit("_desc");
        reveal_strlit("_code");
    }
    if !is_desc && !is_code {
        return None;
    }
    let num = slice_vec(&rest, 0, rest.len() - 5);
    assert(num@ == rest@.take(rest@.len() - 5));
    match parse_usize(&num) {
        Some(i) => Some((is_code, i, string_of(&v))),
        None => None,
    }
}


/// The map holds exactly the numbers of the table, each with the table's value.
pub open spec fn holds_table(m: Map<usize, String>, t: Table) -> bool {
    &&& forall|k: usize| #[trigger] m.contains_key(k) <==> table_get(t, k) is Some
    &&& forall|k: usize| #[trigger] m.contains_key(k) ==> table_get(t, k) == Some(m[k]@)
}

proof fn lemma_get_entry(t: Table, m: int)
    requires
        increasing(t),
        0 <= m < t.len(),
    ensures
        table_get(t, t[m].0) == Some(t[m].1),
    decreases m,
{
    if m > 0 {
        let r = t.drop_first();
        assert forall|a: int, b: int| #![trigger r[a], r[b]] 0 <= a < b < r.len() implies r[a].0 < r[b].0 by {
            assert(r[a] == t[a + 1] && r[b] == t[b + 1]);
        }
        assert(t[0].0 < t[m].0);
        assert(r[m - 1] == t[m]);
        lemma_get_entry(r, m - 1);
    }
}

proof fn lemma_get_some(t: Table, k: usize)
    requires
        table_get(t, k) is Some,
    ensures
        exists|m: int| 0 <= m < t.len() && t[m].0 == k && Some(t[m].1) == table_get(t, k),
    decreases t.len(),
{
    if t[0].0 != k {
        let r = t.drop_first();
        lemma_get_some(r, k);
        let m = choose|m: int| 0 <= m < r.len() && r[m].0 == k && Some(r[m].1) == table_get(r, k);
        assert(t[m + 1] == r[m]);
    } else {
        assert(t[0].0 == k);
    }
}

/// Two ordered tables in which each finds the other's entries are the same table.
proof fn lemma_same_table(a: Table, b: Table)
    requires
        increasing(a),
        increasing(b),
        forall|i: int| 0 <= i < a.len() ==> table_get(b, (#[trigger] a[i]).0) == Some(a[i].1),
        forall|j: int| 0 <= j < b.len() ==> table_get(a, (#[trigger] b[j]).0) == Some(b[j].1),
    ensures
        a == b,
    decreases a.len() + b.len(),
{
    if a.len() == 0 && b.len() > 0 {
        assert(table_get(a, b[0].0) is None);
    } else if b.len() == 0 && a.len() > 0 {
        assert(table_get(b, a[0].0) is None);
    } else if a.len() > 0 {
        lemma_get_some(b, a[0].0);
        let m = choose|m: int| 0 <= m < b.len() && b[m].0 == a[0].0 && Some(b[m].1) == table_get(b, a[0].0);
        lemma_get_some(a, b[0].0);
        let m2 = choose|m2: int| 0 <= m2 < a.len() && a[m2].0 == b[0].0 && Some(a[m2].1) == table_get(a, b[0].0);
        if m > 0 {
            assert(b[0].0 < b[m].0);
            if m2 > 0 {
                assert(a[0].0 < a[m2].0);
            }
        }
        assert(m == 0);
        assert(a[0] == b[0]);
        let ra = a.drop_first();
        let rb = b.drop_first();
        assert forall|x: int, y: int| #![trigger ra[x], ra[y]] 0 <= x < y < ra.len() implies ra[x].0 < ra[y].0 by {
            assert(ra[x] == a[x + 1] && ra[y] == a[y + 1]);
        }
        assert forall|x: int, y: int| #![trigger rb[x], rb[y]] 0 <= x < y < rb.len() implies rb[x].0 < rb[y].0 by {
            assert(rb[x] == b[x + 1] && rb[y] == b[y + 1]);
        }
        assert forall|i: int| 0 <= i < ra.len() implies table_get(rb, (#[trigger] ra[i]).0) == Some(ra[i].1) by {
            assert(ra[i] == a[i + 1]);
            assert(a[0].0 < a[i + 1].0);
            assert(table_get(b, a[i + 1].0) == Some(a[i + 1].1));
        }
        assert forall|j: int| 0 <= j < rb.len() implies table_get(ra, (#[trigger] rb[j]).0) == Some(rb[j].1) by {
            assert(rb[j] == b[j + 1]);
            assert(b[0].0 < b[j + 1].0);
            assert(table_get(a, b[j + 1].0) == Some(b[j + 1].1));
        }
        lemma_same_table(ra, rb);
        assert(a =~= seq![a[0]] + ra);
        assert(b =~= seq![b[0]] + rb);
    }
}

/// `usize` keys are ordered as the map's specification asks.
proof fn lemma_usize_keys_ordered()
    ensures
        vstd::laws_cmp::obeys_cmp::<usize>(),
        vstd::std_specs::btree::key_obeys_cmp_spec::<usize>(),
{
    broadcast use vstd::laws_cmp::group_laws_cmp;
    broadcast use vstd::std_specs::btree::group_btree_axioms;

    assert(vstd::laws_cmp::obeys_cmp::<usize>());
}

/// The keys of a map's entries, in the order its iterator gives them, strictly increase.
proof fn lemma_iter_keys_increase(rem: Seq<(&usize, &String)>)
    requires
        vstd::std_specs::btree::key_obeys_cmp_spec::<usize>() ==> vstd::std_specs::btree::increasing_seq(
            rem.map_values(|kv: (&usize, &String)| *kv.0),
        ),
    ensures
        forall|a: int, b: int| 0 <= a < b < rem.len() ==> *rem[a].0 < *rem[b].0,
{
    broadcast use vstd::laws_cmp::group_laws_cmp;
    broadcast use vstd::std_specs::btree::group_btree_axioms;

    lemma_usize_keys_ordered();
    let ks = rem.map_values(|kv: (&usize, &String)| *kv.0);
    assert forall|a: int, b: int| 0 <= a < b < rem.len() implies *rem[a].0 < *rem[b].0 by {
        assert(ks[a].cmp_spec(&ks[b]) is Less);
        assert(ks[a] == *rem[a].0 && ks[b] == *rem[b].0);
    }
}

pub open spec fn entries_table(s: Seq<(&usize, &String)>) -> Table {
    s.map_values(|kv: (&usize, &String)| (*kv.0, kv.1@))
}

/// Sets number `k` to `v` in the map kept for table `t`.
fn map_set(m: &mut BTreeMap<usize, String>, k: usize, v: String, Ghost(t): Ghost<Table>)
    requires
        holds_table(old(m)@, t),
        increasing(t),
    ensures
        holds_table(final(m)@, table_put(t, k, v@)),
{
    broadcast use vstd::laws_cmp::group_laws_cmp;
    broadcast use vstd::std_specs::btree::group_btree_axioms;

    proof {
        assert forall|j: int| 0 <= j < t.len() implies (#[trigger] t[j]).0 > -1 by {}
        lemma_table_put(t, k, v@, -1);
    }
    let ghost vv = v@;
    m.insert(k, v);
    assert forall|k2: usize| #[trigger] m@.contains_key(k2) ==> table_get(table_put(t, k, vv), k2) == Some(m@[k2]@) by {
        if k2 != k && m@.contains_key(k2) {
            assert(old(m)@.contains_key(k2));
        }
    }
}

/// Reads the cheats of a `.cht` file: see `spec_parse_cht`.
pub fn parse_cht(text: &str) -> (r: Vec<DbCheat>)
    ensures
        r@.map_values(|c: DbCheat| c@) == spec_parse_cht(text@),
{
    broadcast use vstd::std_specs::btree::group_btree_axioms;

    proof {
        lemma_usize_keys_ordered();
    }
    let cs = chars_of(text);
    let lines = split_runs(&cs, Class::Newline);
    let ghost ls = tokens(text@, Class::Newline);
    let mut descs: BTreeMap<usize, String> = BTreeMap::new();
    let mut codes: BTreeMap<usize, String> = BTreeMap::new();
    let mut i: usize = 0;
    proof {
        assert(ls.take(0).len() == 0);
    }
    while i < lines.len()
        invariant
            i <= lines@.len(),
            lines@.len() == ls.len(),
            ls == tokens(text@, Class::Newline),
            forall|j: int| 0 <= j < lines@.len() ==> (#[trigger] lines@[j])@ == ls[j],
            holds_table(descs@, cht_tables(ls.take(i as int)).0),
            holds_table(codes@, cht_tables(ls.take(i as int)).1),
        decreases lines.len() - i,
    {
        assert(ls.take(i + 1).drop_last() == ls.take(i as int));
        assert(ls.take(i + 1).last() == lines@[i as int]@);
        proof {
            law_cht_tables(ls.take(i as int));
        }
        let ghost (d0, c0) = cht_tables(ls.take(i as int));
        match read_cht_line(&lines[i]) {
            Some((is_code, n, v)) => {
                if is_code {
                    map_set(&mut codes, n, v, Ghost(c0));
                } else {
                    map_set(&mut descs, n, v, Ghost(d0));
                }
            },
            None => {},
        }
        i = i + 1;
    }
    assert(ls.take(ls.len() as int) == ls);
    let ghost d = cht_tables(ls).0;
    let ghost c = cht_tables(ls).1;
    proof {
        law_cht_tables(ls);
    }
    let iter = codes.iter();
    let ghost rem = iter.remaining();
    proof {
        lemma_iter_keys_increase(rem);
        let rt = entries_table(rem);
        assert forall|x: int, y: int| #![trigger rt[x], rt[y]] 0 <= x < y < rt.len() implies rt[x].0 < rt[y].0 by {
            assert(rt[x].0 == *rem[x].0 && rt[y].0 == *rem[y].0);
        }
        assert forall|x: int| 0 <= x < rt.len() implies table_get(c, (#[trigger] rt[x]).0) == Some(rt[x].1) by {
            assert(codes@.contains_key(*rem[x].0) && codes@[*rem[x].0] == *rem[x].1);
        }
        assert forall|y: int| 0 <= y < c.len() implies table_get(rt, (#[trigger] c[y]).0) == Some(c[y].1) by {
            lemma_get_entry(c, y);
            let k = c[y].0;
            assert(codes@.contains_key(k));
            assert(rem.contains((&k, &codes@[k])));
            let x = choose|x: int| 0 <= x < rem.len() && rem[x] == (&k, &codes@[k]);
            assert(rt[x] == (k, codes@[k]@));
            lemma_get_entry(rt, x);
        }
        lemma_same_table(rt, c);
    }
    let ghost keep = |e: (usize, Seq<char>)| e.1.len() > 0;
    let mut out: Vec<DbCheat> = Vec::new();
    for kv in it: iter
        invariant
            it.seq() == rem,
            entries_table(rem) == c,
            holds_table(descs@, d),
            keep == |e: (usize, Seq<char>)| e.1.len() > 0,
            out@.map_values(|x: DbCheat| x@) == c.take(it.index() as int).filter(keep).map_values(
                |e: (usize, Seq<char>)| cheat_of(d, e),
            ),
    {
        let (kr, vr) = kv;
        let n = *kr;
        let ghost j = it.index();
        assert(c[j as int] == (n, vr@));
        proof {
            let t = c.take(j + 1);
            assert(t.drop_last() == c.take(j as int));
            assert(t.last() == c[j as int]);
            reveal_with_fuel(Seq::filter, 1);
        }
        let code_chars = chars_of(vr.as_str());
        if code_chars.len() > 0 {
            let desc = match descs.get(&n) {
                Some(x) => x.clone(),
                None => {
                    let mut s = owned("Cheat ");
                    push_dec(&mut s, n as u64);
                    s
                },
            };
            let ghost before = out@.map_values(|x: DbCheat| x@);
            out.push(DbCheat { desc, code: vr.clone() });
            assert(out@.map_values(|x: DbCheat| x@) =~= before.push(cheat_of(d, c[j as int])));
        }
    }
    assert(c.take(c.len() as int) == c);
    out
}

} // verus!

verus! {

// ------------------------------------------------------------------ what the tables hold

/// Numbers strictly increasing along the table.
pub open spec fn increasing(t: Table) -> bool {
    forall|a: int, b: int| #![trigger t[a], t[b]] 0 <= a < b < t.len() ==> t[a].0 < t[b].0
}

/// The value of the last line that gives code number `i`.
pub open spec fn last_code(lines: Seq<Seq<char>>, i: usize) -> Option<Seq<char>>
    decreases lines.len(),
{
    if lines.len() == 0 {
        None
    } else {
        match cht_line(lines.last()) {
            ChtLine::Code(j, v) => if j == i {
                Some(v)
            } else {
                last_code(lines.drop_last(), i)
            },
            _ => last_code(lines.drop_last(), i),
        }
    }
}

/// The value of the last line that gives description number `i`.
pub open spec fn last_desc(lines: Seq<Seq<char>>, i: usize) -> Option<Seq<char>>
    decreases lines.len(),
{
    if lines.len() == 0 {
        None
    } else {
        match cht_line(lines.last()) {
            ChtLine::Desc(j, v) => if j == i {
                Some(v)
            } else {
                last_desc(lines.drop_last(), i)
            },
            _ => last_desc(lines.drop_last(), i),
        }
    }
}

proof fn lemma_table_put(t: Table, k: usize, v: Seq<char>, lo: int)
    requires
        increasing(t),
        forall|j: int| 0 <= j < t.len() ==> (#[trigger] t[j]).0 > lo,
        k > lo,
    ensures
        increasing(table_put(t, k, v)),
        forall|j: int| 0 <= j < table_put(t, k, v).len() ==> (#[trigger] table_put(t, k, v)[j]).0 > lo,
        forall|k2: usize| #[trigger] table_get(table_put(t, k, v), k2) == if k2 == k {
            Some(v)
        } else {
            table_get(t, k2)
        },
    decreases t.len(),
{
    let r = table_put(t, k, v);
    if t.len() == 0 {
        assert forall|k2: usize| #[trigger] table_get(r, k2) == if k2 == k {
            Some(v)
        } else {
            table_get(t, k2)
        } by {
            assert(r == seq![(k, v)]);
            assert(r[0] == (k, v));
            assert(r.drop_first().len() == 0);
            assert(table_get(r.drop_first(), k2) is None);
            assert(table_get(t, k2) is None);
        }
    } else {
        let rest = t.drop_first();
        assert forall|a: int, b: int| #![trigger rest[a], rest[b]] 0 <= a < b < rest.len() implies rest[a].0 < rest[b].0 by {
            assert(rest[a] == t[a + 1] && rest[b] == t[b + 1]);
        }
        assert forall|j: int| 0 <= j < rest.len() implies (#[trigger] rest[j]).0 > t[0].0 by {
            assert(rest[j] == t[j + 1]);
        }
        if t[0].0 == k {
            assert forall|a: int, b: int| #![trigger r[a], r[b]] 0 <= a < b < r.len() implies r[a].0 < r[b].0 by {
                if a > 0 {
                    assert(r[a] == rest[a - 1] && r[b] == rest[b - 1]);
                } else {
                    assert(r[b] == rest[b - 1]);
                }
            }
            assert forall|j: int| 0 <= j < r.len() implies (#[trigger] r[j]).0 > lo by {
                if j > 0 {
                    assert(r[j] == t[j]);
                }
            }
            assert forall|k2: usize| #[trigger] table_get(r, k2) == if k2 == k {
                Some(v)
            } else {
                table_get(t, k2)
            } by {
                assert(r.drop_first() == rest);
            }
        } else if t[0].0 > k {
            assert forall|a: int, b: int| #![trigger r[a], r[b]] 0 <= a < b < r.len() implies r[a].0 < r[b].0 by {
                assert(r[b] == t[b - 1]);
                if a > 0 {
                    assert(r[a] == t[a - 1]);
                }
            }
            assert forall|j: int| 0 <= j < r.len() implies (#[trigger] r[j]).0 > lo by {
                if j > 0 {
                    assert(r[j] == t[j - 1]);
                }
            }
            assert forall|k2: usize| #[trigger] table_get(r, k2) == if k2 == k {
                Some(v)
            } else {
                table_get(t, k2)
            } by {
                assert(r.drop_first() == t);
            }
        } else {
            lemma_table_put(rest, k, v, t[0].0 as int);
            let pr = table_put(rest, k, v);
            assert(r == seq![t[0]] + pr);
            assert forall|a: int, b: int| #![trigger r[a], r[b]] 0 <= a < b < r.len() implies r[a].0 < r[b].0 by {
                assert(r[b] == pr[b - 1]);
                if a > 0 {
                    assert(r[a] == pr[a - 1]);
                }
            }
            assert forall|j: int| 0 <= j < r.len() implies (#[trigger] r[j]).0 > lo by {
                if j > 0 {
                    assert(r[j] == pr[j - 1]);
                }
            }
            assert forall|k2: usize| #[trigger] table_get(r, k2) == if k2 == k {
                Some(v)
            } else {
                table_get(t, k2)
            } by {
                assert(r.drop_first() == pr);
                assert(table_get(pr, k2) == if k2 == k {
                    Some(v)
                } else {
                    table_get(rest, k2)
                });
            }
        }
    }
}

/// The description and code tables of a `.cht` text list each number at most once, in
/// increasing order, and hold for each number the value of the last line that gave it: so
/// the cheats come out in order of their numbers, and a later line overrides an earlier one.
pub proof fn law_cht_tables(lines: Seq<Seq<char>>)
    ensures
        increasing(cht_tables(lines).0),
        increasing(cht_tables(lines).1),
        forall|i: usize| #[trigger] table_get(cht_tables(lines).0, i) == last_desc(lines, i),
        forall|i: usize| #[trigger] table_get(cht_tables(lines).1, i) == last_code(lines, i),
    decreases lines.len(),
{
    if lines.len() > 0 {
        law_cht_tables(lines.drop_last());
        let (d, c) = cht_tables(lines.drop_last());
        match cht_line(lines.last()) {
            ChtLine::Desc(i, v) => {
                lemma_table_put(d, i, v, -1);
            },
            ChtLine::Code(i, v) => {
                lemma_table_put(c, i, v, -1);
            },
            ChtLine::Other => {},
        }
    }
}

} // verus!

verus! {

// ------------------------------------------------------------------ the index and the cache

/// How long a cached index of file names stays fresh, in seconds: seven days.
pub const INDEX_TTL_SECS: u64 = 604800;

/// Whether an index fetched at `fetched` (seconds since the epoch) is still fresh at `now`.
pub fn cache_fresh(now: u64, fetched: u64) -> (r: bool)
    ensures
        r == (if now >= fetched { now - fetched } else { 0 } < INDEX_TTL_SECS),
{
    let age = if now >= fetched {
        now - fetched
    } else {
        0
    };
    age < INDEX_TTL_SECS
}

/// The name of the cached index for a platform.
pub fn index_file_name(p: Platform) -> (r: String)
    ensures
        r@ == "index-"@ + spec_slug(p) + ".json"@,
{
    let mut s = owned("index-");
    push_str(&mut s, slug(p));
    push_str(&mut s, ".json");
    s
}

/// The tree id of the platform's folder in a listing of `(name, sha)` entries: that of the
/// first entry with the platform's folder name, when it has one.
pub open spec fn spec_system_sha(entries: Seq<(Option<String>, Option<String>)>, p: Platform) -> Option<Seq<char>>
    decreases entries.len(),
{
    if entries.len() == 0 {
        None
    } else if opt_text(entries[0].0) == Some(spec_system_dir(p)) {
        opt_text(entries[0].1)
    } else {
        spec_system_sha(entries.drop_first(), p)
    }
}

/// Picks the platform's folder out of the database listing: see `spec_system_sha`.
pub fn system_sha(entries: &[(Option<String>, Option<String>)], p: Platform) -> (r: Result<String, String>)
    ensures
        match spec_system_sha(entries@, p) {
            Some(s) => r matches Ok(x) && x@ == s,
            None => r matches Err(e) && e@ == "system folder missing from the database listing"@,
        },
{
    let dir = system_dir(p);
    let ghost es = entries@;
    let mut i: usize = 0;
    assert(es.skip(0) == es);
    while i < entries.len()
        invariant
            i <= es.len(),
            es == entries@,
            dir@ == spec_system_dir(p),
            spec_system_sha(es, p) == spec_system_sha(es.skip(i as int), p),
        decreases entries.len() - i,
    {
        assert(es.skip(i as int)[0] == es[i as int]);
        assert(es.skip(i as int).drop_first() == es.skip(i + 1));
        let found = match &entries[i].0 {
            Some(n) => same_text(n.as_str(), dir),
            None => false,
        };
        if found {
            return match &entries[i].1 {
                Some(s) => Ok(s.clone()),
                None => Err(owned("system folder missing from the database listing")),
            };
        }
        i = i + 1;
    }
    Err(owned("system folder missing from the database listing"))
}

/// A path's name without `.cht`, when it ends with it.
pub open spec fn cht_stem(p: Seq<char>) -> Option<Seq<char>> {
    if p.len() >= 4 && p.skip(p.len() - 4) == ".cht"@ {
        Some(p.take(p.len() - 4))
    } else {
        None
    }
}

/// The cheat file names among `paths`, in order.
pub open spec fn cht_stems(paths: Seq<Seq<char>>) -> Seq<Seq<char>>
    decreases paths.len(),
{
    if paths.len() == 0 {
        Seq::empty()
    } else {
        cht_stems(paths.drop_last()) + match cht_stem(paths.last()) {
            Some(s) => seq![s],
            None => Seq::empty(),
        }
    }
}

/// The cheat file names (without `.cht`) among the paths of the platform's folder; refused
/// when there is none.
pub fn index_names(paths: &[String]) -> (r: Result<Vec<String>, String>)
    ensures
        cht_stems(names_view(paths@)).len() > 0 ==> (r matches Ok(v) && names_view(v@) == cht_stems(
            names_view(paths@),
        )),
        cht_stems(names_view(paths@)).len() == 0 ==> (r matches Err(e) && e@
            == "database index came back empty"@),
{
    let ghost ps = names_view(paths@);
    let mut out: Vec<String> = Vec::new();
    let mut i: usize = 0;
    while i < paths.len()
        invariant
            i <= paths@.len(),
            ps == names_view(paths@),
            names_view(out@) == cht_stems(ps.take(i as int)),
        decreases paths.len() - i,
    {
        assert(ps.take(i + 1).drop_last() == ps.take(i as int));
        let cs = chars_of(paths[i].as_str());
        assert(cs@ == ps[i as int]);
        if ends_with(&cs, ".cht") {
            proof {
                reveal_strlit(".cht");
            }
            let stem = slice_vec(&cs, 0, cs.len() - 4);
            let ghost before = names_view(out@);
            out.push(string_of(&stem));
            assert(names_view(out@) =~= before + seq![cs@.take(cs@.len() - 4)]);
        } else {
            proof {
                reveal_strlit(".cht");
            }
            assert(cht_stem(ps[i as int]) is None);
            assert(cht_stems(ps.take(i + 1)) =~= cht_stems(ps.take(i as int)));
        }
        i = i + 1;
    }
    assert(ps.take(paths@.len() as int) == ps);
    if out.len() == 0 {
        Err(owned("database index came back empty"))
    } else {
        Ok(out)
    }
}

/// A character kept in a cache file name; anything else becomes `_`.
pub open spec fn cache_char(c: char) -> char {
    if unicode_alnum(c) || c == ' ' || c == '-' || c == '.' {
        c
    } else {
        '_'
    }
}

/// The cache file for a cheat file name: its characters made safe, then `.cht`.
pub fn cache_file_name(name: &str) -> (r: String)
    ensures
        r@ == name@.map_values(|c: char| cache_char(c)) + ".cht"@,
{
    let cs = chars_of(name);
    let mut s = String::new();
    let mut i: usize = 0;
    while i < cs.len()
        invariant
            i <= cs@.len(),
            cs@ == name@,
            s@ == cs@.take(i as int).map_values(|c: char| cache_char(c)),
        decreases cs.len() - i,
    {
        let c = cs[i];
        let k = if is_alphanumeric(c) || c == ' ' || c == '-' || c == '.' {
            c
        } else {
            '_'
        };
        push_char(&mut s, k);
        i = i + 1;
        assert(s@ =~= cs@.take(i as int).map_values(|c: char| cache_char(c)));
    }
    assert(cs@.take(cs@.len() as int) == cs@);
    push_str(&mut s, ".cht");
    s
}

/// Where a cheat file of the database is downloaded from.
pub fn cht_url(p: Platform, name: &str) -> (r: String)
    ensures
        r@ == "https://raw.githubusercontent.com/libretro/libretro-database/master/cht/"@
            + percent_bytes(encode_utf8(spec_system_dir(p))) + "/"@ + percent_bytes(encode_utf8(name@))
            + ".cht"@,
{
    let mut s = owned("https://raw.githubusercontent.com/libretro/libretro-database/master/cht/");
    let d = percent_encode(system_dir(p));
    push_str(&mut s, d.as_str());
    push_str(&mut s, "/");
    let n = percent_encode(name);
    push_str(&mut s, n.as_str());
    push_str(&mut s, ".cht");
    s
}

/// Where the listing of a database folder with tree id `sha` is read from.
pub fn tree_url(sha: &str) -> (r: String)
    ensures
        r@ == "https://api.github.com/repos/libretro/libretro-database/git/trees/"@ + sha@,
{
    let mut s = owned("https://api.github.com/repos/libretro/libretro-database/git/trees/");
    push_str(&mut s, sha);
    s
}

} // verus!

verus! {

// ------------------------------------------------------------------ the candidates come sorted

/// Every name sorts before or equal to every later one.
pub open spec fn names_sorted(s: Seq<Seq<char>>) -> bool {
    forall|i: int, j: int| #![trigger s[i], s[j]] 0 <= i < j < s.len() ==> lex_le(s[i], s[j])
}

proof fn lemma_insert_sorted(s: Seq<Seq<char>>, x: Seq<char>)
    requires
        names_sorted(s),
    ensures
        names_sorted(insert_sorted(s, x)),
        insert_sorted(s, x).len() == s.len() + 1,
        forall|i: int| 0 <= i < insert_sorted(s, x).len() ==> (#[trigger] insert_sorted(s, x)[i] == x
            || s.contains(insert_sorted(s, x)[i])),
    decreases s.len(),
{
    let r = insert_sorted(s, x);
    if s.len() > 0 && !lex_le(s.last(), x) {
        let t = s.drop_last();
        assert forall|i: int, j: int| #![trigger t[i], t[j]] 0 <= i < j < t.len() implies lex_le(t[i], t[j]) by {
            assert(t[i] == s[i] && t[j] == s[j]);
        }
        lemma_insert_sorted(t, x);
        let it = insert_sorted(t, x);
        crate::text::lemma_lex_le_total(s.last(), x);
        assert forall|k: int| 0 <= k < it.len() implies lex_le(#[trigger] it[k], s.last()) by {
            if it[k] == x {
            } else {
                assert(t.contains(it[k]));
                let m = choose|m: int| 0 <= m < t.len() && t[m] == it[k];
                assert(s[m] == t[m]);
                assert(lex_le(s[m], s[s.len() - 1]));
            }
        }
        assert forall|i: int, j: int| #![trigger r[i], r[j]] 0 <= i < j < r.len() implies lex_le(r[i], r[j]) by {
            if j == r.len() - 1 {
                assert(r[j] == s.last());
                assert(r[i] == it[i]);
            } else {
                assert(r[i] == it[i] && r[j] == it[j]);
            }
        }
        assert forall|i: int| 0 <= i < r.len() implies (#[trigger] r[i] == x || s.contains(r[i])) by {
            if i == r.len() - 1 {
                assert(s[s.len() - 1] == r[i]);
            } else {
                assert(r[i] == it[i]);
                if it[i] != x {
                    let m = choose|m: int| 0 <= m < t.len() && t[m] == it[i];
                    assert(s[m] == t[m]);
                }
            }
        }
    } else {
        assert forall|i: int, j: int| #![trigger r[i], r[j]] 0 <= i < j < r.len() implies lex_le(r[i], r[j]) by {
            if j == r.len() - 1 {
                assert(r[j] == x);
                assert(r[i] == s[i]);
                if i < s.len() - 1 {
                    crate::text::lemma_lex_le_trans(s[i], s[s.len() - 1], x);
                }
            } else {
                assert(r[i] == s[i] && r[j] == s[j]);
            }
        }
        assert forall|i: int| 0 <= i < r.len() implies (#[trigger] r[i] == x || s.contains(r[i])) by {
            if i < s.len() {
                assert(r[i] == s[i]);
            }
        }
    }
}

proof fn lemma_sort_names_sorted(s: Seq<Seq<char>>)
    ensures
        names_sorted(sort_names(s)),
        sort_names(s).len() == s.len(),
    decreases s.len(),
{
    if s.len() > 0 {
        lemma_sort_names_sorted(s.drop_last());
        lemma_insert_sorted(sort_names(s.drop_last()), s.last());
    }
}

/// The candidates for a name come in sorted order.
pub proof fn law_candidates_sorted(names: Seq<Seq<char>>, name: Seq<char>)
    ensures
        names_sorted(spec_candidates(names, name)),
        spec_candidates(names, name).len() <= 24,
{
    let t = spec_title_of(name);
    let same = title_matches(names, t);
    let c = if same.len() == 0 && encode_utf8(t).len() >= 4 {
        near_matches(names, t)
    } else {
        same
    };
    lemma_sort_names_sorted(c);
    let s = sort_names(c);
    if s.len() > 24 {
        let k = s.take(24);
        assert forall|i: int, j: int| #![trigger k[i], k[j]] 0 <= i < j < k.len() implies lex_le(k[i], k[j]) by {
            assert(k[i] == s[i] && k[j] == s[j]);
        }
    }
}

} // verus!

verus! {

// ------------------------------------------------------------------ encoded names are URL-safe

/// A character a URL path segment carries as it is: an unreserved one, or `%` of an escape.
pub open spec fn url_safe(c: char) -> bool {
    ('A' <= c <= 'Z') || ('a' <= c <= 'z') || ('0' <= c <= '9') || c == '-' || c == '_' || c == '.'
        || c == '~' || c == '%'
}

proof fn lemma_digits_safe(v: nat)
    ensures
        forall|j: int| 0 <= j < crate::number::digits(v, 16, true).len() ==> url_safe(
            #[trigger] crate::number::digits(v, 16, true)[j],
        ),
    decreases v,
{
    if v >= 16 {
        lemma_digits_safe(v / 16);
        let d = crate::number::digits(v / 16, 16, true);
        let last = crate::number::digit_char(v % 16, true);
        assert forall|j: int| 0 <= j < d.push(last).len() implies url_safe(#[trigger] d.push(last)[j]) by {
            if j < d.len() {
                assert(d.push(last)[j] == d[j]);
            }
        }
    }
}

/// Percent-encoding leaves only unreserved characters and escapes.
pub proof fn law_percent_url_safe(bs: Seq<u8>)
    ensures
        forall|j: int| 0 <= j < percent_bytes(bs).len() ==> url_safe(#[trigger] percent_bytes(bs)[j]),
    decreases bs.len(),
{
    if bs.len() > 0 {
        law_percent_url_safe(bs.drop_last());
        let a = percent_bytes(bs.drop_last());
        let b = bs.last();
        let p = percent_byte(b);
        if !unreserved(b) {
            lemma_digits_safe(b as nat);
            reveal_strlit("%");
            let h = hex_text(b as nat, 2, true);
            assert forall|j: int| 0 <= j < h.len() implies url_safe(#[trigger] h[j]) by {
                let d = crate::number::digits(b as nat, 16, true);
                if d.len() < 2 {
                    let z = Seq::new((2 - d.len()) as nat, |i: int| '0');
                    assert(h == z + d);
                    if j < z.len() {
                        assert(h[j] == '0');
                    } else {
                        assert(h[j] == d[j - z.len()]);
                    }
                }
            }
            assert forall|j: int| 0 <= j < p.len() implies url_safe(#[trigger] p[j]) by {
                if j > 0 {
                    assert(p[j] == h[j - 1]);
                }
            }
        }
        assert forall|j: int| 0 <= j < (a + p).len() implies url_safe(#[trigger] (a + p)[j]) by {
            if j < a.len() {
                assert((a + p)[j] == a[j]);
            } else {
                assert((a + p)[j] == p[j - a.len()]);
            }
        }
    }
}

} // verus!

verus! {

// ------------------------------------------------------------------ failed requests

/// What a refused database request reports: `not found` for status 404, else the status and
/// the body GitHub sent.
pub fn status_error(code: u16, body: &str) -> (r: String)
    ensures
        r@ == if code == 404 {
            "not found"@
        } else {
            "GitHub returned "@ + dec(code as nat) + ": "@ + body@
        },
{
    if code == 404 {
        return owned("not found");
    }
    let mut s = owned("GitHub returned ");
    push_dec(&mut s, code as u64);
    push_str(&mut s, ": ");
    push_str(&mut s, body);
    s
}

} // verus!

verus! {

// ------------------------------------------------------------------ the JSON GitHub and the cache hold

/// The `(name, sha)` string fields of each element of the JSON array `text` holds, as
/// `serde_json` reads it: `Err` with `serde_json`'s message when the text is not JSON, `None`
/// when it is JSON but no array.
pub uninterp spec fn json_listing(text: Seq<char>) -> Result<
    Option<Seq<(Option<Seq<char>>, Option<Seq<char>>)>>,
    Seq<char>,
>;

/// Calls `serde_json::from_str` on a GitHub contents listing and picks each element's `name`
/// and `sha` strings. The result depends on the text alone; what JSON syntax it accepts is
/// `serde_json`'s and is not stated here.
#[verifier::external_body]
fn read_listing(text: &str) -> (r: Result<Option<Vec<(Option<String>, Option<String>)>>, String>)
    ensures
        match r {
            Ok(Some(v)) => json_listing(text@) == Ok::<_, Seq<char>>(Some(
                v@.map_values(|e: (Option<String>, Option<String>)| (opt_text(e.0), opt_text(e.1))),
            )),
            Ok(None) => json_listing(text@) == Ok::<Option<Seq<(Option<Seq<char>>, Option<Seq<char>>)>>, Seq<char>>(None),
            Err(e) => json_listing(text@) == Err::<Option<Seq<(Option<Seq<char>>, Option<Seq<char>>)>>, Seq<char>>(e@),
        },
{
    match serde_json::from_str::<serde_json::Value>(text) {
        Ok(v) => Ok(v.as_array().map(|arr| {
            arr.iter().map(|e| (e["name"].as_str().map(String::from), e["sha"].as_str().map(String::from))).collect()
        })),
        Err(e) => Err(e.to_string()),
    }
}

pub open spec fn texts_of(v: Seq<(Option<String>, Option<String>)>) -> Seq<(Option<Seq<char>>, Option<Seq<char>>)> {
    v.map_values(|e: (Option<String>, Option<String>)| (opt_text(e.0), opt_text(e.1)))
}

/// The tree id of the platform's folder in parsed listing entries (see `spec_system_sha`).
pub open spec fn spec_sha_in(entries: Seq<(Option<Seq<char>>, Option<Seq<char>>)>, p: Platform) -> Option<Seq<char>>
    decreases entries.len(),
{
    if entries.len() == 0 {
        None
    } else if entries[0].0 == Some(spec_system_dir(p)) {
        entries[0].1
    } else {
        spec_sha_in(entries.drop_first(), p)
    }
}

proof fn lemma_sha_in(entries: Seq<(Option<String>, Option<String>)>, p: Platform)
    ensures
        spec_sha_in(texts_of(entries), p) == spec_system_sha(entries, p),
    decreases entries.len(),
{
    if entries.len() > 0 {
        lemma_sha_in(entries.drop_first(), p);
        assert(texts_of(entries).drop_first() == texts_of(entries.drop_first()));
    }
}

/// The tree id of the platform's folder in a GitHub contents listing: `serde_json`'s message
/// when the text is not JSON, else as `system_sha` picks it.
pub fn listing_sha(text: &str, p: Platform) -> (r: Result<String, String>)
    ensures
        match json_listing(text@) {
            Err(e) => r matches Err(x) && x@ == e,
            Ok(None) => r matches Err(x) && x@ == "system folder missing from the database listing"@,
            Ok(Some(es)) => match spec_sha_in(es, p) {
                Some(s) => r matches Ok(x) && x@ == s,
                None => r matches Err(x) && x@ == "system folder missing from the database listing"@,
            },
        },
{
    match read_listing(text) {
        Err(e) => Err(e),
        Ok(None) => Err(owned("system folder missing from the database listing")),
        Ok(Some(entries)) => {
            proof {
                lemma_sha_in(entries@, p);
            }
            system_sha(&entries, p)
        },
    }
}

/// The `path` string field of each element of the `tree` array in the JSON `text` holds, as
/// `serde_json` reads it: `Err` with its message when the text is not JSON, `None` when there
/// is no such array.
pub uninterp spec fn json_tree(text: Seq<char>) -> Result<Option<Seq<Option<Seq<char>>>>, Seq<char>>;

/// Calls `serde_json::from_str` on a GitHub tree listing and picks each element's `path`
/// string. The result depends on the text alone; the JSON syntax is `serde_json`'s.
#[verifier::external_body]
fn read_tree(text: &str) -> (r: Result<Option<Vec<Option<String>>>, String>)
    ensures
        match r {
            Ok(Some(v)) => json_tree(text@) == Ok::<_, Seq<char>>(Some(v@.map_values(|e: Option<String>| opt_text(e)))),
            Ok(None) => json_tree(text@) == Ok::<Option<Seq<Option<Seq<char>>>>, Seq<char>>(None),
            Err(e) => json_tree(text@) == Err::<Option<Seq<Option<Seq<char>>>>, Seq<char>>(e@),
        },
{
    match serde_json::from_str::<serde_json::Value>(text) {
        Ok(v) => Ok(v["tree"].as_array().map(|arr| arr.iter().map(|e| e["path"].as_str().map(String::from)).collect())),
        Err(e) => Err(e.to_string()),
    }
}

/// The strings among optional strings, in order.
pub open spec fn somes(v: Seq<Option<Seq<char>>>) -> Seq<Seq<char>>
    decreases v.len(),
{
    if v.len() == 0 {
        Seq::empty()
    } else {
        somes(v.drop_last()) + match v.last() {
            Some(s) => seq![s],
            None => Seq::empty(),
        }
    }
}

fn keep_somes(v: Vec<Option<String>>) -> (r: Vec<String>)
    ensures
        names_view(r@) == somes(v@.map_values(|e: Option<String>| opt_text(e))),
{
    let ghost vs = v@.map_values(|e: Option<String>| opt_text(e));
    let mut out: Vec<String> = Vec::new();
    let mut i: usize = 0;
    while i < v.len()
        invariant
            i <= v@.len(),
            vs == v@.map_values(|e: Option<String>| opt_text(e)),
            names_view(out@) == somes(vs.take(i as int)),
        decreases v.len() - i,
    {
        assert(vs.take(i + 1).drop_last() == vs.take(i as int));
        assert(vs.take(i + 1).last() == opt_text(v@[i as int]));
        match &v[i] {
            Some(s) => {
                let ghost before = names_view(out@);
                out.push(s.clone());
                assert(names_view(out@) =~= before + seq![s@]);
            },
            None => {
                assert(somes(vs.take(i + 1)) =~= somes(vs.take(i as int)));
            },
        }
        i = i + 1;
    }
    assert(vs.take(v@.len() as int) == vs);
    out
}

/// The cheat file names in a GitHub tree listing: `serde_json`'s message when the text is not
/// JSON, else those `index_names` keeps (refused when there is none).
pub fn tree_names(text: &str) -> (r: Result<Vec<String>, String>)
    ensures
        match json_tree(text@) {
            Err(e) => r matches Err(x) && x@ == e,
            Ok(paths) => {
                let stems = cht_stems(
                    match paths {
                        Some(ps) => somes(ps),
                        None => Seq::empty(),
                    },
                );
                &&& stems.len() > 0 ==> (r matches Ok(v) && names_view(v@) == stems)
                &&& stems.len() == 0 ==> (r matches Err(x) && x@ == "database index came back empty"@)
            },
        },
{
    match read_tree(text) {
        Err(e) => Err(e),
        Ok(paths) => {
            let strings = match paths {
                Some(ps) => keep_somes(ps),
                None => Vec::new(),
            };
            proof {
                if strings@.len() == 0 {
                    assert(names_view(strings@) =~= Seq::<Seq<char>>::empty());
                }
            }
            index_names(strings.as_slice())
        },
    }
}

/// The `fetched` number and the `names` strings of the cached index `text`, as `serde_json`
/// reads it; `None` when the text is not JSON.
pub uninterp spec fn json_cache(text: Seq<char>) -> Option<(Option<u64>, Option<Seq<Option<Seq<char>>>>)>;

/// Calls `serde_json::from_str` on a cached index and picks its `fetched` number and its
/// `names` array. The result depends on the text alone; the JSON syntax is `serde_json`'s.
#[verifier::external_body]
fn read_cache(text: &str) -> (r: Option<(Option<u64>, Option<Vec<Option<String>>>)>)
    ensures
        match r {
            Some((f, Some(v))) => json_cache(text@) == Some((f, Some(v@.map_values(|e: Option<String>| opt_text(e))))),
            Some((f, None)) => json_cache(text@) == Some::<(Option<u64>, Option<Seq<Option<Seq<char>>>>)>((f, None)),
            None => json_cache(text@) is None,
        },
{
    match serde_json::from_str::<serde_json::Value>(text) {
        Ok(v) => Some((v["fetched"].as_u64(), v["names"].as_array().map(|arr| arr.iter().map(|n| n.as_str().map(String::from)).collect()))),
        Err(_) => None,
    }
}

/// The names in a cached index read at `now`, when it is JSON, still fresh (a missing
/// `fetched` counts as 0) and holds a `names` array; `None` otherwise.
pub open spec fn spec_cached_names(text: Seq<char>, now: u64) -> Option<Seq<Seq<char>>> {
    match json_cache(text) {
        None => None,
        Some((fetched, names)) => {
            let f = match fetched {
                Some(x) => x,
                None => 0,
            };
            if (if now >= f { now - f } else { 0 }) < INDEX_TTL_SECS {
                match names {
                    Some(ns) => Some(somes(ns)),
                    None => None,
                }
            } else {
                None
            }
        },
    }
}

/// Reads the names out of a cached index (see `spec_cached_names`).
pub fn cached_names(text: &str, now: u64) -> (r: Option<Vec<String>>)
    ensures
        match spec_cached_names(text@, now) {
            Some(ns) => r matches Some(v) && names_view(v@) == ns,
            None => r is None,
        },
{
    match read_cache(text) {
        None => None,
        Some((fetched, names)) => {
            let f = match fetched {
                Some(x) => x,
                None => 0,
            };
            if cache_fresh(now, f) {
                match names {
                    Some(ns) => Some(keep_somes(ns)),
                    None => None,
                }
            } else {
                None
            }
        },
    }
}

/// One character as `serde_json` writes it inside a string: the quote and the backslash
/// escaped, the control characters below U+0020 as `\b`, `\t`, `\n`, `\f`, `\r` or
/// `\u00` and two lower-case hex digits, every other character as it is.
pub open spec fn json_escape(c: char) -> Seq<char> {
    if c == '"' {
        seq!['\\', '"']
    } else if c == '\\' {
        seq!['\\', '\\']
    } else if c == '\u{8}' {
        seq!['\\', 'b']
    } else if c == '\t' {
        seq!['\\', 't']
    } else if c == '\n' {
        seq!['\\', 'n']
    } else if c == '\u{c}' {
        seq!['\\', 'f']
    } else if c == '\r' {
        seq!['\\', 'r']
    } else if (c as u32) < 0x20 {
        seq!['\\', 'u', '0', '0'] + hex_text(c as nat, 2, false)
    } else {
        seq![c]
    }
}

/// A JSON string literal: the characters escaped, between quotes.
pub open spec fn json_string(s: Seq<char>) -> Seq<char> {
    seq!['"'] + s.map_values(|c: char| json_escape(c)).flatten() + seq!['"']
}

/// A compact JSON array of strings: `[`, the string literals separated by `,`, and `]`.
pub open spec fn json_array(items: Seq<Seq<char>>) -> Seq<char> {
    seq!['['] + join(items.map_values(|s: Seq<char>| json_string(s)), seq![',']) + seq![']']
}

/// Calls `serde_json::to_string` on a list of strings, which writes the compact JSON array of
/// their string literals; writing to memory cannot fail.
#[verifier::external_body]
fn write_strings(names: &[String]) -> (r: String)
    ensures
        r@ == json_array(names_view(names@)),
{
    serde_json::to_string(names).unwrap_or_default()
}

/// The text of a cached index: `{"fetched":<now>,"names":[...]}`.
pub fn cache_text(fetched: u64, names: &[String]) -> (r: String)
    ensures
        r@ == "{\"fetched\":"@ + dec(fetched as nat) + ",\"names\":"@ + json_array(names_view(names@)) + "}"@,
{
    let mut s = owned("{\"fetched\":");
    push_dec(&mut s, fetched);
    push_str(&mut s, ",\"names\":");
    let arr = write_strings(names);
    push_str(&mut s, arr.as_str());
    push_str(&mut s, "}");
    s
}

} // verus!

verus! {

/// Folding for matching keeps letters and digits only, so punctuation, spaces and tags'
/// brackets never decide a match.
pub proof fn law_norm_only_alphanumeric(s: Seq<char>)
    ensures
        forall|j: int| 0 <= j < spec_norm(s).len() ==> unicode_alnum(#[trigger] spec_norm(s)[j]),
{
    assert forall|j: int| 0 <= j < spec_norm(s).len() implies unicode_alnum(#[trigger] spec_norm(s)[j]) by {
        unicode_lower(s).lemma_filter_pred(|c: char| unicode_alnum(c), j);
    }
}

} // verus!
