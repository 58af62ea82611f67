//! ROM platforms, header inspection and the values a loaded image carries.
use vstd::prelude::*;
use crate::number::{dec, hex_text};
use crate::text::{
    Class, chars_of, trim, eq_str, lower_all, lower_seq, owned, push_all, push_str, push_dec,
    push_hex, rfind_char, rposition, slice_chars, split_runs, string_of, tokens, has_piece,
    contains_chars, join, to_lowercase, unicode_lower, lemma_rfind_char,
};

pub mod genesis;
pub mod nes;
pub mod snes;

verus! {

broadcast use vstd::string::group_string_axioms;

/// The consoles whose images and codes the library understands.
#[derive(Clone, Copy, Debug, PartialEq, Eq, Hash, Structural)]
pub enum Platform {
    Nes,
    Snes,
    Genesis,
}

impl Platform {
    pub open spec fn spec_label(self) -> Seq<char> {
        match self {
            Platform::Nes => "NES"@,
            Platform::Snes => "Super NES"@,
            Platform::Genesis => "Mega Drive"@,
        }
    }

    /// The display name of the platform.
    pub fn label(self) -> (r: &'static str)
        ensures
            r@ == self.spec_label(),
    {
        match self {
            Platform::Nes => "NES",
            Platform::Snes => "Super NES",
            Platform::Genesis => "Mega Drive",
        }
    }

    /// The platform a file extension names, compared without regard to ASCII case.
    pub open spec fn spec_from_ext(ext: Seq<char>) -> Option<Platform> {
        let e = lower_seq(ext);
        if e == "nes"@ || e == "unf"@ || e == "unif"@ {
            Some(Platform::Nes)
        } else if e == "sfc"@ || e == "smc"@ || e == "fig"@ || e == "swc"@ {
            Some(Platform::Snes)
        } else if e == "md"@ || e == "gen"@ || e == "smd"@ || e == "32x"@ {
            Some(Platform::Genesis)
        } else {
            None
        }
    }

    pub fn from_ext(ext: &str) -> (r: Option<Platform>)
        ensures
            r == Platform::spec_from_ext(ext@),
    {
        let e = lower_all(&chars_of(ext));
        if eq_str(&e, "nes") || eq_str(&e, "unf") || eq_str(&e, "unif") {
            Some(Platform::Nes)
        } else if eq_str(&e, "sfc") || eq_str(&e, "smc") || eq_str(&e, "fig") || eq_str(&e, "swc") {
            Some(Platform::Snes)
        } else if eq_str(&e, "md") || eq_str(&e, "gen") || eq_str(&e, "smd") || eq_str(&e, "32x") {
            Some(Platform::Genesis)
        } else {
            None
        }
    }

    pub open spec fn spec_order(self) -> u8 {
        match self {
            Platform::Nes => 0,
            Platform::Snes => 1,
            Platform::Genesis => 2,
        }
    }

    /// Position of the platform in library listings.
    pub fn order(self) -> (r: u8)
        ensures
            r == self.spec_order(),
    {
        match self {
            Platform::Nes => 0,
            Platform::Snes => 1,
            Platform::Genesis => 2,
        }
    }
}

/// The extensions (already in lower case) that may hold a ROM image.
pub open spec fn spec_is_rom_ext(e: Seq<char>) -> bool {
    e == "nes"@ || e == "unf"@ || e == "unif"@ || e == "sfc"@ || e == "smc"@ || e == "fig"@ || e
        == "swc"@ || e == "md"@ || e == "gen"@ || e == "smd"@ || e == "32x"@ || e == "bin"@
}

pub fn is_rom_ext(ext: &str) -> (r: bool)
    ensures
        r == spec_is_rom_ext(ext@),
{
    let e = chars_of(ext);
    eq_str(&e, "nes") || eq_str(&e, "unf") || eq_str(&e, "unif") || eq_str(&e, "sfc") || eq_str(
        &e,
        "smc",
    ) || eq_str(&e, "fig") || eq_str(&e, "swc") || eq_str(&e, "md") || eq_str(&e, "gen")
        || eq_str(&e, "smd") || eq_str(&e, "32x") || eq_str(&e, "bin")
}

// ------------------------------------------------------------------ paths

/// The components of a `/`-separated path other than `.`.
pub open spec fn path_parts(p: Seq<char>) -> Seq<Seq<char>> {
    tokens(p, Class::Slash).filter(|t: Seq<char>| t != "."@)
}

/// The final component of a path, unless it is `..` or there is none (`Path::file_name`).
pub open spec fn file_name(p: Seq<char>) -> Option<Seq<char>> {
    let parts = path_parts(p);
    if parts.len() == 0 || parts.last() == ".."@ {
        None
    } else {
        Some(parts.last())
    }
}

/// The extension of a path: what follows the last dot of the file name, when that dot is not
/// its first character (`Path::extension`).
pub open spec fn path_ext(p: Seq<char>) -> Option<Seq<char>> {
    match file_name(p) {
        None => None,
        Some(n) => match rfind_char(n, '.') {
            Some(i) => if i == 0 {
                None
            } else {
                Some(n.skip(i + 1))
            },
            None => None,
        },
    }
}

/// The file name without its extension (`Path::file_stem`).
pub open spec fn path_stem(p: Seq<char>) -> Option<Seq<char>> {
    match file_name(p) {
        None => None,
        Some(n) => match rfind_char(n, '.') {
            Some(i) => if i == 0 {
                Some(n)
            } else {
                Some(n.take(i))
            },
            None => Some(n),
        },
    }
}

fn file_name_of(p: &Vec<char>) -> (r: Option<Vec<char>>)
    ensures
        match file_name(p@) {
            Some(n) => r is Some && r->0@ == n,
            None => r is None,
        },
{
    let toks = split_runs(p, Class::Slash);
    let ghost all = tokens(p@, Class::Slash);
    let ghost f = |t: Seq<char>| t != "."@;
    let mut last: Option<Vec<char>> = None;
    let mut i: usize = 0;
    while i < toks.len()
        invariant
            i <= toks.len(),
            all == tokens(p@, Class::Slash),
            f == (|t: Seq<char>| t != "."@),
            toks@.len() == all.len(),
            forall|j: int| 0 <= j < toks@.len() ==> (#[trigger] toks@[j])@ == all[j],
            match last {
                Some(l) => all.take(i as int).filter(f).len() > 0 && l@ == all.take(
                    i as int,
                ).filter(f).last(),
                None => all.take(i as int).filter(f).len() == 0,
            },
        decreases toks.len() - i,
    {
        assert(all.take(i + 1).drop_last() == all.take(i as int));
        reveal_with_fuel(Seq::filter, 1);
        if !eq_str(&toks[i], ".") {
            last = Some(toks[i].clone());
        }
        i = i + 1;
    }
    assert(all.take(toks.len() as int) == all);
    match last {
        Some(l) => {
            if eq_str(&l, "..") {
                None
            } else {
                Some(l)
            }
        },
        None => None,
    }
}

/// The extension of a path in ASCII lower case, or empty when it has none.
pub open spec fn spec_ext_of(p: Seq<char>) -> Seq<char> {
    match path_ext(p) {
        Some(e) => lower_seq(e),
        None => Seq::empty(),
    }
}

fn rposition_of_dot(n: &Vec<char>) -> (r: Option<usize>)
    ensures
        match r {
            Some(i) => rfind_char(n@, '.') == Some(i as int) && i < n@.len(),
            None => rfind_char(n@, '.') is None,
        },
{
    proof {
        lemma_rfind_char(n@, '.');
    }
    rposition(n, '.')
}

/// The lower-case extension of the file a path names.
pub fn ext_of(path: &str) -> (r: String)
    ensures
        r@ == spec_ext_of(path@),
{
    let p = chars_of(path);
    match file_name_of(&p) {
        None => String::new(),
        Some(n) => match rposition_of_dot(&n) {
            Some(i) => {
                if i == 0 {
                    String::new()
                } else {
                    let len = n.len();
                    let e = slice_chars(&n, i + 1, len);
                    assert(e@ == n@.skip(i + 1));
                    string_of(&lower_all(&e))
                }
            },
            None => String::new(),
        },
    }
}

/// The file stem of a path, or empty when it names no file.
pub open spec fn spec_stem_of(p: Seq<char>) -> Seq<char> {
    match path_stem(p) {
        Some(s) => s,
        None => Seq::empty(),
    }
}

/// The name of the file a path names, without its extension.
pub fn stem_of(path: &str) -> (r: String)
    ensures
        r@ == spec_stem_of(path@),
{
    let p = chars_of(path);
    match file_name_of(&p) {
        None => String::new(),
        Some(n) => match rposition_of_dot(&n) {
            Some(i) => {
                if i == 0 {
                    string_of(&n)
                } else {
                    let s = slice_chars(&n, 0, i);
                    assert(s@ == n@.take(i as int));
                    string_of(&s)
                }
            },
            None => string_of(&n),
        },
    }
}

// ------------------------------------------------------------------ hex text and sniffing

/// Bytes written as two lower-case hexadecimal digits each.
pub open spec fn hex_bytes(b: Seq<u8>) -> Seq<char>
    decreases b.len(),
{
    if b.len() == 0 {
        Seq::empty()
    } else {
        hex_bytes(b.drop_last()) + hex_text(b.last() as nat, 2, false)
    }
}

/// Lower-case hexadecimal text of a byte string.
pub fn hex(bytes: &[u8]) -> (r: String)
    ensures
        r@ == hex_bytes(bytes@),
        r@.len() == 2 * bytes@.len(),
{
    let mut s = String::new();
    let mut i: usize = 0;
    while i < bytes.len()
        invariant
            i <= bytes@.len(),
            s@ == hex_bytes(bytes@.take(i as int)),
            s@.len() == 2 * i,
        decreases bytes.len() - i,
    {
        assert(bytes@.take(i + 1).drop_last() == bytes@.take(i as int));
        proof {
            crate::number::lemma_hex_byte_len(bytes@[i as int] as nat);
        }
        push_hex(&mut s, bytes[i] as u64, 2, false);
        i = i + 1;
    }
    assert(bytes@.take(bytes@.len() as int) == bytes@);
    s
}

/// The platform of a file: by extension, else by the iNES magic at the start or the `SEGA`
/// mark at $100.
pub open spec fn spec_sniff(ext: Seq<char>, head: Seq<u8>) -> Option<Platform> {
    match Platform::spec_from_ext(ext) {
        Some(p) => Some(p),
        None => if head.len() >= 4 && head.take(4) == seq![0x4Eu8, 0x45, 0x53, 0x1A] {
            Some(Platform::Nes)
        } else if head.len() >= 0x104 && head.subrange(0x100, 0x104) == seq![0x53u8, 0x45, 0x47, 0x41] {
            Some(Platform::Genesis)
        } else {
            None
        },
    }
}

/// Decides the platform from the extension, falling back to sniffing the first bytes.
pub fn sniff(ext: &str, head: &[u8]) -> (r: Option<Platform>)
    ensures
        r == spec_sniff(ext@, head@),
{
    if let Some(p) = Platform::from_ext(ext) {
        return Some(p);
    }
    if head.len() >= 4 && head[0] == 0x4E && head[1] == 0x45 && head[2] == 0x53 && head[3] == 0x1A {
        assert(head@.take(4) =~= seq![0x4Eu8, 0x45, 0x53, 0x1A]);
        return Some(Platform::Nes);
    }
    assert(head@.len() >= 4 ==> (head@.take(4) == seq![0x4Eu8, 0x45, 0x53, 0x1A] ==> head@[0] == 0x4E && head@[1] == 0x45 && head@[2] == 0x53 && head@[3] == 0x1A));
    if head.len() >= 0x104 && head[0x100] == 0x53 && head[0x101] == 0x45 && head[0x102] == 0x47
        && head[0x103] == 0x41 {
        assert(head@.subrange(0x100, 0x104) =~= seq![0x53u8, 0x45, 0x47, 0x41]);
        return Some(Platform::Genesis);
    }
    assert(head@.len() >= 0x104 ==> (head@.subrange(0x100, 0x104) == seq![0x53u8, 0x45, 0x47, 0x41] ==> head@[0x100] == 0x53 && head@[0x101] == 0x45 && head@[0x102] == 0x47 && head@[0x103] == 0x41));
    None
}


// ------------------------------------------------------------------ library entries and ids

/// One ROM found in a library folder.
#[derive(Clone, Debug)]
pub struct LibraryEntry {
    pub id: String,
    pub name: String,
    pub platform: Platform,
    pub path: String,
    pub entry: Option<String>,
    pub bytes: u64,
}

/// The identifier of a path: the first eight bytes of the SHA-1 of its lower-cased UTF-8 text,
/// in hexadecimal.
pub open spec fn spec_entry_id(path: Seq<char>) -> Seq<char> {
    hex_bytes(crate::hashes::sha1_of(vstd::utf8::encode_utf8(unicode_lower(path))).take(8))
}

/// A stable identifier for a library path, independent of its letter case.
pub fn entry_id(path: &str) -> (r: String)
    ensures
        r@ == spec_entry_id(path@),
        r@.len() == 16,
{
    let lower = to_lowercase(path);
    let digest = crate::hashes::sha1_digest(lower.as_str().as_bytes());
    let mut first: Vec<u8> = Vec::new();
    let mut i: usize = 0;
    while i < 8
        invariant
            i <= 8,
            digest@.len() == 20,
            first@ == digest@.take(i as int),
        decreases 8 - i,
    {
        first.push(digest[i]);
        i = i + 1;
    }
    hex(first.as_slice())
}

// ------------------------------------------------------------------ what inspection reports

/// A labelled line of header information.
#[derive(Clone, Debug)]
pub struct Field {
    pub label: String,
    pub value: String,
}

impl View for Field {
    type V = (Seq<char>, Seq<char>);

    open spec fn view(&self) -> (Seq<char>, Seq<char>) {
        (self.label@, self.value@)
    }
}

pub fn field(label: &str, value: String) -> (f: Field)
    ensures
        f@ == (label@, value@),
{
    Field { label: owned(label), value }
}

/// A stored header checksum beside the one computed from the data.
#[derive(Clone, Debug)]
pub struct ChecksumInfo {
    pub stored: String,
    pub computed: String,
    pub valid: bool,
}

impl View for ChecksumInfo {
    type V = (Seq<char>, Seq<char>, bool);

    open spec fn view(&self) -> (Seq<char>, Seq<char>, bool) {
        (self.stored@, self.computed@, self.valid)
    }
}

/// What the header and the data say about an image.
#[derive(Clone, Debug)]
pub struct RomInfo {
    pub title: String,
    pub region: String,
    pub size: usize,
    pub sha1: String,
    pub crc32: String,
    pub checksum: Option<ChecksumInfo>,
    pub fields: Vec<Field>,
    pub notes: Vec<String>,
}

pub struct RomInfoView {
    pub title: Seq<char>,
    pub region: Seq<char>,
    pub size: usize,
    pub sha1: Seq<char>,
    pub crc32: Seq<char>,
    pub checksum: Option<(Seq<char>, Seq<char>, bool)>,
    pub fields: Seq<(Seq<char>, Seq<char>)>,
    pub notes: Seq<Seq<char>>,
}

impl View for RomInfo {
    type V = RomInfoView;

    open spec fn view(&self) -> RomInfoView {
        RomInfoView {
            title: self.title@,
            region: self.region@,
            size: self.size,
            sha1: self.sha1@,
            crc32: self.crc32@,
            checksum: match self.checksum {
                Some(c) => Some(c@),
                None => None,
            },
            fields: self.fields@.map_values(|f: Field| f@),
            notes: self.notes@.map_values(|n: String| n@),
        }
    }
}

/// An empty report.
pub open spec fn blank_view() -> RomInfoView {
    RomInfoView {
        title: Seq::empty(),
        region: Seq::empty(),
        size: 0,
        sha1: Seq::empty(),
        crc32: Seq::empty(),
        checksum: None,
        fields: Seq::empty(),
        notes: Seq::empty(),
    }
}

pub fn blank_info() -> (r: RomInfo)
    ensures
        r@ == blank_view(),
{
    let r = RomInfo {
        title: String::new(),
        region: String::new(),
        size: 0,
        sha1: String::new(),
        crc32: String::new(),
        checksum: None,
        fields: Vec::new(),
        notes: Vec::new(),
    };
    assert(r@.fields =~= Seq::<(Seq<char>, Seq<char>)>::empty());
    assert(r@.notes =~= Seq::<Seq<char>>::empty());
    r
}

// ------------------------------------------------------------------ regions and sizes

/// Scanning state after `s`: the finished items of parenthesised tags (split at commas), and
/// the item being read when inside a tag.
pub open spec fn tag_state(s: Seq<char>) -> (Seq<Seq<char>>, Option<Seq<char>>)
    decreases s.len(),
{
    if s.len() == 0 {
        (Seq::empty(), None)
    } else {
        let (done, cur) = tag_state(s.drop_last());
        let c = s.last();
        if c == '(' {
            (done, Some(Seq::empty()))
        } else if c == ')' {
            match cur {
                Some(x) => (done.push(x), None),
                None => (done, None),
            }
        } else if c == ',' {
            match cur {
                Some(x) => (done.push(x), Some(Seq::empty())),
                None => (done, None),
            }
        } else {
            match cur {
                Some(x) => (done, Some(x.push(c))),
                None => (done, None),
            }
        }
    }
}

/// The items listed in the parenthesised tags of `s`, in order: `(USA, Europe)` lists `USA`
/// and ` Europe`. A tag left open at the end still counts.
pub open spec fn tag_items(s: Seq<char>) -> Seq<Seq<char>> {
    match tag_state(s) {
        (done, Some(x)) => done.push(x),
        (done, None) => done,
    }
}

/// Whether some listed item, without its surrounding white space, begins with `word`.
pub open spec fn listed(items: Seq<Seq<char>>, word: Seq<char>) -> bool {
    exists|k: int| 0 <= k < items.len() && word.is_prefix_of(trim(#[trigger] items[k], Class::Space))
}

/// The region labels listed in the tags of the lower-cased name, in a fixed order.
pub open spec fn name_tags(lower: Seq<char>) -> Seq<Seq<char>> {
    let items = tag_items(lower);
    let t = |word: Seq<char>, label: Seq<char>|
        if listed(items, word) {
            seq![label]
        } else {
            Seq::empty()
        };
    t("usa"@, "USA"@) + t("japan"@, "Japan"@) + t("europe"@, "Europe"@) + t("world"@, "World"@)
        + t("korea"@, "Korea"@) + t("brazil"@, "Brazil"@) + t("australia"@, "Australia"@) + t(
        "asia"@,
        "Asia"@,
    )
}

/// Region guess from No-Intro style name tags, used when the header carries none: every
/// region listed in a parenthesised tag, such as both of `(USA, Europe)`.
pub open spec fn spec_region_from_name(name: Seq<char>) -> Seq<char> {
    join(name_tags(unicode_lower(name)), ", "@)
}

pub open spec fn chars_seqs(v: Seq<Vec<char>>) -> Seq<Seq<char>> {
    v.map_values(|x: Vec<char>| x@)
}

/// The items listed in the parenthesised tags of `s` (see `tag_items`).
fn tag_items_of(s: &Vec<char>) -> (r: Vec<Vec<char>>)
    ensures
        chars_seqs(r@) == tag_items(s@),
{
    let mut done: Vec<Vec<char>> = Vec::new();
    let mut inside = false;
    let mut cur: Vec<char> = Vec::new();
    let mut i: usize = 0;
    while i < s.len()
        invariant
            i <= s@.len(),
            chars_seqs(done@) == tag_state(s@.take(i as int)).0,
            tag_state(s@.take(i as int)).1 == (if inside {
                Some(cur@)
            } else {
                None::<Seq<char>>
            }),
        decreases s.len() - i,
    {
        let c = s[i];
        assert(s@.take(i + 1).drop_last() == s@.take(i as int));
        assert(s@.take(i + 1).last() == c);
        let ghost before = chars_seqs(done@);
        if c == '(' {
            inside = true;
            cur = Vec::new();
        } else if c == ')' {
            if inside {
                done.push(cur);
                cur = Vec::new();
                inside = false;
                assert(chars_seqs(done@) =~= before.push(chars_seqs(done@).last()));
            }
        } else if c == ',' {
            if inside {
                done.push(cur);
                cur = Vec::new();
                assert(chars_seqs(done@) =~= before.push(chars_seqs(done@).last()));
            }
        } else {
            if inside {
                cur.push(c);
            }
        }
        i = i + 1;
    }
    assert(s@.take(s@.len() as int) == s@);
    if inside {
        let ghost before = chars_seqs(done@);
        done.push(cur);
        assert(chars_seqs(done@) =~= before.push(chars_seqs(done@).last()));
    }
    done
}

fn starts_with(a: &Vec<char>, word: &Vec<char>) -> (r: bool)
    ensures
        r == word@.is_prefix_of(a@),
{
    if word.len() > a.len() {
        return false;
    }
    let mut i: usize = 0;
    while i < word.len()
        invariant
            i <= word@.len() <= a@.len(),
            forall|j: int| 0 <= j < i ==> word@[j] == a@[j],
        decreases word.len() - i,
    {
        if word[i] != a[i] {
            assert(a@.take(word@.len() as int)[i as int] != word@[i as int]);
            return false;
        }
        i = i + 1;
    }
    assert(a@.take(word@.len() as int) =~= word@);
    true
}

fn is_listed(items: &Vec<Vec<char>>, word: &str) -> (r: bool)
    ensures
        r == listed(chars_seqs(items@), word@),
{
    let w = chars_of(word);
    let ghost its = chars_seqs(items@);
    let mut k: usize = 0;
    while k < items.len()
        invariant
            k <= items@.len(),
            its == chars_seqs(items@),
            w@ == word@,
            forall|j: int| 0 <= j < k ==> !word@.is_prefix_of(trim(#[trigger] its[j], Class::Space)),
        decreases items.len() - k,
    {
        let t = crate::text::trim_class(&items[k], Class::Space);
        assert(its[k as int] == items@[k as int]@);
        if starts_with(&t, &w) {
            return true;
        }
        k = k + 1;
    }
    false
}

fn tag_if(items: &Vec<Vec<char>>, word: &str, label: &str, tags: &mut Vec<Vec<char>>)
    ensures
        chars_seqs(final(tags)@) == chars_seqs(old(tags)@) + (if listed(chars_seqs(items@), word@) {
            seq![label@]
        } else {
            Seq::empty()
        }),
{
    if is_listed(items, word) {
        let ghost before = tags@;
        tags.push(chars_of(label));
        assert(chars_seqs(tags@) =~= chars_seqs(before) + seq![label@]);
    } else {
        assert(chars_seqs(tags@) =~= chars_seqs(tags@) + Seq::<Seq<char>>::empty());
    }
}

pub fn region_from_name(name: &str) -> (r: String)
    ensures
        r@ == spec_region_from_name(name@),
{
    let lower = chars_of(to_lowercase(name).as_str());
    let items = tag_items_of(&lower);
    let mut tags: Vec<Vec<char>> = Vec::new();
    assert(chars_seqs(tags@) =~= Seq::<Seq<char>>::empty());
    tag_if(&items, "usa", "USA", &mut tags);
    tag_if(&items, "japan", "Japan", &mut tags);
    tag_if(&items, "europe", "Europe", &mut tags);
    tag_if(&items, "world", "World", &mut tags);
    tag_if(&items, "korea", "Korea", &mut tags);
    tag_if(&items, "brazil", "Brazil", &mut tags);
    tag_if(&items, "australia", "Australia", &mut tags);
    tag_if(&items, "asia", "Asia", &mut tags);
    let sep = chars_of(", ");
    let joined = crate::text::join_with(&tags, &sep);
    assert(chars_seqs(tags@) =~= name_tags(unicode_lower(name@)));
    string_of(&joined)
}

/// A size for display: whole megabytes when within 0.01 MB of one, megabytes to two places
/// (rounding half to even) from 1 MB up, whole kilobytes (rounded down) below.
pub open spec fn spec_human_size(n: nat) -> Seq<char> {
    let m: nat = 1048576;
    if n >= m {
        let q = n / m;
        let r = n % m;
        if r * 100 < m {
            dec(q) + " MB"@
        } else if (m - r) * 100 < m {
            dec(q + 1) + " MB"@
        } else {
            let t = r * 100;
            let h = t / m;
            let rem = t % m;
            let h2: nat = if rem * 2 > m || (rem * 2 == m && h % 2 == 1) {
                h + 1
            } else {
                h
            };
            dec(q) + "."@ + crate::number::zero_pad(dec(h2), 2) + " MB"@
        }
    } else {
        dec(n / 1024) + " KB"@
    }
}

/// A human-readable size.
pub fn human_size(n: usize) -> (r: String)
    ensures
        r@ == spec_human_size(n as nat),
{
    let m: usize = 1048576;
    if n >= m {
        let q = n / m;
        let r = n % m;
        if r < 10486 && r * 100 < m {
            let mut s = String::new();
            push_dec(&mut s, q as u64);
            push_str(&mut s, " MB");
            return s;
        }
        if m - r < 10486 && (m - r) * 100 < m {
            let mut s = String::new();
            push_dec(&mut s, (q + 1) as u64);
            push_str(&mut s, " MB");
            return s;
        }
        let t = (r as u64) * 100;
        let h = t / (m as u64);
        let rem = t % (m as u64);
        let h2 = if rem * 2 > m as u64 || (rem * 2 == m as u64 && h % 2 == 1) {
            h + 1
        } else {
            h
        };
        let mut s = String::new();
        push_dec(&mut s, q as u64);
        push_str(&mut s, ".");
        let d = crate::number::dec_chars(h2);
        let padded = crate::number::pad_zeros(d, 2);
        push_all(&mut s, &padded);
        push_str(&mut s, " MB");
        s
    } else {
        let mut s = String::new();
        push_dec(&mut s, (n / 1024) as u64);
        push_str(&mut s, " KB");
        s
    }
}


// ------------------------------------------------------------------ loaded images

/// The parsed header of an image, by platform.
#[derive(Clone, Debug)]
pub enum Header {
    Nes(nes::NesHeader),
    Snes(snes::SnesHeader),
    Genesis(genesis::GenHeader),
}

pub enum HeaderView {
    Nes(nes::NesHeaderView),
    Snes(snes::SnesHeaderView),
    Genesis(genesis::GenHeaderView),
}

impl View for Header {
    type V = HeaderView;

    open spec fn view(&self) -> HeaderView {
        match self {
            Header::Nes(h) => HeaderView::Nes(h@),
            Header::Snes(h) => HeaderView::Snes(h@),
            Header::Genesis(h) => HeaderView::Genesis(h@),
        }
    }
}

/// A ROM image held in memory with what its header says.
pub struct Rom {
    pub id: String,
    pub name: String,
    pub platform: Platform,
    pub path: String,
    pub entry: Option<String>,
    pub ext: String,
    pub data: Vec<u8>,
    pub info: RomInfo,
    pub header: Header,
}

/// What a loaded image guarantees: the NES PRG area and the file length stay clear of the end
/// of the address space, and the header of a Super NES or Mega Drive image lies inside it.
pub open spec fn rom_ok(rom: &Rom) -> bool {
    &&& rom.data@.len() + 2 <= usize::MAX
    &&& match rom.header {
        Header::Nes(h) => h.prg_offset + h.prg_size + 1 <= usize::MAX,
        Header::Snes(h) => h.copier_header <= h.header_at && h.header_at + 0x40 <= rom.data@.len(),
        Header::Genesis(_) => rom.data@.len() >= 0x200,
    }
}

/// What resolving codes against an image needs: the file length and the NES PRG area stay
/// clear of the end of the address space.
pub open spec fn rom_resolvable(rom: &Rom) -> bool {
    &&& rom.data@.len() + 2 <= usize::MAX
    &&& rom.header matches Header::Nes(h) ==> h.prg_offset + h.prg_size + 1 <= usize::MAX
}

/// The extension that decides the platform: the archive entry's when there is one.
pub open spec fn inner_ext(path: Seq<char>, entry: Option<Seq<char>>) -> Seq<char> {
    match entry {
        Some(n) => spec_ext_of(n),
        None => spec_ext_of(path),
    }
}

/// Whether the image is converted from the interleaved `.smd` layout.
pub open spec fn converts_smd(path: Seq<char>, entry: Option<Seq<char>>, data: Seq<u8>) -> bool {
    spec_sniff(inner_ext(path, entry), data) == Some(Platform::Genesis) && genesis::spec_is_smd(
        inner_ext(path, entry),
        data,
    )
}

/// The bytes that are inspected and patched.
pub open spec fn image_bytes(path: Seq<char>, entry: Option<Seq<char>>, data: Seq<u8>) -> Seq<u8> {
    if converts_smd(path, entry, data) {
        genesis::spec_deinterleave(data)
    } else {
        data
    }
}

/// What the platform's header reader makes of the image: the report and the header, or why
/// the image is refused.
pub open spec fn inspected(p: Platform, d: Seq<u8>) -> Result<(RomInfoView, HeaderView), Seq<char>> {
    match p {
        Platform::Nes => match nes::spec_parse(d) {
            Ok(h) => Ok((nes::nes_info(h), HeaderView::Nes(h))),
            Err(e) => Err(e),
        },
        Platform::Snes => match snes::spec_parse(d) {
            Ok(h) => Ok((snes::snes_info(h, d), HeaderView::Snes(h))),
            Err(e) => Err(e),
        },
        Platform::Genesis => match genesis::spec_parse(d) {
            Ok(h) => Ok((genesis::gen_info(h, d), HeaderView::Genesis(h))),
            Err(e) => Err(e),
        },
    }
}

/// The report of a loaded image: the header report, the region guessed from the file name when
/// the header gives none, the conversion note, the digests and the size.
pub open spec fn loaded_info(info: RomInfoView, path: Seq<char>, converted: bool, d: Seq<u8>) -> RomInfoView {
    RomInfoView {
        region: if info.region.len() == 0 {
            spec_region_from_name(spec_stem_of(path))
        } else {
            info.region
        },
        notes: if converted {
            info.notes.push("Interleaved .smd image converted to a plain binary"@)
        } else {
            info.notes
        },
        sha1: hex_bytes(crate::hashes::sha1_of(d)),
        crc32: hex_text(crate::hashes::crc32_of(d) as nat, 8, false),
        size: d.len() as usize,
        ..info
    }
}

pub open spec fn opt_chars(s: Option<String>) -> Option<Seq<char>> {
    match s {
        Some(t) => Some(t@),
        None => None,
    }
}

/// A `.smd` image too short to hold its 512-byte header, which cannot be converted.
pub open spec fn short_smd(path: Seq<char>, entry: Option<Seq<char>>, data: Seq<u8>) -> bool {
    converts_smd(path, entry, data) && data.len() < 512
}

fn inspect_platform(p: Platform, d: &[u8]) -> (r: Result<(RomInfo, Header), String>)
    ensures
        match inspected(p, d@) {
            Err(e) => r matches Err(x) && x@ == e,
            Ok((info, h)) => r matches Ok((i, hh)) && i@ == info && hh@ == h,
        },
        r matches Ok((_, Header::Nes(h))) ==> h.prg_offset + h.prg_size + 1 <= usize::MAX,
        r matches Ok((_, Header::Snes(h))) ==> h.copier_header <= h.header_at && h.header_at
            + 0x40 <= d@.len(),
        r matches Ok((_, Header::Genesis(_))) ==> d@.len() >= 0x200,
{
    match p {
        Platform::Nes => match nes::inspect(d) {
            Ok((i, h)) => Ok((i, Header::Nes(h))),
            Err(e) => Err(e),
        },
        Platform::Snes => match snes::inspect(d) {
            Ok((i, h)) => Ok((i, Header::Snes(h))),
            Err(e) => Err(e),
        },
        Platform::Genesis => match genesis::inspect(d) {
            Ok((i, h)) => Ok((i, Header::Genesis(h))),
            Err(e) => Err(e),
        },
    }
}

fn finish_info(info: RomInfo, path: &str, converted: bool, data: &[u8]) -> (r: RomInfo)
    ensures
        r@ == loaded_info(info@, path@, converted, data@),
{
    let mut info = info;
    let ghost before = info@;
    let name = stem_of(path);
    if info.region.as_str().is_empty() {
        info.region = region_from_name(name.as_str());
    }
    if converted {
        info.notes.push(owned("Interleaved .smd image converted to a plain binary"));
    }
    let digest = crate::hashes::sha1_digest(data);
    info.sha1 = hex(digest.as_slice());
    let mut crc = String::new();
    push_hex(&mut crc, crate::hashes::crc32(data) as u64, 8, false);
    info.crc32 = crc;
    info.size = data.len();
    assert(info@.notes =~= (if converted {
        before.notes.push("Interleaved .smd image converted to a plain binary"@)
    } else {
        before.notes
    }));
    assert(info@.fields =~= before.fields);
    info
}

/// Builds a ROM from the bytes read from `path` (or from the archive entry `entry` inside it):
/// identifies the platform, converts interleaved `.smd` images, reads the header and digests
/// the data.
pub fn load_bytes(path: &str, entry: Option<String>, data: Vec<u8>) -> (r: Result<Rom, String>)
    requires
        !short_smd(path@, opt_chars(entry), data@),
        data@.len() + 2 <= usize::MAX,
    ensures
        ({
            let ent = opt_chars(entry);
            let ie = inner_ext(path@, ent);
            match spec_sniff(ie, data@) {
                None => r matches Err(e) && e@ == "unrecognised ROM format"@,
                Some(p) => {
                    let d = image_bytes(path@, ent, data@);
                    match inspected(p, d) {
                        Err(e) => r matches Err(x) && x@ == e,
                        Ok((info, h)) => r matches Ok(rom) && rom.platform == p && rom.data@ == d
                            && rom.header@ == h && rom.info@ == loaded_info(
                            info,
                            path@,
                            converts_smd(path@, ent, data@),
                            d,
                        ) && rom.id@ == spec_entry_id(path@) && rom.name@ == spec_stem_of(path@)
                            && rom.path@ == path@ && opt_chars(rom.entry) == ent && rom.ext@ == (
                        if converts_smd(path@, ent, data@) {
                            "md"@
                        } else {
                            ie
                        }) && rom_ok(&rom),
                    }
                },
            }
        }),
{
    let ext = match &entry {
        Some(n) => ext_of(n.as_str()),
        None => ext_of(path),
    };
    let platform = match sniff(ext.as_str(), data.as_slice()) {
        Some(p) => p,
        None => {
            return Err(owned("unrecognised ROM format"));
        },
    };
    let converted = platform == Platform::Genesis && genesis::is_smd(ext.as_str(), data.as_slice());
    let data = if converted {
        genesis::deinterleave_smd(data.as_slice())
    } else {
        data
    };
    let out_ext = if converted {
        owned("md")
    } else {
        ext
    };
    let (info, header) = match inspect_platform(platform, data.as_slice()) {
        Ok(x) => x,
        Err(e) => {
            return Err(e);
        },
    };
    let info = finish_info(info, path, converted, data.as_slice());
    Ok(
        Rom {
            id: entry_id(path),
            name: stem_of(path),
            platform,
            path: owned(path),
            entry,
            ext: out_ext,
            data,
            info,
            header,
        },
    )
}

} // verus!

verus! {

// ------------------------------------------------------------------ ordering the library

pub struct LibraryEntryView {
    pub id: Seq<char>,
    pub name: Seq<char>,
    pub platform: Platform,
    pub path: Seq<char>,
    pub entry: Option<Seq<char>>,
    pub bytes: u64,
}

impl View for LibraryEntry {
    type V = LibraryEntryView;

    open spec fn view(&self) -> LibraryEntryView {
        LibraryEntryView {
            id: self.id@,
            name: self.name@,
            platform: self.platform,
            path: self.path@,
            entry: opt_chars(self.entry),
            bytes: self.bytes,
        }
    }
}

pub open spec fn entries_view(v: Seq<LibraryEntry>) -> Seq<LibraryEntryView> {
    v.map_values(|e: LibraryEntry| e@)
}

/// `a` comes no later than `b`: by platform, then by lower-cased name.
pub open spec fn entry_le(a: LibraryEntryView, b: LibraryEntryView) -> bool {
    a.platform.spec_order() < b.platform.spec_order() || (a.platform.spec_order()
        == b.platform.spec_order() && crate::text::lex_le(unicode_lower(a.name), unicode_lower(b.name)))
}

/// `x` placed after every entry that comes no later than it.
pub open spec fn insert_entry(s: Seq<LibraryEntryView>, x: LibraryEntryView) -> Seq<LibraryEntryView>
    decreases s.len(),
{
    if s.len() > 0 && !entry_le(s.last(), x) {
        insert_entry(s.drop_last(), x).push(s.last())
    } else {
        s.push(x)
    }
}

/// The entries stably sorted by platform and lower-cased name.
pub open spec fn sort_entries(s: Seq<LibraryEntryView>) -> Seq<LibraryEntryView>
    decreases s.len(),
{
    if s.len() == 0 {
        s
    } else {
        insert_entry(sort_entries(s.drop_last()), s.last())
    }
}

/// The entries with each run of equal ids cut to its first.
pub open spec fn dedup_ids(s: Seq<LibraryEntryView>) -> Seq<LibraryEntryView>
    decreases s.len(),
{
    if s.len() <= 1 {
        s
    } else if s.last().id == s[s.len() - 2].id {
        dedup_ids(s.drop_last())
    } else {
        dedup_ids(s.drop_last()).push(s.last())
    }
}

fn entry_le_exec(a: &LibraryEntry, b: &LibraryEntry) -> (r: bool)
    ensures
        r == entry_le(a@, b@),
{
    let oa = a.platform.order();
    let ob = b.platform.order();
    if oa < ob {
        return true;
    }
    if oa > ob {
        return false;
    }
    let la = chars_of(to_lowercase(a.name.as_str()).as_str());
    let lb = chars_of(to_lowercase(b.name.as_str()).as_str());
    crate::text::lex_le_chars(&la, &lb)
}

proof fn lemma_insert_entry_at(s: Seq<LibraryEntryView>, x: LibraryEntryView, k: int)
    requires
        0 <= k <= s.len(),
        forall|j: int| k <= j < s.len() ==> !entry_le(#[trigger] s[j], x),
        k == 0 || entry_le(s[k - 1], x),
    ensures
        insert_entry(s, x) == s.take(k).push(x) + s.skip(k),
    decreases s.len() - k,
{
    if k == s.len() {
        assert(s.take(k) == s);
        assert(s.push(x) + s.skip(k) =~= s.push(x));
    } else {
        lemma_insert_entry_at(s.drop_last(), x, k);
        assert(s.drop_last().take(k) == s.take(k));
        assert(s.drop_last().skip(k).push(s.last()) =~= s.skip(k));
        assert((s.take(k).push(x) + s.drop_last().skip(k)).push(s.last()) =~= s.take(k).push(x) + s.skip(k));
    }
}

proof fn lemma_dedup_ids_last(s: Seq<LibraryEntryView>)
    requires
        s.len() > 0,
    ensures
        dedup_ids(s).len() > 0,
        dedup_ids(s).last().id == s.last().id,
    decreases s.len(),
{
    if s.len() > 1 {
        lemma_dedup_ids_last(s.drop_last());
    }
}

/// Orders the library by platform, then by lower-cased name (keeping the found order among
/// equals), and drops entries whose id repeats that of the one before.
pub fn sort_library(v: Vec<LibraryEntry>) -> (r: Vec<LibraryEntry>)
    ensures
        entries_view(r@) == dedup_ids(sort_entries(entries_view(v@))),
{
    let ghost all = entries_view(v@);
    let mut src = v;
    let mut rev: Vec<LibraryEntry> = Vec::new();
    while src.len() > 0
        invariant
            src@.len() + rev@.len() == all.len(),
            forall|j: int| 0 <= j < src@.len() ==> (#[trigger] src@[j])@ == all[j],
            forall|j: int| 0 <= j < rev@.len() ==> (#[trigger] rev@[j])@ == all[all.len() - 1 - j],
        decreases src@.len(),
    {
        let x = src.pop().unwrap();
        rev.push(x);
    }
    let mut out: Vec<LibraryEntry> = Vec::new();
    while rev.len() > 0
        invariant
            rev@.len() + out@.len() <= all.len(),
            forall|j: int| 0 <= j < rev@.len() ==> (#[trigger] rev@[j])@ == all[all.len() - 1 - j],
            entries_view(out@) == sort_entries(all.take(all.len() - rev@.len())),
        decreases rev@.len(),
    {
        let ghost i = all.len() - rev@.len();
        let x = rev.pop().unwrap();
        assert(x@ == all[i]);
        let ghost before = entries_view(out@);
        let mut k = out.len();
        while k > 0 && !entry_le_exec(&out[k - 1], &x)
            invariant
                k <= out@.len(),
                before == entries_view(out@),
                forall|j: int| k <= j < out@.len() ==> !entry_le(#[trigger] before[j], x@),
            decreases k,
        {
            k = k - 1;
        }
        proof {
            lemma_insert_entry_at(before, x@, k as int);
            assert(all.take(i + 1).drop_last() == all.take(i));
        }
        out.insert(k, x);
        assert(entries_view(out@) =~= before.take(k as int).push(x@) + before.skip(k as int));
    }
    assert(all.take(all.len() as int) == all);
    let ghost sorted = entries_view(out@);
    let mut back: Vec<LibraryEntry> = Vec::new();
    while out.len() > 0
        invariant
            out@.len() + back@.len() == sorted.len(),
            forall|j: int| 0 <= j < out@.len() ==> (#[trigger] out@[j])@ == sorted[j],
            forall|j: int| 0 <= j < back@.len() ==> (#[trigger] back@[j])@ == sorted[sorted.len() - 1 - j],
        decreases out@.len(),
    {
        let x = out.pop().unwrap();
        back.push(x);
    }
    let mut res: Vec<LibraryEntry> = Vec::new();
    while back.len() > 0
        invariant
            back@.len() <= sorted.len(),
            forall|j: int| 0 <= j < back@.len() ==> (#[trigger] back@[j])@ == sorted[sorted.len() - 1 - j],
            entries_view(res@) == dedup_ids(sorted.take(sorted.len() - back@.len())),
            back@.len() < sorted.len() ==> res@.len() > 0 && res@.last().id@ == sorted[sorted.len() - back@.len() - 1].id,
        decreases back@.len(),
    {
        let ghost i = sorted.len() - back@.len();
        let x = back.pop().unwrap();
        assert(x@ == sorted[i]);
        let ghost t = sorted.take(i + 1);
        assert(t.drop_last() == sorted.take(i));
        let ghost before = entries_view(res@);
        let dup = if res.len() > 0 {
            let last = res.len() - 1;
            let a = chars_of(res[last].id.as_str());
            let b = chars_of(x.id.as_str());
            crate::text::same_chars(&a, &b)
        } else {
            false
        };
        proof {
            if i > 0 {
                assert(t[t.len() - 2] == sorted[i - 1]);
                assert(res@.last() == res@[res@.len() - 1]);
                assert(before[before.len() - 1] == res@.last()@);
            } else {
                assert(t.len() == 1);
            }
        }
        if !dup {
            res.push(x);
            assert(entries_view(res@) =~= before.push(t.last()));
        }
    }
    assert(sorted.take(sorted.len() as int) == sorted);
    res
}

} // verus!

verus! {

// ------------------------------------------------------------------ size limit

/// The largest image or archive entry the library reads: 64 MB.
pub const MAX_IMAGE_BYTES: u64 = 67108864;

/// Refuses an image or archive entry of `bytes` bytes when it is larger than 64 MB, before
/// anything is read into memory.
pub fn check_image_size(bytes: u64) -> (r: Result<(), String>)
    ensures
        r is Ok <==> bytes <= MAX_IMAGE_BYTES,
        r matches Err(e) ==> e@ == "ROM images larger than 64 MB are not supported"@,
{
    if bytes > MAX_IMAGE_BYTES {
        Err(owned("ROM images larger than 64 MB are not supported"))
    } else {
        Ok(())
    }
}

} // verus!

verus! {

// ------------------------------------------------------------------ the library comes sorted

/// Every entry comes no later than every entry after it.
pub open spec fn entries_sorted(s: Seq<LibraryEntryView>) -> bool {
    forall|i: int, j: int| #![trigger s[i], s[j]] 0 <= i < j < s.len() ==> entry_le(s[i], s[j])
}

proof fn lemma_entry_le_total(a: LibraryEntryView, b: LibraryEntryView)
    ensures
        entry_le(a, b) || entry_le(b, a),
{
    crate::text::lemma_lex_le_total(unicode_lower(a.name), unicode_lower(b.name));
}

proof fn lemma_entry_le_trans(a: LibraryEntryView, b: LibraryEntryView, c: LibraryEntryView)
    requires
        entry_le(a, b),
        entry_le(b, c),
    ensures
        entry_le(a, c),
{
    if a.platform.spec_order() == b.platform.spec_order() && b.platform.spec_order() == c.platform.spec_order() {
        crate::text::lemma_lex_le_trans(unicode_lower(a.name), unicode_lower(b.name), unicode_lower(c.name));
    }
}

proof fn lemma_insert_entry(s: Seq<LibraryEntryView>, x: LibraryEntryView)
    requires
        entries_sorted(s),
    ensures
        entries_sorted(insert_entry(s, x)),
        forall|i: int| 0 <= i < insert_entry(s, x).len() ==> (#[trigger] insert_entry(s, x)[i] == x
            || s.contains(insert_entry(s, x)[i])),
    decreases s.len(),
{
    let r = insert_entry(s, x);
    if s.len() > 0 && !entry_le(s.last(), x) {
        let t = s.drop_last();
        assert forall|i: int, j: int| #![trigger t[i], t[j]] 0 <= i < j < t.len() implies entry_le(t[i], t[j]) by {
            assert(t[i] == s[i] && t[j] == s[j]);
        }
        lemma_insert_entry(t, x);
        let it = insert_entry(t, x);
        lemma_entry_le_total(s.last(), x);
        assert forall|k: int| 0 <= k < it.len() implies entry_le(#[trigger] it[k], s.last()) by {
            if it[k] != x {
                let m = choose|m: int| 0 <= m < t.len() && t[m] == it[k];
                assert(s[m] == t[m]);
                assert(entry_le(s[m], s[s.len() - 1]));
            }
        }
        assert forall|i: int, j: int| #![trigger r[i], r[j]] 0 <= i < j < r.len() implies entry_le(r[i], r[j]) by {
            if j == r.len() - 1 {
                assert(r[j] == s.last());
                assert(r[i] == it[i]);
            } else {
                assert(r[i] == it[i] && r[j] == it[j]);
            }
        }
        assert forall|i: int| 0 <= i < r.len() implies (#[trigger] r[i] == x || s.contains(r[i])) by {
            if i == r.len() - 1 {
                assert(s[s.len() - 1] == r[i]);
            } else {
                assert(r[i] == it[i]);
                if it[i] != x {
                    let m = choose|m: int| 0 <= m < t.len() && t[m] == it[i];
                    assert(s[m] == t[m]);
                }
            }
        }
    } else {
        assert forall|i: int, j: int| #![trigger r[i], r[j]] 0 <= i < j < r.len() implies entry_le(r[i], r[j]) by {
            if j == r.len() - 1 {
                assert(r[j] == x);
                assert(r[i] == s[i]);
                if i < s.len() - 1 {
                    lemma_entry_le_trans(s[i], s[s.len() - 1], x);
                }
            } else {
                assert(r[i] == s[i] && r[j] == s[j]);
            }
        }
        assert forall|i: int| 0 <= i < r.len() implies (#[trigger] r[i] == x || s.contains(r[i])) by {
            if i < s.len() {
                assert(r[i] == s[i]);
            }
        }
    }
}

proof fn lemma_sort_entries_sorted(s: Seq<LibraryEntryView>)
    ensures
        entries_sorted(sort_entries(s)),
    decreases s.len(),
{
    if s.len() > 0 {
        lemma_sort_entries_sorted(s.drop_last());
        lemma_insert_entry(sort_entries(s.drop_last()), s.last());
    }
}

proof fn lemma_dedup_ids_sorted(s: Seq<LibraryEntryView>)
    requires
        entries_sorted(s),
    ensures
        entries_sorted(dedup_ids(s)),
        forall|i: int| 0 <= i < dedup_ids(s).len() ==> s.contains(#[trigger] dedup_ids(s)[i]),
    decreases s.len(),
{
    if s.len() > 1 {
        let t = s.drop_last();
        assert forall|i: int, j: int| #![trigger t[i], t[j]] 0 <= i < j < t.len() implies entry_le(t[i], t[j]) by {
            assert(t[i] == s[i] && t[j] == s[j]);
        }
        lemma_dedup_ids_sorted(t);
        let d = dedup_ids(t);
        assert forall|i: int| 0 <= i < d.len() implies s.contains(#[trigger] d[i]) by {
            let m = choose|m: int| 0 <= m < t.len() && t[m] == d[i];
            assert(s[m] == t[m]);
        }
        if s.last().id != s[s.len() - 2].id {
            let r = d.push(s.last());
            assert forall|i: int, j: int| #![trigger r[i], r[j]] 0 <= i < j < r.len() implies entry_le(r[i], r[j]) by {
                if j == r.len() - 1 {
                    let m = choose|m: int| 0 <= m < t.len() && t[m] == d[i];
                    assert(r[i] == d[i]);
                    assert(s[m] == t[m]);
                    assert(entry_le(s[m], s[s.len() - 1]));
                } else {
                    assert(r[i] == d[i] && r[j] == d[j]);
                }
            }
            assert forall|i: int| 0 <= i < r.len() implies s.contains(#[trigger] r[i]) by {
                if i == r.len() - 1 {
                    assert(s[s.len() - 1] == r[i]);
                } else {
                    assert(r[i] == d[i]);
                }
            }
        }
    }
}

/// The library comes ordered by platform, then by lower-cased name.
pub proof fn law_library_sorted(entries: Seq<LibraryEntryView>)
    ensures
        entries_sorted(dedup_ids(sort_entries(entries))),
{
    lemma_sort_entries_sorted(entries);
    lemma_dedup_ids_sorted(sort_entries(entries));
}

} // verus!

verus! {

/// Two paths that differ only in letter case get the same library id.
pub proof fn law_entry_id_ignores_case(a: Seq<char>, b: Seq<char>)
    requires
        unicode_lower(a) == unicode_lower(b),
    ensures
        spec_entry_id(a) == spec_entry_id(b),
{
}

} // verus!
