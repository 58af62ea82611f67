//! Character-level helpers shared by the code parsers, header readers and formatters.
use vstd::prelude::*;

verus! {

broadcast use vstd::string::group_string_axioms;

/// Appends one character to a string (std `String::push`): the string gains `c` at its end.
#[verifier::external_body]
pub(crate) fn push_char(s: &mut String, c: char)
    ensures
        final(s)@ == old(s)@.push(c),
{
    s.push(c);
}

/// The characters of `s`, in order.
pub fn chars_of(s: &str) -> (v: Vec<char>)
    ensures
        v@ == s@,
{
    let mut v: Vec<char> = Vec::new();
    for c in it: s.chars()
        invariant
            v@ == it.seq().take(it.index() as int),
    {
        v.push(c);
    }
    v
}

/// A string holding exactly the characters of `v`.
pub fn string_of(v: &Vec<char>) -> (s: String)
    ensures
        s@ == v@,
{
    let mut s = String::new();
    push_all(&mut s, v);
    s
}

/// Appends every character of `v` to `s`.
pub fn push_all(s: &mut String, v: &Vec<char>)
    ensures
        final(s)@ == old(s)@ + v@,
{
    let ghost start = s@;
    let mut i: usize = 0;
    while i < v.len()
        invariant
            i <= v.len(),
            s@ == start + v@.take(i as int),
        decreases v.len() - i,
    {
        push_char(s, v[i]);
        i = i + 1;
        assert(v@.take(i as int) == v@.take(i - 1).push(v@[i - 1]));
    }
    assert(v@.take(v.len() as int) == v@);
}

/// Appends every character of the string slice `t` to `s`.
pub fn push_str(s: &mut String, t: &str)
    ensures
        final(s)@ == old(s)@ + t@,
{
    let v = chars_of(t);
    push_all(s, &v);
}

/// A new string holding the characters of `t`.
pub fn owned(t: &str) -> (s: String)
    ensures
        s@ == t@,
{
    let mut s = String::new();
    push_str(&mut s, t);
    s
}

// ------------------------------------------------------------------ classes of characters

/// Unicode `White_Space`, the property behind `char::is_whitespace`.
pub open spec fn spec_is_ws(c: char) -> bool {
    ||| ('\u{9}' <= c && c <= '\u{d}')
    ||| c == ' '
    ||| c == '\u{85}'
    ||| c == '\u{a0}'
    ||| c == '\u{1680}'
    ||| ('\u{2000}' <= c && c <= '\u{200a}')
    ||| c == '\u{2028}'
    ||| c == '\u{2029}'
    ||| c == '\u{202f}'
    ||| c == '\u{205f}'
    ||| c == '\u{3000}'
}

/// Whether `c` is white space in the Unicode sense.
pub fn is_ws(c: char) -> (b: bool)
    ensures
        b == spec_is_ws(c),
{
    ('\u{9}' <= c && c <= '\u{d}') || c == ' ' || c == '\u{85}' || c == '\u{a0}' || c
        == '\u{1680}' || ('\u{2000}' <= c && c <= '\u{200a}') || c == '\u{2028}' || c
        == '\u{2029}' || c == '\u{202f}' || c == '\u{205f}' || c == '\u{3000}'
}

/// Unicode general category Cc, the property behind `char::is_control`.
pub open spec fn spec_is_control(c: char) -> bool {
    c <= '\u{1f}' || ('\u{7f}' <= c && c <= '\u{9f}')
}

pub fn is_control(c: char) -> (b: bool)
    ensures
        b == spec_is_control(c),
{
    c <= '\u{1f}' || ('\u{7f}' <= c && c <= '\u{9f}')
}

pub open spec fn spec_upper(c: char) -> char {
    if 'a' <= c && c <= 'z' {
        ((c as u32) - 32) as char
    } else {
        c
    }
}

pub open spec fn spec_lower(c: char) -> char {
    if 'A' <= c && c <= 'Z' {
        ((c as u32) + 32) as char
    } else {
        c
    }
}

/// ASCII upper case of one character; others are left alone.
pub fn upper(c: char) -> (r: char)
    ensures
        r == spec_upper(c),
{
    if 'a' <= c && c <= 'z' {
        ((c as u8) - 32) as char
    } else {
        c
    }
}

/// ASCII lower case of one character; others are left alone.
pub fn lower(c: char) -> (r: char)
    ensures
        r == spec_lower(c),
{
    if 'A' <= c && c <= 'Z' {
        ((c as u8) + 32) as char
    } else {
        c
    }
}

pub open spec fn upper_seq(s: Seq<char>) -> Seq<char> {
    s.map_values(|c: char| spec_upper(c))
}

pub open spec fn lower_seq(s: Seq<char>) -> Seq<char> {
    s.map_values(|c: char| spec_lower(c))
}

/// `str::to_ascii_uppercase` on a character vector.
pub fn upper_all(v: &Vec<char>) -> (r: Vec<char>)
    ensures
        r@ == upper_seq(v@),
{
    let mut r: Vec<char> = Vec::new();
    let mut i: usize = 0;
    while i < v.len()
        invariant
            i <= v.len(),
            r@ == upper_seq(v@.take(i as int)),
        decreases v.len() - i,
    {
        r.push(upper(v[i]));
        i = i + 1;
        assert(upper_seq(v@.take(i as int)) == upper_seq(v@.take(i - 1)).push(spec_upper(v@[i - 1])));
    }
    assert(v@.take(v.len() as int) == v@);
    r
}

/// `str::to_ascii_lowercase` on a character vector.
pub fn lower_all(v: &Vec<char>) -> (r: Vec<char>)
    ensures
        r@ == lower_seq(v@),
{
    let mut r: Vec<char> = Vec::new();
    let mut i: usize = 0;
    while i < v.len()
        invariant
            i <= v.len(),
            r@ == lower_seq(v@.take(i as int)),
        decreases v.len() - i,
    {
        r.push(lower(v[i]));
        i = i + 1;
        assert(lower_seq(v@.take(i as int)) == lower_seq(v@.take(i - 1)).push(spec_lower(v@[i - 1])));
    }
    assert(v@.take(v.len() as int) == v@);
    r
}

} // verus!

verus! {

// ------------------------------------------------------------------ character classes used as separators

/// The sets of characters that the parsers split on or trim away.
#[derive(Clone, Copy, PartialEq, Eq, Debug)]
pub enum Class {
    /// Unicode white space.
    Space,
    /// What separates the parts of a multi-part cheat: `+`, `,` and white space.
    CodeSep,
    /// NUL or white space, the padding of fixed-width header text.
    NulOrSpace,
    /// The double quote.
    Quote,
    /// A dot or a space.
    DotOrSpace,
    /// The path separator `/`.
    Slash,
    /// The line feed.
    Newline,
}

pub open spec fn in_class(k: Class, c: char) -> bool {
    match k {
        Class::Space => spec_is_ws(c),
        Class::CodeSep => c == '+' || spec_is_ws(c) || c == ',',
        Class::NulOrSpace => c == '\0' || spec_is_ws(c),
        Class::Quote => c == '"',
        Class::DotOrSpace => c == '.' || c == ' ',
        Class::Slash => c == '/',
        Class::Newline => c == '\n',
    }
}

pub fn is_in(k: Class, c: char) -> (b: bool)
    ensures
        b == in_class(k, c),
{
    match k {
        Class::Space => is_ws(c),
        Class::CodeSep => c == '+' || is_ws(c) || c == ',',
        Class::NulOrSpace => c == '\0' || is_ws(c),
        Class::Quote => c == '"',
        Class::DotOrSpace => c == '.' || c == ' ',
        Class::Slash => c == '/',
        Class::Newline => c == '\n',
    }
}

// ------------------------------------------------------------------ splitting into runs

/// State after scanning `s`: the finished runs, and the run still open at the end.
pub open spec fn split_state(s: Seq<char>, k: Class) -> (Seq<Seq<char>>, Seq<char>)
    decreases s.len(),
{
    if s.len() == 0 {
        (Seq::empty(), Seq::empty())
    } else {
        let (done, cur) = split_state(s.drop_last(), k);
        if in_class(k, s.last()) {
            if cur.len() > 0 {
                (done.push(cur), Seq::empty())
            } else {
                (done, Seq::empty())
            }
        } else {
            (done, cur.push(s.last()))
        }
    }
}

/// The maximal runs of `s` that hold no character of class `k`, in order.
pub open spec fn tokens(s: Seq<char>, k: Class) -> Seq<Seq<char>> {
    let (done, cur) = split_state(s, k);
    if cur.len() > 0 {
        done.push(cur)
    } else {
        done
    }
}

pub open spec fn run_ok(t: Seq<char>, k: Class) -> bool {
    t.len() > 0 && forall|j: int| 0 <= j < t.len() ==> !in_class(k, #[trigger] t[j])
}

/// Every run is non-empty and free of separators.
pub proof fn lemma_split_state_runs(s: Seq<char>, k: Class)
    ensures
        forall|i: int|
            0 <= i < split_state(s, k).0.len() ==> run_ok(#[trigger] split_state(s, k).0[i], k),
        forall|j: int|
            0 <= j < split_state(s, k).1.len() ==> !in_class(k, #[trigger] split_state(s, k).1[j]),
    decreases s.len(),
{
    if s.len() > 0 {
        lemma_split_state_runs(s.drop_last(), k);
        let (done, cur) = split_state(s.drop_last(), k);
        if in_class(k, s.last()) {
            if cur.len() > 0 {
                assert(run_ok(cur, k));
                assert forall|i: int| 0 <= i < done.push(cur).len() implies run_ok(
                    #[trigger] done.push(cur)[i],
                    k,
                ) by {
                    if i < done.len() {
                        assert(done.push(cur)[i] == done[i]);
                    }
                }
            }
        } else {
            assert forall|j: int| 0 <= j < cur.push(s.last()).len() implies !in_class(
                k,
                #[trigger] cur.push(s.last())[j],
            ) by {
                if j < cur.len() {
                    assert(cur.push(s.last())[j] == cur[j]);
                }
            }
        }
    }
}

pub proof fn lemma_tokens_runs(s: Seq<char>, k: Class)
    ensures
        forall|i: int| 0 <= i < tokens(s, k).len() ==> run_ok(#[trigger] tokens(s, k)[i], k),
{
    lemma_split_state_runs(s, k);
}

/// Splits `v` into its maximal runs free of class `k` (as `str::split` followed by
/// dropping the empty pieces, or `str::split_whitespace`).
pub fn split_runs(v: &Vec<char>, k: Class) -> (r: Vec<Vec<char>>)
    ensures
        r@.len() == tokens(v@, k).len(),
        forall|i: int| 0 <= i < r@.len() ==> (#[trigger] r@[i])@ == tokens(v@, k)[i],
{
    let mut done: Vec<Vec<char>> = Vec::new();
    let mut cur: Vec<char> = Vec::new();
    let mut i: usize = 0;
    while i < v.len()
        invariant
            i <= v.len(),
            done@.len() == split_state(v@.take(i as int), k).0.len(),
            forall|j: int|
                0 <= j < done@.len() ==> (#[trigger] done@[j])@ == split_state(
                    v@.take(i as int),
                    k,
                ).0[j],
            cur@ == split_state(v@.take(i as int), k).1,
        decreases v.len() - i,
    {
        let c = v[i];
        assert(v@.take(i + 1).drop_last() == v@.take(i as int));
        if is_in(k, c) {
            if cur.len() > 0 {
                done.push(cur);
                cur = Vec::new();
            }
        } else {
            cur.push(c);
        }
        i = i + 1;
    }
    assert(v@.take(v.len() as int) == v@);
    if cur.len() > 0 {
        done.push(cur);
    }
    done
}

// ------------------------------------------------------------------ joining

pub open spec fn join(parts: Seq<Seq<char>>, sep: Seq<char>) -> Seq<char>
    decreases parts.len(),
{
    if parts.len() == 0 {
        Seq::empty()
    } else if parts.len() == 1 {
        parts[0]
    } else {
        join(parts.drop_last(), sep) + sep + parts.last()
    }
}

/// The parts joined with `sep` between neighbours (`[T]::join`).
pub fn join_with(parts: &Vec<Vec<char>>, sep: &Vec<char>) -> (r: Vec<char>)
    ensures
        r@ == join(parts@.map_values(|p: Vec<char>| p@), sep@),
{
    let ghost ps = parts@.map_values(|p: Vec<char>| p@);
    let mut r: Vec<char> = Vec::new();
    let mut i: usize = 0;
    while i < parts.len()
        invariant
            i <= parts.len(),
            ps == parts@.map_values(|p: Vec<char>| p@),
            r@ == join(ps.take(i as int), sep@),
        decreases parts.len() - i,
    {
        assert(ps.take(i + 1).drop_last() == ps.take(i as int));
        if i > 0 {
            append_chars(&mut r, sep);
        }
        append_chars(&mut r, &parts[i]);
        i = i + 1;
    }
    assert(ps.take(parts.len() as int) == ps);
    r
}

/// Appends every element of `b` to `a`.
pub fn append_chars(a: &mut Vec<char>, b: &Vec<char>)
    ensures
        final(a)@ == old(a)@ + b@,
{
    let ghost start = a@;
    let mut i: usize = 0;
    while i < b.len()
        invariant
            i <= b.len(),
            a@ == start + b@.take(i as int),
        decreases b.len() - i,
    {
        a.push(b[i]);
        i = i + 1;
        assert(b@.take(i as int) == b@.take(i - 1).push(b@[i - 1]));
    }
    assert(b@.take(b.len() as int) == b@);
}

// ------------------------------------------------------------------ trimming

pub open spec fn trim_start(s: Seq<char>, k: Class) -> Seq<char>
    decreases s.len(),
{
    if s.len() > 0 && in_class(k, s[0]) {
        trim_start(s.drop_first(), k)
    } else {
        s
    }
}

pub open spec fn trim_end(s: Seq<char>, k: Class) -> Seq<char>
    decreases s.len(),
{
    if s.len() > 0 && in_class(k, s.last()) {
        trim_end(s.drop_last(), k)
    } else {
        s
    }
}

/// `s` without its leading and trailing characters of class `k` (`str::trim_matches`).
pub open spec fn trim(s: Seq<char>, k: Class) -> Seq<char> {
    trim_end(trim_start(s, k), k)
}

proof fn lemma_trim_start_skip(s: Seq<char>, k: Class, i: int)
    requires
        0 <= i <= s.len(),
        forall|j: int| 0 <= j < i ==> in_class(k, #[trigger] s[j]),
    ensures
        trim_start(s, k) == trim_start(s.skip(i), k),
    decreases i,
{
    if i > 0 {
        assert(s.skip(1) == s.drop_first());
        lemma_trim_start_skip(s.drop_first(), k, i - 1);
        assert(s.drop_first().skip(i - 1) == s.skip(i));
    } else {
        assert(s.skip(0) == s);
    }
}

proof fn lemma_trim_end_take(s: Seq<char>, k: Class, e: int)
    requires
        0 <= e <= s.len(),
        forall|j: int| e <= j < s.len() ==> in_class(k, #[trigger] s[j]),
    ensures
        trim_end(s, k) == trim_end(s.take(e), k),
    decreases s.len() - e,
{
    if e < s.len() {
        assert(s.drop_last().take(e) == s.take(e));
        lemma_trim_end_take(s.drop_last(), k, e);
    } else {
        assert(s.take(e) == s);
    }
}

/// Trims characters of class `k` from both ends of `v`.
pub fn trim_class(v: &Vec<char>, k: Class) -> (r: Vec<char>)
    ensures
        r@ == trim(v@, k),
{
    let mut a: usize = 0;
    while a < v.len() && is_in(k, v[a])
        invariant
            a <= v.len(),
            forall|j: int| 0 <= j < a ==> in_class(k, #[trigger] v@[j]),
        decreases v.len() - a,
    {
        a = a + 1;
    }
    proof {
        lemma_trim_start_skip(v@, k, a as int);
    }
    let ghost s1 = v@.skip(a as int);
    assert(trim_start(s1, k) == s1);
    let mut e: usize = v.len();
    while e > a && is_in(k, v[e - 1])
        invariant
            a <= e <= v.len(),
            s1 == v@.skip(a as int),
            forall|j: int| e - a <= j < s1.len() ==> in_class(k, #[trigger] s1[j]),
        decreases e,
    {
        e = e - 1;
    }
    proof {
        lemma_trim_end_take(s1, k, e - a);
    }
    let ghost s2 = s1.take(e - a);
    assert(trim_end(s2, k) == s2);
    let mut r: Vec<char> = Vec::new();
    let mut i: usize = a;
    while i < e
        invariant
            a <= i <= e <= v.len(),
            r@ == v@.subrange(a as int, i as int),
        decreases e - i,
    {
        r.push(v[i]);
        i = i + 1;
    }
    assert(r@ == s2);
    r
}

// ------------------------------------------------------------------ searching

/// Index of the first occurrence of `c` in `s`, if any.
pub open spec fn find_char(s: Seq<char>, c: char) -> Option<int>
    decreases s.len(),
{
    if s.len() == 0 {
        None
    } else if s[0] == c {
        Some(0)
    } else {
        match find_char(s.drop_first(), c) {
            Some(i) => Some(i + 1),
            None => None,
        }
    }
}

pub proof fn lemma_find_char(s: Seq<char>, c: char)
    ensures
        match find_char(s, c) {
            Some(i) => 0 <= i < s.len() && s[i] == c && forall|j: int| 0 <= j < i ==> s[j] != c,
            None => forall|j: int| 0 <= j < s.len() ==> s[j] != c,
        },
    decreases s.len(),
{
    if s.len() > 0 {
        lemma_find_char(s.drop_first(), c);
        if s[0] != c {
            assert forall|j: int| 1 <= j < s.len() implies s[j] == s.drop_first()[j - 1] by {}
        }
    }
}

/// First position of `c` in `v`.
pub fn position(v: &Vec<char>, c: char) -> (r: Option<usize>)
    ensures
        match r {
            Some(i) => find_char(v@, c) == Some(i as int),
            None => find_char(v@, c) is None,
        },
{
    proof {
        lemma_find_char(v@, c);
    }
    let mut i: usize = 0;
    while i < v.len()
        invariant
            i <= v.len(),
            forall|j: int| 0 <= j < i ==> v@[j] != c,
        decreases v.len() - i,
    {
        if v[i] == c {
            proof {
                lemma_find_char(v@, c);
                match find_char(v@, c) {
                    Some(k) => {
                        assert(k == i);
                    },
                    None => {},
                }
            }
            return Some(i);
        }
        i = i + 1;
    }
    proof {
        match find_char(v@, c) {
            Some(k) => {
                assert(v@[k] == c);
            },
            None => {},
        }
    }
    None
}

/// The elements `v[from..to]`.
pub fn slice_chars(v: &Vec<char>, from: usize, to: usize) -> (r: Vec<char>)
    requires
        from <= to <= v.len(),
    ensures
        r@ == v@.subrange(from as int, to as int),
{
    let mut r: Vec<char> = Vec::new();
    let mut i: usize = from;
    while i < to
        invariant
            from <= i <= to <= v.len(),
            r@ == v@.subrange(from as int, i as int),
        decreases to - i,
    {
        r.push(v[i]);
        i = i + 1;
    }
    r
}

/// `v` without any occurrence of `c`.
pub open spec fn without(s: Seq<char>, c: char) -> Seq<char> {
    s.filter(|x: char| x != c)
}

pub fn remove_char(v: &Vec<char>, c: char) -> (r: Vec<char>)
    ensures
        r@ == without(v@, c),
{
    let mut r: Vec<char> = Vec::new();
    let mut i: usize = 0;
    while i < v.len()
        invariant
            i <= v.len(),
            r@ == without(v@.take(i as int), c),
        decreases v.len() - i,
    {
        assert(v@.take(i + 1).drop_last() == v@.take(i as int));
        reveal_with_fuel(Seq::filter, 1);
        if v[i] != c {
            r.push(v[i]);
        }
        i = i + 1;
    }
    assert(v@.take(v.len() as int) == v@);
    r
}

/// Whether two character vectors are equal.
pub fn same_chars(a: &Vec<char>, b: &Vec<char>) -> (r: bool)
    ensures
        r == (a@ == b@),
{
    if a.len() != b.len() {
        return false;
    }
    let mut i: usize = 0;
    while i < a.len()
        invariant
            i <= a.len() == b.len(),
            forall|j: int| 0 <= j < i ==> a@[j] == b@[j],
        decreases a.len() - i,
    {
        if a[i] != b[i] {
            return false;
        }
        i = i + 1;
    }
    assert(a@ =~= b@);
    true
}

/// Whether `v` equals the literal `t`.
pub fn eq_str(v: &Vec<char>, t: &str) -> (r: bool)
    ensures
        r == (v@ == t@),
{
    let w = chars_of(t);
    same_chars(v, &w)
}

} // verus!

verus! {

// ------------------------------------------------------------------ building messages

/// Appends the decimal digits of `n`.
pub fn push_dec(s: &mut String, n: u64)
    ensures
        final(s)@ == old(s)@ + crate::number::dec(n as nat),
{
    let d = crate::number::dec_chars(n);
    push_all(s, &d);
}

/// Appends `n` in hexadecimal, zero-padded to `w` digits.
pub fn push_hex(s: &mut String, n: u64, w: usize, upper: bool)
    ensures
        final(s)@ == old(s)@ + crate::number::hex_text(n as nat, w as nat, upper),
{
    let d = crate::number::hex_chars(n, w, upper);
    push_all(s, &d);
}

// ------------------------------------------------------------------ Unicode case and classes

/// The Unicode lower-case mapping of a string, as `str::to_lowercase` computes it.
pub uninterp spec fn unicode_lower(s: Seq<char>) -> Seq<char>;

/// Calls `str::to_lowercase`. Its result depends on `s` alone; ASCII text becomes its ASCII
/// lower case. What the Unicode tables make of other characters is left unsaid here.
#[verifier::external_body]
pub(crate) fn to_lowercase(s: &str) -> (r: String)
    ensures
        r@ == unicode_lower(s@),
        (forall|i: int| 0 <= i < s@.len() ==> #[trigger] s@[i] <= '\x7f') ==> r@ == lower_seq(s@),
{
    s.to_lowercase()
}

/// Whether a character is alphabetic or numeric in the Unicode sense (`char::is_alphanumeric`).
pub uninterp spec fn unicode_alnum(c: char) -> bool;

/// Calls `char::is_alphanumeric`; the answer depends on `c` alone. Among ASCII characters
/// exactly the letters and digits count; other characters are left to the Unicode tables.
#[verifier::external_body]
pub(crate) fn is_alphanumeric(c: char) -> (r: bool)
    ensures
        r == unicode_alnum(c),
        c <= '\x7f' ==> (r <==> ('a' <= c <= 'z' || 'A' <= c <= 'Z' || '0' <= c <= '9')),
{
    c.is_alphanumeric()
}

/// The characters that `String::from_utf8_lossy` makes of a byte string.
pub uninterp spec fn utf8_lossy(b: Seq<u8>) -> Seq<char>;

/// Calls `String::from_utf8_lossy`. Its result depends on the bytes alone; ASCII bytes become
/// the characters with the same codes. How invalid sequences are replaced is left unsaid.
#[verifier::external_body]
pub(crate) fn from_utf8_lossy(b: &[u8]) -> (r: String)
    ensures
        r@ == utf8_lossy(b@),
        (forall|i: int| 0 <= i < b@.len() ==> #[trigger] b@[i] < 0x80) ==> r@ == b@.map_values(
            |x: u8| x as char,
        ),
{
    String::from_utf8_lossy(b).into_owned()
}

} // verus!

verus! {

// ------------------------------------------------------------------ more searching

/// Index of the last occurrence of `c` in `s`, if any.
pub open spec fn rfind_char(s: Seq<char>, c: char) -> Option<int>
    decreases s.len(),
{
    if s.len() == 0 {
        None
    } else if s.last() == c {
        Some(s.len() - 1)
    } else {
        rfind_char(s.drop_last(), c)
    }
}

pub proof fn lemma_rfind_char(s: Seq<char>, c: char)
    ensures
        match rfind_char(s, c) {
            Some(i) => 0 <= i < s.len() && s[i] == c && forall|j: int| i < j < s.len() ==> s[j] != c,
            None => forall|j: int| 0 <= j < s.len() ==> s[j] != c,
        },
    decreases s.len(),
{
    if s.len() > 0 {
        lemma_rfind_char(s.drop_last(), c);
        if s.last() != c {
            assert forall|j: int| 0 <= j < s.len() - 1 implies s[j] == s.drop_last()[j] by {}
        }
    }
}

/// Last position of `c` in `v`.
pub fn rposition(v: &Vec<char>, c: char) -> (r: Option<usize>)
    ensures
        match r {
            Some(i) => rfind_char(v@, c) == Some(i as int),
            None => rfind_char(v@, c) is None,
        },
{
    let mut i: usize = v.len();
    assert(v@.take(v.len() as int) == v@);
    while i > 0
        invariant
            i <= v.len(),
            rfind_char(v@, c) == rfind_char(v@.take(i as int), c),
        decreases i,
    {
        assert(v@.take(i as int).drop_last() == v@.take(i - 1));
        assert(v@.take(i as int).last() == v@[i - 1]);
        if v[i - 1] == c {
            return Some(i - 1);
        }
        i = i - 1;
    }
    assert(v@.take(0).len() == 0);
    None
}

/// Whether `t` occurs in `s` as a contiguous piece.
pub open spec fn has_piece(s: Seq<char>, t: Seq<char>) -> bool {
    exists|i: int| 0 <= i && i + t.len() <= s.len() && #[trigger] s.subrange(i, i + t.len()) == t
}

/// Whether `needle` occurs in `hay` (`str::contains`).
pub fn contains_chars(hay: &Vec<char>, needle: &Vec<char>) -> (r: bool)
    ensures
        r == has_piece(hay@, needle@),
{
    if needle.len() > hay.len() {
        return false;
    }
    let mut i: usize = 0;
    while i <= hay.len() - needle.len()
        invariant
            needle.len() <= hay.len(),
            i <= hay.len(),
            forall|k: int| 0 <= k < i ==> #[trigger] hay@.subrange(k, k + needle@.len()) != needle@,
        decreases hay.len() - i,
    {
        let mut j: usize = 0;
        let mut ok = true;
        while j < needle.len()
            invariant
                i + needle.len() <= hay.len(),
                j <= needle.len(),
                ok == forall|m: int| 0 <= m < j ==> hay@[i + m] == needle@[m],
            decreases needle.len() - j,
        {
            if hay[i + j] != needle[j] {
                ok = false;
            }
            j = j + 1;
        }
        if ok {
            assert(hay@.subrange(i as int, i + needle@.len()) =~= needle@);
            return true;
        }
        assert(hay@.subrange(i as int, i + needle@.len()) != needle@) by {
            let m = choose|m: int| 0 <= m < needle@.len() && hay@[i + m] != needle@[m];
            assert(hay@.subrange(i as int, i + needle@.len())[m] == hay@[i + m]);
        }
        i = i + 1;
    }
    assert forall|k: int| 0 <= k && k + needle@.len() <= hay@.len() implies #[trigger] hay@.subrange(k, k + needle@.len()) != needle@ by {
        assert(k < i);
    }
    false
}

} // verus!

verus! {

// ------------------------------------------------------------------ what splitting, joining and trimming keep

/// Every character of `s` has property `p`.
pub open spec fn all_chars(s: Seq<char>, p: spec_fn(char) -> bool) -> bool {
    forall|j: int| 0 <= j < s.len() ==> p(#[trigger] s[j])
}

proof fn lemma_split_state_chars(s: Seq<char>, k: Class, p: spec_fn(char) -> bool)
    requires
        all_chars(s, p),
    ensures
        forall|i: int| 0 <= i < split_state(s, k).0.len() ==> all_chars(#[trigger] split_state(s, k).0[i], p),
        all_chars(split_state(s, k).1, p),
    decreases s.len(),
{
    if s.len() > 0 {
        let t = s.drop_last();
        assert forall|j: int| 0 <= j < t.len() implies p(#[trigger] t[j]) by {
            assert(t[j] == s[j]);
        }
        lemma_split_state_chars(t, k, p);
        let (done, cur) = split_state(t, k);
        assert(p(s[s.len() - 1]));
        if in_class(k, s.last()) {
            if cur.len() > 0 {
                assert forall|i: int| 0 <= i < done.push(cur).len() implies all_chars(
                    #[trigger] done.push(cur)[i],
                    p,
                ) by {
                    if i < done.len() {
                        assert(done.push(cur)[i] == done[i]);
                    }
                }
            }
        } else {
            assert forall|j: int| 0 <= j < cur.push(s.last()).len() implies p(
                #[trigger] cur.push(s.last())[j],
            ) by {
                if j < cur.len() {
                    assert(cur.push(s.last())[j] == cur[j]);
                }
            }
        }
    }
}

/// The runs of `s` hold only characters of `s`: a property of every character of `s` holds of
/// every character of every run.
pub proof fn lemma_tokens_chars(s: Seq<char>, k: Class, p: spec_fn(char) -> bool)
    requires
        all_chars(s, p),
    ensures
        forall|i: int| 0 <= i < tokens(s, k).len() ==> all_chars(#[trigger] tokens(s, k)[i], p),
{
    lemma_split_state_chars(s, k, p);
    let (done, cur) = split_state(s, k);
    if cur.len() > 0 {
        assert forall|i: int| 0 <= i < done.push(cur).len() implies all_chars(#[trigger] done.push(cur)[i], p) by {
            if i < done.len() {
                assert(done.push(cur)[i] == done[i]);
            }
        }
    }
}

/// Joining keeps a property that every part and the separator have.
pub proof fn lemma_join_chars(parts: Seq<Seq<char>>, sep: Seq<char>, p: spec_fn(char) -> bool)
    requires
        forall|i: int| 0 <= i < parts.len() ==> all_chars(#[trigger] parts[i], p),
        all_chars(sep, p),
    ensures
        all_chars(join(parts, sep), p),
    decreases parts.len(),
{
    if parts.len() > 1 {
        let front = parts.drop_last();
        assert forall|i: int| 0 <= i < front.len() implies all_chars(#[trigger] front[i], p) by {
            assert(front[i] == parts[i]);
        }
        lemma_join_chars(front, sep, p);
        let a = join(front, sep);
        let l = parts[parts.len() - 1];
        assert(all_chars(l, p));
        assert forall|j: int| 0 <= j < (a + sep + l).len() implies p(#[trigger] (a + sep + l)[j]) by {
            if j < a.len() {
                assert((a + sep + l)[j] == a[j]);
            } else if j < a.len() + sep.len() {
                assert((a + sep + l)[j] == sep[j - a.len()]);
            } else {
                assert((a + sep + l)[j] == l[j - a.len() - sep.len()]);
            }
        }
    } else if parts.len() == 1 {
        assert(all_chars(parts[0], p));
    }
}

proof fn lemma_trim_start_chars(s: Seq<char>, k: Class, p: spec_fn(char) -> bool)
    requires
        all_chars(s, p),
    ensures
        all_chars(trim_start(s, k), p),
        trim_start(s, k).len() > 0 ==> !in_class(k, trim_start(s, k)[0]),
    decreases s.len(),
{
    if s.len() > 0 && in_class(k, s[0]) {
        let t = s.drop_first();
        assert forall|j: int| 0 <= j < t.len() implies p(#[trigger] t[j]) by {
            assert(t[j] == s[j + 1]);
        }
        lemma_trim_start_chars(t, k, p);
    }
}

proof fn lemma_trim_end_chars(s: Seq<char>, k: Class, p: spec_fn(char) -> bool)
    requires
        all_chars(s, p),
    ensures
        all_chars(trim_end(s, k), p),
        trim_end(s, k).len() <= s.len(),
        forall|j: int| 0 <= j < trim_end(s, k).len() ==> #[trigger] trim_end(s, k)[j] == s[j],
        trim_end(s, k).len() > 0 ==> !in_class(k, trim_end(s, k).last()),
    decreases s.len(),
{
    if s.len() > 0 && in_class(k, s.last()) {
        let t = s.drop_last();
        assert forall|j: int| 0 <= j < t.len() implies p(#[trigger] t[j]) by {
            assert(t[j] == s[j]);
        }
        lemma_trim_end_chars(t, k, p);
        assert forall|j: int| 0 <= j < trim_end(t, k).len() implies #[trigger] trim_end(t, k)[j] == s[j] by {
            assert(t[j] == s[j]);
        }
    }
}

/// Trimming keeps only characters of `s`, and what is left neither starts nor ends with a
/// character of the class.
pub proof fn lemma_trim_chars(s: Seq<char>, k: Class, p: spec_fn(char) -> bool)
    requires
        all_chars(s, p),
    ensures
        all_chars(trim(s, k), p),
        trim(s, k).len() > 0 ==> !in_class(k, trim(s, k)[0]) && !in_class(k, trim(s, k).last()),
{
    lemma_trim_start_chars(s, k, p);
    lemma_trim_end_chars(trim_start(s, k), k, p);
}

} // verus!

verus! {

// ------------------------------------------------------------------ ordering text

/// `a` sorts before or equal to `b`, comparing character by character (the order of `String`).
pub open spec fn lex_le(a: Seq<char>, b: Seq<char>) -> bool
    decreases a.len(),
{
    if a.len() == 0 {
        true
    } else if b.len() == 0 {
        false
    } else if a[0] != b[0] {
        a[0] < b[0]
    } else {
        lex_le(a.drop_first(), b.drop_first())
    }
}

/// Whether `a` sorts before or equal to `b`.
pub fn lex_le_chars(a: &Vec<char>, b: &Vec<char>) -> (r: bool)
    ensures
        r == lex_le(a@, b@),
{
    let mut i: usize = 0;
    assert(a@.skip(0) == a@);
    assert(b@.skip(0) == b@);
    while i < a.len() && i < b.len() && a[i] == b[i]
        invariant
            i <= a@.len(),
            i <= b@.len(),
            lex_le(a@, b@) == lex_le(a@.skip(i as int), b@.skip(i as int)),
        decreases a.len() - i,
    {
        assert(a@.skip(i as int).drop_first() == a@.skip(i + 1));
        assert(b@.skip(i as int).drop_first() == b@.skip(i + 1));
        i = i + 1;
    }
    if i == a.len() {
        true
    } else if i == b.len() {
        false
    } else {
        assert(a@.skip(i as int)[0] == a@[i as int]);
        assert(b@.skip(i as int)[0] == b@[i as int]);
        a[i] < b[i]
    }
}

} // verus!

verus! {

/// Any two texts are ordered one way or the other.
pub proof fn lemma_lex_le_total(a: Seq<char>, b: Seq<char>)
    ensures
        lex_le(a, b) || lex_le(b, a),
    decreases a.len(),
{
    if a.len() > 0 && b.len() > 0 {
        if a[0] == b[0] {
            lemma_lex_le_total(a.drop_first(), b.drop_first());
        }
    }
}

/// The text order is transitive.
pub proof fn lemma_lex_le_trans(a: Seq<char>, b: Seq<char>, c: Seq<char>)
    requires
        lex_le(a, b),
        lex_le(b, c),
    ensures
        lex_le(a, c),
    decreases a.len(),
{
    if a.len() > 0 && b.len() > 0 && c.len() > 0 && a[0] == b[0] && b[0] == c[0] {
        lemma_lex_le_trans(a.drop_first(), b.drop_first(), c.drop_first());
    }
}

} // verus!

verus! {

proof fn lemma_split_append(x: Seq<char>, b: Seq<char>, k: Class)
    requires
        split_state(x, k).1.len() == 0,
    ensures
        split_state(x + b, k) == (split_state(x, k).0 + split_state(b, k).0, split_state(b, k).1),
    decreases b.len(),
{
    if b.len() == 0 {
        assert(x + b =~= x);
        assert(split_state(x, k).0 + Seq::<Seq<char>>::empty() =~= split_state(x, k).0);
        assert(split_state(x, k).1 =~= Seq::<char>::empty());
    } else {
        lemma_split_append(x, b.drop_last(), k);
        assert((x + b).drop_last() =~= x + b.drop_last());
        assert((x + b).last() == b.last());
        let d0 = split_state(x, k).0;
        let (db, cb) = split_state(b.drop_last(), k);
        if in_class(k, b.last()) && cb.len() > 0 {
            assert((d0 + db).push(cb) =~= d0 + db.push(cb));
        }
    }
}

/// Splitting at a separator splits the runs: the runs of `a`, a separator, then `b` are the
/// runs of `a` followed by the runs of `b`.
pub proof fn lemma_tokens_concat(a: Seq<char>, c: char, b: Seq<char>, k: Class)
    requires
        in_class(k, c),
    ensures
        tokens(a + seq![c] + b, k) == tokens(a, k) + tokens(b, k),
{
    let x = a + seq![c];
    assert(x.drop_last() =~= a);
    assert(x.last() == c);
    assert(split_state(x, k) == (tokens(a, k), Seq::<char>::empty()));
    lemma_split_append(x, b, k);
    let (db, cb) = split_state(b, k);
    if cb.len() > 0 {
        assert((tokens(a, k) + db).push(cb) =~= tokens(a, k) + db.push(cb));
    }
}

} // verus!

verus! {

/// No two neighbouring characters of `s` are both spaces.
pub open spec fn no_double_space(s: Seq<char>) -> bool {
    forall|j: int| 0 <= j < s.len() - 1 ==> !(#[trigger] s[j] == ' ' && s[j + 1] == ' ')
}

/// Joining non-empty, space-free parts with single spaces leaves no two spaces together, and
/// neither starts nor ends with a space.
pub proof fn lemma_join_single_spaces(parts: Seq<Seq<char>>)
    requires
        forall|i: int| 0 <= i < parts.len() ==> (#[trigger] parts[i]).len() > 0 && all_chars(
            parts[i],
            |c: char| c != ' ',
        ),
    ensures
        no_double_space(join(parts, " "@)),
        parts.len() > 0 ==> join(parts, " "@).len() > 0 && join(parts, " "@)[0] != ' ' && join(
            parts,
            " "@,
        ).last() != ' ',
    decreases parts.len(),
{
    reveal_strlit(" ");
    if parts.len() == 1 {
        assert(all_chars(parts[0], |c: char| c != ' '));
    } else if parts.len() > 1 {
        let front = parts.drop_last();
        assert forall|i: int| 0 <= i < front.len() implies (#[trigger] front[i]).len() > 0 && all_chars(
            front[i],
            |c: char| c != ' ',
        ) by {
            assert(front[i] == parts[i]);
        }
        lemma_join_single_spaces(front);
        let a = join(front, " "@);
        let l = parts[parts.len() - 1];
        assert(l.len() > 0 && all_chars(l, |c: char| c != ' '));
        let r = a + " "@ + l;
        assert(join(parts, " "@) == r);
        assert forall|j: int| 0 <= j < r.len() - 1 implies !(#[trigger] r[j] == ' ' && r[j + 1] == ' ') by {
            if j < a.len() - 1 {
                assert(r[j] == a[j] && r[j + 1] == a[j + 1]);
            } else if j == a.len() - 1 {
                assert(r[j] == a.last());
            } else if j == a.len() {
                assert(r[j + 1] == l[0]);
            } else {
                assert(r[j] == l[j - a.len() - 1]);
            }
        }
        assert(r[0] == a[0]);
        assert(r.last() == l.last());
        assert(l.last() == l[l.len() - 1]);
    }
}

proof fn lemma_trim_start_is_suffix(s: Seq<char>, k: Class)
    ensures
        exists|m: int| 0 <= m <= s.len() && trim_start(s, k) == s.skip(m),
    decreases s.len(),
{
    if s.len() > 0 && in_class(k, s[0]) {
        lemma_trim_start_is_suffix(s.drop_first(), k);
        let m = choose|m: int| 0 <= m <= s.drop_first().len() && trim_start(s.drop_first(), k) == s.drop_first().skip(m);
        assert(s.drop_first().skip(m) =~= s.skip(m + 1));
    } else {
        assert(s.skip(0) =~= s);
    }
}

proof fn lemma_trim_end_is_prefix(s: Seq<char>, k: Class)
    ensures
        exists|m: int| 0 <= m <= s.len() && trim_end(s, k) == s.take(m),
    decreases s.len(),
{
    if s.len() > 0 && in_class(k, s.last()) {
        lemma_trim_end_is_prefix(s.drop_last(), k);
        let m = choose|m: int| 0 <= m <= s.drop_last().len() && trim_end(s.drop_last(), k) == s.drop_last().take(m);
        assert(s.drop_last().take(m) =~= s.take(m));
    } else {
        assert(s.take(s.len() as int) =~= s);
    }
}

/// Trimming keeps a piece of `s` in one stretch, so no two spaces become neighbours.
pub proof fn lemma_trim_keeps_single_spaces(s: Seq<char>, k: Class)
    requires
        no_double_space(s),
    ensures
        no_double_space(trim(s, k)),
{
    lemma_trim_start_is_suffix(s, k);
    let m = choose|m: int| 0 <= m <= s.len() && trim_start(s, k) == s.skip(m);
    let t = s.skip(m);
    lemma_trim_end_is_prefix(t, k);
    let e = choose|e: int| 0 <= e <= t.len() && trim_end(t, k) == t.take(e);
    let r = t.take(e);
    assert forall|j: int| 0 <= j < r.len() - 1 implies !(#[trigger] r[j] == ' ' && r[j + 1] == ' ') by {
        assert(r[j] == s[m + j] && r[j + 1] == s[m + j + 1]);
    }
}

} // verus!
