//! Reading and writing numbers as hexadecimal and decimal text.
use vstd::prelude::*;

verus! {

// ------------------------------------------------------------------ reading hexadecimal

/// The value of one hexadecimal digit, either case.
pub open spec fn hex_digit(c: char) -> Option<nat> {
    if '0' <= c && c <= '9' {
        Some((c as nat - '0' as nat) as nat)
    } else if 'a' <= c && c <= 'f' {
        Some((c as nat - 'a' as nat + 10) as nat)
    } else if 'A' <= c && c <= 'F' {
        Some((c as nat - 'A' as nat + 10) as nat)
    } else {
        None
    }
}

/// Every character is a hexadecimal digit (and there is at least one): `is_ascii_hexdigit` over
/// a non-empty string.
pub open spec fn is_hex_text(s: Seq<char>) -> bool {
    s.len() > 0 && forall|i: int| 0 <= i < s.len() ==> (#[trigger] hex_digit(s[i])) is Some
}

/// The number written by the hexadecimal digits `s`, most significant first.
pub open spec fn hex_value(s: Seq<char>) -> nat
    decreases s.len(),
{
    if s.len() == 0 {
        0
    } else {
        hex_value(s.drop_last()) * 16 + hex_digit(s.last()).unwrap_or(0)
    }
}

/// `u32::from_str_radix(s, 16)`: an optional `+`, then one or more hexadecimal digits whose
/// value fits in 32 bits.
pub open spec fn parse_hex(s: Seq<char>) -> Option<u32> {
    let body = if s.len() > 0 && s[0] == '+' {
        s.drop_first()
    } else {
        s
    };
    if is_hex_text(body) && hex_value(body) <= u32::MAX {
        Some(hex_value(body) as u32)
    } else {
        None
    }
}

pub fn hex_digit_of(c: char) -> (r: Option<u32>)
    ensures
        match hex_digit(c) {
            Some(d) => r == Some(d as u32),
            None => r is None,
        },
{
    if '0' <= c && c <= '9' {
        Some((c as u32) - ('0' as u32))
    } else if 'a' <= c && c <= 'f' {
        Some((c as u32) - ('a' as u32) + 10)
    } else if 'A' <= c && c <= 'F' {
        Some((c as u32) - ('A' as u32) + 10)
    } else {
        None
    }
}

/// Whether `v` is non-empty and made only of hexadecimal digits.
pub fn is_hex(v: &Vec<char>) -> (r: bool)
    ensures
        r == is_hex_text(v@),
{
    if v.len() == 0 {
        return false;
    }
    let mut i: usize = 0;
    while i < v.len()
        invariant
            i <= v.len(),
            forall|j: int| 0 <= j < i ==> (#[trigger] hex_digit(v@[j])) is Some,
        decreases v.len() - i,
    {
        if hex_digit_of(v[i]).is_none() {
            assert(hex_digit(v@[i as int]) is None);
            return false;
        }
        i = i + 1;
    }
    true
}

proof fn lemma_hex_value_grows(s: Seq<char>, k: int)
    requires
        0 <= k <= s.len(),
    ensures
        hex_value(s.take(k)) <= hex_value(s),
    decreases s.len() - k,
{
    if k < s.len() {
        lemma_hex_value_grows(s, k + 1);
        assert(s.take(k + 1).drop_last() == s.take(k));
    } else {
        assert(s.take(k) == s);
    }
}

/// Reads hexadecimal text as `u32::from_str_radix(_, 16)` does.
pub fn parse_hex_u32(v: &Vec<char>) -> (r: Option<u32>)
    ensures
        r == parse_hex(v@),
{
    let start: usize = if v.len() > 0 && v[0] == '+' {
        1
    } else {
        0
    };
    let ghost body = if v@.len() > 0 && v@[0] == '+' {
        v@.drop_first()
    } else {
        v@
    };
    assert(body == v@.skip(start as int));
    if start >= v.len() {
        return None;
    }
    let mut acc: u64 = 0;
    let mut i: usize = start;
    while i < v.len()
        invariant
            start <= i <= v.len(),
            start < v.len(),
            body == v@.skip(start as int),
            body == (if v@.len() > 0 && v@[0] == '+' {
                v@.drop_first()
            } else {
                v@
            }),
            acc == hex_value(body.take(i - start)),
            acc <= u32::MAX,
            forall|j: int| 0 <= j < i - start ==> (#[trigger] hex_digit(body[j])) is Some,
        decreases v.len() - i,
    {
        assert(body.take(i - start + 1).drop_last() == body.take(i - start));
        assert(body[i - start] == v@[i as int]);
        match hex_digit_of(v[i]) {
            None => {
                assert(hex_digit(body[i - start]) is None);
                assert(!is_hex_text(body));
                return None;
            },
            Some(d) => {
                let next = acc * 16 + d as u64;
                if next > 0xFFFF_FFFF {
                    proof {
                        lemma_hex_value_grows(body, i - start + 1);
                        assert(body.take(i - start + 1).last() == body[i - start]);
                        assert(hex_value(body.take(i - start + 1)) == next);
                    }
                    return None;
                }
                acc = next;
            },
        }
        i = i + 1;
    }
    assert(body.take(i - start) == body);
    Some(acc as u32)
}

// ------------------------------------------------------------------ writing numbers

pub open spec fn digit_char(d: nat, upper: bool) -> char {
    if d < 10 {
        ('0' as nat + d) as char
    } else if upper {
        ('A' as nat + d - 10) as char
    } else {
        ('a' as nat + d - 10) as char
    }
}

/// The digits of `v` in base `b` with no leading zeros ("0" for zero).
pub open spec fn digits(v: nat, b: nat, upper: bool) -> Seq<char>
    recommends
        b >= 2,
    decreases v,
    when b >= 2
{
    if v < b {
        seq![digit_char(v, upper)]
    } else {
        proof {
            assert(v / b < v) by (nonlinear_arith)
                requires
                    v >= b,
                    b >= 2,
            ;
        }
        digits(v / b, b, upper).push(digit_char(v % b, upper))
    }
}

/// `s` padded on the left with `'0'` to at least `w` characters (the `{:0w}` format).
pub open spec fn zero_pad(s: Seq<char>, w: nat) -> Seq<char> {
    if s.len() >= w {
        s
    } else {
        Seq::new((w - s.len()) as nat, |i: int| '0') + s
    }
}

/// `format!("{v}")`.
pub open spec fn dec(v: nat) -> Seq<char> {
    digits(v, 10, true)
}

/// `format!("{v:0w$X}")` when `upper`, `format!("{v:0w$x}")` otherwise.
pub open spec fn hex_text(v: nat, w: nat, upper: bool) -> Seq<char> {
    zero_pad(digits(v, 16, upper), w)
}

fn digit_of(d: u64, upper: bool) -> (c: char)
    requires
        d < 16,
    ensures
        c == digit_char(d as nat, upper),
{
    if d < 10 {
        ((d as u8) + 48u8) as char
    } else if upper {
        ((d as u8) - 10 + 65u8) as char
    } else {
        ((d as u8) - 10 + 97u8) as char
    }
}

fn digits_of(v: u64, b: u64, upper: bool) -> (r: Vec<char>)
    requires
        2 <= b <= 16,
    ensures
        r@ == digits(v as nat, b as nat, upper),
    decreases v,
{
    if v < b {
        let mut r: Vec<char> = Vec::new();
        r.push(digit_of(v, upper));
        r
    } else {
        assert(v / b < v) by (nonlinear_arith)
            requires
                v >= b,
                b >= 2,
        ;
        let mut r = digits_of(v / b, b, upper);
        r.push(digit_of(v % b, upper));
        r
    }
}

pub fn pad_zeros(s: Vec<char>, w: usize) -> (r: Vec<char>)
    ensures
        r@ == zero_pad(s@, w as nat),
{
    if s.len() >= w {
        return s;
    }
    let mut r: Vec<char> = Vec::new();
    let n = w - s.len();
    while r.len() < n
        invariant
            r.len() <= n,
            forall|i: int| 0 <= i < r.len() ==> r@[i] == '0',
        decreases n - r.len(),
    {
        r.push('0');
    }
    let ghost zeros = r@;
    crate::text::append_chars(&mut r, &s);
    assert(zeros =~= Seq::new((w - s@.len()) as nat, |i: int| '0'));
    r
}

/// Decimal digits of `v`.
pub fn dec_chars(v: u64) -> (r: Vec<char>)
    ensures
        r@ == dec(v as nat),
{
    digits_of(v, 10, true)
}

/// Hexadecimal digits of `v`, zero-padded to `w`.
pub fn hex_chars(v: u64, w: usize, upper: bool) -> (r: Vec<char>)
    ensures
        r@ == hex_text(v as nat, w as nat, upper),
{
    pad_zeros(digits_of(v, 16, upper), w)
}

// ------------------------------------------------------------------ reading decimal

pub open spec fn dec_digit(c: char) -> Option<nat> {
    if '0' <= c && c <= '9' {
        Some((c as nat - '0' as nat) as nat)
    } else {
        None
    }
}

pub open spec fn dec_value(s: Seq<char>) -> nat
    decreases s.len(),
{
    if s.len() == 0 {
        0
    } else {
        dec_value(s.drop_last()) * 10 + dec_digit(s.last()).unwrap_or(0)
    }
}

pub open spec fn all_dec(s: Seq<char>) -> bool {
    forall|i: int| 0 <= i < s.len() ==> (#[trigger] dec_digit(s[i])) is Some
}

/// `s.parse::<usize>()`: an optional `+`, then one or more decimal digits whose value fits.
pub open spec fn parse_dec(s: Seq<char>) -> Option<usize> {
    let body = if s.len() > 0 && s[0] == '+' {
        s.drop_first()
    } else {
        s
    };
    if body.len() > 0 && all_dec(body) && dec_value(body) <= usize::MAX {
        Some(dec_value(body) as usize)
    } else {
        None
    }
}

proof fn lemma_dec_value_grows(s: Seq<char>, k: int)
    requires
        0 <= k <= s.len(),
    ensures
        dec_value(s.take(k)) <= dec_value(s),
    decreases s.len() - k,
{
    if k < s.len() {
        lemma_dec_value_grows(s, k + 1);
        assert(s.take(k + 1).drop_last() == s.take(k));
    } else {
        assert(s.take(k) == s);
    }
}

/// Reads decimal text as `str::parse::<usize>` does.
pub fn parse_usize(v: &Vec<char>) -> (r: Option<usize>)
    ensures
        r == parse_dec(v@),
{
    let start: usize = if v.len() > 0 && v[0] == '+' {
        1
    } else {
        0
    };
    let ghost body = if v@.len() > 0 && v@[0] == '+' {
        v@.drop_first()
    } else {
        v@
    };
    assert(body == v@.skip(start as int));
    if start >= v.len() {
        return None;
    }
    let mut acc: usize = 0;
    let mut i: usize = start;
    while i < v.len()
        invariant
            start <= i <= v.len(),
            start < v.len(),
            body == v@.skip(start as int),
            body == (if v@.len() > 0 && v@[0] == '+' {
                v@.drop_first()
            } else {
                v@
            }),
            acc == dec_value(body.take(i - start)),
            forall|j: int| 0 <= j < i - start ==> (#[trigger] dec_digit(body[j])) is Some,
        decreases v.len() - i,
    {
        assert(body.take(i - start + 1).drop_last() == body.take(i - start));
        assert(body[i - start] == v@[i as int]);
        let c = v[i];
        if !('0' <= c && c <= '9') {
            assert(dec_digit(body[i - start]) is None);
            assert(!all_dec(body));
            return None;
        }
        let d = (c as u32 - '0' as u32) as usize;
        if acc > (usize::MAX - d) / 10 {
            proof {
                assert(acc * 10 + d > usize::MAX) by (nonlinear_arith)
                    requires
                        acc > (usize::MAX - d) / 10,
                        d <= 9,
                ;
                lemma_dec_value_grows(body, i - start + 1);
                assert(body.take(i - start + 1).last() == body[i - start]);
                assert(dec_value(body.take(i - start + 1)) == acc * 10 + d);
            }
            return None;
        }
        assert(acc * 10 + d <= usize::MAX) by (nonlinear_arith)
            requires
                acc <= (usize::MAX - d) / 10,
                d <= 9,
        ;
        acc = acc * 10 + d;
        i = i + 1;
    }
    assert(body.take(i - start) == body);
    Some(acc)
}

} // verus!

verus! {

pub open spec fn pow16(n: nat) -> nat
    decreases n,
{
    if n == 0 {
        1
    } else {
        16 * pow16((n - 1) as nat)
    }
}

/// `k` hexadecimal digits write a number below `16^k`.
pub proof fn lemma_hex_value_bound(s: Seq<char>)
    requires
        forall|i: int| 0 <= i < s.len() ==> (#[trigger] hex_digit(s[i])) is Some,
    ensures
        hex_value(s) < pow16(s.len()),
    decreases s.len(),
{
    if s.len() > 0 {
        let t = s.drop_last();
        assert forall|i: int| 0 <= i < t.len() implies (#[trigger] hex_digit(t[i])) is Some by {
            assert(t[i] == s[i]);
        }
        lemma_hex_value_bound(t);
        assert(hex_digit(s[s.len() - 1]) is Some);
        assert(hex_digit(s.last()).unwrap() < 16);
    }
}

/// Up to eight hexadecimal digits (with no sign) read as their value.
pub proof fn lemma_parse_hex_text(s: Seq<char>)
    requires
        is_hex_text(s),
        s.len() <= 8,
    ensures
        parse_hex(s) == Some(hex_value(s) as u32),
        hex_value(s) < pow16(s.len()),
        pow16(s.len()) <= pow16(8),
{
    assert(hex_digit(s[0]) is Some);
    lemma_hex_value_bound(s);
    lemma_pow16_mono(s.len(), 8);
    reveal_with_fuel(pow16, 9);
    assert(pow16(8) == 0x1_0000_0000);
}

pub proof fn lemma_pow16_mono(a: nat, b: nat)
    requires
        a <= b,
    ensures
        pow16(a) <= pow16(b),
    decreases b,
{
    if a < b {
        lemma_pow16_mono(a, (b - 1) as nat);
    }
}

} // verus!

verus! {

/// A byte is always written as exactly two hexadecimal digits at width 2.
pub proof fn lemma_hex_byte_len(v: nat)
    requires
        v < 256,
    ensures
        hex_text(v, 2, false).len() == 2,
        hex_text(v, 2, true).len() == 2,
{
    reveal_with_fuel(digits, 3);
    if v >= 16 {
        assert(v / 16 < 16);
    }
}

} // verus!
