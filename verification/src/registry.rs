//! Text in the Windows registry: UTF-16 code units stored little-endian,
//! written with a terminating NUL and read back without it.

use vstd::prelude::*;
use vstd::string::*;
use crate::text::{chars_of, string_of, trim, trim_chars};

verus! {

pub open spec fn is_surrogate(u: u16) -> bool {
    0xD800 <= u <= 0xDFFF
}

/// The UTF-16 code units of one character.
pub open spec fn char_units(c: char) -> Seq<u16> {
    let v = c as u32;
    if v < 0x10000 {
        seq![v as u16]
    } else {
        seq![(0xD800 + (v - 0x10000) / 0x400) as u16, (0xDC00 + (v - 0x10000) % 0x400) as u16]
    }
}

/// The UTF-16 encoding of `s`, as `str::encode_utf16` yields it.
pub open spec fn utf16_of(s: Seq<char>) -> Seq<u16>
    decreases s.len(),
{
    if s.len() == 0 {
        Seq::empty()
    } else {
        utf16_of(s.drop_last()) + char_units(s.last())
    }
}

/// UTF-16 decoding with U+FFFD for each unpaired surrogate, as
/// `String::from_utf16_lossy` does it.
pub open spec fn utf16_lossy(us: Seq<u16>) -> Seq<char>
    decreases us.len(),
{
    if us.len() == 0 {
        Seq::empty()
    } else if !is_surrogate(us[0]) {
        seq![us[0] as char] + utf16_lossy(us.drop_first())
    } else if us[0] >= 0xDC00 {
        seq!['\u{FFFD}'] + utf16_lossy(us.drop_first())
    } else if us.len() >= 2 && 0xDC00 <= us[1] <= 0xDFFF {
        seq![(0x10000 + (us[0] - 0xD800) * 0x400 + (us[1] - 0xDC00)) as char] + utf16_lossy(
            us.skip(2),
        )
    } else {
        seq!['\u{FFFD}'] + utf16_lossy(us.drop_first())
    }
}

/// Little-endian bytes of `us`.
pub open spec fn le_bytes(us: Seq<u16>) -> Seq<u8> {
    Seq::new(
        2 * us.len(),
        |k: int|
            if k % 2 == 0 {
                (us[k / 2] % 256) as u8
            } else {
                (us[k / 2] / 256) as u8
            },
    )
}

/// The code units in the first `size` bytes of `buf`, little-endian; an odd
/// byte at the end is ignored.
pub open spec fn le_units(buf: Seq<u8>, size: nat) -> Seq<u16> {
    let n = if buf.len() / 2 < size / 2 {
        buf.len() / 2
    } else {
        size / 2
    };
    Seq::new(n, |i: int| (buf[2 * i] + 256 * buf[2 * i + 1]) as u16)
}

pub open spec fn strip_nul_start(s: Seq<char>) -> Seq<char>
    decreases s.len(),
{
    if s.len() > 0 && s[0] == '\0' {
        strip_nul_start(s.drop_first())
    } else {
        s
    }
}

pub open spec fn strip_nul_end(s: Seq<char>) -> Seq<char>
    decreases s.len(),
{
    if s.len() > 0 && s.last() == '\0' {
        strip_nul_end(s.drop_last())
    } else {
        s
    }
}

// ------------------------------------------------------------------
// Writing and reading back
// ------------------------------------------------------------------

/// The encoding of a non-empty text is that of its first character,
/// followed by that of the rest.
proof fn lemma_utf16_first(s: Seq<char>)
    requires
        s.len() > 0,
    ensures
        utf16_of(s) == char_units(s[0]) + utf16_of(s.drop_first()),
    decreases s.len(),
{
    if s.len() == 1 {
        assert(s.drop_last().len() == 0);
        assert(s.drop_first().len() == 0);
        assert(utf16_of(s.drop_last()) == Seq::<u16>::empty());
        assert(utf16_of(s) == char_units(s[0]) + utf16_of(s.drop_first()));
    } else {
        lemma_utf16_first(s.drop_last());
        assert(s.drop_last().drop_first() == s.drop_first().drop_last());
        assert(s.drop_first().last() == s.last());
    }
}

/// Decoding the units of one character, in front of any other units, gives
/// back that character in front of what the other units decode to.
proof fn lemma_decode_char_units(c: char, rest: Seq<u16>)
    ensures
        utf16_lossy(char_units(c) + rest) == seq![c] + utf16_lossy(rest),
{
    let v = c as u32;
    vstd::utf8::char_is_scalar(c);
    vstd::utf8::char_u32_cast(c, v);
    let us = char_units(c) + rest;
    if v < 0x10000 {
        assert(us[0] == v as u16);
        assert(us.drop_first() == rest);
        assert((v as u16) as char == c);
    } else {
        let q = ((v - 0x10000) / 0x400) as int;
        let r = ((v - 0x10000) % 0x400) as int;
        assert(v - 0x10000 == 0x400 * q + r);
        assert(0 <= q < 0x400);
        assert(0 <= r < 0x400);
        assert(us[0] == (0xD800 + q) as u16);
        assert(us[1] == (0xDC00 + r) as u16);
        assert(us.skip(2) == rest);
        assert(0x10000 + (us[0] - 0xD800) * 0x400 + (us[1] - 0xDC00) == v);
    }
}

/// Decoding undoes encoding.
pub proof fn lemma_utf16_round_trip(s: Seq<char>)
    ensures
        utf16_lossy(utf16_of(s)) == s,
    decreases s.len(),
{
    if s.len() > 0 {
        lemma_utf16_first(s);
        lemma_decode_char_units(s[0], utf16_of(s.drop_first()));
        lemma_utf16_round_trip(s.drop_first());
        assert(seq![s[0]] + s.drop_first() == s);
    }
}

/// Reading code units back from their little-endian bytes gives them back.
pub proof fn lemma_le_round_trip(us: Seq<u16>)
    ensures
        le_units(le_bytes(us), le_bytes(us).len()) == us,
{
    let b = le_bytes(us);
    let back = le_units(b, b.len());
    assert(back.len() == us.len());
    assert forall|i: int| 0 <= i < us.len() implies back[i] == us[i] by {
        assert((2 * i) / 2 == i);
        assert((2 * i + 1) / 2 == i);
        assert((2 * i) % 2 == 0);
        assert((2 * i + 1) % 2 == 1);
        let u = us[i];
        assert(u == u % 256 + 256 * (u / 256));
    }
    assert(back == us);
}

/// A text written as a registry string value reads back as itself, trimmed,
/// unless it starts or ends with NUL.
pub proof fn lemma_registry_round_trip(s: Seq<char>)
    requires
        s.len() > 0 ==> s[0] != '\0' && s.last() != '\0',
    ensures
        registry_value(
            le_bytes(utf16_of(s).push(0u16)),
            le_bytes(utf16_of(s).push(0u16)).len(),
        ) == trim(s),
{
    let t = s.push('\0');
    assert(t.drop_last() == s);
    assert(char_units('\0') == seq![0u16]);
    assert(utf16_of(t) == utf16_of(s).push(0u16));
    lemma_le_round_trip(utf16_of(t));
    lemma_utf16_round_trip(t);
    if s.len() == 0 {
        assert(t[0] == '\0');
        assert(t.drop_first().len() == 0);
        assert(strip_nul_start(t.drop_first()) == t.drop_first());
        assert(strip_nul_start(t) == t.drop_first());
    } else {
        assert(t[0] == s[0]);
        assert(strip_nul_start(t) == t);
    }
    assert(strip_nul_end(t) == strip_nul_end(s));
    assert(strip_nul_end(s) == s);
}

/// `char::from_u32`: the character with that code point, or `None` for a
/// surrogate or a value above U+10FFFF.
#[verifier::external_body]
fn char_from_u32(v: u32) -> (res: Option<char>)
    ensures
        (v < 0xD800 || (0xE000 <= v <= 0x10FFFF)) ==> res == Some(v as char),
        !(v < 0xD800 || (0xE000 <= v <= 0x10FFFF)) ==> res is None,
{
    char::from_u32(v)
}

/// The UTF-16 code units of `s`.
pub fn encode_utf16(s: &[char]) -> (res: Vec<u16>)
    ensures
        res@ == utf16_of(s@),
{
    let mut out: Vec<u16> = Vec::new();
    let mut i: usize = 0;
    while i < s.len()
        invariant
            i <= s@.len(),
            out@ == utf16_of(s@.take(i as int)),
        decreases s.len() - i,
    {
        let c = s[i];
        let v = c as u32;
        assert(s@.take(i + 1).drop_last() == s@.take(i as int));
        assert(s@.take(i + 1).last() == c);
        if v < 0x10000 {
            out.push(v as u16);
        } else {
            proof {
                vstd::utf8::char_is_scalar(c);
            }
            assert(v <= 0x10FFFF);
            out.push((0xD800 + (v - 0x10000) / 0x400) as u16);
            out.push((0xDC00 + (v - 0x10000) % 0x400) as u16);
        }
        i = i + 1;
        assert(out@ == utf16_of(s@.take(i as int)));
    }
    assert(s@.take(s@.len() as int) == s@);
    out
}

/// `s` as a registry string value: UTF-16 little-endian with a closing NUL.
pub fn wide_nul_bytes(s: &str) -> (res: Vec<u8>)
    ensures
        res@ == le_bytes(utf16_of(s@).push(0u16)),
{
    let mut units = encode_utf16(chars_of(s).as_slice());
    units.push(0);
    let ghost us = units@;
    let mut out: Vec<u8> = Vec::new();
    let mut i: usize = 0;
    while i < units.len()
        invariant
            us == units@,
            i <= us.len(),
            out@ == le_bytes(us.take(i as int)),
        decreases units.len() - i,
    {
        let u = units[i];
        out.push((u % 256) as u8);
        out.push((u / 256) as u8);
        i = i + 1;
        assert(out@ == le_bytes(us.take(i as int)));
    }
    assert(us.take(us.len() as int) == us);
    out
}

/// The code units in the first `size` bytes of `buf`, little-endian.
pub fn units_le(buf: &[u8], size: u32) -> (res: Vec<u16>)
    ensures
        res@ == le_units(buf@, size as nat),
{
    let half = buf.len() / 2;
    let n: usize = if half < (size / 2) as usize {
        half
    } else {
        (size / 2) as usize
    };
    let mut out: Vec<u16> = Vec::new();
    let mut i: usize = 0;
    while i < n
        invariant
            n <= buf@.len() / 2,
            n == le_units(buf@, size as nat).len(),
            i <= n,
            out@ == le_units(buf@, size as nat).take(i as int),
        decreases n - i,
    {
        let lo = buf[2 * i] as u16;
        let hi = buf[2 * i + 1] as u16;
        out.push(lo + 256 * hi);
        i = i + 1;
        assert(out@ == le_units(buf@, size as nat).take(i as int));
    }
    assert(le_units(buf@, size as nat).take(n as int) == le_units(buf@, size as nat));
    out
}

/// UTF-16 decoding with U+FFFD for each unpaired surrogate.
pub fn decode_utf16_lossy(us: &[u16]) -> (res: Vec<char>)
    ensures
        res@ == utf16_lossy(us@),
{
    let mut out: Vec<char> = Vec::new();
    let mut i: usize = 0;
    assert(us@.skip(0) == us@);
    assert(out@ + utf16_lossy(us@) == utf16_lossy(us@));
    while i < us.len()
        invariant
            i <= us@.len(),
            utf16_lossy(us@) == out@ + utf16_lossy(us@.skip(i as int)),
        decreases us.len() - i,
    {
        let ghost rest = us@.skip(i as int);
        let u = us[i];
        assert(rest[0] == u);
        assert(rest.drop_first() == us@.skip(i + 1));
        if u < 0xD800 || u > 0xDFFF {
            let c = char_from_u32(u as u32);
            out.push(c.unwrap());
            i = i + 1;
        } else if u >= 0xDC00 {
            out.push('\u{FFFD}');
            i = i + 1;
        } else if i + 1 < us.len() && 0xDC00 <= us[i + 1] && us[i + 1] <= 0xDFFF {
            let u2 = us[i + 1];
            assert(rest[1] == u2);
            assert(rest.skip(2) == us@.skip(i + 2));
            let v = 0x10000 + ((u - 0xD800) as u32) * 0x400 + ((u2 - 0xDC00) as u32);
            let c = char_from_u32(v);
            out.push(c.unwrap());
            i = i + 2;
        } else {
            out.push('\u{FFFD}');
            i = i + 1;
        }
    }
    assert(us@.skip(i as int).len() == 0);
    out
}

pub open spec fn registry_value(buf: Seq<u8>, size: nat) -> Seq<char> {
    trim(strip_nul_end(strip_nul_start(utf16_lossy(le_units(buf, size)))))
}

/// The text of a registry string value read into `buf`, `size` bytes long:
/// decoded, without surrounding NULs and whitespace.
pub fn registry_text(buf: &[u8], size: u32) -> (res: String)
    ensures
        res@ == registry_value(buf@, size as nat),
{
    let units = units_le(buf, size);
    let cs = decode_utf16_lossy(units.as_slice());
    let n = cs.len();
    let mut i: usize = 0;
    assert(cs@.skip(0) == cs@);
    while i < n && cs[i] == '\0'
        invariant
            n == cs@.len(),
            i <= n,
            strip_nul_start(cs@) == strip_nul_start(cs@.skip(i as int)),
        decreases n - i,
    {
        assert(cs@.skip(i as int).drop_first() == cs@.skip(i + 1));
        i = i + 1;
    }
    let ghost rest = cs@.skip(i as int);
    assert(strip_nul_start(rest) == rest);
    let mut j: usize = n;
    while j > i && cs[j - 1] == '\0'
        invariant
            n == cs@.len(),
            i <= j <= n,
            rest == cs@.skip(i as int),
            strip_nul_end(rest) == strip_nul_end(cs@.subrange(i as int, j as int)),
        decreases j,
    {
        assert(cs@.subrange(i as int, j as int).drop_last() == cs@.subrange(i as int, j - 1));
        j = j - 1;
    }
    assert(cs@.subrange(i as int, n as int) == rest);
    let mid = crate::text::slice_chars(cs.as_slice(), i, j);
    string_of(trim_chars(mid.as_slice()).as_slice())
}

/// Registry key under which Windows looks up an app's notification identity.
pub fn aumid_key_path(aumid: &str) -> (res: String)
    ensures
        res@ == "Software\\Classes\\AppUserModelId\\"@ + aumid@,
{
    let mut k = String::from_str("Software\\Classes\\AppUserModelId\\");
    k.append(aumid);
    k
}

} // verus!
