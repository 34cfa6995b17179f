//! Lower-case hexadecimal text of byte strings, and its decoding.

use vstd::prelude::*;
use crate::ip::{is_hex_digit, is_hex_digit_exec};

verus! {

/// The hex digit for `d < 16`, lower case.
pub open spec fn hex_char(d: int) -> char {
    if d < 10 {
        (0x30 + d) as char
    } else {
        (0x61 + d - 10) as char
    }
}

/// Two hex digits per byte, high nibble first.
pub open spec fn hex_text(bytes: Seq<u8>) -> Seq<char>
    decreases bytes.len(),
{
    if bytes.len() == 0 {
        Seq::<char>::empty()
    } else {
        hex_text(bytes.drop_last()) + seq![
            hex_char(bytes.last() as int / 16),
            hex_char(bytes.last() as int % 16),
        ]
    }
}

/// Value of a hex digit of either case.
pub open spec fn hex_value(c: char) -> int {
    let u = c as u32;
    if 0x30 <= u <= 0x39 {
        u - 0x30
    } else if 0x61 <= u <= 0x66 {
        u - 0x61 + 10
    } else {
        u - 0x41 + 10
    }
}

pub open spec fn all_hex(s: Seq<char>) -> bool {
    forall|i: int| 0 <= i < s.len() ==> is_hex_digit(#[trigger] s[i])
}

/// The bytes that hex text `s` spells; `None` for odd length or a non-hex character.
pub open spec fn hex_bytes(s: Seq<char>) -> Option<Seq<u8>> {
    if s.len() % 2 != 0 || !all_hex(s) {
        None
    } else {
        Some(Seq::new(s.len() / 2, |i: int| (hex_value(s[2 * i]) * 16 + hex_value(s[2 * i + 1])) as u8))
    }
}

proof fn lemma_hex_char(d: int)
    requires
        0 <= d < 16,
    ensures
        is_hex_digit(hex_char(d)),
        hex_value(hex_char(d)) == d,
{
}

pub proof fn lemma_hex_text_shape(bytes: Seq<u8>)
    ensures
        hex_text(bytes).len() == 2 * bytes.len(),
        forall|i: int|
            0 <= i < bytes.len() ==> hex_text(bytes)[2 * i] == hex_char(#[trigger] bytes[i] as int
                / 16) && hex_text(bytes)[2 * i + 1] == hex_char(bytes[i] as int % 16),
    decreases bytes.len(),
{
    if bytes.len() > 0 {
        let front = bytes.drop_last();
        lemma_hex_text_shape(front);
        assert forall|i: int| 0 <= i < bytes.len() implies hex_text(bytes)[2 * i] == hex_char(
            #[trigger] bytes[i] as int / 16,
        ) && hex_text(bytes)[2 * i + 1] == hex_char(bytes[i] as int % 16) by {
            if i < front.len() {
                assert(bytes[i] == front[i]);
            }
        }
    }
}

/// Hex text is made of hex digits only.
pub proof fn lemma_hex_text_digits(bytes: Seq<u8>)
    ensures
        all_hex(hex_text(bytes)),
{
    lemma_hex_text_shape(bytes);
    let t = hex_text(bytes);
    assert forall|k: int| 0 <= k < t.len() implies is_hex_digit(#[trigger] t[k]) by {
        let i = k / 2;
        assert(bytes[i] == bytes[i]);
        if k % 2 == 0 {
            assert(k == 2 * i);
            lemma_hex_char(bytes[i] as int / 16);
        } else {
            assert(k == 2 * i + 1);
            lemma_hex_char(bytes[i] as int % 16);
        }
    }
}

/// Decoding the hex text of bytes gives the bytes back.
pub proof fn lemma_hex_round_trip(bytes: Seq<u8>)
    ensures
        hex_bytes(hex_text(bytes)) == Some(bytes),
{
    lemma_hex_text_shape(bytes);
    lemma_hex_text_digits(bytes);
    let t = hex_text(bytes);
    assert(t.len() % 2 == 0);
    let back = hex_bytes(t)->0;
    assert forall|i: int| 0 <= i < bytes.len() implies back[i] == bytes[i] by {
        assert(bytes[i] == bytes[i]);
        lemma_hex_char(bytes[i] as int / 16);
        lemma_hex_char(bytes[i] as int % 16);
    }
    assert(back == bytes);
}

fn hex_char_exec(d: u8) -> (res: char)
    requires
        d < 16,
    ensures
        res == hex_char(d as int),
{
    if d < 10 {
        (0x30u8 + d) as char
    } else {
        (0x61u8 + d - 10) as char
    }
}

fn hex_value_exec(c: char) -> (res: u8)
    requires
        is_hex_digit(c),
    ensures
        res as int == hex_value(c),
        res < 16,
{
    let u = c as u32;
    if 0x30 <= u && u <= 0x39 {
        (u - 0x30) as u8
    } else if 0x61 <= u && u <= 0x66 {
        (u - 0x61 + 10) as u8
    } else {
        (u - 0x41 + 10) as u8
    }
}

/// Lower-case hex text of `bytes`.
pub fn hex_encode(bytes: &[u8]) -> (res: String)
    ensures
        res@ == hex_text(bytes@),
{
    let mut out = String::new();
    let mut i: usize = 0;
    while i < bytes.len()
        invariant
            i <= bytes@.len(),
            out@ == hex_text(bytes@.take(i as int)),
        decreases bytes.len() - i,
    {
        let b = bytes[i];
        out.push(hex_char_exec(b / 16));
        out.push(hex_char_exec(b % 16));
        assert(bytes@.take(i + 1).drop_last() == bytes@.take(i as int));
        assert(bytes@.take(i + 1).last() == b);
        i = i + 1;
    }
    assert(bytes@.take(bytes@.len() as int) == bytes@);
    out
}

/// The bytes that hex text `hex` spells, digits of either case.
pub fn hex_decode(hex: &[char]) -> (res: Option<Vec<u8>>)
    ensures
        res matches Some(v) ==> hex_bytes(hex@) == Some(v@),
        res is None ==> hex_bytes(hex@) is None,
{
    let n = hex.len();
    let mut i: usize = 0;
    while i < n
        invariant
            n == hex@.len(),
            i <= n,
            forall|j: int| 0 <= j < i ==> is_hex_digit(#[trigger] hex@[j]),
        decreases n - i,
    {
        if !is_hex_digit_exec(hex[i]) {
            return None;
        }
        i = i + 1;
    }
    if n % 2 != 0 {
        return None;
    }
    let ghost want = hex_bytes(hex@)->0;
    let mut out: Vec<u8> = Vec::new();
    let mut k: usize = 0;
    while k < n / 2
        invariant
            n == hex@.len(),
            n % 2 == 0,
            all_hex(hex@),
            want == hex_bytes(hex@)->0,
            k <= n / 2,
            out@ == want.take(k as int),
        decreases n / 2 - k,
    {
        let hi = hex_value_exec(hex[2 * k]);
        let lo = hex_value_exec(hex[2 * k + 1]);
        out.push(hi * 16 + lo);
        k = k + 1;
        assert(out@ == want.take(k as int));
    }
    assert(want.take((n / 2) as int) == want);
    Some(out)
}

} // verus!
