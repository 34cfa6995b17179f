//! Textual IP addresses, in the syntax `IpAddr`'s `FromStr` accepts:
//! dotted-quad IPv4 without leading zeros, and IPv6 with at most one
//! `::` and an optional trailing dotted-quad.

use vstd::prelude::*;
use vstd::string::*;
use crate::text::{chars_of, find, find_exec, lemma_find_from, lemma_split_len, slice_chars, split_char, split_exec, views};
use crate::text::{lemma_split_concat, lemma_split_single};
use crate::decimal::{dec_text, lemma_dec_text};

verus! {

pub open spec fn is_dec_digit(c: char) -> bool {
    0x30 <= (c as u32) <= 0x39
}

pub open spec fn is_hex_digit(c: char) -> bool {
    ||| is_dec_digit(c)
    ||| 0x61 <= (c as u32) <= 0x66
    ||| 0x41 <= (c as u32) <= 0x46
}

pub open spec fn digit_value(c: char) -> nat {
    ((c as u32) - 0x30) as nat
}

/// Decimal value of a string of digits.
pub open spec fn dec_value(s: Seq<char>) -> nat
    decreases s.len(),
{
    if s.len() == 0 {
        0
    } else {
        dec_value(s.drop_last()) * 10 + digit_value(s.last())
    }
}

pub open spec fn all_dec(s: Seq<char>) -> bool {
    forall|i: int| 0 <= i < s.len() ==> is_dec_digit(#[trigger] s[i])
}

/// One to three decimal digits, no leading zero, at most 255.
pub open spec fn is_octet(s: Seq<char>) -> bool {
    &&& 1 <= s.len() <= 3
    &&& all_dec(s)
    &&& (s.len() > 1 ==> s[0] != '0')
    &&& dec_value(s) <= 255
}

pub open spec fn is_ipv4(s: Seq<char>) -> bool {
    let parts = split_char(s, '.');
    parts.len() == 4 && forall|i: int| 0 <= i < 4 ==> is_octet(#[trigger] parts[i])
}

/// One to four hexadecimal digits.
pub open spec fn is_hex_group(s: Seq<char>) -> bool {
    1 <= s.len() <= 4 && forall|i: int| 0 <= i < s.len() ==> is_hex_digit(#[trigger] s[i])
}

pub open spec fn all_hex_groups(parts: Seq<Seq<char>>, n: int) -> bool {
    forall|i: int| 0 <= i < n ==> is_hex_group(#[trigger] parts[i])
}

/// Number of 16-bit groups written in `s`, a `:`-separated list of hex groups
/// of which the last may be a dotted quad (counting two); `None` if malformed.
pub open spec fn group_count(s: Seq<char>) -> Option<nat> {
    if s.len() == 0 {
        Some(0)
    } else {
        let parts = split_char(s, ':');
        if all_hex_groups(parts, parts.len() as int) {
            Some(parts.len())
        } else if all_hex_groups(parts, parts.len() - 1) && is_ipv4(parts.last()) {
            Some(parts.len() + 1)
        } else {
            None
        }
    }
}

/// Like `group_count`, without the trailing dotted quad.
pub open spec fn hex_group_count(s: Seq<char>) -> Option<nat> {
    if s.len() == 0 {
        Some(0)
    } else {
        let parts = split_char(s, ':');
        if all_hex_groups(parts, parts.len() as int) {
            Some(parts.len())
        } else {
            None
        }
    }
}

pub open spec fn double_colon() -> Seq<char> {
    seq![':', ':']
}

/// Eight groups, or groups around a single `::` that stands for at least one.
pub open spec fn is_ipv6(s: Seq<char>) -> bool {
    match find(s, double_colon()) {
        None => group_count(s) == Some(8nat),
        Some(k) => {
            &&& hex_group_count(s.take(k)) is Some
            &&& group_count(s.skip(k + 2)) is Some
            &&& hex_group_count(s.take(k))->0 + group_count(s.skip(k + 2))->0 <= 7
        },
    }
}

pub open spec fn is_ip(s: Seq<char>) -> bool {
    is_ipv4(s) || is_ipv6(s)
}

// ------------------------------------------------------------------

pub fn is_dec_digit_exec(c: char) -> (res: bool)
    ensures
        res == is_dec_digit(c),
{
    let u = c as u32;
    0x30 <= u && u <= 0x39
}

pub fn is_hex_digit_exec(c: char) -> (res: bool)
    ensures
        res == is_hex_digit(c),
{
    let u = c as u32;
    (0x30 <= u && u <= 0x39) || (0x61 <= u && u <= 0x66) || (0x41 <= u && u <= 0x46)
}

fn is_octet_exec(s: &[char]) -> (res: bool)
    ensures
        res == is_octet(s@),
{
    let n = s.len();
    if n < 1 || n > 3 {
        return false;
    }
    let mut value: u32 = 0;
    let mut i: usize = 0;
    while i < n
        invariant
            n == s@.len(),
            1 <= n <= 3,
            i <= n,
            forall|j: int| 0 <= j < i ==> is_dec_digit(#[trigger] s@[j]),
            value == dec_value(s@.take(i as int)),
            value < (if i == 0 {
                1int
            } else if i == 1 {
                10int
            } else if i == 2 {
                100int
            } else {
                1000int
            }),
        decreases n - i,
    {
        if !is_dec_digit_exec(s[i]) {
            assert(!all_dec(s@));
            return false;
        }
        assert(s@.take(i + 1).drop_last() == s@.take(i as int));
        assert(s@.take(i + 1).last() == s@[i as int]);
        value = value * 10 + (s[i] as u32 - 0x30);
        i = i + 1;
    }
    assert(s@.take(n as int) == s@);
    if n > 1 && s[0] == '0' {
        return false;
    }
    value <= 255
}

/// Whether `s` is a dotted-quad IPv4 address.
pub fn is_ipv4_exec(s: &[char]) -> (res: bool)
    ensures
        res == is_ipv4(s@),
{
    let parts = split_exec(s, '.');
    if parts.len() != 4 {
        return false;
    }
    let mut i: usize = 0;
    while i < 4
        invariant
            parts@.len() == 4,
            views(parts@) == split_char(s@, '.'),
            i <= 4,
            forall|j: int| 0 <= j < i ==> is_octet(#[trigger] split_char(s@, '.')[j]),
        decreases 4 - i,
    {
        assert(views(parts@)[i as int] == parts@[i as int]@);
        if !is_octet_exec(parts[i].as_slice()) {
            return false;
        }
        i = i + 1;
    }
    true
}

fn is_hex_group_exec(s: &[char]) -> (res: bool)
    ensures
        res == is_hex_group(s@),
{
    if s.len() < 1 || s.len() > 4 {
        return false;
    }
    let mut i: usize = 0;
    while i < s.len()
        invariant
            i <= s@.len(),
            forall|j: int| 0 <= j < i ==> is_hex_digit(#[trigger] s@[j]),
        decreases s.len() - i,
    {
        if !is_hex_digit_exec(s[i]) {
            return false;
        }
        i = i + 1;
    }
    true
}

/// Whether the first `n` parts are hex groups.
fn hex_prefix(parts: &Vec<Vec<char>>, n: usize) -> (res: bool)
    requires
        n <= parts@.len(),
    ensures
        res == all_hex_groups(views(parts@), n as int),
{
    let mut i: usize = 0;
    while i < n
        invariant
            n <= parts@.len(),
            i <= n,
            all_hex_groups(views(parts@), i as int),
        decreases n - i,
    {
        assert(views(parts@)[i as int] == parts@[i as int]@);
        if !is_hex_group_exec(parts[i].as_slice()) {
            return false;
        }
        i = i + 1;
    }
    true
}

/// The group count of `s`; `None` when malformed or above eight.
fn group_count_exec(s: &[char]) -> (res: Option<usize>)
    ensures
        res matches Some(k) ==> group_count(s@) == Some(k as nat),
        res is None ==> group_count(s@) is None || group_count(s@)->0 > 8,
{
    if s.len() == 0 {
        return Some(0);
    }
    let parts = split_exec(s, ':');
    proof {
        lemma_split_len(s@, ':');
    }
    let n = parts.len();
    if hex_prefix(&parts, n) {
        return Some(n);
    }
    if n <= 8 && hex_prefix(&parts, n - 1) {
        assert(views(parts@)[n - 1] == parts@[n - 1]@);
        if is_ipv4_exec(parts[n - 1].as_slice()) {
            return Some(n + 1);
        }
    }
    None
}

/// The group count of `s` when it has no dotted quad; `None` otherwise.
fn hex_group_count_exec(s: &[char]) -> (res: Option<usize>)
    ensures
        res matches Some(k) ==> hex_group_count(s@) == Some(k as nat),
        res is None ==> hex_group_count(s@) is None,
{
    if s.len() == 0 {
        return Some(0);
    }
    let parts = split_exec(s, ':');
    let n = parts.len();
    if hex_prefix(&parts, n) {
        Some(n)
    } else {
        None
    }
}

/// Whether `s` is an IPv6 address.
pub fn is_ipv6_exec(s: &[char]) -> (res: bool)
    ensures
        res == is_ipv6(s@),
{
    let dc = vec![':', ':'];
    assert(dc@ == double_colon());
    match find_exec(s, dc.as_slice()) {
        None => {
            match group_count_exec(s) {
                Some(k) => k == 8,
                None => false,
            }
        },
        Some(k) => {
            proof {
                lemma_find_from(s@, dc@, 0);
            }
            let n = s.len();
            assert(k + 2 <= n);
            let head = slice_chars(s, 0, k);
            let tail = slice_chars(s, k + 2, n);
            assert(head@ == s@.take(k as int));
            assert(tail@ == s@.skip(k + 2));
            match (hex_group_count_exec(head.as_slice()), group_count_exec(tail.as_slice())) {
                (Some(h), Some(t)) => h <= 7 && t <= 7 - h,
                _ => false,
            }
        },
    }
}

/// Whether `word` is an IPv4 or IPv6 address.
pub fn is_ip_token(word: &str) -> (res: bool)
    ensures
        res == is_ip(word@),
{
    let cs = chars_of(word);
    is_ipv4_exec(cs.as_slice()) || is_ipv6_exec(cs.as_slice())
}

// ------------------------------------------------------------------
// Laws
// ------------------------------------------------------------------

/// The decimal text of a positive number does not start with `0`.
proof fn lemma_dec_text_lead(n: nat)
    requires
        n >= 1,
    ensures
        dec_text(n)[0] != '0',
    decreases n,
{
    if n >= 10 {
        lemma_dec_text_lead(n / 10);
        lemma_dec_text(n / 10);
        assert(dec_text(n)[0] == dec_text(n / 10)[0]);
    }
}

/// Every number from 0 to 255, written in decimal, is an octet.
pub proof fn lemma_octet_of_byte(n: nat)
    requires
        n <= 255,
    ensures
        is_octet(dec_text(n)),
{
    lemma_dec_text(n);
    if n >= 1 {
        lemma_dec_text_lead(n);
    }
    if n >= 10 {
        lemma_dec_text(n / 10);
        if n >= 100 {
            assert(n / 10 >= 10);
            assert(n / 100 < 10);
            assert((n / 10) / 10 == n / 100);
            let m = n / 10;
            assert(m / 10 < 10);
            assert(dec_text(m / 10).len() == 1);
            assert(dec_text(m) == dec_text(m / 10).push(crate::decimal::digit_char(m % 10)));
            assert(dec_text(n / 10).len() == 2);
        } else {
            assert(n / 10 < 10);
            assert(dec_text(n / 10).len() == 1);
        }
    }
}

/// Decimal digits hold no `.`.
proof fn lemma_dec_text_no_dot(n: nat)
    ensures
        !dec_text(n).contains('.'),
{
    lemma_dec_text(n);
    if dec_text(n).contains('.') {
        let k = choose|k: int| 0 <= k < dec_text(n).len() && dec_text(n)[k] == '.';
        assert(is_dec_digit(dec_text(n)[k]));
    }
}

/// Four numbers from 0 to 255, written in decimal and joined by dots, form
/// an IPv4 address, and so an IP address.
pub proof fn lemma_dotted_quad(a: nat, b: nat, c: nat, d: nat)
    requires
        a <= 255,
        b <= 255,
        c <= 255,
        d <= 255,
    ensures
        is_ipv4(dec_text(a) + seq!['.'] + dec_text(b) + seq!['.'] + dec_text(c) + seq!['.']
            + dec_text(d)),
        is_ip(dec_text(a) + seq!['.'] + dec_text(b) + seq!['.'] + dec_text(c) + seq!['.']
            + dec_text(d)),
{
    let (ta, tb, tc, td) = (dec_text(a), dec_text(b), dec_text(c), dec_text(d));
    lemma_octet_of_byte(a);
    lemma_octet_of_byte(b);
    lemma_octet_of_byte(c);
    lemma_octet_of_byte(d);
    lemma_dec_text_no_dot(a);
    lemma_dec_text_no_dot(b);
    lemma_dec_text_no_dot(c);
    lemma_dec_text_no_dot(d);
    lemma_split_single(ta, '.');
    lemma_split_single(tb, '.');
    lemma_split_single(tc, '.');
    lemma_split_single(td, '.');
    lemma_split_concat(ta, tb, '.');
    let ab = ta + seq!['.'] + tb;
    lemma_split_concat(ab, tc, '.');
    let abc = ab + seq!['.'] + tc;
    lemma_split_concat(abc, td, '.');
    let parts = split_char(abc + seq!['.'] + td, '.');
    assert(parts == seq![ta, tb, tc, td]);
    assert(parts[0] == ta && parts[1] == tb && parts[2] == tc && parts[3] == td);
}

} // verus!
