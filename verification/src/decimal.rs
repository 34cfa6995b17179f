//! Decimal text of unsigned numbers, and its parsing in the syntax
//! `usize`'s `FromStr` accepts: an optional `+`, then ASCII digits.

use vstd::prelude::*;
use crate::ip::{all_dec, dec_value, digit_value, is_dec_digit, is_dec_digit_exec};

verus! {

pub open spec fn digit_char(d: nat) -> char {
    (0x30 + d) as char
}

/// Shortest decimal text of `n`.
pub open spec fn dec_text(n: nat) -> Seq<char>
    decreases n,
{
    if n < 10 {
        seq![digit_char(n)]
    } else {
        dec_text(n / 10).push(digit_char(n % 10))
    }
}

/// Two decimal digits, with a leading zero below ten.
pub open spec fn two_digits(n: nat) -> Seq<char> {
    seq![digit_char((n / 10) % 10), digit_char(n % 10)]
}

/// The value `s` spells as a `usize`: an optional `+`, at least one ASCII
/// digit, and a value that fits.
pub open spec fn parse_unsigned(s: Seq<char>) -> Option<nat> {
    let digits = if s.len() > 0 && s[0] == '+' {
        s.drop_first()
    } else {
        s
    };
    if digits.len() == 0 || !all_dec(digits) || dec_value(digits) > usize::MAX {
        None
    } else {
        Some(dec_value(digits))
    }
}

proof fn lemma_digit_char(d: nat)
    requires
        d < 10,
    ensures
        is_dec_digit(digit_char(d)),
        digit_value(digit_char(d)) == d,
        digit_char(d) != '+',
{
}

/// The decimal text of `n` is made of digits and spells `n`.
pub proof fn lemma_dec_text(n: nat)
    ensures
        dec_text(n).len() >= 1,
        all_dec(dec_text(n)),
        dec_value(dec_text(n)) == n,
        dec_text(n)[0] != '+',
    decreases n,
{
    lemma_digit_char(n % 10);
    if n < 10 {
        assert(seq![digit_char(n)].drop_last() == Seq::<char>::empty());
        assert(dec_value(Seq::<char>::empty()) == 0);
        assert(dec_value(seq![digit_char(n)]) == n);
    } else {
        lemma_dec_text(n / 10);
        assert((n / 10) * 10 + n % 10 == n) by (nonlinear_arith);
        let t = dec_text(n / 10).push(digit_char(n % 10));
        assert(t.drop_last() == dec_text(n / 10));
        assert(t.last() == digit_char(n % 10));
        assert(dec_value(t) == dec_value(dec_text(n / 10)) * 10 + digit_value(digit_char(n % 10)));
        assert(t[0] == dec_text(n / 10)[0]);
        assert forall|i: int| 0 <= i < t.len() implies is_dec_digit(#[trigger] t[i]) by {
            if i < t.len() - 1 {
                assert(t[i] == dec_text(n / 10)[i]);
            }
        }
    }
}

/// Parsing the decimal text of a `usize` gives it back.
pub proof fn lemma_parse_dec_text(n: nat)
    requires
        n <= usize::MAX,
    ensures
        parse_unsigned(dec_text(n)) == Some(n),
{
    lemma_dec_text(n);
}

fn digit_char_exec(d: usize) -> (res: char)
    requires
        d < 10,
    ensures
        res == digit_char(d as nat),
{
    ((d as u8) + 0x30u8) as char
}

/// Decimal text of `n`.
pub fn dec_string(n: usize) -> (res: Vec<char>)
    ensures
        res@ == dec_text(n as nat),
    decreases n,
{
    if n < 10 {
        let v = vec![digit_char_exec(n)];
        assert(v@ == dec_text(n as nat));
        v
    } else {
        let mut v = dec_string(n / 10);
        v.push(digit_char_exec(n % 10));
        v
    }
}

/// Two-digit decimal text of `n % 100`.
pub fn two_digit_chars(n: u64) -> (res: Vec<char>)
    ensures
        res@ == two_digits(n as nat),
{
    let v = vec![digit_char_exec(((n / 10) % 10) as usize), digit_char_exec((n % 10) as usize)];
    assert(v@ == two_digits(n as nat));
    v
}

/// The `usize` that `s` spells; `None` when it is not one.
pub fn parse_usize(s: &[char]) -> (res: Option<usize>)
    ensures
        res matches Some(n) ==> parse_unsigned(s@) == Some(n as nat),
        res is None ==> parse_unsigned(s@) is None,
{
    let start: usize = if s.len() > 0 && s[0] == '+' {
        1
    } else {
        0
    };
    let ghost digits = if s@.len() > 0 && s@[0] == '+' {
        s@.drop_first()
    } else {
        s@
    };
    assert(digits == s@.skip(start as int));
    if start == s.len() {
        return None;
    }
    let mut value: usize = 0;
    let mut i: usize = start;
    while i < s.len()
        invariant
            start <= i <= s@.len(),
            digits == s@.skip(start as int),
            digits == (if s@.len() > 0 && s@[0] == '+' {
                s@.drop_first()
            } else {
                s@
            }),
            forall|j: int| start <= j < i ==> is_dec_digit(#[trigger] s@[j]),
            value == dec_value(s@.subrange(start as int, i as int)),
        decreases s.len() - i,
    {
        let c = s[i];
        if !is_dec_digit_exec(c) {
            assert(digits[i - start] == c);
            assert(!is_dec_digit(digits[i - start]));
            assert(!all_dec(digits));
            return None;
        }
        #[verifier::truncate]
        let d = (c as u32 - 0x30) as usize;
        assert(d == digit_value(c));
        assert(s@.subrange(start as int, i + 1).drop_last() == s@.subrange(start as int, i as int));
        assert(s@.subrange(start as int, i + 1).last() == c);
        match value.checked_mul(10) {
            Some(v10) => match v10.checked_add(d) {
                Some(v) => {
                    value = v;
                },
                None => {
                    proof {
                        assert(digits.take(i + 1 - start) == s@.subrange(start as int, i + 1));
                        lemma_prefix_bound(digits, (i + 1 - start) as int);
                    }
                    return None;
                },
            },
            None => {
                proof {
                    assert(digits.take(i + 1 - start) == s@.subrange(start as int, i + 1));
                    lemma_prefix_bound(digits, (i + 1 - start) as int);
                }
                return None;
            },
        }
        i = i + 1;
    }
    assert(s@.subrange(start as int, s@.len() as int) == digits);
    Some(value)
}

/// A decimal prefix is worth no more than the whole.
proof fn lemma_prefix_bound(s: Seq<char>, k: int)
    requires
        0 <= k <= s.len(),
        all_dec(s.take(k)),
    ensures
        all_dec(s) ==> dec_value(s.take(k)) <= dec_value(s),
    decreases s.len() - k,
{
    if k < s.len() && all_dec(s) {
        assert(s.take(k + 1).drop_last() == s.take(k));
        lemma_prefix_bound(s, k + 1);
        assert(all_dec(s.take(k + 1)));
    }
    if k == s.len() {
        assert(s.take(k) == s);
    }
}

} // verus!
