//! The sealed activity log and exit-IP history.
//!
//! IP addresses never reach storage in the clear: each one is sealed by a
//! platform protection primitive (`protect`, undone by `unprotect`, handed in
//! by the caller) and stored as `enc:` followed by the hex of the sealed blob.

use vstd::prelude::*;
use vstd::string::*;
use vstd::utf8::*;
use crate::hex::{hex_bytes, hex_decode, hex_encode, hex_text, lemma_hex_round_trip, lemma_hex_text_digits};
use crate::ip::{is_ip, is_ip_token};
use crate::text::{
    chars_of, join, join_exec, lemma_join_split, lemma_split_join, lemma_split_len,
    lemma_split_pieces, slice_chars, split_char, split_exec, starts_with, starts_with_exec,
    string_of, views,
};
use crate::ip::{is_ipv4_exec, is_ipv6_exec};
use crate::decimal::{dec_string, dec_text, parse_unsigned, parse_usize};
use crate::clock::{clock_text, local_stamp, now_ms};
use crate::text::{ends_with, ends_with_exec, find, find_exec, lemma_find_from, lemma_rfind_upto, rfind, rfind_exec, same_chars};

verus! {

#[verifier::external_type_specification]
#[verifier::external_body]
pub struct ExFromUtf8Error(std::string::FromUtf8Error);

pub assume_specification[ String::from_utf8 ](vec: Vec<u8>) -> (res: Result<
    String,
    std::string::FromUtf8Error,
>)
    ensures
        res is Ok <==> valid_utf8(vec@),
        res matches Ok(s) ==> s@ == decode_utf8(vec@),
;

/// Marks a stored word as sealed.
pub open spec fn seal_prefix() -> Seq<char> {
    seq!['e', 'n', 'c', ':']
}

/// How a sealed blob is written down.
pub open spec fn sealed_token(blob: Seq<u8>) -> Seq<char> {
    seal_prefix() + hex_text(blob)
}

pub open spec fn str_view(s: Option<String>) -> Option<Seq<char>> {
    match s {
        Some(t) => Some(t@),
        None => None,
    }
}

/// `res` is what sealing `ip` can give: `protect` ran on the UTF-8 bytes of
/// `ip`, and its blob, if any, was written down as a sealed token.
pub open spec fn seal_ip_outcome<P: Fn(&[u8]) -> Option<Vec<u8>>>(
    protect: P,
    ip: Seq<char>,
    res: Option<Seq<char>>,
) -> bool {
    exists|x: &[u8], r: Option<Vec<u8>>|
        #![trigger call_ensures(protect, (x,), r)]
        x@ == encode_utf8(ip) && call_ensures(protect, (x,), r) && res == match r {
            Some(b) => Some(sealed_token(b@)),
            None => None,
        }
}

/// `res` is what opening `token` can give: a sealed token whose hex decodes
/// to a blob that `unprotect` turns into UTF-8 text.
pub open spec fn open_ip_outcome<U: Fn(&[u8]) -> Option<Vec<u8>>>(
    unprotect: U,
    token: Seq<char>,
    res: Option<Seq<char>>,
) -> bool {
    if !starts_with(token, seal_prefix()) {
        res is None
    } else {
        match hex_bytes(token.skip(4)) {
            None => res is None,
            Some(blob) => exists|x: &[u8], r: Option<Vec<u8>>|
                #![trigger call_ensures(unprotect, (x,), r)]
                x@ == blob && call_ensures(unprotect, (x,), r) && res == match r {
                    Some(p) => if valid_utf8(p@) {
                        Some(decode_utf8(p@))
                    } else {
                        None
                    },
                    None => None,
                },
        }
    }
}

fn seal_prefix_chars() -> (res: Vec<char>)
    ensures
        res@ == seal_prefix(),
{
    let v = vec!['e', 'n', 'c', ':'];
    assert(v@ == seal_prefix());
    v
}

/// Seals one IP address: `enc:` and the hex of what `protect` makes of its bytes.
pub fn seal_ip<P: Fn(&[u8]) -> Option<Vec<u8>>>(ip: &str, protect: &P) -> (res: Option<String>)
    requires
        forall|x: &[u8]| call_requires(*protect, (x,)),
    ensures
        seal_ip_outcome(*protect, ip@, str_view(res)),
{
    let bytes = ip.as_bytes();
    let blob = protect(bytes);
    assert(call_ensures(*protect, (bytes,), blob));
    match blob {
        Some(b) => {
            let mut token = string_of(seal_prefix_chars().as_slice());
            let h = hex_encode(b.as_slice());
            token.append(h.as_str());
            Some(token)
        },
        None => None,
    }
}

/// Opens one sealed token: strips `enc:`, decodes the hex, and reads what
/// `unprotect` makes of the blob as UTF-8 text.
pub fn open_ip<U: Fn(&[u8]) -> Option<Vec<u8>>>(token: &str, unprotect: &U) -> (res: Option<String>)
    requires
        forall|x: &[u8]| call_requires(*unprotect, (x,)),
    ensures
        open_ip_outcome(*unprotect, token@, str_view(res)),
{
    let cs = chars_of(token);
    let prefix = seal_prefix_chars();
    if !starts_with_exec(cs.as_slice(), prefix.as_slice()) {
        return None;
    }
    let hex = slice_chars(cs.as_slice(), 4, cs.len());
    assert(hex@ == token@.skip(4));
    let blob = match hex_decode(hex.as_slice()) {
        Some(b) => b,
        None => return None,
    };
    let blob_slice = blob.as_slice();
    let plain = unprotect(blob_slice);
    assert(call_ensures(*unprotect, (blob_slice,), plain));
    match plain {
        Some(p) => {
            let ghost pv = p@;
            match String::from_utf8(p) {
                Ok(s) => Some(s),
                Err(_) => None,
            }
        },
        None => None,
    }
}

/// A word of a line as sealing leaves it: an IP address is replaced by its
/// sealed token when sealing succeeds; every other word stays as it is.
pub open spec fn seal_word_outcome<P: Fn(&[u8]) -> Option<Vec<u8>>>(
    protect: P,
    w: Seq<char>,
    out: Seq<char>,
) -> bool {
    if is_ip(w) {
        exists|s: Option<Seq<char>>|
            #![trigger seal_ip_outcome(protect, w, s)]
            seal_ip_outcome(protect, w, s) && out == match s {
                Some(t) => t,
                None => w,
            }
    } else {
        out == w
    }
}

/// A word of a line as opening leaves it: a word starting with `enc:` is
/// replaced by its opened text when opening succeeds; every other word stays.
pub open spec fn open_word_outcome<U: Fn(&[u8]) -> Option<Vec<u8>>>(
    unprotect: U,
    w: Seq<char>,
    out: Seq<char>,
) -> bool {
    if starts_with(w, seal_prefix()) {
        exists|s: Option<Seq<char>>|
            #![trigger open_ip_outcome(unprotect, w, s)]
            open_ip_outcome(unprotect, w, s) && out == match s {
                Some(t) => t,
                None => w,
            }
    } else {
        out == w
    }
}

/// `res` is `line` with each of its space-separated words sealed.
pub open spec fn seal_line_outcome<P: Fn(&[u8]) -> Option<Vec<u8>>>(
    protect: P,
    line: Seq<char>,
    res: Seq<char>,
) -> bool {
    exists|outs: Seq<Seq<char>>|
        #![trigger join(outs, ' ')]
        outs.len() == split_char(line, ' ').len() && (forall|i: int|
            0 <= i < outs.len() ==> seal_word_outcome(
                protect,
                split_char(line, ' ')[i],
                #[trigger] outs[i],
            )) && res == join(outs, ' ')
}

/// `res` is `line` with each of its space-separated words opened.
pub open spec fn open_line_outcome<U: Fn(&[u8]) -> Option<Vec<u8>>>(
    unprotect: U,
    line: Seq<char>,
    res: Seq<char>,
) -> bool {
    exists|outs: Seq<Seq<char>>|
        #![trigger join(outs, ' ')]
        outs.len() == split_char(line, ' ').len() && (forall|i: int|
            0 <= i < outs.len() ==> open_word_outcome(
                unprotect,
                split_char(line, ' ')[i],
                #[trigger] outs[i],
            )) && res == join(outs, ' ')
}

fn seal_word<P: Fn(&[u8]) -> Option<Vec<u8>>>(w: &[char], protect: &P) -> (out: Vec<char>)
    requires
        forall|x: &[u8]| call_requires(*protect, (x,)),
    ensures
        seal_word_outcome(*protect, w@, out@),
{
    if is_ipv4_exec(w) || is_ipv6_exec(w) {
        let word = string_of(w);
        let sealed = seal_ip(word.as_str(), protect);
        let ghost s = str_view(sealed);
        match sealed {
            Some(t) => {
                let out = chars_of(t.as_str());
                assert(seal_ip_outcome(*protect, w@, s));
                out
            },
            None => {
                let out = slice_chars(w, 0, w.len());
                assert(out@ == w@);
                assert(seal_ip_outcome(*protect, w@, s));
                out
            },
        }
    } else {
        let out = slice_chars(w, 0, w.len());
        assert(out@ == w@);
        out
    }
}

fn open_word<U: Fn(&[u8]) -> Option<Vec<u8>>>(w: &[char], unprotect: &U) -> (out: Vec<char>)
    requires
        forall|x: &[u8]| call_requires(*unprotect, (x,)),
    ensures
        open_word_outcome(*unprotect, w@, out@),
{
    let prefix = seal_prefix_chars();
    if starts_with_exec(w, prefix.as_slice()) {
        let word = string_of(w);
        let opened = open_ip(word.as_str(), unprotect);
        let ghost s = str_view(opened);
        match opened {
            Some(t) => {
                let out = chars_of(t.as_str());
                assert(open_ip_outcome(*unprotect, w@, s));
                out
            },
            None => {
                let out = slice_chars(w, 0, w.len());
                assert(out@ == w@);
                assert(open_ip_outcome(*unprotect, w@, s));
                out
            },
        }
    } else {
        let out = slice_chars(w, 0, w.len());
        assert(out@ == w@);
        out
    }
}

/// Seals every IP address among the space-separated words of `line`; a word
/// whose sealing fails, and every other word, is kept as it is.
pub fn seal_line<P: Fn(&[u8]) -> Option<Vec<u8>>>(line: &str, protect: &P) -> (res: String)
    requires
        forall|x: &[u8]| call_requires(*protect, (x,)),
    ensures
        seal_line_outcome(*protect, line@, res@),
{
    let cs = chars_of(line);
    let words = split_exec(cs.as_slice(), ' ');
    let ghost ws = split_char(line@, ' ');
    let mut outs: Vec<Vec<char>> = Vec::new();
    let mut i: usize = 0;
    while i < words.len()
        invariant
            forall|x: &[u8]| call_requires(*protect, (x,)),
            views(words@) == ws,
            i <= ws.len(),
            outs@.len() == i,
            forall|j: int|
                0 <= j < i ==> seal_word_outcome(*protect, ws[j], #[trigger] views(outs@)[j]),
        decreases words.len() - i,
    {
        assert(views(words@)[i as int] == words@[i as int]@);
        let out = seal_word(words[i].as_slice(), protect);
        let ghost before = views(outs@);
        outs.push(out);
        assert(views(outs@) == before.push(out@));
        i = i + 1;
    }
    let joined = join_exec(&outs, ' ');
    let res = string_of(joined.as_slice());
    assert(seal_line_outcome(*protect, line@, res@)) by {
        assert(views(outs@).len() == ws.len());
    }
    res
}

/// Opens every word of `line` that starts with `enc:`; a word that does not
/// open, and every other word, is kept as it is.
pub fn open_line<U: Fn(&[u8]) -> Option<Vec<u8>>>(line: &str, unprotect: &U) -> (res: String)
    requires
        forall|x: &[u8]| call_requires(*unprotect, (x,)),
    ensures
        open_line_outcome(*unprotect, line@, res@),
{
    let cs = chars_of(line);
    let words = split_exec(cs.as_slice(), ' ');
    let ghost ws = split_char(line@, ' ');
    let mut outs: Vec<Vec<char>> = Vec::new();
    let mut i: usize = 0;
    while i < words.len()
        invariant
            forall|x: &[u8]| call_requires(*unprotect, (x,)),
            views(words@) == ws,
            i <= ws.len(),
            outs@.len() == i,
            forall|j: int|
                0 <= j < i ==> open_word_outcome(*unprotect, ws[j], #[trigger] views(outs@)[j]),
        decreases words.len() - i,
    {
        assert(views(words@)[i as int] == words@[i as int]@);
        let out = open_word(words[i].as_slice(), unprotect);
        let ghost before = views(outs@);
        outs.push(out);
        assert(views(outs@) == before.push(out@));
        i = i + 1;
    }
    let joined = join_exec(&outs, ' ');
    let res = string_of(joined.as_slice());
    assert(open_line_outcome(*unprotect, line@, res@)) by {
        assert(views(outs@).len() == ws.len());
    }
    res
}

/// `unprotect` undoes `protect`: whenever protecting some bytes gives a blob,
/// unprotecting that blob gives the same bytes back.
pub open spec fn undoes<P: Fn(&[u8]) -> Option<Vec<u8>>, U: Fn(&[u8]) -> Option<Vec<u8>>>(
    protect: P,
    unprotect: U,
) -> bool {
    forall|x: &[u8], r: Option<Vec<u8>>, y: &[u8], q: Option<Vec<u8>>|
        #![trigger call_ensures(protect, (x,), r), call_ensures(unprotect, (y,), q)]
        call_ensures(protect, (x,), r) && r is Some && y@ == r->0@ && call_ensures(
            unprotect,
            (y,),
            q,
        ) ==> q is Some && q->0@ == x@
}

/// No word of `line` looks like a sealed token.
pub open spec fn no_sealed_words(line: Seq<char>) -> bool {
    forall|i: int|
        0 <= i < split_char(line, ' ').len() ==> !starts_with(
            #[trigger] split_char(line, ' ')[i],
            seal_prefix(),
        )
}

proof fn lemma_sealed_token_shape(blob: Seq<u8>)
    ensures
        starts_with(sealed_token(blob), seal_prefix()),
        sealed_token(blob).skip(4) == hex_text(blob),
        !sealed_token(blob).contains(' '),
{
    let t = sealed_token(blob);
    assert(t.take(4) == seal_prefix());
    assert(t.skip(4) == hex_text(blob));
    lemma_hex_text_digits(blob);
    if t.contains(' ') {
        let k = choose|k: int| 0 <= k < t.len() && t[k] == ' ';
        if k >= 4 {
            assert(hex_text(blob)[k - 4] == ' ');
        }
    }
}

/// Opening a sealed IP gives the IP back when `unprotect` undoes `protect`.
pub proof fn lemma_open_sealed_ip<P: Fn(&[u8]) -> Option<Vec<u8>>, U: Fn(&[u8]) -> Option<Vec<u8>>>(
    protect: P,
    unprotect: U,
    ip: Seq<char>,
    token: Seq<char>,
    opened: Option<Seq<char>>,
)
    requires
        undoes(protect, unprotect),
        seal_ip_outcome(protect, ip, Some(token)),
        open_ip_outcome(unprotect, token, opened),
    ensures
        opened == Some(ip),
        starts_with(token, seal_prefix()),
        !token.contains(' '),
{
    let (x, r) = choose|x: &[u8], r: Option<Vec<u8>>|
        #![trigger call_ensures(protect, (x,), r)]
        x@ == encode_utf8(ip) && call_ensures(protect, (x,), r) && Some(token) == match r {
            Some(b) => Some(sealed_token(b@)),
            None => None,
        };
    let b = r->0;
    lemma_sealed_token_shape(b@);
    lemma_hex_round_trip(b@);
    let (y, q) = choose|y: &[u8], q: Option<Vec<u8>>|
        #![trigger call_ensures(unprotect, (y,), q)]
        y@ == b@ && call_ensures(unprotect, (y,), q) && opened == match q {
            Some(p) => if valid_utf8(p@) {
                Some(decode_utf8(p@))
            } else {
                None
            },
            None => None,
        };
    assert(call_ensures(protect, (x,), r) && call_ensures(unprotect, (y,), q));
    encode_utf8_valid_utf8(ip);
    encode_utf8_decode_utf8(ip);
}

proof fn lemma_open_sealed_word<P: Fn(&[u8]) -> Option<Vec<u8>>, U: Fn(&[u8]) -> Option<Vec<u8>>>(
    protect: P,
    unprotect: U,
    w: Seq<char>,
    sealed: Seq<char>,
    opened: Seq<char>,
)
    requires
        undoes(protect, unprotect),
        !starts_with(w, seal_prefix()),
        seal_word_outcome(protect, w, sealed),
        open_word_outcome(unprotect, sealed, opened),
    ensures
        opened == w,
{
    if is_ip(w) {
        let s = choose|s: Option<Seq<char>>|
            #![trigger seal_ip_outcome(protect, w, s)]
            seal_ip_outcome(protect, w, s) && sealed == match s {
                Some(t) => t,
                None => w,
            };
        if let Some(t) = s {
            lemma_sealed_word_starts(protect, w, t);
            let o = choose|o: Option<Seq<char>>|
                #![trigger open_ip_outcome(unprotect, sealed, o)]
                open_ip_outcome(unprotect, sealed, o) && opened == match o {
                    Some(t) => t,
                    None => sealed,
                };
            lemma_open_sealed_ip(protect, unprotect, w, t, o);
        }
    }
}

proof fn lemma_sealed_word_starts<P: Fn(&[u8]) -> Option<Vec<u8>>>(protect: P, ip: Seq<char>, token: Seq<char>)
    requires
        seal_ip_outcome(protect, ip, Some(token)),
    ensures
        starts_with(token, seal_prefix()),
        !token.contains(' '),
{
    let (x, r) = choose|x: &[u8], r: Option<Vec<u8>>|
        #![trigger call_ensures(protect, (x,), r)]
        x@ == encode_utf8(ip) && call_ensures(protect, (x,), r) && Some(token) == match r {
            Some(b) => Some(sealed_token(b@)),
            None => None,
        };
    lemma_sealed_token_shape(r->0@);
}

/// Opening a sealed line gives the line back, when `unprotect` undoes
/// `protect` and no word of the line already looks like a sealed token.
pub proof fn lemma_open_seal_line<P: Fn(&[u8]) -> Option<Vec<u8>>, U: Fn(&[u8]) -> Option<Vec<u8>>>(
    protect: P,
    unprotect: U,
    line: Seq<char>,
    sealed: Seq<char>,
    opened: Seq<char>,
)
    requires
        undoes(protect, unprotect),
        no_sealed_words(line),
        seal_line_outcome(protect, line, sealed),
        open_line_outcome(unprotect, sealed, opened),
    ensures
        opened == line,
{
    let ws = split_char(line, ' ');
    lemma_split_len(line, ' ');
    lemma_split_pieces(line, ' ');
    let outs = choose|outs: Seq<Seq<char>>|
        #![trigger join(outs, ' ')]
        outs.len() == ws.len() && (forall|i: int|
            0 <= i < outs.len() ==> seal_word_outcome(protect, ws[i], #[trigger] outs[i]))
            && sealed == join(outs, ' ');
    assert forall|i: int| 0 <= i < outs.len() implies !(#[trigger] outs[i]).contains(' ') by {
        assert(!ws[i].contains(' '));
        if is_ip(ws[i]) && outs[i] != ws[i] {
            let s = choose|s: Option<Seq<char>>|
                #![trigger seal_ip_outcome(protect, ws[i], s)]
                seal_ip_outcome(protect, ws[i], s) && outs[i] == match s {
                    Some(t) => t,
                    None => ws[i],
                };
            lemma_sealed_word_starts(protect, ws[i], s->0);
        }
    }
    lemma_split_join(outs, ' ');
    let outs2 = choose|outs2: Seq<Seq<char>>|
        #![trigger join(outs2, ' ')]
        outs2.len() == split_char(sealed, ' ').len() && (forall|i: int|
            0 <= i < outs2.len() ==> open_word_outcome(
                unprotect,
                split_char(sealed, ' ')[i],
                #[trigger] outs2[i],
            )) && opened == join(outs2, ' ');
    assert forall|i: int| 0 <= i < ws.len() implies #[trigger] outs2[i] == ws[i] by {
        assert(seal_word_outcome(protect, ws[i], outs[i]));
        assert(open_word_outcome(unprotect, outs[i], outs2[i]));
        lemma_open_sealed_word(protect, unprotect, ws[i], outs[i], outs2[i]);
    }
    assert(outs2 == ws);
    lemma_join_split(line, ' ');
}

/// A line without an IP address among its words is stored as it is.
pub proof fn lemma_seal_line_keeps_plain<P: Fn(&[u8]) -> Option<Vec<u8>>>(
    protect: P,
    line: Seq<char>,
    sealed: Seq<char>,
)
    requires
        forall|i: int|
            0 <= i < split_char(line, ' ').len() ==> !is_ip(#[trigger] split_char(line, ' ')[i]),
        seal_line_outcome(protect, line, sealed),
    ensures
        sealed == line,
{
    let ws = split_char(line, ' ');
    let outs = choose|outs: Seq<Seq<char>>|
        #![trigger join(outs, ' ')]
        outs.len() == ws.len() && (forall|i: int|
            0 <= i < outs.len() ==> seal_word_outcome(protect, ws[i], #[trigger] outs[i]))
            && sealed == join(outs, ' ');
    assert forall|i: int| 0 <= i < ws.len() implies #[trigger] outs[i] == ws[i] by {
        assert(seal_word_outcome(protect, ws[i], outs[i]));
    }
    assert(outs == ws);
    lemma_join_split(line, ' ');
}

// ------------------------------------------------------------------
// The activity log
// ------------------------------------------------------------------

/// Lines kept in the log; older lines are dropped first.
pub const MAX_LOG_LINES: usize = 5000;

/// Entries kept in the exit-IP history; older entries are dropped first.
pub const MAX_IP_HISTORY: usize = 10;

pub open spec fn counter_mark() -> Seq<char> {
    seq![' ', '(', 'x']
}

/// A log body split into its text and its repeat counter: `text (xN)` gives
/// `(text, N)`; a body without a readable counter counts once.
pub open spec fn counter_split(body: Seq<char>) -> (Seq<char>, nat) {
    match rfind(body, counter_mark()) {
        None => (body, 1),
        Some(i) => {
            let rest = body.skip(i + 3);
            if ends_with(rest, seq![')']) {
                match parse_unsigned(rest.drop_last()) {
                    Some(n) => (body.take(i), n),
                    None => (body, 1),
                }
            } else {
                (body, 1)
            }
        },
    }
}

pub open spec fn count_suffix(count: Option<nat>) -> Seq<char> {
    match count {
        Some(n) => counter_mark() + dec_text(n) + seq![')'],
        None => Seq::<char>::empty(),
    }
}

/// `[stamp] message`, with ` (xN)` when the message repeats for the N-th time.
pub open spec fn entry_text(stamp: Seq<char>, message: Seq<char>, count: Option<nat>) -> Seq<char> {
    seq!['['] + stamp + seq![']', ' '] + message + count_suffix(count)
}

pub open spec fn stamp_end() -> Seq<char> {
    seq![']', ' ']
}

/// `res` is what reading the stored line `last` can give as the repeat count
/// of `message`: the text after the first `] `, opened, split from its
/// counter, counts only when it is `message`.
pub open spec fn repeat_outcome<U: Fn(&[u8]) -> Option<Vec<u8>>>(
    unprotect: U,
    last: Seq<char>,
    message: Seq<char>,
    res: Option<nat>,
) -> bool {
    match find(last, stamp_end()) {
        None => res is None,
        Some(i) => exists|opened: Seq<char>|
            #![trigger open_line_outcome(unprotect, last.skip(i + 2), opened)]
            open_line_outcome(unprotect, last.skip(i + 2), opened) && res == if counter_split(
                opened,
            ).0 == message {
                Some(counter_split(opened).1)
            } else {
                None
            },
    }
}

/// The counter after `n`, wrapping as a `usize` does.
pub open spec fn next_count(n: nat) -> nat {
    if n >= usize::MAX {
        0
    } else {
        n + 1
    }
}

/// The count that a repeat writes: one more than the newest line's.
pub open spec fn bumped(repeat: Option<nat>) -> Option<nat> {
    match repeat {
        Some(n) => Some(next_count(n)),
        None => None,
    }
}

/// The newest `MAX_LOG_LINES` lines of `lines`.
pub open spec fn cap_lines(lines: Seq<Seq<char>>) -> Seq<Seq<char>> {
    if lines.len() > MAX_LOG_LINES {
        lines.skip(lines.len() - MAX_LOG_LINES)
    } else {
        lines
    }
}

pub open spec fn string_views(v: Seq<String>) -> Seq<Seq<char>> {
    Seq::new(v.len(), |i: int| v[i]@)
}

/// `new_lines` is what logging `message` at `stamp` can make of `old_lines`:
/// a repeat of the newest line's message replaces that line by one counting
/// the repeat, any other message is appended; the line is stored sealed, and
/// only the newest `MAX_LOG_LINES` lines are kept.
pub open spec fn log_push_outcome<P: Fn(&[u8]) -> Option<Vec<u8>>, U: Fn(&[u8]) -> Option<Vec<u8>>>(
    protect: P,
    unprotect: U,
    old_lines: Seq<Seq<char>>,
    stamp: Seq<char>,
    message: Seq<char>,
    new_lines: Seq<Seq<char>>,
) -> bool {
    exists|repeat: Option<nat>, sealed: Seq<char>|
        #![trigger seal_line_outcome(protect, entry_text(stamp, message, bumped(repeat)), sealed)]
        (if old_lines.len() == 0 {
            repeat is None
        } else {
            repeat_outcome(unprotect, old_lines.last(), message, repeat)
        }) && seal_line_outcome(protect, entry_text(stamp, message, bumped(repeat)), sealed)
            && new_lines == cap_lines(
            match repeat {
                Some(_) => old_lines.drop_last().push(sealed),
                None => old_lines.push(sealed),
            },
        )
}

/// A stored exit-IP entry: the sealed IP and when it was seen, in ms.
#[derive(Debug, Clone)]
pub struct SealedEntry {
    pub enc: String,
    pub at: u64,
}

/// The persisted vault: the exit-IP history and the activity log.
#[derive(Debug, Clone)]
pub struct VaultData {
    pub history: Vec<SealedEntry>,
    pub lines: Vec<String>,
}

impl Default for SealedEntry {
    fn default() -> (res: SealedEntry)
        ensures
            res.enc@ == Seq::<char>::empty(),
            res.at == 0,
    {
        SealedEntry { enc: String::new(), at: 0 }
    }
}

impl Default for VaultData {
    fn default() -> (res: VaultData)
        ensures
            res.history@.len() == 0,
            res.lines@.len() == 0,
    {
        VaultData { history: Vec::new(), lines: Vec::new() }
    }
}

impl PartialEq for SealedEntry {
    fn eq(&self, other: &SealedEntry) -> (res: bool) {
        self.enc == other.enc && self.at == other.at
    }
}

impl vstd::std_specs::cmp::PartialEqSpecImpl for SealedEntry {
    open spec fn obeys_eq_spec() -> bool {
        true
    }

    open spec fn eq_spec(&self, other: &SealedEntry) -> bool {
        self.enc@ == other.enc@ && self.at == other.at
    }
}

impl SealedEntry {
    /// A copy of this entry.
    pub fn duplicate(&self) -> (res: SealedEntry)
        ensures
            res.enc@ == self.enc@,
            res.at == self.at,
    {
        SealedEntry { enc: self.enc.clone(), at: self.at }
    }
}

/// Splits a log body into its text and its repeat counter.
fn split_counter(body: &[char]) -> (res: (Vec<char>, usize))
    ensures
        res.0@ == counter_split(body@).0,
        res.1 as nat == counter_split(body@).1,
{
    let mark = vec![' ', '(', 'x'];
    assert(mark@ == counter_mark());
    let whole = slice_chars(body, 0, body.len());
    assert(whole@ == body@);
    match rfind_exec(body, mark.as_slice()) {
        None => (whole, 1),
        Some(i) => {
            proof {
                lemma_rfind_upto(body@, mark@, body@.len() - 3);
            }
            let rest = slice_chars(body, i + 3, body.len());
            assert(rest@ == body@.skip(i + 3));
            let close = vec![')'];
            assert(close@ == seq![')']);
            if ends_with_exec(rest.as_slice(), close.as_slice()) {
                let inner = slice_chars(rest.as_slice(), 0, rest.len() - 1);
                assert(inner@ == rest@.drop_last());
                match parse_usize(inner.as_slice()) {
                    Some(n) => {
                        let base = slice_chars(body, 0, i);
                        assert(base@ == body@.take(i as int));
                        (base, n)
                    },
                    None => (whole, 1),
                }
            } else {
                (whole, 1)
            }
        },
    }
}

fn append_chars(v: &mut Vec<char>, w: &[char])
    ensures
        final(v)@ == old(v)@ + w@,
{
    let mut k: usize = 0;
    while k < w.len()
        invariant
            k <= w@.len(),
            v@ == old(v)@ + w@.take(k as int),
        decreases w.len() - k,
    {
        v.push(w[k]);
        k = k + 1;
        assert(v@ == old(v)@ + w@.take(k as int));
    }
    assert(w@.take(w@.len() as int) == w@);
}

/// `[stamp] message`, with ` (xN)` for a counted repeat.
fn entry_chars(stamp: &[char], message: &[char], count: Option<usize>) -> (res: Vec<char>)
    ensures
        res@ == entry_text(
            stamp@,
            message@,
            match count {
                Some(n) => Some(n as nat),
                None => None,
            },
        ),
{
    let mut v: Vec<char> = vec!['['];
    append_chars(&mut v, stamp);
    v.push(']');
    v.push(' ');
    append_chars(&mut v, message);
    match count {
        Some(n) => {
            v.push(' ');
            v.push('(');
            v.push('x');
            let d = dec_string(n);
            append_chars(&mut v, d.as_slice());
            v.push(')');
        },
        None => {},
    }
    v
}

/// How often `message` already stands as the newest stored line `last`.
fn repeat_count<U: Fn(&[u8]) -> Option<Vec<u8>>>(last: &str, message: &[char], unprotect: &U) -> (res:
    Option<usize>)
    requires
        forall|x: &[u8]| call_requires(*unprotect, (x,)),
    ensures
        repeat_outcome(
            *unprotect,
            last@,
            message@,
            match res {
                Some(n) => Some(n as nat),
                None => None,
            },
        ),
{
    let cs = chars_of(last);
    let mark = vec![']', ' '];
    assert(mark@ == stamp_end());
    match find_exec(cs.as_slice(), mark.as_slice()) {
        None => None,
        Some(i) => {
            proof {
                lemma_find_from(cs@, mark@, 0);
            }
            let n = cs.len();
            let rest_chars = slice_chars(cs.as_slice(), i + 2, n);
            let rest = string_of(rest_chars.as_slice());
            assert(rest@ == last@.skip(i + 2));
            let opened = open_line(rest.as_str(), unprotect);
            let oc = chars_of(opened.as_str());
            let (base, n) = split_counter(oc.as_slice());
            if same_chars(base.as_slice(), message) {
                assert(open_line_outcome(*unprotect, last@.skip(i + 2), opened@));
                Some(n)
            } else {
                assert(open_line_outcome(*unprotect, last@.skip(i + 2), opened@));
                None
            }
        },
    }
}

/// Logs `message` at `stamp`: a repeat of the newest line's message replaces
/// it with one counting the repeat, `[stamp] message (xN)`; any other message
/// is appended as `[stamp] message`. Lines are stored sealed, and only the
/// newest `MAX_LOG_LINES` are kept.
pub fn push_line_stamped<P: Fn(&[u8]) -> Option<Vec<u8>>, U: Fn(&[u8]) -> Option<Vec<u8>>>(
    data: &mut VaultData,
    message: &str,
    stamp: &str,
    protect: &P,
    unprotect: &U,
)
    requires
        forall|x: &[u8]| call_requires(*protect, (x,)),
        forall|x: &[u8]| call_requires(*unprotect, (x,)),
    ensures
        log_push_outcome(
            *protect,
            *unprotect,
            string_views(old(data).lines@),
            stamp@,
            message@,
            string_views(final(data).lines@),
        ),
        final(data).history@ == old(data).history@,
{
    let ghost old_lines = string_views(data.lines@);
    let msg = chars_of(message);
    let st = chars_of(stamp);
    let n_lines = data.lines.len();
    let repeat = if n_lines == 0 {
        None
    } else {
        assert(old_lines.last() == data.lines@[n_lines - 1]@);
        repeat_count(data.lines[n_lines - 1].as_str(), msg.as_slice(), unprotect)
    };
    let count: Option<usize> = match repeat {
        Some(n) => Some(
            if n == usize::MAX {
                0
            } else {
                n + 1
            },
        ),
        None => None,
    };
    let entry = string_of(entry_chars(st.as_slice(), msg.as_slice(), count).as_slice());
    let sealed = seal_line(entry.as_str(), protect);
    let ghost rep = match repeat {
        Some(n) => Some(n as nat),
        None => None::<nat>,
    };
    assert(entry@ == entry_text(stamp@, message@, bumped(rep)));
    if repeat.is_some() {
        data.lines.pop();
    }
    data.lines.push(sealed);
    let ghost pushed = match rep {
        Some(_) => old_lines.drop_last().push(sealed@),
        None => old_lines.push(sealed@),
    };
    assert(string_views(data.lines@) == pushed);
    if data.lines.len() > MAX_LOG_LINES {
        let excess = data.lines.len() - MAX_LOG_LINES;
        let kept = data.lines.split_off(excess);
        data.lines = kept;
        assert(string_views(data.lines@) == pushed.skip(pushed.len() - MAX_LOG_LINES));
    }
    assert(string_views(data.lines@) == cap_lines(pushed));
    assert(seal_line_outcome(*protect, entry_text(stamp@, message@, bumped(rep)), sealed@));
    assert(old_lines.len() == 0 ==> rep is None);
    assert(old_lines.len() > 0 ==> repeat_outcome(*unprotect, old_lines.last(), message@, rep));
}

/// Logs `message`, stamped with the current time of day.
pub fn push_line_data<P: Fn(&[u8]) -> Option<Vec<u8>>, U: Fn(&[u8]) -> Option<Vec<u8>>>(
    data: &mut VaultData,
    message: &str,
    protect: &P,
    unprotect: &U,
)
    requires
        forall|x: &[u8]| call_requires(*protect, (x,)),
        forall|x: &[u8]| call_requires(*unprotect, (x,)),
    ensures
        exists|secs: nat|
            log_push_outcome(
                *protect,
                *unprotect,
                string_views(old(data).lines@),
                clock_text(secs),
                message@,
                string_views(final(data).lines@),
            ),
        final(data).history@ == old(data).history@,
{
    let stamp = local_stamp();
    push_line_stamped(data, message, stamp.as_str(), protect, unprotect);
}

/// Every log line, opened.
pub fn open_lines<U: Fn(&[u8]) -> Option<Vec<u8>>>(data: &VaultData, unprotect: &U) -> (res: Vec<String>)
    requires
        forall|x: &[u8]| call_requires(*unprotect, (x,)),
    ensures
        res@.len() == data.lines@.len(),
        forall|i: int|
            0 <= i < res@.len() ==> open_line_outcome(
                *unprotect,
                data.lines@[i]@,
                #[trigger] res@[i]@,
            ),
{
    let mut out: Vec<String> = Vec::new();
    let mut i: usize = 0;
    while i < data.lines.len()
        invariant
            forall|x: &[u8]| call_requires(*unprotect, (x,)),
            i <= data.lines@.len(),
            out@.len() == i,
            forall|j: int|
                0 <= j < i ==> open_line_outcome(*unprotect, data.lines@[j]@, #[trigger] out@[j]@),
        decreases data.lines.len() - i,
    {
        let line = open_line(data.lines[i].as_str(), unprotect);
        out.push(line);
        i = i + 1;
    }
    out
}

// ------------------------------------------------------------------
// The exit-IP history
// ------------------------------------------------------------------

/// What a failed exit-IP lookup reports instead of an address.
pub open spec fn unreachable_text() -> Seq<char> {
    seq!['u', 'n', 'r', 'e', 'a', 'c', 'h', 'a', 'b', 'l', 'e']
}

pub open spec fn entry_view(e: SealedEntry) -> (Seq<char>, u64) {
    (e.enc@, e.at)
}

pub open spec fn entries_view(v: Seq<SealedEntry>) -> Seq<(Seq<char>, u64)> {
    Seq::new(v.len(), |i: int| entry_view(v[i]))
}

pub open spec fn opt_entries_view(v: Option<Vec<SealedEntry>>) -> Option<Seq<(Seq<char>, u64)>> {
    match v {
        Some(h) => Some(entries_view(h@)),
        None => None,
    }
}

/// `first` is what opening the newest entry of `history` can give.
pub open spec fn newest_opened<U: Fn(&[u8]) -> Option<Vec<u8>>>(
    unprotect: U,
    history: Seq<(Seq<char>, u64)>,
    first: Option<Seq<char>>,
) -> bool {
    if history.len() == 0 {
        first is None
    } else {
        open_ip_outcome(unprotect, history[0].0, first)
    }
}

/// `h` is `history` with the sealed entry `token` in front, seen at `at`
/// unless `at` is 0 (then at the time of the call), cut to `MAX_IP_HISTORY`.
pub open spec fn prepended(
    history: Seq<(Seq<char>, u64)>,
    token: Seq<char>,
    at: u64,
    h: Seq<(Seq<char>, u64)>,
) -> bool {
    &&& h.len() == if history.len() + 1 > MAX_IP_HISTORY {
        MAX_IP_HISTORY as int
    } else {
        history.len() + 1int
    }
    &&& h[0].0 == token
    &&& at != 0 ==> h[0].1 == at
    &&& h.skip(1) == history.take(h.len() - 1)
}

/// `res` is what recording the exit IP `ip` can make of `history`: nothing
/// for an empty or failed lookup, nothing when the newest entry already opens
/// to `ip`, nothing when sealing fails, and otherwise the history with the
/// sealed `ip` in front.
pub open spec fn history_outcome<P: Fn(&[u8]) -> Option<Vec<u8>>, U: Fn(&[u8]) -> Option<Vec<u8>>>(
    protect: P,
    unprotect: U,
    history: Seq<(Seq<char>, u64)>,
    ip: Seq<char>,
    at: u64,
    res: Option<Seq<(Seq<char>, u64)>>,
) -> bool {
    if ip.len() == 0 || ip == unreachable_text() {
        res is None
    } else {
        exists|first: Option<Seq<char>>|
            #![trigger newest_opened(unprotect, history, first)]
            newest_opened(unprotect, history, first) && if first == Some(ip) {
                res is None
            } else {
                exists|s: Option<Seq<char>>|
                    #![trigger seal_ip_outcome(protect, ip, s)]
                    seal_ip_outcome(protect, ip, s) && match s {
                        None => res is None,
                        Some(t) => res matches Some(h) && prepended(history, t, at, h),
                    }
            }
    }
}

/// Whether the newest entry of `current` opens to `ip`.
pub fn newest_is<U: Fn(&[u8]) -> Option<Vec<u8>>>(current: &[SealedEntry], ip: &str, unprotect: &U) -> (res:
    bool)
    requires
        forall|x: &[u8]| call_requires(*unprotect, (x,)),
    ensures
        exists|first: Option<Seq<char>>|
            #![trigger newest_opened(*unprotect, entries_view(current@), first)]
            newest_opened(*unprotect, entries_view(current@), first) && res == (first == Some(
                ip@,
            )),
{
    let ghost cur = entries_view(current@);
    let first = if current.len() == 0 {
        None
    } else {
        open_ip(current[0].enc.as_str(), unprotect)
    };
    let ghost fv = str_view(first);
    assert(newest_opened(*unprotect, cur, fv));
    match &first {
        Some(f) => {
            let fc = chars_of(f.as_str());
            let ipc = chars_of(ip);
            same_chars(fc.as_slice(), ipc.as_slice())
        },
        None => false,
    }
}

/// An opened history entry: the exit IP and when it was seen, in ms.
#[derive(Debug, Clone)]
pub struct OpenedEntry {
    pub ip: String,
    pub at: u64,
}

/// The entries whose IP opened, in order, with their times.
pub open spec fn kept_entries(opened: Seq<Option<Seq<char>>>, ats: Seq<u64>) -> Seq<(Seq<char>, u64)>
    decreases opened.len(),
{
    if opened.len() == 0 {
        Seq::empty()
    } else {
        let front = kept_entries(opened.drop_last(), ats.take(opened.len() - 1));
        match opened.last() {
            Some(ip) => front.push((ip, ats[opened.len() - 1])),
            None => front,
        }
    }
}

pub open spec fn opened_view(v: Seq<OpenedEntry>) -> Seq<(Seq<char>, u64)> {
    Seq::new(v.len(), |i: int| (v[i].ip@, v[i].at))
}

pub open spec fn entry_times(v: Seq<SealedEntry>) -> Seq<u64> {
    Seq::new(v.len(), |i: int| v[i].at)
}

/// `idx` picks, in strictly increasing order, the stored positions that the
/// shown entries `shown` come from: each with its opened IP and its time;
/// every position whose IP opened is picked.
pub open spec fn shown_from(
    opened: Seq<Option<Seq<char>>>,
    ats: Seq<u64>,
    shown: Seq<(Seq<char>, u64)>,
    idx: Seq<int>,
) -> bool {
    &&& idx.len() == shown.len()
    &&& forall|j: int|
        0 <= j < idx.len() ==> 0 <= #[trigger] idx[j] < opened.len() && opened[idx[j]] == Some(
            shown[j].0,
        ) && ats[idx[j]] == shown[j].1
    &&& forall|j1: int, j2: int| 0 <= j1 < j2 < idx.len() ==> #[trigger] idx[j1] < #[trigger] idx[j2]
    &&& forall|k: int|
        0 <= k < opened.len() && (#[trigger] opened[k]) is Some ==> exists|j: int|
            0 <= j < idx.len() && idx[j] == k
}

/// The shown history keeps every entry whose IP opened, in order, each with
/// the time of the entry it was opened from, and nothing else.
pub proof fn lemma_kept_entries_shape(opened: Seq<Option<Seq<char>>>, ats: Seq<u64>)
    requires
        ats.len() == opened.len(),
    ensures
        exists|idx: Seq<int>| #[trigger] shown_from(opened, ats, kept_entries(opened, ats), idx),
    decreases opened.len(),
{
    let kept = kept_entries(opened, ats);
    if opened.len() == 0 {
        assert(kept.len() == 0);
        assert(shown_from(opened, ats, kept, Seq::<int>::empty()));
    } else {
        let n = opened.len() - 1;
        let o2 = opened.drop_last();
        let a2 = ats.take(n);
        lemma_kept_entries_shape(o2, a2);
        let front = kept_entries(o2, a2);
        let idx2 = choose|idx: Seq<int>| #[trigger] shown_from(o2, a2, front, idx);
        match opened.last() {
            Some(ip) => {
                let idx = idx2.push(n);
                assert(kept == front.push((ip, ats[n])));
                assert forall|j: int| 0 <= j < idx.len() implies 0 <= #[trigger] idx[j]
                    < opened.len() && opened[idx[j]] == Some(kept[j].0) && ats[idx[j]]
                    == kept[j].1 by {
                    if j < idx2.len() {
                        assert(idx[j] == idx2[j]);
                        assert(o2[idx2[j]] == opened[idx2[j]]);
                        assert(a2[idx2[j]] == ats[idx2[j]]);
                    }
                }
                assert forall|j1: int, j2: int| 0 <= j1 < j2 < idx.len() implies #[trigger] idx[j1]
                    < #[trigger] idx[j2] by {
                    if j2 < idx2.len() {
                        assert(idx[j1] == idx2[j1] && idx[j2] == idx2[j2]);
                    } else {
                        assert(idx[j1] == idx2[j1]);
                    }
                }
                assert forall|k: int|
                    0 <= k < opened.len() && (#[trigger] opened[k]) is Some implies exists|j: int|
                    0 <= j < idx.len() && idx[j] == k by {
                    if k < n {
                        assert(o2[k] == opened[k]);
                        let j = choose|j: int| 0 <= j < idx2.len() && idx2[j] == k;
                        assert(idx[j] == k);
                    } else {
                        assert(idx[idx.len() - 1] == k);
                    }
                }
                assert(shown_from(opened, ats, kept, idx));
            },
            None => {
                assert(kept == front);
                assert forall|j: int| 0 <= j < idx2.len() implies 0 <= #[trigger] idx2[j]
                    < opened.len() && opened[idx2[j]] == Some(kept[j].0) && ats[idx2[j]]
                    == kept[j].1 by {
                    assert(o2[idx2[j]] == opened[idx2[j]]);
                    assert(a2[idx2[j]] == ats[idx2[j]]);
                }
                assert forall|k: int|
                    0 <= k < opened.len() && (#[trigger] opened[k]) is Some implies exists|j: int|
                    0 <= j < idx2.len() && idx2[j] == k by {
                    assert(k < n);
                    assert(o2[k] == opened[k]);
                }
                assert(shown_from(opened, ats, kept, idx2));
            },
        }
    }
}

/// When every stored entry opens, the shown history is the stored one, entry
/// for entry, with the same times.
pub proof fn lemma_kept_entries_all_open(opened: Seq<Option<Seq<char>>>, ats: Seq<u64>)
    requires
        ats.len() == opened.len(),
        forall|i: int| 0 <= i < opened.len() ==> (#[trigger] opened[i]) is Some,
    ensures
        kept_entries(opened, ats).len() == opened.len(),
        forall|i: int|
            0 <= i < opened.len() ==> #[trigger] kept_entries(opened, ats)[i] == (
                opened[i]->0,
                ats[i],
            ),
    decreases opened.len(),
{
    if opened.len() > 0 {
        let n = opened.len() - 1;
        let o2 = opened.drop_last();
        let a2 = ats.take(n);
        assert forall|i: int| 0 <= i < o2.len() implies (#[trigger] o2[i]) is Some by {
            assert(o2[i] == opened[i]);
        }
        lemma_kept_entries_all_open(o2, a2);
        assert(opened.last() == opened[n]);
        assert forall|i: int| 0 <= i < opened.len() implies #[trigger] kept_entries(opened, ats)[i]
            == (opened[i]->0, ats[i]) by {
            if i < n {
                assert(o2[i] == opened[i]);
                assert(a2[i] == ats[i]);
            }
        }
    }
}

/// The history as it is shown: each entry whose IP opens, in order; entries
/// that do not open are left out.
pub fn open_history<U: Fn(&[u8]) -> Option<Vec<u8>>>(entries: &[SealedEntry], unprotect: &U) -> (res:
    Vec<OpenedEntry>)
    requires
        forall|x: &[u8]| call_requires(*unprotect, (x,)),
    ensures
        exists|opened: Seq<Option<Seq<char>>>|
            #![trigger kept_entries(opened, entry_times(entries@))]
            opened.len() == entries@.len() && (forall|i: int|
                0 <= i < opened.len() ==> open_ip_outcome(
                    *unprotect,
                    entries@[i].enc@,
                    #[trigger] opened[i],
                )) && opened_view(res@) == kept_entries(opened, entry_times(entries@)),
{
    let mut out: Vec<OpenedEntry> = Vec::new();
    let ghost mut opened: Seq<Option<Seq<char>>> = Seq::empty();
    let mut i: usize = 0;
    while i < entries.len()
        invariant
            forall|x: &[u8]| call_requires(*unprotect, (x,)),
            i <= entries@.len(),
            opened.len() == i,
            forall|j: int|
                0 <= j < i ==> open_ip_outcome(*unprotect, entries@[j].enc@, #[trigger] opened[j]),
            opened_view(out@) == kept_entries(opened, entry_times(entries@).take(i as int)),
        decreases entries.len() - i,
    {
        let r = open_ip(entries[i].enc.as_str(), unprotect);
        let ghost rv = str_view(r);
        let ghost prev = opened;
        proof {
            opened = opened.push(rv);
            assert(opened.drop_last() == prev);
            assert(entry_times(entries@).take(i + 1).take(i as int) == entry_times(entries@).take(
                i as int,
            ));
        }
        let ghost before = opened_view(out@);
        match r {
            Some(ip) => {
                out.push(OpenedEntry { ip, at: entries[i].at });
                assert(opened_view(out@) == before.push((rv->0, entries@[i as int].at)));
            },
            None => {},
        }
        i = i + 1;
    }
    assert(entry_times(entries@).take(entries@.len() as int) == entry_times(entries@));
    out
}

/// The history after the exit IP `ip` was seen at `at` (0: now). `None` when
/// there is nothing to record: an empty or `unreachable` lookup, the same IP
/// as the newest entry, or an IP that could not be sealed.
pub fn next_history<P: Fn(&[u8]) -> Option<Vec<u8>>, U: Fn(&[u8]) -> Option<Vec<u8>>>(
    current: &[SealedEntry],
    ip: &str,
    at: u64,
    protect: &P,
    unprotect: &U,
) -> (res: Option<Vec<SealedEntry>>)
    requires
        forall|x: &[u8]| call_requires(*protect, (x,)),
        forall|x: &[u8]| call_requires(*unprotect, (x,)),
    ensures
        history_outcome(*protect, *unprotect, entries_view(current@), ip@, at, opt_entries_view(res)),
        res matches Some(h) ==> h@.len() <= MAX_IP_HISTORY,
{
    let ghost cur = entries_view(current@);
    let ipc = chars_of(ip);
    let unr = vec!['u', 'n', 'r', 'e', 'a', 'c', 'h', 'a', 'b', 'l', 'e'];
    assert(unr@ == unreachable_text());
    if ipc.len() == 0 || same_chars(ipc.as_slice(), unr.as_slice()) {
        return None;
    }
    let same = newest_is(current, ip, unprotect);
    if same {
        return None;
    }
    let sealed = seal_ip(ip, protect);
    let ghost sv = str_view(sealed);
    assert(seal_ip_outcome(*protect, ip@, sv));
    let enc = match sealed {
        Some(e) => e,
        None => return None,
    };
    let ghost token = enc@;
    let stamp = if at == 0 {
        now_ms()
    } else {
        at
    };
    let mut next: Vec<SealedEntry> = Vec::new();
    next.push(SealedEntry { enc, at: stamp });
    let mut i: usize = 0;
    while i < current.len() && next.len() < MAX_IP_HISTORY
        invariant
            cur == entries_view(current@),
            next@.len() == i + 1,
            i <= current@.len(),
            next@.len() <= MAX_IP_HISTORY,
            entries_view(next@)[0] == (token, stamp),
            entries_view(next@).skip(1) == cur.take(i as int),
        decreases current.len() - i,
    {
        let e = current[i].duplicate();
        let ghost before = entries_view(next@);
        next.push(e);
        assert(entries_view(next@) == before.push(entry_view(e)));
        assert(entries_view(next@).skip(1) == cur.take(i + 1));
        i = i + 1;
    }
    assert(prepended(cur, token, at, entries_view(next@)));
    Some(next)
}

/// Recording the same exit IP twice in a row records it once: once `ip`
/// heads the history, recording `ip` again gives nothing.
pub proof fn lemma_history_no_repeat<P: Fn(&[u8]) -> Option<Vec<u8>>, U: Fn(&[u8]) -> Option<Vec<u8>>>(
    protect: P,
    unprotect: U,
    history: Seq<(Seq<char>, u64)>,
    ip: Seq<char>,
    at: u64,
    recorded: Seq<(Seq<char>, u64)>,
    at_again: u64,
    again: Option<Seq<(Seq<char>, u64)>>,
)
    requires
        undoes(protect, unprotect),
        history_outcome(protect, unprotect, history, ip, at, Some(recorded)),
        history_outcome(protect, unprotect, recorded, ip, at_again, again),
    ensures
        again is None,
{
    let first = choose|first: Option<Seq<char>>|
        #![trigger newest_opened(unprotect, history, first)]
        newest_opened(unprotect, history, first) && if first == Some(ip) {
            Some(recorded) is None
        } else {
            exists|s: Option<Seq<char>>|
                #![trigger seal_ip_outcome(protect, ip, s)]
                seal_ip_outcome(protect, ip, s) && match s {
                    None => Some(recorded) is None,
                    Some(t) => Some(recorded) matches Some(h) && prepended(history, t, at, h),
                }
        };
    let s = choose|s: Option<Seq<char>>|
        #![trigger seal_ip_outcome(protect, ip, s)]
        seal_ip_outcome(protect, ip, s) && match s {
            None => Some(recorded) is None,
            Some(t) => Some(recorded) matches Some(h) && prepended(history, t, at, h),
        };
    let t = s->0;
    let first2 = choose|first2: Option<Seq<char>>|
        #![trigger newest_opened(unprotect, recorded, first2)]
        newest_opened(unprotect, recorded, first2) && if first2 == Some(ip) {
            again is None
        } else {
            exists|s2: Option<Seq<char>>|
                #![trigger seal_ip_outcome(protect, ip, s2)]
                seal_ip_outcome(protect, ip, s2) && match s2 {
                    None => again is None,
                    Some(t2) => again matches Some(h) && prepended(recorded, t2, at_again, h),
                }
        };
    lemma_open_sealed_ip(protect, unprotect, ip, t, first2);
}

/// A lookup that failed is never recorded.
pub proof fn lemma_history_skips_unreachable<P: Fn(&[u8]) -> Option<Vec<u8>>, U: Fn(&[u8]) -> Option<Vec<u8>>>(
    protect: P,
    unprotect: U,
    history: Seq<(Seq<char>, u64)>,
    at: u64,
    res: Option<Seq<(Seq<char>, u64)>>,
)
    requires
        history_outcome(protect, unprotect, history, unreachable_text(), at, res),
    ensures
        res is None,
{
}

/// Once an exit IP is recorded, the newest entry opens to it, the entries
/// before follow in order, and the history holds at most `MAX_IP_HISTORY`.
pub proof fn lemma_history_records_ip<P: Fn(&[u8]) -> Option<Vec<u8>>, U: Fn(&[u8]) -> Option<Vec<u8>>>(
    protect: P,
    unprotect: U,
    history: Seq<(Seq<char>, u64)>,
    ip: Seq<char>,
    at: u64,
    recorded: Seq<(Seq<char>, u64)>,
    opened: Option<Seq<char>>,
)
    requires
        undoes(protect, unprotect),
        history_outcome(protect, unprotect, history, ip, at, Some(recorded)),
        recorded.len() > 0 ==> open_ip_outcome(unprotect, recorded[0].0, opened),
    ensures
        0 < recorded.len() <= MAX_IP_HISTORY,
        opened == Some(ip),
        recorded.skip(1) == history.take(recorded.len() - 1),
{
    let s = choose|s: Option<Seq<char>>|
        #![trigger seal_ip_outcome(protect, ip, s)]
        seal_ip_outcome(protect, ip, s) && match s {
            None => Some(recorded) is None,
            Some(t) => Some(recorded) matches Some(h) && prepended(history, t, at, h),
        };
    lemma_open_sealed_ip(protect, unprotect, ip, s->0, opened);
}

/// `unprotect` answers the same bytes the same way every time.
pub open spec fn deterministic<U: Fn(&[u8]) -> Option<Vec<u8>>>(unprotect: U) -> bool {
    forall|x: &[u8], r: Option<Vec<u8>>, y: &[u8], q: Option<Vec<u8>>|
        #![trigger call_ensures(unprotect, (x,), r), call_ensures(unprotect, (y,), q)]
        call_ensures(unprotect, (x,), r) && call_ensures(unprotect, (y,), q) && x@ == y@ ==> (
        r is Some <==> q is Some) && (r is Some ==> r->0@ == q->0@)
}

/// No two neighbouring entries of `h` open to the same IP.
pub open spec fn distinct_neighbours<U: Fn(&[u8]) -> Option<Vec<u8>>>(
    unprotect: U,
    h: Seq<(Seq<char>, u64)>,
) -> bool {
    forall|i: int, j: int, a: Option<Seq<char>>, b: Option<Seq<char>>|
        #![trigger open_ip_outcome(unprotect, h[i].0, a), open_ip_outcome(unprotect, h[j].0, b)]
        0 <= i && j == i + 1 && j < h.len() && open_ip_outcome(unprotect, h[i].0, a)
            && open_ip_outcome(unprotect, h[j].0, b) ==> a is None || a != b
}

/// With a deterministic `unprotect`, a token opens one way only.
proof fn lemma_open_ip_unique<U: Fn(&[u8]) -> Option<Vec<u8>>>(
    unprotect: U,
    token: Seq<char>,
    a: Option<Seq<char>>,
    b: Option<Seq<char>>,
)
    requires
        deterministic(unprotect),
        open_ip_outcome(unprotect, token, a),
        open_ip_outcome(unprotect, token, b),
    ensures
        a == b,
{
    if starts_with(token, seal_prefix()) {
        if let Some(blob) = hex_bytes(token.skip(4)) {
            let (x1, r1) = choose|x: &[u8], r: Option<Vec<u8>>|
                #![trigger call_ensures(unprotect, (x,), r)]
                x@ == blob && call_ensures(unprotect, (x,), r) && a == match r {
                    Some(p) => if valid_utf8(p@) {
                        Some(decode_utf8(p@))
                    } else {
                        None
                    },
                    None => None,
                };
            let (x2, r2) = choose|x: &[u8], r: Option<Vec<u8>>|
                #![trigger call_ensures(unprotect, (x,), r)]
                x@ == blob && call_ensures(unprotect, (x,), r) && b == match r {
                    Some(p) => if valid_utf8(p@) {
                        Some(decode_utf8(p@))
                    } else {
                        None
                    },
                    None => None,
                };
            assert(call_ensures(unprotect, (x1,), r1) && call_ensures(unprotect, (x2,), r2));
        }
    }
}

/// Recording keeps neighbouring entries apart: when no two neighbouring
/// entries of the history open to the same IP, the same holds after an IP is
/// recorded, provided `unprotect` undoes `protect` and is deterministic.
pub proof fn lemma_history_keeps_neighbours_distinct<P: Fn(&[u8]) -> Option<Vec<u8>>, U: Fn(&[u8]) -> Option<Vec<u8>>>(
    protect: P,
    unprotect: U,
    history: Seq<(Seq<char>, u64)>,
    ip: Seq<char>,
    at: u64,
    recorded: Seq<(Seq<char>, u64)>,
)
    requires
        undoes(protect, unprotect),
        deterministic(unprotect),
        distinct_neighbours(unprotect, history),
        history_outcome(protect, unprotect, history, ip, at, Some(recorded)),
    ensures
        distinct_neighbours(unprotect, recorded),
{
    let first = choose|first: Option<Seq<char>>|
        #![trigger newest_opened(unprotect, history, first)]
        newest_opened(unprotect, history, first) && if first == Some(ip) {
            Some(recorded) is None
        } else {
            exists|s: Option<Seq<char>>|
                #![trigger seal_ip_outcome(protect, ip, s)]
                seal_ip_outcome(protect, ip, s) && match s {
                    None => Some(recorded) is None,
                    Some(t) => Some(recorded) matches Some(h) && prepended(history, t, at, h),
                }
        };
    let s = choose|s: Option<Seq<char>>|
        #![trigger seal_ip_outcome(protect, ip, s)]
        seal_ip_outcome(protect, ip, s) && match s {
            None => Some(recorded) is None,
            Some(t) => Some(recorded) matches Some(h) && prepended(history, t, at, h),
        };
    let t = s->0;
    assert forall|i: int, j: int, a: Option<Seq<char>>, b: Option<Seq<char>>|
        0 <= i && j == i + 1 && j < recorded.len() && #[trigger] open_ip_outcome(
            unprotect,
            recorded[i].0,
            a,
        ) && #[trigger] open_ip_outcome(unprotect, recorded[j].0, b) implies a is None || a
        != b by {
        assert(recorded.skip(1)[j - 1] == recorded[j]);
        assert(recorded[j] == history[j - 1]);
        if i == 0 {
            lemma_open_sealed_ip(protect, unprotect, ip, t, a);
            assert(history.len() > 0);
            lemma_open_ip_unique(unprotect, history[0].0, b, first);
        } else {
            assert(recorded.skip(1)[i - 1] == recorded[i]);
            assert(recorded[i] == history[i - 1]);
            assert(open_ip_outcome(unprotect, history[i - 1].0, a));
            assert(open_ip_outcome(unprotect, history[j - 1].0, b));
        }
    }
}

// ------------------------------------------------------------------
// Upgrading the first vault format
// ------------------------------------------------------------------

/// A history entry of the first vault format, with the IP in the clear.
#[derive(Debug, Clone)]
pub struct LegacyEntry {
    pub ip: String,
    pub at: u64,
}

pub open spec fn legacy_view(v: Seq<LegacyEntry>) -> Seq<(Seq<char>, u64)> {
    Seq::new(v.len(), |i: int| (v[i].ip@, v[i].at))
}

/// `res` is what upgrading the legacy history `hs` can give: entries with an
/// empty IP are dropped; every other IP is sealed, or kept in the clear when
/// sealing fails; order and times are kept.
pub open spec fn upgraded_history<P: Fn(&[u8]) -> Option<Vec<u8>>>(
    protect: P,
    hs: Seq<(Seq<char>, u64)>,
    res: Seq<(Seq<char>, u64)>,
) -> bool
    decreases hs.len(),
{
    if hs.len() == 0 {
        res.len() == 0
    } else if hs.last().0.len() == 0 {
        upgraded_history(protect, hs.drop_last(), res)
    } else {
        &&& res.len() > 0
        &&& res.last().1 == hs.last().1
        &&& exists|s: Option<Seq<char>>|
            #![trigger seal_ip_outcome(protect, hs.last().0, s)]
            seal_ip_outcome(protect, hs.last().0, s) && res.last().0 == match s {
                Some(t) => t,
                None => hs.last().0,
            }
        &&& upgraded_history(protect, hs.drop_last(), res.drop_last())
    }
}

pub open spec fn first_n<A>(s: Seq<A>, n: int) -> Seq<A> {
    if s.len() > n {
        s.take(n)
    } else {
        s
    }
}

/// Brings data of the first vault format over: at most `MAX_IP_HISTORY`
/// history entries and `MAX_LOG_LINES` lines are read, IPs are sealed, and
/// log lines are sealed word by word.
pub fn upgrade_v1<P: Fn(&[u8]) -> Option<Vec<u8>>>(
    history: &[LegacyEntry],
    lines: &[String],
    protect: &P,
) -> (res: VaultData)
    requires
        forall|x: &[u8]| call_requires(*protect, (x,)),
    ensures
        upgraded_history(
            *protect,
            first_n(legacy_view(history@), MAX_IP_HISTORY as int),
            entries_view(res.history@),
        ),
        res.lines@.len() == first_n(lines@, MAX_LOG_LINES as int).len(),
        forall|i: int|
            0 <= i < res.lines@.len() ==> seal_line_outcome(
                *protect,
                lines@[i]@,
                #[trigger] res.lines@[i]@,
            ),
{
    let ghost hs = first_n(legacy_view(history@), MAX_IP_HISTORY as int);
    let n_hist = if history.len() > MAX_IP_HISTORY {
        MAX_IP_HISTORY
    } else {
        history.len()
    };
    let mut out: Vec<SealedEntry> = Vec::new();
    let mut i: usize = 0;
    while i < n_hist
        invariant
            forall|x: &[u8]| call_requires(*protect, (x,)),
            hs == first_n(legacy_view(history@), MAX_IP_HISTORY as int),
            n_hist == hs.len(),
            n_hist <= history@.len(),
            i <= n_hist,
            upgraded_history(*protect, hs.take(i as int), entries_view(out@)),
        decreases n_hist - i,
    {
        let e = &history[i];
        assert(hs.take(i + 1).drop_last() == hs.take(i as int));
        assert(hs.take(i + 1).last() == (e.ip@, e.at));
        if !e.ip.as_str().is_empty() {
            let sealed = seal_ip(e.ip.as_str(), protect);
            let ghost sv = str_view(sealed);
            assert(seal_ip_outcome(*protect, e.ip@, sv));
            let enc = match sealed {
                Some(t) => t,
                None => e.ip.clone(),
            };
            let ghost before = entries_view(out@);
            out.push(SealedEntry { enc, at: e.at });
            assert(entries_view(out@).drop_last() == before);
        } else {
            assert(e.ip@.len() == 0);
        }
        i = i + 1;
    }
    assert(hs.take(n_hist as int) == hs);
    let n_lines = if lines.len() > MAX_LOG_LINES {
        MAX_LOG_LINES
    } else {
        lines.len()
    };
    let mut sealed_lines: Vec<String> = Vec::new();
    let mut k: usize = 0;
    while k < n_lines
        invariant
            forall|x: &[u8]| call_requires(*protect, (x,)),
            n_lines == first_n(lines@, MAX_LOG_LINES as int).len(),
            n_lines <= lines@.len(),
            k <= n_lines,
            sealed_lines@.len() == k,
            forall|j: int|
                0 <= j < k ==> seal_line_outcome(
                    *protect,
                    lines@[j]@,
                    #[trigger] sealed_lines@[j]@,
                ),
        decreases n_lines - k,
    {
        let l = seal_line(lines[k].as_str(), protect);
        sealed_lines.push(l);
        k = k + 1;
    }
    VaultData { history: out, lines: sealed_lines }
}

} // verus!
