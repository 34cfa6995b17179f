//! Laws of the activity log: what was logged reads back, a repeated message
//! is counted on its line instead of being logged again, and the log stays
//! within its cap.

use vstd::prelude::*;
use crate::clock::clock_text;
use crate::decimal::{dec_text, lemma_dec_text, lemma_parse_dec_text, two_digits};
use crate::ip::{all_dec, is_dec_digit, is_hex_digit, is_ip, is_ipv4, is_ipv6, is_octet};
use crate::ip::{double_colon, group_count, hex_group_count, all_hex_groups, is_hex_group};
use crate::text::{
    contains_text, find, join, lemma_rfind_upto, lemma_find_first, lemma_find_from, lemma_join_cons, lemma_rfind_last,
    lemma_split_concat, lemma_split_first_piece, lemma_split_len, lemma_split_single,
    occurs_at, rfind, split_char, starts_with,
};
use crate::vault::{
    bumped, cap_lines, counter_mark, counter_split, count_suffix, entry_text, lemma_open_seal_line,
    log_push_outcome, next_count, no_sealed_words, open_line_outcome, repeat_outcome,
    seal_line_outcome, seal_prefix, seal_word_outcome, stamp_end, undoes, MAX_LOG_LINES,
};

verus! {

/// A stamp that holds neither a space nor `]`.
pub open spec fn plain_stamp(s: Seq<char>) -> bool {
    !s.contains(' ') && !s.contains(']')
}

/// `[stamp]`, the first word of a log line.
pub open spec fn bracketed(stamp: Seq<char>) -> Seq<char> {
    seq!['['] + stamp + seq![']']
}

/// The count a line shows: its counter, or one without a counter.
pub open spec fn shown_count(count: Option<nat>) -> nat {
    match count {
        Some(n) => n,
        None => 1,
    }
}

/// Clock stamps are plain.
pub proof fn lemma_clock_text_plain(secs: nat)
    ensures
        plain_stamp(clock_text(secs)),
{
    let t = clock_text(secs);
    assert forall|k: int| 0 <= k < t.len() implies t[k] != ' ' && t[k] != ']' by {
        let a = two_digits((secs / 3600) % 24);
        let b = two_digits((secs / 60) % 60);
        let c = two_digits(secs % 60);
        assert(t == a + seq![':'] + b + seq![':'] + c);
        if k < 2 {
            assert(t[k] == a[k]);
        } else if k == 2 {
        } else if k < 5 {
            assert(t[k] == b[k - 3]);
        } else if k == 5 {
        } else {
            assert(t[k] == c[k - 6]);
        }
    }
}

proof fn lemma_not_ipv4_first(w: Seq<char>)
    requires
        w.len() > 0,
        !is_dec_digit(w[0]),
        w[0] != '.',
    ensures
        !is_ipv4(w),
{
    lemma_split_first_piece(w, '.');
    let parts = split_char(w, '.');
    if parts.len() == 4 {
        assert(!is_octet(parts[0]));
    }
}

/// A word whose first character cannot start an address is no IP address.
pub proof fn lemma_not_ip_first(w: Seq<char>)
    requires
        w.len() > 0,
        !is_hex_digit(w[0]),
        w[0] != '.',
        w[0] != ':',
    ensures
        !is_ip(w),
{
    lemma_not_ipv4_first(w);
    match find(w, double_colon()) {
        None => {
            lemma_split_first_piece(w, ':');
            lemma_split_len(w, ':');
            let parts = split_char(w, ':');
            assert(!is_hex_group(parts[0]));
            if parts.len() == 1 {
                lemma_not_ipv4_first(parts[0]);
            }
            assert(group_count(w) is None);
        },
        Some(k) => {
            lemma_find_from(w, double_colon(), 0);
            assert(w[k] == ':') by {
                assert(w.subrange(k, k + 2)[0] == w[k]);
            }
            assert(k > 0);
            let head = w.take(k);
            assert(head[0] == w[0]);
            lemma_split_first_piece(head, ':');
            lemma_split_len(head, ':');
            let parts = split_char(head, ':');
            assert(!is_hex_group(parts[0]));
            assert(hex_group_count(head) is None);
        },
    }
}

/// The words of a log line: `[stamp]`, the message's words, then the counter.
proof fn lemma_entry_words(stamp: Seq<char>, m: Seq<char>, count: Option<nat>)
    requires
        plain_stamp(stamp),
    ensures
        entry_text(stamp, m, count) == bracketed(stamp) + seq![' '] + (m + count_suffix(count)),
        split_char(entry_text(stamp, m, count), ' ') == seq![bracketed(stamp)] + split_char(
            m + count_suffix(count),
            ' ',
        ),
{
    let b = bracketed(stamp);
    assert(entry_text(stamp, m, count) == b + seq![' '] + (m + count_suffix(count)));
    assert(!b.contains(' ')) by {
        if b.contains(' ') {
            let k = choose|k: int| 0 <= k < b.len() && b[k] == ' ';
            assert(stamp[k - 1] == ' ');
        }
    }
    lemma_split_single(b, ' ');
    lemma_split_concat(b, m + count_suffix(count), ' ');
}

/// The counter written behind a message: ` (xN)` splits off as one word.
proof fn lemma_suffix_words(m: Seq<char>, n: nat)
    ensures
        m + count_suffix(Some(n)) == m + seq![' '] + (seq!['(', 'x'] + dec_text(n) + seq![')']),
        split_char(m + count_suffix(Some(n)), ' ') == split_char(m, ' ').push(
            seq!['(', 'x'] + dec_text(n) + seq![')'],
        ),
{
    let w = seq!['(', 'x'] + dec_text(n) + seq![')'];
    assert(m + count_suffix(Some(n)) == m + seq![' '] + w);
    lemma_dec_text(n);
    assert(!w.contains(' ')) by {
        if w.contains(' ') {
            let k = choose|k: int| 0 <= k < w.len() && w[k] == ' ';
            assert(dec_text(n)[k - 2] == ' ');
            assert(is_dec_digit(dec_text(n)[k - 2]));
        }
    }
    lemma_split_single(w, ' ');
    lemma_split_concat(m, w, ' ');
}

/// A message without sealed-looking words keeps that property with its counter.
proof fn lemma_suffix_unsealed(m: Seq<char>, count: Option<nat>)
    requires
        no_sealed_words(m),
    ensures
        no_sealed_words(m + count_suffix(count)),
{
    match count {
        None => {
            assert(m + count_suffix(count) == m);
        },
        Some(n) => {
            lemma_suffix_words(m, n);
            let ws = split_char(m + count_suffix(count), ' ');
            assert forall|i: int| 0 <= i < ws.len() implies !starts_with(
                #[trigger] ws[i],
                seal_prefix(),
            ) by {
                if i < ws.len() - 1 {
                    assert(ws[i] == split_char(m, ' ')[i]);
                } else {
                    assert(ws[i][0] == '(');
                    assert(seal_prefix()[0] == 'e');
                    if starts_with(ws[i], seal_prefix()) {
                        assert(ws[i].take(4)[0] == ws[i][0]);
                    }
                }
            }
        },
    }
}

/// A whole log line has no sealed-looking words when its message has none.
proof fn lemma_entry_unsealed(stamp: Seq<char>, m: Seq<char>, count: Option<nat>)
    requires
        plain_stamp(stamp),
        no_sealed_words(m),
    ensures
        no_sealed_words(entry_text(stamp, m, count)),
{
    lemma_entry_words(stamp, m, count);
    lemma_suffix_unsealed(m, count);
    let ws = split_char(entry_text(stamp, m, count), ' ');
    let tail = split_char(m + count_suffix(count), ' ');
    assert forall|i: int| 0 <= i < ws.len() implies !starts_with(#[trigger] ws[i], seal_prefix())
        by {
        if i == 0 {
            assert(ws[0] == bracketed(stamp));
            assert(bracketed(stamp)[0] == '[');
            if starts_with(ws[0], seal_prefix()) {
                assert(ws[0].take(4)[0] == ws[0][0]);
            }
        } else {
            assert(ws[i] == tail[i - 1]);
        }
    }
}

/// A sealed log line is `[stamp] ` followed by the sealed rest of the line.
proof fn lemma_sealed_entry<P: Fn(&[u8]) -> Option<Vec<u8>>>(
    protect: P,
    stamp: Seq<char>,
    body: Seq<char>,
    sealed: Seq<char>,
) -> (rest: Seq<char>)
    requires
        plain_stamp(stamp),
        seal_line_outcome(protect, bracketed(stamp) + seq![' '] + body, sealed),
    ensures
        sealed == bracketed(stamp) + seq![' '] + rest,
        seal_line_outcome(protect, body, rest),
{
    let b = bracketed(stamp);
    let line = b + seq![' '] + body;
    assert(!b.contains(' ')) by {
        if b.contains(' ') {
            let k = choose|k: int| 0 <= k < b.len() && b[k] == ' ';
            assert(stamp[k - 1] == ' ');
        }
    }
    lemma_split_single(b, ' ');
    lemma_split_concat(b, body, ' ');
    lemma_split_len(body, ' ');
    let ws = split_char(line, ' ');
    let outs = choose|outs: Seq<Seq<char>>|
        #![trigger join(outs, ' ')]
        outs.len() == ws.len() && (forall|i: int|
            0 <= i < outs.len() ==> seal_word_outcome(protect, ws[i], #[trigger] outs[i]))
            && sealed == join(outs, ' ');
    assert(ws[0] == b);
    assert(seal_word_outcome(protect, ws[0], outs[0]));
    assert(b[0] == '[');
    lemma_not_ip_first(b);
    assert(outs[0] == b);
    let tail = outs.drop_first();
    assert(outs == seq![b] + tail);
    lemma_join_cons(b, tail, ' ');
    let bw = split_char(body, ' ');
    assert forall|i: int| 0 <= i < tail.len() implies seal_word_outcome(
        protect,
        bw[i],
        #[trigger] tail[i],
    ) by {
        assert(ws[i + 1] == bw[i]);
        assert(seal_word_outcome(protect, ws[i + 1], outs[i + 1]));
    }
    assert(seal_line_outcome(protect, body, join(tail, ' ')));
    join(tail, ' ')
}

/// Where the stamp of a stored line ends: right after `[stamp]`.
proof fn lemma_find_stamp_end(stamp: Seq<char>, rest: Seq<char>)
    requires
        plain_stamp(stamp),
    ensures
        find(bracketed(stamp) + seq![' '] + rest, stamp_end()) == Some(stamp.len() + 1int),
        (bracketed(stamp) + seq![' '] + rest).skip(stamp.len() + 3int) == rest,
{
    let s = bracketed(stamp) + seq![' '] + rest;
    let k = stamp.len() + 1int;
    assert(s.subrange(k, k + 2) == stamp_end());
    assert forall|j: int| 0 <= j < k implies !occurs_at(s, stamp_end(), j) by {
        assert(s.subrange(j, j + 2)[0] == s[j]);
        if j > 0 {
            assert(s[j] == stamp[j - 1]);
        }
    }
    lemma_find_first(s, stamp_end(), 0, k);
    assert(s.skip(stamp.len() + 3int) == rest);
}

/// The counter behind a message reads back as written: `text (xN)` splits
/// back into `text` and `N`, for every text and every `N` a `usize` holds.
pub proof fn lemma_counter_split_suffix(m: Seq<char>, n: nat)
    requires
        n <= usize::MAX,
    ensures
        counter_split(m + count_suffix(Some(n))) == (m, n),
{
    let d = dec_text(n);
    let b = m + count_suffix(Some(n));
    lemma_dec_text(n);
    lemma_parse_dec_text(n);
    assert(b == m + counter_mark() + d + seq![')']);
    let k = m.len() as int;
    assert(b.subrange(k, k + 3) == counter_mark());
    assert forall|j: int| k < j <= b.len() - 3 implies !occurs_at(b, counter_mark(), j) by {
        assert(b.subrange(j, j + 3)[0] == b[j]);
        if j >= k + 3 {
            assert(b[j] == d[j - k - 3]);
            assert(is_dec_digit(d[j - k - 3]));
        }
    }
    lemma_rfind_last(b, counter_mark(), b.len() - 3, k);
    let rest = b.skip(k + 3);
    assert(rest == d + seq![')']);
    assert(rest.skip(rest.len() - 1) == seq![')']);
    assert(rest.drop_last() == d);
    assert(b.take(k) == m);
}

/// Opening the stored newest line and reading its counter gives back the
/// message and the count that line shows.
proof fn lemma_repeat_reads_back<P: Fn(&[u8]) -> Option<Vec<u8>>, U: Fn(&[u8]) -> Option<Vec<u8>>>(
    protect: P,
    unprotect: U,
    stamp: Seq<char>,
    m: Seq<char>,
    count: Option<nat>,
    last: Seq<char>,
    repeat: Option<nat>,
)
    requires
        undoes(protect, unprotect),
        plain_stamp(stamp),
        no_sealed_words(m),
        count is None ==> counter_split(m) == (m, 1nat),
        count matches Some(n) ==> n <= usize::MAX,
        seal_line_outcome(protect, entry_text(stamp, m, count), last),
        repeat_outcome(unprotect, last, m, repeat),
    ensures
        repeat == Some(shown_count(count)),
{
    let body = m + count_suffix(count);
    lemma_entry_words(stamp, m, count);
    let rest = lemma_sealed_entry(protect, stamp, body, last);
    lemma_find_stamp_end(stamp, rest);
    let i = stamp.len() + 1int;
    assert(last.skip(i + 2) == rest);
    let opened = choose|opened: Seq<char>|
        #![trigger open_line_outcome(unprotect, last.skip(i + 2), opened)]
        open_line_outcome(unprotect, last.skip(i + 2), opened) && repeat == if counter_split(
            opened,
        ).0 == m {
            Some(counter_split(opened).1)
        } else {
            None
        };
    lemma_suffix_unsealed(m, count);
    lemma_open_seal_line(protect, unprotect, body, rest, opened);
    match count {
        None => {
            assert(body == m);
        },
        Some(n) => {
            lemma_counter_split_suffix(m, n);
        },
    }
}

/// Logging the message of the newest line again does not add a line: that
/// line is replaced by one that opens to the message with its count raised
/// by one, as `[stamp] message (xN)`.
pub proof fn lemma_log_counts_repeat<P: Fn(&[u8]) -> Option<Vec<u8>>, U: Fn(&[u8]) -> Option<Vec<u8>>>(
    protect: P,
    unprotect: U,
    lines: Seq<Seq<char>>,
    first_stamp: Seq<char>,
    message: Seq<char>,
    count: Option<nat>,
    stamp: Seq<char>,
    new_lines: Seq<Seq<char>>,
    opened: Seq<char>,
)
    requires
        undoes(protect, unprotect),
        0 < lines.len() <= MAX_LOG_LINES,
        plain_stamp(first_stamp),
        plain_stamp(stamp),
        no_sealed_words(message),
        count is None ==> counter_split(message) == (message, 1nat),
        count matches Some(n) ==> n <= usize::MAX,
        seal_line_outcome(protect, entry_text(first_stamp, message, count), lines.last()),
        log_push_outcome(protect, unprotect, lines, stamp, message, new_lines),
        open_line_outcome(unprotect, new_lines.last(), opened),
    ensures
        new_lines.len() == lines.len(),
        new_lines.drop_last() == lines.drop_last(),
        opened == entry_text(stamp, message, Some(next_count(shown_count(count)))),
{
    let (repeat, sealed) = choose|repeat: Option<nat>, sealed: Seq<char>|
        #![trigger seal_line_outcome(protect, entry_text(stamp, message, bumped(repeat)), sealed)]
        (if lines.len() == 0 {
            repeat is None
        } else {
            repeat_outcome(unprotect, lines.last(), message, repeat)
        }) && seal_line_outcome(protect, entry_text(stamp, message, bumped(repeat)), sealed)
            && new_lines == cap_lines(
            match repeat {
                Some(_) => lines.drop_last().push(sealed),
                None => lines.push(sealed),
            },
        );
    lemma_repeat_reads_back(protect, unprotect, first_stamp, message, count, lines.last(), repeat);
    assert(new_lines == lines.drop_last().push(sealed));
    assert(new_lines.last() == sealed);
    assert(new_lines.drop_last() == lines.drop_last());
    lemma_entry_unsealed(stamp, message, bumped(repeat));
    lemma_open_seal_line(
        protect,
        unprotect,
        entry_text(stamp, message, bumped(repeat)),
        sealed,
        opened,
    );
}

/// The log never holds more than `MAX_LOG_LINES` lines, and logging never
/// leaves it empty or grows it by more than one line.
pub proof fn lemma_log_stays_bounded<P: Fn(&[u8]) -> Option<Vec<u8>>, U: Fn(&[u8]) -> Option<Vec<u8>>>(
    protect: P,
    unprotect: U,
    lines: Seq<Seq<char>>,
    stamp: Seq<char>,
    message: Seq<char>,
    new_lines: Seq<Seq<char>>,
)
    requires
        log_push_outcome(protect, unprotect, lines, stamp, message, new_lines),
    ensures
        0 < new_lines.len() <= MAX_LOG_LINES,
        new_lines.len() <= lines.len() + 1,
{
    let (repeat, sealed) = choose|repeat: Option<nat>, sealed: Seq<char>|
        #![trigger seal_line_outcome(protect, entry_text(stamp, message, bumped(repeat)), sealed)]
        (if lines.len() == 0 {
            repeat is None
        } else {
            repeat_outcome(unprotect, lines.last(), message, repeat)
        }) && seal_line_outcome(protect, entry_text(stamp, message, bumped(repeat)), sealed)
            && new_lines == cap_lines(
            match repeat {
                Some(_) => lines.drop_last().push(sealed),
                None => lines.push(sealed),
            },
        );
}

/// What was just logged reads back: the newest line opens to
/// `[stamp] message`, with a repeat counter when the message repeats the
/// newest line's; on an empty log, without one.
pub proof fn lemma_log_reads_back<P: Fn(&[u8]) -> Option<Vec<u8>>, U: Fn(&[u8]) -> Option<Vec<u8>>>(
    protect: P,
    unprotect: U,
    lines: Seq<Seq<char>>,
    stamp: Seq<char>,
    message: Seq<char>,
    new_lines: Seq<Seq<char>>,
    opened: Seq<char>,
)
    requires
        undoes(protect, unprotect),
        plain_stamp(stamp),
        no_sealed_words(message),
        log_push_outcome(protect, unprotect, lines, stamp, message, new_lines),
        open_line_outcome(unprotect, new_lines.last(), opened),
    ensures
        exists|count: Option<nat>| opened == #[trigger] entry_text(stamp, message, count),
        lines.len() == 0 ==> opened == entry_text(stamp, message, None),
{
    let (repeat, sealed) = choose|repeat: Option<nat>, sealed: Seq<char>|
        #![trigger seal_line_outcome(protect, entry_text(stamp, message, bumped(repeat)), sealed)]
        (if lines.len() == 0 {
            repeat is None
        } else {
            repeat_outcome(unprotect, lines.last(), message, repeat)
        }) && seal_line_outcome(protect, entry_text(stamp, message, bumped(repeat)), sealed)
            && new_lines == cap_lines(
            match repeat {
                Some(_) => lines.drop_last().push(sealed),
                None => lines.push(sealed),
            },
        );
    let pushed = match repeat {
        Some(_) => lines.drop_last().push(sealed),
        None => lines.push(sealed),
    };
    assert(pushed.last() == sealed);
    assert(new_lines.last() == sealed);
    lemma_entry_unsealed(stamp, message, bumped(repeat));
    lemma_open_seal_line(
        protect,
        unprotect,
        entry_text(stamp, message, bumped(repeat)),
        sealed,
        opened,
    );
}

/// Splitting a log body never changes its text beyond cutting a counter off
/// the end: the text is a prefix of the body, and a body without ` (x`
/// counts once as it is.
pub proof fn lemma_counter_split_shape(body: Seq<char>)
    ensures
        counter_split(body).0 == body.take(counter_split(body).0.len() as int),
        counter_split(body).0.len() <= body.len(),
        !contains_text(body, counter_mark()) ==> counter_split(body) == (body, 1nat),
{
    lemma_rfind_upto(body, counter_mark(), body.len() - 3);
    lemma_find_from(body, counter_mark(), 0);
    match rfind(body, counter_mark()) {
        Some(i) => {
            if !contains_text(body, counter_mark()) {
                assert(!occurs_at(body, counter_mark(), i));
            }
        },
        None => {
            assert(body.take(body.len() as int) == body);
        },
    }
    assert(body.take(body.len() as int) == body);
}

/// Reading the counter of a stored line for a message other than the one it
/// holds finds no repeat.
proof fn lemma_repeat_other<P: Fn(&[u8]) -> Option<Vec<u8>>, U: Fn(&[u8]) -> Option<Vec<u8>>>(
    protect: P,
    unprotect: U,
    stamp: Seq<char>,
    m: Seq<char>,
    count: Option<nat>,
    last: Seq<char>,
    message: Seq<char>,
    repeat: Option<nat>,
)
    requires
        undoes(protect, unprotect),
        plain_stamp(stamp),
        no_sealed_words(m),
        count is None ==> counter_split(m) == (m, 1nat),
        count matches Some(n) ==> n <= usize::MAX,
        m != message,
        seal_line_outcome(protect, entry_text(stamp, m, count), last),
        repeat_outcome(unprotect, last, message, repeat),
    ensures
        repeat is None,
{
    let body = m + count_suffix(count);
    lemma_entry_words(stamp, m, count);
    let rest = lemma_sealed_entry(protect, stamp, body, last);
    lemma_find_stamp_end(stamp, rest);
    let i = stamp.len() + 1int;
    assert(last.skip(i + 2) == rest);
    let opened = choose|opened: Seq<char>|
        #![trigger open_line_outcome(unprotect, last.skip(i + 2), opened)]
        open_line_outcome(unprotect, last.skip(i + 2), opened) && repeat == if counter_split(
            opened,
        ).0 == message {
            Some(counter_split(opened).1)
        } else {
            None
        };
    lemma_suffix_unsealed(m, count);
    lemma_open_seal_line(protect, unprotect, body, rest, opened);
    match count {
        None => {
            assert(body == m);
        },
        Some(n) => {
            lemma_counter_split_suffix(m, n);
        },
    }
}

/// Logging a message other than the one the newest line holds appends a
/// line: the old lines stay, in order (the oldest one dropped when the log
/// is full), and the new line opens to `[stamp] message`, without a counter.
pub proof fn lemma_log_appends_other<P: Fn(&[u8]) -> Option<Vec<u8>>, U: Fn(&[u8]) -> Option<Vec<u8>>>(
    protect: P,
    unprotect: U,
    lines: Seq<Seq<char>>,
    first_stamp: Seq<char>,
    first_message: Seq<char>,
    count: Option<nat>,
    stamp: Seq<char>,
    message: Seq<char>,
    new_lines: Seq<Seq<char>>,
    opened: Seq<char>,
)
    requires
        undoes(protect, unprotect),
        lines.len() > 0,
        plain_stamp(first_stamp),
        plain_stamp(stamp),
        no_sealed_words(first_message),
        no_sealed_words(message),
        count is None ==> counter_split(first_message) == (first_message, 1nat),
        count matches Some(n) ==> n <= usize::MAX,
        first_message != message,
        seal_line_outcome(protect, entry_text(first_stamp, first_message, count), lines.last()),
        log_push_outcome(protect, unprotect, lines, stamp, message, new_lines),
        open_line_outcome(unprotect, new_lines.last(), opened),
    ensures
        lines.len() < MAX_LOG_LINES ==> new_lines.len() == lines.len() + 1 && new_lines.take(
            lines.len() as int,
        ) == lines,
        lines.len() >= MAX_LOG_LINES ==> new_lines.len() == MAX_LOG_LINES && new_lines.take(
            MAX_LOG_LINES - 1,
        ) == lines.skip(lines.len() - MAX_LOG_LINES + 1),
        opened == entry_text(stamp, message, None),
{
    let (repeat, sealed) = choose|repeat: Option<nat>, sealed: Seq<char>|
        #![trigger seal_line_outcome(protect, entry_text(stamp, message, bumped(repeat)), sealed)]
        (if lines.len() == 0 {
            repeat is None
        } else {
            repeat_outcome(unprotect, lines.last(), message, repeat)
        }) && seal_line_outcome(protect, entry_text(stamp, message, bumped(repeat)), sealed)
            && new_lines == cap_lines(
            match repeat {
                Some(_) => lines.drop_last().push(sealed),
                None => lines.push(sealed),
            },
        );
    lemma_repeat_other(
        protect,
        unprotect,
        first_stamp,
        first_message,
        count,
        lines.last(),
        message,
        repeat,
    );
    let pushed = lines.push(sealed);
    assert(new_lines == cap_lines(pushed));
    assert(new_lines.last() == sealed);
    if lines.len() < MAX_LOG_LINES {
        assert(new_lines.take(lines.len() as int) == lines);
    } else {
        assert(new_lines.take(MAX_LOG_LINES - 1) == lines.skip(lines.len() - MAX_LOG_LINES + 1));
    }
    lemma_entry_unsealed(stamp, message, None);
    lemma_open_seal_line(protect, unprotect, entry_text(stamp, message, None), sealed, opened);
}

} // verus!
