//! Character-sequence model of the text operations the library relies on:
//! whitespace, trimming, prefixes, substring search, splitting and joining.

use vstd::prelude::*;
use vstd::string::*;

verus! {

pub assume_specification[ String::push ](s: &mut String, ch: char)
    ensures
        final(s)@ == old(s)@.push(ch),
;

// ------------------------------------------------------------------
// Specifications
// ------------------------------------------------------------------

/// Unicode `White_Space`, the set `char::is_whitespace` accepts.
pub open spec fn is_space(c: char) -> bool {
    let u = c as u32;
    ||| 0x09 <= u <= 0x0D
    ||| u == 0x20
    ||| u == 0x85
    ||| u == 0xA0
    ||| u == 0x1680
    ||| 0x2000 <= u <= 0x200A
    ||| u == 0x2028
    ||| u == 0x2029
    ||| u == 0x202F
    ||| u == 0x205F
    ||| u == 0x3000
}

pub open spec fn trim_start(s: Seq<char>) -> Seq<char>
    decreases s.len(),
{
    if s.len() > 0 && is_space(s[0]) {
        trim_start(s.drop_first())
    } else {
        s
    }
}

pub open spec fn trim_end(s: Seq<char>) -> Seq<char>
    decreases s.len(),
{
    if s.len() > 0 && is_space(s.last()) {
        trim_end(s.drop_last())
    } else {
        s
    }
}

/// `s` without leading and trailing whitespace.
pub open spec fn trim(s: Seq<char>) -> Seq<char> {
    trim_end(trim_start(s))
}

pub open spec fn starts_with(s: Seq<char>, p: Seq<char>) -> bool {
    p.len() <= s.len() && s.take(p.len() as int) == p
}

pub open spec fn ends_with(s: Seq<char>, p: Seq<char>) -> bool {
    p.len() <= s.len() && s.skip(s.len() - p.len()) == p
}

pub open spec fn occurs_at(s: Seq<char>, p: Seq<char>, i: int) -> bool {
    0 <= i && i + p.len() <= s.len() && s.subrange(i, i + p.len()) == p
}

/// First position at or after `i` where `p` occurs in `s`.
pub open spec fn find_from(s: Seq<char>, p: Seq<char>, i: int) -> Option<int>
    decreases s.len() + 1 - i,
{
    if i < 0 || i + p.len() > s.len() {
        None
    } else if occurs_at(s, p, i) {
        Some(i)
    } else {
        find_from(s, p, i + 1)
    }
}

pub open spec fn find(s: Seq<char>, p: Seq<char>) -> Option<int> {
    find_from(s, p, 0)
}

pub open spec fn contains_text(s: Seq<char>, p: Seq<char>) -> bool {
    find(s, p) is Some
}

/// Last position at or before `j` where `p` occurs in `s`.
pub open spec fn rfind_upto(s: Seq<char>, p: Seq<char>, j: int) -> Option<int>
    decreases j + 1,
{
    if j < 0 {
        None
    } else if occurs_at(s, p, j) {
        Some(j)
    } else {
        rfind_upto(s, p, j - 1)
    }
}

pub open spec fn rfind(s: Seq<char>, p: Seq<char>) -> Option<int> {
    rfind_upto(s, p, s.len() - p.len())
}

/// The pieces of `s` between occurrences of `c`; never empty.
pub open spec fn split_char(s: Seq<char>, c: char) -> Seq<Seq<char>>
    decreases s.len(),
{
    if s.len() == 0 {
        seq![Seq::<char>::empty()]
    } else {
        let prev = split_char(s.drop_last(), c);
        if s.last() == c {
            prev.push(Seq::<char>::empty())
        } else {
            prev.update(prev.len() - 1, prev.last().push(s.last()))
        }
    }
}

/// The pieces of `ws` with `c` between each two of them.
pub open spec fn join(ws: Seq<Seq<char>>, c: char) -> Seq<char>
    decreases ws.len(),
{
    if ws.len() == 0 {
        Seq::<char>::empty()
    } else if ws.len() == 1 {
        ws[0]
    } else {
        join(ws.drop_last(), c) + seq![c] + ws.last()
    }
}

/// The lines of `s`, separated by `'\n'`.
pub open spec fn lines(s: Seq<char>) -> Seq<Seq<char>> {
    split_char(s, '\n')
}

pub open spec fn views(v: Seq<Vec<char>>) -> Seq<Seq<char>> {
    Seq::new(v.len(), |i: int| v[i]@)
}

// ------------------------------------------------------------------
// Lemmas
// ------------------------------------------------------------------

pub proof fn lemma_split_len(s: Seq<char>, c: char)
    ensures
        split_char(s, c).len() >= 1,
    decreases s.len(),
{
    if s.len() > 0 {
        lemma_split_len(s.drop_last(), c);
    }
}

/// A piece of a split never holds the separator.
pub proof fn lemma_split_pieces(s: Seq<char>, c: char)
    ensures
        forall|i: int|
            0 <= i < split_char(s, c).len() ==> !(#[trigger] split_char(s, c)[i]).contains(c),
    decreases s.len(),
{
    if s.len() > 0 {
        lemma_split_pieces(s.drop_last(), c);
        lemma_split_len(s.drop_last(), c);
        let prev = split_char(s.drop_last(), c);
        if s.last() != c {
            let w = prev.last().push(s.last());
            assert forall|k: int| 0 <= k < w.len() implies w[k] != c by {
                if k < w.len() - 1 {
                    assert(w[k] == prev.last()[k]);
                }
            }
        }
    }
}

proof fn lemma_join_push_char(ws: Seq<Seq<char>>, c: char, x: char)
    requires
        ws.len() >= 1,
    ensures
        join(ws.update(ws.len() - 1, ws.last().push(x)), c) == join(ws, c).push(x),
{
    let us = ws.update(ws.len() - 1, ws.last().push(x));
    if ws.len() == 1 {
    } else {
        assert(us.drop_last() == ws.drop_last());
    }
}

/// Joining the pieces of a split gives back the text.
pub proof fn lemma_join_split(s: Seq<char>, c: char)
    ensures
        join(split_char(s, c), c) == s,
    decreases s.len(),
{
    if s.len() > 0 {
        let t = s.drop_last();
        lemma_join_split(t, c);
        lemma_split_len(t, c);
        let prev = split_char(t, c);
        if s.last() == c {
            assert(prev.push(Seq::<char>::empty()).drop_last() == prev);
            assert(s == t + seq![c] + Seq::<char>::empty());
        } else {
            lemma_join_push_char(prev, c, s.last());
            assert(s == t.push(s.last()));
        }
    }
}

proof fn lemma_split_no_sep(w: Seq<char>, c: char)
    requires
        !w.contains(c),
    ensures
        split_char(w, c) == seq![w],
    decreases w.len(),
{
    if w.len() > 0 {
        let t = w.drop_last();
        assert(!t.contains(c)) by {
            if t.contains(c) {
                let k = choose|k: int| 0 <= k < t.len() && t[k] == c;
                assert(w[k] == c);
            }
        }
        lemma_split_no_sep(t, c);
        assert(w.last() != c) by {
            assert(w[w.len() - 1] == w.last());
        }
        assert(t.push(w.last()) == w);
        assert(seq![t].update(0, t.push(w.last())) == seq![w]);
    } else {
        assert(w == Seq::<char>::empty());
    }
}

proof fn lemma_split_after_sep(a: Seq<char>, b: Seq<char>, c: char)
    requires
        !b.contains(c),
    ensures
        split_char(a + seq![c] + b, c) == split_char(a, c).push(b),
    decreases b.len(),
{
    let s = a + seq![c] + b;
    if b.len() == 0 {
        assert(s.drop_last() == a);
        assert(s.last() == c);
        assert(b == Seq::<char>::empty());
    } else {
        let bt = b.drop_last();
        assert(!bt.contains(c)) by {
            if bt.contains(c) {
                let k = choose|k: int| 0 <= k < bt.len() && bt[k] == c;
                assert(b[k] == c);
            }
        }
        lemma_split_after_sep(a, bt, c);
        assert(s.drop_last() == a + seq![c] + bt);
        assert(s.last() == b.last());
        assert(b.last() != c) by {
            assert(b[b.len() - 1] == b.last());
        }
        let prev = split_char(a, c).push(bt);
        assert(prev.update(prev.len() - 1, prev.last().push(b.last())) == split_char(a, c).push(b))
            by {
            assert(bt.push(b.last()) == b);
        }
    }
}

/// Splitting a join of separator-free pieces gives back the pieces.
pub proof fn lemma_split_join(ws: Seq<Seq<char>>, c: char)
    requires
        ws.len() >= 1,
        forall|i: int| 0 <= i < ws.len() ==> !(#[trigger] ws[i]).contains(c),
    ensures
        split_char(join(ws, c), c) == ws,
    decreases ws.len(),
{
    if ws.len() == 1 {
        lemma_split_no_sep(ws[0], c);
        assert(seq![ws[0]] == ws);
    } else {
        let front = ws.drop_last();
        assert forall|i: int| 0 <= i < front.len() implies !(#[trigger] front[i]).contains(c) by {
            assert(front[i] == ws[i]);
        }
        lemma_split_join(front, c);
        assert(!ws.last().contains(c)) by {
            assert(ws[ws.len() - 1] == ws.last());
        }
        lemma_split_after_sep(join(front, c), ws.last(), c);
        assert(front.push(ws.last()) == ws);
    }
}

/// What `find_from` returns: the first occurrence at or after `i`.
pub proof fn lemma_find_from(s: Seq<char>, p: Seq<char>, i: int)
    ensures
        find_from(s, p, i) matches Some(k) ==> i <= k && occurs_at(s, p, k) && (forall|j: int|
            i <= j < k ==> !occurs_at(s, p, j)),
        find_from(s, p, i) is None ==> forall|j: int| 0 <= i <= j ==> !occurs_at(s, p, j),
    decreases s.len() + 1 - i,
{
    if i < 0 || i + p.len() > s.len() {
    } else if occurs_at(s, p, i) {
    } else {
        lemma_find_from(s, p, i + 1);
    }
}

/// What `rfind_upto` returns: the last occurrence at or before `j`.
pub proof fn lemma_rfind_upto(s: Seq<char>, p: Seq<char>, j: int)
    ensures
        rfind_upto(s, p, j) matches Some(k) ==> k <= j && occurs_at(s, p, k) && (forall|m: int|
            k < m <= j ==> !occurs_at(s, p, m)),
        rfind_upto(s, p, j) is None ==> forall|m: int| m <= j ==> !occurs_at(s, p, m),
    decreases j + 1,
{
    if j >= 0 && !occurs_at(s, p, j) {
        lemma_rfind_upto(s, p, j - 1);
    }
}

/// Splitting at one more separator splits both sides.
pub proof fn lemma_split_concat(a: Seq<char>, b: Seq<char>, c: char)
    ensures
        split_char(a + seq![c] + b, c) == split_char(a, c) + split_char(b, c),
    decreases b.len(),
{
    let s = a + seq![c] + b;
    lemma_split_len(b, c);
    if b.len() == 0 {
        assert(s.drop_last() == a);
        assert(split_char(b, c) == seq![Seq::<char>::empty()]);
        assert(split_char(a, c).push(Seq::<char>::empty()) == split_char(a, c) + seq![
            Seq::<char>::empty(),
        ]);
    } else {
        let bt = b.drop_last();
        lemma_split_concat(a, bt, c);
        lemma_split_len(bt, c);
        assert(s.drop_last() == a + seq![c] + bt);
        assert(s.last() == b.last());
        let sa = split_char(a, c);
        let sb = split_char(bt, c);
        if b.last() == c {
            assert((sa + sb).push(Seq::<char>::empty()) == sa + sb.push(Seq::<char>::empty()));
        } else {
            let prev = sa + sb;
            assert(prev.update(prev.len() - 1, prev.last().push(b.last())) == sa + sb.update(
                sb.len() - 1,
                sb.last().push(b.last()),
            ));
        }
    }
}

/// Joining a piece in front of others.
pub proof fn lemma_join_cons(w: Seq<char>, rest: Seq<Seq<char>>, c: char)
    requires
        rest.len() >= 1,
    ensures
        join(seq![w] + rest, c) == w + seq![c] + join(rest, c),
    decreases rest.len(),
{
    let all = seq![w] + rest;
    if rest.len() == 1 {
        assert(all.drop_last() == seq![w]);
        assert(all.last() == rest[0]);
        assert(join(seq![w], c) == w);
        assert(join(rest, c) == rest[0]);
    } else {
        lemma_join_cons(w, rest.drop_last(), c);
        assert(all.drop_last() == seq![w] + rest.drop_last());
        assert(all.last() == rest.last());
        assert(join(all, c) == join(all.drop_last(), c) + seq![c] + all.last());
        assert(join(rest, c) == join(rest.drop_last(), c) + seq![c] + rest.last());
        assert(w + seq![c] + join(rest.drop_last(), c) + seq![c] + rest.last() == w + seq![c] + (
        join(rest.drop_last(), c) + seq![c] + rest.last()));
    }
}

/// A text without the separator splits into itself alone.
pub proof fn lemma_split_single(w: Seq<char>, c: char)
    requires
        !w.contains(c),
    ensures
        split_char(w, c) == seq![w],
{
    lemma_split_no_sep(w, c);
}

/// The first piece of a split begins with the text's first character,
/// unless that character is the separator.
pub proof fn lemma_split_first_piece(s: Seq<char>, c: char)
    requires
        s.len() > 0,
        s[0] != c,
    ensures
        split_char(s, c)[0].len() > 0,
        split_char(s, c)[0][0] == s[0],
    decreases s.len(),
{
    if s.len() == 1 {
        assert(s.drop_last() == Seq::<char>::empty());
        assert(s.last() == s[0]);
    } else {
        let t = s.drop_last();
        assert(t[0] == s[0]);
        lemma_split_first_piece(t, c);
        lemma_split_len(t, c);
    }
}

/// An occurrence with none before it is the first one.
pub proof fn lemma_find_first(s: Seq<char>, p: Seq<char>, i: int, k: int)
    requires
        0 <= i <= k,
        occurs_at(s, p, k),
        forall|j: int| i <= j < k ==> !occurs_at(s, p, j),
    ensures
        find_from(s, p, i) == Some(k),
    decreases k - i,
{
    if i < k {
        lemma_find_first(s, p, i + 1, k);
    }
}

/// An occurrence with none after it, up to `j`, is the last one.
pub proof fn lemma_rfind_last(s: Seq<char>, p: Seq<char>, j: int, k: int)
    requires
        0 <= k <= j,
        occurs_at(s, p, k),
        forall|m: int| k < m <= j ==> !occurs_at(s, p, m),
    ensures
        rfind_upto(s, p, j) == Some(k),
    decreases j - k,
{
    if k < j {
        lemma_rfind_last(s, p, j - 1, k);
    }
}

proof fn lemma_trim_start_shape(s: Seq<char>)
    ensures
        exists|k: int|
            0 <= k <= s.len() && trim_start(s) == s.skip(k) && (forall|j: int|
                0 <= j < k ==> is_space(#[trigger] s[j])),
    decreases s.len(),
{
    if s.len() > 0 && is_space(s[0]) {
        lemma_trim_start_shape(s.drop_first());
        let k = choose|k: int|
            0 <= k <= s.drop_first().len() && trim_start(s.drop_first()) == s.drop_first().skip(k)
                && (forall|j: int| 0 <= j < k ==> is_space(#[trigger] s.drop_first()[j]));
        assert(s.drop_first().skip(k) == s.skip(k + 1));
        assert forall|j: int| 0 <= j < k + 1 implies is_space(#[trigger] s[j]) by {
            if j > 0 {
                assert(s[j] == s.drop_first()[j - 1]);
            }
        }
    } else {
        assert(s.skip(0) == s);
    }
}

// ------------------------------------------------------------------
// Executable helpers
// ------------------------------------------------------------------

/// The characters of `s`.
pub fn chars_of(s: &str) -> (res: Vec<char>)
    ensures
        res@ == s@,
{
    let n = s.unicode_len();
    let mut v: Vec<char> = Vec::new();
    let mut i: usize = 0;
    while i < n
        invariant
            n == s@.len(),
            i <= n,
            v@ == s@.take(i as int),
        decreases n - i,
    {
        let ch = s.get_char(i);
        v.push(ch);
        i = i + 1;
        assert(v@ == s@.take(i as int));
    }
    assert(s@.take(n as int) == s@);
    v
}

/// A `String` holding the characters of `v`.
pub fn string_of(v: &[char]) -> (res: String)
    ensures
        res@ == v@,
{
    let mut s = String::new();
    let mut i: usize = 0;
    while i < v.len()
        invariant
            i <= v@.len(),
            s@ == v@.take(i as int),
        decreases v.len() - i,
    {
        s.push(v[i]);
        i = i + 1;
        assert(s@ == v@.take(i as int));
    }
    assert(v@.take(v@.len() as int) == v@);
    s
}

pub fn is_space_char(c: char) -> (res: bool)
    ensures
        res == is_space(c),
{
    let u = c as u32;
    (0x09 <= u && u <= 0x0D) || u == 0x20 || u == 0x85 || u == 0xA0 || u == 0x1680 || (0x2000
        <= u && u <= 0x200A) || u == 0x2028 || u == 0x2029 || u == 0x202F || u == 0x205F || u
        == 0x3000
}

/// Whether `a` and `b` hold the same characters.
pub fn same_chars(a: &[char], b: &[char]) -> (res: bool)
    ensures
        res == (a@ == b@),
{
    if a.len() != b.len() {
        return false;
    }
    let mut i: usize = 0;
    while i < a.len()
        invariant
            a@.len() == b@.len(),
            i <= a@.len(),
            forall|j: int| 0 <= j < i ==> a@[j] == b@[j],
        decreases a.len() - i,
    {
        if a[i] != b[i] {
            return false;
        }
        i = i + 1;
    }
    assert(a@ == b@);
    true
}

/// `s[from..to]`.
pub fn slice_chars(s: &[char], from: usize, to: usize) -> (res: Vec<char>)
    requires
        from <= to <= s@.len(),
    ensures
        res@ == s@.subrange(from as int, to as int),
{
    let mut v: Vec<char> = Vec::new();
    let mut i: usize = from;
    while i < to
        invariant
            from <= i <= to <= s@.len(),
            v@ == s@.subrange(from as int, i as int),
        decreases to - i,
    {
        v.push(s[i]);
        i = i + 1;
        assert(v@ == s@.subrange(from as int, i as int));
    }
    v
}

/// `s` without leading and trailing whitespace.
pub fn trim_chars(s: &[char]) -> (res: Vec<char>)
    ensures
        res@ == trim(s@),
{
    let n = s.len();
    let mut i: usize = 0;
    assert(s@.skip(0) == s@);
    while i < n && is_space_char(s[i])
        invariant
            n == s@.len(),
            i <= n,
            trim_start(s@) == trim_start(s@.skip(i as int)),
        decreases n - i,
    {
        assert(s@.skip(i as int).drop_first() == s@.skip(i + 1));
        i = i + 1;
    }
    let ghost rest = s@.skip(i as int);
    assert(trim_start(rest) == rest);
    let mut j: usize = n;
    while j > i && is_space_char(s[j - 1])
        invariant
            n == s@.len(),
            i <= j <= n,
            rest == s@.skip(i as int),
            trim_end(rest) == trim_end(s@.subrange(i as int, j as int)),
        decreases j,
    {
        assert(s@.subrange(i as int, j as int).drop_last() == s@.subrange(i as int, j - 1));
        j = j - 1;
    }
    assert(s@.subrange(i as int, n as int) == rest);
    slice_chars(s, i, j)
}

/// Whether `p` occurs in `s` at position `i`.
pub fn occurs_at_exec(s: &[char], p: &[char], i: usize) -> (res: bool)
    ensures
        res == occurs_at(s@, p@, i as int),
{
    if i > s.len() || p.len() > s.len() - i {
        return false;
    }
    let mut k: usize = 0;
    let n = s.len();
    assert(i + p@.len() <= s@.len());
    while k < p.len()
        invariant
            n == s@.len(),
            i <= s@.len(),
            i + p@.len() <= s@.len(),
            k <= p@.len(),
            forall|j: int| 0 <= j < k ==> s@[i + j] == p@[j],
        decreases p.len() - k,
    {
        assert(i + k < s@.len());
        if s[i + k] != p[k] {
            assert(s@.subrange(i as int, i + p@.len())[k as int] != p@[k as int]);
            return false;
        }
        k = k + 1;
    }
    assert(s@.subrange(i as int, i + p@.len()) == p@);
    true
}

pub fn starts_with_exec(s: &[char], p: &[char]) -> (res: bool)
    ensures
        res == starts_with(s@, p@),
{
    let r = occurs_at_exec(s, p, 0);
    assert(s@.subrange(0, p@.len() as int) == s@.take(p@.len() as int));
    r
}

pub fn ends_with_exec(s: &[char], p: &[char]) -> (res: bool)
    ensures
        res == ends_with(s@, p@),
{
    if p.len() > s.len() {
        return false;
    }
    let r = occurs_at_exec(s, p, s.len() - p.len());
    assert(s@.subrange(s@.len() - p@.len(), s@.len() as int) == s@.skip(s@.len() - p@.len()));
    r
}

/// First position of `p` in `s`.
pub fn find_exec(s: &[char], p: &[char]) -> (res: Option<usize>)
    ensures
        res matches Some(i) ==> find(s@, p@) == Some(i as int),
        res is None ==> find(s@, p@) is None,
{
    find_from_exec(s, p, 0)
}

/// First position at or after `from` of `p` in `s`.
pub fn find_from_exec(s: &[char], p: &[char], from: usize) -> (res: Option<usize>)
    ensures
        res matches Some(i) ==> find_from(s@, p@, from as int) == Some(i as int),
        res is None ==> find_from(s@, p@, from as int) is None,
{
    if from > s.len() || p.len() > s.len() - from {
        return None;
    }
    let mut i: usize = from;
    while i <= s.len() && p.len() <= s.len() - i
        invariant
            from <= i,
            i <= s@.len() + 1,
            find_from(s@, p@, from as int) == find_from(s@, p@, i as int),
        decreases s.len() + 1 - i,
    {
        proof {
            if p@.len() == 0 {
                assert(s@.subrange(i as int, i as int) =~= p@);
            }
        }
        if occurs_at_exec(s, p, i) {
            return Some(i);
        }
        assert(i < s@.len());
        i = i + 1;
    }
    None
}

/// Last position of `p` in `s`.
pub fn rfind_exec(s: &[char], p: &[char]) -> (res: Option<usize>)
    ensures
        res matches Some(i) ==> rfind(s@, p@) == Some(i as int),
        res is None ==> rfind(s@, p@) is None,
{
    if p.len() > s.len() {
        return None;
    }
    let mut j: usize = s.len() - p.len();
    loop
        invariant
            j <= s@.len() - p@.len(),
            rfind(s@, p@) == rfind_upto(s@, p@, j as int),
        decreases j,
    {
        if occurs_at_exec(s, p, j) {
            return Some(j);
        }
        if j == 0 {
            assert(rfind_upto(s@, p@, -1) is None);
            return None;
        }
        j = j - 1;
    }
}

/// The pieces of `s` between occurrences of `c`.
pub fn split_exec(s: &[char], c: char) -> (res: Vec<Vec<char>>)
    ensures
        views(res@) == split_char(s@, c),
{
    let mut done: Vec<Vec<char>> = Vec::new();
    let mut cur: Vec<char> = Vec::new();
    let mut i: usize = 0;
    while i < s.len()
        invariant
            i <= s@.len(),
            views(done@).push(cur@) == split_char(s@.take(i as int), c),
        decreases s.len() - i,
    {
        let ghost before = views(done@).push(cur@);
        assert(s@.take(i + 1).drop_last() == s@.take(i as int));
        assert(s@.take(i + 1).last() == s@[i as int]);
        if s[i] == c {
            let old_cur = cur;
            cur = Vec::new();
            done.push(old_cur);
            assert(views(done@).push(cur@) == before.push(Seq::<char>::empty()));
        } else {
            cur.push(s[i]);
            assert(views(done@).push(cur@) == before.update(
                before.len() - 1,
                before.last().push(s@[i as int]),
            ));
        }
        i = i + 1;
    }
    done.push(cur);
    assert(s@.take(s@.len() as int) == s@);
    assert(views(done@) == split_char(s@, c));
    done
}

/// The pieces of `ws` with `c` between each two of them.
pub fn join_exec(ws: &Vec<Vec<char>>, c: char) -> (res: Vec<char>)
    ensures
        res@ == join(views(ws@), c),
{
    let mut out: Vec<char> = Vec::new();
    let mut i: usize = 0;
    while i < ws.len()
        invariant
            i <= ws@.len(),
            out@ == join(views(ws@).take(i as int), c),
        decreases ws.len() - i,
    {
        let ghost prefix = views(ws@).take(i as int);
        assert(views(ws@).take(i + 1).drop_last() == prefix);
        if i > 0 {
            out.push(c);
        }
        let w = &ws[i];
        let mut k: usize = 0;
        let ghost start = out@;
        while k < w.len()
            invariant
                k <= w@.len(),
                out@ == start + w@.take(k as int),
            decreases w.len() - k,
        {
            out.push(w[k]);
            k = k + 1;
            assert(out@ == start + w@.take(k as int));
        }
        assert(w@.take(w@.len() as int) == w@);
        i = i + 1;
        if i == 1 {
            assert(out@ == views(ws@).take(1)[0]);
        }
    }
    assert(views(ws@).take(ws@.len() as int) == views(ws@));
    out
}

} // verus!
