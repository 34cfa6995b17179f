//! Reading `warp-cli` output: connection status, registration fields, the
//! connection mode, the client version, and the exit-IP lookup bodies.

use vstd::prelude::*;
use vstd::string::*;
use crate::text::{
    chars_of, contains_text, find, find_exec, lemma_find_from, lines, slice_chars, split_exec,
    starts_with, starts_with_exec, string_of, trim, trim_chars, views, same_chars, split_char,
};

verus! {

/// Connection state as `warp-cli --json status` reports it.
#[derive(Debug, Clone)]
pub struct WarpStatus {
    pub connected: bool,
    pub status: String,
    pub reason: String,
}

/// Account type and device of the current registration.
#[derive(Debug, Clone)]
pub struct WarpIdentity {
    pub account_type: String,
    pub device_id: String,
}

/// Whether the WARP client is installed, where, and which version.
#[derive(Debug, Clone)]
pub struct WarpInfo {
    pub installed: bool,
    pub path: Option<String>,
    pub version: Option<String>,
}

/// The `status` and `reason` string members of a JSON object.
#[derive(Debug, Clone)]
pub struct StatusFields {
    pub status: Option<String>,
    pub reason: Option<String>,
}

pub open spec fn opt_view(s: Option<String>) -> Option<Seq<char>> {
    match s {
        Some(t) => Some(t@),
        None => None,
    }
}

/// What `serde_json` makes of a JSON text and a member name: the member's
/// value when the text parses and the member is a string, `None` when it
/// parses otherwise, or the parse error's message.
pub uninterp spec fn json_str_member(text: Seq<char>, key: Seq<char>) -> Result<
    Option<Seq<char>>,
    Seq<char>,
>;

pub open spec fn member_view(r: Result<Option<String>, String>) -> Result<
    Option<Seq<char>>,
    Seq<char>,
> {
    match r {
        Ok(m) => Ok(opt_view(m)),
        Err(e) => Err(e@),
    }
}

pub open spec fn fields_view(r: Result<StatusFields, String>) -> Result<
    (Option<Seq<char>>, Option<Seq<char>>),
    Seq<char>,
> {
    match r {
        Ok(f) => Ok((opt_view(f.status), opt_view(f.reason))),
        Err(e) => Err(e@),
    }
}

/// `serde_json::from_str::<serde_json::Value>`, then `Value::get(key)` and
/// `Value::as_str`; on a parse failure the error's `Display` text. The
/// result is named, not described.
#[verifier::external_body]
fn read_json_str_member(text: &str, key: &str) -> (res: Result<Option<String>, String>)
    ensures
        member_view(res) == json_str_member(text@, key@),
{
    match serde_json::from_str::<serde_json::Value>(text) {
        Ok(v) => Ok(v.get(key).and_then(|m| m.as_str()).map(|m| m.to_string())),
        Err(e) => Err(e.to_string()),
    }
}

/// The `status` and `reason` string members of a JSON text, or why it does
/// not parse.
pub open spec fn keyed_fields(text: Seq<char>) -> Result<
    (Option<Seq<char>>, Option<Seq<char>>),
    Seq<char>,
> {
    match json_str_member(text, "status"@) {
        Err(e) => Err(e),
        Ok(status) => match json_str_member(text, "reason"@) {
            Err(e) => Err(e),
            Ok(reason) => Ok((status, reason)),
        },
    }
}

/// Reads the `status` and `reason` members of status JSON.
pub fn status_members(text: &str) -> (res: Result<StatusFields, String>)
    ensures
        fields_view(res) == keyed_fields(text@),
{
    let status = match read_json_str_member(text, "status") {
        Ok(m) => m,
        Err(e) => return Err(e),
    };
    let reason = match read_json_str_member(text, "reason") {
        Ok(m) => m,
        Err(e) => return Err(e),
    };
    Ok(StatusFields { status, reason })
}

pub open spec fn ascii_lower(c: char) -> char {
    if 0x41 <= (c as u32) <= 0x5A {
        ((c as u32) + 32) as char
    } else {
        c
    }
}

/// Equal up to the case of ASCII letters.
pub open spec fn eq_ignore_ascii_case(a: Seq<char>, b: Seq<char>) -> bool {
    a.len() == b.len() && forall|i: int| 0 <= i < a.len() ==> ascii_lower(a[i]) == ascii_lower(
        b[i],
    )
}

/// The status a decoded `warp-cli --json status` reports: `Unknown` without
/// a string `status`, an empty reason without a string `reason`, connected
/// when the status reads `connected` in any ASCII case.
pub open spec fn status_matches(
    fields: Result<(Option<Seq<char>>, Option<Seq<char>>), Seq<char>>,
    res: Result<WarpStatus, String>,
) -> bool {
    match fields {
        Err(e) => res matches Err(m) && m@ == "unparseable warp-cli status: "@ + e,
        Ok((status, reason)) => res matches Ok(w) && w.status@ == match status {
            Some(s) => s,
            None => "Unknown"@,
        } && w.reason@ == match reason {
            Some(r) => r,
            None => Seq::<char>::empty(),
        } && w.connected == eq_ignore_ascii_case(w.status@, "connected"@),
    }
}

fn ascii_lower_exec(c: char) -> (res: char)
    ensures
        res == ascii_lower(c),
{
    let u = c as u32;
    if 0x41 <= u && u <= 0x5A {
        ((u + 32) as u8) as char
    } else {
        c
    }
}

fn eq_ignore_ascii_case_exec(a: &[char], b: &[char]) -> (res: bool)
    ensures
        res == eq_ignore_ascii_case(a@, b@),
{
    if a.len() != b.len() {
        return false;
    }
    let mut i: usize = 0;
    while i < a.len()
        invariant
            a@.len() == b@.len(),
            i <= a@.len(),
            forall|j: int| 0 <= j < i ==> ascii_lower(a@[j]) == ascii_lower(b@[j]),
        decreases a.len() - i,
    {
        if ascii_lower_exec(a[i]) != ascii_lower_exec(b[i]) {
            return false;
        }
        i = i + 1;
    }
    true
}

/// The status that decoded status JSON reports.
pub fn status_from_fields(fields: Result<StatusFields, String>) -> (res: Result<WarpStatus, String>)
    ensures
        status_matches(fields_view(fields), res),
{
    match fields {
        Err(e) => {
            let mut m = String::from_str("unparseable warp-cli status: ");
            m.append(e.as_str());
            Err(m)
        },
        Ok(f) => {
            let status = match f.status {
                Some(s) => s,
                None => String::from_str("Unknown"),
            };
            let reason = match f.reason {
                Some(r) => r,
                None => String::new(),
            };
            let sc = chars_of(status.as_str());
            let connected = eq_ignore_ascii_case_exec(
                sc.as_slice(),
                chars_of("connected").as_slice(),
            );
            Ok(WarpStatus { connected, status, reason })
        },
    }
}

/// Reads `warp-cli --json status` output, surrounding whitespace ignored.
pub fn parse_status(text: &str) -> (res: Result<WarpStatus, String>)
    ensures
        status_matches(keyed_fields(trim(text@)), res),
{
    let t = string_of(trim_chars(chars_of(text).as_slice()).as_slice());
    status_from_fields(status_members(t.as_str()))
}

/// The value of the first line that starts with `key` once trimmed: the rest
/// of that line, trimmed.
pub open spec fn first_field(ls: Seq<Seq<char>>, key: Seq<char>) -> Option<Seq<char>>
    decreases ls.len(),
{
    if ls.len() == 0 {
        None
    } else if starts_with(trim(ls[0]), key) {
        Some(trim(trim(ls[0]).skip(key.len() as int)))
    } else {
        first_field(ls.drop_first(), key)
    }
}

/// `key`'s value in `key: value` output such as `warp-cli registration
/// show`; empty when no line has the key.
pub open spec fn field_value(text: Seq<char>, key: Seq<char>) -> Seq<char> {
    match first_field(lines(text), key) {
        Some(v) => v,
        None => Seq::<char>::empty(),
    }
}

/// The value of the first line that reads `ip=` and a non-empty value.
pub open spec fn first_trace_ip(ls: Seq<Seq<char>>) -> Option<Seq<char>>
    decreases ls.len(),
{
    if ls.len() == 0 {
        None
    } else if starts_with(trim(ls[0]), seq!['i', 'p', '=']) && trim(trim(ls[0]).skip(3)).len()
        > 0 {
        Some(trim(trim(ls[0]).skip(3)))
    } else {
        first_trace_ip(ls.drop_first())
    }
}

/// The first line, trimmed, unless that is empty.
pub open spec fn plain_ip(text: Seq<char>) -> Option<Seq<char>> {
    let ip = trim(lines(text)[0]);
    if ip.len() == 0 {
        None
    } else {
        Some(ip)
    }
}

fn line_chars(text: &str) -> (res: Vec<Vec<char>>)
    ensures
        views(res@) == lines(text@),
{
    let cs = chars_of(text);
    split_exec(cs.as_slice(), '\n')
}

/// The value of `key` in `key: value` lines; empty when absent.
pub fn field(text: &str, key: &str) -> (res: String)
    ensures
        res@ == field_value(text@, key@),
{
    let ls = line_chars(text);
    let kc = chars_of(key);
    let mut i: usize = 0;
    assert(lines(text@).skip(0) == lines(text@));
    while i < ls.len()
        invariant
            views(ls@) == lines(text@),
            kc@ == key@,
            i <= ls@.len(),
            first_field(lines(text@), key@) == first_field(lines(text@).skip(i as int), key@),
        decreases ls.len() - i,
    {
        let ghost rest = lines(text@).skip(i as int);
        assert(rest[0] == ls@[i as int]@);
        assert(rest.drop_first() == lines(text@).skip(i + 1));
        let t = trim_chars(ls[i].as_slice());
        if starts_with_exec(t.as_slice(), kc.as_slice()) {
            let n = t.len();
            let v = slice_chars(t.as_slice(), kc.len(), n);
            assert(v@ == t@.skip(key@.len() as int));
            return string_of(trim_chars(v.as_slice()).as_slice());
        }
        i = i + 1;
    }
    assert(lines(text@).skip(i as int).len() == 0);
    String::new()
}

/// The exit IP in a Cloudflare trace body: the first `ip=` line's value.
pub fn parse_trace_ip(text: &str) -> (res: Option<String>)
    ensures
        opt_view(res) == first_trace_ip(lines(text@)),
{
    let ls = line_chars(text);
    let key = vec!['i', 'p', '='];
    assert(key@ == seq!['i', 'p', '=']);
    let mut i: usize = 0;
    assert(lines(text@).skip(0) == lines(text@));
    while i < ls.len()
        invariant
            views(ls@) == lines(text@),
            key@ == seq!['i', 'p', '='],
            i <= ls@.len(),
            first_trace_ip(lines(text@)) == first_trace_ip(lines(text@).skip(i as int)),
        decreases ls.len() - i,
    {
        let ghost rest = lines(text@).skip(i as int);
        assert(rest[0] == ls@[i as int]@);
        assert(rest.drop_first() == lines(text@).skip(i + 1));
        let t = trim_chars(ls[i].as_slice());
        if starts_with_exec(t.as_slice(), key.as_slice()) {
            let n = t.len();
            let v = slice_chars(t.as_slice(), 3, n);
            assert(v@ == t@.skip(3));
            let ip = trim_chars(v.as_slice());
            if ip.len() > 0 {
                return Some(string_of(ip.as_slice()));
            }
        }
        i = i + 1;
    }
    assert(lines(text@).skip(i as int).len() == 0);
    None
}

/// The exit IP in a plain-text body: its first line, trimmed.
pub fn parse_plain_ip(text: &str) -> (res: Option<String>)
    ensures
        opt_view(res) == plain_ip(text@),
        trim(lines(text@)[0]).len() > 0 ==> (res matches Some(v) && v@ == trim(lines(text@)[0])),
        trim(lines(text@)[0]).len() == 0 ==> res is None,
{
    let ls = line_chars(text);
    proof {
        crate::text::lemma_split_len(text@, '\n');
    }
    assert(views(ls@)[0] == ls@[0]@);
    let ip = trim_chars(ls[0].as_slice());
    if ip.len() == 0 {
        None
    } else {
        Some(string_of(ip.as_slice()))
    }
}

/// The first line of a text is everything before its first line break, and
/// the plain lookup reads that line, trimmed, whenever it is not blank.
pub proof fn lemma_first_line(first: Seq<char>, rest: Seq<char>)
    requires
        !first.contains('\n'),
    ensures
        lines(first + seq!['\n'] + rest)[0] == first,
        lines(first)[0] == first,
        trim(first).len() > 0 ==> plain_ip(first + seq!['\n'] + rest) == Some(trim(first)),
        trim(first).len() == 0 ==> plain_ip(first + seq!['\n'] + rest) is None,
{
    crate::text::lemma_split_concat(first, rest, '\n');
    crate::text::lemma_split_single(first, '\n');
    crate::text::lemma_split_len(rest, '\n');
}

/// The registration that `warp-cli registration show` prints.
pub fn parse_identity(text: &str) -> (res: WarpIdentity)
    ensures
        res.account_type@ == field_value(text@, "Account type:"@),
        res.device_id@ == field_value(text@, "Device ID:"@),
{
    WarpIdentity { account_type: field(text, "Account type:"), device_id: field(text, "Device ID:") }
}

/// The client's version in `warp-cli --version` output: its first line,
/// trimmed, unless that is empty.
pub fn parse_version(text: &str) -> (res: Option<String>)
    ensures
        opt_view(res) == plain_ip(text@),
        trim(lines(text@)[0]).len() > 0 ==> (res matches Some(v) && v@ == trim(lines(text@)[0])),
        trim(lines(text@)[0]).len() == 0 ==> res is None,
{
    parse_plain_ip(text)
}

/// What is known of the client: installed exactly when `--version` ran, at
/// `path`, with the version it printed.
pub fn warp_info_from(path: &str, version_output: Option<&str>) -> (res: WarpInfo)
    ensures
        res.installed == version_output is Some,
        version_output is None ==> res.path is None && res.version is None,
        version_output matches Some(out) ==> res.path matches Some(p) && p@ == path@ && opt_view(
            res.version,
        ) == plain_ip(out@),
        version_output matches Some(out) ==> (trim(lines(out@)[0]).len() > 0 ==> (
        res.version matches Some(v) && v@ == trim(lines(out@)[0]))),
        version_output matches Some(out) ==> (trim(lines(out@)[0]).len() == 0
            ==> res.version is None),
{
    match version_output {
        Some(out) => WarpInfo {
            installed: true,
            path: Some(String::from_str(path)),
            version: parse_version(out),
        },
        None => WarpInfo { installed: false, path: None, version: None },
    }
}

/// Unicode lower case, as `str::to_lowercase` computes it.
pub uninterp spec fn lowercase(s: Seq<char>) -> Seq<char>;

/// `str::to_lowercase`. Its result is named by `lowercase`, not described.
#[verifier::external_body]
pub(crate) fn to_lower(s: &str) -> (res: String)
    ensures
        res@ == lowercase(s@),
{
    s.to_lowercase()
}

pub open spec fn mode_key() -> Seq<char> {
    seq!['M', 'o', 'd', 'e', ':']
}

/// The text of `line` after its first `Mode:`, up to the next `Mode:`.
pub open spec fn mode_segment(line: Seq<char>) -> Seq<char> {
    let after = line.skip(find(line, mode_key())->0 + 5);
    match find(after, mode_key()) {
        Some(j) => after.take(j),
        None => after,
    }
}

pub open spec fn first_mode(ls: Seq<Seq<char>>) -> Option<Seq<char>>
    decreases ls.len(),
{
    if ls.len() == 0 {
        None
    } else if contains_text(ls[0], mode_key()) {
        Some(trim(mode_segment(ls[0])))
    } else {
        first_mode(ls.drop_first())
    }
}

/// The `Mode:` value that `warp-cli settings` prints, trimmed; empty when
/// no line has one.
pub open spec fn mode_value(text: Seq<char>) -> Seq<char> {
    match first_mode(lines(text)) {
        Some(v) => v,
        None => Seq::<char>::empty(),
    }
}

/// The `warp-cli mode` argument for a lower-cased `Mode:` value.
pub open spec fn mode_for(lower: Seq<char>) -> Result<Seq<char>, Seq<char>> {
    if lower == "warp"@ {
        Ok("warp"@)
    } else if lower == "dnsoverhttps"@ {
        Ok("doh"@)
    } else if lower == "warpdnsoverhttps"@ {
        Ok("warp+doh"@)
    } else if lower == "dnsovertls"@ {
        Ok("dot"@)
    } else if lower == "warpdnsovertls"@ {
        Ok("warp+dot"@)
    } else if lower == "proxy"@ {
        Ok("proxy"@)
    } else if lower == "tunnelonly"@ {
        Ok("tunnel_only"@)
    } else {
        Err("unrecognized WARP mode: "@ + lower)
    }
}

pub open spec fn result_view(r: Result<String, String>) -> Result<Seq<char>, Seq<char>> {
    match r {
        Ok(s) => Ok(s@),
        Err(e) => Err(e@),
    }
}

fn is_literal(s: &[char], lit: &str) -> (res: bool)
    ensures
        res == (s@ == lit@),
{
    let l = chars_of(lit);
    same_chars(s, l.as_slice())
}

/// The `warp-cli mode` argument for a lower-cased `Mode:` value.
pub fn mode_from_value(lower: &str) -> (res: Result<String, String>)
    ensures
        result_view(res) == mode_for(lower@),
{
    let c = chars_of(lower);
    let arg = if is_literal(c.as_slice(), "warp") {
        "warp"
    } else if is_literal(c.as_slice(), "dnsoverhttps") {
        "doh"
    } else if is_literal(c.as_slice(), "warpdnsoverhttps") {
        "warp+doh"
    } else if is_literal(c.as_slice(), "dnsovertls") {
        "dot"
    } else if is_literal(c.as_slice(), "warpdnsovertls") {
        "warp+dot"
    } else if is_literal(c.as_slice(), "proxy") {
        "proxy"
    } else if is_literal(c.as_slice(), "tunnelonly") {
        "tunnel_only"
    } else {
        let mut e = String::from_str("unrecognized WARP mode: ");
        e.append(lower);
        return Err(e);
    };
    Ok(String::from_str(arg))
}

fn mode_segment_exec(line: &[char]) -> (res: Vec<char>)
    requires
        contains_text(line@, mode_key()),
    ensures
        res@ == mode_segment(line@),
{
    let key = vec!['M', 'o', 'd', 'e', ':'];
    assert(key@ == mode_key());
    let i = match find_exec(line, key.as_slice()) {
        Some(i) => i,
        None => {
            return Vec::new();
        },
    };
    proof {
        lemma_find_from(line@, key@, 0);
    }
    let n = line.len();
    let after = slice_chars(line, i + 5, n);
    assert(after@ == line@.skip(i + 5));
    match find_exec(after.as_slice(), key.as_slice()) {
        Some(j) => {
            proof {
                lemma_find_from(after@, key@, 0);
            }
            slice_chars(after.as_slice(), 0, j)
        },
        None => after,
    }
}

/// The `Mode:` value that `warp-cli settings` prints, trimmed.
pub fn mode_setting(text: &str) -> (res: String)
    ensures
        res@ == mode_value(text@),
{
    let ls = line_chars(text);
    let key = vec!['M', 'o', 'd', 'e', ':'];
    assert(key@ == mode_key());
    let mut i: usize = 0;
    assert(lines(text@).skip(0) == lines(text@));
    while i < ls.len()
        invariant
            views(ls@) == lines(text@),
            key@ == mode_key(),
            i <= ls@.len(),
            first_mode(lines(text@)) == first_mode(lines(text@).skip(i as int)),
        decreases ls.len() - i,
    {
        let ghost rest = lines(text@).skip(i as int);
        assert(rest[0] == ls@[i as int]@);
        assert(rest.drop_first() == lines(text@).skip(i + 1));
        if find_exec(ls[i].as_slice(), key.as_slice()).is_some() {
            let seg = mode_segment_exec(ls[i].as_slice());
            return string_of(trim_chars(seg.as_slice()).as_slice());
        }
        i = i + 1;
    }
    assert(lines(text@).skip(i as int).len() == 0);
    String::new()
}

/// The `warp-cli mode` argument for the mode that `warp-cli settings`
/// shows, or why it has none.
pub fn parse_mode(text: &str) -> (res: Result<String, String>)
    ensures
        result_view(res) == mode_for(lowercase(mode_value(text@))),
{
    let raw = mode_setting(text);
    let lower = to_lower(raw.as_str());
    mode_from_value(lower.as_str())
}

/// The modes `warp-cli mode` accepts.
pub open spec fn allowed_mode(m: Seq<char>) -> bool {
    ||| m == "warp"@
    ||| m == "doh"@
    ||| m == "warp+doh"@
    ||| m == "dot"@
    ||| m == "warp+dot"@
    ||| m == "proxy"@
    ||| m == "tunnel_only"@
}

/// Accepts the modes `warp-cli mode` takes; anything else is an error.
pub fn check_mode(mode: &str) -> (res: Result<(), String>)
    ensures
        res is Ok <==> allowed_mode(mode@),
        res matches Err(e) ==> e@ == "invalid WARP mode: "@ + mode@,
{
    let c = chars_of(mode);
    if is_literal(c.as_slice(), "warp") || is_literal(c.as_slice(), "doh") || is_literal(
        c.as_slice(),
        "warp+doh",
    ) || is_literal(c.as_slice(), "dot") || is_literal(c.as_slice(), "warp+dot") || is_literal(
        c.as_slice(),
        "proxy",
    ) || is_literal(c.as_slice(), "tunnel_only") {
        Ok(())
    } else {
        let mut e = String::from_str("invalid WARP mode: ");
        e.append(mode);
        Err(e)
    }
}

/// Every mode that `parse_mode` reads from the settings is one that
/// `check_mode` accepts.
pub proof fn lemma_parsed_mode_allowed(lower: Seq<char>)
    ensures
        mode_for(lower) matches Ok(m) ==> allowed_mode(m),
{
}

/// Changing WARP needs an elevated process.
pub fn require_admin(elevated: bool) -> (res: Result<(), String>)
    ensures
        res is Ok <==> elevated,
        res matches Err(e) ==> e@ == "administrator rights required \u{2014} restart Warper as administrator"@,
{
    if elevated {
        Ok(())
    } else {
        Err(String::from_str("administrator rights required \u{2014} restart Warper as administrator"))
    }
}

pub open spec fn high_integrity_sid() -> Seq<char> {
    "S-1-16-12288"@
}

/// Whether `whoami /groups` output lists the high-integrity level.
pub fn is_high_integrity(groups: &str) -> (res: bool)
    ensures
        res == contains_text(groups@, high_integrity_sid()),
{
    let g = chars_of(groups);
    let sid = chars_of("S-1-16-12288");
    find_exec(g.as_slice(), sid.as_slice()).is_some()
}

pub open spec fn str_views(v: Seq<&str>) -> Seq<Seq<char>> {
    Seq::new(v.len(), |i: int| v[i]@)
}

/// What a finished `warp-cli` run reports: its trimmed output on success;
/// otherwise its trimmed error output, or, when that is empty, the command
/// line and the exit status.
pub fn warp_outcome(success: bool, stdout: &str, stderr: &str, args: &[&str], status: &str) -> (res:
    Result<String, String>)
    ensures
        success ==> (res matches Ok(o) && o@ == trim(stdout@)),
        !success && trim(stderr@).len() > 0 ==> (res matches Err(e) && e@ == trim(stderr@)),
        !success && trim(stderr@).len() == 0 ==> (res matches Err(e) && e@ == "warp-cli "@
            + crate::text::join(str_views(args@), ' ') + " failed: "@ + status@),
{
    if success {
        return Ok(string_of(trim_chars(chars_of(stdout).as_slice()).as_slice()));
    }
    let err = trim_chars(chars_of(stderr).as_slice());
    if err.len() > 0 {
        return Err(string_of(err.as_slice()));
    }
    let mut words: Vec<Vec<char>> = Vec::new();
    let mut i: usize = 0;
    while i < args.len()
        invariant
            i <= args@.len(),
            views(words@) == str_views(args@).take(i as int),
        decreases args.len() - i,
    {
        let a: &str = args[i];
        let w = chars_of(a);
        let ghost before = views(words@);
        words.push(w);
        assert(views(words@) == before.push(a@));
        assert(str_views(args@).take(i + 1) == str_views(args@).take(i as int).push(a@));
        i = i + 1;
    }
    assert(str_views(args@).take(args@.len() as int) == str_views(args@));
    let joined = crate::text::join_exec(&words, ' ');
    let mut m = String::from_str("warp-cli ");
    m.append(string_of(joined.as_slice()).as_str());
    m.append(" failed: ");
    m.append(status);
    Err(m)
}

/// What the status stream does with one line: the new last-seen text, and
/// whether the line is reported. Blank lines and repeats of the last reported
/// text are skipped; a line that does not decode is skipped too.
pub open spec fn line_step(last: Option<Seq<char>>, line: Seq<char>) -> (Option<Seq<char>>, bool) {
    let t = trim(line);
    if t.len() == 0 || last == Some(t) {
        (last, false)
    } else if keyed_fields(t) is Err {
        (last, false)
    } else {
        (Some(t), true)
    }
}

/// Reads one line of `warp-cli --json --listen status`: the status to report,
/// or `None` for a blank line, a repeat of the last reported line, or a line
/// that does not decode. `last` keeps the last reported line, trimmed.
pub fn status_line(last: &mut Option<String>, line: &str) -> (res: Option<WarpStatus>)
    ensures
        (opt_view(*final(last)), res is Some) == line_step(opt_view(*old(last)), line@),
        res matches Some(w) ==> status_matches(keyed_fields(trim(line@)), Ok(w)),
{
    let t = trim_chars(chars_of(line).as_slice());
    if t.len() == 0 {
        return None;
    }
    let repeat = match last {
        Some(l) => same_chars(chars_of(l.as_str()).as_slice(), t.as_slice()),
        None => false,
    };
    if repeat {
        return None;
    }
    let text = string_of(t.as_slice());
    match status_from_fields(status_members(text.as_str())) {
        Ok(status) => {
            *last = Some(text);
            Some(status)
        },
        Err(_) => None,
    }
}

/// The same line twice in a row is reported at most once.
pub proof fn lemma_status_line_once(last: Option<Seq<char>>, line: Seq<char>)
    ensures
        !line_step(line_step(last, line).0, line).1,
{
}

} // verus!
