use warper::clock::{clock_stamp, local_stamp, millis_or_zero, now_ms, secs_or_zero, unix_secs};
use warper::hex::{hex_decode, hex_encode};
use warper::ip::is_ip_token;
use warper::vault::{
    next_history, open_history, open_ip, open_line, open_lines, push_line_data,
    push_line_stamped, seal_ip, seal_line, SealedEntry, VaultData, MAX_IP_HISTORY,
    MAX_LOG_LINES,
};

/// A reversible stand-in for the platform protection primitive.
fn protect(plain: &[u8]) -> Option<Vec<u8>> {
    Some(plain.iter().map(|b| b ^ 0x5a).rev().collect())
}

fn unprotect(blob: &[u8]) -> Option<Vec<u8>> {
    Some(blob.iter().rev().map(|b| b ^ 0x5a).collect())
}

fn refuse(_: &[u8]) -> Option<Vec<u8>> {
    None
}

#[test]
fn seals_only_ip_tokens() {
    let sealed = seal_line("warp-cli 2026.7.1376.0 ok", &protect);
    assert_eq!(sealed, "warp-cli 2026.7.1376.0 ok");
    let ip_sealed = seal_line("exit 203.0.113.7 done", &protect);
    assert!(ip_sealed.starts_with("exit enc:"));
    assert!(ip_sealed.ends_with(" done"));
    assert_eq!(open_line(&ip_sealed, &unprotect), "exit 203.0.113.7 done");
}

#[test]
fn unsealable_tokens_survive() {
    assert_eq!(open_line("oops enc:zz top", &unprotect), "oops enc:zz top");
}

#[test]
fn trims_lines_to_cap() {
    let mut data = VaultData::default();
    for i in 0..MAX_LOG_LINES + 50 {
        data.lines.push(format!("line {i}"));
    }
    if data.lines.len() > MAX_LOG_LINES {
        let excess = data.lines.len() - MAX_LOG_LINES;
        data.lines.drain(..excess);
    }
    assert_eq!(data.lines.len(), MAX_LOG_LINES);
    assert_eq!(data.lines[0], "line 50");
}

#[test]
fn rejects_unreachable_ip() {
    let current: Vec<SealedEntry> = vec![];
    assert_eq!(next_history(&current, "unreachable", 0, &protect, &unprotect), None);
    assert_eq!(next_history(&current, "", 0, &protect, &unprotect), None);
}

fn history_json(list: &[SealedEntry]) -> String {
    let items: Vec<serde_json::Value> = list
        .iter()
        .map(|e| {
            let mut m = serde_json::Map::new();
            m.insert("enc".to_string(), serde_json::Value::String(e.enc.clone()));
            m.insert("at".to_string(), serde_json::Value::from(e.at));
            serde_json::Value::Object(m)
        })
        .collect();
    serde_json::to_string(&serde_json::Value::Array(items)).expect("encode")
}

#[test]
fn records_and_dedupes_ip() {
    let empty: Vec<SealedEntry> = vec![];
    let first = next_history(&empty, "203.0.113.7", 0, &protect, &unprotect).expect("record");
    assert_eq!(next_history(&first, "203.0.113.7", 0, &protect, &unprotect), None);
    let second = next_history(&first, "198.51.100.9", 0, &protect, &unprotect).expect("change");
    assert_eq!(second.len(), 2);
    assert_eq!(open_ip(&second[0].enc, &unprotect).as_deref(), Some("198.51.100.9"));
    assert_eq!(open_ip(&second[1].enc, &unprotect).as_deref(), Some("203.0.113.7"));
    let raw = history_json(&second);
    assert!(!raw.contains("203.0.113.7"));
    assert!(!raw.contains("198.51.100.9"));
}

#[test]
fn repeated_message_is_counted_on_one_line() {
    let mut data = VaultData::default();
    push_line_data(&mut data, "hello", &protect, &unprotect);
    push_line_data(&mut data, "hello", &protect, &unprotect);
    assert_eq!(data.lines.len(), 1);
    assert!(data.lines[0].ends_with("hello (x2)"));
    push_line_data(&mut data, "hello", &protect, &unprotect);
    assert_eq!(data.lines.len(), 1);
    assert!(data.lines[0].ends_with("hello (x3)"));
}

#[test]
fn stamped_lines_seal_and_count() {
    let mut data = VaultData::default();
    push_line_stamped(&mut data, "exit 203.0.113.7", "10:00:00", &protect, &unprotect);
    assert_eq!(data.lines.len(), 1);
    assert!(!data.lines[0].contains("203.0.113.7"));
    assert!(data.lines[0].starts_with("[10:00:00] exit enc:"));
    push_line_stamped(&mut data, "exit 203.0.113.7", "10:00:05", &protect, &unprotect);
    assert_eq!(data.lines.len(), 1);
    assert_eq!(open_lines(&data, &unprotect), vec!["[10:00:05] exit 203.0.113.7 (x2)".to_string()]);
    push_line_stamped(&mut data, "other", "10:00:06", &protect, &unprotect);
    assert_eq!(
        open_lines(&data, &unprotect),
        vec![
            "[10:00:05] exit 203.0.113.7 (x2)".to_string(),
            "[10:00:06] other".to_string()
        ]
    );
}

#[test]
fn counter_is_read_from_the_newest_line() {
    let mut data = VaultData::default();
    data.lines.push("[09:00:00] ping (x41)".to_string());
    push_line_stamped(&mut data, "ping", "09:00:01", &protect, &unprotect);
    assert_eq!(data.lines, vec!["[09:00:01] ping (x42)".to_string()]);
    let mut other = VaultData::default();
    other.lines.push("[09:00:00] ping (x4a)".to_string());
    push_line_stamped(&mut other, "ping", "09:00:01", &protect, &unprotect);
    assert_eq!(other.lines.len(), 2);
    let mut plus = VaultData::default();
    plus.lines.push("[09:00:00] ping (x+7)".to_string());
    push_line_stamped(&mut plus, "ping", "09:00:02", &protect, &unprotect);
    assert_eq!(plus.lines, vec!["[09:00:02] ping (x8)".to_string()]);
}

#[test]
fn log_keeps_newest_lines_only() {
    let mut data = VaultData::default();
    for i in 0..MAX_LOG_LINES {
        data.lines.push(format!("[00:00:00] old {i}"));
    }
    push_line_stamped(&mut data, "newest", "00:00:01", &protect, &unprotect);
    assert_eq!(data.lines.len(), MAX_LOG_LINES);
    assert_eq!(data.lines[0], "[00:00:00] old 1");
    assert_eq!(data.lines[MAX_LOG_LINES - 1], "[00:00:01] newest");
}

#[test]
fn history_keeps_ten_newest() {
    let mut list: Vec<SealedEntry> = vec![];
    for i in 0..15u64 {
        let ip = format!("10.0.0.{i}");
        list = next_history(&list, &ip, 1000 + i, &protect, &unprotect).expect("record");
    }
    assert_eq!(list.len(), MAX_IP_HISTORY);
    assert_eq!(list[0].at, 1014);
    assert_eq!(open_ip(&list[0].enc, &unprotect).as_deref(), Some("10.0.0.14"));
    assert_eq!(open_ip(&list[9].enc, &unprotect).as_deref(), Some("10.0.0.5"));
    let shown = open_history(&list, &unprotect);
    assert_eq!(shown.len(), 10);
    assert_eq!(shown[0].ip, "10.0.0.14");
    assert_eq!(shown[0].at, 1014);
}

#[test]
fn history_needs_sealing() {
    let empty: Vec<SealedEntry> = vec![];
    assert_eq!(next_history(&empty, "203.0.113.7", 5, &refuse, &unprotect), None);
    let first = next_history(&empty, "203.0.113.7", 0, &protect, &unprotect).expect("record");
    assert!(first[0].at > 0);
    let unreadable = vec![SealedEntry { enc: "enc:zz".to_string(), at: 1 }];
    assert_eq!(open_history(&unreadable, &unprotect).len(), 0);
}

#[test]
fn seal_ip_writes_hex_of_blob() {
    let sealed = seal_ip("1.2.3.4", &protect).expect("seal");
    let expect = format!("enc:{}", hex_encode(&protect(b"1.2.3.4").unwrap()));
    assert_eq!(sealed, expect);
    assert_ne!(sealed, "enc:312e322e332e34");
    assert_eq!(seal_ip("1.2.3.4", &refuse), None);
    assert_eq!(open_ip(&sealed, &unprotect).as_deref(), Some("1.2.3.4"));
    assert_eq!(open_ip("1.2.3.4", &unprotect), None);
    assert_eq!(open_ip("enc:ff", &unprotect), None);
    assert_eq!(open_ip("enc:abc", &unprotect), None);
}

#[test]
fn hex_round_trip() {
    assert_eq!(hex_encode(&[0x00, 0xab, 0x10, 0xff]), "00ab10ff");
    let chars: Vec<char> = "00AB10ff".chars().collect();
    assert_eq!(hex_decode(&chars), Some(vec![0x00, 0xab, 0x10, 0xff]));
    let odd: Vec<char> = "abc".chars().collect();
    assert_eq!(hex_decode(&odd), None);
    let bad: Vec<char> = "zz".chars().collect();
    assert_eq!(hex_decode(&bad), None);
}

#[test]
fn recognises_ip_addresses() {
    for ok in [
        "203.0.113.7",
        "0.0.0.0",
        "255.255.255.255",
        "::",
        "::1",
        "1::",
        "2001:db8::8a2e:370:7334",
        "1:2:3:4:5:6:7:8",
        "1:2:3:4:5:6:1.2.3.4",
        "::ffff:192.0.2.1",
        "1:2:3:4:5:6:7::",
        "FE80::0001",
    ] {
        assert!(is_ip_token(ok), "{ok}");
    }
    for bad in [
        "",
        "2026.7.1376.0",
        "256.1.1.1",
        "01.2.3.4",
        "1.2.3",
        "1.2.3.4.5",
        ":::",
        "1:::2",
        "1:2:3:4:5:6:7:8:9",
        "1:2:3:4:5:6:7:8::",
        "12345::",
        "1.2.3.4::",
        "::1.2.3.4:5",
        "[::1]",
        "exit",
        "１.２.３.４",
    ] {
        assert!(!is_ip_token(bad), "{bad}");
    }
}

#[test]
fn clock_stamps() {
    assert_eq!(clock_stamp(0), "00:00:00");
    assert_eq!(clock_stamp(3661), "01:01:01");
    assert_eq!(clock_stamp(86399), "23:59:59");
    assert_eq!(clock_stamp(86400 + 7), "00:00:07");
    let now = local_stamp();
    assert_eq!(now.len(), 8);
    assert_eq!(&now[2..3], ":");
    assert!(now_ms() > 1_600_000_000_000);
}

#[test]
fn clock_readings() {
    assert_eq!(secs_or_zero(None), 0);
    assert_eq!(secs_or_zero(Some(1_700_000_000)), 1_700_000_000);
    assert_eq!(millis_or_zero(None), 0);
    assert_eq!(millis_or_zero(Some(1_700_000_000_123)), 1_700_000_000_123);
    assert_eq!(millis_or_zero(Some((1u128 << 64) + 5)), 5);
    assert!(unix_secs() > 1_600_000_000);
}

#[test]
fn history_neighbours_stay_distinct() {
    let mut list: Vec<SealedEntry> = vec![];
    for ip in ["10.0.0.1", "10.0.0.2", "10.0.0.2", "10.0.0.1", "10.0.0.1", "10.0.0.3"] {
        if let Some(next) = next_history(&list, ip, 7, &protect, &unprotect) {
            list = next;
        }
    }
    let shown: Vec<String> =
        list.iter().map(|e| open_ip(&e.enc, &unprotect).expect("opens")).collect();
    assert_eq!(shown, vec!["10.0.0.3", "10.0.0.1", "10.0.0.2", "10.0.0.1"]);
    for pair in shown.windows(2) {
        assert_ne!(pair[0], pair[1]);
    }
}
