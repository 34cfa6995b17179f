use warper::vault::{
    open_ip, open_line, upgrade_v1, LegacyEntry, MAX_IP_HISTORY, MAX_LOG_LINES,
};

fn protect(plain: &[u8]) -> Option<Vec<u8>> {
    Some(plain.iter().map(|b| b ^ 0x33).collect())
}

fn unprotect(blob: &[u8]) -> Option<Vec<u8>> {
    Some(blob.iter().map(|b| b ^ 0x33).collect())
}

fn refuse(_: &[u8]) -> Option<Vec<u8>> {
    None
}

fn entry(ip: &str, at: u64) -> LegacyEntry {
    LegacyEntry { ip: ip.to_string(), at }
}

#[test]
fn legacy_history_is_sealed_in_order() {
    let history = vec![entry("203.0.113.7", 20), entry("", 15), entry("198.51.100.9", 10)];
    let data = upgrade_v1(&history, &[], &protect);
    assert_eq!(data.history.len(), 2);
    assert!(data.history[0].enc.starts_with("enc:"));
    assert_eq!(open_ip(&data.history[0].enc, &unprotect).as_deref(), Some("203.0.113.7"));
    assert_eq!(data.history[0].at, 20);
    assert_eq!(open_ip(&data.history[1].enc, &unprotect).as_deref(), Some("198.51.100.9"));
    assert_eq!(data.history[1].at, 10);
    assert!(data.lines.is_empty());
}

#[test]
fn legacy_ip_stays_clear_when_sealing_fails() {
    let history = vec![entry("203.0.113.7", 3)];
    let data = upgrade_v1(&history, &[], &refuse);
    assert_eq!(data.history.len(), 1);
    assert_eq!(data.history[0].enc, "203.0.113.7");
    assert_eq!(data.history[0].at, 3);
}

#[test]
fn legacy_lists_are_capped() {
    let history: Vec<LegacyEntry> =
        (0..MAX_IP_HISTORY as u64 + 5).map(|i| entry(&format!("10.0.0.{i}"), i)).collect();
    let lines: Vec<String> = (0..MAX_LOG_LINES + 3).map(|i| format!("[00:00:00] line {i}")).collect();
    let data = upgrade_v1(&history, &lines, &protect);
    assert_eq!(data.history.len(), MAX_IP_HISTORY);
    assert_eq!(data.history[MAX_IP_HISTORY - 1].at, MAX_IP_HISTORY as u64 - 1);
    assert_eq!(data.lines.len(), MAX_LOG_LINES);
    assert_eq!(data.lines[0], "[00:00:00] line 0");
    assert_eq!(data.lines[MAX_LOG_LINES - 1], format!("[00:00:00] line {}", MAX_LOG_LINES - 1));
}

#[test]
fn legacy_lines_are_sealed_word_by_word() {
    let lines = vec!["[12:00:00] exit 203.0.113.7 ok".to_string()];
    let data = upgrade_v1(&[], &lines, &protect);
    assert_eq!(data.lines.len(), 1);
    assert!(!data.lines[0].contains("203.0.113.7"));
    assert!(data.lines[0].starts_with("[12:00:00] exit enc:"));
    assert_eq!(open_line(&data.lines[0], &unprotect), "[12:00:00] exit 203.0.113.7 ok");
}
