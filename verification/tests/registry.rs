use warper::registry::{
    aumid_key_path, decode_utf16_lossy, encode_utf16, registry_text, units_le, wide_nul_bytes,
};

#[test]
fn display_name_is_wide_and_nul_terminated() {
    let bytes = wide_nul_bytes("Warper");
    assert_eq!(
        bytes,
        vec![b'W', 0, b'a', 0, b'r', 0, b'p', 0, b'e', 0, b'r', 0, 0, 0]
    );
}

#[test]
fn wide_bytes_match_std_encoding() {
    let text = "C:\\Program Files\\Warper\\warper.exe é 😀";
    let expected: Vec<u8> = text
        .encode_utf16()
        .chain(std::iter::once(0))
        .flat_map(u16::to_le_bytes)
        .collect();
    assert_eq!(wide_nul_bytes(text), expected);
}

#[test]
fn astral_char_becomes_surrogate_pair() {
    let units = encode_utf16(&['😀']);
    assert_eq!(units, vec![0xD83D, 0xDE00]);
    assert_eq!(wide_nul_bytes("😀"), vec![0x3D, 0xD8, 0x00, 0xDE, 0, 0]);
}

#[test]
fn run_entry_reads_back_trimmed() {
    let stored = "  \"C:\\Apps\\warper.exe\" --minimized ";
    let buf = wide_nul_bytes(stored);
    let size = buf.len() as u32;
    assert_eq!(
        registry_text(&buf, size),
        "\"C:\\Apps\\warper.exe\" --minimized"
    );
}

#[test]
fn reading_stops_at_reported_size() {
    let buf = wide_nul_bytes("abcdef");
    assert_eq!(registry_text(&buf, 6), "abc");
    // An odd trailing byte is not a whole code unit.
    assert_eq!(registry_text(&buf, 7), "abc");
    // A size past the buffer reads what the buffer holds.
    assert_eq!(registry_text(&buf, 1000), "abcdef");
}

#[test]
fn surrounding_nuls_are_dropped() {
    let buf = vec![0, 0, 0, 0, b' ', 0, b'x', 0, b' ', 0, 0, 0];
    assert_eq!(registry_text(&buf, buf.len() as u32), "x");
}

#[test]
fn lone_surrogates_decode_to_replacement() {
    assert_eq!(
        decode_utf16_lossy(&[0x61, 0xD800, 0x62, 0xDC00]),
        vec!['a', '\u{FFFD}', 'b', '\u{FFFD}']
    );
    assert_eq!(decode_utf16_lossy(&[0xD83D, 0xDE00]), vec!['😀']);
    assert_eq!(decode_utf16_lossy(&[0xD83D]), vec!['\u{FFFD}']);
}

#[test]
fn units_are_little_endian() {
    assert_eq!(units_le(&[0x34, 0x12, 0x78, 0x56], 4), vec![0x1234, 0x5678]);
    assert_eq!(units_le(&[0x34, 0x12, 0x78, 0x56], 2), vec![0x1234]);
}

#[test]
fn notification_identity_key() {
    assert_eq!(
        aumid_key_path("dev.warper.app"),
        "Software\\Classes\\AppUserModelId\\dev.warper.app"
    );
}
