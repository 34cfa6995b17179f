use warper::warp::{
    check_mode, field, is_high_integrity, mode_from_value, parse_identity, parse_mode,
    parse_plain_ip, parse_status, parse_trace_ip, parse_version, require_admin, status_line,
    status_members, warp_info_from, warp_outcome,
};

#[test]
fn parses_exit_ip_bodies() {
    let trace = "fl=1\nh=api.cloudflare.com\nip=203.0.113.7\nts=1\n";
    assert_eq!(parse_trace_ip(trace).as_deref(), Some("203.0.113.7"));
    assert_eq!(parse_trace_ip("fl=1\nno ip here\n"), None);
    assert_eq!(
        parse_plain_ip("198.51.100.9\n").as_deref(),
        Some("198.51.100.9")
    );
    assert_eq!(parse_plain_ip("  \n"), None);
}

#[test]
fn parses_mode_values() {
    let doh: Result<String, String> = Ok("doh".to_string());
    let warp: Result<String, String> = Ok("warp".to_string());
    let warp_dot: Result<String, String> = Ok("warp+dot".to_string());
    assert_eq!(parse_mode("(user set)\tMode: DnsOverHttps"), doh);
    assert_eq!(parse_mode("Mode: Warp"), warp);
    assert_eq!(parse_mode("Mode: WarpDnsOverTls"), warp_dot);
    assert!(parse_mode("Exclude mode, with hosts/ips:").is_err());
    assert!(parse_mode("Mode: SomethingNew").is_err());
}

#[test]
fn parses_status_values() {
    let connected = parse_status(r#"{"status":"Connected","reason":"NetworkHealthy"}"#)
        .expect("connected must parse");
    assert!(connected.connected);
    assert_eq!(connected.status, "Connected");

    let connecting = parse_status(r#"{"status":"Connecting","reason":"CheckingNetwork"}"#)
        .expect("connecting must parse");
    assert!(!connecting.connected);
    assert_eq!(connecting.status, "Connecting");
    assert_eq!(connecting.reason, "CheckingNetwork");

    let disconnected = parse_status(r#"{"status":"Disconnected","reason":"Manual"}"#)
        .expect("disconnected must parse");
    assert!(!disconnected.connected);

    assert!(parse_status("not json").is_err());
}

#[test]
fn parses_registration_fields() {
    let sample = "Account type: Free\nID: abc\nDevice ID: def-123\nPublic key: xyz\n";
    assert_eq!(field(sample, "Account type:"), "Free");
    assert_eq!(field(sample, "Device ID:"), "def-123");
    assert_eq!(field(sample, "Missing:"), "");
}

#[test]
fn status_defaults_and_errors() {
    let odd = parse_status("  [1, 2]\n").expect("any json parses");
    assert_eq!(odd.status, "Unknown");
    assert_eq!(odd.reason, "");
    assert!(!odd.connected);
    let shout = parse_status(r#"{"status":"CONNECTED","reason":7}"#).expect("parses");
    assert!(shout.connected);
    assert_eq!(shout.reason, "");
    let err = parse_status("{").unwrap_err();
    assert!(err.starts_with("unparseable warp-cli status: "));
    assert!(err.len() > "unparseable warp-cli status: ".len());
}

#[test]
fn mode_errors_and_lowercase() {
    assert_eq!(parse_mode("Mode: TUNNELONLY"), Ok("tunnel_only".to_string()));
    assert_eq!(parse_mode("x\r\n  Mode:  Proxy  \r\nMode: Warp"), Ok("proxy".to_string()));
    assert_eq!(
        parse_mode("Mode: SomethingNew"),
        Err("unrecognized WARP mode: somethingnew".to_string())
    );
    assert_eq!(parse_mode(""), Err("unrecognized WARP mode: ".to_string()));
    assert_eq!(mode_from_value("warpdnsoverhttps"), Ok("warp+doh".to_string()));
    assert_eq!(mode_from_value("dnsovertls"), Ok("dot".to_string()));
    assert_eq!(mode_from_value("Warp"), Err("unrecognized WARP mode: Warp".to_string()));
}

#[test]
fn checks_modes() {
    for m in ["warp", "doh", "warp+doh", "dot", "warp+dot", "proxy", "tunnel_only"] {
        assert_eq!(check_mode(m), Ok(()));
    }
    assert_eq!(check_mode("off"), Err("invalid WARP mode: off".to_string()));
    assert_eq!(check_mode("Warp"), Err("invalid WARP mode: Warp".to_string()));
}

#[test]
fn admin_rights() {
    assert_eq!(require_admin(true), Ok(()));
    assert_eq!(
        require_admin(false),
        Err("administrator rights required — restart Warper as administrator".to_string())
    );
    assert!(is_high_integrity("Mandatory Label\\High Mandatory Level Label S-1-16-12288"));
    assert!(!is_high_integrity("Mandatory Label\\Medium Mandatory Level Label S-1-16-8192"));
}

#[test]
fn identity_version_and_info() {
    let id = parse_identity("Account type: Free\nDevice ID:   def-123  \n");
    assert_eq!(id.account_type, "Free");
    assert_eq!(id.device_id, "def-123");
    assert_eq!(parse_version("  2026.7.1376.0 \nextra"), Some("2026.7.1376.0".to_string()));
    assert_eq!(parse_version(""), None);
    let info = warp_info_from("C:\\warp-cli.exe", Some("2026.1\n"));
    assert!(info.installed);
    assert_eq!(info.path.as_deref(), Some("C:\\warp-cli.exe"));
    assert_eq!(info.version.as_deref(), Some("2026.1"));
    let missing = warp_info_from("warp-cli", None);
    assert!(!missing.installed);
    assert_eq!(missing.path, None);
    assert_eq!(missing.version, None);
}

#[test]
fn warp_outcomes() {
    assert_eq!(warp_outcome(true, " ok \n", "", &["status"], "0"), Ok("ok".to_string()));
    assert_eq!(
        warp_outcome(false, "", " boom \n", &["mode", "doh"], "exit code: 1"),
        Err("boom".to_string())
    );
    assert_eq!(
        warp_outcome(false, "", "  ", &["mode", "doh"], "exit code: 1"),
        Err("warp-cli mode doh failed: exit code: 1".to_string())
    );
}

#[test]
fn status_stream_skips_repeats() {
    let mut last = None;
    let line = r#" {"status":"Connected","reason":"NetworkHealthy"} "#;
    let first = status_line(&mut last, line).expect("first report");
    assert!(first.connected);
    assert_eq!(last.as_deref(), Some(r#"{"status":"Connected","reason":"NetworkHealthy"}"#));
    assert!(status_line(&mut last, line).is_none());
    assert!(status_line(&mut last, "   ").is_none());
    assert!(status_line(&mut last, "garbage").is_none());
    assert_eq!(last.as_deref(), Some(r#"{"status":"Connected","reason":"NetworkHealthy"}"#));
    let next = status_line(&mut last, r#"{"status":"Disconnected"}"#).expect("change");
    assert!(!next.connected);
}

#[test]
fn parsed_modes_pass_the_check() {
    for shown in [
        "Mode: Warp",
        "Mode: DnsOverHttps",
        "Mode: WarpDnsOverHttps",
        "Mode: DnsOverTls",
        "Mode: WarpDnsOverTls",
        "Mode: Proxy",
        "Mode: TunnelOnly",
    ] {
        let mode = parse_mode(shown).expect("known mode");
        assert_eq!(check_mode(&mode), Ok(()), "{shown}");
    }
}

#[test]
fn reads_status_members() {
    let f = status_members(r#"{"status":"Connected","reason":7,"other":"x"}"#).expect("parses");
    assert_eq!(f.status.as_deref(), Some("Connected"));
    assert_eq!(f.reason, None);
    let g = status_members(r#"{"reason":"Manual"}"#).expect("parses");
    assert_eq!(g.status, None);
    assert_eq!(g.reason.as_deref(), Some("Manual"));
    assert!(status_members("{").is_err());
}
