# warper

Warper is a Windows tray app that cycles Cloudflare WARP exit IPs. This crate
holds its logic as a library verified with Verus; the Tauri shell around it
lives in `app/`.

## Layout

- `src/text.rs` — a character-sequence model of trimming, searching,
  splitting and joining, with executable counterparts.
- `src/ip.rs` — the IPv4/IPv6 address grammar used to find IPs in log lines.
- `src/hex.rs`, `src/decimal.rs` — hex and decimal text.
- `src/clock.rs` — the system clock and the `HH:MM:SS` log stamp.
- `src/vault.rs` — the sealed store: sealing IPs word by word, the activity
  log (repeat counting, the line cap), the exit-IP history, and the upgrade of
  the first vault format. The platform's protect/unprotect primitives are
  passed in as closures.
- `src/log_laws.rs` — laws of the activity log.
- `src/warp.rs` — reading `warp-cli` output: status JSON, registration
  fields, the mode setting, exit-IP bodies, command outcomes.
- `src/control.rs` — the app's decisions: auto-reset timing, the status
  watcher's state machine, standby plans, history migration.
- `src/registry.rs` — UTF-16 registry string values, written and read back.
- `tests/` — tests against the compiled library.
- `app/` — the Tauri commands, tray, watchers, DPAPI calls and file I/O.
