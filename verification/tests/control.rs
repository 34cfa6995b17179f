use warper::control::{
    auto_countdown, auto_due, autostart_entry_stale, choose_exit_ip, exit_ip_or_unreachable, is_recordable_ip,
    pick_main_window, plan_history_migration, reset_done, reset_plan, ResetStep, plan_standby, registration_is_stale, reset_mode, HistoryMigration,
    Standby, WatchEvent, WatchState,
};
use warper::vault::{SealedEntry, VaultData};

#[test]
fn countdown_and_due_agree() {
    assert_eq!(auto_countdown(None, None, 0), -1);
    assert_eq!(auto_countdown(Some(false), Some(5), 0), -1);
    assert_eq!(auto_countdown(Some(true), None, 0), 900);
    assert_eq!(auto_countdown(Some(true), Some(2), 30), 90);
    assert_eq!(auto_countdown(Some(true), Some(2), 500), 0);
    assert_eq!(auto_countdown(Some(true), Some(u64::MAX), 0), -1);
    assert!(!auto_due(None, None, 10_000));
    assert!(!auto_due(Some(true), Some(2), 119));
    assert!(auto_due(Some(true), Some(2), 120));
    assert!(auto_due(Some(true), None, 900));
    assert!(!auto_due(Some(true), Some(u64::MAX), u64::MAX - 1));
}

#[test]
fn watcher_announces_once() {
    let mut state = WatchState::new();
    let a = state.step(WatchEvent::NotInstalled);
    assert!(a.announce_missing);
    assert_eq!(a.pause_secs, 15);
    let b = state.step(WatchEvent::NotInstalled);
    assert!(!b.announce_missing);
    let c = state.step(WatchEvent::Ended(Err("warp-cli listener exited".to_string())));
    assert_eq!(
        c.report.as_deref(),
        Some("status stream lost (warp-cli listener exited), retrying…")
    );
    assert_eq!(c.pause_secs, 5);
    let d = state.step(WatchEvent::Ended(Err("again".to_string())));
    assert_eq!(d.report, None);
    let e = state.step(WatchEvent::Ended(Ok(())));
    assert_eq!(e.report, None);
    let f = state.step(WatchEvent::Ended(Err("x".to_string())));
    assert!(f.report.is_some());
    let g = state.step(WatchEvent::NotInstalled);
    assert!(g.announce_missing);
}

#[test]
fn small_rules() {
    assert!(registration_is_stale("Old registration is still around. Run delete"));
    assert!(!registration_is_stale("network unreachable"));
    assert!(matches!(plan_standby(" off "), Standby::Disconnect));
    match plan_standby(" doh\n") {
        Standby::Mode(m) => assert_eq!(m, "doh"),
        Standby::Disconnect => panic!("expected a mode"),
    }
    assert_eq!(reset_mode(Some("proxy".to_string()), Ok("doh".to_string())), "proxy");
    assert_eq!(reset_mode(None, Ok("doh".to_string())), "doh");
    assert_eq!(reset_mode(None, Err("no".to_string())), "warp");
    assert!(is_recordable_ip("203.0.113.7"));
    assert!(!is_recordable_ip(""));
    assert!(!is_recordable_ip("unreachable"));
    assert_eq!(exit_ip_or_unreachable(None), "unreachable");
    assert_eq!(exit_ip_or_unreachable(Some("1.1.1.1".to_string())), "1.1.1.1");
    assert!(!autostart_entry_stale(
        "\"C:\\Apps\\WARPER.EXE\" --minimized",
        "c:\\apps\\warper.exe"
    ));
    assert!(autostart_entry_stale("\"C:\\Old\\warper.exe\"", "C:\\Apps\\warper.exe"));
}

#[test]
fn migrates_history_once() {
    let entry = SealedEntry { enc: "enc:00".to_string(), at: 3 };
    let mut none = VaultData::default();
    assert!(matches!(plan_history_migration(&mut none, true), HistoryMigration::Nothing));
    let mut data = VaultData::default();
    data.history.push(entry.clone());
    data.lines.push("kept".to_string());
    match plan_history_migration(&mut data, true) {
        HistoryMigration::Move(h) => assert_eq!(h, vec![entry.clone()]),
        _ => panic!("expected a move"),
    }
    assert!(data.history.is_empty());
    assert_eq!(data.lines, vec!["kept".to_string()]);
    let mut again = VaultData::default();
    again.history.push(entry);
    assert!(matches!(plan_history_migration(&mut again, false), HistoryMigration::Discard));
    assert!(again.history.is_empty());
}

#[test]
fn keeps_first_visible_main_window() {
    assert_eq!(pick_main_window(&[]), None);
    assert_eq!(pick_main_window(&[false]), Some(0));
    assert_eq!(pick_main_window(&[false, false, false]), Some(0));
    assert_eq!(pick_main_window(&[false, true, true]), Some(1));
    assert_eq!(pick_main_window(&[true, false]), Some(0));
}

fn describe(plan: &[ResetStep]) -> Vec<String> {
    plan.iter()
        .map(|step| match step {
            ResetStep::Say(m) => format!("say {m}"),
            ResetStep::Run(args) => format!("run {}", args.join(" ")),
            ResetStep::Pause(ms) => format!("pause {ms}"),
            ResetStep::Register => "register".to_string(),
            ResetStep::SetMode(m) => format!("mode {m}"),
        })
        .collect()
}

#[test]
fn quick_reset_plan() {
    assert_eq!(
        describe(&reset_plan(false, "warp+doh")),
        vec![
            "say [1/3] disconnecting…",
            "run disconnect",
            "pause 1000",
            "say [2/3] registering new tunnel…",
            "register",
            "pause 1000",
            "say [3/3] connecting…",
            "say setting mode to warp+doh…",
            "mode warp+doh",
            "say connecting…",
            "run connect",
            "say quick reset complete",
        ]
    );
    assert_eq!(reset_done(false), "quick reset complete");
}

#[test]
fn full_reset_plan_clears_registration_first() {
    assert_eq!(
        describe(&reset_plan(true, "warp")),
        vec![
            "say [1/4] disconnecting…",
            "run disconnect",
            "pause 1000",
            "say [2/4] deleting registration…",
            "run registration delete",
            "pause 500",
            "say [3/4] registering new tunnel…",
            "register",
            "pause 1000",
            "say [4/4] connecting…",
            "say setting mode to warp…",
            "mode warp",
            "say connecting…",
            "run connect",
            "say full reset complete",
        ]
    );
    assert_eq!(reset_done(true), "full reset complete");
}

#[test]
fn exit_ip_prefers_trace_then_plain() {
    let t = Some("203.0.113.7".to_string());
    let p = Some("198.51.100.9".to_string());
    assert_eq!(choose_exit_ip(t.clone(), p.clone()), "203.0.113.7");
    assert_eq!(choose_exit_ip(t, None), "203.0.113.7");
    assert_eq!(choose_exit_ip(None, p), "198.51.100.9");
    assert_eq!(choose_exit_ip(None, None), "unreachable");
}
