//! Decisions of the tray app: when auto reset is due, what the status
//! watcher announces, which mode to reconnect with, and small rules around
//! registration, standby, history migration and autostart.

use vstd::prelude::*;
use vstd::string::*;
use crate::text::{chars_of, contains_text, find_exec, same_chars, string_of, trim, trim_chars};
use crate::vault::{
    entries_view, open_ip, open_ip_outcome, string_views, unreachable_text, SealedEntry, VaultData,
};
use crate::warp::{lowercase, opt_view, to_lower};

verus! {

// ------------------------------------------------------------------
// Auto reset timing
// ------------------------------------------------------------------

/// Minutes between automatic resets when none are configured.
pub const DEFAULT_INTERVAL_MINUTES: u64 = 15;

pub open spec fn interval_secs(interval_minutes: Option<u64>) -> nat {
    let mins = match interval_minutes {
        Some(m) => m,
        None => DEFAULT_INTERVAL_MINUTES,
    };
    if mins * 60 > u64::MAX {
        u64::MAX as nat
    } else {
        (mins * 60) as nat
    }
}

pub open spec fn auto_enabled(auto_reset: Option<bool>) -> bool {
    match auto_reset {
        Some(b) => b,
        None => false,
    }
}

/// Seconds left of `interval`, as a signed count; wraps past `i64::MAX` as
/// the cast does.
pub open spec fn seconds_left(interval: nat, elapsed_secs: u64) -> i64 {
    let left: u64 = if elapsed_secs >= interval {
        0
    } else {
        (interval - elapsed_secs) as u64
    };
    left as i64
}

fn interval_secs_exec(interval_minutes: Option<u64>) -> (res: u64)
    ensures
        res as nat == interval_secs(interval_minutes),
{
    let mins = match interval_minutes {
        Some(m) => m,
        None => DEFAULT_INTERVAL_MINUTES,
    };
    match mins.checked_mul(60) {
        Some(s) => s,
        None => u64::MAX,
    }
}

/// Seconds until the next automatic reset, or -1 when auto reset is off
/// (unset counts as off; an unset interval is 15 minutes).
pub fn auto_countdown(auto_reset: Option<bool>, interval_minutes: Option<u64>, elapsed_secs: u64) -> (res:
    i64)
    ensures
        !auto_enabled(auto_reset) ==> res == -1,
        auto_enabled(auto_reset) ==> res == seconds_left(interval_secs(interval_minutes), elapsed_secs),
{
    let enabled = match auto_reset {
        Some(b) => b,
        None => false,
    };
    if !enabled {
        return -1;
    }
    let interval = interval_secs_exec(interval_minutes);
    let left = interval.saturating_sub(elapsed_secs);
    #[verifier::truncate]
    (left as i64)
}

/// Whether an automatic reset is due: auto reset is on and a whole interval
/// has passed since the last operation.
pub fn auto_due(auto_reset: Option<bool>, interval_minutes: Option<u64>, elapsed_secs: u64) -> (res:
    bool)
    ensures
        res == (auto_enabled(auto_reset) && elapsed_secs >= interval_secs(interval_minutes)),
{
    let enabled = match auto_reset {
        Some(b) => b,
        None => false,
    };
    if !enabled {
        return false;
    }
    elapsed_secs >= interval_secs_exec(interval_minutes)
}

/// A reset is due exactly when the countdown shows zero.
pub proof fn lemma_due_iff_countdown_zero(
    auto_reset: Option<bool>,
    interval_minutes: Option<u64>,
    elapsed_secs: u64,
)
    ensures
        (auto_enabled(auto_reset) && elapsed_secs >= interval_secs(interval_minutes)) <==> (
        auto_enabled(auto_reset) && seconds_left(interval_secs(interval_minutes), elapsed_secs)
            == 0),
{
    let interval = interval_secs(interval_minutes);
    let left: u64 = if elapsed_secs >= interval {
        0
    } else {
        (interval - elapsed_secs) as u64
    };
    assert((left as i64 == 0) <==> left == 0) by (bit_vector);
}

// ------------------------------------------------------------------
// The status watcher
// ------------------------------------------------------------------

/// What the status watcher remembers between rounds.
#[derive(Debug, Clone, Copy)]
pub struct WatchState {
    /// The last stream loss was already announced.
    pub failed: bool,
    /// The missing client was already announced.
    pub missing_notified: bool,
}

/// What a round of the status watcher found.
#[derive(Debug)]
pub enum WatchEvent {
    /// The WARP client is not installed.
    NotInstalled,
    /// The status stream ended, with its error if it failed.
    Ended(Result<(), String>),
}

/// What the watcher does after a round.
#[derive(Debug, Clone)]
pub struct WatchAction {
    /// Tell the window that the client is missing.
    pub announce_missing: bool,
    /// A message to log.
    pub report: Option<String>,
    /// Seconds to wait before the next round.
    pub pause_secs: u64,
}

pub open spec fn lost_report(error: Seq<char>) -> Seq<char> {
    "status stream lost ("@ + error + "), retrying\u{2026}"@
}

/// One round of the watcher: the missing client is announced once until it
/// is back, a lost stream once until a stream ends cleanly.
pub open spec fn watch_transition(s: WatchState, e: WatchEvent) -> (WatchState, bool, Option<
    Seq<char>,
>, u64) {
    match e {
        WatchEvent::NotInstalled => (
            WatchState { failed: s.failed, missing_notified: true },
            !s.missing_notified,
            None,
            15,
        ),
        WatchEvent::Ended(Err(error)) => (
            WatchState { failed: true, missing_notified: false },
            false,
            if s.failed {
                None
            } else {
                Some(lost_report(error@))
            },
            5,
        ),
        WatchEvent::Ended(Ok(())) => (WatchState { failed: false, missing_notified: false }, false, None, 5),
    }
}

impl WatchState {
    /// A watcher that has announced nothing yet.
    pub fn new() -> (res: WatchState)
        ensures
            !res.failed,
            !res.missing_notified,
    {
        WatchState { failed: false, missing_notified: false }
    }

    /// Takes in what a round found and says what to do.
    pub fn step(&mut self, event: WatchEvent) -> (action: WatchAction)
        ensures
            (*final(self), action.announce_missing, opt_view(action.report), action.pause_secs)
                == watch_transition(*old(self), event),
    {
        match event {
            WatchEvent::NotInstalled => {
                let announce = !self.missing_notified;
                self.missing_notified = true;
                WatchAction { announce_missing: announce, report: None, pause_secs: 15 }
            },
            WatchEvent::Ended(Err(error)) => {
                self.missing_notified = false;
                let report = if self.failed {
                    None
                } else {
                    let mut m = String::from_str("status stream lost (");
                    m.append(error.as_str());
                    m.append("), retrying\u{2026}");
                    Some(m)
                };
                self.failed = true;
                WatchAction { announce_missing: false, report, pause_secs: 5 }
            },
            WatchEvent::Ended(Ok(())) => {
                self.missing_notified = false;
                self.failed = false;
                WatchAction { announce_missing: false, report: None, pause_secs: 5 }
            },
        }
    }
}

/// A missing client is announced once, not on every round it stays missing.
pub proof fn lemma_missing_announced_once(s: WatchState)
    ensures
        !watch_transition(watch_transition(s, WatchEvent::NotInstalled).0, WatchEvent::NotInstalled).1,
{
}

/// A lost stream is reported once, not on every retry that fails again.
pub proof fn lemma_loss_reported_once(s: WatchState, first: String, second: String)
    ensures
        watch_transition(
            watch_transition(s, WatchEvent::Ended(Err(first))).0,
            WatchEvent::Ended(Err(second)),
        ).2 is None,
{
}

/// After a stream ends cleanly, the next loss is reported again.
pub proof fn lemma_loss_reported_after_recovery(s: WatchState, error: String)
    ensures
        watch_transition(
            watch_transition(s, WatchEvent::Ended(Ok(()))).0,
            WatchEvent::Ended(Err(error)),
        ).2 == Some(lost_report(error@)),
{
}

// ------------------------------------------------------------------
// Small rules
// ------------------------------------------------------------------

/// `warp-cli registration new` fails this way while an old registration is
/// still in place; it is deleted and the registration retried.
pub fn registration_is_stale(error: &str) -> (res: bool)
    ensures
        res == contains_text(error@, "still around"@),
{
    let e = chars_of(error);
    let p = chars_of("still around");
    find_exec(e.as_slice(), p.as_slice()).is_some()
}

/// What a standby request asks for.
#[derive(Debug, Clone)]
pub enum Standby {
    /// Disconnect WARP altogether.
    Disconnect,
    /// Stay connected in this mode.
    Mode(String),
}

/// `off` means disconnect; anything else is the mode to stand by in.
/// Surrounding whitespace is ignored.
pub fn plan_standby(standby: &str) -> (res: Standby)
    ensures
        trim(standby@) == "off"@ ==> res is Disconnect,
        trim(standby@) != "off"@ ==> (res matches Standby::Mode(m) && m@ == trim(standby@)),
{
    let t = trim_chars(chars_of(standby).as_slice());
    let off = chars_of("off");
    if same_chars(t.as_slice(), off.as_slice()) {
        Standby::Disconnect
    } else {
        Standby::Mode(string_of(t.as_slice()))
    }
}

/// The mode an automatic or tray reset reconnects with: the stored connect
/// mode, else the mode WARP reports, else `warp`.
pub fn reset_mode(stored: Option<String>, reported: Result<String, String>) -> (res: String)
    ensures
        stored matches Some(s) ==> res@ == s@,
        stored is None && reported is Ok ==> res@ == reported->Ok_0@,
        stored is None && reported is Err ==> res@ == "warp"@,
{
    match stored {
        Some(s) => s,
        None => match reported {
            Ok(m) => m,
            Err(_) => String::from_str("warp"),
        },
    }
}

/// What becomes of exit-IP history found in the vault.
#[derive(Debug, Clone)]
pub enum HistoryMigration {
    /// The vault holds no history.
    Nothing,
    /// The settings store already has a history; the vault's is dropped.
    Discard,
    /// The vault's history moves to the empty settings store.
    Move(Vec<SealedEntry>),
}

/// Moves history out of the vault: the vault keeps its log but no history,
/// and its history goes to the settings store when that has none.
pub fn plan_history_migration(data: &mut VaultData, stored_is_empty: bool) -> (res: HistoryMigration)
    ensures
        final(data).lines@ == old(data).lines@,
        old(data).history@.len() == 0 ==> res is Nothing && final(data).history@ == old(
            data,
        ).history@,
        old(data).history@.len() > 0 ==> final(data).history@.len() == 0,
        old(data).history@.len() > 0 && !stored_is_empty ==> res is Discard,
        old(data).history@.len() > 0 && stored_is_empty ==> (res matches HistoryMigration::Move(
            h,
        ) && h@ == old(data).history@),
{
    if data.history.len() == 0 {
        return HistoryMigration::Nothing;
    }
    let moved = data.history.split_off(0);
    if stored_is_empty {
        HistoryMigration::Move(moved)
    } else {
        HistoryMigration::Discard
    }
}

/// Whether a lookup result is an address worth recording.
pub fn is_recordable_ip(ip: &str) -> (res: bool)
    ensures
        res == (ip@.len() > 0 && ip@ != unreachable_text()),
{
    let c = chars_of(ip);
    let unr = vec!['u', 'n', 'r', 'e', 'a', 'c', 'h', 'a', 'b', 'l', 'e'];
    assert(unr@ == unreachable_text());
    c.len() > 0 && !same_chars(c.as_slice(), unr.as_slice())
}

/// The exit IP to show: the address found, or `unreachable` when every
/// lookup failed.
pub fn exit_ip_or_unreachable(found: Option<String>) -> (res: String)
    ensures
        found matches Some(ip) ==> res@ == ip@,
        found is None ==> res@ == unreachable_text(),
{
    match found {
        Some(ip) => ip,
        None => {
            let v = vec!['u', 'n', 'r', 'e', 'a', 'c', 'h', 'a', 'b', 'l', 'e'];
            string_of(v.as_slice())
        },
    }
}

/// The exit IP to report: the Cloudflare trace's address, else the plain
/// lookup's, else `unreachable`.
pub fn choose_exit_ip(trace: Option<String>, plain: Option<String>) -> (res: String)
    ensures
        trace matches Some(ip) ==> res@ == ip@,
        trace is None ==> (plain matches Some(ip) ==> res@ == ip@),
        trace is None && plain is None ==> res@ == unreachable_text(),
{
    match trace {
        Some(ip) => ip,
        None => exit_ip_or_unreachable(plain),
    }
}

/// The autostart entry is stale when, ignoring case, it does not mention
/// the running executable.
pub fn autostart_entry_stale(stored: &str, current_exe: &str) -> (res: bool)
    ensures
        res == !contains_text(lowercase(stored@), lowercase(current_exe@)),
{
    let s = to_lower(stored);
    let c = to_lower(current_exe);
    let sc = chars_of(s.as_str());
    let cc = chars_of(c.as_str());
    find_exec(sc.as_slice(), cc.as_slice()).is_none()
}

// ------------------------------------------------------------------
// Main window
// ------------------------------------------------------------------

/// Of the open main windows, the one to keep and show: the first visible
/// one, or the first one when none is visible; `None` when there is none.
/// Every other main window is closed.
pub fn pick_main_window(visible: &[bool]) -> (res: Option<usize>)
    ensures
        res is None <==> visible@.len() == 0,
        res matches Some(i) ==> i < visible@.len(),
        res matches Some(i) ==> (visible@.contains(true) ==> visible@[i as int] && forall|k: int|
            0 <= k < i ==> !#[trigger] visible@[k]),
        res matches Some(i) ==> (!visible@.contains(true) ==> i == 0),
{
    if visible.len() == 0 {
        return None;
    }
    let mut i: usize = 0;
    while i < visible.len()
        invariant
            i <= visible@.len(),
            forall|k: int| 0 <= k < i ==> !#[trigger] visible@[k],
        decreases visible.len() - i,
    {
        if visible[i] {
            return Some(i);
        }
        i = i + 1;
    }
    assert(!visible@.contains(true));
    Some(0)
}

// ------------------------------------------------------------------
// Reset plans
// ------------------------------------------------------------------

/// One step of a reset.
#[derive(Debug, Clone)]
pub enum ResetStep {
    /// Report progress.
    Say(String),
    /// Run `warp-cli` with these arguments; a failure ends the reset.
    Run(Vec<String>),
    /// Wait this many milliseconds.
    Pause(u64),
    /// Register a new tunnel, clearing a stale registration when needed; a
    /// failure ends the reset.
    Register,
    /// Switch WARP to this mode; a failure ends the reset.
    SetMode(String),
}

/// A reset step as the contracts see it.
pub enum StepView {
    Say(Seq<char>),
    Run(Seq<Seq<char>>),
    Pause(u64),
    Register,
    SetMode(Seq<char>),
}

pub open spec fn step_view(s: ResetStep) -> StepView {
    match s {
        ResetStep::Say(m) => StepView::Say(m@),
        ResetStep::Run(args) => StepView::Run(string_views(args@)),
        ResetStep::Pause(ms) => StepView::Pause(ms),
        ResetStep::Register => StepView::Register,
        ResetStep::SetMode(m) => StepView::SetMode(m@),
    }
}

pub open spec fn step_views(v: Seq<ResetStep>) -> Seq<StepView> {
    Seq::new(v.len(), |i: int| step_view(v[i]))
}

/// Switching to `mode` and connecting, as both resets end.
pub open spec fn connect_steps(mode: Seq<char>) -> Seq<StepView> {
    seq![
        StepView::Say("setting mode to "@ + mode + "\u{2026}"@),
        StepView::SetMode(mode),
        StepView::Say("connecting\u{2026}"@),
        StepView::Run(seq!["connect"@]),
    ]
}

/// A quick reset: disconnect, register a new tunnel, reconnect in `mode`.
pub open spec fn quick_reset_steps(mode: Seq<char>) -> Seq<StepView> {
    seq![
        StepView::Say("[1/3] disconnecting\u{2026}"@),
        StepView::Run(seq!["disconnect"@]),
        StepView::Pause(1000),
        StepView::Say("[2/3] registering new tunnel\u{2026}"@),
        StepView::Register,
        StepView::Pause(1000),
        StepView::Say("[3/3] connecting\u{2026}"@),
    ] + connect_steps(mode) + seq![StepView::Say("quick reset complete"@)]
}

/// A full reset: disconnect, delete the registration, register a new
/// tunnel, reconnect in `mode`.
pub open spec fn full_reset_steps(mode: Seq<char>) -> Seq<StepView> {
    seq![
        StepView::Say("[1/4] disconnecting\u{2026}"@),
        StepView::Run(seq!["disconnect"@]),
        StepView::Pause(1000),
        StepView::Say("[2/4] deleting registration\u{2026}"@),
        StepView::Run(seq!["registration"@, "delete"@]),
        StepView::Pause(500),
        StepView::Say("[3/4] registering new tunnel\u{2026}"@),
        StepView::Register,
        StepView::Pause(1000),
        StepView::Say("[4/4] connecting\u{2026}"@),
    ] + connect_steps(mode) + seq![StepView::Say("full reset complete"@)]
}

/// The message a finished reset reports.
pub open spec fn reset_done_text(full: bool) -> Seq<char> {
    if full {
        "full reset complete"@
    } else {
        "quick reset complete"@
    }
}

fn say(text: &str) -> (res: ResetStep)
    ensures
        step_view(res) == StepView::Say(text@),
{
    ResetStep::Say(String::from_str(text))
}

fn run_one(a: &str) -> (res: ResetStep)
    ensures
        step_view(res) == StepView::Run(seq![a@]),
{
    let mut v: Vec<String> = Vec::new();
    v.push(String::from_str(a));
    assert(string_views(v@) =~= seq![a@]);
    ResetStep::Run(v)
}

fn run_two(a: &str, b: &str) -> (res: ResetStep)
    ensures
        step_view(res) == StepView::Run(seq![a@, b@]),
{
    let mut v: Vec<String> = Vec::new();
    v.push(String::from_str(a));
    v.push(String::from_str(b));
    assert(string_views(v@) =~= seq![a@, b@]);
    ResetStep::Run(v)
}

/// The steps of a reset that reconnects in `mode`: a full reset when `full`,
/// else a quick one.
pub fn reset_plan(full: bool, mode: &str) -> (res: Vec<ResetStep>)
    ensures
        step_views(res@) == if full {
            full_reset_steps(mode@)
        } else {
            quick_reset_steps(mode@)
        },
{
    let mut v: Vec<ResetStep> = Vec::new();
    let n: &str = if full { "[1/4] disconnecting\u{2026}" } else { "[1/3] disconnecting\u{2026}" };
    v.push(say(n));
    v.push(run_one("disconnect"));
    v.push(ResetStep::Pause(1000));
    if full {
        v.push(say("[2/4] deleting registration\u{2026}"));
        v.push(run_two("registration", "delete"));
        v.push(ResetStep::Pause(500));
        v.push(say("[3/4] registering new tunnel\u{2026}"));
    } else {
        v.push(say("[2/3] registering new tunnel\u{2026}"));
    }
    v.push(ResetStep::Register);
    v.push(ResetStep::Pause(1000));
    v.push(say(if full { "[4/4] connecting\u{2026}" } else { "[3/3] connecting\u{2026}" }));
    let mut m = String::from_str("setting mode to ");
    m.append(mode);
    m.append("\u{2026}");
    v.push(ResetStep::Say(m));
    v.push(ResetStep::SetMode(String::from_str(mode)));
    v.push(say("connecting\u{2026}"));
    v.push(run_one("connect"));
    v.push(say(if full { "full reset complete" } else { "quick reset complete" }));
    assert(step_views(v@) =~~= if full {
        full_reset_steps(mode@)
    } else {
        quick_reset_steps(mode@)
    });
    v
}

/// What a finished reset reports.
pub fn reset_done(full: bool) -> (res: String)
    ensures
        res@ == reset_done_text(full),
{
    if full {
        String::from_str("full reset complete")
    } else {
        String::from_str("quick reset complete")
    }
}

/// The steps that act on WARP: all but progress reports and pauses.
pub open spec fn actions(steps: Seq<StepView>) -> Seq<StepView>
    decreases steps.len(),
{
    if steps.len() == 0 {
        Seq::empty()
    } else {
        let front = actions(steps.drop_last());
        match steps.last() {
            StepView::Say(_) => front,
            StepView::Pause(_) => front,
            _ => front.push(steps.last()),
        }
    }
}

/// Both resets disconnect, register a new tunnel, switch to the chosen mode
/// and connect, in that order; a full reset also deletes the registration
/// right after disconnecting. Both end by reporting that they are complete.
pub proof fn lemma_reset_actions(mode: Seq<char>)
    ensures
        actions(quick_reset_steps(mode)) == seq![
            StepView::Run(seq!["disconnect"@]),
            StepView::Register,
            StepView::SetMode(mode),
            StepView::Run(seq!["connect"@]),
        ],
        actions(full_reset_steps(mode)) == seq![
            StepView::Run(seq!["disconnect"@]),
            StepView::Run(seq!["registration"@, "delete"@]),
            StepView::Register,
            StepView::SetMode(mode),
            StepView::Run(seq!["connect"@]),
        ],
        quick_reset_steps(mode).last() == StepView::Say(reset_done_text(false)),
        full_reset_steps(mode).last() == StepView::Say(reset_done_text(true)),
{
    reveal_with_fuel(actions, 16);
    let q = quick_reset_steps(mode);
    let f = full_reset_steps(mode);
    assert(q.len() == 12);
    assert(f.len() == 15);
    assert(actions(q) =~~= seq![
        StepView::Run(seq!["disconnect"@]),
        StepView::Register,
        StepView::SetMode(mode),
        StepView::Run(seq!["connect"@]),
    ]);
    assert(actions(f) =~~= seq![
        StepView::Run(seq!["disconnect"@]),
        StepView::Run(seq!["registration"@, "delete"@]),
        StepView::Register,
        StepView::SetMode(mode),
        StepView::Run(seq!["connect"@]),
    ]);
}

} // verus!
