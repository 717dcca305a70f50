//! What the watcher answers to those who call it: its configuration and
//! statistics as callers see them, and its answers to calls that come the wrong
//! way.

use vstd::prelude::*;
use vstd::string::*;

use crate::model::{
    copy_text, copy_texts, text_of, texts, ConfigView, StatsView, StoredConfig, StoredStats,
};
use crate::state::{
    clear_snapshot, configure_writes, load_stats, result_view, stats_or_zero, view_of,
    write_views, writes_start, StateWrite, StateWrites,
};
use crate::text::{decimal, push_decimal, same_text};

verus! {

/// A configuration, as a caller gives it.
#[derive(Debug)]
pub struct WatcherConfig {
    pub watch_path: String,
    pub stream_name: String,
    pub recursive: bool,
    pub include_hidden: bool,
    pub emit_existing_on_start: bool,
    pub extensions: Vec<String>,
}

impl View for WatcherConfig {
    type V = ConfigView;

    open spec fn view(&self) -> ConfigView {
        ConfigView {
            watch_path: self.watch_path@,
            stream_name: self.stream_name@,
            recursive: self.recursive,
            include_hidden: self.include_hidden,
            emit_existing_on_start: self.emit_existing_on_start,
            extensions: texts(self.extensions@),
        }
    }
}

/// Statistics, as a caller sees them.
#[derive(Debug)]
pub struct WatcherStats {
    pub ticks: u64,
    pub scans: u64,
    pub files_seen_total: u64,
    pub changes_detected_total: u64,
    pub events_emitted_total: u64,
    pub last_scan_at: Option<String>,
    pub last_error: Option<String>,
    pub last_scan_duration_ms: Option<u64>,
}

impl View for WatcherStats {
    type V = StatsView;

    open spec fn view(&self) -> StatsView {
        StatsView {
            ticks: self.ticks,
            scans: self.scans,
            files_seen_total: self.files_seen_total,
            changes_detected_total: self.changes_detected_total,
            events_emitted_total: self.events_emitted_total,
            last_scan_at: text_of(self.last_scan_at),
            last_error: text_of(self.last_error),
            last_scan_duration_ms: self.last_scan_duration_ms,
        }
    }
}

/// The configuration to store: the one that the caller gave.
pub fn contract_to_stored_config(config: &WatcherConfig) -> (stored: StoredConfig)
    ensures
        stored@ == config@,
        stored.watch_path@ == config.watch_path@,
        stored.stream_name@ == config.stream_name@,
        stored.recursive == config.recursive,
        stored.include_hidden == config.include_hidden,
        stored.emit_existing_on_start == config.emit_existing_on_start,
{
    StoredConfig {
        watch_path: config.watch_path.clone(),
        stream_name: config.stream_name.clone(),
        recursive: config.recursive,
        include_hidden: config.include_hidden,
        emit_existing_on_start: config.emit_existing_on_start,
        extensions: copy_texts(&config.extensions),
    }
}

/// The statistics to show: those that are stored.
pub fn stored_to_contract_stats(stored: &StoredStats) -> (stats: WatcherStats)
    ensures
        stats@ == stored@,
        stats.ticks == stored.ticks,
        stats.scans == stored.scans,
        stats.files_seen_total == stored.files_seen_total,
        stats.changes_detected_total == stored.changes_detected_total,
        stats.events_emitted_total == stored.events_emitted_total,
        stats.last_scan_duration_ms == stored.last_scan_duration_ms,
{
    WatcherStats {
        ticks: stored.ticks,
        scans: stored.scans,
        files_seen_total: stored.files_seen_total,
        changes_detected_total: stored.changes_detected_total,
        events_emitted_total: stored.events_emitted_total,
        last_scan_at: copy_text(&stored.last_scan_at),
        last_error: copy_text(&stored.last_error),
        last_scan_duration_ms: stored.last_scan_duration_ms,
    }
}

/// The writes that configure the watcher.
pub fn control_configure(config: &WatcherConfig, reset_snapshot: bool) -> (state: StateWrites)
    ensures
        state@ == writes_start(configure_writes(config@, reset_snapshot)),
{
    let mut writes: Vec<StateWrite> = Vec::new();
    writes.push(StateWrite::Config(contract_to_stored_config(config)));
    if reset_snapshot {
        writes.push(clear_snapshot());
    }
    assert(write_views(writes@) =~= configure_writes(config@, reset_snapshot));
    StateWrites::new(writes)
}

/// The answer to a caller who configured the watcher: the configuration that came,
/// or the failure of the writes.
pub fn configure_reply(config: WatcherConfig, written: Result<(), String>) -> (reply: Result<
    WatcherConfig,
    String,
>)
    ensures
        match result_view(written) {
            Ok(_) => reply matches Ok(echo) && echo@ == config@,
            Err(error) => reply matches Err(text) && text@ == error,
        },
{
    match written {
        Ok(_) => Ok(config),
        Err(error) => Err(error),
    }
}

/// The statistics to show, from what is stored.
pub fn control_status(stored: Option<StoredStats>) -> (stats: WatcherStats)
    ensures
        stats@ == stats_or_zero(view_of(stored)),
{
    stored_to_contract_stats(&load_stats(stored))
}

/// How the watcher fares.
#[derive(Debug, Clone, Copy, PartialEq, Eq, Structural)]
pub enum HealthStatus {
    Healthy,
    Degraded,
    Unhealthy,
}

/// How the watcher fares, and why it says so.
#[derive(Debug)]
pub struct ChildHealth {
    pub status: HealthStatus,
    pub reason: Option<String>,
}

/// A summary of statistics.
pub open spec fn health_text(stats: StatsView) -> Seq<char> {
    "scans="@ + decimal(stats.scans as nat) + " emitted="@ + decimal(
        stats.events_emitted_total as nat,
    ) + " last_error="@ + match stats.last_error {
        Some(error) => error,
        None => "none"@,
    }
}

/// How the watcher fares: it is healthy, with a summary of its statistics.
pub fn health(stored: Option<StoredStats>) -> (health: ChildHealth)
    ensures
        health.status == HealthStatus::Healthy,
        view_of(health.reason) == Some(health_text(stats_or_zero(view_of(stored)))),
{
    let stats = load_stats(stored);
    let mut reason = "scans=".to_string();
    push_decimal(&mut reason, stats.scans);
    reason.append(" emitted=");
    push_decimal(&mut reason, stats.events_emitted_total);
    reason.append(" last_error=");
    match stats.last_error {
        Some(error) => {
            reason.append(error.as_str());
        },
        None => {
            reason.append("none");
        },
    }
    ChildHealth { status: HealthStatus::Healthy, reason: Some(reason) }
}

/// The typed operation to call for an action. An unknown one is sent to the
/// status.
pub open spec fn operation_for(action: Seq<char>) -> Seq<char> {
    if action == "configure"@ {
        "patina:watch/control@0.1.0.configure"@
    } else if action == "scan-now"@ {
        "patina:watch/control@0.1.0.scan-now"@
    } else if action == "reset"@ {
        "patina:watch/control@0.1.0.reset"@
    } else {
        "patina:watch/control@0.1.0.status"@
    }
}

/// The answer to an action that came untyped: which operation to call instead.
pub open spec fn untyped_refusal(action: Seq<char>) -> Seq<char> {
    "folder-watch-actor: handle business ingress is disabled; call '"@ + action
        + "' via typed ingress (e.g. `patina child call folder-watch-actor "@ + operation_for(
        action,
    ) + " '[]'`)"@
}

/// The answer to an action that came untyped. It is always refused.
pub fn handle_business_ingress_disabled(action: &str) -> (answer: Result<String, String>)
    ensures
        answer matches Err(text) && text@ == untyped_refusal(action@),
{
    let operation = if same_text(action, "configure") {
        "patina:watch/control@0.1.0.configure"
    } else if same_text(action, "scan-now") {
        "patina:watch/control@0.1.0.scan-now"
    } else if same_text(action, "reset") {
        "patina:watch/control@0.1.0.reset"
    } else {
        "patina:watch/control@0.1.0.status"
    };
    let mut text = "folder-watch-actor: handle business ingress is disabled; call '".to_string();
    text.append(action);
    text.append("' via typed ingress (e.g. `patina child call folder-watch-actor ");
    text.append(operation);
    text.append(" '[]'`)");
    Err(text)
}

/// To each action that the watcher has, the answer names the operation of that name.
pub proof fn law_operation_has_the_name_of_the_action(action: Seq<char>)
    requires
        action == "configure"@ || action == "status"@ || action == "scan-now"@ || action
            == "reset"@,
    ensures
        operation_for(action) == "patina:watch/control@0.1.0."@ + action,
{
    reveal_strlit("configure");
    reveal_strlit("status");
    reveal_strlit("scan-now");
    reveal_strlit("reset");
    reveal_strlit("patina:watch/control@0.1.0.");
    reveal_strlit("patina:watch/control@0.1.0.configure");
    reveal_strlit("patina:watch/control@0.1.0.status");
    reveal_strlit("patina:watch/control@0.1.0.scan-now");
    reveal_strlit("patina:watch/control@0.1.0.reset");
    assert("configure"@.len() == 9 && "scan-now"@.len() == 8 && "reset"@.len() == 5);
    assert("status"@.len() == 6);
    assert(operation_for(action) =~= "patina:watch/control@0.1.0."@ + action);
}

/// The view of a configuration that a caller gives has each of its parts.
pub proof fn law_view_of_a_given_configuration(config: WatcherConfig)
    ensures
        config@.watch_path == config.watch_path@,
        config@.stream_name == config.stream_name@,
        config@.recursive == config.recursive,
        config@.include_hidden == config.include_hidden,
        config@.emit_existing_on_start == config.emit_existing_on_start,
        config@.extensions.len() == config.extensions@.len(),
        forall|i: int|
            0 <= i < config.extensions@.len() ==> #[trigger] config@.extensions[i] == config.extensions@[i]@,
{
}

/// The view of statistics that a caller sees has each of their parts.
pub proof fn law_view_of_shown_statistics(stats: WatcherStats)
    ensures
        stats@.ticks == stats.ticks,
        stats@.scans == stats.scans,
        stats@.files_seen_total == stats.files_seen_total,
        stats@.changes_detected_total == stats.changes_detected_total,
        stats@.events_emitted_total == stats.events_emitted_total,
        stats@.last_scan_duration_ms == stats.last_scan_duration_ms,
        stats.last_scan_at matches Some(text) ==> stats@.last_scan_at == Some(text@),
        stats.last_scan_at is None ==> stats@.last_scan_at is None,
        stats.last_error matches Some(text) ==> stats@.last_error == Some(text@),
        stats.last_error is None ==> stats@.last_error is None,
{
}

/// The summary of statistics has the number of scans, the number of events, and the last
/// failure or `none`.
pub proof fn law_health_sums_up(stats: StatsView)
    ensures
        stats.last_error matches Some(error) ==> health_text(stats) == "scans="@ + decimal(
            stats.scans as nat,
        ) + " emitted="@ + decimal(stats.events_emitted_total as nat) + " last_error="@ + error,
        stats.last_error is None ==> health_text(stats) == "scans="@ + decimal(stats.scans as nat)
            + " emitted="@ + decimal(stats.events_emitted_total as nat) + " last_error="@
            + "none"@,
{
}

/// An untyped action is refused with its name and the operation to call instead, which
/// is that of the status for an action that the watcher does not have.
pub proof fn law_refusal_names_the_action(action: Seq<char>)
    ensures
        untyped_refusal(action)
            == "folder-watch-actor: handle business ingress is disabled; call '"@ + action
            + "' via typed ingress (e.g. `patina child call folder-watch-actor "@ + operation_for(
            action,
        ) + " '[]'`)"@,
        action != "configure"@ && action != "scan-now"@ && action != "reset"@ ==> operation_for(
            action,
        ) == "patina:watch/control@0.1.0.status"@,
{
}

} // verus!
