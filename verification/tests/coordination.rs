//! Code tables, orchestrator decisions, progress arithmetic, and
//! configuration normalization.

use radius_logs::codes::{map_packet_type, map_reason, CodeTable};
use radius_logs::config::{clamp_window, toggle_column};
use radius_logs::orchestrator::{
    decode_progress, extract_progress, progress_step, BusyFlag, DebounceAction, SearchDebouncer,
    TailMonitor,
};
use radius_logs::text::clean_tr;
use radius_logs::transaction::LogColumn;

#[test]
fn packet_type_table() {
    assert_eq!(map_packet_type("1"), "Access-Request");
    assert_eq!(map_packet_type("2"), "Access-Accept");
    assert_eq!(map_packet_type("3"), "Access-Reject");
    assert_eq!(map_packet_type("4"), "Accounting-Request");
    assert_eq!(map_packet_type("5"), "Accounting-Response");
    assert_eq!(map_packet_type("11"), "Access-Challenge");
    assert_eq!(map_packet_type("9"), "Type 9");
}

#[test]
fn reason_lookup_and_fallback() {
    let mut table = CodeTable::new();
    table.add("16".to_string(), "Authentication failed".to_string());
    assert_eq!(map_reason(&table, "16"), "Authentication failed");
    assert_eq!(map_reason(&table, "42"), "Code 42");
    // A later entry overrides an earlier one for the same code.
    table.add("16".to_string(), "Bad credentials".to_string());
    assert_eq!(map_reason(&table, "16"), "Bad credentials");
}

#[test]
fn growth_trigger_fires_once() {
    let mut monitor = TailMonitor::new(100);
    // Unchanged size: no re-ingestion.
    assert!(!monitor.observe(100));
    // Strictly larger: exactly one re-ingestion.
    assert!(monitor.observe(150));
    assert!(!monitor.observe(150));
    // Shrinking never triggers.
    assert!(!monitor.observe(80));
    // A forced reset makes the next check re-ingest.
    monitor.reset();
    assert!(monitor.observe(80));
}

#[test]
fn growth_seen_while_busy_is_deferred() {
    let mut monitor = TailMonitor::new(100);
    // Growth during an ingestion does not launch a reload, and the stored
    // size is not advanced.
    assert!(!monitor.observe_busy(150, true));
    // The next idle check still triggers exactly one reload.
    assert!(monitor.observe_busy(150, false));
    assert!(!monitor.observe_busy(150, false));
    // An unchanged size never triggers, idle or busy.
    assert!(!monitor.observe_busy(150, true));
}

#[test]
fn busy_flag_excludes_overlapping_ingestions() {
    let mut busy = BusyFlag::new();
    assert!(busy.try_acquire());
    assert!(!busy.try_acquire());
    busy.release();
    assert!(busy.try_acquire());
}

#[test]
fn debouncer_coalesces_keystrokes() {
    let mut d = SearchDebouncer::new();
    assert_eq!(d.input_changed(), DebounceAction::RestartTimer);
    assert_eq!(d.input_changed(), DebounceAction::RestartTimer);
    assert_eq!(d.timer_elapsed(), DebounceAction::RunQuery);
    // A timer with nothing pending runs nothing.
    assert_eq!(d.timer_elapsed(), DebounceAction::Idle);
}

#[test]
fn progress_ranges() {
    assert_eq!(extract_progress(0, 200), 0);
    assert_eq!(extract_progress(100, 200), 25);
    assert_eq!(extract_progress(200, 200), 50);
    assert_eq!(decode_progress(0, 4), 50);
    assert_eq!(decode_progress(2, 4), 75);
    assert_eq!(decode_progress(4, 4), 100);
    assert_eq!(progress_step(1000), 10);
    assert_eq!(progress_step(12), 1);
}

#[test]
fn window_geometry_is_clamped() {
    assert_eq!(clamp_window(800, 600, 1920, 1080), (800, 600));
    assert_eq!(clamp_window(50, 600, 1920, 1080), (1000, 600));
    assert_eq!(clamp_window(800, 5000, 1920, 1080), (800, 700));
    assert_eq!(clamp_window(2500, 20, 1920, 1080), (1000, 700));
}

#[test]
fn toggling_columns() {
    let all = LogColumn::all();
    // Hiding one column keeps the others in order.
    let without_user = toggle_column(&all, LogColumn::User);
    assert_eq!(without_user.len(), all.len() - 1);
    assert!(!without_user.contains(&LogColumn::User));
    // Toggling it back restores the canonical position.
    let restored = toggle_column(&without_user, LogColumn::User);
    assert_eq!(restored, all);
    // The last visible column cannot be hidden.
    let only_one = vec![LogColumn::Mac];
    assert_eq!(toggle_column(&only_one, LogColumn::Mac), only_one);
}

#[test]
fn ftl_keys_name_their_columns() {
    assert_eq!(LogColumn::Timestamp.ftl_key(), "col-timestamp");
    assert_eq!(LogColumn::ResponseType.ftl_key(), "col-responsetype");
    assert_eq!(LogColumn::all().len(), 10);
}

#[test]
fn clean_tr_strips_isolate_marks() {
    let marked = "\u{2066}42\u{2069} records";
    assert_eq!(clean_tr(marked), "42 records");
    assert_eq!(clean_tr("plain"), "plain");
}
