use mariadb_operator_backup_metrics::Backup;
use mariadb_operator_backup_metrics::BackupCondition;
use mariadb_operator_backup_metrics::BackupSpec;
use mariadb_operator_backup_metrics::BackupStatus;
use mariadb_operator_backup_metrics::MariaDbRef;
use mariadb_operator_backup_metrics::cache::ResourceCache;
use mariadb_operator_backup_metrics::health::AppHealth;
use mariadb_operator_backup_metrics::metrics::MetricCache;
use mariadb_operator_backup_metrics::watch::WatchEvent;
use mariadb_operator_backup_metrics::watch::bootstrap;
use mariadb_operator_backup_metrics::watch::handle_event;

fn cond(
    type_: &str,
    status: &str,
    reason: Option<&str>,
    message: Option<&str>,
    ltt: Option<&str>,
) -> BackupCondition {
    BackupCondition {
        last_transition_time: ltt.map(|s| s.to_owned()),
        message: message.map(|s| s.to_owned()),
        reason: reason.map(|s| s.to_owned()),
        status: status.to_owned(),
        type_: type_.to_owned(),
    }
}

fn backup(name: &str, conditions: Option<Vec<BackupCondition>>) -> Backup {
    Backup {
        name: name.to_owned(),
        spec_: BackupSpec {
            databases: None,
            maria_db_ref: MariaDbRef { name: "db".to_owned(), namespace: None },
        },
        status: conditions.map(|c| BackupStatus { conditions: Some(c) }),
    }
}

fn status_line<'a>(rendered: &'a str, resource: &str) -> Option<&'a str> {
    let prefix = format!("backup_last_run_status{{name=\"{}\"", resource);
    rendered.lines().find(|l| l.starts_with(&prefix))
}

#[test]
fn derived_status_success() {
    let st = BackupStatus {
        conditions: Some(vec![cond("Complete", "True", Some("Completed"), None, None)]),
    };
    assert!(st.success());
    assert!(!st.scheduled());
    assert!(!st.running());
    assert!(!st.failed());
    assert_eq!(st.reason(), Some("Completed".to_owned()));
}

#[test]
fn derived_status_scheduled_and_running() {
    let sch = BackupStatus {
        conditions: Some(vec![cond("Complete", "False", None, Some("Scheduled"), None)]),
    };
    assert!(sch.scheduled());
    assert!(!sch.running());
    assert!(!sch.failed());
    let run = BackupStatus {
        conditions: Some(vec![cond("Complete", "False", None, Some("Running"), None)]),
    };
    assert!(run.running());
    assert!(!run.scheduled());
    assert!(!run.failed());
}

#[test]
fn derived_status_catch_all_failed() {
    let none = BackupStatus { conditions: None };
    assert!(none.failed());
    assert_eq!(none.reason(), None);
    let unknown = BackupStatus {
        conditions: Some(vec![cond("Complete", "Unknown", None, None, None)]),
    };
    assert!(unknown.failed());
    let other = BackupStatus {
        conditions: Some(vec![cond("Ready", "True", None, None, None)]),
    };
    assert!(other.failed());
    assert_eq!(other.reason(), None);
}

#[test]
fn reason_takes_first_complete_condition() {
    let st = BackupStatus {
        conditions: Some(vec![
            cond("Ready", "True", Some("Ignored"), None, None),
            cond("Complete", "False", Some("First"), Some("Running"), None),
            cond("Complete", "True", Some("Second"), None, None),
        ]),
    };
    assert_eq!(st.reason(), Some("First".to_owned()));
}

#[test]
fn last_run_reads_transition_text() {
    let st = BackupStatus {
        conditions: Some(vec![cond(
            "Complete",
            "True",
            Some("Completed"),
            None,
            Some("2024-01-01T00:00:00Z"),
        )]),
    };
    assert_eq!(st.last_run(), Some(1704067200));
    let bad = BackupStatus {
        conditions: Some(vec![cond("Complete", "True", None, None, Some("yesterday"))]),
    };
    assert_eq!(bad.last_run(), None);
}

// Success derives value 1; the catch-all derives value 0.
#[test]
fn status_metric_values() {
    let mut cache = ResourceCache::new();
    let mut metrics = MetricCache::new();
    cache.upsert(backup(
        "good",
        Some(vec![cond("Complete", "True", Some("Completed"), None, None)]),
    ));
    cache.upsert(backup(
        "bad",
        Some(vec![cond("Complete", "Unknown", None, None, None)]),
    ));
    metrics.generate(&cache);
    let rendered = metrics.rendered();
    assert!(rendered.contains("backup_last_run_status{name=\"good\",reason=\"Completed\"} 1\n"));
    assert!(rendered.contains("backup_last_run_status{name=\"bad\",reason=\"Unknown\"} 0\n"));
}

// A record without a status is skipped, not errored.
#[test]
fn record_without_status_is_skipped() {
    let mut cache = ResourceCache::new();
    let mut metrics = MetricCache::new();
    cache.upsert(backup("silent", None));
    metrics.generate(&cache);
    assert_eq!(metrics.rendered(), "");
}

// Rendering is a pure function of the mapping: a no-op regeneration
// reproduces the text byte for byte.
#[test]
fn rendering_is_deterministic() {
    let mut cache = ResourceCache::new();
    let mut metrics = MetricCache::new();
    cache.upsert(backup(
        "a",
        Some(vec![cond("Complete", "True", Some("Completed"), None, None)]),
    ));
    cache.upsert(backup(
        "b",
        Some(vec![cond("Complete", "False", Some("Wait"), Some("Running"), None)]),
    ));
    metrics.generate(&cache);
    let first = metrics.rendered();
    metrics.generate(&cache);
    let second = metrics.rendered();
    assert_eq!(first, second);
}

// A tick at T keeps health true strictly before T + 60 and false from it on.
#[test]
fn health_window() {
    let mut health = AppHealth::new();
    assert!(!health.is_healthy_at(0));
    assert!(!health.is_healthy_at(1_000_000));
    health.record_tick(1000);
    assert!(health.is_healthy_at(1000));
    assert!(health.is_healthy_at(1059));
    assert!(!health.is_healthy_at(1060));
    assert!(!health.is_healthy_at(2000));
}

#[test]
fn health_update_uses_clock() {
    let mut health = AppHealth::new();
    assert!(!health.is_healthy());
    health.update();
    assert!(health.is_healthy());
}

// Upserting one name twice leaves exactly one entry, with the latest status.
#[test]
fn upsert_last_wins() {
    let mut cache = ResourceCache::new();
    cache.upsert(backup(
        "backup-a",
        Some(vec![cond("Complete", "True", Some("Completed"), None, None)]),
    ));
    cache.upsert(backup(
        "backup-a",
        Some(vec![cond("Complete", "Unknown", Some("Failed"), None, None)]),
    ));
    assert_eq!(cache.len(), 1);
    assert!(cache.get(0).status.as_ref().unwrap().failed());
}

// Scenario: empty cluster at startup renders empty text; health stays false.
#[test]
fn empty_cluster_at_startup() {
    let mut cache = ResourceCache::new();
    let mut metrics = MetricCache::new();
    let health = AppHealth::new();
    bootstrap(&mut cache, &mut metrics, Vec::new());
    assert_eq!(metrics.rendered(), "");
    assert_eq!(cache.len(), 0);
    assert!(!health.is_healthy_at(0));
    assert!(!health.is_healthy_at(61));
}

// Scenario: one successful resource appears, then a tick fires.
#[test]
fn successful_resource_after_tick() {
    let mut cache = ResourceCache::new();
    let mut metrics = MetricCache::new();
    let mut health = AppHealth::new();
    handle_event(
        &mut cache,
        &mut metrics,
        &mut health,
        WatchEvent::Resource(backup(
            "nightly",
            Some(vec![cond("Complete", "True", Some("Completed"), None, None)]),
        )),
    );
    assert_eq!(metrics.rendered(), "");
    handle_event(&mut cache, &mut metrics, &mut health, WatchEvent::Tick(500));
    let rendered = metrics.rendered();
    assert!(rendered.contains("backup_last_run_status{name=\"nightly\",reason=\"Completed\"} 1"));
    assert!(rendered.contains("# TYPE backup_last_run_status gauge\n"));
    assert_eq!(health.last_run, Some(500));
}

// Scenario: the resource later reports Running; the status value is retained.
#[test]
fn running_transition_retains_value() {
    let mut cache = ResourceCache::new();
    let mut metrics = MetricCache::new();
    let mut health = AppHealth::new();
    handle_event(
        &mut cache,
        &mut metrics,
        &mut health,
        WatchEvent::Resource(backup(
            "nightly",
            Some(vec![cond("Complete", "True", Some("Completed"), None, None)]),
        )),
    );
    handle_event(&mut cache, &mut metrics, &mut health, WatchEvent::Tick(500));
    handle_event(
        &mut cache,
        &mut metrics,
        &mut health,
        WatchEvent::Resource(backup(
            "nightly",
            Some(vec![cond("Complete", "False", Some("Started"), Some("Running"), None)]),
        )),
    );
    handle_event(&mut cache, &mut metrics, &mut health, WatchEvent::Tick(510));
    let rendered = metrics.rendered();
    let line = status_line(&rendered, "nightly").expect("status line present");
    assert!(line.ends_with(" 1"));
}

// Scenario: the stream stays broken for 70 seconds; health turns false at
// the 60-second mark while the last snapshot is still served.
#[test]
fn stalled_stream_goes_unhealthy_and_serves_last_snapshot() {
    let mut cache = ResourceCache::new();
    let mut metrics = MetricCache::new();
    let mut health = AppHealth::new();
    handle_event(
        &mut cache,
        &mut metrics,
        &mut health,
        WatchEvent::Resource(backup(
            "nightly",
            Some(vec![cond("Complete", "True", Some("Completed"), None, None)]),
        )),
    );
    let tick_at = 10_000;
    handle_event(&mut cache, &mut metrics, &mut health, WatchEvent::Tick(tick_at));
    let snapshot = metrics.rendered();
    assert!(!snapshot.is_empty());
    let mut t = tick_at;
    while t < tick_at + 70 {
        if t - tick_at < 60 {
            assert!(health.is_healthy_at(t));
        } else {
            assert!(!health.is_healthy_at(t));
        }
        assert_eq!(metrics.rendered(), snapshot);
        t += 1;
    }
    assert!(!health.is_healthy_at(tick_at + 70));
}

// The timestamp gauge appears only on success, carrying the parsed time.
#[test]
fn timestamp_metric_on_success() {
    let mut cache = ResourceCache::new();
    let mut metrics = MetricCache::new();
    cache.upsert(backup(
        "nightly",
        Some(vec![cond(
            "Complete",
            "True",
            Some("Completed"),
            None,
            Some("2024-01-01T00:00:00Z"),
        )]),
    ));
    metrics.generate(&cache);
    let rendered = metrics.rendered();
    assert!(rendered.contains("# TYPE backup_last_run_timestamp gauge\n"));
    assert!(rendered.contains("backup_last_run_timestamp{name=\"nightly\"} 1704067200\n"));
}

#[test]
fn no_timestamp_metric_without_success() {
    let mut cache = ResourceCache::new();
    let mut metrics = MetricCache::new();
    cache.upsert(backup(
        "nightly",
        Some(vec![cond("Complete", "Unknown", None, None, Some("2024-01-01T00:00:00Z"))]),
    ));
    metrics.generate(&cache);
    assert!(!metrics.rendered().contains("backup_last_run_timestamp"));
}

// Bootstrap lists every resource and regenerates once from the snapshot.
#[test]
fn bootstrap_from_listing() {
    let mut cache = ResourceCache::new();
    let mut metrics = MetricCache::new();
    bootstrap(
        &mut cache,
        &mut metrics,
        vec![
            backup("one", Some(vec![cond("Complete", "True", Some("Completed"), None, None)])),
            backup("two", Some(vec![cond("Complete", "Unknown", None, None, None)])),
        ],
    );
    assert_eq!(cache.len(), 2);
    let rendered = metrics.rendered();
    assert!(rendered.contains("backup_last_run_status{name=\"one\",reason=\"Completed\"} 1\n"));
    assert!(rendered.contains("backup_last_run_status{name=\"two\",reason=\"Unknown\"} 0\n"));
}
