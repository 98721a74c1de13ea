//! The registry directory's lifecycle on concrete records: registration,
//! lookups, heartbeats, partial updates, probing, and eviction.

use infini_svc::json::{parse_json_bytes, Json};
use infini_svc::registry::{
    histogram, Directory, HealthStatus, ServiceRecord, UpdateFields,
};

fn record(name: &str, port: u16, metadata: &[u8], now: u64) -> ServiceRecord {
    ServiceRecord::new(
        name.to_string(),
        "h".to_string(),
        port,
        "h".to_string(),
        format!("http://h:{}", port),
        "running".to_string(),
        parse_json_bytes(metadata).unwrap(),
        now,
    )
}

#[test]
fn registry_lifecycle_register_stale_evict() {
    // Register a worker; it is immediately listed and healthy; after the
    // stale threshold it turns unhealthy; after the eviction threshold the
    // reaper removes it.
    let mut dir = Directory::new();
    dir.register(record("svc-a", 9000, br#"{"type":"openai-api"}"#, 1000));

    let got = dir.get("svc-a").expect("registered record is listed");
    assert_eq!(got.name, "svc-a");
    assert_eq!(got.host, "h");
    assert_eq!(got.port, 9000);
    assert_eq!(got.url, "http://h:9000");
    assert!(got.is_healthy(1000));
    assert!(got.is_healthy(1119));

    // 121 seconds without a heartbeat: no longer healthy, but still there.
    let got = dir.get("svc-a").unwrap();
    assert!(!got.is_healthy(1121));
    dir.reap(1121);
    assert!(dir.get("svc-a").is_some());

    // 301 seconds without a heartbeat: the reaper removes it.
    dir.reap(1301);
    assert!(dir.get("svc-a").is_none());
}

#[test]
fn register_then_get_returns_registered_body() {
    let mut dir = Directory::new();
    dir.register(record("svc-a", 9000, br#"{"type":"openai-api","static":true}"#, 5));
    let got = dir.get("svc-a").unwrap();
    assert_eq!(got.hostname, "h");
    assert_eq!(got.status, "running");
    assert_eq!(got.last_heartbeat, 5);
    assert_eq!(got.health_status, HealthStatus::Unknown);
    // The metadata is stored verbatim.
    match &got.metadata {
        Json::Obj(fields) => assert_eq!(fields.len(), 2),
        _ => panic!("metadata should be an object"),
    }
    // Registering the same name again overwrites, not duplicates.
    dir.register(record("svc-a", 9001, br#"{}"#, 6));
    assert_eq!(dir.len(), 1);
    assert_eq!(dir.get("svc-a").unwrap().port, 9001);
}

#[test]
fn heartbeat_advances_and_is_idempotent() {
    let mut dir = Directory::new();
    dir.register(record("svc-a", 9000, br#"{}"#, 100));
    assert!(dir.heartbeat("svc-a", 150, None));
    assert_eq!(dir.get("svc-a").unwrap().last_heartbeat, 150);
    // Without wall-clock advance, repeating leaves the latest value.
    assert!(dir.heartbeat("svc-a", 150, None));
    assert_eq!(dir.get("svc-a").unwrap().last_heartbeat, 150);
    // A heartbeat body with a status replaces the status.
    assert!(dir.heartbeat("svc-a", 151, Some("draining".to_string())));
    let got = dir.get("svc-a").unwrap();
    assert_eq!(got.last_heartbeat, 151);
    assert_eq!(got.status, "draining");
    assert!(!got.is_healthy(151));
    // An unknown name is reported.
    assert!(!dir.heartbeat("nope", 152, None));
}

#[test]
fn unregister_then_get_is_gone() {
    let mut dir = Directory::new();
    dir.register(record("svc-a", 9000, br#"{}"#, 1));
    dir.register(record("svc-b", 9002, br#"{}"#, 1));
    assert!(dir.unregister("svc-a"));
    assert!(dir.get("svc-a").is_none());
    assert!(dir.get("svc-b").is_some());
    assert!(!dir.unregister("svc-a"));
}

#[test]
fn partial_update_replaces_given_fields_and_beats() {
    let mut dir = Directory::new();
    dir.register(record("svc-a", 9000, br#"{}"#, 10));
    let fields = UpdateFields {
        host: Some("h2".to_string()),
        port: Some(9100),
        hostname: None,
        url: None,
        status: Some("stopped".to_string()),
        metadata: None,
    };
    assert!(dir.update("svc-a", fields, 42));
    let got = dir.get("svc-a").unwrap();
    assert_eq!(got.host, "h2");
    assert_eq!(got.port, 9100);
    assert_eq!(got.hostname, "h");
    assert_eq!(got.status, "stopped");
    assert_eq!(got.last_heartbeat, 42);
    let nothing = UpdateFields {
        host: None,
        port: None,
        hostname: None,
        url: None,
        status: None,
        metadata: None,
    };
    assert!(!dir.update("missing", nothing, 43));
}

#[test]
fn probe_outcome_sets_verdict_and_heartbeat() {
    let mut dir = Directory::new();
    dir.register(record("svc-a", 9000, br#"{}"#, 10));
    assert!(dir.apply_probe("svc-a", true, 99));
    let got = dir.get("svc-a").unwrap();
    assert_eq!(got.health_status, HealthStatus::Healthy);
    assert_eq!(got.last_heartbeat, 99);
    assert!(dir.apply_probe("svc-a", false, 120));
    let got = dir.get("svc-a").unwrap();
    assert_eq!(got.health_status, HealthStatus::Unhealthy);
    // A failed probe does not delete the record and keeps its heartbeat.
    assert_eq!(got.last_heartbeat, 99);
}

#[test]
fn probe_url_goes_to_the_babysitter_for_workers() {
    let worker = record("w", 9000, br#"{"type":"openai-api"}"#, 1);
    assert_eq!(worker.probe_url(), "http://h:9001/health");
    let sitter = record("b", 9001, br#"{"type":"babysitter"}"#, 1);
    assert_eq!(sitter.probe_url(), "http://h:9001/health");
    let plain = record("p", 9004, br#"{}"#, 1);
    assert_eq!(plain.probe_url(), "http://h:9004/health");
}

#[test]
fn list_filters_by_status_and_health() {
    let mut dir = Directory::new();
    dir.register(record("a", 1, br#"{}"#, 100));
    dir.register(record("b", 2, br#"{}"#, 100));
    dir.heartbeat("b", 100, Some("stopped".to_string()));
    let all = dir.list(None, None, 100);
    assert_eq!(all.len(), 2);
    let running = "running".to_string();
    let only_running = dir.list(Some(&running), None, 100);
    assert_eq!(only_running.len(), 1);
    let healthy = dir.list(None, Some(true), 100);
    assert_eq!(healthy.len(), 1);
    let unhealthy = dir.list(None, Some(false), 300);
    assert_eq!(unhealthy.len(), 2);
}

#[test]
fn stats_counts_and_histograms() {
    let mut dir = Directory::new();
    dir.register(record("a", 1, br#"{}"#, 100));
    dir.register(record("b", 2, br#"{}"#, 100));
    dir.register(record("c", 3, br#"{}"#, 100));
    dir.heartbeat("c", 100, Some("stopped".to_string()));
    assert_eq!(dir.len(), 3);
    assert_eq!(dir.healthy_count(100), 2);
    let by_status = histogram(&dir.status_values());
    assert_eq!(by_status.len(), 2);
    for (k, c) in &by_status {
        if k == "running" {
            assert_eq!(*c, 2);
        } else {
            assert_eq!(k, "stopped");
            assert_eq!(*c, 1);
        }
    }
    let by_host = histogram(&dir.host_values());
    assert_eq!(by_host.len(), 1);
    assert_eq!(by_host[0].1, 3);
}
