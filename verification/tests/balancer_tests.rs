//! The load balancer's selection tiers, membership sync with grace period,
//! and health bookkeeping, on concrete pools.

use infini_svc::balancer::{probe_verdict, should_mark_unhealthy, LoadBalancer, SyncService};
use infini_svc::instance::ServiceInstance;
use infini_svc::json::parse_json_bytes;
use infini_svc::proxy::{extract_routing_fields, select_target};

fn instance(name: &str, port: u16, weight: u32, metadata: &[u8]) -> ServiceInstance {
    ServiceInstance::new(
        name.to_string(),
        "h".to_string(),
        port,
        weight,
        parse_json_bytes(metadata).unwrap(),
        100,
    )
}

fn sync_row(name: &str, port: u16, healthy: bool, weight: u32, metadata: &[u8]) -> SyncService {
    SyncService {
        name: name.to_string(),
        host: "h".to_string(),
        port,
        is_healthy: healthy,
        weight,
        metadata: parse_json_bytes(metadata).unwrap(),
    }
}

#[test]
fn model_filtered_weighted_round_robin() {
    // Pool: A(weight 1, m1), B(weight 2, m1), C(weight 1, m2), all healthy.
    // Eight requests for m1 go to A and B in a one-to-two rhythm; C never.
    let mut lb = LoadBalancer::new(60);
    lb.pool.push(instance("A", 9001, 1, br#"{"type":"openai-api","models":["m1"]}"#));
    lb.pool.push(instance("B", 9003, 2, br#"{"type":"openai-api","models":["m1"]}"#));
    lb.pool.push(instance("C", 9005, 1, br#"{"type":"openai-api","models":["m2"]}"#));

    let m1 = "m1".to_string();
    let mut counts = [0u32; 3];
    let mut k = 0;
    while k < 8 {
        let idx = lb.get_next_healthy_service_by_model(Some(&m1)).unwrap();
        counts[idx] += 1;
        k += 1;
    }
    assert_eq!(counts[2], 0);
    assert_eq!(counts[0], 3);
    assert_eq!(counts[1], 5);
    assert!(counts[1] > counts[0]);

    // A request for m2 goes to C.
    let m2 = "m2".to_string();
    let idx = lb.get_next_healthy_service_by_model(Some(&m2)).unwrap();
    assert_eq!(lb.pool[idx].name, "C");

    // Selections count as requests.
    assert_eq!(lb.pool[0].request_count, 3);
    assert_eq!(lb.pool[1].request_count, 5);
    assert_eq!(lb.pool[2].request_count, 1);

    // An unknown model finds nobody.
    let m3 = "m3".to_string();
    assert!(lb.get_next_healthy_service_by_model(Some(&m3)).is_none());
}

#[test]
fn unhealthy_instances_are_not_candidates() {
    let mut lb = LoadBalancer::new(60);
    lb.pool.push(instance("A", 9001, 1, br#"{"type":"openai-api","models":["m1"]}"#));
    lb.pool.push(instance("B", 9003, 1, br#"{"type":"openai-api","models":["m1"]}"#));
    lb.pool[0].healthy = false;
    let mut k = 0;
    while k < 4 {
        let idx = lb.get_next_healthy_service().unwrap();
        assert_eq!(lb.pool[idx].name, "B");
        k += 1;
    }
    lb.pool[1].healthy = false;
    assert!(lb.get_next_healthy_service().is_none());
}

#[test]
fn size_based_cache_routing() {
    // Two workers tagged by cache type; a big body routes to the static
    // one, a small body to the paged one. Threshold: 51200 bytes.
    let mut lb = LoadBalancer::new(60);
    lb.pool.push(instance(
        "S",
        9001,
        1,
        br#"{"type":"openai-api","models":["m1"],"cache_type":"static"}"#,
    ));
    lb.pool.push(instance(
        "P",
        9003,
        1,
        br#"{"type":"openai-api","models":["m1"],"cache_type":"paged"}"#,
    ));

    let big = format!(
        r#"{{"model":"m1","messages":[{{"content":"{}"}}]}}"#,
        "x".repeat(60000)
    );
    let fields = extract_routing_fields(big.as_bytes());
    assert_eq!(fields.as_ref().unwrap().message_size, Some(60000));
    let idx = select_target(&mut lb, &fields, None, 51200).unwrap();
    assert_eq!(lb.pool[idx].name, "S");

    let small = format!(
        r#"{{"model":"m1","messages":[{{"content":"{}"}}]}}"#,
        "x".repeat(1000)
    );
    let fields = extract_routing_fields(small.as_bytes());
    let idx = select_target(&mut lb, &fields, None, 51200).unwrap();
    assert_eq!(lb.pool[idx].name, "P");
}

#[test]
fn session_stickiness_on_fixed_pool() {
    let mut lb = LoadBalancer::new(60);
    lb.pool.push(instance("A", 9001, 1, br#"{"type":"openai-api","models":["m1"]}"#));
    lb.pool.push(instance("B", 9003, 1, br#"{"type":"openai-api","models":["m1"]}"#));
    lb.pool.push(instance("C", 9005, 1, br#"{"type":"openai-api","models":["m1"]}"#));
    let key = "default:prompt_cache:key-123".to_string();
    let first = lb.get_service_by_session(&key, None).unwrap();
    let mut k = 0;
    while k < 10 {
        assert_eq!(lb.get_service_by_session(&key, None).unwrap(), first);
        k += 1;
    }
    // The session choice reads the pool only: no counters move.
    assert_eq!(lb.pool[first].request_count, 0);
    assert_eq!(lb.current_index, 0);
}

#[test]
fn proxy_retry_demotes_and_switches_instance() {
    // Three nominally healthy workers; the first chosen fails at the
    // transport, is demoted, and the retry lands elsewhere.
    let mut lb = LoadBalancer::new(60);
    lb.pool.push(instance("A", 9001, 1, br#"{"type":"openai-api","models":["m1"]}"#));
    lb.pool.push(instance("B", 9003, 1, br#"{"type":"openai-api","models":["m1"]}"#));
    lb.pool.push(instance("C", 9005, 1, br#"{"type":"openai-api","models":["m1"]}"#));

    let body = br#"{"model":"m1","messages":[{"content":"hi"}]}"#;
    let fields = extract_routing_fields(body.as_slice());
    let first = select_target(&mut lb, &fields, None, 51200).unwrap();
    lb.record_proxy_failure(first);
    assert!(!lb.pool[first].healthy);
    assert!(lb.pool[first].error_count >= 1);

    let second = select_target(&mut lb, &fields, None, 51200).unwrap();
    assert_ne!(second, first);
    lb.record_proxy_success(second);
    assert!(lb.pool[second].request_count >= 1);
}

#[test]
fn sync_adds_updates_and_respects_grace_period() {
    // A sync naming X adds it; syncs that stop naming it keep it through
    // the grace period and drop it afterwards.
    let mut lb = LoadBalancer::new(60);
    lb.sync_from_registry(
        vec![sync_row("X", 9000, true, 2, br#"{"type":"openai-api","models":["m1"]}"#)],
        100,
    );
    assert_eq!(lb.pool.len(), 1);
    assert_eq!(lb.pool[0].name, "X");
    assert_eq!(lb.pool[0].weight, 2);
    assert_eq!(lb.pool[0].url, "http://h:9000");
    assert_eq!(lb.pool[0].babysitter_url, "http://h:9001");
    assert_eq!(lb.pool[0].models, vec!["m1".to_string()]);
    assert_eq!(lb.pool[0].last_seen, 100);

    // Within the grace period the instance survives registry silence.
    lb.sync_from_registry(vec![], 150);
    assert_eq!(lb.pool.len(), 1);

    // Past the grace period it is removed on the next sync.
    lb.sync_from_registry(vec![], 161);
    assert_eq!(lb.pool.len(), 0);
}

#[test]
fn sync_updates_existing_and_ignores_other_types() {
    let mut lb = LoadBalancer::new(60);
    lb.sync_from_registry(
        vec![sync_row("X", 9000, true, 1, br#"{"type":"openai-api","models":["m1"]}"#)],
        100,
    );
    // A later sync moves the endpoint, replaces models, demotes health.
    lb.sync_from_registry(
        vec![sync_row("X", 9100, false, 7, br#"{"type":"openai-api","models":["m2"]}"#)],
        110,
    );
    assert_eq!(lb.pool.len(), 1);
    assert_eq!(lb.pool[0].port, 9100);
    assert_eq!(lb.pool[0].url, "http://h:9100");
    assert!(!lb.pool[0].healthy);
    assert_eq!(lb.pool[0].models, vec!["m2".to_string()]);
    assert_eq!(lb.pool[0].weight, 1);
    assert_eq!(lb.pool[0].last_seen, 110);

    // A row of another type neither joins the pool nor counts as absence
    // for its namesake.
    lb.sync_from_registry(vec![sync_row("B", 9001, true, 1, br#"{"type":"babysitter"}"#)], 120);
    assert_eq!(lb.pool.len(), 1);
    lb.sync_from_registry(vec![sync_row("X", 9100, true, 1, br#"{"type":"babysitter"}"#)], 300);
    assert_eq!(lb.pool.len(), 1);
}

#[test]
fn static_instances_survive_sync_removal() {
    let mut lb = LoadBalancer::new(60);
    lb.pool.push(instance(
        "fixed",
        9001,
        1,
        br#"{"type":"openai-api","models":["m1"],"static":true}"#,
    ));
    lb.pool[0].last_seen = 0;
    lb.sync_from_registry(vec![], 10_000);
    assert_eq!(lb.pool.len(), 1);
    assert_eq!(lb.pool[0].name, "fixed");
}

#[test]
fn health_probe_results_update_counters() {
    let mut lb = LoadBalancer::new(60);
    lb.pool.push(instance("A", 9001, 1, br#"{"type":"openai-api"}"#));
    lb.apply_health_result(0, false, 0, 500);
    assert!(!lb.pool[0].healthy);
    assert_eq!(lb.pool[0].error_count, 1);
    assert_eq!(lb.pool[0].last_check, 500);
    lb.apply_health_result(0, true, 12, 530);
    assert!(lb.pool[0].healthy);
    assert_eq!(lb.pool[0].error_count, 0);
    assert_eq!(lb.pool[0].response_time_ms, 12);
    assert_eq!(lb.pool[0].last_check, 530);
}

#[test]
fn error_threshold_and_probe_verdict() {
    assert!(should_mark_unhealthy(3, 3));
    assert!(!should_mark_unhealthy(2, 3));
    assert!(probe_verdict(200));
    assert!(probe_verdict(299));
    assert!(!probe_verdict(300));
    assert!(!probe_verdict(404));
    assert!(!probe_verdict(199));
}

#[test]
fn static_entries_seed_the_pool_last_wins() {
    let mut lb = LoadBalancer::new(60);
    let entries = vec![
        infini_svc::config::StaticService {
            name: "a".to_string(),
            host: "h".to_string(),
            port: 9000,
            weight: 2,
            metadata: parse_json_bytes(br#"{"type":"openai-api","models":["m1"]}"#).unwrap(),
        },
        infini_svc::config::StaticService {
            name: "b".to_string(),
            host: "h".to_string(),
            port: 9002,
            weight: 1,
            metadata: parse_json_bytes(br#"{}"#).unwrap(),
        },
        infini_svc::config::StaticService {
            name: "a".to_string(),
            host: "h2".to_string(),
            port: 9100,
            weight: 5,
            metadata: parse_json_bytes(br#"{}"#).unwrap(),
        },
    ];
    lb.seed_static(&entries, 77);
    assert_eq!(lb.pool.len(), 2);
    // The later entry for `a` replaced the earlier one wholly.
    assert_eq!(lb.pool[0].name, "a");
    assert_eq!(lb.pool[0].host, "h2");
    assert_eq!(lb.pool[0].port, 9100);
    assert_eq!(lb.pool[0].weight, 5);
    assert_eq!(lb.pool[0].url, "http://h2:9100");
    assert_eq!(lb.pool[0].babysitter_url, "http://h2:9101");
    assert!(lb.pool[0].healthy);
    assert_eq!(lb.pool[0].last_seen, 77);
    assert_eq!(lb.pool[1].name, "b");
}

#[test]
fn unknown_size_skips_the_cache_tier() {
    // A parsed body without messages or prompt has no size, so the cache
    // tier is skipped: selection falls through to round robin over all
    // healthy candidates, not just cache-tagged ones.
    let mut lb = LoadBalancer::new(60);
    lb.pool.push(instance("N", 9001, 1, br#"{"type":"openai-api","models":["m1"]}"#));
    lb.pool.push(instance(
        "P",
        9003,
        1,
        br#"{"type":"openai-api","models":["m1"],"cache_type":"paged"}"#,
    ));
    let body = br#"{"model":"m1"}"#;
    let fields = extract_routing_fields(body.as_slice());
    assert_eq!(fields.as_ref().unwrap().message_size, None);
    let idx = select_target(&mut lb, &fields, None, 51200).unwrap();
    // Round robin from a fresh counter picks the first candidate, not the
    // paged-tagged instance the cache tier would have chosen.
    assert_eq!(lb.pool[idx].name, "N");
}
