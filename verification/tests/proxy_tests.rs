//! The proxy's hint extraction, session identity, header hygiene, sizing
//! and retry behavior, on concrete requests.

use infini_svc::proxy::{
    choose_cache_type, Content, ContentPart, Prompt, compute_session_id, error_message, error_status, extract_model_from_body,
    extract_prompt_cache_key_from_body, extract_routing_fields, extract_session_id,
    filter_forward_headers, generate_session_from_ip, is_hop_by_hop, proxy_timeout_secs,
    routing_threshold, ProxyAttempts, RouterError, TransportError,
};

#[test]
fn test_extract_model() {
    let body = br#"{"model": "test-model-1", "messages": []}"#;
    let model = extract_model_from_body(body.as_slice());
    assert_eq!(model, Some("test-model-1".to_string()));
}

#[test]
fn test_extract_model_missing() {
    let body = br#"{"messages": []}"#;
    let model = extract_model_from_body(body.as_slice());
    assert_eq!(model, None);
}

#[test]
fn test_extract_model_invalid_json() {
    let body = b"not json";
    let model = extract_model_from_body(body.as_slice());
    assert_eq!(model, None);
}

#[test]
fn test_extract_prompt_cache_key() {
    let body = br#"{"prompt_cache_key": "test-key-123", "messages": []}"#;
    let key = extract_prompt_cache_key_from_body(body.as_slice());
    assert_eq!(key, Some("test-key-123".to_string()));
}

#[test]
fn test_extract_prompt_cache_key_missing() {
    let body = br#"{"messages": []}"#;
    let key = extract_prompt_cache_key_from_body(body.as_slice());
    assert_eq!(key, None);
}

#[test]
fn test_generate_session_from_ip() {
    let agent = "test-agent".to_string();
    let remote = "192.168.1.1".to_string();
    let session = generate_session_from_ip(None, Some(&agent), Some(&remote));
    assert!(session.is_some());
    assert_eq!(session.unwrap(), "77b83d5737a87d6c".to_string());
}

#[test]
fn test_generate_session_from_ip_with_x_forwarded_for() {
    let forwarded = "10.0.0.1".to_string();
    let agent = "test-agent".to_string();
    let remote = "192.168.1.1".to_string();
    let session = generate_session_from_ip(Some(&forwarded), Some(&agent), Some(&remote));
    assert!(session.is_some());
    // The forwarding header wins over the peer address.
    assert_eq!(session.unwrap(), "43d0061ea58bf844".to_string());
}

#[test]
fn test_generate_session_from_ip_no_ip() {
    let session = generate_session_from_ip(None, None, None);
    assert_eq!(session, None);
}

#[test]
fn test_extract_session_id_with_prompt_cache_key() {
    let body = br#"{"prompt_cache_key": "key-123"}"#;
    let model = "model-1".to_string();
    let session_id = extract_session_id(None, None, body.as_slice(), None, Some(&model));
    assert_eq!(session_id, Some("model-1:prompt_cache:key-123".to_string()));
}

#[test]
fn test_extract_session_id_with_ip() {
    let body = br#"{"messages": []}"#;
    let agent = "test-agent".to_string();
    let remote = "192.168.1.1".to_string();
    let model = "model-1".to_string();
    let session_id = extract_session_id(
        None,
        Some(&agent),
        body.as_slice(),
        Some(&remote),
        Some(&model),
    );
    assert!(session_id.is_some());
    assert!(session_id.unwrap().starts_with("model-1:ip:"));
}

#[test]
fn test_extract_session_id_no_identifier() {
    let body = br#"{"messages": []}"#;
    let model = "model-1".to_string();
    let session_id = extract_session_id(None, None, body.as_slice(), None, Some(&model));
    assert_eq!(session_id, None);
}

#[test]
fn routing_fields_from_messages() {
    let body = br#"{"model":"m1","prompt_cache_key":"k","messages":[{"content":"hi"},{"content":[{"text":"abc","content":"de"}]}]}"#;
    let f = extract_routing_fields(body.as_slice()).unwrap();
    assert_eq!(f.model_id, Some("m1".to_string()));
    assert_eq!(f.prompt_cache_key, Some("k".to_string()));
    assert_eq!(f.message_size, Some(7));
}

#[test]
fn routing_fields_from_prompt() {
    let body = br#"{"prompt":["abc","defg"]}"#;
    let f = extract_routing_fields(body.as_slice()).unwrap();
    assert_eq!(f.model_id, None);
    assert_eq!(f.message_size, Some(7));

    let body2 = br#"{"prompt":"hello"}"#;
    let f2 = extract_routing_fields(body2.as_slice()).unwrap();
    assert_eq!(f2.message_size, Some(5));
}

#[test]
fn routing_fields_absent() {
    let body = br#"{"model":"m1"}"#;
    let f = extract_routing_fields(body.as_slice()).unwrap();
    assert_eq!(f.message_size, None);
    assert_eq!(extract_routing_fields(b"[1,2]".as_slice()).is_some(), true);
    assert!(extract_routing_fields(b"{".as_slice()).is_none());
}

#[test]
fn session_id_uses_default_prefix() {
    let key = "key-9".to_string();
    let sid = compute_session_id(None, Some(&key), None);
    assert_eq!(sid, Some("default:prompt_cache:key-9".to_string()));
}

#[test]
fn forwarding_header_takes_first_entry_trimmed() {
    let forwarded = " 10.0.0.7 , 10.0.0.8".to_string();
    let a = generate_session_from_ip(Some(&forwarded), None, None);
    let single = "10.0.0.7".to_string();
    let b = generate_session_from_ip(Some(&single), None, None);
    assert_eq!(a, b);
    assert!(a.is_some());
    // An empty forwarding header yields no session even with a peer address.
    let empty = "  ".to_string();
    let remote = "192.168.1.1".to_string();
    assert_eq!(generate_session_from_ip(Some(&empty), None, Some(&remote)), None);
}

#[test]
fn hop_by_hop_headers_are_dropped() {
    assert!(is_hop_by_hop("Connection"));
    assert!(is_hop_by_hop("TRANSFER-ENCODING"));
    assert!(is_hop_by_hop("content-length"));
    assert!(!is_hop_by_hop("content-type"));
    let headers = vec![
        ("Host".to_string(), "a".to_string()),
        ("content-type".to_string(), "application/json".to_string()),
        ("Keep-Alive".to_string(), "30".to_string()),
        ("accept".to_string(), "application/json".to_string()),
    ];
    let kept = filter_forward_headers(headers);
    assert_eq!(kept.len(), 2);
    assert_eq!(kept[0].0, "content-type");
    assert_eq!(kept[1].0, "accept");
}

#[test]
fn cache_type_threshold_is_strict() {
    assert_eq!(choose_cache_type(60000, 51200), "static".to_string());
    assert_eq!(choose_cache_type(1000, 51200), "paged".to_string());
    assert_eq!(choose_cache_type(51200, 51200), "paged".to_string());
    assert_eq!(choose_cache_type(51201, 51200), "static".to_string());
}

#[test]
fn threshold_and_timeout_overrides() {
    assert_eq!(routing_threshold(None), 51200);
    let over = "1000".to_string();
    assert_eq!(routing_threshold(Some(&over)), 1000);
    let junk = "12x".to_string();
    assert_eq!(routing_threshold(Some(&junk)), 51200);
    assert_eq!(proxy_timeout_secs(None), 1800);
    let t = "60".to_string();
    assert_eq!(proxy_timeout_secs(Some(&t)), 60);
}

#[test]
fn transport_errors_map_to_statuses() {
    assert_eq!(error_status(TransportError::Timeout), 504);
    assert_eq!(error_status(TransportError::ConnectionRefused), 503);
    assert_eq!(error_status(TransportError::Other), 502);
    assert_eq!(error_message(TransportError::Timeout), "Service timeout");
    assert_eq!(
        error_message(TransportError::ConnectionRefused),
        "Service unavailable - connection refused"
    );
    assert_eq!(
        error_message(TransportError::Other),
        "Bad gateway - error communicating with service"
    );
}

#[test]
fn retry_ledger_stops_at_three() {
    let mut a = ProxyAttempts::new();
    assert!(a.can_attempt());
    a.record_failure(TransportError::ConnectionRefused);
    assert!(a.can_attempt());
    a.record_failure(TransportError::ConnectionRefused);
    assert!(a.can_attempt());
    a.record_failure(TransportError::Timeout);
    assert!(!a.can_attempt());
    assert_eq!(a.final_status(), 504);
    let fresh = ProxyAttempts::new();
    assert_eq!(fresh.final_status(), 503);
}

#[test]
fn router_error_statuses() {
    assert_eq!(RouterError::NoHealthyService.status_code(), 503);
    assert_eq!(RouterError::ServiceNotFound("x".to_string()).status_code(), 404);
    assert_eq!(RouterError::RegistryError("x".to_string()).status_code(), 502);
    assert_eq!(RouterError::JsonError("x".to_string()).status_code(), 400);
    assert_eq!(RouterError::IoError("x".to_string()).status_code(), 500);
    assert_eq!(RouterError::ConfigError("x".to_string()).status_code(), 500);
    assert_eq!(RouterError::Internal("x".to_string()).status_code(), 500);
}

#[test]
fn content_and_prompt_weigh_their_text() {
    let plain = Content::Str("hello".to_string());
    assert_eq!(plain.text_len(), 5);
    let parts = Content::Parts(vec![
        ContentPart { text: Some("abc".to_string()), content: Some("de".to_string()) },
        ContentPart { text: None, content: Some("fg".to_string()) },
        ContentPart { text: None, content: None },
    ]);
    assert_eq!(parts.text_len(), 7);
    assert_eq!(Prompt::Str("abcd".to_string()).text_len(), 4);
    assert_eq!(
        Prompt::Arr(vec!["ab".to_string(), "cde".to_string()]).text_len(),
        5
    );
    // The measure is bytes of the encoding, not characters.
    assert_eq!(Content::Str("\u{00e9}".to_string()).text_len(), 2);
}
