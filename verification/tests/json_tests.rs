//! The JSON decoder and the small verified utilities under it, on
//! concrete documents.

use infini_svc::aggregate::ModelAggregator;
use infini_svc::balancer::LoadBalancer;
use infini_svc::bindings::{current_timestamp_secs, rfc3339_utc};
use infini_svc::instance::ServiceInstance;
use infini_svc::json::{parse_json_bytes, Json};
use infini_svc::strutil::{
    chars_to_string, join_strings, name_fold, parse_u64, split_whitespace_words, u64_to_string,
};

fn str_chars(s: &str) -> Vec<char> {
    s.chars().collect()
}

#[test]
fn decoder_reads_the_usual_documents() {
    let j = parse_json_bytes(br#"{"a":1,"b":[true,false,null],"c":"x"}"#).unwrap();
    let a_key = str_chars("a");
    let v = j.obj_get(a_key.as_slice()).unwrap();
    assert_eq!(v.as_u64(), Some(1));
    let b_key = str_chars("b");
    let arr = j.obj_get(b_key.as_slice()).unwrap().as_arr().unwrap();
    assert_eq!(arr.len(), 3);
    assert_eq!(arr[0].as_bool(), Some(true));
    assert_eq!(arr[1].as_bool(), Some(false));
    assert!(matches!(arr[2], Json::Null));
    let c_key = str_chars("c");
    let s = j.get_str_field(c_key.as_slice()).unwrap();
    assert_eq!(s, "x");
}

#[test]
fn decoder_handles_escapes_and_whitespace() {
    let j = parse_json_bytes(b" { \"k\" : \"a\\n\\t\\\"b\\u0041\" } ").unwrap();
    let key = str_chars("k");
    assert_eq!(j.get_str_field(key.as_slice()).unwrap(), "a\n\t\"bA");
    // An astral escape comes as a surrogate pair.
    let j = parse_json_bytes(b"{\"k\":\"\\ud83d\\ude00\"}").unwrap();
    let got = j.get_str_field(key.as_slice()).unwrap();
    assert_eq!(got.chars().count(), 1);
    assert_eq!(got.chars().next().map(|c| c as u32), Some(0x1F600));
    // A lone surrogate is refused.
    assert!(parse_json_bytes(b"{\"k\":\"\\ud83d\"}").is_none());
}

#[test]
fn decoder_refuses_malformed_documents() {
    assert!(parse_json_bytes(b"").is_none());
    assert!(parse_json_bytes(b"{").is_none());
    assert!(parse_json_bytes(b"[1,]").is_none());
    assert!(parse_json_bytes(b"01").is_none());
    assert!(parse_json_bytes(b"{\"a\":1} trailing").is_none());
    assert!(parse_json_bytes(b"nul").is_none());
    assert!(parse_json_bytes(&[0xff, 0xfe]).is_none());
}

#[test]
fn decoder_keeps_numbers_as_text_and_reads_integers() {
    let j = parse_json_bytes(br#"{"i":8080,"f":1.5,"e":2e3,"n":-4}"#).unwrap();
    let i_key = str_chars("i");
    assert_eq!(j.obj_get(i_key.as_slice()).unwrap().as_u64(), Some(8080));
    let f_key = str_chars("f");
    assert_eq!(j.obj_get(f_key.as_slice()).unwrap().as_u64(), None);
    let e_key = str_chars("e");
    assert_eq!(j.obj_get(e_key.as_slice()).unwrap().as_u64(), None);
    let n_key = str_chars("n");
    assert_eq!(j.obj_get(n_key.as_slice()).unwrap().as_u64(), None);
}

#[test]
fn repeated_keys_read_like_the_wire_decoders() {
    let j = parse_json_bytes(br#"{"a":1,"a":2}"#).unwrap();
    let key = str_chars("a");
    assert_eq!(j.obj_get(key.as_slice()).unwrap().as_u64(), Some(2));
}

#[test]
fn numbers_render_and_parse_in_decimal() {
    assert_eq!(u64_to_string(0), "0");
    assert_eq!(u64_to_string(65535), "65535");
    assert_eq!(parse_u64(str_chars("8080").as_slice()), Some(8080));
    assert_eq!(parse_u64(str_chars("").as_slice()), None);
    assert_eq!(parse_u64(str_chars("12x").as_slice()), None);
    assert_eq!(parse_u64(str_chars("18446744073709551615").as_slice()), Some(u64::MAX));
    assert_eq!(parse_u64(str_chars("18446744073709551616").as_slice()), None);
}

#[test]
fn string_helpers_fold_join_and_split() {
    assert_eq!(name_fold("InfiniLM Rust"), "infinilm-rust");
    assert_eq!(chars_to_string(str_chars("ab").as_slice()), "ab");
    let parts = vec!["a".to_string(), "b".to_string(), "c".to_string()];
    assert_eq!(join_strings(&parts, ","), "a,b,c");
    assert_eq!(join_strings(&vec![], ","), "");
    assert_eq!(
        split_whitespace_words("  python3  -m worker "),
        vec!["python3".to_string(), "-m".to_string(), "worker".to_string()]
    );
    assert_eq!(split_whitespace_words("   "), Vec::<String>::new());
}

#[test]
fn clock_and_timestamp_bindings_answer() {
    // The clock reads as a post-epoch instant; the formatter renders the
    // epoch itself in the fixed UTC shape.
    assert!(current_timestamp_secs() > 1_600_000_000);
    assert_eq!(rfc3339_utc(0), "1970-01-01T00:00:00+00:00");
    assert_eq!(rfc3339_utc(1_700_000_000), "2023-11-14T22:13:20+00:00");
}

#[test]
fn aggregated_models_dedup_and_sort() {
    let mut lb = LoadBalancer::new(60);
    lb.pool.push(ServiceInstance::new(
        "B".to_string(),
        "h".to_string(),
        9003,
        1,
        parse_json_bytes(
            br#"{"type":"openai-api","models_list":[{"id":"zeta","seen":"late"},{"id":"alpha"}]}"#,
        )
        .unwrap(),
        100,
    ));
    lb.pool.push(ServiceInstance::new(
        "A".to_string(),
        "h".to_string(),
        9001,
        1,
        parse_json_bytes(br#"{"type":"openai-api","models":["beta","zeta"]}"#).unwrap(),
        100,
    ));
    lb.pool.push(ServiceInstance::new(
        "C".to_string(),
        "h".to_string(),
        9005,
        1,
        parse_json_bytes(br#"{"type":"babysitter","models":["omitted"]}"#).unwrap(),
        100,
    ));
    let id_key = str_chars("id");
    let models = ModelAggregator::aggregate_models(&lb);
    let ids: Vec<String> = models
        .iter()
        .map(|m| m.get_str_field(id_key.as_slice()).unwrap())
        .collect();
    assert_eq!(
        ids,
        vec!["alpha".to_string(), "beta".to_string(), "zeta".to_string()]
    );
    // The first contributor of `zeta` (the full object) won the dedup.
    let seen_key = str_chars("seen");
    let zeta = &models[2];
    assert_eq!(zeta.get_str_field(seen_key.as_slice()).unwrap(), "late");

    // An unhealthy instance stops contributing.
    lb.pool[0].healthy = false;
    let models = ModelAggregator::aggregate_models(&lb);
    let ids: Vec<String> = models
        .iter()
        .map(|m| m.get_str_field(id_key.as_slice()).unwrap())
        .collect();
    assert_eq!(ids, vec!["beta".to_string(), "zeta".to_string()]);
}
