//! The babysitter's names, ports, commands, policies and registry
//! payloads, on concrete configurations.

use infini_svc::babysitter::{
    babysitter_registration, build_command_based, build_mock_command, build_python_command,
    build_rust_command, build_vllm_command, default_heartbeat_interval, default_host,
    default_max_restarts, default_restart_delay, fetch_models_delay_ms, heartbeat_targets,
    managed_registration, merged_env, models_acceptable, models_from_response, next_backoff_ms,
    probe_indicates_ready, readiness_expired, should_restart, should_retry_fetch,
    BabysitterConfig, BabysitterConfigFile, BabysitterSettings, BabysitterState, BackendConfig,
};
use infini_svc::json::{parse_json_bytes, Json};
use infini_svc::metadata::{is_openai_api, meta_models, meta_type};

fn mock_config(port: u16) -> BabysitterConfig {
    BabysitterConfig {
        name: None,
        host: default_host(),
        port: Some(port),
        service_type: "mock".to_string(),
        path: None,
        command: None,
        args: None,
        work_dir: None,
        registry_url: Some("http://localhost:8081".to_string()),
        router_url: None,
        max_restarts: default_max_restarts(),
        restart_delay: default_restart_delay(),
        heartbeat_interval: default_heartbeat_interval(),
        config_file: None,
        dev: None,
        ndev: None,
        max_batch: None,
        env: vec![],
    }
}

#[test]
fn generated_names_fold_type_and_port() {
    let cfg = mock_config(9000);
    assert_eq!(cfg.service_name(), "mock-9000");
    let mut named = mock_config(9000);
    named.name = Some("given".to_string());
    assert_eq!(named.service_name(), "given");
    let mut spaced = mock_config(9000);
    spaced.service_type = "InfiniLM Rust".to_string();
    assert_eq!(spaced.service_name(), "infinilm-rust-9000");
    let mut portless = mock_config(9000);
    portless.port = None;
    assert_eq!(portless.service_name(), "mock-unknown");
}

#[test]
fn command_basis_and_ports() {
    let mut cfg = mock_config(9000);
    assert!(!cfg.is_command_based());
    cfg.command = Some("python3 -m worker".to_string());
    assert!(cfg.is_command_based());
    cfg.command = None;
    cfg.service_type = "command".to_string();
    assert!(cfg.is_command_based());

    let state = BabysitterState {
        config: mock_config(9000),
        service_port: None,
        start_time_secs: 0,
        restart_count: 0,
    };
    assert_eq!(state.service_target_port(), 9000);
    assert_eq!(state.babysitter_port(), 9001);
}

#[test]
fn commands_are_built_per_backend_kind() {
    let mut cfg = mock_config(9000);
    cfg.command = Some("python3 -m worker".to_string());
    cfg.args = Some("--fast on".to_string());
    let c = build_command_based(&cfg).unwrap();
    assert_eq!(c.program, "python3");
    assert_eq!(c.args, vec!["-m", "worker", "--fast", "on"]);
    cfg.command = Some("   ".to_string());
    assert!(build_command_based(&cfg).is_err());
    cfg.command = None;
    assert!(build_command_based(&cfg).is_err());

    let mut rust_cfg = mock_config(9000);
    rust_cfg.path = Some("model.toml".to_string());
    let c = build_rust_command(&rust_cfg).unwrap();
    assert_eq!(c.program, "xtask");
    assert_eq!(c.args, vec!["service", "model.toml", "-p", "9000"]);
    rust_cfg.path = None;
    assert!(build_rust_command(&rust_cfg).is_err());

    let py = build_python_command(&mock_config(9000));
    assert_eq!(py.program, "python3");
    assert_eq!(py.args, vec!["launch_server.py", "--port", "9000", "--host", "localhost"]);

    let mut vllm_cfg = mock_config(9000);
    vllm_cfg.path = Some("/models/m".to_string());
    vllm_cfg.args = Some("--tensor-parallel 2".to_string());
    let c = build_vllm_command(&vllm_cfg).unwrap();
    assert_eq!(c.program, "python3");
    assert_eq!(
        c.args,
        vec![
            "-m",
            "vllm.entrypoints.openai.api_server",
            "--model",
            "/models/m",
            "--port",
            "9000",
            "--host",
            "localhost",
            "--tensor-parallel",
            "2",
        ]
    );

    let script = "mock_worker.py".to_string();
    let c = build_mock_command(&mock_config(9000), Some(&script)).unwrap();
    assert_eq!(c.program, "python3");
    assert_eq!(
        c.args,
        vec![
            "mock_worker.py",
            "--name",
            "mock-9000",
            "--port",
            "9000",
            "--models",
            "test-model",
            "--registry-url",
            "http://localhost:8081",
        ]
    );
}

#[test]
fn restart_and_readiness_policy() {
    assert!(should_restart(0, 10000));
    assert!(should_restart(9999, 10000));
    assert!(!should_restart(10000, 10000));
    assert_eq!(next_backoff_ms(100), 200);
    assert_eq!(next_backoff_ms(400), 800);
    assert_eq!(next_backoff_ms(800), 1000);
    assert_eq!(next_backoff_ms(1000), 1000);
    assert!(!readiness_expired(30000));
    assert!(readiness_expired(30001));
    assert!(probe_indicates_ready(200));
    assert!(probe_indicates_ready(299));
    assert!(probe_indicates_ready(404));
    assert!(!probe_indicates_ready(500));
    assert!(!probe_indicates_ready(302));
    assert_eq!(fetch_models_delay_ms(0), 300);
    assert_eq!(fetch_models_delay_ms(19), 1000);
    assert!(should_retry_fetch(49));
    assert!(!should_retry_fetch(50));
}

#[test]
fn registrations_carry_the_port_pair_contract() {
    // The babysitter registers itself one port above the worker, and the
    // worker under `{service}-server` on its own port, tagged openai-api
    // with its model ids.
    let cfg = mock_config(9000);
    let own = babysitter_registration(&cfg);
    assert_eq!(own.name, "mock-9000");
    assert_eq!(own.port, 9001);
    assert_eq!(own.url, "http://localhost:9001");
    assert_eq!(own.status, "running");
    assert_eq!(meta_type(&own.metadata), Some("mock".to_string()));

    let models = vec![
        parse_json_bytes(br#"{"id":"test-model","object":"model"}"#).unwrap(),
    ];
    let managed = managed_registration(&cfg, 9000, models, None);
    assert_eq!(managed.name, "mock-9000-server");
    assert_eq!(managed.port, 9000);
    assert_eq!(managed.url, "http://localhost:9000");
    assert!(is_openai_api(&managed.metadata));
    let ids = meta_models(&managed.metadata);
    assert_eq!(ids, vec!["test-model".to_string()]);

    let targets = heartbeat_targets(&cfg, Some(9000));
    assert_eq!(targets, vec!["mock-9000".to_string(), "mock-9000-server".to_string()]);
    let early = heartbeat_targets(&cfg, None);
    assert_eq!(early, vec!["mock-9000".to_string()]);
}

#[test]
fn model_replies_accept_both_shapes() {
    let wrapped = parse_json_bytes(br#"{"data":[{"id":"a"},{"id":"b"}]}"#).unwrap();
    let items = models_from_response(wrapped).unwrap();
    assert_eq!(items.len(), 2);
    let bare = parse_json_bytes(br#"[{"id":"a"}]"#).unwrap();
    assert_eq!(models_from_response(bare).unwrap().len(), 1);
    let neither = parse_json_bytes(br#"{"models":3}"#).unwrap();
    assert!(models_from_response(neither).is_none());
    assert!(!models_acceptable(&vec![]));
    let one = vec![parse_json_bytes(br#"{"id":"a"}"#).unwrap()];
    assert!(models_acceptable(&one));
}

#[test]
fn config_file_flattens_to_the_command_line() {
    let file = BabysitterConfigFile {
        name: None,
        host: "localhost".to_string(),
        port: 9000,
        registry_url: Some("http://localhost:8081".to_string()),
        router_url: None,
        metadata: None,
        babysitter: BabysitterSettings::default(),
        backend: BackendConfig::Mock { models: vec!["m1".to_string(), "m2".to_string()] },
    };
    let cli = file.to_cli_config();
    assert_eq!(cli.service_type, "mock");
    assert_eq!(cli.port, Some(9000));
    assert_eq!(cli.args, Some("m1,m2".to_string()));
    assert_eq!(cli.path, None);
    assert_eq!(cli.command, None);
    assert_eq!(cli.work_dir, None);
    assert_eq!(cli.registry_url, Some("http://localhost:8081".to_string()));
    assert_eq!(cli.router_url, None);
    assert_eq!(cli.max_restarts, 10000);
    assert_eq!(cli.restart_delay, 5);
    assert_eq!(cli.heartbeat_interval, 30);
    assert!(file.backend_env().is_empty());

    let cmd_file = BabysitterConfigFile {
        name: Some("svc".to_string()),
        host: "localhost".to_string(),
        port: 9100,
        registry_url: None,
        router_url: None,
        metadata: None,
        babysitter: BabysitterSettings::default(),
        backend: BackendConfig::Command {
            command: "python3 worker.py".to_string(),
            args: vec!["--fast".to_string()],
            work_dir: Some("/srv".to_string()),
            env: vec![("MODE".to_string(), "quick".to_string())],
        },
    };
    let cli = cmd_file.to_cli_config();
    assert_eq!(cli.command, Some("python3 worker.py".to_string()));
    assert_eq!(cli.args, Some("--fast".to_string()));
    assert_eq!(cli.work_dir, Some("/srv".to_string()));
    assert_eq!(cmd_file.backend_env(), vec![("MODE".to_string(), "quick".to_string())]);
}

#[test]
fn child_env_prefers_the_configuration() {
    let parent = vec![
        ("PATH".to_string(), "/usr/bin".to_string()),
        ("MODE".to_string(), "slow".to_string()),
    ];
    let overrides = vec![("MODE".to_string(), "quick".to_string())];
    let merged = merged_env(parent, &overrides);
    assert_eq!(merged.len(), 2);
    assert_eq!(merged[0], ("PATH".to_string(), "/usr/bin".to_string()));
    assert_eq!(merged[1], ("MODE".to_string(), "quick".to_string()));
}

#[test]
fn mock_without_script_falls_back_to_command() {
    let mut cfg = mock_config(9000);
    cfg.command = Some("echo hello".to_string());
    let c = build_mock_command(&cfg, None).unwrap();
    assert_eq!(c.program, "echo");
    assert_eq!(c.args, vec!["hello"]);
    let json_null = parse_json_bytes(b"null").unwrap();
    assert!(matches!(json_null, Json::Null));
}

#[test]
fn config_metadata_is_merged_into_the_worker_record() {
    // The config file's metadata is laid over the worker's registration
    // record; on a name conflict the configuration's value is the one read.
    let cfg = mock_config(9000);
    let models = vec![parse_json_bytes(br#"{"id":"test-model"}"#).unwrap()];
    let extra = parse_json_bytes(br#"{"cache_type":"static","babysitter":"plain"}"#).unwrap();
    let managed = managed_registration(&cfg, 9000, models, Some(extra));
    assert!(is_openai_api(&managed.metadata));
    assert_eq!(meta_models(&managed.metadata), vec!["test-model".to_string()]);
    assert_eq!(
        infini_svc::metadata::meta_cache_type(&managed.metadata),
        Some("static".to_string())
    );
    let key: Vec<char> = "babysitter".chars().collect();
    assert_eq!(
        managed.metadata.get_str_field(key.as_slice()),
        Some("plain".to_string())
    );
    // Metadata that is not an object merges nothing.
    let models = vec![parse_json_bytes(br#"{"id":"test-model"}"#).unwrap()];
    let odd = parse_json_bytes(br#"[1,2]"#).unwrap();
    let managed = managed_registration(&cfg, 9000, models, Some(odd));
    assert_eq!(
        managed.metadata.get_str_field(key.as_slice()),
        Some("enhanced".to_string())
    );
}
