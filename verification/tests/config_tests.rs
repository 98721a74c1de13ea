//! The static services file in its three accepted shapes, and the router
//! configuration around it.

use infini_svc::config::{default_weight, parse_static_services, Config};

#[test]
fn test_load_static_services() {
    let json = r#"
        {
            "services": [
                {
                    "name": "test-service",
                    "host": "localhost",
                    "port": 8080,
                    "weight": 1
                }
            ]
        }
        "#;
    let services = parse_static_services(json).unwrap();
    assert_eq!(services.len(), 1);
    assert_eq!(services[0].name, "test-service");
    assert_eq!(services[0].host, "localhost");
    assert_eq!(services[0].port, 8080);
}

#[test]
fn all_three_shapes_are_accepted() {
    let bare = r#"[{"name":"a","host":"h","port":1}]"#;
    let services = parse_static_services(bare).unwrap();
    assert_eq!(services.len(), 1);
    assert_eq!(services[0].weight, default_weight());

    let keyed = r#"{"services":[{"name":"a","host":"h","port":1,"weight":3}]}"#;
    let services = parse_static_services(keyed).unwrap();
    assert_eq!(services[0].weight, 3);

    let nested = r#"{"static_services":{"services":[{"name":"a","host":"h","port":1,
        "metadata":{"static":true}}]}}"#;
    let services = parse_static_services(nested).unwrap();
    assert_eq!(services.len(), 1);
    assert_eq!(services[0].name, "a");
}

#[test]
fn malformed_files_are_refused() {
    assert!(parse_static_services("not json").is_err());
    assert!(parse_static_services(r#"{"other":1}"#).is_err());
    // A bad entry spoils the file: the port must fit.
    assert!(parse_static_services(r#"[{"name":"a","host":"h","port":70000}]"#).is_err());
    assert!(parse_static_services(r#"[{"name":"a","host":"h"}]"#).is_err());
    assert!(parse_static_services(r#"[{"name":"a","port":1}]"#).is_err());
}

#[test]
fn config_carries_its_knobs() {
    let services = parse_static_services(r#"[{"name":"a","host":"h","port":1}]"#).unwrap();
    let cfg = Config::new(8080, Some("http://localhost:8081".to_string()), Some(services), 30, 5, 3, 10, 60);
    assert_eq!(cfg.router_port, 8080);
    assert_eq!(cfg.health_check_interval, 30);
    assert_eq!(cfg.health_check_timeout, 5);
    assert_eq!(cfg.max_errors, 3);
    assert_eq!(cfg.registry_sync_interval, 10);
    assert_eq!(cfg.service_removal_grace_period, 60);
    assert_eq!(cfg.static_services.unwrap().len(), 1);
}
