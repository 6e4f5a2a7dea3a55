use consul_publisher::config::Config;
use consul_publisher::publisher::Publisher;

fn base_config() -> Config {
    Config {
        consul_addr: "http://localhost:8500".to_string(),
        consul_token: String::new(),
        service: None,
        env: None,
        filter_env: None,
        config_path: ".".to_string(),
        key_template: "config/{service}/{env}/{key}".to_string(),
        timeout: 60,
    }
}

#[test]
fn test_parse_filename() {
    let mut res = Publisher::deduce_service_env_from_filename(&"myservice.myenv.conf".to_owned());
    assert_eq!(res.unwrap(), ("myservice".to_string(), "myenv".to_string()));
    match Publisher::deduce_service_env_from_filename(&"myservice.myenv.txt".to_owned()) {
        Err(consul_publisher::error::Error::Template(m)) => {
            // The error names the offending filename.
            assert!(m.contains("myservice.myenv.txt"));
        }
        _ => panic!("expected a template error"),
    }
    assert!(Publisher::deduce_service_env_from_filename(&"myenv.conf".to_owned()).is_err());
    assert!(Publisher::deduce_service_env_from_filename(&"..conf".to_owned()).is_err());
    assert!(Publisher::deduce_service_env_from_filename(&"s.e.conf".to_owned()).is_ok());
    res = Publisher::deduce_service_env_from_filename(&"my_service.my_env123.conf".to_owned());
    assert_eq!(
        res.unwrap(),
        ("my_service".to_string(), "my_env123".to_string())
    );
    assert!(
        Publisher::deduce_service_env_from_filename(&"myservice.second.myenv.conf".to_owned())
            .is_err()
    );
    res = Publisher::deduce_service_env_from_filename(&"my-service.my-env123.conf".to_owned());
    assert_eq!(
        res.unwrap(),
        ("my-service".to_string(), "my-env123".to_string())
    );
}

#[test]
fn explicit_service_and_env_override_filename() {
    let mut cfg = base_config();
    cfg.service = Some("explicit".to_string());
    cfg.env = Some("prod".to_string());
    let publisher = Publisher::new(cfg).unwrap();
    let res = publisher.parse_config_paths("whatever.name").unwrap();
    assert_eq!(res, ("explicit".to_string(), "prod".to_string()));
}

#[test]
fn partial_override_falls_back_to_filename() {
    let mut cfg = base_config();
    cfg.service = Some("explicit".to_string());
    let publisher = Publisher::new(cfg).unwrap();
    let res = publisher.parse_config_paths("svc.dev.conf").unwrap();
    assert_eq!(res, ("svc".to_string(), "dev".to_string()));
    assert!(publisher.parse_config_paths("not-a-config").is_err());
}

#[test]
fn env_filter_matches_only_its_environment() {
    let mut cfg = base_config();
    cfg.filter_env = Some("dev".to_string());
    let publisher = Publisher::new(cfg).unwrap();
    assert!(publisher.env_matches_filter("dev"));
    assert!(!publisher.env_matches_filter("prod"));

    let unfiltered = Publisher::new(base_config()).unwrap();
    assert!(unfiltered.env_matches_filter("dev"));
    assert!(unfiltered.env_matches_filter("prod"));
}
