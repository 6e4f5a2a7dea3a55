use consul_publisher::config::Config;
use consul_publisher::error::Error;
use consul_publisher::publisher::{consul_key_prefix, Publisher};
use consul_publisher::template::ServiceConfig;

fn config_with_template(tpl: &str) -> Config {
    Config {
        consul_addr: "http://localhost:8500".to_string(),
        consul_token: String::new(),
        service: None,
        env: None,
        filter_env: None,
        config_path: ".".to_string(),
        key_template: tpl.to_string(),
        timeout: 60,
    }
}

#[test]
fn test_create_key() {
    let res = ServiceConfig::new(
        "config/{service}_x_{env}*{key}".to_string(),
        "my".to_string(),
        "MYENV".to_string(),
    )
    .consul_key(&"KEY".to_string());
    assert!(res.is_ok());
    assert_eq!(res.unwrap(), "config/my_x_MYENV*KEY");
}

#[test]
fn test_create_key_omit() {
    // Can omit one of templates
    let res = ServiceConfig::new(
        "config/_x_{key}*{env}".to_string(),
        "my".to_string(),
        "MYENV".to_string(),
    )
    .consul_key(&"KEY".to_string());
    assert!(res.is_ok());
}

#[test]
fn render_rejects_unknown_placeholder() {
    let sc = ServiceConfig::new(
        "config/{nope}/{key}".to_string(),
        "s".to_string(),
        "e".to_string(),
    );
    match sc.consul_key("k") {
        Err(Error::Template(_)) => {}
        _ => panic!("expected a template error"),
    }
}

#[test]
fn render_rejects_unmatched_braces() {
    let sc = ServiceConfig::new("config/{key".to_string(), "s".to_string(), "e".to_string());
    assert!(sc.consul_key("k").is_err());
    let sc2 = ServiceConfig::new("config/key}".to_string(), "s".to_string(), "e".to_string());
    assert!(sc2.consul_key("k").is_err());
}

#[test]
fn publisher_rejects_template_without_trailing_key() {
    match Publisher::new(config_with_template("config/{service}/{env}/key")) {
        Err(Error::Template(m)) => {
            // The error names the offending template.
            assert!(m.contains("config/{service}/{env}/key"));
        }
        _ => panic!("expected a template error"),
    }
}

#[test]
fn publisher_accepts_template_with_trailing_key() {
    assert!(Publisher::new(config_with_template("config/{service}/{env}/{key}")).is_ok());
}

#[test]
fn prefix_is_slash_terminated_rendering_of_empty_key() {
    let sc = ServiceConfig::new(
        "config/{service}/{env}/{key}".to_string(),
        "svc".to_string(),
        "dev".to_string(),
    );
    let prefix = consul_key_prefix(&sc).unwrap();
    assert_eq!(prefix, "config/svc/dev/");
}

#[test]
fn prefix_not_slash_terminated_is_rejected() {
    let sc = ServiceConfig::new(
        "config/{service}-{key}".to_string(),
        "svc".to_string(),
        "dev".to_string(),
    );
    match consul_key_prefix(&sc) {
        Err(Error::Template(_)) => {}
        _ => panic!("expected a template error"),
    }
}
