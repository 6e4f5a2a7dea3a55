use base64::Engine;

use consul_publisher::config::Config;
use consul_publisher::error::Error;
use consul_publisher::kv::KVConfig;
use consul_publisher::publisher::{key_changed, relative_keys, Publisher, PublishStats};
use consul_publisher::template::ServiceConfig;

fn b64(s: &str) -> String {
    base64::engine::general_purpose::STANDARD.encode(s)
}

fn publisher() -> Publisher {
    Publisher::new(Config {
        consul_addr: "http://localhost:8500".to_string(),
        consul_token: String::new(),
        service: None,
        env: None,
        filter_env: None,
        config_path: ".".to_string(),
        key_template: "config/{service}/{env}/{key}".to_string(),
        timeout: 60,
    })
    .unwrap()
}

fn service_config(service: &str, env: &str) -> ServiceConfig {
    ServiceConfig::new(
        "config/{service}/{env}/{key}".to_string(),
        service.to_string(),
        env.to_string(),
    )
}

#[test]
fn key_changed_when_absent_remotely() {
    assert!(key_changed("1", None).unwrap());
}

#[test]
fn key_changed_decodes_remote_value() {
    // If decoding handed the raw value back unchanged, "MQ==" would differ
    // from "1" and this would report a change.
    let raw = b64("1");
    assert_eq!(raw, "MQ==");
    assert!(!key_changed("1", Some(&raw)).unwrap());
    assert!(key_changed("2", Some(&raw)).unwrap());
}

#[test]
fn key_changed_normalizes_both_sides() {
    // "1" and "\"1\" " are equal after trimming spaces and quotes.
    let raw = b64("\"1\" ");
    assert!(!key_changed("1", Some(&raw)).unwrap());
    assert!(!key_changed(" \"1\"", Some(&raw)).unwrap());
}

#[test]
fn key_changed_rejects_undecodable_value() {
    match key_changed("1", Some(&"!!not base64!!".to_string())) {
        Err(Error::Generic) => {}
        _ => panic!("expected a generic error"),
    }
}

#[test]
fn diff_marks_new_and_removed_keys() {
    // local {a:"1", b:"2"}, remote {a:"1", c:"3"}:
    // changed = {b} (new), removed = {c}; a is unchanged.
    let publisher = publisher();
    let kv = KVConfig::new(&vec!["a=1".to_string(), "b=2".to_string()]).unwrap();
    let responses = vec![Some(b64("1")), None];
    let changed = publisher.changed_keys(&kv, &responses).unwrap();
    assert_eq!(changed, vec!["b".to_string()]);
    let removed = kv.missing_keys(&vec!["a".to_string(), "c".to_string()]);
    assert_eq!(removed, vec!["c".to_string()]);
}

#[test]
fn diff_treats_quoted_remote_value_as_equal() {
    let publisher = publisher();
    let kv = KVConfig::new(&vec!["a=1".to_string()]).unwrap();
    let responses = vec![Some(b64("\"1\" "))];
    let changed = publisher.changed_keys(&kv, &responses).unwrap();
    assert!(changed.is_empty());
}

#[test]
fn relative_keys_strips_the_prefix() {
    let listed = vec![
        "config/svc/dev/a".to_string(),
        "config/svc/dev/b".to_string(),
    ];
    let rel = relative_keys("config/svc/dev/", &listed).unwrap();
    assert_eq!(rel, vec!["a".to_string(), "b".to_string()]);
}

#[test]
fn relative_keys_rejects_foreign_key() {
    let listed = vec!["other/svc/dev/a".to_string()];
    match relative_keys("config/svc/dev/", &listed) {
        Err(Error::Generic) => {}
        _ => panic!("expected a generic error"),
    }
}

#[test]
fn reconcile_plans_puts_and_deletes() {
    let publisher = publisher();
    let sc = service_config("svc", "dev");
    let kv = KVConfig::new(&vec!["a=1".to_string(), "b= 2 ".to_string()]).unwrap();
    // Remote holds a (equal) and c (absent locally); b is new.
    let snapshot = vec!["a".to_string(), "c".to_string()];
    let responses = vec![Some(b64("1")), None];
    let report = publisher
        .reconcile(&sc, &kv, &snapshot, &responses, false)
        .unwrap();
    assert_eq!(report.stats.count, 2);
    assert_eq!(report.stats.existing, 2);
    assert_eq!(report.stats.changed, 1);
    assert_eq!(report.stats.removed, 1);
    assert_eq!(
        report.puts,
        vec![("config/svc/dev/b".to_string(), "2".to_string())]
    );
    assert_eq!(report.deletes, vec!["config/svc/dev/c".to_string()]);
}

#[test]
fn dry_run_same_statistics_no_mutations() {
    let publisher = publisher();
    let sc = service_config("svc", "dev");
    let kv = KVConfig::new(&vec!["a=1".to_string(), "b=2".to_string()]).unwrap();
    let snapshot = vec!["a".to_string(), "c".to_string()];
    let responses = vec![Some(b64("9")), None];
    let wet = publisher
        .reconcile(&sc, &kv, &snapshot, &responses, false)
        .unwrap();
    let dry = publisher
        .reconcile(&sc, &kv, &snapshot, &responses, true)
        .unwrap();
    assert_eq!(dry.stats.count, wet.stats.count);
    assert_eq!(dry.stats.changed, wet.stats.changed);
    assert_eq!(dry.stats.existing, wet.stats.existing);
    assert_eq!(dry.stats.removed, wet.stats.removed);
    assert!(dry.puts.is_empty());
    assert!(dry.deletes.is_empty());
    assert!(!wet.puts.is_empty());
    assert!(!wet.deletes.is_empty());
}

#[test]
fn statistics_are_additive() {
    let publisher = publisher();
    let sc = service_config("svc", "dev");
    let kv1 = KVConfig::new(&vec!["x=1".to_string()]).unwrap();
    let kv2 = KVConfig::new(&vec!["y=2".to_string(), "z=3".to_string()]).unwrap();
    let s1 = publisher
        .reconcile(&sc, &kv1, &vec![], &vec![None], true)
        .unwrap()
        .stats;
    let s2 = publisher
        .reconcile(&sc, &kv2, &vec!["y".to_string()], &vec![Some(b64("2")), None], true)
        .unwrap()
        .stats;
    let total = consul_publisher::publisher::total_stats(&vec![s1, s2]).unwrap();
    let summed = s1.add(&s2);
    assert_eq!(total.count, summed.count);
    assert_eq!(total.changed, summed.changed);
    assert_eq!(total.existing, summed.existing);
    assert_eq!(total.removed, summed.removed);
    assert_eq!(total.count, 3);
    assert_eq!(total.changed, 2);
    assert_eq!(total.existing, 1);
    assert_eq!(total.removed, 0);
}

#[test]
fn end_to_end_two_files_against_empty_remote() {
    // svcA.dev.conf (x=1) and svcA.prod.conf (x=2), remote empty:
    // one put per file under its own prefix; a "dev" filter keeps only the
    // first file.
    let publisher = publisher();

    let (service_a, env_dev) =
        Publisher::deduce_service_env_from_filename("svcA.dev.conf").unwrap();
    let (service_b, env_prod) =
        Publisher::deduce_service_env_from_filename("svcA.prod.conf").unwrap();
    assert_eq!(service_a, "svcA");
    assert_eq!(env_dev, "dev");
    assert_eq!(service_b, "svcA");
    assert_eq!(env_prod, "prod");

    let kv_dev = KVConfig::new(&vec!["x=1".to_string()]).unwrap();
    let kv_prod = KVConfig::new(&vec!["x=2".to_string()]).unwrap();

    let sc_dev = service_config(&service_a, &env_dev);
    let sc_prod = service_config(&service_b, &env_prod);

    let dev = publisher
        .reconcile(&sc_dev, &kv_dev, &vec![], &vec![None], false)
        .unwrap();
    let prod = publisher
        .reconcile(&sc_prod, &kv_prod, &vec![], &vec![None], false)
        .unwrap();

    assert_eq!(
        dev.puts,
        vec![("config/svcA/dev/x".to_string(), "1".to_string())]
    );
    assert_eq!(
        prod.puts,
        vec![("config/svcA/prod/x".to_string(), "2".to_string())]
    );
    assert!(dev.deletes.is_empty());
    assert!(prod.deletes.is_empty());

    // With an environment filter of "dev", only the first file is processed.
    let mut cfg = publisher.config().clone();
    cfg.filter_env = Some("dev".to_string());
    let filtering = Publisher::new(cfg).unwrap();
    assert!(filtering.env_matches_filter(&env_dev));
    assert!(!filtering.env_matches_filter(&env_prod));
}

#[test]
fn delete_plan_rejects_absolute_paths() {
    let publisher = publisher();
    let sc = ServiceConfig::new(
        "/{service}/{env}/{key}".to_string(),
        "svc".to_string(),
        "dev".to_string(),
    );
    match publisher.delete_plan(&sc, &vec!["a".to_string()]) {
        Err(Error::Template(_)) => {}
        _ => panic!("expected a template error"),
    }
}

#[test]
fn default_stats_are_zero() {
    let z = PublishStats::default();
    assert_eq!(z.count, 0);
    assert_eq!(z.changed, 0);
    assert_eq!(z.existing, 0);
    assert_eq!(z.removed, 0);
}
