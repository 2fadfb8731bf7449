use mirror_cache::settings::{rule_label, LogLevel, Rule, Settings};

fn new_rule(name: Option<String>) -> Rule {
    Rule {
        name,
        path: "".into(),
        policy: "".into(),
        upstream: "".into(),
        size_limit: None,
        rewrite: None,
        options: None,
    }
}

#[test]
fn get_rule_label_test() {
    let rule = new_rule(Some("awesome".into()));
    assert_eq!(rule_label(&rule), "awesome");
    let rule = new_rule(None);
    assert_eq!(rule_label(&rule), "unnamed_rules");
}

#[test]
fn default_settings() {
    let s = Settings::default();
    assert_eq!(s.port, 9000);
    assert_eq!(s.metrics_port, 9001);
    assert_eq!(s.get_redis_url(), "redis://localhost");
    assert_eq!(s.sled.metadata_path, "sled/metadata");
    assert_eq!(s.log_level, "info");
    assert!(s.rules.is_empty());
    assert!(s.policies.is_empty());
    assert!(s.url.is_none());
    assert!(s.builtin.pypi_index.upstream.is_empty());
}

#[test]
fn log_level_is_read_case_insensitively() {
    let mut s = Settings::default();
    let cases = [
        ("error", LogLevel::Error),
        ("WARN", LogLevel::Warn),
        ("Info", LogLevel::Info),
        ("debug", LogLevel::Debug),
        ("TrAcE", LogLevel::Trace),
        ("verbose", LogLevel::Info),
        ("", LogLevel::Info),
    ];
    for (name, level) in cases.iter() {
        s.log_level = name.to_string();
        assert_eq!(format!("{:?}", s.get_log_level()), format!("{:?}", level));
    }
}

#[test]
fn unnamed_rules_are_named_by_position() {
    let mut s = Settings::default();
    s.rules = vec![new_rule(None), new_rule(Some("x".into())), new_rule(None)];
    s.name_unnamed_rules();
    let names: Vec<String> = s.rules.iter().map(|r| r.name.clone().unwrap()).collect();
    assert_eq!(names, vec!["rule_0", "x", "rule_2"]);
    assert_eq!(rule_label(&s.rules[2]), "rule_2");
}
