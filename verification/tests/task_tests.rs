use mirror_cache::settings::Settings;
use mirror_cache::task::{resolve_task_upstream, Task};

#[test]
fn task_keys() {
    assert_eq!(Task::PypiIndexTask { pkg_name: "numpy".into() }.to_key(), "pypi_index_numpy");
    assert_eq!(Task::PypiPackagesTask { pkg_path: "packages/a/b.whl".into() }.to_key(), "packages/a/b.whl");
    assert_eq!(Task::AnacondaIndexTask { path: "main/repodata.json".into() }.to_key(), "anaconda_index_main/repodata.json");
    assert_eq!(Task::AnacondaPackagesTask { path: "x.tar.bz2".into() }.to_key(), "anaconda_x.tar.bz2");
    assert_eq!(
        Task::Others { rule_id: 3, url: "https://example.com/a?u=http://b".into() }.to_key(),
        "rule_3_https/example.com/a?u=http://b"
    );
    assert_eq!(Task::Others { rule_id: 12, url: "http://h/p".into() }.to_key(), "rule_12_http/h/p");
    assert_eq!(Task::Others { rule_id: 0, url: "ftp://h".into() }.to_key(), "rule_0_raw/ftp://h");
}

#[test]
fn task_keys_do_not_collide() {
    let a = Task::PypiIndexTask { pkg_name: "x".into() };
    let b = Task::PypiPackagesTask { pkg_path: "pypi_index_x".into() };
    assert_ne!(a.to_key(), b.to_key());
    let c = Task::AnacondaIndexTask { path: "x".into() };
    let d = Task::AnacondaPackagesTask { path: "index_x".into() };
    assert_ne!(c.to_key(), d.to_key());
    let e = Task::Others { rule_id: 1, url: "http://x".into() };
    let f = Task::Others { rule_id: 1, url: "http/x".into() };
    let g = Task::Others { rule_id: 2, url: "http://x".into() };
    let h = Task::Others { rule_id: 11, url: "http://x".into() };
    let keys = vec![e.to_key(), f.to_key(), g.to_key(), h.to_key()];
    for i in 0..keys.len() {
        for j in 0..keys.len() {
            if i != j {
                assert_ne!(keys[i], keys[j]);
            }
        }
    }
}

#[test]
fn package_paths_that_look_like_other_keys_are_escaped() {
    assert_eq!(Task::PypiPackagesTask { pkg_path: "pypi_index_x".into() }.to_key(), "~pypi_index_x");
    assert_eq!(Task::PypiPackagesTask { pkg_path: "anaconda_x".into() }.to_key(), "~anaconda_x");
    assert_eq!(Task::PypiPackagesTask { pkg_path: "rule_1_x".into() }.to_key(), "~rule_1_x");
    assert_eq!(Task::PypiPackagesTask { pkg_path: "~a".into() }.to_key(), "~~a");
    assert_eq!(Task::PypiPackagesTask { pkg_path: "pypi_x".into() }.to_key(), "pypi_x");
    assert_eq!(Task::AnacondaPackagesTask { path: "index_x".into() }.to_key(), "anaconda_~index_x");
    assert_eq!(Task::AnacondaPackagesTask { path: "~x".into() }.to_key(), "anaconda_~~x");
    assert_eq!(Task::AnacondaPackagesTask { path: "indexes/x".into() }.to_key(), "anaconda_indexes/x");
    let p = Task::PypiPackagesTask { pkg_path: "anaconda_index_x".into() };
    let a = Task::AnacondaIndexTask { path: "x".into() };
    assert_ne!(p.to_key(), a.to_key());
}

#[test]
fn rewrite_only_pypi_index() {
    let body = "see https://files.pythonhosted.org/packages/x".to_string();
    let t = Task::PypiIndexTask { pkg_name: "x".into() };
    assert_eq!(t.rewrite_upstream(body.clone(), "http://m"), "see http://m/pypi/packages/x");
    let t = Task::Others { rule_id: 0, url: "u".into() };
    assert_eq!(t.rewrite_upstream(body.clone(), "http://m"), body);
}

#[test]
fn upstream_urls() {
    let mut c = Settings::default();
    c.builtin.pypi_index.upstream = "https://pypi.org/simple".into();
    c.builtin.anaconda_packages.upstream = "https://repo.anaconda.com/pkgs".into();
    assert_eq!(
        resolve_task_upstream(&c, &Task::PypiIndexTask { pkg_name: "hello-world".into() }),
        "https://pypi.org/simple/hello-world"
    );
    assert_eq!(
        resolve_task_upstream(&c, &Task::AnacondaPackagesTask { path: "main/x.conda".into() }),
        "https://repo.anaconda.com/pkgs/main/x.conda"
    );
    assert_eq!(
        resolve_task_upstream(&c, &Task::Others { rule_id: 1, url: "http://h/p".into() }),
        "http://h/p"
    );
}

use mirror_cache::settings::Rule;
use mirror_cache::task::{compile_rules, first_match, match_rule};

fn rule(path: &str, upstream: &str) -> Rule {
    Rule {
        name: None,
        path: path.into(),
        policy: "".into(),
        upstream: upstream.into(),
        size_limit: None,
        rewrite: None,
        options: None,
    }
}

#[test]
fn first_matching_rule_makes_the_task() {
    let rules = vec![
        rule("^pypi/simple/", "https://pypi.org/simple/"),
        rule("^anaconda/(.*)$", "https://repo.anaconda.com/$1"),
        rule("^anaconda/", "https://other/"),
    ];
    let compiled = compile_rules(&rules).unwrap();
    assert_eq!(compiled.len(), 3);
    match match_rule(&compiled, "anaconda/pkgs/main/x.conda") {
        Some(Task::Others { rule_id, url }) => {
            assert_eq!(rule_id, 1);
            assert_eq!(url, "https://repo.anaconda.com/pkgs/main/x.conda");
        }
        other => panic!("unexpected {:?}", other),
    }
    match match_rule(&compiled, "pypi/simple/numpy") {
        Some(Task::Others { rule_id, url }) => {
            assert_eq!(rule_id, 0);
            assert_eq!(url, "https://pypi.org/simple/numpy");
        }
        other => panic!("unexpected {:?}", other),
    }
    assert!(match_rule(&compiled, "nothing/here").is_none());
}

#[test]
fn invalid_rule_patterns_are_refused() {
    let rules = vec![rule("^ok/", "u"), rule("(", "never"), rule("[", "never")];
    assert_eq!(compile_rules(&rules).err(), Some(1));
    assert!(compile_rules(&vec![]).unwrap().is_empty());
}

#[test]
fn first_true() {
    assert_eq!(first_match(&vec![false, true, true]), Some(1));
    assert_eq!(first_match(&vec![true]), Some(0));
    assert_eq!(first_match(&vec![false, false]), None);
    assert_eq!(first_match(&vec![]), None);
}

use mirror_cache::task::{task_eq, TaskSet};

#[test]
fn tasks_in_flight_are_not_repeated() {
    let mut set = TaskSet::new();
    let a = Task::PypiIndexTask { pkg_name: "numpy".into() };
    let b = Task::PypiPackagesTask { pkg_path: "numpy".into() };
    let c = Task::Others { rule_id: 1, url: "http://u".into() };
    assert!(set.insert(a.clone()));
    assert!(set.insert(b.clone()));
    assert!(!set.insert(Task::PypiIndexTask { pkg_name: "numpy".into() }));
    assert_eq!(set.len(), 2);
    assert!(set.contains(&a) && set.contains(&b) && !set.contains(&c));
    set.remove(&a);
    assert!(!set.contains(&a) && set.contains(&b));
    assert_eq!(set.len(), 1);
    set.remove(&c);
    assert_eq!(set.len(), 1);
    assert!(set.insert(a));
    assert!(task_eq(&c, &Task::Others { rule_id: 1, url: "http://u".into() }));
    assert!(!task_eq(&c, &Task::Others { rule_id: 2, url: "http://u".into() }));
}

use mirror_cache::task::{
    cache_slot, download_to_store, serve_step, upstream_answer, Body, CacheSlot, ServeAction, UpstreamAnswer,
};

#[test]
fn cache_slots() {
    assert!(matches!(cache_slot(&Task::PypiIndexTask { pkg_name: "a".into() }), CacheSlot::PypiIndex));
    assert!(matches!(cache_slot(&Task::AnacondaPackagesTask { path: "a".into() }), CacheSlot::AnacondaPackages));
    assert!(matches!(cache_slot(&Task::Others { rule_id: 4, url: "u".into() }), CacheSlot::Rule(4)));
}

#[test]
fn serving_hits_and_misses() {
    let mut c = Settings::default();
    c.builtin.pypi_index.upstream = "https://pypi.org/simple".into();
    let mut set = TaskSet::new();
    let t = Task::PypiIndexTask { pkg_name: "numpy".into() };
    assert!(matches!(serve_step(&mut set, &c, &t, true), ServeAction::FromCache));
    assert_eq!(set.len(), 0);
    match serve_step(&mut set, &c, &t, false) {
        ServeAction::FetchUpstream { url, start_download } => {
            assert_eq!(url, "https://pypi.org/simple/numpy");
            assert!(start_download);
        }
        ServeAction::FromCache => panic!("a miss is fetched"),
    }
    assert!(set.contains(&t));
    match serve_step(&mut set, &c, &t, false) {
        ServeAction::FetchUpstream { start_download, .. } => assert!(!start_download),
        ServeAction::FromCache => panic!("a miss is fetched"),
    }
    assert_eq!(set.len(), 1);
}

#[test]
fn upstream_answers() {
    let idx = Task::PypiIndexTask { pkg_name: "x".into() };
    let other = Task::Others { rule_id: 0, url: "u".into() };
    let page = "https://files.pythonhosted.org/packages/x".to_string();
    assert!(matches!(upstream_answer(&idx, Some("http://m"), false, false, None), UpstreamAnswer::Failed));
    assert!(matches!(upstream_answer(&other, None, false, true, None), UpstreamAnswer::Failed));
    assert!(matches!(upstream_answer(&other, None, true, true, None), UpstreamAnswer::Redirect));
    assert!(matches!(upstream_answer(&idx, None, true, true, None), UpstreamAnswer::Redirect));
    match upstream_answer(&idx, Some("http://m"), true, false, Some(page.clone())) {
        UpstreamAnswer::Text(t) => assert_eq!(t, "http://m/pypi/packages/x"),
        _ => panic!("a PyPI index page is answered with its text"),
    }
    match upstream_answer(&idx, None, true, false, Some(page.clone())) {
        UpstreamAnswer::Text(t) => assert_eq!(t, page),
        _ => panic!("a PyPI index page is answered with its text"),
    }
    assert!(matches!(upstream_answer(&other, Some("http://m"), true, false, None), UpstreamAnswer::Stream));
}

#[test]
fn downloads_stored_under_the_task_key() {
    let idx = Task::PypiIndexTask { pkg_name: "x".into() };
    let pkg = Task::PypiPackagesTask { pkg_path: "p.whl".into() };
    let page = "see https://files.pythonhosted.org/packages/x".to_string();
    match download_to_store(&idx, Some("http://m"), true, false, Some(Body::Text(page.clone()))) {
        Some((key, Body::Text(t))) => {
            assert_eq!(key, "pypi_index_x");
            assert_eq!(t, "see http://m/pypi/packages/x");
        }
        _ => panic!("stored as rewritten text"),
    }
    match download_to_store(&idx, None, true, false, Some(Body::Text(page.clone()))) {
        Some((_, Body::Text(t))) => assert_eq!(t, page),
        _ => panic!("stored as text"),
    }
    match download_to_store(&pkg, Some("http://m"), true, false, Some(Body::Bytes(vec![1, 2]))) {
        Some((key, Body::Bytes(b))) => {
            assert_eq!(key, "p.whl");
            assert_eq!(b, vec![1, 2]);
        }
        _ => panic!("stored as bytes"),
    }
    assert!(download_to_store(&pkg, None, false, false, Some(Body::Bytes(vec![1]))).is_none());
    assert!(download_to_store(&pkg, None, true, true, Some(Body::Bytes(vec![1]))).is_none());
    assert!(download_to_store(&pkg, None, true, false, None).is_none());
}

use mirror_cache::settings::{MetadataDb, Policy, PolicyType};
use mirror_cache::task::{choose_policy, exceeds_size_limit, rule_size_limit, task_rule, PolicyChoice};

fn sized_rule(limit: Option<&str>) -> Rule {
    let mut r = rule("^x/", "http://x/");
    r.size_limit = limit.map(|s| s.to_string());
    r
}

#[test]
fn rules_of_tasks() {
    let mut c = Settings::default();
    c.builtin.pypi_packages.upstream = "https://files".into();
    c.rules = vec![rule("^a/", "http://a/"), rule("^b/", "http://b/")];
    let t = Task::PypiPackagesTask { pkg_path: "p".into() };
    assert_eq!(task_rule(&c, &t).unwrap().upstream, "https://files");
    let t = Task::Others { rule_id: 1, url: "u".into() };
    assert_eq!(task_rule(&c, &t).unwrap().upstream, "http://b/");
    let t = Task::Others { rule_id: 2, url: "u".into() };
    assert!(task_rule(&c, &t).is_none());
}

#[test]
fn size_limits() {
    assert_eq!(rule_size_limit(&sized_rule(None)), Some(0));
    assert_eq!(rule_size_limit(&sized_rule(Some("2 KB"))), Some(2000));
    assert_eq!(rule_size_limit(&sized_rule(Some("lots"))), None);
    let mut c = Settings::default();
    c.rules = vec![sized_rule(Some("1 KB")), sized_rule(None), sized_rule(Some("lots"))];
    let t0 = Task::Others { rule_id: 0, url: "u".into() };
    let t1 = Task::Others { rule_id: 1, url: "u".into() };
    let t2 = Task::Others { rule_id: 2, url: "u".into() };
    assert!(exceeds_size_limit(&c, &t0, Some(1001)));
    assert!(!exceeds_size_limit(&c, &t0, Some(1000)));
    assert!(!exceeds_size_limit(&c, &t0, None));
    assert!(!exceeds_size_limit(&c, &t1, Some(u64::MAX)));
    assert!(!exceeds_size_limit(&c, &t2, Some(u64::MAX)));
    c.builtin.pypi_packages.size_limit = Some("10 B".into());
    let p = Task::PypiPackagesTask { pkg_path: "p".into() };
    assert!(exceeds_size_limit(&c, &p, Some(11)));
    assert!(!exceeds_size_limit(&c, &Task::PypiIndexTask { pkg_name: "p".into() }, Some(11)));
}

fn policy(name: &str, typ: PolicyType, size: Option<&str>, timeout: Option<u64>, path: Option<&str>) -> Policy {
    Policy {
        name: name.into(),
        typ,
        metadata_db: MetadataDb::Redis,
        timeout,
        size: size.map(|s| s.to_string()),
        path: path.map(|s| s.to_string()),
    }
}

#[test]
fn policies_chosen_by_name() {
    let mut r = rule("^a/", "http://a/");
    let policies = vec![
        policy("lru", PolicyType::Lru, Some("1 MB"), None, Some("data/lru")),
        policy("lru_default", PolicyType::Lru, None, None, None),
        policy("bad", PolicyType::Lru, Some("huge"), None, None),
        policy("ttl", PolicyType::Ttl, None, Some(60), None),
        policy("ttl_none", PolicyType::Ttl, None, None, None),
        policy("lru", PolicyType::Ttl, None, Some(5), None),
    ];
    r.policy = "lru".into();
    match choose_policy(&r, &policies) {
        PolicyChoice::Lru { path, size } => {
            assert_eq!(path, "data/lru");
            assert_eq!(size, 1_000_000);
        }
        _ => panic!("the first policy of that name decides"),
    }
    r.policy = "lru_default".into();
    match choose_policy(&r, &policies) {
        PolicyChoice::Lru { path, size } => {
            assert_eq!(path, "cache");
            assert_eq!(size, 0);
        }
        _ => panic!("an LRU policy"),
    }
    r.policy = "bad".into();
    match choose_policy(&r, &policies) {
        PolicyChoice::InvalidSize { policy, size } => {
            assert_eq!(policy, "bad");
            assert_eq!(size, "huge");
        }
        _ => panic!("an invalid size"),
    }
    r.policy = "ttl".into();
    match choose_policy(&r, &policies) {
        PolicyChoice::Ttl { path, timeout } => {
            assert_eq!(path, "cache");
            assert_eq!(timeout, 60);
        }
        _ => panic!("a TTL policy"),
    }
    r.policy = "ttl_none".into();
    assert!(matches!(choose_policy(&r, &policies), PolicyChoice::MissingTimeout { .. }));
    r.policy = "none".into();
    assert!(matches!(choose_policy(&r, &policies), PolicyChoice::NoCache));
}

#[test]
fn zero_size_limit_is_unlimited() {
    let mut c = Settings::default();
    c.rules = vec![sized_rule(Some("0")), sized_rule(None)];
    for id in 0..2 {
        let t = Task::Others { rule_id: id, url: "u".into() };
        assert!(!exceeds_size_limit(&c, &t, Some(u64::MAX)));
    }
}
