//! The configuration of the proxy: ports, stores, rules and cache policies.
use vstd::prelude::*;

use crate::decimal::{decimal, format_u64};

verus! {

/// The application settings, as read from the configuration file.
#[derive(Debug, Clone)]
pub struct Settings {
    pub port: u16,
    pub metrics_port: u16,
    pub redis: Redis,
    pub sled: Sled,
    pub log_level: String,
    pub rules: Vec<Rule>,
    pub policies: Vec<Policy>,
    /// The base URL of this proxy, put in place of upstream links.
    pub url: Option<String>,
    /// Whether configuration changes are reloaded while running.
    pub hot_reload: Option<bool>,
    /// The rules of the built-in PyPI and Anaconda endpoints.
    pub builtin: Builtin,
}

#[derive(Debug, Clone)]
pub struct Redis {
    pub url: String,
}

#[derive(Debug, Clone)]
pub struct Sled {
    pub metadata_path: String,
}

/// A proxy rule: requests whose path matches `path` are served from
/// `upstream` and cached by the policy named `policy`.
#[derive(Debug, Clone)]
pub struct Rule {
    pub name: Option<String>,
    pub path: String,
    pub policy: String,
    pub upstream: String,
    pub size_limit: Option<String>,
    pub rewrite: Option<Vec<Rewrite>>,
    pub options: Option<Options>,
}

/// The rules of the built-in endpoints.
#[derive(Debug, Clone)]
pub struct Builtin {
    pub pypi_index: Rule,
    pub pypi_packages: Rule,
    pub anaconda_index: Rule,
    pub anaconda_packages: Rule,
}

/// A cache policy.
#[derive(Debug, Clone)]
pub struct Policy {
    pub name: String,
    pub typ: PolicyType,
    pub metadata_db: MetadataDb,
    pub timeout: Option<u64>,
    pub size: Option<String>,
    pub path: Option<String>,  // cache path
}

#[derive(Debug, Clone)]
pub struct Rewrite {
    pub from: String,
    pub to: String,
}

/// Options for rules
#[derive(Debug, Clone)]
pub struct Options {
    /// Override the content-type in the HTTP response header
    pub content_type: Option<String>,
}

#[derive(Debug, Copy, Clone)]
pub enum PolicyType {
    Lru,
    Ttl,
}

#[derive(Debug, Copy, Clone)]
pub enum MetadataDb {
    Sled,
    Redis,
}

/// The level of log messages to show.
#[derive(Debug, Copy, Clone)]
pub enum LogLevel {
    Error,
    Warn,
    Info,
    Debug,
    Trace,
}

/// The lower-case form of a string, by Unicode's rules.
pub uninterp spec fn lowercase(s: Seq<char>) -> Seq<char>;

/// `str::to_lowercase`: the string with every character in lower case.
#[verifier::external_body]
fn to_lowercase(s: &str) -> (r: String)
    ensures
        r@ == lowercase(s@),
{
    s.to_lowercase()
}

/// The log level that a lower-case level name stands for; `info` for any other name.
pub open spec fn level_of_name(s: Seq<char>) -> LogLevel {
    if s == "error"@ {
        LogLevel::Error
    } else if s == "warn"@ {
        LogLevel::Warn
    } else if s == "info"@ {
        LogLevel::Info
    } else if s == "debug"@ {
        LogLevel::Debug
    } else if s == "trace"@ {
        LogLevel::Trace
    } else {
        LogLevel::Info
    }
}

/// A rule with no name and empty path, policy and upstream.
pub open spec fn is_blank_rule(r: Rule) -> bool {
    &&& r.name is None
    &&& r.path@ == Seq::<char>::empty()
    &&& r.policy@ == Seq::<char>::empty()
    &&& r.upstream@ == Seq::<char>::empty()
    &&& r.size_limit is None
    &&& r.rewrite is None
    &&& r.options is None
}

fn blank_rule() -> (r: Rule)
    ensures
        is_blank_rule(r),
{
    Rule {
        name: None,
        path: String::new(),
        policy: String::new(),
        upstream: String::new(),
        size_limit: None,
        rewrite: None,
        options: None,
    }
}

/// The name given to the unnamed rule at `idx`: `rule_<idx>`.
pub open spec fn rule_name_spec(idx: nat) -> Seq<char> {
    "rule_"@ + decimal(idx)
}

fn rule_name(idx: usize) -> (r: String)
    ensures
        r@ == rule_name_spec(idx as nat),
{
    let mut s = String::from_str("rule_");
    let d = format_u64(idx as u64);
    s.append(d.as_str());
    s
}

impl Settings {
    /// The settings used when no configuration is given.
    pub fn default() -> (r: Self)
        ensures
            r.port == 9000,
            r.metrics_port == 9001,
            r.redis.url@ == "redis://localhost"@,
            r.sled.metadata_path@ == "sled/metadata"@,
            r.log_level@ == "info"@,
            r.rules@.len() == 0,
            r.policies@.len() == 0,
            r.url is None,
            r.hot_reload is None,
            is_blank_rule(r.builtin.pypi_index),
            is_blank_rule(r.builtin.pypi_packages),
            is_blank_rule(r.builtin.anaconda_index),
            is_blank_rule(r.builtin.anaconda_packages),
    {
        Settings {
            port: 9000,
            metrics_port: 9001,
            redis: Redis { url: String::from_str("redis://localhost") },
            sled: Sled { metadata_path: String::from_str("sled/metadata") },
            log_level: String::from_str("info"),
            rules: Vec::new(),
            policies: Vec::new(),
            url: None,
            hot_reload: None,
            builtin: Builtin {
                pypi_index: blank_rule(),
                pypi_packages: blank_rule(),
                anaconda_index: blank_rule(),
                anaconda_packages: blank_rule(),
            },
        }
    }

    /// Names every unnamed rule after its position: `rule_<idx>`. Named
    /// rules, and everything else, stay as they are.
    pub fn name_unnamed_rules(&mut self)
        ensures
            final(self).rules@.len() == old(self).rules@.len(),
            forall|i: int| 0 <= i < old(self).rules@.len() ==> {
                let r0 = #[trigger] old(self).rules@[i];
                let r1 = final(self).rules@[i];
                &&& r1.name is Some
                &&& r1.name->0@ == match r0.name {
                    Some(n) => n@,
                    None => rule_name_spec(i as nat),
                }
                &&& r1.path == r0.path
                &&& r1.policy == r0.policy
                &&& r1.upstream == r0.upstream
                &&& r1.size_limit == r0.size_limit
                &&& r1.rewrite == r0.rewrite
                &&& r1.options == r0.options
            },
            final(self).port == old(self).port,
            final(self).metrics_port == old(self).metrics_port,
            final(self).redis == old(self).redis,
            final(self).sled == old(self).sled,
            final(self).log_level == old(self).log_level,
            final(self).policies == old(self).policies,
            final(self).url == old(self).url,
            final(self).hot_reload == old(self).hot_reload,
            final(self).builtin == old(self).builtin,
    {
        let n = self.rules.len();
        let mut i: usize = 0;
        while i < n
            invariant
                n == old(self).rules@.len(),
                self.rules@.len() == n,
                i <= n,
                forall|j: int| i <= j < n ==> self.rules@[j] == old(self).rules@[j],
                forall|j: int| 0 <= j < i ==> {
                    let r0 = #[trigger] old(self).rules@[j];
                    let r1 = self.rules@[j];
                    &&& r1.name is Some
                    &&& r1.name->0@ == match r0.name {
                        Some(n) => n@,
                        None => rule_name_spec(j as nat),
                    }
                    &&& r1.path == r0.path
                    &&& r1.policy == r0.policy
                    &&& r1.upstream == r0.upstream
                    &&& r1.size_limit == r0.size_limit
                    &&& r1.rewrite == r0.rewrite
                    &&& r1.options == r0.options
                },
                self.port == old(self).port,
                self.metrics_port == old(self).metrics_port,
                self.redis == old(self).redis,
                self.sled == old(self).sled,
                self.log_level == old(self).log_level,
                self.policies == old(self).policies,
                self.url == old(self).url,
                self.hot_reload == old(self).hot_reload,
                self.builtin == old(self).builtin,
            decreases n - i,
        {
            if self.rules[i].name.is_none() {
                self.rules[i].name = Some(rule_name(i));
            }
            i = i + 1;
        }
    }

    /// The URL of the metadata store.
    pub fn get_redis_url(&self) -> (r: String)
        ensures
            r@ == self.redis.url@,
    {
        self.redis.url.clone()
    }

    /// The configured log level, read case-insensitively; `info` when the
    /// name is none of `error`, `warn`, `info`, `debug`, `trace`.
    pub fn get_log_level(&self) -> (r: LogLevel)
        ensures
            r == level_of_name(lowercase(self.log_level@)),
    {
        let l = to_lowercase(self.log_level.as_str());
        if l == String::from_str("error") {
            LogLevel::Error
        } else if l == String::from_str("warn") {
            LogLevel::Warn
        } else if l == String::from_str("info") {
            LogLevel::Info
        } else if l == String::from_str("debug") {
            LogLevel::Debug
        } else if l == String::from_str("trace") {
            LogLevel::Trace
        } else {
            LogLevel::Info
        }
    }
}

/// The label of a rule in metrics: its name, or `unnamed_rules`.
pub fn rule_label(rule: &Rule) -> (r: String)
    ensures
        r@ == match rule.name {
            Some(n) => n@,
            None => "unnamed_rules"@,
        },
{
    match &rule.name {
        Some(n) => n.clone(),
        None => String::from_str("unnamed_rules"),
    }
}

} // verus!
