//! Download tasks: what a request asks for, where it is cached and where it
//! is fetched from.
use vstd::prelude::*;

use crate::settings::{Policy, PolicyType, Rule, Settings};
use crate::size::{parse_size, size_spec};
use crate::text::string_push;
use crate::decimal::{decimal, format_u64, is_digit_char, lemma_decimal_reads_back};
use crate::text::chars_of;
use crate::util::{matches_at, push_all, pypi_index_rewrite, pypi_index_rewrite_spec};

verus! {

pub type RuleId = usize;

/// A request to be served from a cache or fetched from upstream.
#[derive(Clone, Debug, PartialEq, Eq, Hash)]
pub enum Task {
    PypiIndexTask { pkg_name: String },
    PypiPackagesTask { pkg_path: String },
    AnacondaIndexTask { path: String },
    AnacondaPackagesTask { path: String },
    Others { rule_id: RuleId, url: String },
}

/// The cache key of an upstream URL: a leading `http://` becomes `http/` and a
/// leading `https://` becomes `https/`, so that the key reads as a path; any
/// other URL is kept whole under `raw/`. Different URLs get different keys.
pub open spec fn url_key_spec(url: Seq<char>) -> Seq<char> {
    if url.len() >= 7 && url.take(7) == "http://"@ {
        "http/"@ + url.skip(7)
    } else if url.len() >= 8 && url.take(8) == "https://"@ {
        "https/"@ + url.skip(8)
    } else {
        "raw/"@ + url
    }
}

/// `s` begins with `p`.
pub open spec fn starts_with(s: Seq<char>, p: Seq<char>) -> bool {
    s.len() >= p.len() && s.take(p.len() as int) == p
}

/// A package path that begins like the key of another kind of task, or like
/// an escaped path.
pub open spec fn reserved_package_path(p: Seq<char>) -> bool {
    starts_with(p, "pypi_index_"@) || starts_with(p, "anaconda_"@) || starts_with(p, "rule_"@)
        || starts_with(p, "~"@)
}

/// The key of a PyPI package: its path, escaped by a leading `~` only when
/// the path begins like another key.
pub open spec fn pypi_package_key(p: Seq<char>) -> Seq<char> {
    if reserved_package_path(p) {
        "~"@ + p
    } else {
        p
    }
}

/// The key of an Anaconda package: `anaconda_` and its path, with a `~`
/// after `anaconda_` only when the path begins with `index_` or `~`.
pub open spec fn anaconda_package_key(p: Seq<char>) -> Seq<char> {
    if starts_with(p, "index_"@) || starts_with(p, "~"@) {
        "anaconda_~"@ + p
    } else {
        "anaconda_"@ + p
    }
}

/// The cache key of a task: for a PyPI index page `pypi_index_<name>`, for a
/// PyPI package its path, for an Anaconda index `anaconda_index_<path>`, for
/// an Anaconda package `anaconda_<path>`, and for a configured rule
/// `rule_<id>_<url key>`. A path that would begin like the key of another
/// kind is escaped with `~`, so tasks that ask for different downloads get
/// different keys (`law_task_keys_unique`).
pub open spec fn task_key_spec(t: Task) -> Seq<char> {
    match t {
        Task::PypiIndexTask { pkg_name } => "pypi_index_"@ + pkg_name@,
        Task::PypiPackagesTask { pkg_path } => pypi_package_key(pkg_path@),
        Task::AnacondaIndexTask { path } => "anaconda_index_"@ + path@,
        Task::AnacondaPackagesTask { path } => anaconda_package_key(path@),
        Task::Others { rule_id, url } => "rule_"@ + decimal(rule_id as nat) + seq!['_'] + url_key_spec(url@),
    }
}

proof fn lemma_starts(b: Seq<char>, x: Seq<char>)
    ensures
        starts_with(b + x, b),
{
    assert((b + x).take(b.len() as int) =~= b);
}

proof fn lemma_starts_trans(s: Seq<char>, p: Seq<char>, q: Seq<char>)
    requires
        starts_with(s, p),
        starts_with(p, q),
    ensures
        starts_with(s, q),
{
    assert(s.take(q.len() as int) =~= p.take(q.len() as int));
}

/// Keys that start differently are different.
proof fn lemma_prefix_differs(a: Seq<char>, x: Seq<char>, b: Seq<char>, y: Seq<char>, i: int)
    requires
        0 <= i < a.len(),
        i < b.len(),
        a[i] != b[i],
    ensures
        a + x != b + y,
{
    assert((a + x)[i] == a[i]);
    assert((b + y)[i] == b[i]);
}

/// Keys with the same prefix are equal only with equal rests.
proof fn lemma_prefix_cancel(a: Seq<char>, x: Seq<char>, y: Seq<char>)
    requires
        a + x == a + y,
    ensures
        x == y,
{
    assert(x =~= (a + x).skip(a.len() as int));
    assert(y =~= (a + y).skip(a.len() as int));
}

proof fn lemma_url_key_injective(u1: Seq<char>, u2: Seq<char>)
    requires
        url_key_spec(u1) == url_key_spec(u2),
    ensures
        u1 == u2,
{
    reveal_strlit("http://");
    reveal_strlit("https://");
    reveal_strlit("http/");
    reveal_strlit("https/");
    reveal_strlit("raw/");
    let h1 = u1.len() >= 7 && u1.take(7) == "http://"@;
    let s1 = !h1 && u1.len() >= 8 && u1.take(8) == "https://"@;
    let h2 = u2.len() >= 7 && u2.take(7) == "http://"@;
    let s2 = !h2 && u2.len() >= 8 && u2.take(8) == "https://"@;
    if h1 && h2 {
        lemma_prefix_cancel("http/"@, u1.skip(7), u2.skip(7));
        assert(u1 =~= u1.take(7) + u1.skip(7));
        assert(u2 =~= u2.take(7) + u2.skip(7));
    } else if s1 && s2 {
        lemma_prefix_cancel("https/"@, u1.skip(8), u2.skip(8));
        assert(u1 =~= u1.take(8) + u1.skip(8));
        assert(u2 =~= u2.take(8) + u2.skip(8));
    } else if !h1 && !s1 && !h2 && !s2 {
        lemma_prefix_cancel("raw/"@, u1, u2);
    } else if h1 && s2 {
        lemma_prefix_differs("http/"@, u1.skip(7), "https/"@, u2.skip(8), 4);
    } else if s1 && h2 {
        lemma_prefix_differs("https/"@, u1.skip(8), "http/"@, u2.skip(7), 4);
    } else if h1 {
        lemma_prefix_differs("http/"@, u1.skip(7), "raw/"@, u2, 0);
    } else if s1 {
        lemma_prefix_differs("https/"@, u1.skip(8), "raw/"@, u2, 0);
    } else if h2 {
        lemma_prefix_differs("raw/"@, u1, "http/"@, u2.skip(7), 0);
    } else {
        lemma_prefix_differs("raw/"@, u1, "https/"@, u2.skip(8), 0);
    }
}

/// The digits of two numbers, each followed by `_`, begin two equal texts
/// only when the numbers are equal and so are the rests.
proof fn lemma_numbered_cancel(n1: nat, x: Seq<char>, n2: nat, y: Seq<char>)
    requires
        decimal(n1) + seq!['_'] + x == decimal(n2) + seq!['_'] + y,
    ensures
        n1 == n2,
        x == y,
{
    lemma_decimal_reads_back(n1);
    lemma_decimal_reads_back(n2);
    let d1 = decimal(n1);
    let d2 = decimal(n2);
    let k = d1 + seq!['_'] + x;
    if d1.len() < d2.len() {
        assert(k[d1.len() as int] == '_');
        assert((d2 + seq!['_'] + y)[d1.len() as int] == d2[d1.len() as int]);
        assert(is_digit_char(d2[d1.len() as int]));
        assert(false);
    } else if d2.len() < d1.len() {
        assert((d2 + seq!['_'] + y)[d2.len() as int] == '_');
        assert(k[d2.len() as int] == d1[d2.len() as int]);
        assert(is_digit_char(d1[d2.len() as int]));
        assert(false);
    }
    assert(d1 =~= k.take(d1.len() as int));
    assert(d2 =~= (d2 + seq!['_'] + y).take(d2.len() as int));
    assert(x =~= k.skip(d1.len() as int + 1));
    assert(y =~= (d2 + seq!['_'] + y).skip(d2.len() as int + 1));
}

/// Facts about the key of a task: what it begins with.
proof fn lemma_key_prefix(t: Task)
    ensures
        t is PypiIndexTask ==> starts_with(task_key_spec(t), "pypi_index_"@),
        t is AnacondaIndexTask ==> starts_with(task_key_spec(t), "anaconda_"@),
        t is AnacondaPackagesTask ==> starts_with(task_key_spec(t), "anaconda_"@),
        t is Others ==> starts_with(task_key_spec(t), "rule_"@),
        t is PypiPackagesTask && reserved_package_path(t->pkg_path@) ==> starts_with(task_key_spec(t), "~"@),
{
    reveal_strlit("anaconda_index_");
    reveal_strlit("anaconda_~");
    reveal_strlit("anaconda_");
    match t {
        Task::PypiIndexTask { pkg_name } => lemma_starts("pypi_index_"@, pkg_name@),
        Task::PypiPackagesTask { pkg_path } => lemma_starts("~"@, pkg_path@),
        Task::AnacondaIndexTask { path } => {
            lemma_starts("anaconda_index_"@, path@);
            lemma_starts("anaconda_"@, "index_"@);
            assert("anaconda_index_"@ =~= "anaconda_"@ + "index_"@) by {
                reveal_strlit("index_");
            }
            lemma_starts_trans(task_key_spec(t), "anaconda_index_"@, "anaconda_"@);
        },
        Task::AnacondaPackagesTask { path } => {
            lemma_starts("anaconda_~"@, path@);
            lemma_starts("anaconda_"@, path@);
            assert(starts_with("anaconda_~"@, "anaconda_"@)) by {
                assert("anaconda_~"@.take(9) =~= "anaconda_"@);
            }
            if starts_with(path@, "index_"@) || starts_with(path@, "~"@) {
                lemma_starts_trans(task_key_spec(t), "anaconda_~"@, "anaconda_"@);
            }
        },
        Task::Others { rule_id, url } => {
            let a = decimal(rule_id as nat) + seq!['_'] + url_key_spec(url@);
            assert("rule_"@ + a =~= task_key_spec(t));
            lemma_starts("rule_"@, a);
        },
    }
}

/// A path equal to a key that begins like another kind's key is reserved.
proof fn lemma_unescaped_not(p: Seq<char>, k: Seq<char>, q: Seq<char>)
    requires
        p == k,
        starts_with(k, q),
        q == "pypi_index_"@ || q == "anaconda_"@ || q == "rule_"@ || q == "~"@,
    ensures
        reserved_package_path(p),
{
}

/// Task keys are unique: tasks with the same key ask for the same download.
pub proof fn law_task_keys_unique(t1: Task, t2: Task)
    ensures
        task_key_spec(t1) == task_key_spec(t2) ==> same_task(t1, t2),
{
    reveal_strlit("pypi_index_");
    reveal_strlit("anaconda_index_");
    reveal_strlit("anaconda_~");
    reveal_strlit("anaconda_");
    reveal_strlit("index_");
    reveal_strlit("rule_");
    reveal_strlit("~");
    if task_key_spec(t1) == task_key_spec(t2) {
        let k = task_key_spec(t1);
        lemma_key_prefix(t1);
        lemma_key_prefix(t2);
        match (t1, t2) {
            (Task::PypiIndexTask { pkg_name: x }, Task::PypiIndexTask { pkg_name: y }) => {
                lemma_prefix_cancel("pypi_index_"@, x@, y@);
            },
            (Task::AnacondaIndexTask { path: x }, Task::AnacondaIndexTask { path: y }) => {
                lemma_prefix_cancel("anaconda_index_"@, x@, y@);
            },
            (Task::PypiPackagesTask { pkg_path: x }, Task::PypiPackagesTask { pkg_path: y }) => {
                let rx = reserved_package_path(x@);
                let ry = reserved_package_path(y@);
                if rx && ry {
                    lemma_prefix_cancel("~"@, x@, y@);
                } else if rx {
                    lemma_unescaped_not(y@, k, "~"@);
                } else if ry {
                    lemma_unescaped_not(x@, k, "~"@);
                }
            },
            (Task::AnacondaPackagesTask { path: x }, Task::AnacondaPackagesTask { path: y }) => {
                let ex = starts_with(x@, "index_"@) || starts_with(x@, "~"@);
                let ey = starts_with(y@, "index_"@) || starts_with(y@, "~"@);
                if ex && ey {
                    lemma_prefix_cancel("anaconda_~"@, x@, y@);
                } else if !ex && !ey {
                    lemma_prefix_cancel("anaconda_"@, x@, y@);
                } else if ex {
                    assert("anaconda_~"@ =~= "anaconda_"@ + "~"@);
                    assert("anaconda_~"@ + x@ =~= "anaconda_"@ + ("~"@ + x@));
                    lemma_prefix_cancel("anaconda_"@, "~"@ + x@, y@);
                    lemma_starts("~"@, x@);
                } else {
                    assert("anaconda_~"@ =~= "anaconda_"@ + "~"@);
                    assert("anaconda_~"@ + y@ =~= "anaconda_"@ + ("~"@ + y@));
                    lemma_prefix_cancel("anaconda_"@, x@, "~"@ + y@);
                    lemma_starts("~"@, y@);
                }
            },
            (Task::AnacondaIndexTask { path: x }, Task::AnacondaPackagesTask { path: y }) => {
                anaconda_index_vs_package(x@, y@);
            },
            (Task::AnacondaPackagesTask { path: y }, Task::AnacondaIndexTask { path: x }) => {
                anaconda_index_vs_package(x@, y@);
            },
            (Task::Others { rule_id: r1, url: u1 }, Task::Others { rule_id: r2, url: u2 }) => {
                let a = decimal(r1 as nat) + seq!['_'] + url_key_spec(u1@);
                let b = decimal(r2 as nat) + seq!['_'] + url_key_spec(u2@);
                assert("rule_"@ + a =~= task_key_spec(t1));
                assert("rule_"@ + b =~= task_key_spec(t2));
                lemma_prefix_cancel("rule_"@, a, b);
                lemma_numbered_cancel(r1 as nat, url_key_spec(u1@), r2 as nat, url_key_spec(u2@));
                lemma_url_key_injective(u1@, u2@);
            },
            (Task::PypiPackagesTask { pkg_path: x }, _) => {
                package_vs_other(x@, t2);
            },
            (_, Task::PypiPackagesTask { pkg_path: y }) => {
                package_vs_other(y@, t1);
            },
            _ => {
                // the two keys begin with different letters
                assert(k.len() > 0 && k[0] == k.take(1)[0]);
                let f1 = if t1 is PypiIndexTask { "pypi_index_"@ } else if t1 is Others { "rule_"@ } else { "anaconda_"@ };
                let f2 = if t2 is PypiIndexTask { "pypi_index_"@ } else if t2 is Others { "rule_"@ } else { "anaconda_"@ };
                assert(k.take(f1.len() as int)[0] == f1[0]);
                assert(k.take(f2.len() as int)[0] == f2[0]);
            },
        }
    }
}

/// An Anaconda index and an Anaconda package never share a key.
proof fn anaconda_index_vs_package(x: Seq<char>, y: Seq<char>)
    ensures
        "anaconda_index_"@ + x != anaconda_package_key(y),
{
    reveal_strlit("anaconda_index_");
    reveal_strlit("anaconda_~");
    reveal_strlit("anaconda_");
    reveal_strlit("index_");
    reveal_strlit("~");
    if starts_with(y, "index_"@) || starts_with(y, "~"@) {
        lemma_prefix_differs("anaconda_index_"@, x, "anaconda_~"@, y, 9);
    } else if "anaconda_index_"@ + x == anaconda_package_key(y) {
        assert("anaconda_index_"@ + x =~= "anaconda_"@ + ("index_"@ + x));
        lemma_prefix_cancel("anaconda_"@, "index_"@ + x, y);
        lemma_starts("index_"@, x);
    }
}

/// A PyPI package never shares a key with a task of another kind.
proof fn package_vs_other(x: Seq<char>, t: Task)
    requires
        !(t is PypiPackagesTask),
    ensures
        pypi_package_key(x) != task_key_spec(t),
{
    reveal_strlit("pypi_index_");
    reveal_strlit("anaconda_");
    reveal_strlit("rule_");
    reveal_strlit("~");
    lemma_key_prefix(t);
    let k = task_key_spec(t);
    let q = if t is PypiIndexTask { "pypi_index_"@ } else if t is Others { "rule_"@ } else { "anaconda_"@ };
    if pypi_package_key(x) == k {
        if reserved_package_path(x) {
            lemma_starts("~"@, x);
            assert(k.take(1)[0] == '~');
            assert(k.take(q.len() as int)[0] == q[0]);
        } else {
            lemma_unescaped_not(x, k, q);
        }
    }
}

/// The URL that a task fetches from.
pub open spec fn task_upstream_spec(config: Settings, t: Task) -> Seq<char> {
    match t {
        Task::PypiIndexTask { pkg_name } => config.builtin.pypi_index.upstream@ + seq!['/'] + pkg_name@,
        Task::PypiPackagesTask { pkg_path } => config.builtin.pypi_packages.upstream@ + seq!['/'] + pkg_path@,
        Task::AnacondaIndexTask { path } => config.builtin.anaconda_index.upstream@ + seq!['/'] + path@,
        Task::AnacondaPackagesTask { path } => config.builtin.anaconda_packages.upstream@ + seq!['/'] + path@,
        Task::Others { url, .. } => url@,
    }
}

fn prefixed(prefix: &str, s: &String) -> (r: String)
    ensures
        r@ == prefix@ + s@,
{
    let mut r = String::from_str(prefix);
    r.append(s.as_str());
    r
}

fn joined(base: &String, s: &String) -> (r: String)
    ensures
        r@ == base@ + seq!['/'] + s@,
{
    let mut r = base.clone();
    string_push(&mut r, '/');
    r.append(s.as_str());
    r
}

impl Task {
    /// Adjusts a body fetched for the task: a PyPI index page gets its
    /// package links pointed at `to`; other bodies stay as they are.
    pub fn rewrite_upstream(&self, input: String, to: &str) -> (r: String)
        ensures
            r@ == match self {
                Task::PypiIndexTask { .. } => pypi_index_rewrite_spec(input@, to@),
                _ => input@,
            },
    {
        match self {
            Task::PypiIndexTask { .. } => pypi_index_rewrite(input.as_str(), to),
            _ => input,
        }
    }

    /// create a unique key for the current task
    pub fn to_key(&self) -> (r: String)
        ensures
            r@ == task_key_spec(*self),
    {
        match self {
            Task::PypiIndexTask { pkg_name } => prefixed("pypi_index_", pkg_name),
            Task::PypiPackagesTask { pkg_path } => pypi_package_key_exec(pkg_path),
            Task::AnacondaIndexTask { path } => prefixed("anaconda_index_", path),
            Task::AnacondaPackagesTask { path } => anaconda_package_key_exec(path),
            Task::Others { rule_id, url } => {
                let mut k = String::from_str("rule_");
                let d = format_u64(*rule_id as u64);
                k.append(d.as_str());
                string_push(&mut k, '_');
                let u = url_key(url.as_str());
                k.append(u.as_str());
                k
            },
        }
    }
}

/// Whether `c` begins with `p`.
fn has_prefix(c: &Vec<char>, p: &str) -> (r: bool)
    ensures
        r == (c@.len() >= p@.len() && c@.take(p@.len() as int) == p@),
{
    let pc = chars_of(p);
    if pc.len() > c.len() {
        return false;
    }
    assert(c@.subrange(0, pc@.len() as int) =~= c@.take(pc@.len() as int));
    matches_at(c, 0, &pc)
}

fn pypi_package_key_exec(p: &String) -> (r: String)
    ensures
        r@ == pypi_package_key(p@),
{
    let c = chars_of(p.as_str());
    if has_prefix(&c, "pypi_index_") || has_prefix(&c, "anaconda_") || has_prefix(&c, "rule_")
        || has_prefix(&c, "~") {
        prefixed("~", p)
    } else {
        p.clone()
    }
}

fn anaconda_package_key_exec(p: &String) -> (r: String)
    ensures
        r@ == anaconda_package_key(p@),
{
    let c = chars_of(p.as_str());
    if has_prefix(&c, "index_") || has_prefix(&c, "~") {
        prefixed("anaconda_~", p)
    } else {
        prefixed("anaconda_", p)
    }
}

fn url_key(url: &str) -> (r: String)
    ensures
        r@ == url_key_spec(url@),
{
    proof {
        reveal_strlit("http://");
        reveal_strlit("https://");
    }
    let c = chars_of(url);
    if has_prefix(&c, "http://") {
        let mut k = String::from_str("http/");
        push_all(&mut k, &c, 7);
        k
    } else if has_prefix(&c, "https://") {
        let mut k = String::from_str("https/");
        push_all(&mut k, &c, 8);
        k
    } else {
        let mut k = String::from_str("raw/");
        push_all(&mut k, &c, 0);
        assert(c@.skip(0) =~= c@);
        k
    }
}

/// The URL that a task fetches from: the upstream of its built-in rule
/// joined with the requested path, or the URL of a task of a configured rule.
pub fn resolve_task_upstream(config: &Settings, task: &Task) -> (r: String)
    ensures
        r@ == task_upstream_spec(*config, *task),
{
    match task {
        Task::PypiIndexTask { pkg_name } => joined(&config.builtin.pypi_index.upstream, pkg_name),
        Task::PypiPackagesTask { pkg_path } => joined(&config.builtin.pypi_packages.upstream, pkg_path),
        Task::AnacondaIndexTask { path } => joined(&config.builtin.anaconda_index.upstream, path),
        Task::AnacondaPackagesTask { path } => joined(&config.builtin.anaconda_packages.upstream, path),
        Task::Others { url, .. } => url.clone(),
    }
}

// ---------------------------------------------------------------------------
// Matching request paths against the configured rules.

#[verifier::external_type_specification]
#[verifier::external_body]
pub struct ExRegex(regex::Regex);

/// A configured rule whose path pattern has been compiled: the pattern, the
/// upstream that a match is replaced by, and the compiled expression. Only
/// `compile_rules` makes one, from a pattern that compiles.
pub struct CompiledRule {
    pattern: String,
    upstream: String,
    re: regex::Regex,
}

impl View for CompiledRule {
    type V = (Seq<char>, Seq<char>);

    /// The pattern and the upstream.
    closed spec fn view(&self) -> (Seq<char>, Seq<char>) {
        (self.pattern@, self.upstream@)
    }
}

/// Whether `pattern` compiles as a regular expression.
pub uninterp spec fn regex_valid(pattern: Seq<char>) -> bool;

/// Whether the regular expression `pattern` matches somewhere in `text`.
pub uninterp spec fn regex_matches(pattern: Seq<char>, text: Seq<char>) -> bool;

/// `text` with every match of the regular expression `pattern` replaced by
/// `rep`, in which `$1`, `$name` stand for capture groups.
pub uninterp spec fn regex_replaced(pattern: Seq<char>, text: Seq<char>, rep: Seq<char>) -> Seq<char>;

/// Compiles `pattern` with `regex::Regex::new`, keeping it with the pattern
/// and `upstream`. Whether it compiles is named by `regex_valid`.
#[verifier::external_body]
fn compile_rule(pattern: &str, upstream: &str) -> (r: Option<CompiledRule>)
    ensures
        r is Some == regex_valid(pattern@),
        match r {
            Some(c) => c@ == (pattern@, upstream@),
            None => true,
        },
{
    match regex::Regex::new(pattern) {
        Ok(re) => Some(CompiledRule { pattern: pattern.to_string(), upstream: upstream.to_string(), re }),
        Err(_) => None,
    }
}

/// `Regex::is_match` of the rule's compiled pattern on `text`, named by
/// `regex_matches`.
#[verifier::external_body]
fn rule_is_match(rule: &CompiledRule, text: &str) -> (r: bool)
    ensures
        r == regex_matches(rule@.0, text@),
{
    rule.re.is_match(text)
}

/// `Regex::replace_all` of the rule's compiled pattern on `text`, with the
/// rule's upstream as the replacement; named by `regex_replaced`. Beyond the
/// name, the contract states what the crate documents: without a match the
/// text comes back unchanged.
#[verifier::external_body]
fn rule_replace_all(rule: &CompiledRule, text: &str) -> (r: String)
    ensures
        r@ == regex_replaced(rule@.0, text@, rule@.1),
        !regex_matches(rule@.0, text@) ==> r@ == text@,
{
    rule.re.replace_all(text, rule.upstream.as_str()).into_owned()
}

/// Compiles the path patterns of the configured rules, in order. `Err(i)`
/// names the first rule whose pattern does not compile.
pub fn compile_rules(rules: &Vec<Rule>) -> (r: Result<Vec<CompiledRule>, usize>)
    ensures
        match r {
            Ok(c) => {
                &&& c@.len() == rules@.len()
                &&& forall|i: int| 0 <= i < c@.len() ==> (#[trigger] c@[i])@ == (rules@[i].path@, rules@[i].upstream@)
                &&& forall|i: int| 0 <= i < rules@.len() ==> regex_valid((#[trigger] rules@[i]).path@)
            },
            Err(i) => {
                &&& i < rules@.len()
                &&& !regex_valid(rules@[i as int].path@)
                &&& forall|j: int| 0 <= j < i ==> regex_valid((#[trigger] rules@[j]).path@)
            },
        },
{
    let mut c: Vec<CompiledRule> = Vec::new();
    let mut i: usize = 0;
    while i < rules.len()
        invariant
            i <= rules@.len(),
            c@.len() == i,
            forall|k: int| 0 <= k < i ==> (#[trigger] c@[k])@ == (rules@[k].path@, rules@[k].upstream@),
            forall|j: int| 0 <= j < i ==> regex_valid((#[trigger] rules@[j]).path@),
        decreases rules.len() - i,
    {
        match compile_rule(rules[i].path.as_str(), rules[i].upstream.as_str()) {
            Some(r) => c.push(r),
            None => return Err(i),
        }
        i = i + 1;
    }
    Ok(c)
}

/// The first `true`, or `None` when there is none.
pub fn first_match(matched: &Vec<bool>) -> (r: Option<usize>)
    ensures
        match r {
            Some(i) => i < matched@.len() && matched@[i as int] && forall|j: int| 0 <= j < i ==> !(#[trigger] matched@[j]),
            None => forall|j: int| 0 <= j < matched@.len() ==> !(#[trigger] matched@[j]),
        },
{
    let mut i: usize = 0;
    while i < matched.len()
        invariant
            i <= matched@.len(),
            forall|j: int| 0 <= j < i ==> !(#[trigger] matched@[j]),
        decreases matched.len() - i,
    {
        if matched[i] {
            return Some(i);
        }
        i = i + 1;
    }
    None
}

/// The rule's path pattern matches `path`.
pub open spec fn rule_matches(rule: (Seq<char>, Seq<char>), path: Seq<char>) -> bool {
    regex_matches(rule.0, path)
}

/// The upstream URL of `path` under a matching rule: every match replaced by
/// the rule's upstream.
pub open spec fn rule_target(rule: (Seq<char>, Seq<char>), path: Seq<char>) -> Seq<char> {
    regex_replaced(rule.0, path, rule.1)
}

/// Finds the first rule whose path pattern matches `path` and makes the task
/// of fetching `path` through it: the matches are replaced by the rule's
/// upstream. `None` when no rule matches.
pub fn match_rule(rules: &Vec<CompiledRule>, path: &str) -> (r: Option<Task>)
    ensures
        match r {
            Some(Task::Others { rule_id, url }) => {
                &&& rule_id < rules@.len()
                &&& rule_matches(rules@[rule_id as int]@, path@)
                &&& forall|j: int| 0 <= j < rule_id ==> !rule_matches((#[trigger] rules@[j])@, path@)
                &&& url@ == rule_target(rules@[rule_id as int]@, path@)
            },
            Some(_) => false,
            None => forall|j: int| 0 <= j < rules@.len() ==> !rule_matches((#[trigger] rules@[j])@, path@),
        },
{
    let mut matched: Vec<bool> = Vec::new();
    let mut i: usize = 0;
    while i < rules.len()
        invariant
            i <= rules@.len(),
            matched@.len() == i,
            forall|j: int| 0 <= j < i ==> matched@[j] == rule_matches((#[trigger] rules@[j])@, path@),
        decreases rules.len() - i,
    {
        matched.push(rule_is_match(&rules[i], path));
        i = i + 1;
    }
    match first_match(&matched) {
        Some(k) => {
            proof {
                assert forall|j: int| 0 <= j < k implies !rule_matches((#[trigger] rules@[j])@, path@) by {
                    assert(!matched@[j]);
                }
            }
            Some(Task::Others { rule_id: k, url: rule_replace_all(&rules[k], path) })
        },
        None => {
            proof {
                assert forall|j: int| 0 <= j < rules@.len() implies !rule_matches((#[trigger] rules@[j])@, path@) by {
                    assert(!matched@[j]);
                }
            }
            None
        },
    }
}


// ---------------------------------------------------------------------------
// The set of download tasks in flight.

/// Two tasks ask for the same download: the same kind with equal fields.
pub open spec fn same_task(a: Task, b: Task) -> bool {
    match (a, b) {
        (Task::PypiIndexTask { pkg_name: x }, Task::PypiIndexTask { pkg_name: y }) => x@ == y@,
        (Task::PypiPackagesTask { pkg_path: x }, Task::PypiPackagesTask { pkg_path: y }) => x@ == y@,
        (Task::AnacondaIndexTask { path: x }, Task::AnacondaIndexTask { path: y }) => x@ == y@,
        (Task::AnacondaPackagesTask { path: x }, Task::AnacondaPackagesTask { path: y }) => x@ == y@,
        (Task::Others { rule_id: r1, url: u1 }, Task::Others { rule_id: r2, url: u2 }) => r1 == r2 && u1@ == u2@,
        _ => false,
    }
}

pub open spec fn holds_task(s: Seq<Task>, t: Task) -> bool {
    exists|i: int| 0 <= i < s.len() && same_task(#[trigger] s[i], t)
}

/// No download is in the set twice.
pub open spec fn distinct_tasks(s: Seq<Task>) -> bool {
    forall|i: int, j: int| 0 <= i < s.len() && 0 <= j < s.len() && i != j ==> !same_task(#[trigger] s[i], #[trigger] s[j])
}

proof fn lemma_same_task_symmetric(a: Task, b: Task)
    ensures
        same_task(a, b) == same_task(b, a),
{
}

proof fn lemma_same_task_transitive(a: Task, b: Task, c: Task)
    requires
        same_task(a, b),
        same_task(b, c),
    ensures
        same_task(a, c),
{
}

/// Whether two tasks ask for the same download.
pub fn task_eq(a: &Task, b: &Task) -> (r: bool)
    ensures
        r == same_task(*a, *b),
{
    match (a, b) {
        (Task::PypiIndexTask { pkg_name: x }, Task::PypiIndexTask { pkg_name: y }) => *x == *y,
        (Task::PypiPackagesTask { pkg_path: x }, Task::PypiPackagesTask { pkg_path: y }) => *x == *y,
        (Task::AnacondaIndexTask { path: x }, Task::AnacondaIndexTask { path: y }) => *x == *y,
        (Task::AnacondaPackagesTask { path: x }, Task::AnacondaPackagesTask { path: y }) => *x == *y,
        (Task::Others { rule_id: r1, url: u1 }, Task::Others { rule_id: r2, url: u2 }) => *r1 == *r2 && *u1 == *u2,
        _ => false,
    }
}

/// The downloads in flight; a download is started only when it is not
/// in flight already.
pub struct TaskSet {
    tasks: Vec<Task>,
}

impl TaskSet {
    pub closed spec fn tasks_spec(&self) -> Seq<Task> {
        self.tasks@
    }

    pub closed spec fn wf(&self) -> bool {
        distinct_tasks(self.tasks@)
    }

    pub proof fn lemma_wf_distinct(&self)
        requires
            self.wf(),
        ensures
            distinct_tasks(self.tasks_spec()),
    {
    }

    pub fn new() -> (r: Self)
        ensures
            r.wf(),
            r.tasks_spec() == Seq::<Task>::empty(),
    {
        let r = TaskSet { tasks: Vec::new() };
        assert(r.tasks@ =~= Seq::<Task>::empty());
        r
    }

    fn position(&self, t: &Task) -> (r: Option<usize>)
        ensures
            match r {
                Some(i) => i < self.tasks@.len() && same_task(self.tasks@[i as int], *t),
                None => !holds_task(self.tasks@, *t),
            },
    {
        let mut i: usize = 0;
        while i < self.tasks.len()
            invariant
                i <= self.tasks@.len(),
                forall|j: int| 0 <= j < i ==> !same_task(#[trigger] self.tasks@[j], *t),
            decreases self.tasks.len() - i,
        {
            if task_eq(&self.tasks[i], t) {
                return Some(i);
            }
            i = i + 1;
        }
        None
    }

    /// Whether the download of `t` is in flight.
    pub fn contains(&self, t: &Task) -> (r: bool)
        ensures
            r == holds_task(self.tasks_spec(), *t),
    {
        self.position(t).is_some()
    }

    /// Records the download of `t` as in flight. Returns `false`, and changes
    /// nothing, when it is in flight already.
    pub fn insert(&mut self, t: Task) -> (added: bool)
        requires
            old(self).wf(),
        ensures
            final(self).wf(),
            added == !holds_task(old(self).tasks_spec(), t),
            final(self).tasks_spec() == if added { old(self).tasks_spec().push(t) } else { old(self).tasks_spec() },
    {
        if self.position(&t).is_some() {
            return false;
        }
        let ghost s = self.tasks@;
        self.tasks.push(t);
        proof {
            let n = s.len() as int;
            assert forall|i: int, j: int| 0 <= i < self.tasks@.len() && 0 <= j < self.tasks@.len() && i != j
                implies !same_task(#[trigger] self.tasks@[i], #[trigger] self.tasks@[j]) by {
                if i == n {
                    assert(self.tasks@[j] == s[j]);
                    lemma_same_task_symmetric(s[j], t);
                } else if j == n {
                    assert(self.tasks@[i] == s[i]);
                } else {
                    assert(self.tasks@[i] == s[i] && self.tasks@[j] == s[j]);
                }
            }
        }
        true
    }

    /// Records that the download of `t` is over: it is no longer in flight,
    /// and every other download stays as it was.
    pub fn remove(&mut self, t: &Task)
        requires
            old(self).wf(),
        ensures
            final(self).wf(),
            !holds_task(final(self).tasks_spec(), *t),
            forall|u: Task| !same_task(u, *t) ==> (holds_task(final(self).tasks_spec(), u) == holds_task(old(self).tasks_spec(), u)),
    {
        let ghost s = self.tasks@;
        match self.position(t) {
            Some(p) => {
                self.tasks.remove(p);
                proof {
                    let r = self.tasks@;
                    assert(r =~= s.remove(p as int));
                    assert forall|i: int, j: int| 0 <= i < r.len() && 0 <= j < r.len() && i != j
                        implies !same_task(#[trigger] r[i], #[trigger] r[j]) by {
                        let a = if i < p { i } else { i + 1 };
                        let b = if j < p { j } else { j + 1 };
                        assert(r[i] == s[a] && r[j] == s[b]);
                    }
                    assert forall|i: int| 0 <= i < r.len() implies !same_task(#[trigger] r[i], *t) by {
                        let a = if i < p { i } else { i + 1 };
                        assert(r[i] == s[a]);
                        if same_task(r[i], *t) {
                            lemma_same_task_symmetric(s[p as int], *t);
                            lemma_same_task_transitive(s[a], *t, s[p as int]);
                        }
                    }
                    assert forall|u: Task| !same_task(u, *t) implies (holds_task(r, u) == holds_task(s, u)) by {
                        if holds_task(s, u) {
                            let k = choose|k: int| 0 <= k < s.len() && same_task(#[trigger] s[k], u);
                            if k == p {
                                lemma_same_task_symmetric(s[k], u);
                                lemma_same_task_transitive(u, s[k], *t);
                            } else {
                                let i = if k < p { k } else { k - 1 };
                                assert(r[i] == s[k]);
                            }
                        }
                        if holds_task(r, u) {
                            let i = choose|i: int| 0 <= i < r.len() && same_task(#[trigger] r[i], u);
                            let a = if i < p { i } else { i + 1 };
                            assert(r[i] == s[a]);
                        }
                    }
                }
            },
            None => {},
        }
    }

    /// The number of downloads in flight.
    pub fn len(&self) -> (r: usize)
        ensures
            r == self.tasks_spec().len(),
    {
        self.tasks.len()
    }
}


// ---------------------------------------------------------------------------
// Serving a task and storing its download.

/// The cache that a task is kept in: one of the built-in endpoints' caches,
/// or the cache of a configured rule.
pub enum CacheSlot {
    PypiIndex,
    PypiPackages,
    AnacondaIndex,
    AnacondaPackages,
    Rule(RuleId),
}

pub open spec fn cache_slot_spec(t: Task) -> CacheSlot {
    match t {
        Task::PypiIndexTask { .. } => CacheSlot::PypiIndex,
        Task::PypiPackagesTask { .. } => CacheSlot::PypiPackages,
        Task::AnacondaIndexTask { .. } => CacheSlot::AnacondaIndex,
        Task::AnacondaPackagesTask { .. } => CacheSlot::AnacondaPackages,
        Task::Others { rule_id, .. } => CacheSlot::Rule(rule_id),
    }
}

/// The cache that serves and stores a task.
pub fn cache_slot(task: &Task) -> (r: CacheSlot)
    ensures
        r == cache_slot_spec(*task),
{
    match task {
        Task::PypiIndexTask { .. } => CacheSlot::PypiIndex,
        Task::PypiPackagesTask { .. } => CacheSlot::PypiPackages,
        Task::AnacondaIndexTask { .. } => CacheSlot::AnacondaIndex,
        Task::AnacondaPackagesTask { .. } => CacheSlot::AnacondaPackages,
        Task::Others { rule_id, .. } => CacheSlot::Rule(*rule_id),
    }
}

/// A copy of a task, field for field.
pub fn copy_task(t: &Task) -> (r: Task)
    ensures
        r == *t,
{
    match t {
        Task::PypiIndexTask { pkg_name } => Task::PypiIndexTask { pkg_name: pkg_name.clone() },
        Task::PypiPackagesTask { pkg_path } => Task::PypiPackagesTask { pkg_path: pkg_path.clone() },
        Task::AnacondaIndexTask { path } => Task::AnacondaIndexTask { path: path.clone() },
        Task::AnacondaPackagesTask { path } => Task::AnacondaPackagesTask { path: path.clone() },
        Task::Others { rule_id, url } => Task::Others { rule_id: *rule_id, url: url.clone() },
    }
}

/// What to do with a request once the cache has been asked.
pub enum ServeAction {
    /// Answer from the cache.
    FromCache,
    /// Fetch `url` to answer, and start a background download of the task
    /// into the cache when `start_download` holds.
    FetchUpstream { url: String, start_download: bool },
}

/// Decides how a request for `task` is served: a cache hit is answered from
/// the cache; on a miss the answer is fetched from upstream, and a background
/// download is started unless that download is already in flight, in which
/// case it is recorded as in flight.
pub fn serve_step(tasks: &mut TaskSet, config: &Settings, task: &Task, hit: bool) -> (r: ServeAction)
    requires
        old(tasks).wf(),
    ensures
        final(tasks).wf(),
        hit ==> r is FromCache && final(tasks).tasks_spec() == old(tasks).tasks_spec(),
        !hit ==> match r {
            ServeAction::FetchUpstream { url, start_download } => {
                &&& url@ == task_upstream_spec(*config, *task)
                &&& start_download == !holds_task(old(tasks).tasks_spec(), *task)
                &&& final(tasks).tasks_spec() == if start_download {
                    old(tasks).tasks_spec().push(*task)
                } else {
                    old(tasks).tasks_spec()
                }
            },
            ServeAction::FromCache => false,
        },
{
    if hit {
        return ServeAction::FromCache;
    }
    let start_download = tasks.insert(copy_task(task));
    ServeAction::FetchUpstream { url: resolve_task_upstream(config, task), start_download }
}

/// The answer to a request that missed the cache.
pub enum UpstreamAnswer {
    /// The upstream did not answer with success.
    Failed,
    /// The download is over the size limit of its rule: the client is sent
    /// to the upstream URL (`302 Found`).
    Redirect,
    /// The text of a PyPI index page, to be sent as it is.
    Text(String),
    /// The upstream reply's body, passed on as it streams.
    Stream,
}

/// The answer to a request that missed the cache, from the upstream reply:
/// `Failed` when the upstream did not answer with success; `Redirect` when
/// the download is over the size limit of its rule; for a PyPI index page
/// its text, with its package links pointed at `config_url` when that is
/// set; for any other task `Stream`. Reading a PyPI index page's text is
/// owed on a success within the limit.
pub fn upstream_answer(task: &Task, config_url: Option<&str>, success: bool, too_large: bool, text: Option<String>) -> (r: UpstreamAnswer)
    requires
        success && !too_large && task is PypiIndexTask ==> text is Some,
    ensures
        !success ==> r is Failed,
        success && too_large ==> r is Redirect,
        success && !too_large && task is PypiIndexTask ==> match r {
            UpstreamAnswer::Text(a) => a@ == match config_url {
                Some(u) => pypi_index_rewrite_spec(text->0@, u@),
                None => text->0@,
            },
            _ => false,
        },
        success && !too_large && !(task is PypiIndexTask) ==> r is Stream,
{
    if !success {
        return UpstreamAnswer::Failed;
    }
    if too_large {
        return UpstreamAnswer::Redirect;
    }
    match task {
        Task::PypiIndexTask { .. } => {
            let t = match text {
                Some(t) => t,
                None => String::new(),
            };
            match config_url {
                Some(u) => UpstreamAnswer::Text(task.rewrite_upstream(t, u)),
                None => UpstreamAnswer::Text(t),
            }
        },
        _ => UpstreamAnswer::Stream,
    }
}

/// The body of a download: text, or bytes.
pub enum Body {
    Text(String),
    Bytes(Vec<u8>),
}

/// What a finished background download puts into the cache: nothing unless
/// the upstream answered with success, the download is within the size limit
/// of its rule and the body was read; otherwise the
/// body under the task's key, where the text of a PyPI index page has its
/// package links pointed at `to_url` when that is set.
pub fn download_to_store(task: &Task, to_url: Option<&str>, success: bool, too_large: bool, body: Option<Body>) -> (r: Option<(String, Body)>)
    ensures
        r is Some <==> success && !too_large && body is Some,
        match r {
            Some((key, stored)) => {
                &&& key@ == task_key_spec(*task)
                &&& match (*task, body, to_url) {
                    (Task::PypiIndexTask { .. }, Some(Body::Text(t)), Some(u)) => match stored {
                        Body::Text(s) => s@ == pypi_index_rewrite_spec(t@, u@),
                        Body::Bytes(_) => false,
                    },
                    _ => body == Some(stored),
                }
            },
            None => true,
        },
{
    if !success || too_large {
        return None;
    }
    let b = match body {
        Some(b) => b,
        None => return None,
    };
    let key = task.to_key();
    match (task, b, to_url) {
        (Task::PypiIndexTask { .. }, Body::Text(t), Some(u)) => Some((key, Body::Text(task.rewrite_upstream(t, u)))),
        (_, b, _) => Some((key, b)),
    }
}

// ---------------------------------------------------------------------------
// The rule of a task: its size limit and its cache policy.

/// The rule that governs a task: the built-in rule of its endpoint, or the
/// configured rule that made it (`None` when there is no such rule).
pub open spec fn task_rule_spec(config: Settings, t: Task) -> Option<Rule> {
    match t {
        Task::PypiIndexTask { .. } => Some(config.builtin.pypi_index),
        Task::PypiPackagesTask { .. } => Some(config.builtin.pypi_packages),
        Task::AnacondaIndexTask { .. } => Some(config.builtin.anaconda_index),
        Task::AnacondaPackagesTask { .. } => Some(config.builtin.anaconda_packages),
        Task::Others { rule_id, .. } => if rule_id < config.rules@.len() {
            Some(config.rules@[rule_id as int])
        } else {
            None
        },
    }
}

/// The rule that governs a task.
pub fn task_rule<'a>(config: &'a Settings, task: &Task) -> (r: Option<&'a Rule>)
    ensures
        match r {
            Some(rule) => task_rule_spec(*config, *task) == Some(*rule),
            None => task_rule_spec(*config, *task) is None,
        },
{
    match task {
        Task::PypiIndexTask { .. } => Some(&config.builtin.pypi_index),
        Task::PypiPackagesTask { .. } => Some(&config.builtin.pypi_packages),
        Task::AnacondaIndexTask { .. } => Some(&config.builtin.anaconda_index),
        Task::AnacondaPackagesTask { .. } => Some(&config.builtin.anaconda_packages),
        Task::Others { rule_id, .. } => if *rule_id < config.rules.len() {
            Some(&config.rules[*rule_id])
        } else {
            None
        },
    }
}

/// The size limit of a rule in bytes, 0 meaning no limit: its `size_limit`
/// read as a size, or 0 when it has none. `None` when it does not read as a
/// size.
pub open spec fn rule_size_limit_spec(rule: Rule) -> Option<u64> {
    match rule.size_limit {
        Some(s) => size_spec(s@),
        None => Some(0),
    }
}

/// The size limit of a rule in bytes, 0 meaning no limit.
pub fn rule_size_limit(rule: &Rule) -> (r: Option<u64>)
    ensures
        r == rule_size_limit_spec(*rule),
{
    match &rule.size_limit {
        Some(s) => parse_size(s.as_str()),
        None => Some(0),
    }
}

/// A download of `content_length` bytes is over the limit of the task's
/// rule: the limit is set (not 0) and the length is known and larger. A
/// limit that does not read as a size limits nothing.
pub open spec fn exceeds_size_limit_spec(config: Settings, t: Task, content_length: Option<u64>) -> bool {
    match task_rule_spec(config, t) {
        Some(rule) => match (rule_size_limit_spec(rule), content_length) {
            (Some(limit), Some(n)) => limit > 0 && n > limit,
            _ => false,
        },
        None => false,
    }
}

/// Whether a download for `task` of `content_length` bytes is too large to
/// be fetched through the proxy and cached; such a request is answered with
/// a redirect to the upstream.
pub fn exceeds_size_limit(config: &Settings, task: &Task, content_length: Option<u64>) -> (r: bool)
    ensures
        r == exceeds_size_limit_spec(*config, *task, content_length),
{
    match task_rule(config, task) {
        Some(rule) => match (rule_size_limit(rule), content_length) {
            (Some(limit), Some(n)) => limit > 0 && n > limit,
            _ => false,
        },
        None => false,
    }
}

/// A rule without a size limit, or with a limit of 0, lets a download of
/// any size through.
pub proof fn law_zero_size_limit_is_unlimited(config: Settings, t: Task, content_length: Option<u64>)
    requires
        match task_rule_spec(config, t) {
            Some(rule) => rule.size_limit is None || rule_size_limit_spec(rule) == Some(0u64),
            None => true,
        },
    ensures
        !exceeds_size_limit_spec(config, t, content_length),
{
}

/// The cache that a rule's policy asks for.
pub enum PolicyChoice {
    /// The rule names no configured policy: nothing is cached.
    NoCache,
    /// An LRU cache under `path` holding at most `size` bytes.
    Lru { path: String, size: u64 },
    /// A cache under `path` whose entries expire after `timeout` seconds.
    Ttl { path: String, timeout: u64 },
    /// The LRU policy `policy` has a size that does not read as a size.
    InvalidSize { policy: String, size: String },
    /// The TTL policy `policy` has no timeout.
    MissingTimeout { policy: String },
}

/// `i` is the first policy called `name`.
pub open spec fn is_first_named(policies: Seq<Policy>, name: Seq<char>, i: int) -> bool {
    &&& 0 <= i < policies.len()
    &&& policies[i].name@ == name
    &&& forall|j: int| 0 <= j < i ==> (#[trigger] policies[j]).name@ != name
}

/// Where a policy keeps its files: its path, `cache` by default.
pub open spec fn policy_path_spec(p: Policy) -> Seq<char> {
    match p.path {
        Some(s) => s@,
        None => "cache"@,
    }
}

/// The size text of a policy: its size, `0` by default.
pub open spec fn policy_size_text(p: Policy) -> Seq<char> {
    match p.size {
        Some(s) => s@,
        None => "0"@,
    }
}

/// The cache that policy `p` asks for.
pub open spec fn choice_of_policy(p: Policy, r: PolicyChoice) -> bool {
    match p.typ {
        PolicyType::Lru => match size_spec(policy_size_text(p)) {
            Some(n) => r matches PolicyChoice::Lru { path, size } && path@ == policy_path_spec(p) && size == n,
            None => r matches PolicyChoice::InvalidSize { policy, size } && policy@ == p.name@ && size@ == policy_size_text(p),
        },
        PolicyType::Ttl => match p.timeout {
            Some(t) => r matches PolicyChoice::Ttl { path, timeout } && path@ == policy_path_spec(p) && timeout == t,
            None => r matches PolicyChoice::MissingTimeout { policy } && policy@ == p.name@,
        },
    }
}

/// Chooses the cache of a rule: the first policy named by the rule decides;
/// with none, nothing is cached.
pub fn choose_policy(rule: &Rule, policies: &Vec<Policy>) -> (r: PolicyChoice)
    ensures
        r is NoCache <==> forall|j: int| 0 <= j < policies@.len() ==> (#[trigger] policies@[j]).name@ != rule.policy@,
        forall|i: int| is_first_named(policies@, rule.policy@, i) ==> choice_of_policy(#[trigger] policies@[i], r),
{
    let mut i: usize = 0;
    while i < policies.len()
        invariant
            i <= policies@.len(),
            forall|j: int| 0 <= j < i ==> (#[trigger] policies@[j]).name@ != rule.policy@,
        decreases policies.len() - i,
    {
        if policies[i].name == rule.policy {
            let p = &policies[i];
            let path = match &p.path {
                Some(s) => s.clone(),
                None => String::from_str("cache"),
            };
            let r = match p.typ {
                PolicyType::Lru => {
                    let size_text = match &p.size {
                        Some(s) => s.clone(),
                        None => String::from_str("0"),
                    };
                    match parse_size(size_text.as_str()) {
                        Some(n) => PolicyChoice::Lru { path, size: n },
                        None => PolicyChoice::InvalidSize { policy: p.name.clone(), size: size_text },
                    }
                },
                PolicyType::Ttl => match p.timeout {
                    Some(t) => PolicyChoice::Ttl { path, timeout: t },
                    None => PolicyChoice::MissingTimeout { policy: p.name.clone() },
                },
            };
            proof {
                assert forall|k: int| is_first_named(policies@, rule.policy@, k) implies k == i by {
                    if k < i {
                        assert(policies@[k].name@ != rule.policy@);
                    } else if k > i {
                        assert(policies@[i as int].name@ != rule.policy@);
                    }
                }
            }
            return r;
        }
        i = i + 1;
    }
    PolicyChoice::NoCache
}

// ---------------------------------------------------------------------------
// Which rule and which upstream a task goes by.

/// Each built-in task goes by the built-in rule of its own endpoint, and a
/// task of a configured rule by that rule: a PyPI index page by
/// `pypi_index`, a PyPI package by `pypi_packages`, an Anaconda index by
/// `anaconda_index`, an Anaconda package by `anaconda_packages`.
pub proof fn law_builtin_task_rules(config: Settings, s: String, rule_id: RuleId)
    ensures
        task_rule_spec(config, Task::PypiIndexTask { pkg_name: s }) == Some(config.builtin.pypi_index),
        task_rule_spec(config, Task::PypiPackagesTask { pkg_path: s }) == Some(config.builtin.pypi_packages),
        task_rule_spec(config, Task::AnacondaIndexTask { path: s }) == Some(config.builtin.anaconda_index),
        task_rule_spec(config, Task::AnacondaPackagesTask { path: s }) == Some(config.builtin.anaconda_packages),
        rule_id < config.rules@.len() ==> task_rule_spec(config, Task::Others { rule_id, url: s })
            == Some(config.rules@[rule_id as int]),
        rule_id >= config.rules@.len() ==> task_rule_spec(config, Task::Others { rule_id, url: s }) is None,
{
}

/// A built-in task is fetched from the upstream of the rule it goes by,
/// followed by `/` and the requested name or path; a task of a configured
/// rule is fetched from its own URL.
pub proof fn law_task_fetched_from_its_rule(config: Settings, t: Task)
    ensures
        match t {
            Task::PypiIndexTask { pkg_name: p } => task_upstream_spec(config, t)
                == task_rule_spec(config, t)->0.upstream@ + seq!['/'] + p@,
            Task::PypiPackagesTask { pkg_path: p } => task_upstream_spec(config, t)
                == task_rule_spec(config, t)->0.upstream@ + seq!['/'] + p@,
            Task::AnacondaIndexTask { path: p } => task_upstream_spec(config, t)
                == task_rule_spec(config, t)->0.upstream@ + seq!['/'] + p@,
            Task::AnacondaPackagesTask { path: p } => task_upstream_spec(config, t)
                == task_rule_spec(config, t)->0.upstream@ + seq!['/'] + p@,
            Task::Others { url, .. } => task_upstream_spec(config, t) == url@,
        },
{
}

/// The upstream of a built-in task depends on its own rule alone: two
/// configurations whose rule for the task has the same upstream fetch it
/// from the same URL, whatever their other rules say.
pub proof fn law_upstream_depends_on_own_rule(c1: Settings, c2: Settings, t: Task)
    requires
        !(t is Others),
        task_rule_spec(c1, t)->0.upstream@ == task_rule_spec(c2, t)->0.upstream@,
    ensures
        task_upstream_spec(c1, t) == task_upstream_spec(c2, t),
{
}

/// A download is over the size limit exactly when the limit of the rule the
/// task goes by is set and the known length is larger: for a built-in task
/// the limit of its own endpoint's rule.
pub proof fn law_size_limit_of_own_rule(config: Settings, t: Task, n: u64)
    ensures
        exceeds_size_limit_spec(config, t, Some(n)) == match task_rule_spec(config, t) {
            Some(rule) => match rule.size_limit {
                Some(text) => match size_spec(text@) {
                    Some(limit) => limit > 0 && n > limit,
                    None => false,
                },
                None => false,
            },
            None => false,
        },
        exceeds_size_limit_spec(config, t, None) == false,
{
}

// ---------------------------------------------------------------------------
// When two tasks are the same download.

/// Two tasks are the same download exactly when they have the same cache
/// key: tasks of one rule for different URLs are different downloads.
pub proof fn law_same_task_iff_same_key(a: Task, b: Task)
    ensures
        same_task(a, b) <==> task_key_spec(a) == task_key_spec(b),
{
    law_task_keys_unique(a, b);
}

/// Two tasks are the same download only when they are of the same kind and
/// every field is equal: the same rule and the same URL, the same name or
/// the same path.
pub proof fn law_same_task_equal_fields(a: Task, b: Task)
    requires
        same_task(a, b),
    ensures
        match (a, b) {
            (Task::PypiIndexTask { pkg_name: x }, Task::PypiIndexTask { pkg_name: y }) => x@ == y@,
            (Task::PypiPackagesTask { pkg_path: x }, Task::PypiPackagesTask { pkg_path: y }) => x@ == y@,
            (Task::AnacondaIndexTask { path: x }, Task::AnacondaIndexTask { path: y }) => x@ == y@,
            (Task::AnacondaPackagesTask { path: x }, Task::AnacondaPackagesTask { path: y }) => x@ == y@,
            (Task::Others { rule_id: r1, url: u1 }, Task::Others { rule_id: r2, url: u2 }) => r1 == r2 && u1@ == u2@,
            _ => false,
        },
{
    law_same_task_iff_same_key(a, b);
    law_task_keys_unique(a, b);
}

} // verus!
