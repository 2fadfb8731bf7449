//! The metadata of the size-limited LRU cache: which keys are cached, how
//! large each file is and when it was last accessed, and the eviction rule
//! that keeps the total size within the limit.
use vstd::prelude::*;

use crate::text::chars_of;

verus! {

/// A cached entry as the metadata sees it: key, size in bytes, last access time.
pub type EntryView = (Seq<char>, u64, i64);

/// Lexicographic order on keys, character by character; a proper prefix
/// comes first.
pub open spec fn key_lt(a: Seq<char>, b: Seq<char>) -> bool
    decreases a.len(),
{
    if a.len() == 0 {
        b.len() > 0
    } else if b.len() == 0 {
        false
    } else if a[0] != b[0] {
        a[0] < b[0]
    } else {
        key_lt(a.drop_first(), b.drop_first())
    }
}

/// `a` is less recently used than `b`: an older access time, or the same
/// access time and a smaller key.
pub open spec fn precedes(a: EntryView, b: EntryView) -> bool {
    a.2 < b.2 || (a.2 == b.2 && key_lt(a.0, b.0))
}

/// No key occurs twice.
pub open spec fn unique_keys(s: Seq<EntryView>) -> bool {
    forall|i: int, j: int| 0 <= i < s.len() && 0 <= j < s.len() && i != j ==> s[i].0 != s[j].0
}

/// The sum of the sizes of the entries.
pub open spec fn total_of(s: Seq<EntryView>) -> nat
    decreases s.len(),
{
    if s.len() == 0 {
        0
    } else {
        total_of(s.drop_last()) + s.last().1 as nat
    }
}

/// The entry at `p` is the least recently used of all.
pub open spec fn is_oldest_at(s: Seq<EntryView>, p: int) -> bool {
    &&& 0 <= p < s.len()
    &&& forall|j: int| 0 <= j < s.len() && j != p ==> precedes(s[p], #[trigger] s[j])
}

pub open spec fn oldest_at(s: Seq<EntryView>) -> int {
    choose|p: int| is_oldest_at(s, p)
}

/// Evicts least recently used entries, one at a time, until an entry of
/// `size` bytes fits within `limit`. Gives the remaining entries and the
/// evicted keys in the order of eviction.
pub open spec fn evict_for(s: Seq<EntryView>, limit: u64, size: u64) -> (Seq<EntryView>, Seq<Seq<char>>)
    decreases s.len(),
{
    if total_of(s) + size <= limit || !is_oldest_at(s, oldest_at(s)) {
        (s, Seq::empty())
    } else {
        let p = oldest_at(s);
        let rest = evict_for(s.remove(p), limit, size);
        (rest.0, seq![s[p].0] + rest.1)
    }
}

/// Where the key stands, or -1.
pub open spec fn key_index(s: Seq<EntryView>, k: Seq<char>) -> int {
    if exists|i: int| 0 <= i < s.len() && s[i].0 == k {
        choose|i: int| 0 <= i < s.len() && s[i].0 == k
    } else {
        -1
    }
}

/// Records `key` with its size and access time: in place when present,
/// at the end otherwise.
pub open spec fn record(s: Seq<EntryView>, key: Seq<char>, size: u64, atime: i64) -> Seq<EntryView> {
    let i = key_index(s, key);
    if i >= 0 {
        s.update(i, (key, size, atime))
    } else {
        s.push((key, size, atime))
    }
}

/// Putting an entry: an entry larger than the limit is ignored; otherwise
/// least recently used entries are evicted until it fits, and it is recorded.
/// Gives the new entries and the evicted keys.
pub open spec fn put_spec(s: Seq<EntryView>, limit: u64, key: Seq<char>, size: u64, atime: i64) -> (Seq<EntryView>, Seq<Seq<char>>) {
    if size > limit {
        (s, Seq::empty())
    } else {
        let ev = evict_for(s, limit, size);
        (record(ev.0, key, size, atime), ev.1)
    }
}

/// An access: the access time of `key` becomes `atime` when it is present.
pub open spec fn touch_spec(s: Seq<EntryView>, key: Seq<char>, atime: i64) -> Seq<EntryView> {
    let i = key_index(s, key);
    if i >= 0 {
        s.update(i, (key, s[i].1, atime))
    } else {
        s
    }
}

/// The entries as a map from key to (size, access time).
pub open spec fn as_map(s: Seq<EntryView>) -> Map<Seq<char>, (u64, i64)> {
    Map::new(
        |k: Seq<char>| key_index(s, k) >= 0,
        |k: Seq<char>| (s[key_index(s, k)].1, s[key_index(s, k)].2),
    )
}

// ---------------------------------------------------------------------------
// Facts about the order on keys.

proof fn lemma_key_lt_asymmetric(a: Seq<char>, b: Seq<char>)
    ensures
        key_lt(a, b) ==> !key_lt(b, a),
    decreases a.len(),
{
    if a.len() > 0 && b.len() > 0 && a[0] == b[0] {
        lemma_key_lt_asymmetric(a.drop_first(), b.drop_first());
    }
}

proof fn lemma_key_lt_transitive(a: Seq<char>, b: Seq<char>, c: Seq<char>)
    requires
        key_lt(a, b),
        key_lt(b, c),
    ensures
        key_lt(a, c),
    decreases a.len(),
{
    if a.len() > 0 && b.len() > 0 && c.len() > 0 && a[0] == b[0] && b[0] == c[0] {
        lemma_key_lt_transitive(a.drop_first(), b.drop_first(), c.drop_first());
    }
}

proof fn lemma_key_lt_total(a: Seq<char>, b: Seq<char>)
    requires
        a != b,
    ensures
        key_lt(a, b) || key_lt(b, a),
    decreases a.len(),
{
    if a.len() > 0 && b.len() > 0 && a[0] == b[0] {
        if a.drop_first() == b.drop_first() {
            assert(a =~= seq![a[0]] + a.drop_first());
            assert(b =~= seq![b[0]] + b.drop_first());
        }
        lemma_key_lt_total(a.drop_first(), b.drop_first());
    } else if a.len() == 0 && b.len() == 0 {
        assert(a =~= b);
    }
}

proof fn lemma_precedes_asymmetric(a: EntryView, b: EntryView)
    ensures
        precedes(a, b) ==> !precedes(b, a),
{
    lemma_key_lt_asymmetric(a.0, b.0);
}

proof fn lemma_precedes_transitive(a: EntryView, b: EntryView, c: EntryView)
    requires
        precedes(a, b),
        precedes(b, c),
    ensures
        precedes(a, c),
{
    if a.2 == b.2 && b.2 == c.2 {
        lemma_key_lt_transitive(a.0, b.0, c.0);
    }
}

proof fn lemma_precedes_total(a: EntryView, b: EntryView)
    requires
        a.0 != b.0,
    ensures
        precedes(a, b) || precedes(b, a),
{
    lemma_key_lt_total(a.0, b.0);
}

/// There is at most one least recently used entry.
proof fn lemma_oldest_unique(s: Seq<EntryView>, p: int)
    requires
        is_oldest_at(s, p),
    ensures
        oldest_at(s) == p,
{
    let q = oldest_at(s);
    assert(is_oldest_at(s, q));
    if q != p {
        assert(precedes(s[p], s[q]));
        assert(precedes(s[q], s[p]));
        lemma_precedes_asymmetric(s[p], s[q]);
    }
}

// ---------------------------------------------------------------------------
// Facts about the sequence of entries.

proof fn lemma_total_push(s: Seq<EntryView>, e: EntryView)
    ensures
        total_of(s.push(e)) == total_of(s) + e.1,
{
    assert(s.push(e).drop_last() =~= s);
}

proof fn lemma_total_remove(s: Seq<EntryView>, p: int)
    requires
        0 <= p < s.len(),
    ensures
        total_of(s.remove(p)) + s[p].1 == total_of(s),
    decreases s.len(),
{
    if p == s.len() - 1 {
        assert(s.remove(p) =~= s.drop_last());
    } else {
        lemma_total_remove(s.drop_last(), p);
        assert(s.remove(p).drop_last() =~= s.drop_last().remove(p));
        assert(s.remove(p).last() == s.last());
    }
}

proof fn lemma_total_update(s: Seq<EntryView>, p: int, e: EntryView)
    requires
        0 <= p < s.len(),
    ensures
        total_of(s.update(p, e)) + s[p].1 == total_of(s) + e.1,
    decreases s.len(),
{
    if p == s.len() - 1 {
        assert(s.update(p, e).drop_last() =~= s.drop_last());
    } else {
        lemma_total_update(s.drop_last(), p, e);
        assert(s.update(p, e).drop_last() =~= s.drop_last().update(p, e));
    }
}

proof fn lemma_key_index(s: Seq<EntryView>, i: int)
    requires
        unique_keys(s),
        0 <= i < s.len(),
    ensures
        key_index(s, s[i].0) == i,
{
    let k = s[i].0;
    assert(exists|j: int| 0 <= j < s.len() && s[j].0 == k);
    let j = key_index(s, k);
    assert(0 <= j < s.len() && s[j].0 == k);
}

proof fn lemma_unique_remove(s: Seq<EntryView>, p: int)
    requires
        unique_keys(s),
        0 <= p < s.len(),
    ensures
        unique_keys(s.remove(p)),
        forall|i: int| 0 <= i < s.remove(p).len() ==> s.remove(p)[i].0 != s[p].0,
{
    let r = s.remove(p);
    assert forall|i: int, j: int| 0 <= i < r.len() && 0 <= j < r.len() && i != j implies r[i].0 != r[j].0 by {
        let a = if i < p { i } else { i + 1 };
        let b = if j < p { j } else { j + 1 };
        assert(r[i] == s[a]);
        assert(r[j] == s[b]);
    }
    assert forall|i: int| 0 <= i < r.len() implies r[i].0 != s[p].0 by {
        let a = if i < p { i } else { i + 1 };
        assert(r[i] == s[a]);
    }
}

/// Evicting keeps keys unique, lowers the total to what fits, and takes only
/// entries that were there.
proof fn lemma_evict_for(s: Seq<EntryView>, limit: u64, size: u64)
    requires
        unique_keys(s),
        size <= limit,
    ensures
        unique_keys(evict_for(s, limit, size).0),
        total_of(evict_for(s, limit, size).0) + size <= limit,
        evict_for(s, limit, size).0.len() + evict_for(s, limit, size).1.len() == s.len(),
    decreases s.len(),
{
    if total_of(s) + size <= limit {
    } else if s.len() == 0 {
    } else {
        lemma_oldest_exists(s);
        let p = oldest_at(s);
        lemma_unique_remove(s, p);
        lemma_evict_for(s.remove(p), limit, size);
    }
}

/// A nonempty sequence with unique keys has a least recently used entry.
proof fn lemma_oldest_exists(s: Seq<EntryView>)
    requires
        unique_keys(s),
        s.len() > 0,
    ensures
        is_oldest_at(s, oldest_at(s)),
    decreases s.len(),
{
    if s.len() == 1 {
        assert(is_oldest_at(s, 0));
    } else {
        let t = s.drop_last();
        assert(unique_keys(t)) by {
            assert forall|i: int, j: int| 0 <= i < t.len() && 0 <= j < t.len() && i != j implies t[i].0 != t[j].0 by {
                assert(t[i] == s[i] && t[j] == s[j]);
            }
        }
        lemma_oldest_exists(t);
        let q = oldest_at(t);
        let n = s.len() - 1;
        lemma_precedes_total(s[q], s[n]);
        if precedes(s[q], s[n]) {
            assert forall|j: int| 0 <= j < s.len() && j != q implies precedes(s[q], #[trigger] s[j]) by {
                if j < n {
                    assert(t[j] == s[j]);
                }
            }
            assert(is_oldest_at(s, q));
        } else {
            assert forall|j: int| 0 <= j < s.len() && j != n implies precedes(s[n], #[trigger] s[j]) by {
                if j != q {
                    assert(t[j] == s[j]);
                    assert(precedes(t[q], t[j]));
                    lemma_precedes_transitive(s[n], s[q], s[j]);
                }
            }
            assert(is_oldest_at(s, n));
        }
    }
}

// ---------------------------------------------------------------------------
// The map view.

proof fn lemma_key_index_found(s: Seq<EntryView>, k: Seq<char>)
    requires
        key_index(s, k) >= 0,
    ensures
        0 <= key_index(s, k) < s.len(),
        s[key_index(s, k)].0 == k,
{
}

proof fn lemma_as_map_at(s: Seq<EntryView>, i: int)
    requires
        unique_keys(s),
        0 <= i < s.len(),
    ensures
        as_map(s).contains_key(s[i].0),
        as_map(s)[s[i].0] == (s[i].1, s[i].2),
{
    lemma_key_index(s, i);
}

proof fn lemma_as_map_remove(s: Seq<EntryView>, p: int)
    requires
        unique_keys(s),
        0 <= p < s.len(),
    ensures
        as_map(s.remove(p)) == as_map(s).remove(s[p].0),
{
    let r = s.remove(p);
    lemma_unique_remove(s, p);
    let m = as_map(s).remove(s[p].0);
    assert forall|k: Seq<char>| as_map(r).contains_key(k) implies m.contains_key(k) && as_map(r)[k] == m[k] by {
        lemma_key_index_found(r, k);
        let i = key_index(r, k);
        let a = if i < p { i } else { i + 1 };
        assert(r[i] == s[a]);
        lemma_key_index(s, a);
        lemma_as_map_at(s, a);
    }
    assert forall|k: Seq<char>| m.contains_key(k) implies as_map(r).contains_key(k) by {
        lemma_key_index_found(s, k);
        let a = key_index(s, k);
        assert(a != p);
        let i = if a < p { a } else { a - 1 };
        assert(r[i] == s[a]);
        lemma_key_index(r, i);
    }
    assert(as_map(r) =~= m);
}

proof fn lemma_as_map_record(s: Seq<EntryView>, key: Seq<char>, size: u64, atime: i64)
    requires
        unique_keys(s),
    ensures
        unique_keys(record(s, key, size, atime)),
        as_map(record(s, key, size, atime)) == as_map(s).insert(key, (size, atime)),
        total_of(record(s, key, size, atime)) == total_of(s) + size - (if as_map(s).contains_key(key) { as_map(s)[key].0 as int } else { 0 }),
{
    let r = record(s, key, size, atime);
    let i = key_index(s, key);
    if i >= 0 {
        lemma_key_index_found(s, key);
        lemma_total_update(s, i, (key, size, atime));
        assert forall|a: int, b: int| 0 <= a < r.len() && 0 <= b < r.len() && a != b implies r[a].0 != r[b].0 by {
            assert(r[a].0 == s[a].0 && r[b].0 == s[b].0);
        }
        assert forall|k: Seq<char>| #[trigger] as_map(r).contains_key(k) == as_map(s).insert(key, (size, atime)).contains_key(k) by {
            if key_index(r, k) >= 0 {
                lemma_key_index_found(r, k);
                let j = key_index(r, k);
                assert(s[j].0 == r[j].0);
                lemma_key_index(s, j);
            }
            if key_index(s, k) >= 0 {
                lemma_key_index_found(s, k);
                let j = key_index(s, k);
                assert(s[j].0 == r[j].0);
                lemma_key_index(r, j);
            }
        }
        assert forall|k: Seq<char>| as_map(r).contains_key(k) implies as_map(r)[k] == as_map(s).insert(key, (size, atime))[k] by {
            lemma_key_index_found(r, k);
            let j = key_index(r, k);
            lemma_as_map_at(r, j);
            if j != i {
                assert(r[j] == s[j]);
                lemma_as_map_at(s, j);
            }
        }
        assert(as_map(r) =~= as_map(s).insert(key, (size, atime)));
    } else {
        lemma_total_push(s, (key, size, atime));
        let n = s.len() as int;
        assert forall|a: int, b: int| 0 <= a < r.len() && 0 <= b < r.len() && a != b implies r[a].0 != r[b].0 by {
            if a < n {
                assert(r[a] == s[a]);
            }
            if b < n {
                assert(r[b] == s[b]);
            }
        }
        assert forall|k: Seq<char>| #[trigger] as_map(r).contains_key(k) == as_map(s).insert(key, (size, atime)).contains_key(k) by {
            if key_index(r, k) >= 0 {
                lemma_key_index_found(r, k);
                let j = key_index(r, k);
                if j < n {
                    assert(r[j] == s[j]);
                    lemma_key_index(s, j);
                }
            }
            if key_index(s, k) >= 0 {
                lemma_key_index_found(s, k);
                let j = key_index(s, k);
                assert(r[j] == s[j]);
                lemma_key_index(r, j);
            }
            if k == key {
                assert(r[n].0 == key);
                lemma_key_index(r, n);
            }
        }
        assert forall|k: Seq<char>| as_map(r).contains_key(k) implies as_map(r)[k] == as_map(s).insert(key, (size, atime))[k] by {
            lemma_key_index_found(r, k);
            let j = key_index(r, k);
            lemma_as_map_at(r, j);
            if j < n {
                assert(r[j] == s[j]);
                lemma_as_map_at(s, j);
            }
        }
        assert(as_map(r) =~= as_map(s).insert(key, (size, atime)));
    }
}

/// The entry under a key.
pub open spec fn entry_of(s: Seq<EntryView>, k: Seq<char>) -> EntryView {
    s[key_index(s, k)]
}

/// What eviction takes and what it keeps: the evicted keys were cached and
/// are distinct, the rest of the map is untouched, each evicted entry was used
/// less recently than every entry that stays and than each later evicted
/// one, and putting the last evicted entry back would not have left room.
proof fn lemma_evict_facts(s: Seq<EntryView>, limit: u64, size: u64)
    requires
        unique_keys(s),
        size <= limit,
    ensures
        ({
            let (r, ev) = evict_for(s, limit, size);
            &&& as_map(r) == as_map(s).remove_keys(ev.to_set())
            &&& forall|j: int| 0 <= j < ev.len() ==> #[trigger] as_map(s).contains_key(ev[j])
            &&& forall|j1: int, j2: int| 0 <= j1 < j2 < ev.len() ==> ev[j1] != ev[j2]
            &&& forall|j: int, i: int| 0 <= j < ev.len() && 0 <= i < r.len() ==>
                    precedes(entry_of(s, ev[j]), #[trigger] r[i]) && #[trigger] ev[j] != r[i].0
            &&& forall|j1: int, j2: int| 0 <= j1 < j2 < ev.len() ==>
                    precedes(#[trigger] entry_of(s, ev[j1]), #[trigger] entry_of(s, ev[j2]))
            &&& ev.len() > 0 ==> total_of(r) + entry_of(s, ev.last()).1 + size > limit
            &&& forall|i: int| 0 <= i < r.len() ==> as_map(s).contains_key(#[trigger] r[i].0)
        }),
    decreases s.len(),
{
    let (r, ev) = evict_for(s, limit, size);
    if total_of(s) + size <= limit || !is_oldest_at(s, oldest_at(s)) {
        assert(ev.to_set() =~= Set::<Seq<char>>::empty());
        assert(as_map(s).remove_keys(ev.to_set()) =~= as_map(s));
        assert forall|i: int| 0 <= i < r.len() implies as_map(s).contains_key(#[trigger] r[i].0) by {
            lemma_as_map_at(s, i);
        }
    } else {
        let p = oldest_at(s);
        let t = s.remove(p);
        lemma_unique_remove(s, p);
        lemma_evict_facts(t, limit, size);
        lemma_as_map_remove(s, p);
        lemma_as_map_at(s, p);
        let (r2, ev2) = evict_for(t, limit, size);
        assert(r == r2);
        assert(ev == seq![s[p].0] + ev2);
        let k = s[p].0;
        // every key of t is a key of s, with the same entry
        assert forall|k2: Seq<char>| as_map(t).contains_key(k2) implies entry_of(t, k2) == entry_of(s, k2) && k2 != k by {
            lemma_key_index_found(t, k2);
            let i = key_index(t, k2);
            let a = if i < p { i } else { i + 1 };
            assert(t[i] == s[a]);
            lemma_key_index(s, a);
        }
        assert(entry_of(s, k) == s[p]) by {
            lemma_key_index(s, p);
        }
        assert(ev.to_set() =~= ev2.to_set().insert(k)) by {
            assert forall|x: Seq<char>| ev.to_set().contains(x) <==> ev2.to_set().insert(k).contains(x) by {
                if ev.to_set().contains(x) {
                    let j = choose|j: int| 0 <= j < ev.len() && ev[j] == x;
                    if j > 0 {
                        assert(ev2[j - 1] == x);
                    }
                }
                if ev2.to_set().contains(x) {
                    let j = choose|j: int| 0 <= j < ev2.len() && ev2[j] == x;
                    assert(ev[j + 1] == x);
                }
                if x == k {
                    assert(ev[0] == x);
                }
            }
        }
        assert(as_map(r) =~= as_map(s).remove_keys(ev.to_set()));
        assert forall|j: int| 0 <= j < ev.len() implies #[trigger] as_map(s).contains_key(ev[j]) by {
            if j > 0 {
                assert(ev[j] == ev2[j - 1]);
                assert(as_map(t).contains_key(ev2[j - 1]));
            }
        }
        assert forall|j1: int, j2: int| 0 <= j1 < j2 < ev.len() implies ev[j1] != ev[j2] by {
            assert(ev[j2] == ev2[j2 - 1]);
            assert(as_map(t).contains_key(ev2[j2 - 1]));
            if j1 > 0 {
                assert(ev[j1] == ev2[j1 - 1]);
            }
        }
        assert forall|j: int, i: int| 0 <= j < ev.len() && 0 <= i < r.len() implies
            precedes(entry_of(s, ev[j]), #[trigger] r[i]) && #[trigger] ev[j] != r[i].0 by {
            assert(as_map(t).contains_key(r2[i].0));
            if j == 0 {
                lemma_evict_keeps_entries(t, limit, size, i);
                lemma_key_index_found(t, r[i].0);
                let x = key_index(t, r[i].0);
                let a = if x < p { x } else { x + 1 };
                assert(t[x] == s[a]);
                assert(a != p);
                assert(precedes(s[p], s[a]));
            } else {
                assert(ev[j] == ev2[j - 1]);
                assert(as_map(t).contains_key(ev2[j - 1]));
            }
        }
        assert forall|j1: int, j2: int| 0 <= j1 < j2 < ev.len() implies
            precedes(#[trigger] entry_of(s, ev[j1]), #[trigger] entry_of(s, ev[j2])) by {
            assert(ev[j2] == ev2[j2 - 1]);
            assert(as_map(t).contains_key(ev2[j2 - 1]));
            if j1 == 0 {
                lemma_key_index_found(t, ev2[j2 - 1]);
                let x = key_index(t, ev2[j2 - 1]);
                let a = if x < p { x } else { x + 1 };
                assert(t[x] == s[a]);
                assert(precedes(s[p], s[a]));
            } else {
                assert(ev[j1] == ev2[j1 - 1]);
                assert(as_map(t).contains_key(ev2[j1 - 1]));
            }
        }
        if ev2.len() == 0 {
            lemma_total_remove(s, p);
            assert(ev.last() == k);
        } else {
            assert(ev.last() == ev2.last());
            assert(as_map(t).contains_key(ev2.last()));
        }
        assert forall|i: int| 0 <= i < r.len() implies as_map(s).contains_key(#[trigger] r[i].0) by {
            assert(as_map(t).contains_key(r2[i].0));
        }
    }
}

/// The entries that eviction keeps are entries of the original sequence.
proof fn lemma_evict_keeps_entries(s: Seq<EntryView>, limit: u64, size: u64, i: int)
    requires
        unique_keys(s),
        size <= limit,
        0 <= i < evict_for(s, limit, size).0.len(),
    ensures
        evict_for(s, limit, size).0[i] == entry_of(s, evict_for(s, limit, size).0[i].0),
    decreases s.len(),
{
    if total_of(s) + size <= limit || !is_oldest_at(s, oldest_at(s)) {
        lemma_key_index(s, i);
    } else {
        let p = oldest_at(s);
        let t = s.remove(p);
        lemma_unique_remove(s, p);
        lemma_evict_keeps_entries(t, limit, size, i);
        let e = evict_for(s, limit, size).0[i];
        let x = key_index(t, e.0);
        lemma_evict_facts(t, limit, size);
        assert(as_map(t).contains_key(e.0));
        lemma_key_index_found(t, e.0);
        let a = if x < p { x } else { x + 1 };
        assert(t[x] == s[a]);
        lemma_key_index(s, a);
    }
}

// ---------------------------------------------------------------------------
// Laws of the cache policy.

/// An entry larger than the size limit is ignored: nothing is evicted and
/// nothing is recorded.
pub proof fn law_oversized_entry_ignored(s: Seq<EntryView>, limit: u64, key: Seq<char>, size: u64, atime: i64)
    requires
        size > limit,
    ensures
        put_spec(s, limit, key, size, atime) == (s, Seq::<Seq<char>>::empty()),
{
}

/// The total size stays within the limit: after putting an entry that fits,
/// and after any put when it was within the limit before. Keys stay unique.
pub proof fn law_total_within_limit(s: Seq<EntryView>, limit: u64, key: Seq<char>, size: u64, atime: i64)
    requires
        unique_keys(s),
        size <= limit || total_of(s) <= limit,
    ensures
        unique_keys(put_spec(s, limit, key, size, atime).0),
        total_of(put_spec(s, limit, key, size, atime).0) <= limit,
{
    if size <= limit {
        lemma_evict_for(s, limit, size);
        let r = evict_for(s, limit, size).0;
        lemma_as_map_record(r, key, size, atime);
    }
}

/// What is put is there to be read: after putting an entry that fits, the key
/// is cached with the size and access time given.
pub proof fn law_put_then_present(s: Seq<EntryView>, limit: u64, key: Seq<char>, size: u64, atime: i64)
    requires
        unique_keys(s),
        size <= limit,
    ensures
        key_index(put_spec(s, limit, key, size, atime).0, key) >= 0,
        as_map(put_spec(s, limit, key, size, atime).0).contains_key(key),
        as_map(put_spec(s, limit, key, size, atime).0)[key] == (size, atime),
{
    lemma_evict_for(s, limit, size);
    let r = evict_for(s, limit, size).0;
    lemma_as_map_record(r, key, size, atime);
    let t = put_spec(s, limit, key, size, atime).0;
    assert(as_map(t).contains_key(key));
    assert(as_map(t).dom().contains(key) == (key_index(t, key) >= 0));
}

/// A put changes nothing but the evicted keys and the key put: the evicted
/// keys were cached and are distinct, and every other entry keeps its size
/// and access time.
pub proof fn law_put_changes_only_evicted_and_put(s: Seq<EntryView>, limit: u64, key: Seq<char>, size: u64, atime: i64)
    requires
        unique_keys(s),
        size <= limit,
    ensures
        ({
            let (t, ev) = put_spec(s, limit, key, size, atime);
            &&& as_map(t) == as_map(s).remove_keys(ev.to_set()).insert(key, (size, atime))
            &&& forall|j: int| 0 <= j < ev.len() ==> #[trigger] as_map(s).contains_key(ev[j])
            &&& forall|j1: int, j2: int| 0 <= j1 < j2 < ev.len() ==> ev[j1] != ev[j2]
        }),
{
    lemma_evict_for(s, limit, size);
    lemma_evict_facts(s, limit, size);
    let r = evict_for(s, limit, size).0;
    lemma_as_map_record(r, key, size, atime);
}

/// Eviction goes by least recent use: each evicted entry was used less
/// recently than every entry that stays and than every entry evicted after it.
pub proof fn law_evicts_least_recently_used(s: Seq<EntryView>, limit: u64, key: Seq<char>, size: u64, atime: i64)
    requires
        unique_keys(s),
        size <= limit,
    ensures
        ({
            let ev = put_spec(s, limit, key, size, atime).1;
            let kept = as_map(s).remove_keys(ev.to_set());
            &&& forall|j: int, k: Seq<char>| 0 <= j < ev.len() && #[trigger] kept.contains_key(k) ==>
                    precedes(#[trigger] entry_of(s, ev[j]), (k, kept[k].0, kept[k].1))
            &&& forall|j1: int, j2: int| 0 <= j1 < j2 < ev.len() ==>
                    precedes(#[trigger] entry_of(s, ev[j1]), #[trigger] entry_of(s, ev[j2]))
        }),
{
    lemma_evict_for(s, limit, size);
    lemma_evict_facts(s, limit, size);
    let (r, ev) = evict_for(s, limit, size);
    let kept = as_map(s).remove_keys(ev.to_set());
    assert forall|j: int, k: Seq<char>| 0 <= j < ev.len() && #[trigger] kept.contains_key(k) implies
        precedes(#[trigger] entry_of(s, ev[j]), (k, kept[k].0, kept[k].1)) by {
        assert(as_map(r).contains_key(k));
        lemma_key_index_found(r, k);
        let i = key_index(r, k);
        lemma_as_map_at(r, i);
        assert(precedes(entry_of(s, ev[j]), r[i]));
    }
}

/// Eviction stops as soon as the entry fits: nothing is evicted when it fits
/// already, it fits after the evictions, and with the last evicted entry kept
/// it would not have fit.
pub proof fn law_evicts_only_what_is_needed(s: Seq<EntryView>, limit: u64, size: u64)
    requires
        unique_keys(s),
        size <= limit,
    ensures
        ({
            let (r, ev) = evict_for(s, limit, size);
            &&& total_of(s) + size <= limit ==> ev.len() == 0
            &&& total_of(r) + size <= limit
            &&& ev.len() > 0 ==> total_of(r) + entry_of(s, ev.last()).1 + size > limit
        }),
{
    lemma_evict_for(s, limit, size);
    lemma_evict_facts(s, limit, size);
}

/// An access changes only the access time of the key, when it is cached:
/// sizes, the total and all other entries stay.
pub proof fn law_touch_changes_only_atime(s: Seq<EntryView>, key: Seq<char>, atime: i64)
    requires
        unique_keys(s),
    ensures
        unique_keys(touch_spec(s, key, atime)),
        total_of(touch_spec(s, key, atime)) == total_of(s),
        as_map(touch_spec(s, key, atime)) == if as_map(s).contains_key(key) {
            as_map(s).insert(key, (as_map(s)[key].0, atime))
        } else {
            as_map(s)
        },
{
    let i = key_index(s, key);
    if i >= 0 {
        lemma_key_index_found(s, key);
        lemma_as_map_at(s, i);
        assert(touch_spec(s, key, atime) == record(s, key, s[i].1, atime));
        lemma_as_map_record(s, key, s[i].1, atime);
    }
}

// ---------------------------------------------------------------------------
// The executable index.

/// One cached entry.
pub struct LruEntry {
    pub key: String,
    pub size: u64,
    pub atime: i64,
}

impl View for LruEntry {
    type V = EntryView;

    open spec fn view(&self) -> EntryView {
        (self.key@, self.size, self.atime)
    }
}

pub open spec fn entries_view(v: Seq<LruEntry>) -> Seq<EntryView> {
    v.map_values(|e: LruEntry| e@)
}

/// The LRU metadata of one cache: its entries and their total size.
pub struct LruIndex {
    size_limit: u64,
    total_size: u64,
    entries: Vec<LruEntry>,
}

impl LruIndex {
    /// The entries, in the order in which they were first recorded.
    pub closed spec fn entries_spec(&self) -> Seq<EntryView> {
        entries_view(self.entries@)
    }

    /// The size limit in bytes.
    pub closed spec fn limit(&self) -> u64 {
        self.size_limit
    }

    /// Keys are unique and the stored total is the sum of the sizes.
    pub closed spec fn wf(&self) -> bool {
        &&& unique_keys(self.entries_spec())
        &&& self.total_size == total_of(self.entries_spec())
    }

    /// A well-formed index has unique keys.
    pub proof fn lemma_wf_unique_keys(&self)
        requires
            self.wf(),
        ensures
            unique_keys(self.entries_spec()),
    {
    }

    /// An empty index with the given limit.
    pub fn new(size_limit: u64) -> (r: Self)
        ensures
            r.wf(),
            r.entries_spec() == Seq::<EntryView>::empty(),
            r.limit() == size_limit,
    {
        let r = LruIndex { size_limit, total_size: 0, entries: Vec::new() };
        assert(r.entries_spec() =~= Seq::<EntryView>::empty());
        r
    }

    /// Builds an index from stored entries. `None` when a key occurs twice or
    /// the sizes add up to more than a `u64` holds.
    pub fn from_entries(size_limit: u64, entries: Vec<LruEntry>) -> (r: Option<Self>)
        ensures
            match r {
                Some(idx) => {
                    &&& idx.wf()
                    &&& idx.entries_spec() == entries_view(entries@)
                    &&& idx.limit() == size_limit
                },
                None => !unique_keys(entries_view(entries@)) || total_of(entries_view(entries@)) > u64::MAX,
            },
    {
        let ghost s = entries_view(entries@);
        let mut total: u64 = 0;
        let mut i: usize = 0;
        while i < entries.len()
            invariant
                s == entries_view(entries@),
                i <= entries.len(),
                total == total_of(s.take(i as int)),
                unique_keys(s.take(i as int)),
            decreases entries.len() - i,
        {
            let mut j: usize = 0;
            while j < i
                invariant
                    s == entries_view(entries@),
                    j <= i < entries.len(),
                    forall|l: int| 0 <= l < j ==> s[l].0 != s[i as int].0,
                decreases i - j,
            {
                if entries[j].key == entries[i].key {
                    assert(s[j as int].0 == s[i as int].0);
                    assert(!unique_keys(s));
                    return None;
                }
                j = j + 1;
            }
            assert(s.take(i + 1).drop_last() =~= s.take(i as int));
            if total > u64::MAX - entries[i].size {
                proof {
                    lemma_total_prefix_le(s, i + 1);
                }
                return None;
            }
            total = total + entries[i].size;
            assert(unique_keys(s.take(i + 1))) by {
                let t = s.take(i + 1);
                assert forall|a: int, b: int| 0 <= a < t.len() && 0 <= b < t.len() && a != b implies t[a].0 != t[b].0 by {
                    assert(t[a] == s[a] && t[b] == s[b]);
                }
            }
            i = i + 1;
        }
        assert(s.take(i as int) =~= s);
        Some(LruIndex { size_limit, total_size: total, entries })
    }

    /// The total size of the cached entries.
    pub fn total_size(&self) -> (r: u64)
        requires
            self.wf(),
        ensures
            r == total_of(self.entries_spec()),
    {
        self.total_size
    }

    /// The size limit in bytes.
    pub fn size_limit(&self) -> (r: u64)
        ensures
            r == self.limit(),
    {
        self.size_limit
    }

    /// The number of cached entries.
    pub fn len(&self) -> (r: usize)
        ensures
            r == self.entries_spec().len(),
    {
        self.entries.len()
    }

    fn position(&self, key: &String) -> (r: Option<usize>)
        requires
            self.wf(),
        ensures
            match r {
                Some(i) => i < self.entries_spec().len() && key_index(self.entries_spec(), key@) == i,
                None => key_index(self.entries_spec(), key@) < 0,
            },
    {
        let ghost s = self.entries_spec();
        let mut i: usize = 0;
        while i < self.entries.len()
            invariant
                s == self.entries_spec(),
                self.wf(),
                i <= self.entries.len(),
                forall|l: int| 0 <= l < i ==> s[l].0 != key@,
            decreases self.entries.len() - i,
        {
            if self.entries[i].key == *key {
                proof {
                    lemma_key_index(s, i as int);
                }
                return Some(i);
            }
            i = i + 1;
        }
        None
    }

    /// The index of the least recently used entry.
    fn oldest(&self) -> (r: usize)
        requires
            self.wf(),
            self.entries@.len() > 0,
        ensures
            r == oldest_at(self.entries_spec()),
            is_oldest_at(self.entries_spec(), r as int),
    {
        let ghost s = self.entries_spec();
        let mut best: usize = 0;
        let mut i: usize = 1;
        while i < self.entries.len()
            invariant
                s == self.entries_spec(),
                self.wf(),
                0 < i <= self.entries.len(),
                best < i,
                forall|j: int| 0 <= j < i && j != best ==> precedes(s[best as int], #[trigger] s[j]),
            decreases self.entries.len() - i,
        {
            if entry_precedes(&self.entries[i], &self.entries[best]) {
                proof {
                    assert forall|j: int| 0 <= j < i + 1 && j != i implies precedes(s[i as int], #[trigger] s[j]) by {
                        if j != best {
                            lemma_precedes_transitive(s[i as int], s[best as int], s[j]);
                        }
                    }
                }
                best = i;
            } else {
                proof {
                    lemma_precedes_total(s[i as int], s[best as int]);
                }
            }
            i = i + 1;
        }
        proof {
            lemma_oldest_unique(s, best as int);
        }
        best
    }

    /// Puts an entry of `size` bytes under `key`, accessed at `atime`. An
    /// entry larger than the limit is ignored. Otherwise the least recently
    /// used entries are evicted until the new entry fits, and the entry is
    /// recorded, replacing an earlier one under the same key. Returns the
    /// evicted keys in the order of eviction.
    pub fn put(&mut self, key: &str, size: u64, atime: i64) -> (evicted: Vec<String>)
        requires
            old(self).wf(),
        ensures
            final(self).wf(),
            final(self).limit() == old(self).limit(),
            final(self).entries_spec() == put_spec(old(self).entries_spec(), old(self).limit(), key@, size, atime).0,
            evicted@.map_values(|k: String| k@) == put_spec(old(self).entries_spec(), old(self).limit(), key@, size, atime).1,
    {
        let mut evicted: Vec<String> = Vec::new();
        let limit = self.size_limit;
        if size > limit {
            assert(evicted@.map_values(|k: String| k@) =~= Seq::<Seq<char>>::empty());
            return evicted;
        }
        let ghost s0 = self.entries_spec();
        while self.total_size > limit - size
            invariant
                self.wf(),
                self.size_limit == limit,
                size <= limit,
                evict_for(s0, limit, size).0 == evict_for(self.entries_spec(), limit, size).0,
                evict_for(s0, limit, size).1 == evicted@.map_values(|k: String| k@) + evict_for(self.entries_spec(), limit, size).1,
            decreases self.entries@.len(),
        {
            let ghost s = self.entries_spec();
            if self.entries.len() == 0 {
                assert(total_of(s) == 0);
                assert(false);
            }
            let p = self.oldest();
            proof {
                lemma_total_remove(s, p as int);
                lemma_unique_remove(s, p as int);
            }
            let e = self.entries.remove(p);
            self.total_size = self.total_size - e.size;
            proof {
                assert(self.entries_spec() =~= s.remove(p as int));
                let ev_old = evicted@.map_values(|k: String| k@);
                assert(evict_for(s, limit, size).1 == seq![s[p as int].0] + evict_for(s.remove(p as int), limit, size).1);
                assert(ev_old.push(e.key@) =~= evicted@.push(e.key).map_values(|k: String| k@));
                assert(ev_old + (seq![e.key@] + evict_for(s.remove(p as int), limit, size).1) =~= ev_old.push(e.key@) + evict_for(s.remove(p as int), limit, size).1);
            }
            evicted.push(e.key);
        }
        let ghost s1 = self.entries_spec();
        assert(evict_for(s1, limit, size).0 == s1);
        assert(evict_for(s1, limit, size).1 =~= Seq::<Seq<char>>::empty());
        assert(evicted@.map_values(|k: String| k@) + Seq::<Seq<char>>::empty() =~= evicted@.map_values(|k: String| k@));
        let k = String::from_str(key);
        match self.position(&k) {
            Some(i) => {
                proof {
                    lemma_total_update(s1, i as int, (key@, size, atime));
                    lemma_total_remove(s1, i as int);
                }
                self.total_size = self.total_size - self.entries[i].size + size;
                self.entries.set(i, LruEntry { key: k, size, atime });
                proof {
                    assert(self.entries_spec() =~= s1.update(i as int, (key@, size, atime)));
                    let t = self.entries_spec();
                    assert forall|a: int, b: int| 0 <= a < t.len() && 0 <= b < t.len() && a != b implies t[a].0 != t[b].0 by {
                        assert(t[a].0 == s1[a].0 && t[b].0 == s1[b].0);
                    }
                }
            },
            None => {
                proof {
                    lemma_total_push(s1, (key@, size, atime));
                }
                self.total_size = self.total_size + size;
                self.entries.push(LruEntry { key: k, size, atime });
                proof {
                    assert(self.entries_spec() =~= s1.push((key@, size, atime)));
                    let t = self.entries_spec();
                    assert forall|a: int, b: int| 0 <= a < t.len() && 0 <= b < t.len() && a != b implies t[a].0 != t[b].0 by {
                        if a < s1.len() && b < s1.len() {
                            assert(t[a] == s1[a] && t[b] == s1[b]);
                        } else if a < s1.len() {
                            assert(t[a] == s1[a]);
                        } else {
                            assert(t[b] == s1[b]);
                        }
                    }
                }
            },
        }
        evicted
    }

    /// The size and access time recorded for `key`, or `None` when it is not
    /// cached.
    pub fn entry(&self, key: &str) -> (r: Option<(u64, i64)>)
        requires
            self.wf(),
        ensures
            match r {
                Some((size, atime)) => {
                    let i = key_index(self.entries_spec(), key@);
                    &&& i >= 0
                    &&& self.entries_spec()[i].1 == size
                    &&& self.entries_spec()[i].2 == atime
                },
                None => key_index(self.entries_spec(), key@) < 0,
            },
    {
        let k = String::from_str(key);
        match self.position(&k) {
            Some(i) => Some((self.entries[i].size, self.entries[i].atime)),
            None => None,
        }
    }

    /// Records an access of `key` at `atime`. Returns whether the key is
    /// cached; its size and all other entries stay as they are.
    pub fn touch(&mut self, key: &str, atime: i64) -> (present: bool)
        requires
            old(self).wf(),
        ensures
            final(self).wf(),
            final(self).limit() == old(self).limit(),
            present == (key_index(old(self).entries_spec(), key@) >= 0),
            final(self).entries_spec() == touch_spec(old(self).entries_spec(), key@, atime),
    {
        let ghost s = self.entries_spec();
        let k = String::from_str(key);
        match self.position(&k) {
            Some(i) => {
                let sz = self.entries[i].size;
                proof {
                    lemma_total_update(s, i as int, (key@, sz, atime));
                }
                self.entries.set(i, LruEntry { key: k, size: sz, atime });
                proof {
                    assert(self.entries_spec() =~= s.update(i as int, (key@, sz, atime)));
                    let t = self.entries_spec();
                    assert forall|a: int, b: int| 0 <= a < t.len() && 0 <= b < t.len() && a != b implies t[a].0 != t[b].0 by {
                        assert(t[a].0 == s[a].0 && t[b].0 == s[b].0);
                    }
                }
                true
            },
            None => false,
        }
    }
}

/// `a` was used less recently than `b`.
fn entry_precedes(a: &LruEntry, b: &LruEntry) -> (r: bool)
    ensures
        r == precedes(a@, b@),
{
    if a.atime != b.atime {
        a.atime < b.atime
    } else {
        key_less(&chars_of(a.key.as_str()), &chars_of(b.key.as_str()))
    }
}

/// Lexicographic comparison of two keys.
fn key_less(a: &Vec<char>, b: &Vec<char>) -> (r: bool)
    ensures
        r == key_lt(a@, b@),
{
    let mut i: usize = 0;
    assert(a@.skip(0) =~= a@);
    assert(b@.skip(0) =~= b@);
    while i < a.len() && i < b.len()
        invariant
            i <= a.len(),
            i <= b.len(),
            key_lt(a@, b@) == key_lt(a@.skip(i as int), b@.skip(i as int)),
        decreases a.len() - i,
    {
        let x = a[i];
        let y = b[i];
        assert(a@.skip(i as int)[0] == x);
        assert(b@.skip(i as int)[0] == y);
        if x != y {
            return x < y;
        }
        assert(a@.skip(i as int).drop_first() =~= a@.skip(i + 1));
        assert(b@.skip(i as int).drop_first() =~= b@.skip(i + 1));
        i = i + 1;
    }
    i < b.len()
}

proof fn lemma_total_prefix_le(s: Seq<EntryView>, n: int)
    requires
        0 <= n <= s.len(),
    ensures
        total_of(s.take(n)) <= total_of(s),
    decreases s.len(),
{
    if n < s.len() {
        assert(s.drop_last().take(n) =~= s.take(n));
        lemma_total_prefix_le(s.drop_last(), n);
    } else {
        assert(s.take(n) =~= s);
    }
}

} // verus!
