use mirror_cache::lru::{LruEntry, LruIndex};

fn keys(v: &[String]) -> Vec<&str> {
    v.iter().map(|s| s.as_str()).collect()
}

#[test]
fn lru_size_constraint() {
    let mut idx = LruIndex::new(16);
    assert!(idx.put("tsu_ki", 5, 1).is_empty());
    assert_eq!(idx.total_size(), 5);
    assert!(idx.put("kirei", 11, 2).is_empty());
    assert_eq!(idx.total_size(), 16);
    // cache is full, evict tsu_ki
    assert_eq!(keys(&idx.put("suki", 4, 3)), vec!["tsu_ki"]);
    assert_eq!(idx.total_size(), 15);
    // evict both
    assert_eq!(keys(&idx.put("deadbeef", 16, 4)), vec!["kirei", "suki"]);
    assert_eq!(idx.total_size(), 16);
    assert_eq!(idx.len(), 1);
}

#[test]
fn lru_no_evict_recent() {
    let mut idx = LruIndex::new(3);
    let (k1, k2, k3, k4) = ("1二号去听经", "2晚上住旅店", "3三号去餐厅", "4然后看电影");
    idx.put(k1, 1, 1);
    idx.put(k2, 1, 2);
    idx.put(k3, 1, 3);
    assert_eq!(idx.total_size(), 3);
    // set key4, evict key1
    assert_eq!(keys(&idx.put(k4, 1, 4)), vec![k1]);
    assert!(!idx.touch(k1, 5));
    assert_eq!(idx.total_size(), 3);
    // get key2, update atime
    assert!(idx.touch(k2, 6));
    // set key1, evict key3
    assert_eq!(keys(&idx.put(k1, 1, 7)), vec![k3]);
    assert_eq!(idx.total_size(), 3);
    assert!(!idx.touch(k3, 8));
    assert!(idx.touch(k2, 9) && idx.touch(k4, 9) && idx.touch(k1, 9));
}

#[test]
fn lru_oversized_entry_is_ignored() {
    let mut idx = LruIndex::new(3);
    idx.put("a", 2, 1);
    assert!(idx.put("big", 4, 2).is_empty());
    assert_eq!(idx.total_size(), 2);
    assert_eq!(idx.len(), 1);
    assert!(!idx.touch("big", 3));
}

#[test]
fn lru_replacing_a_key_adjusts_total() {
    let mut idx = LruIndex::new(10);
    idx.put("a", 6, 1);
    assert!(idx.put("a", 2, 2).is_empty());
    assert_eq!(idx.total_size(), 2);
    assert_eq!(idx.len(), 1);
    // the old entry of the same key counts while evicting
    let mut idx = LruIndex::new(10);
    idx.put("a", 6, 1);
    assert_eq!(keys(&idx.put("a", 5, 2)), vec!["a"]);
    assert_eq!(idx.total_size(), 5);
}

#[test]
fn lru_ties_broken_by_key() {
    let mut idx = LruIndex::new(2);
    idx.put("b", 1, 7);
    idx.put("a", 1, 7);
    assert_eq!(keys(&idx.put("c", 1, 8)), vec!["a"]);
    assert_eq!(keys(&idx.put("d", 1, 8)), vec!["b"]);
    assert_eq!(keys(&idx.put("ab", 1, 8)), vec!["c"]);
}

#[test]
fn lru_touch_keeps_sizes() {
    let mut idx = LruIndex::new(5);
    idx.put("x", 3, 1);
    assert!(idx.touch("x", 10));
    assert_eq!(idx.total_size(), 3);
    idx.put("y", 2, 2);
    assert_eq!(keys(&idx.put("z", 1, 3)), vec!["y"]);
}

#[test]
fn lru_from_entries() {
    let e = |k: &str, size: u64, atime: i64| LruEntry { key: k.to_string(), size, atime };
    let idx = LruIndex::from_entries(10, vec![e("a", 3, 1), e("b", 4, 2)]).unwrap();
    assert_eq!(idx.total_size(), 7);
    assert_eq!(idx.size_limit(), 10);
    assert!(LruIndex::from_entries(10, vec![e("a", 3, 1), e("a", 4, 2)]).is_none());
    assert!(LruIndex::from_entries(10, vec![e("a", u64::MAX, 1), e("b", 1, 2)]).is_none());
    let mut idx = LruIndex::from_entries(5, vec![e("a", 3, 1), e("b", 4, 2)]).unwrap();
    assert_eq!(keys(&idx.put("c", 1, 3)), vec!["a"]);
    assert_eq!(idx.total_size(), 5);
}

#[test]
fn lru_entry_after_touch() {
    let mut idx = LruIndex::new(10);
    idx.put("a", 3, 1);
    idx.put("b", 4, 2);
    assert_eq!(idx.entry("a"), Some((3, 1)));
    assert!(idx.touch("a", 7));
    assert_eq!(idx.entry("a"), Some((3, 7)));
    assert_eq!(idx.entry("b"), Some((4, 2)));
    assert!(!idx.touch("c", 9));
    assert_eq!(idx.entry("c"), None);
    assert_eq!(idx.total_size(), 7);
}
