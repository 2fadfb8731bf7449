use mirror_cache::cache::{hit_content, CacheEntry, LruRedisCache, TtlRedisCache};
use mirror_cache::models::{cache_entry_from_fields, SledMetadata};
use mirror_cache::util::{ivec_to_u64, ivec_to_u64_checked, u64_to_array};
use sled::IVec;

#[test]
fn sled_metadata_to_ivec() {
    let metadata = SledMetadata {
        atime: 233,
        size: 0xaabbccdddeadbeef,
    };
    let ivec: IVec = metadata.into_ivec();
    assert_eq!(
        ivec,
        vec![0, 0, 0, 0, 0, 0, 0, 233, 0xaa, 0xbb, 0xcc, 0xdd, 0xde, 0xad, 0xbe, 0xef]
    );
}

#[test]
fn sled_ivec_to_metadata() {
    let ivec: IVec = vec![
        0, 0, 0, 0, 0, 0, 0, 233, 0xaa, 0xbb, 0xcc, 0xdd, 0xde, 0xad, 0xbe, 0xef,
    ]
    .into();
    let metadata: SledMetadata = SledMetadata::from_ivec(ivec);
    assert_eq!(metadata.atime, 233);
    assert_eq!(metadata.size, 0xaabbccdddeadbeef);
}

#[test]
fn sled_metadata_negative_atime_round_trip() {
    let ivec = SledMetadata { atime: -2, size: 7 }.into_ivec();
    assert_eq!(ivec.as_ref()[..8], [0xff, 0xff, 0xff, 0xff, 0xff, 0xff, 0xff, 0xfe]);
    let m = SledMetadata::from_ivec(ivec);
    assert_eq!((m.atime, m.size), (-2, 7));
}

#[test]
fn ivec_u64_conversion() {
    let n: u64 = 233;
    assert_eq!(ivec_to_u64(&(&u64_to_array(n)).into()), n);
}

#[test]
fn u64_to_array_is_big_endian() {
    assert_eq!(u64_to_array(0x0102030405060708), [1, 2, 3, 4, 5, 6, 7, 8]);
    assert_eq!(u64_to_array(0), [0; 8]);
}

fn owned(fields: Vec<(&str, String)>) -> Vec<(String, String)> {
    fields.into_iter().map(|(k, v)| (k.to_string(), v)).collect()
}

#[test]
fn cache_entry_fields() {
    let e = CacheEntry::new_at("a/b.whl", 5, -3);
    let fields = e.to_redis_multiple_fields();
    assert_eq!(
        fields,
        vec![
            ("path", "a/b.whl".to_string()),
            ("size", "5".to_string()),
            ("atime", "-3".to_string())
        ]
    );
    let back = cache_entry_from_fields(&owned(fields)).unwrap();
    assert_eq!(back.key, "a/b.whl");
    assert_eq!(back.metadata.size, 5);
    assert_eq!(back.metadata.atime, -3);
}

#[test]
fn cache_entry_fields_extremes_round_trip() {
    let e = CacheEntry::new_at("k", u64::MAX, i64::MIN);
    let fields = e.to_redis_multiple_fields();
    assert_eq!(fields[1].1, u64::MAX.to_string());
    assert_eq!(fields[2].1, i64::MIN.to_string());
    let back = cache_entry_from_fields(&owned(fields)).unwrap();
    assert_eq!(back.metadata.size, u64::MAX);
    assert_eq!(back.metadata.atime, i64::MIN);
}

#[test]
fn cache_entry_now_has_a_recent_atime() {
    let e = CacheEntry::new("x", 1);
    assert_eq!(e.key, "x");
    assert_eq!(e.metadata.size, 1);
    assert!(e.metadata.atime > 1_600_000_000);
}

#[test]
fn cache_entry_from_missing_or_bad_fields() {
    assert!(cache_entry_from_fields(&vec![]).is_none());
    let fields = vec![
        ("size".to_string(), "12x".to_string()),
        ("other".to_string(), "1".to_string()),
    ];
    let e = cache_entry_from_fields(&fields).unwrap();
    assert_eq!(e.key, "");
    assert_eq!(e.metadata.size, 0);
    assert_eq!(e.metadata.atime, 0);
    let fields = vec![
        ("atime".to_string(), "+17".to_string()),
        ("size".to_string(), "-1".to_string()),
        ("path".to_string(), "p".to_string()),
    ];
    let e = cache_entry_from_fields(&fields).unwrap();
    assert_eq!((e.key.as_str(), e.metadata.size, e.metadata.atime), ("p", 0, 17));
}

#[test]
fn ttl_keys_and_paths() {
    let k = TtlRedisCache::to_redis_key("cache/pypi", "pkg.whl");
    assert_eq!(k, "ttl_redis_cache/cache/pypi/pkg.whl");
    assert_eq!(TtlRedisCache::from_redis_key(&k), "pkg.whl");
    assert_eq!(TtlRedisCache::to_fs_path("cache/pypi", "pkg.whl"), "cache/pypi/pkg.whl");
    let c = TtlRedisCache::new("root", 60);
    assert_eq!((c.root_dir.as_str(), c.ttl), ("root", 60));
}

#[test]
fn lru_file_paths() {
    assert_eq!(LruRedisCache::file_path("a/b.tar"), "cache/a/b.tar");
    assert_eq!(LruRedisCache::parent_dir("a/b.tar"), "cache/a");
    assert_eq!(LruRedisCache::parent_dir("b.tar"), "cache/");
    let c = LruRedisCache::new("cache", 16);
    assert_eq!(c.size_limit, 16);
}

#[test]
fn hit_needs_nonempty_content() {
    assert_eq!(hit_content(None), None);
    assert_eq!(hit_content(Some(vec![])), None);
    assert_eq!(hit_content(Some(vec![1, 2])), Some(vec![1, 2]));
}

#[test]
fn checked_ivec_readers() {
    let eight: IVec = (&u64_to_array(0x0102)).into();
    assert_eq!(ivec_to_u64_checked(&eight), Some(0x0102));
    let seven: IVec = vec![0u8; 7].into();
    assert_eq!(ivec_to_u64_checked(&seven), None);
    let short: IVec = vec![0u8; 15].into();
    assert!(SledMetadata::from_ivec_checked(short).is_none());
    let m = SledMetadata::from_ivec_checked(SledMetadata { atime: 5, size: 6 }.into_ivec()).unwrap();
    assert_eq!((m.atime, m.size), (5, 6));
}

#[test]
fn cache_entry_fields_in_another_order() {
    let fields = vec![
        ("atime".to_string(), "9".to_string()),
        ("path".to_string(), "k".to_string()),
        ("size".to_string(), "3".to_string()),
    ];
    let e = cache_entry_from_fields(&fields).unwrap();
    assert_eq!((e.key.as_str(), e.metadata.size, e.metadata.atime), ("k", 3, 9));
}

use mirror_cache::models::sled_total_after_removal;

#[test]
fn sled_totals() {
    assert_eq!(sled_total_after_removal(10, 4), Some(6));
    assert_eq!(sled_total_after_removal(4, 4), Some(0));
    assert_eq!(sled_total_after_removal(3, 4), None);
}
