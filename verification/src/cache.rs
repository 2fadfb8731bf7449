//! Cache policies and the records they keep: the LRU cache entry as it is
//! stored in the metadata hash, and the key and path scheme of the TTL cache.
use vstd::prelude::*;

use crate::decimal::{decimal, format_i64, format_u64, signed_decimal};
use crate::text::string_push;
use crate::util::{has_no_slash, law_split_dirs_of_join, now, split_dirs, split_dirs_spec};

verus! {

pub type BytesArray = Vec<u8>;

/// A cache policy: stores entries under keys and gives them back.
pub trait CachePolicy: Sync + Send {
    fn put(&self, key: &str, entry: BytesArray);

    fn get(&self, key: &str) -> Option<BytesArray>;
}

/// What a cache read gives: the file's content when it could be read and is
/// not empty, nothing otherwise.
pub fn hit_content(read: Option<BytesArray>) -> (r: Option<BytesArray>)
    ensures
        r == match read {
            Some(d) => if d@.len() > 0 { Some(d) } else { None },
            None => None,
        },
{
    match read {
        Some(d) => if d.len() > 0 { Some(d) } else { None },
        None => None,
    }
}

/// An entry of a cache: its metadata, key and value.
#[derive(Debug)]
pub struct CacheEntry<Metadata, Key, Value> {
    pub metadata: Metadata,
    pub key: Key,
    pub value: Value,
}

/// The metadata of an LRU cache entry.
#[derive(Debug)]
pub struct LruCacheMetadata {
    pub size: u64,
    pub atime: i64,  // last access timestamp
}

/// The fields of the metadata hash of an entry: its path, size and last
/// access time, in decimal.
pub open spec fn redis_fields_spec(key: Seq<char>, size: u64, atime: i64) -> Seq<(Seq<char>, Seq<char>)> {
    seq![("path"@, key), ("size"@, decimal(size as nat)), ("atime"@, signed_decimal(atime as int))]
}

impl CacheEntry<LruCacheMetadata, String, ()> {
    /// A new entry for `path` of `size` bytes, accessed now.
    pub fn new(path: &str, size: u64) -> (r: CacheEntry<LruCacheMetadata, String, ()>)
        ensures
            r.key@ == path@,
            r.metadata.size == size,
    {
        Self::new_at(path, size, now())
    }

    /// A new entry for `path` of `size` bytes, accessed at `atime`.
    pub fn new_at(path: &str, size: u64, atime: i64) -> (r: CacheEntry<LruCacheMetadata, String, ()>)
        ensures
            r.key@ == path@,
            r.metadata.size == size,
            r.metadata.atime == atime,
    {
        CacheEntry {
            metadata: LruCacheMetadata { size: size, atime: atime },
            key: String::from_str(path),
            value: (),
        }
    }

    /// The entry as the fields and values of a hash in the metadata store.
    pub fn to_redis_multiple_fields(&self) -> (r: Vec<(&str, String)>)
        ensures
            r@.map_values(|p: (&str, String)| (p.0@, p.1@)) == redis_fields_spec(
                self.key@,
                self.metadata.size,
                self.metadata.atime,
            ),
    {
        let r = vec![
            ("path", self.key.clone()),
            ("size", format_u64(self.metadata.size)),
            ("atime", format_i64(self.metadata.atime)),
        ];
        assert(r@.map_values(|p: (&str, String)| (p.0@, p.1@)) =~= redis_fields_spec(
            self.key@,
            self.metadata.size,
            self.metadata.atime,
        ));
        r
    }
}

/// The configuration of a size-limited LRU cache whose metadata lives in the
/// metadata store and whose files live under `cache/`.
pub struct LruRedisCache {
    pub root_dir: String,
    pub size_limit: u64,  // cache size in bytes(B)
}

/// The file of a cached key: `cache/<key>`.
pub open spec fn lru_file_path_spec(key: Seq<char>) -> Seq<char> {
    "cache/"@ + key
}

impl LruRedisCache {
    pub fn new(root_dir: &str, size_limit: u64) -> (r: Self)
        ensures
            r.root_dir@ == root_dir@,
            r.size_limit == size_limit,
    {
        LruRedisCache { root_dir: String::from_str(root_dir), size_limit }
    }

    /// The file that holds the data of `key`.
    pub fn file_path(key: &str) -> (r: String)
        ensures
            r@ == lru_file_path_spec(key@),
    {
        let mut p = String::from_str("cache/");
        p.append(key);
        p
    }

    /// The directory that must exist before the file of `key` is written.
    pub fn parent_dir(key: &str) -> (r: String)
        ensures
            r@ == lru_file_path_spec(split_dirs_spec(key@).0),
    {
        let (dirs, _name) = split_dirs(key);
        Self::file_path(dirs)
    }
}

/// A cache whose entries expire after a time to live. The expiry is kept by
/// the metadata store; the data lives in files under `root_dir`.
pub struct TtlRedisCache {
    pub root_dir: String,
    pub ttl: u64,  // cache entry ttl in seconds
}

/// The key in the metadata store of a cached name.
pub open spec fn ttl_redis_key_spec(root_dir: Seq<char>, name: Seq<char>) -> Seq<char> {
    "ttl_redis_cache/"@ + root_dir + seq!['/'] + name
}

/// The file of a cached name.
pub open spec fn ttl_fs_path_spec(root_dir: Seq<char>, name: Seq<char>) -> Seq<char> {
    root_dir + seq!['/'] + name
}

impl TtlRedisCache {
    pub fn new(root_dir: &str, ttl: u64) -> (r: Self)
        ensures
            r.root_dir@ == root_dir@,
            r.ttl == ttl,
    {
        TtlRedisCache { root_dir: String::from_str(root_dir), ttl }
    }

    /// `ttl_redis_cache/<root_dir>/<name>`.
    pub fn to_redis_key(root_dir: &str, name: &str) -> (r: String)
        ensures
            r@ == ttl_redis_key_spec(root_dir@, name@),
    {
        let mut k = String::from_str("ttl_redis_cache/");
        k.append(root_dir);
        string_push(&mut k, '/');
        k.append(name);
        k
    }

    /// The name that a key of the metadata store stands for: its last
    /// path component.
    pub fn from_redis_key(key: &str) -> (r: String)
        ensures
            r@ == split_dirs_spec(key@).1,
    {
        let (_dirs, name) = split_dirs(key);
        String::from_str(name)
    }

    /// `<root_dir>/<name>`.
    pub fn to_fs_path(root_dir: &str, name: &str) -> (r: String)
        ensures
            r@ == ttl_fs_path_spec(root_dir@, name@),
    {
        let mut p = String::from_str(root_dir);
        string_push(&mut p, '/');
        p.append(name);
        p
    }
}

/// A name without `/` is found again from its key: `from_redis_key` undoes
/// `to_redis_key`.
pub proof fn law_ttl_key_round_trip(root_dir: Seq<char>, name: Seq<char>)
    requires
        has_no_slash(name),
    ensures
        split_dirs_spec(ttl_redis_key_spec(root_dir, name)).1 == name,
{
    law_split_dirs_of_join("ttl_redis_cache/"@ + root_dir, name);
}

/// The file of a name without `/` lies directly in the root directory: its
/// parent directories are `root_dir` and its last component is the name.
pub proof fn law_ttl_file_in_root(root_dir: Seq<char>, name: Seq<char>)
    requires
        has_no_slash(name),
    ensures
        split_dirs_spec(ttl_fs_path_spec(root_dir, name)) == (root_dir, name),
{
    law_split_dirs_of_join(root_dir, name);
}

} // verus!
