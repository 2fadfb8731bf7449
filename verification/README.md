# mirror-cache

A caching reverse proxy for package mirrors (PyPI, Anaconda and any upstream
named by a rule), with LRU and TTL cache policies.

`src/` is the verified library:

- `lru` — the metadata of the size-limited LRU cache and its eviction rule,
  with the laws of the policy (`law_*` proof functions).
- `cache` — the cache policy trait, cache entries and their metadata fields,
  the key and path scheme of the TTL cache.
- `models` — the stored forms of metadata: the fields of a metadata hash and
  the sixteen bytes kept in the embedded database.
- `settings`, `size` — the configuration and sizes such as `2.33 MB`.
- `task` — download tasks, their cache keys and upstream URLs, matching request
  paths against compiled rules, size limits, the choice of cache policy, and
  the set of downloads in flight.
- `decimal`, `text`, `util` — decimal text, characters, paths, substring
  replacement and big-endian bytes.

`app/` is the program around it: command line, configuration files, the HTTP
server, redis, sled, S3 and the filesystem.
