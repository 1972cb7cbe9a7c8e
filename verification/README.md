# turbovec

The storage, bookkeeping and ranking core of a partitioned vector index, with
its behaviour stated in contracts and proved by Verus.

`src/` is the library. It works on bytes, integers and the bit patterns of
numbers; whatever needs a file, a thread or floating-point arithmetic is handed
in as a plain value.

- Codes: `pack`, `scan`, `stream`, `bits`.
- One-file indexes: `tvdm`, `segment`, `contents`, `sections`, `delta`, `disk`,
  `gather`, `compact`, `write`, `consistency`, `convert`, with `segment_laws`
  and `write_laws`.
- Partitioning: `clustering`, `lire`, `repartition`, `replicate`, `coarse`.
- Searching: `rank`, `search`, `fresh_search`, `prefetch`, `answer`, with
  `search_laws` and `exact`.
- Incrementally updated indexes: `batch`, `chunk`, `partition`,
  `partition_ops`, `runs`, `copies`, `tier`, `fresh`, `fresh_write`, `flush`,
  `ingest`, `compaction`, `restructure`, `reassign`, `refresh`, `replicas`,
  `upkeep`, `tuning`, `transfer`, with `copies_laws`, `flush_laws`, `compaction_laws`,
  `restructure_laws`, `indexed`, `counting`, `primaries`, `integrity` and
  `history`.
- Stored vectors: `vectors`, `disk_history`, `vector_history`.
- Durability: `crc`, `wal`, `manifest`, `manifest_laws`, `reopen`, `recovery`,
  `session`, `names`, `retirement`, with `durability`.
- The boundary to a host language: `host`.

Laws that relate several functions are the public proof functions whose names
begin with `law_`.

`app/` holds the ordinary Rust around the library: directories and files, the
distances and means of clustering, scores, snapshots for readers, and what a
host language sees.
