//! turbovec: the storage, bookkeeping and ranking core of a partitioned
//! vector index.

pub mod answer;
pub mod answer_laws;
pub mod batch;
pub mod bits;
pub mod bytes;
pub mod chunk;
pub mod cluster_laws;
pub mod clustering;
pub mod coarse;
pub mod coarse_laws;
pub mod compact;
pub mod compaction;
pub mod compaction_laws;
pub mod consistency;
pub mod contents;
pub mod convert;
pub mod copies;
pub mod copies_laws;
pub mod counting;
pub mod crc;
pub mod delta;
pub mod disk;
pub mod disk_history;
pub mod durability;
pub mod exact;
pub mod flush;
pub mod flush_laws;
pub mod format_laws;
pub mod fresh;
pub mod fresh_search;
pub mod fresh_write;
pub mod gather;
pub mod gauge_laws;
pub mod history;
pub mod host;
pub mod host_laws;
pub mod indexed;
pub mod ingest;
pub mod integrity;
pub mod lire;
pub mod manifest;
pub mod manifest_laws;
pub mod math;
pub mod move_laws;
pub mod names;
pub mod pack;
pub mod partition;
pub mod partition_ops;
pub mod pass_laws;
pub mod pool_laws;
pub mod prefetch;
pub mod primaries;
pub mod probe_laws;
pub mod rank;
pub mod reassign;
pub mod recovery;
pub mod refresh;
pub mod reopen;
pub mod repartition;
pub mod repartition_laws;
pub mod replica_laws;
pub mod replicas;
pub mod replicate;
pub mod request_laws;
pub mod restructure;
pub mod restructure_laws;
pub mod result_laws;
pub mod retirement;
pub mod row_laws;
pub mod runs;
pub mod scan;
pub mod scan_laws;
pub mod search;
pub mod search_laws;
pub mod sections;
pub mod segment;
pub mod segment_laws;
pub mod session;
pub mod sort;
pub mod store_laws;
pub mod stream;
pub mod tier;
pub mod transfer;
pub mod tuning;
pub mod tvdm;
pub mod upkeep;
pub mod vector_history;
pub mod vectors;
pub mod wal;
pub mod write;
pub mod write_laws;
