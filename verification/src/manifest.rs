//! The manifest: the authoritative state of an index directory.
use vstd::prelude::*;
use vstd::slice::slice_subrange;
use crate::bytes::{
    push_u32, push_u32s, push_u64, push_u64s, read_u32, read_u32s, read_u64, read_u64s, u32_at, u32_bytes,
    u32s_at, u32s_bytes, u64_at, u64_bytes, u64s_at, u64s_bytes,
};
use crate::crc::{crc32, crc_of};
use crate::partition::{ChunkMeta, PartitionState};
use crate::segment::or_zero;
use crate::wal::FORMAT_VERSION;

verus! {

/// Vectors are stored.
pub const FLAG_HAS_VECTORS: u8 = 1;

/// The index is clustered.
pub const FLAG_CLUSTERED: u8 = 2;

/// Everything a manifest holds.
pub struct Manifest {
    pub bit_width: u8,
    pub store_vectors: bool,
    pub clustered: bool,
    /// 0 while no dimensionality is committed.
    pub dim: u32,
    pub epoch: u64,
    pub partition_target: Option<u32>,
    /// Bit pattern.
    pub replica_epsilon: Option<u32>,
    pub next_partition_id: u32,
    pub next_run_generation: u64,
    pub churn_since_check: u64,
    /// Bit patterns.
    pub tqplus_shift: Vec<u32>,
    pub tqplus_scale: Vec<u32>,
    /// Generations of the runs, oldest first.
    pub runs: Vec<u64>,
    pub partitions: Vec<PartitionState>,
    pub centroids_generation: u64,
}

/// Why a manifest is refused.
#[derive(Clone, Copy, PartialEq, Eq, Debug, Structural)]
pub enum ManifestError {
    /// Too short, or another kind of file.
    NotAManifest,
    /// Written in another version of the format.
    Version(u8),
    /// The checksum does not match.
    Checksum,
    /// No supported bit width.
    BitWidth(u8),
    /// A table runs beyond the end.
    Truncated,
}

/// The flags byte.
pub open spec fn flags_byte(store_vectors: bool, clustered: bool) -> u8 {
    (if store_vectors {
        1u8
    } else {
        0u8
    } + if clustered {
        2u8
    } else {
        0u8
    }) as u8
}

/// A positive number by its bit pattern, infinity among them.
pub open spec fn positive_bits(bits: u32) -> bool {
    0 < bits <= 0x7F80_0000
}

/// The chunk at offset `o` of a partition record.
pub open spec fn chunk_meta_at(s: Seq<u8>, o: int) -> ChunkMeta {
    ChunkMeta { offset: u64_at(s, o), n_rows: u32_at(s, o + 8) }
}

/// Bytes of a bitmap over `n` rows.
pub open spec fn bitmap_len(n: u64) -> int {
    (n + 7) / 8
}

/// Where the chunk table of the partition record at `o` ends.
pub open spec fn chunks_end(s: Seq<u8>, o: int) -> int {
    o + 48 + 16 * u32_at(s, o + 40)
}

/// Where the partition record at `o` ends.
pub open spec fn part_end(s: Seq<u8>, o: int) -> int {
    chunks_end(s, o) + bitmap_len(u64_at(s, o + 8))
}

/// Where `k` partition records from `o` on end.
pub open spec fn parts_end(s: Seq<u8>, o: int, k: int) -> int
    decreases k,
{
    if k <= 0 {
        o
    } else {
        part_end(s, parts_end(s, o, k - 1))
    }
}

/// `k` partition records from `o` on lie before `end`.
pub open spec fn parts_fit(s: Seq<u8>, o: int, k: int, end: int) -> bool {
    forall|j: int|
        0 <= j < k ==> #[trigger] parts_end(s, o, j) + 48 <= end && part_end(s, parts_end(s, o, j)) <= end
}

/// The partition of the record at `o`.
pub open spec fn partition_is(p: PartitionState, s: Seq<u8>, o: int) -> bool {
    &&& p.partition_id == u32_at(s, o)
    &&& p.generation == u32_at(s, o + 4)
    &&& p.n_rows == u64_at(s, o + 8)
    &&& p.live_rows == u64_at(s, o + 16)
    &&& p.live_primary == u64_at(s, o + 24)
    &&& p.file_bytes == u64_at(s, o + 32)
    &&& p.chunks@ == Seq::new(u32_at(s, o + 40) as nat, |k: int| chunk_meta_at(s, o + 48 + 16 * k))
    &&& p.dead@ == s.subrange(chunks_end(s, o), part_end(s, o))
}

/// Entries of each calibration table.
pub open spec fn calib_of(s: Seq<u8>) -> int {
    u32_at(s, 12) as int
}

/// Number of runs.
pub open spec fn run_total(s: Seq<u8>) -> int {
    u32_at(s, 56) as int
}

/// Number of partitions.
pub open spec fn part_total(s: Seq<u8>) -> int {
    u32_at(s, 36) as int
}

/// Where the run table starts.
pub open spec fn runs_start(s: Seq<u8>) -> int {
    64 + 8 * calib_of(s)
}

/// Where the partition records start.
pub open spec fn parts_start(s: Seq<u8>) -> int {
    runs_start(s) + 8 * run_total(s)
}

/// Where the partition records end.
pub open spec fn parts_stop(s: Seq<u8>) -> int {
    parts_end(s, parts_start(s), part_total(s))
}

/// Every table lies in front of the checksum.
pub open spec fn is_complete(s: Seq<u8>) -> bool {
    &&& 64 <= s.len() - 4
    &&& parts_start(s) <= s.len() - 4
    &&& parts_fit(s, parts_start(s), part_total(s), s.len() - 4)
    &&& parts_stop(s) + 8 <= s.len() - 4
}

/// Why a manifest is refused, if it is.
pub open spec fn manifest_error(s: Seq<u8>) -> Option<ManifestError> {
    if s.len() < 56 || s[0] != 0x54 || s[1] != 0x56 || s[2] != 0x46 || s[3] != 0x4D {
        Some(ManifestError::NotAManifest)
    } else if s[4] != FORMAT_VERSION {
        Some(ManifestError::Version(s[4]))
    } else if crc_of(s.take(s.len() - 4)) != u32_at(s, s.len() - 4) {
        Some(ManifestError::Checksum)
    } else if !(2 <= s[5] <= 4) {
        Some(ManifestError::BitWidth(s[5]))
    } else if !is_complete(s) {
        Some(ManifestError::Truncated)
    } else {
        None
    }
}

impl Manifest {
    /// This is what a manifest says.
    pub open spec fn holds(self, s: Seq<u8>) -> bool {
        &&& self.bit_width == s[5]
        &&& self.store_vectors == (s[6] % 2 == 1)
        &&& self.clustered == (s[6] / 2 % 2 == 1)
        &&& self.dim == u32_at(s, 8)
        &&& self.epoch == u64_at(s, 16)
        &&& self.partition_target == (if u32_at(s, 24) > 0 {
            Some(u32_at(s, 24))
        } else {
            None
        })
        &&& self.replica_epsilon == (if positive_bits(u32_at(s, 28)) {
            Some(u32_at(s, 28))
        } else {
            None
        })
        &&& self.next_partition_id == u32_at(s, 32)
        &&& self.next_run_generation == u64_at(s, 40)
        &&& self.churn_since_check == u64_at(s, 48)
        &&& self.tqplus_shift@ == u32s_at(s, 64, calib_of(s) as nat)
        &&& self.tqplus_scale@ == u32s_at(s, 64 + 4 * calib_of(s), calib_of(s) as nat)
        &&& self.runs@ == u64s_at(s, runs_start(s), run_total(s) as nat)
        &&& self.partitions@.len() == part_total(s)
        &&& forall|j: int|
            0 <= j < part_total(s) ==> partition_is(
                #[trigger] self.partitions@[j],
                s,
                parts_end(s, parts_start(s), j),
            )
        &&& self.centroids_generation == u64_at(s, parts_stop(s))
    }
}

/// Reads `n` chunk records from `o` on.
fn read_chunks(s: &[u8], o: usize, n: usize) -> (r: Vec<ChunkMeta>)
    requires
        o + 16 * n <= s@.len(),
    ensures
        r@ == Seq::new(n as nat, |k: int| chunk_meta_at(s@, o + 16 * k)),
{
    let len: usize = s.len();
    let mut r: Vec<ChunkMeta> = Vec::new();
    let mut k: usize = 0;
    while k < n
        invariant
            k <= n,
            len == s@.len(),
            o + 16 * n <= len,
            r@ == Seq::new(k as nat, |i: int| chunk_meta_at(s@, o + 16 * i)),
        decreases n - k,
    {
        r.push(ChunkMeta { offset: read_u64(s, o + 16 * k), n_rows: read_u32(s, o + 16 * k + 8) });
        k = k + 1;
        assert(r@ =~= Seq::new(k as nat, |i: int| chunk_meta_at(s@, o + 16 * i)));
    }
    r
}

/// Reads the partition record at `o`, if it lies before `end`; also where it
/// ends.
fn read_partition(s: &[u8], o: usize, end: usize) -> (r: Option<(PartitionState, usize)>)
    requires
        o <= end <= s@.len(),
    ensures
        match r {
            Some(p) => {
                &&& o + 48 <= end
                &&& p.1 == part_end(s@, o as int)
                &&& p.1 <= end
                &&& partition_is(p.0, s@, o as int)
            },
            None => o + 48 > end || part_end(s@, o as int) > end,
        },
{
    let len: usize = s.len();
    if end - o < 48 {
        return None;
    }
    let n_rows: u64 = read_u64(s, o + 8);
    let n_chunks: u32 = read_u32(s, o + 40);
    let bitmap: u64 = n_rows / 8 + (if n_rows % 8 == 0 {
        0
    } else {
        1
    });
    assert(bitmap == bitmap_len(n_rows));
    let need: u64 = 16 * (n_chunks as u64) + bitmap;
    if ((end - o - 48) as u64) < need {
        return None;
    }
    let chunks: Vec<ChunkMeta> = read_chunks(s, o + 48, n_chunks as usize);
    let at: usize = o + 48 + 16 * (n_chunks as usize);
    let mut dead: Vec<u8> = Vec::new();
    dead.extend_from_slice(slice_subrange(s, at, at + bitmap as usize));
    let p = PartitionState {
        partition_id: read_u32(s, o),
        generation: read_u32(s, o + 4),
        n_rows,
        live_rows: read_u64(s, o + 16),
        live_primary: read_u64(s, o + 24),
        chunks,
        dead,
        file_bytes: read_u64(s, o + 32),
    };
    assert(p.dead@ =~= s@.subrange(chunks_end(s@, o as int), part_end(s@, o as int)));
    Some((p, at + bitmap as usize))
}

/// Reads `n` partition records from `o` on, if they lie before `end`; also
/// where they end.
fn read_partitions(s: &[u8], o: usize, n: usize, end: usize) -> (r: Option<(Vec<PartitionState>, usize)>)
    requires
        o <= end <= s@.len(),
    ensures
        match r {
            Some(p) => {
                &&& parts_fit(s@, o as int, n as int, end as int)
                &&& p.1 == parts_end(s@, o as int, n as int)
                &&& p.1 <= end
                &&& p.0@.len() == n
                &&& forall|j: int|
                    0 <= j < n ==> partition_is(#[trigger] p.0@[j], s@, parts_end(s@, o as int, j))
            },
            None => !parts_fit(s@, o as int, n as int, end as int),
        },
{
    let mut out: Vec<PartitionState> = Vec::new();
    let mut at: usize = o;
    let mut k: usize = 0;
    while k < n
        invariant
            k <= n,
            o <= end <= s@.len(),
            at == parts_end(s@, o as int, k as int),
            at <= end,
            parts_fit(s@, o as int, k as int, end as int),
            out@.len() == k,
            forall|j: int| 0 <= j < k ==> partition_is(#[trigger] out@[j], s@, parts_end(s@, o as int, j)),
        decreases n - k,
    {
        match read_partition(s, at, end) {
            None => {
                proof {
                    if parts_fit(s@, o as int, n as int, end as int) {
                        assert(parts_end(s@, o as int, k as int) + 48 <= end);
                    }
                }
                return None;
            },
            Some((p, next)) => {
                out.push(p);
                proof {
                    assert(parts_end(s@, o as int, k + 1) == part_end(s@, parts_end(s@, o as int, k as int)));
                }
                at = next;
                k = k + 1;
            },
        }
    }
    Some((out, at))
}

/// Whether the bytes open like a manifest.
fn has_magic(s: &[u8]) -> (r: bool)
    ensures
        r == !(s@.len() < 56 || s@[0] != 0x54 || s@[1] != 0x56 || s@[2] != 0x46 || s@[3] != 0x4D),
{
    s.len() >= 56 && s[0] == 0x54 && s[1] == 0x56 && s[2] == 0x46 && s[3] == 0x4D
}

/// Reads a manifest.
pub fn decode_manifest(s: &[u8]) -> (r: Result<Manifest, ManifestError>)
    ensures
        match r {
            Ok(m) => manifest_error(s@) is None && m.holds(s@),
            Err(e) => manifest_error(s@) == Some(e),
        },
{
    if !has_magic(s) {
        return Err(ManifestError::NotAManifest);
    }
    if s[4] != FORMAT_VERSION {
        return Err(ManifestError::Version(s[4]));
    }
    let end: usize = s.len() - 4;
    assert(s@.subrange(0, end as int) =~= s@.take(end as int));
    if crc32(slice_subrange(s, 0, end)) != read_u32(s, end) {
        return Err(ManifestError::Checksum);
    }
    if s[5] < 2 || s[5] > 4 {
        return Err(ManifestError::BitWidth(s[5]));
    }
    if end < 64 {
        return Err(ManifestError::Truncated);
    }
    let n_calib: u32 = read_u32(s, 12);
    let n_runs: u32 = read_u32(s, 56);
    let n_parts: u32 = read_u32(s, 36);
    if ((end - 64) as u64) < 8 * (n_calib as u64) + 8 * (n_runs as u64) {
        return Err(ManifestError::Truncated);
    }
    let shift: Vec<u32> = read_u32s(s, 64, n_calib as usize);
    let scale: Vec<u32> = read_u32s(s, 64 + 4 * (n_calib as usize), n_calib as usize);
    let runs_at: usize = 64 + 8 * (n_calib as usize);
    let runs: Vec<u64> = read_u64s(s, runs_at, n_runs as usize);
    let parts_at: usize = runs_at + 8 * (n_runs as usize);
    let (partitions, stop) = match read_partitions(s, parts_at, n_parts as usize, end) {
        None => {
            return Err(ManifestError::Truncated);
        },
        Some(p) => p,
    };
    if end - stop < 8 {
        return Err(ManifestError::Truncated);
    }
    let target: u32 = read_u32(s, 24);
    let epsilon: u32 = read_u32(s, 28);
    Ok(
        Manifest {
            bit_width: s[5],
            store_vectors: s[6] % 2 == 1,
            clustered: s[6] / 2 % 2 == 1,
            dim: read_u32(s, 8),
            epoch: read_u64(s, 16),
            partition_target: if target > 0 {
                Some(target)
            } else {
                None
            },
            replica_epsilon: if 0 < epsilon && epsilon <= 0x7F80_0000 {
                Some(epsilon)
            } else {
                None
            },
            next_partition_id: read_u32(s, 32),
            next_run_generation: read_u64(s, 40),
            churn_since_check: read_u64(s, 48),
            tqplus_shift: shift,
            tqplus_scale: scale,
            runs,
            partitions,
            centroids_generation: read_u64(s, stop),
        },
    )
}

/// The bytes of chunk records.
pub open spec fn chunk_metas_bytes(chunks: Seq<ChunkMeta>) -> Seq<u8>
    decreases chunks.len(),
{
    if chunks.len() == 0 {
        Seq::empty()
    } else {
        chunk_metas_bytes(chunks.drop_last()) + u64_bytes(chunks.last().offset) + u32_bytes(
            chunks.last().n_rows,
        ) + seq![0u8, 0u8, 0u8, 0u8]
    }
}

/// The fixed part of a partition record.
#[verifier::opaque]
pub open spec fn part_head(p: PartitionState) -> Seq<u8> {
    u32_bytes(p.partition_id) + u32_bytes(p.generation) + u64_bytes(p.n_rows) + u64_bytes(p.live_rows)
        + u64_bytes(p.live_primary) + u64_bytes(p.file_bytes) + u32_bytes(p.chunks@.len() as u32) + seq![
        0u8,
        0u8,
        0u8,
        0u8,
    ]
}

/// A partition record.
pub open spec fn part_bytes(p: PartitionState) -> Seq<u8> {
    part_head(p) + chunk_metas_bytes(p.chunks@) + p.dead@
}

/// The first `k` partition records.
pub open spec fn parts_bytes(parts: Seq<PartitionState>, k: int) -> Seq<u8>
    decreases k,
{
    if k <= 0 {
        Seq::empty()
    } else {
        parts_bytes(parts, k - 1) + part_bytes(parts[k - 1])
    }
}

impl Manifest {
    /// The fixed part of a manifest.
    #[verifier::opaque]
    pub open spec fn head(self) -> Seq<u8> {
        seq![
            0x54u8,
            0x56u8,
            0x46u8,
            0x4Du8,
            FORMAT_VERSION,
            self.bit_width,
            flags_byte(self.store_vectors, self.clustered),
            0u8,
        ] + u32_bytes(self.dim) + u32_bytes(self.tqplus_shift@.len() as u32) + u64_bytes(self.epoch)
            + u32_bytes(or_zero(self.partition_target)) + u32_bytes(or_zero(self.replica_epsilon))
            + u32_bytes(self.next_partition_id) + u32_bytes(self.partitions@.len() as u32) + u64_bytes(
            self.next_run_generation,
        ) + u64_bytes(self.churn_since_check) + u32_bytes(self.runs@.len() as u32) + seq![
            0u8,
            0u8,
            0u8,
            0u8,
        ]
    }

    /// The manifest without its checksum.
    pub open spec fn body(self) -> Seq<u8> {
        self.head() + u32s_bytes(self.tqplus_shift@) + u32s_bytes(self.tqplus_scale@) + u64s_bytes(
            self.runs@,
        ) + parts_bytes(self.partitions@, self.partitions@.len() as int) + u64_bytes(
            self.centroids_generation,
        )
    }

    /// The manifest.
    pub open spec fn bytes(self) -> Seq<u8> {
        self.body() + u32_bytes(crc_of(self.body()))
    }

    /// The tables have lengths that the format can hold.
    pub open spec fn writable(self) -> bool {
        &&& 2 <= self.bit_width <= 4
        &&& self.tqplus_shift@.len() == self.tqplus_scale@.len()
        &&& self.tqplus_shift@.len() <= u32::MAX
        &&& self.runs@.len() <= u32::MAX
        &&& self.partitions@.len() <= u32::MAX
        &&& self.partition_target is Some ==> self.partition_target->0 > 0
        &&& self.replica_epsilon is Some ==> positive_bits(self.replica_epsilon->0)
        &&& forall|j: int|
            0 <= j < self.partitions@.len() ==> (#[trigger] self.partitions@[j]).chunks@.len() <= u32::MAX
                && self.partitions@[j].dead@.len() == bitmap_len(self.partitions@[j].n_rows)
    }
}

fn push_four_zeros(out: &mut Vec<u8>)
    ensures
        final(out)@ == old(out)@ + seq![0u8, 0u8, 0u8, 0u8],
{
    out.push(0);
    out.push(0);
    out.push(0);
    out.push(0);
    assert(out@ =~= old(out)@ + seq![0u8, 0u8, 0u8, 0u8]);
}

fn push_chunk_metas(out: &mut Vec<u8>, chunks: &Vec<ChunkMeta>)
    ensures
        final(out)@ == old(out)@ + chunk_metas_bytes(chunks@),
{
    let mut k: usize = 0;
    assert(chunks@.take(0) =~= Seq::<ChunkMeta>::empty());
    assert(out@ =~= old(out)@ + chunk_metas_bytes(chunks@.take(0)));
    while k < chunks.len()
        invariant
            k <= chunks@.len(),
            out@ == old(out)@ + chunk_metas_bytes(chunks@.take(k as int)),
        decreases chunks.len() - k,
    {
        push_u64(out, chunks[k].offset);
        push_u32(out, chunks[k].n_rows);
        push_four_zeros(out);
        proof {
            assert(chunks@.take(k + 1).drop_last() =~= chunks@.take(k as int));
            assert(chunks@.take(k + 1).last() == chunks@[k as int]);
            assert(out@ =~= old(out)@ + chunk_metas_bytes(chunks@.take(k + 1)));
        }
        k = k + 1;
    }
    assert(chunks@.take(k as int) =~= chunks@);
}

proof fn lemma_joined(a: Seq<u8>, b: Seq<u8>, c: Seq<u8>)
    ensures
        a + b + c == a + (b + c),
{
    assert(a + b + c =~= a + (b + c));
}

/// The row counts of a partition record.
spec fn part_rows(p: PartitionState) -> Seq<u8> {
    u32_bytes(p.partition_id) + u32_bytes(p.generation) + u64_bytes(p.n_rows) + u64_bytes(p.live_rows)
}

fn push_part_rows(out: &mut Vec<u8>, p: &PartitionState)
    ensures
        final(out)@ == old(out)@ + part_rows(*p),
{
    let ghost before = out@;
    push_u32(out, p.partition_id);
    push_u32(out, p.generation);
    push_u64(out, p.n_rows);
    push_u64(out, p.live_rows);
    proof {
        let a = u32_bytes(p.partition_id);
        let b = u32_bytes(p.generation);
        let c = u64_bytes(p.n_rows);
        lemma_joined(before, a, b);
        lemma_joined(before, a + b, c);
        lemma_joined(before, a + b + c, u64_bytes(p.live_rows));
    }
}

fn push_part_head(out: &mut Vec<u8>, p: &PartitionState)
    requires
        p.chunks@.len() <= u32::MAX,
    ensures
        final(out)@ == old(out)@ + part_head(*p),
{
    let ghost before = out@;
    push_part_rows(out, p);
    push_u64(out, p.live_primary);
    push_u64(out, p.file_bytes);
    push_u32(out, p.chunks.len() as u32);
    push_four_zeros(out);
    proof {
        reveal(part_head);
        let a = part_rows(*p);
        let b = u64_bytes(p.live_primary);
        let c = u64_bytes(p.file_bytes);
        let d = u32_bytes(p.chunks@.len() as u32);
        lemma_joined(before, a, b);
        lemma_joined(before, a + b, c);
        lemma_joined(before, a + b + c, d);
        lemma_joined(before, a + b + c + d, seq![0u8, 0u8, 0u8, 0u8]);
    }
}

fn push_partition(out: &mut Vec<u8>, p: &PartitionState)
    requires
        p.chunks@.len() <= u32::MAX,
    ensures
        final(out)@ == old(out)@ + part_bytes(*p),
{
    let ghost before = out@;
    push_part_head(out, p);
    push_chunk_metas(out, &p.chunks);
    out.extend_from_slice(p.dead.as_slice());
    proof {
        lemma_joined(before, part_head(*p), chunk_metas_bytes(p.chunks@));
        lemma_joined(before, part_head(*p) + chunk_metas_bytes(p.chunks@), p.dead@);
    }
}

impl Manifest {
    fn push_head(&self) -> (out: Vec<u8>)
        requires
            self.writable(),
        ensures
            out@ == self.head(),
    {
        reveal(Manifest::head);
        let mut out: Vec<u8> = Vec::new();
        let flags: u8 = (if self.store_vectors {
            FLAG_HAS_VECTORS
        } else {
            0
        }) + (if self.clustered {
            FLAG_CLUSTERED
        } else {
            0
        });
        let target: u32 = match self.partition_target {
            Some(t) => t,
            None => 0,
        };
        let epsilon: u32 = match self.replica_epsilon {
            Some(e) => e,
            None => 0,
        };
        out.push(0x54);
        out.push(0x56);
        out.push(0x46);
        out.push(0x4D);
        out.push(FORMAT_VERSION);
        out.push(self.bit_width);
        out.push(flags);
        out.push(0);
        assert(out@ =~= seq![
            0x54u8,
            0x56u8,
            0x46u8,
            0x4Du8,
            FORMAT_VERSION,
            self.bit_width,
            flags_byte(self.store_vectors, self.clustered),
            0u8,
        ]);
        push_u32(&mut out, self.dim);
        push_u32(&mut out, self.tqplus_shift.len() as u32);
        push_u64(&mut out, self.epoch);
        push_u32(&mut out, target);
        push_u32(&mut out, epsilon);
        push_u32(&mut out, self.next_partition_id);
        push_u32(&mut out, self.partitions.len() as u32);
        push_u64(&mut out, self.next_run_generation);
        push_u64(&mut out, self.churn_since_check);
        push_u32(&mut out, self.runs.len() as u32);
        push_four_zeros(&mut out);
        out
    }

    /// The bytes of this manifest.
    pub fn encode(&self) -> (out: Vec<u8>)
        requires
            self.writable(),
        ensures
            out@ == self.bytes(),
    {
        let mut out: Vec<u8> = self.push_head();
        push_u32s(&mut out, self.tqplus_shift.as_slice());
        push_u32s(&mut out, self.tqplus_scale.as_slice());
        push_u64s(&mut out, self.runs.as_slice());
        let ghost start = out@;
        let mut k: usize = 0;
        assert(out@ =~= start + parts_bytes(self.partitions@, 0));
        while k < self.partitions.len()
            invariant
                self.writable(),
                k <= self.partitions@.len(),
                out@ == start + parts_bytes(self.partitions@, k as int),
            decreases self.partitions.len() - k,
        {
            assert(self.partitions@[k as int].chunks@.len() <= u32::MAX);
            push_partition(&mut out, &self.partitions[k]);
            k = k + 1;
            assert(out@ =~= start + parts_bytes(self.partitions@, k as int));
        }
        push_u64(&mut out, self.centroids_generation);
        assert(out@ =~= self.body());
        let crc: u32 = crc32(out.as_slice());
        push_u32(&mut out, crc);
        out
    }
}

} // verus!
