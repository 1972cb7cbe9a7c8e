//! Decisions at the boundary to a host language: arguments, buffers, threads
//! and warnings.
use std::collections::HashSet;
use vstd::prelude::*;
use crate::delta::{slots_match, Delta};
use crate::names::{has_prefix, starts};
use crate::tvdm::{finite_non_negative, finite_positive};

verus! {

broadcast use vstd::std_specs::hash::group_hash_axioms;

/// The lesser of a number and `max`.
pub open spec fn capped(x: int, max: int) -> int {
    if x > max {
        max
    } else {
        x
    }
}

/// Elements of a scratch buffer worth keeping after a call that needed `prev`:
/// half again as many.
pub open spec fn keep_len(prev: usize) -> int {
    capped(prev + prev as int / 2, usize::MAX as int)
}

/// To what length a scratch buffer is cut, if its capacity is more than twice
/// what is worth keeping after a call that needed `prev`.
pub fn retain_snap(capacity: usize, prev: usize) -> (r: Option<usize>)
    ensures
        r == if capacity > capped(2 * keep_len(prev), usize::MAX as int) {
            Some(keep_len(prev) as usize)
        } else {
            None
        },
{
    let target: usize = prev.saturating_add(prev / 2);
    if capacity > target.saturating_add(target) {
        Some(target)
    } else {
        None
    }
}

/// An argument that should be an integer.
#[derive(Clone, Copy, PartialEq, Eq, Debug, Structural)]
pub enum IntArg {
    Small(i128),
    /// Beyond 128 bits, negative or not.
    Huge(bool),
    NotAnInteger,
}

/// Why an argument is refused.
#[derive(Clone, Copy, PartialEq, Eq, Debug, Structural)]
pub enum ArgError {
    Negative,
    TooLarge,
    NotAnInteger,
}

/// A size.
pub fn extract_size(arg: IntArg) -> (r: Result<usize, ArgError>)
    ensures
        match arg {
            IntArg::NotAnInteger => r == Err::<usize, ArgError>(ArgError::NotAnInteger),
            IntArg::Huge(negative) => r == Err::<usize, ArgError>(
                if negative {
                    ArgError::Negative
                } else {
                    ArgError::TooLarge
                },
            ),
            IntArg::Small(v) => if v < 0 {
                r == Err::<usize, ArgError>(ArgError::Negative)
            } else if v > usize::MAX {
                r == Err::<usize, ArgError>(ArgError::TooLarge)
            } else {
                r == Ok::<usize, ArgError>(v as usize)
            },
        },
{
    match arg {
        IntArg::NotAnInteger => Err(ArgError::NotAnInteger),
        IntArg::Huge(negative) => if negative {
            Err(ArgError::Negative)
        } else {
            Err(ArgError::TooLarge)
        },
        IntArg::Small(v) => if v < 0 {
            Err(ArgError::Negative)
        } else if v as u128 > usize::MAX as u128 {
            Err(ArgError::TooLarge)
        } else {
            Ok(v as usize)
        },
    }
}

/// Why a row number is refused.
#[derive(Clone, Copy, PartialEq, Eq, Debug, Structural)]
pub enum IndexError {
    /// No row has this number; numbers do not count from the end.
    OutOfRange,
    NotAnInteger,
}

/// The number of one of `len` rows.
pub fn extract_index(arg: IntArg, len: usize) -> (r: Result<usize, IndexError>)
    ensures
        match arg {
            IntArg::NotAnInteger => r == Err::<usize, IndexError>(IndexError::NotAnInteger),
            IntArg::Huge(_) => r == Err::<usize, IndexError>(IndexError::OutOfRange),
            IntArg::Small(v) => if 0 <= v < len {
                r == Ok::<usize, IndexError>(v as usize)
            } else {
                r == Err::<usize, IndexError>(IndexError::OutOfRange)
            },
        },
{
    match extract_size(arg) {
        Ok(i) => if i < len {
            Ok(i)
        } else {
            Err(IndexError::OutOfRange)
        },
        Err(e) => match e {
            ArgError::NotAnInteger => Err(IndexError::NotAnInteger),
            _ => Err(IndexError::OutOfRange),
        },
    }
}

/// Why vectors are not handed out.
#[derive(Clone, Copy, PartialEq, Eq, Debug, Structural)]
pub enum VectorsError {
    /// The index keeps no vectors.
    NotStored,
    /// An id that is not in the index.
    Missing(u64),
}

/// Vectors one after the other.
pub open spec fn joined(found: Seq<Option<Vec<u32>>>) -> Seq<u32>
    decreases found.len(),
{
    if found.len() == 0 {
        Seq::empty()
    } else {
        joined(found.drop_last()) + found.last()->0@
    }
}

/// Entry `i` is the first with no vector.
pub open spec fn first_missing(found: Seq<Option<Vec<u32>>>, i: int) -> bool {
    &&& 0 <= i < found.len()
    &&& found[i] is None
    &&& forall|j: int| 0 <= j < i ==> #[trigger] found[j] is Some
}

/// The vectors of `ids` in one buffer, given what was found of each. The first
/// id that is missing is reported.
pub fn join_vectors(stored: bool, ids: &[u64], found: &Vec<Option<Vec<u32>>>) -> (r: Result<
    Vec<u32>,
    VectorsError,
>)
    requires
        found@.len() == ids@.len(),
    ensures
        match r {
            Ok(out) => {
                &&& stored
                &&& forall|i: int| 0 <= i < ids@.len() ==> #[trigger] found@[i] is Some
                &&& out@ == joined(found@)
            },
            Err(VectorsError::NotStored) => !stored,
            Err(VectorsError::Missing(id)) => stored && exists|i: int| #[trigger]
                first_missing(found@, i) && ids@[i] == id,
        },
{
    if !stored {
        return Err(VectorsError::NotStored);
    }
    let mut out: Vec<u32> = Vec::new();
    let mut i: usize = 0;
    assert(found@.take(0) =~= Seq::<Option<Vec<u32>>>::empty());
    while i < ids.len()
        invariant
            i <= ids@.len(),
            stored,
            found@.len() == ids@.len(),
            forall|j: int| 0 <= j < i ==> #[trigger] found@[j] is Some,
            out@ == joined(found@.take(i as int)),
        decreases ids.len() - i,
    {
        assert(found@.take(i + 1).drop_last() =~= found@.take(i as int));
        match &found[i] {
            Some(v) => out.extend_from_slice(v.as_slice()),
            None => {
                assert(first_missing(found@, i as int));
                return Err(VectorsError::Missing(ids[i]));
            },
        }
        i = i + 1;
    }
    assert(found@.take(i as int) =~= found@);
    Ok(out)
}

/// An id to look for. Integers that no id can be are absent.
pub fn extract_membership_id(arg: IntArg) -> (r: Result<Option<u64>, ArgError>)
    ensures
        match arg {
            IntArg::NotAnInteger => r == Err::<Option<u64>, ArgError>(ArgError::NotAnInteger),
            IntArg::Huge(_) => r == Ok::<Option<u64>, ArgError>(None),
            IntArg::Small(v) => r == Ok::<Option<u64>, ArgError>(
                if 0 <= v <= u64::MAX {
                    Some(v as u64)
                } else {
                    None
                },
            ),
        },
{
    match arg {
        IntArg::NotAnInteger => Err(ArgError::NotAnInteger),
        IntArg::Huge(_) => Ok(None),
        IntArg::Small(v) => if 0 <= v && v <= u64::MAX as i128 {
            Ok(Some(v as u64))
        } else {
            Ok(None)
        },
    }
}

/// A mask from bytes: any byte but zero is true.
pub fn mask_bytes(bytes: &[u8]) -> (r: Vec<bool>)
    ensures
        r@ == Seq::new(bytes@.len(), |i: int| bytes@[i] != 0),
{
    let mut r: Vec<bool> = Vec::new();
    let mut i: usize = 0;
    while i < bytes.len()
        invariant
            i <= bytes@.len(),
            r@ == Seq::new(i as nat, |k: int| bytes@[k] != 0),
        decreases bytes.len() - i,
    {
        r.push(bytes[i] != 0);
        i = i + 1;
        assert(r@ =~= Seq::new(i as nat, |k: int| bytes@[k] != 0));
    }
    r
}

/// The ids of `allow` that are not among `ids`, in order.
pub open spec fn absent(ids: Set<u64>, allow: Seq<u64>) -> Seq<u64>
    decreases allow.len(),
{
    if allow.len() == 0 {
        Seq::empty()
    } else if ids.contains(allow.last()) {
        absent(ids, allow.drop_last())
    } else {
        absent(ids, allow.drop_last()).push(allow.last())
    }
}

/// What is absent from a prefix comes first.
proof fn lemma_absent_prefix(ids: Set<u64>, allow: Seq<u64>, n: int)
    requires
        0 <= n <= allow.len(),
    ensures
        absent(ids, allow.take(n)).len() <= absent(ids, allow).len(),
        absent(ids, allow).take(absent(ids, allow.take(n)).len() as int) == absent(ids, allow.take(n)),
    decreases allow.len() - n,
{
    let a = absent(ids, allow.take(n));
    if n < allow.len() {
        lemma_absent_prefix(ids, allow, n + 1);
        let b = absent(ids, allow.take(n + 1));
        assert(allow.take(n + 1).drop_last() =~= allow.take(n));
        let all = absent(ids, allow);
        assert(b.take(a.len() as int) =~= a);
        assert(all.take(a.len() as int) =~= all.take(b.len() as int).take(a.len() as int));
    } else {
        assert(allow.take(n) =~= allow);
        assert(a.take(a.len() as int) =~= a);
    }
}

/// The first five ids of an allowlist that an index does not hold, and whether
/// there are more; nothing if it holds them all.
pub fn unknown_ids(index: &Delta, allow: &[u64]) -> (r: Option<(Vec<u64>, bool)>)
    requires
        slots_match(index.ids@, index.slots@),
    ensures
        ({
            let all = absent(index.ids@.to_set(), allow@);
            match r {
                None => all.len() == 0,
                Some(p) => {
                    &&& all.len() > 0
                    &&& p.0@ == all.take(capped(all.len() as int, 5))
                    &&& p.1 == (all.len() > 5)
                },
            }
        }),
{
    let ghost ids = index.ids@.to_set();
    let ghost all = absent(ids, allow@);
    let mut found: Vec<u64> = Vec::new();
    let mut i: usize = 0;
    assert(allow@.take(0) =~= Seq::<u64>::empty());
    while i < allow.len()
        invariant
            slots_match(index.ids@, index.slots@),
            ids == index.ids@.to_set(),
            all == absent(ids, allow@),
            i <= allow@.len(),
            found@ == absent(ids, allow@.take(i as int)),
            found@.len() <= 5,
        decreases allow.len() - i,
    {
        proof {
            assert(allow@.take(i + 1).drop_last() =~= allow@.take(i as int));
            lemma_absent_prefix(ids, allow@, i + 1);
            lemma_absent_prefix(ids, allow@, i as int);
        }
        if !index.contains(allow[i]) {
            assert(!ids.contains(allow@[i as int]));
            if found.len() == 5 {
                return Some((found, true));
            }
            found.push(allow[i]);
        } else {
            assert(ids.contains(allow@[i as int]));
        }
        i = i + 1;
    }
    assert(allow@.take(i as int) =~= allow@);
    if found.len() == 0 {
        None
    } else {
        assert(found@.take(found@.len() as int) =~= found@);
        Some((found, false))
    }
}

/// Why an allowlist is refused.
#[derive(PartialEq, Eq, Debug)]
pub enum AllowlistError {
    Empty,
    /// The first five ids that the index does not hold, and whether there are
    /// more.
    Unknown { ids: Vec<u64>, more: bool },
}

/// What is wrong with an allowlist, if anything is. A search without one is not
/// restricted; one that allows nothing is refused.
pub fn check_allowlist(index: &Delta, allow: Option<&[u64]>) -> (r: Option<AllowlistError>)
    requires
        slots_match(index.ids@, index.slots@),
    ensures
        match allow {
            None => r is None,
            Some(a) => {
                let all = absent(index.ids@.to_set(), a@);
                match r {
                    None => a@.len() > 0 && all.len() == 0,
                    Some(AllowlistError::Empty) => a@.len() == 0,
                    Some(AllowlistError::Unknown { ids, more }) => {
                        &&& a@.len() > 0
                        &&& all.len() > 0
                        &&& ids@ == all.take(capped(all.len() as int, 5))
                        &&& more == (all.len() > 5)
                    },
                }
            },
        },
{
    match allow {
        None => None,
        Some(a) => {
            if a.len() == 0 {
                return Some(AllowlistError::Empty);
            }
            match unknown_ids(index, a) {
                None => None,
                Some((ids, more)) => Some(AllowlistError::Unknown { ids, more }),
            }
        },
    }
}

/// How many different ids there are.
pub fn count_unique(ids: &[u64]) -> (n: usize)
    ensures
        n == ids@.to_set().len(),
        n <= ids@.len(),
{
    let mut seen: HashSet<u64> = HashSet::new();
    let mut n: usize = 0;
    let mut i: usize = 0;
    proof {
        assert(ids@.take(0) =~= Seq::<u64>::empty());
        assert(ids@.take(0).to_set() =~= Set::<u64>::empty());
        assert(seen@ =~= Set::<u64>::empty());
    }
    while i < ids.len()
        invariant
            i <= ids@.len(),
            n <= i,
            seen@ == ids@.take(i as int).to_set(),
            seen@.finite(),
            n == seen@.len(),
        decreases ids.len() - i,
    {
        proof {
            crate::delta::lemma_push_set(ids@.take(i as int), ids@[i as int]);
            assert(ids@.take(i + 1) =~= ids@.take(i as int).push(ids@[i as int]));
            if seen@.contains(ids@[i as int]) {
                assert(seen@.insert(ids@[i as int]) =~= seen@);
            }
        }
        if !seen.contains(&ids[i]) {
            n = n + 1;
        }
        seen.insert(ids[i]);
        i = i + 1;
    }
    assert(ids@.take(i as int) =~= ids@);
    n
}

/// The width of an empty result: no more than was asked for, than there are
/// rows, and than there are different allowed ids.
pub fn empty_result_width(k: usize, len: usize, allow: Option<&[u64]>) -> (r: usize)
    requires
        allow is Some ==> allow->0@.len() > 0,
    ensures
        r == capped(
            capped(k as int, len as int),
            match allow {
                Some(ids) => ids@.to_set().len() as int,
                None => len as int,
            },
        ),
{
    let allowed: usize = match allow {
        Some(ids) => count_unique(ids),
        None => len,
    };
    let most: usize = if k > len {
        len
    } else {
        k
    };
    if most > allowed {
        allowed
    } else {
        most
    }
}

/// Why search arguments are refused.
#[derive(Clone, Copy, PartialEq, Eq, Debug, Structural)]
pub enum SearchArgError {
    Dim { query: usize, index: usize },
    Nprobe,
    ProbeEpsilon,
    RescoreNeedsVectors,
}

/// What is wrong with search arguments, if anything is.
pub fn check_search_args(
    query_dim: usize,
    index_dim: Option<usize>,
    nprobe: Option<usize>,
    probe_epsilon: Option<u32>,
    rescore_k: Option<usize>,
    stores_vectors: bool,
) -> (r: Option<SearchArgError>)
    ensures
        r == if index_dim is Some && index_dim->0 != query_dim {
            Some(SearchArgError::Dim { query: query_dim, index: index_dim->0 })
        } else if nprobe == Some(0usize) {
            Some(SearchArgError::Nprobe)
        } else if probe_epsilon is Some && !finite_non_negative(probe_epsilon->0) {
            Some(SearchArgError::ProbeEpsilon)
        } else if rescore_k is Some && rescore_k->0 > 0 && !stores_vectors {
            Some(SearchArgError::RescoreNeedsVectors)
        } else {
            None
        },
{
    if let Some(d) = index_dim {
        if d != query_dim {
            return Some(SearchArgError::Dim { query: query_dim, index: d });
        }
    }
    if let Some(n) = nprobe {
        if n == 0 {
            return Some(SearchArgError::Nprobe);
        }
    }
    if let Some(e) = probe_epsilon {
        if !(e < 0x7F80_0000 || e == 0x8000_0000) {
            return Some(SearchArgError::ProbeEpsilon);
        }
    }
    if let Some(d) = rescore_k {
        if d > 0 && !stores_vectors {
            return Some(SearchArgError::RescoreNeedsVectors);
        }
    }
    None
}

/// Why settings are refused.
#[derive(Clone, Copy, PartialEq, Eq, Debug, Structural)]
pub enum SettingError {
    TargetPartitionSize,
    ReplicaEpsilon,
    ReassignNeighbors,
}

/// What is wrong with the settings of a new index, if anything is.
pub fn check_settings(
    target: Option<u32>,
    replica_epsilon: Option<u32>,
    reassign_neighbors: Option<usize>,
) -> (r: Option<SettingError>)
    ensures
        r == if target == Some(0u32) {
            Some(SettingError::TargetPartitionSize)
        } else if replica_epsilon is Some && !finite_positive(replica_epsilon->0) {
            Some(SettingError::ReplicaEpsilon)
        } else if reassign_neighbors == Some(0usize) {
            Some(SettingError::ReassignNeighbors)
        } else {
            None
        },
{
    if let Some(t) = target {
        if t == 0 {
            return Some(SettingError::TargetPartitionSize);
        }
    }
    if let Some(e) = replica_epsilon {
        if e == 0 || e >= 0x7F80_0000 {
            return Some(SettingError::ReplicaEpsilon);
        }
    }
    if let Some(n) = reassign_neighbors {
        if n == 0 {
            return Some(SettingError::ReassignNeighbors);
        }
    }
    None
}

/// Most threads that a request can get: four per unit of hardware parallelism,
/// 1024 where that is unknown.
pub fn rayon_thread_cap(available: Option<usize>) -> (r: usize)
    ensures
        r == match available {
            Some(n) => capped(4 * n, usize::MAX as int),
            None => 1024,
        },
{
    match available {
        Some(n) => {
            let twice: usize = n.saturating_add(n);
            twice.saturating_add(twice)
        },
        None => 1024,
    }
}

/// Threads of a pool: what was asked for, up to the cap, else what the
/// hardware has.
pub fn desired_threads(requested: Option<usize>, available: Option<usize>) -> (r: usize)
    ensures
        r == if requested is Some && requested->0 > 0 {
            capped(
                requested->0 as int,
                match available {
                    Some(n) => capped(4 * n, usize::MAX as int),
                    None => 1024,
                },
            )
        } else {
            match available {
                Some(n) => n as int,
                None => 1,
            }
        },
{
    let cap: usize = rayon_thread_cap(available);
    match requested {
        Some(n) => if n > 0 {
            if n > cap {
                cap
            } else {
                n
            }
        } else {
            match available {
                Some(a) => a,
                None => 1,
            }
        },
        None => match available {
            Some(a) => a,
            None => 1,
        },
    }
}

/// The pool of a process.
#[derive(Clone, Copy, PartialEq, Eq, Debug, Structural)]
pub struct PoolIdentity {
    /// Forks seen when it was built.
    pub generation: u64,
    /// The process that built it.
    pub pid: u32,
    pub threads: usize,
}

/// The pool to use now: the one there is, unless a fork came between; a new
/// one has as many threads as the one before it. The flag tells whether it is
/// to be built.
pub fn current_pool(published: Option<PoolIdentity>, generation: u64, pid: u32, desired: usize) -> (r: (
    PoolIdentity,
    bool,
))
    ensures
        r.0.generation == generation,
        r.0.pid == pid,
        r.1 == !(published is Some && published->0.generation == generation && published->0.pid == pid),
        r.0.threads == match published {
            Some(p) => p.threads,
            None => desired,
        },
{
    match published {
        Some(p) => if p.generation == generation && p.pid == pid {
            (p, false)
        } else {
            (PoolIdentity { generation, pid, threads: p.threads }, true)
        },
        None => (PoolIdentity { generation, pid, threads: desired }, true),
    }
}

/// Warnings that wait until no lock is held.
pub struct WarningQueue {
    /// Regions in which warnings wait.
    pub open: usize,
    /// Warnings by number, oldest first.
    pub pending: Vec<u64>,
}

impl WarningQueue {
    /// No regions and no warnings.
    pub fn new() -> (q: WarningQueue)
        ensures
            q.open == 0,
            q.pending@.len() == 0,
    {
        WarningQueue { open: 0, pending: Vec::new() }
    }

    /// A region opens.
    pub fn defer(&mut self)
        requires
            old(self).open < usize::MAX,
        ensures
            final(self).open == old(self).open + 1,
            final(self).pending@ == old(self).pending@,
    {
        self.open = self.open + 1;
    }

    /// A region closes.
    pub fn resume(&mut self)
        requires
            old(self).open > 0,
        ensures
            final(self).open == old(self).open - 1,
            final(self).pending@ == old(self).pending@,
    {
        self.open = self.open - 1;
    }

    /// A warning comes up. True if it is to be delivered at once, else it
    /// waits.
    pub fn emit(&mut self, warning: u64) -> (now: bool)
        ensures
            now == (old(self).open == 0),
            final(self).open == old(self).open,
            final(self).pending@ == if now {
                old(self).pending@
            } else {
                old(self).pending@.push(warning)
            },
    {
        if self.open > 0 {
            self.pending.push(warning);
            false
        } else {
            true
        }
    }

    /// Hands out all warnings that wait, oldest first.
    pub fn flush(&mut self) -> (r: Vec<u64>)
        ensures
            r@ == old(self).pending@,
            final(self).pending@.len() == 0,
            final(self).open == old(self).open,
    {
        let mut r: Vec<u64> = Vec::new();
        r.append(&mut self.pending);
        assert(r@ =~= old(self).pending@);
        r
    }
}

/// Frames that a warning's origin is looked for in.
pub const MAX_STACKLEVEL: usize = 16;

/// The first of the frames from `k` on whose file does not lie in the package.
pub open spec fn outside_from(files: Seq<Vec<u8>>, package: Seq<u8>, k: int) -> Option<int>
    decreases files.len() - k,
{
    if k >= files.len() || k >= MAX_STACKLEVEL {
        None
    } else if starts(files[k]@, package) {
        outside_from(files, package, k + 1)
    } else {
        Some(k)
    }
}

/// The level of the first frame outside the package, innermost first and
/// counted from 1; 1 if there is none.
pub fn caller_stacklevel(files: &Vec<Vec<u8>>, package: &Vec<u8>) -> (level: usize)
    ensures
        level == match outside_from(files@, package@, 0) {
            Some(k) => k + 1,
            None => 1,
        },
{
    let mut k: usize = 0;
    while k < files.len() && k < MAX_STACKLEVEL
        invariant
            k <= files@.len(),
            k <= MAX_STACKLEVEL,
            outside_from(files@, package@, 0) == outside_from(files@, package@, k as int),
        decreases files.len() - k,
    {
        if !has_prefix(files[k].as_slice(), package) {
            return k + 1;
        }
        k = k + 1;
    }
    1
}

} // verus!
