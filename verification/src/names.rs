//! Names of the files in an index directory, and which of them to keep.
use vstd::prelude::*;
use vstd::slice::slice_subrange;
use crate::fresh::FreshIndex;
use crate::retirement::StoredFile;

verus! {

/// The decimal digits of `v`, at least `width` of them.
pub open spec fn decimal(v: int, width: int) -> Seq<u8>
    decreases v, width,
    when 0 <= v && 0 <= width
{
    if v == 0 && width == 0 {
        Seq::empty()
    } else {
        decimal(v / 10, if width > 0 {
            width - 1
        } else {
            0
        }).push((48 + v % 10) as u8)
    }
}

/// A decimal digit.
pub open spec fn is_digit(b: u8) -> bool {
    48 <= b <= 57
}

/// The number that digits stand for.
pub open spec fn number(s: Seq<u8>) -> int
    decreases s.len(),
{
    if s.len() == 0 {
        0
    } else {
        number(s.drop_last()) * 10 + (s.last() - 48)
    }
}

/// The digits of a number, which may have a plus sign in front.
pub open spec fn unsigned_digits(s: Seq<u8>) -> Seq<u8> {
    if s.len() > 0 && s[0] == 43 {
        s.skip(1)
    } else {
        s
    }
}

/// The number that a text stands for, if it is one of at most `max`.
pub open spec fn parsed(s: Seq<u8>, max: int) -> Option<int> {
    let d = unsigned_digits(s);
    if d.len() > 0 && (forall|i: int| 0 <= i < d.len() ==> is_digit(#[trigger] d[i])) && number(d) <= max {
        Some(number(d))
    } else {
        None
    }
}

/// "segment-"
pub open spec fn segment_prefix() -> Seq<u8> {
    seq![115u8, 101u8, 103u8, 109u8, 101u8, 110u8, 116u8, 45u8]
}

/// "ids-"
pub open spec fn run_prefix() -> Seq<u8> {
    seq![105u8, 100u8, 115u8, 45u8]
}

/// "centroids-"
pub open spec fn centroids_prefix() -> Seq<u8> {
    seq![99u8, 101u8, 110u8, 116u8, 114u8, 111u8, 105u8, 100u8, 115u8, 45u8]
}

/// "manifest"
pub open spec fn manifest_name() -> Seq<u8> {
    seq![109u8, 97u8, 110u8, 105u8, 102u8, 101u8, 115u8, 116u8]
}

/// "wal"
pub open spec fn wal_name() -> Seq<u8> {
    seq![119u8, 97u8, 108u8]
}

/// The name of a file.
pub open spec fn name_of(f: StoredFile) -> Seq<u8> {
    match f {
        StoredFile::Segment(id, generation) => segment_prefix() + decimal(id as int, 8) + seq![45u8]
            + decimal(generation as int, 8),
        StoredFile::Run(generation) => run_prefix() + decimal(generation as int, 16),
        StoredFile::Centroids(generation) => centroids_prefix() + decimal(generation as int, 16),
    }
}

/// `name` starts with `prefix`.
pub open spec fn starts(name: Seq<u8>, prefix: Seq<u8>) -> bool {
    prefix.len() <= name.len() && name.take(prefix.len() as int) == prefix
}

/// The first hyphen from `k` on, or the length.
pub open spec fn hyphen_from(s: Seq<u8>, k: int) -> int
    decreases s.len() - k,
{
    if k >= s.len() {
        s.len() as int
    } else if s[k] == 45 {
        k
    } else {
        hyphen_from(s, k + 1)
    }
}

/// The file that a name stands for.
pub open spec fn file_named(name: Seq<u8>) -> Option<StoredFile> {
    if starts(name, centroids_prefix()) {
        match parsed(name.skip(10), u64::MAX as int) {
            Some(g) => Some(StoredFile::Centroids(g as u64)),
            None => None,
        }
    } else if starts(name, segment_prefix()) {
        let rest = name.skip(8);
        let h = hyphen_from(rest, 0);
        if h == rest.len() {
            None
        } else {
            match (parsed(rest.take(h), u32::MAX as int), parsed(rest.skip(h + 1), u32::MAX as int)) {
                (Some(id), Some(g)) => Some(StoredFile::Segment(id as u32, g as u32)),
                _ => None,
            }
        }
    } else if starts(name, run_prefix()) {
        match parsed(name.skip(4), u64::MAX as int) {
            Some(g) => Some(StoredFile::Run(g as u64)),
            None => None,
        }
    } else {
        None
    }
}

fn push_decimal(out: &mut Vec<u8>, v: u64, width: usize)
    requires
        width <= 32,
    ensures
        final(out)@ == old(out)@ + decimal(v as int, width as int),
    decreases v, width,
{
    if v == 0 && width == 0 {
        assert(out@ =~= old(out)@ + decimal(0, 0));
        return;
    }
    let less: usize = if width > 0 {
        width - 1
    } else {
        0
    };
    push_decimal(out, v / 10, less);
    out.push((48 + v % 10) as u8);
    assert(out@ =~= old(out)@ + decimal(v as int, width as int));
}

/// The name of a file.
pub fn file_name(f: StoredFile) -> (name: Vec<u8>)
    ensures
        name@ == name_of(f),
{
    let mut name: Vec<u8> = Vec::new();
    match f {
        StoredFile::Segment(id, generation) => {
            name.push(115);
            name.push(101);
            name.push(103);
            name.push(109);
            name.push(101);
            name.push(110);
            name.push(116);
            name.push(45);
            assert(name@ =~= segment_prefix());
            push_decimal(&mut name, id as u64, 8);
            name.push(45);
            push_decimal(&mut name, generation as u64, 8);
            assert(name@ =~= name_of(f));
        },
        StoredFile::Run(generation) => {
            name.push(105);
            name.push(100);
            name.push(115);
            name.push(45);
            assert(name@ =~= run_prefix());
            push_decimal(&mut name, generation, 16);
        },
        StoredFile::Centroids(generation) => {
            name.push(99);
            name.push(101);
            name.push(110);
            name.push(116);
            name.push(114);
            name.push(111);
            name.push(105);
            name.push(100);
            name.push(115);
            name.push(45);
            assert(name@ =~= centroids_prefix());
            push_decimal(&mut name, generation, 16);
        },
    }
    name
}

proof fn lemma_number_step(s: Seq<u8>, k: int)
    requires
        0 <= k < s.len(),
    ensures
        number(s.take(k + 1)) == number(s.take(k)) * 10 + (s[k] - 48),
{
    assert(s.take(k + 1).drop_last() =~= s.take(k));
}

/// Numbers of longer prefixes are not smaller.
proof fn lemma_number_grows(s: Seq<u8>, j: int, k: int)
    requires
        0 <= j <= k <= s.len(),
        forall|i: int| 0 <= i < s.len() ==> is_digit(#[trigger] s[i]),
    ensures
        0 <= number(s.take(j)) <= number(s.take(k)),
    decreases k,
{
    if j < k {
        lemma_number_grows(s, j, k - 1);
        lemma_number_step(s, k - 1);
        assert(is_digit(s[k - 1]));
    } else if k > 0 {
        lemma_number_grows(s, j - 1, k - 1);
        lemma_number_step(s, k - 1);
        assert(is_digit(s[k - 1]));
    } else {
        assert(s.take(0) =~= Seq::<u8>::empty());
    }
}

/// The number that a text stands for, if it is one of at most `max`.
fn parse_number(s: &[u8], max: u64) -> (r: Option<u64>)
    ensures
        match parsed(s@, max as int) {
            Some(v) => r == Some(v as u64) && 0 <= v <= max,
            None => r is None,
        },
{
    let n: usize = s.len();
    let start: usize = if n > 0 && s[0] == 43 {
        1
    } else {
        0
    };
    let ghost d = unsigned_digits(s@);
    assert(d =~= s@.skip(start as int));
    if start == n {
        return None;
    }
    let mut v: u64 = 0;
    let mut i: usize = start;
    assert(d.take(0) =~= Seq::<u8>::empty());
    while i < n
        invariant
            n == s@.len(),
            start <= i <= n,
            start < n,
            d == s@.skip(start as int),
            d == unsigned_digits(s@),
            v == number(d.take(i - start)),
            v <= max,
            forall|k: int| 0 <= k < i - start ==> is_digit(#[trigger] d[k]),
        decreases n - i,
    {
        let b: u8 = s[i];
        assert(d[i - start] == b);
        if b < 48 || b > 57 {
            assert(!is_digit(d[i - start]));
            return None;
        }
        proof {
            lemma_number_step(d, i - start);
        }
        let wide: u128 = v as u128 * 10 + (b - 48) as u128;
        if wide > max as u128 {
            proof {
                if forall|k: int| 0 <= k < d.len() ==> is_digit(#[trigger] d[k]) {
                    lemma_number_grows(d, i - start + 1, d.len() as int);
                    assert(d.take(d.len() as int) =~= d);
                }
            }
            return None;
        }
        v = wide as u64;
        i = i + 1;
    }
    assert(d.take(n - start) =~= d);
    Some(v)
}

/// Whether a name begins with `prefix`.
pub(crate) fn has_prefix(name: &[u8], prefix: &Vec<u8>) -> (r: bool)
    ensures
        r == starts(name@, prefix@),
{
    if name.len() < prefix.len() {
        return false;
    }
    let mut i: usize = 0;
    while i < prefix.len()
        invariant
            prefix@.len() <= name@.len(),
            i <= prefix@.len(),
            forall|k: int| 0 <= k < i ==> name@[k] == prefix@[k],
        decreases prefix.len() - i,
    {
        if name[i] != prefix[i] {
            assert(name@.take(prefix@.len() as int)[i as int] != prefix@[i as int]);
            return false;
        }
        i = i + 1;
    }
    assert(name@.take(prefix@.len() as int) =~= prefix@);
    true
}

fn find_hyphen(s: &[u8]) -> (h: usize)
    ensures
        h == hyphen_from(s@, 0),
        h <= s@.len(),
{
    let mut k: usize = 0;
    while k < s.len()
        invariant
            k <= s@.len(),
            hyphen_from(s@, 0) == hyphen_from(s@, k as int),
        decreases s.len() - k,
    {
        if s[k] == 45 {
            return k;
        }
        k = k + 1;
    }
    k
}

/// The file that a name stands for.
pub fn parse_name(name: &[u8]) -> (r: Option<StoredFile>)
    ensures
        r == file_named(name@),
{
    let n: usize = name.len();
    let centroids: Vec<u8> = vec![99, 101, 110, 116, 114, 111, 105, 100, 115, 45];
    let segment: Vec<u8> = vec![115, 101, 103, 109, 101, 110, 116, 45];
    let run: Vec<u8> = vec![105, 100, 115, 45];
    assert(centroids@ =~= centroids_prefix());
    assert(segment@ =~= segment_prefix());
    assert(run@ =~= run_prefix());
    if has_prefix(name, &centroids) {
        assert(name@.subrange(10, n as int) =~= name@.skip(10));
        return match parse_number(slice_subrange(name, 10, n), u64::MAX) {
            Some(g) => Some(StoredFile::Centroids(g)),
            None => None,
        };
    }
    if has_prefix(name, &segment) {
        assert(name@.subrange(8, n as int) =~= name@.skip(8));
        let rest: &[u8] = slice_subrange(name, 8, n);
        let h: usize = find_hyphen(rest);
        let m: usize = rest.len();
        if h == m {
            return None;
        }
        assert(rest@.subrange(0, h as int) =~= rest@.take(h as int));
        assert(rest@.subrange(h + 1, m as int) =~= rest@.skip(h + 1));
        let id: Option<u64> = parse_number(slice_subrange(rest, 0, h), u32::MAX as u64);
        let generation: Option<u64> = parse_number(slice_subrange(rest, h + 1, m), u32::MAX as u64);
        return match (id, generation) {
            (Some(id), Some(g)) => Some(StoredFile::Segment(id as u32, g as u32)),
            _ => None,
        };
    }
    if has_prefix(name, &run) {
        assert(name@.subrange(4, n as int) =~= name@.skip(4));
        return match parse_number(slice_subrange(name, 4, n), u64::MAX) {
            Some(g) => Some(StoredFile::Run(g)),
            None => None,
        };
    }
    None
}

/// The digits of a number are digits, and stand for it.
proof fn lemma_decimal(v: int, width: int)
    requires
        0 <= v,
        0 <= width,
    ensures
        decimal(v, width).len() >= width,
        v > 0 || width > 0 ==> decimal(v, width).len() > 0,
        forall|i: int| 0 <= i < decimal(v, width).len() ==> is_digit(#[trigger] decimal(v, width)[i]),
        number(decimal(v, width)) == v,
    decreases v, width,
{
    if v == 0 && width == 0 {
    } else {
        let less = if width > 0 {
            width - 1
        } else {
            0
        };
        lemma_decimal(v / 10, less);
        let d = decimal(v, width);
        let init = decimal(v / 10, less);
        assert(d.drop_last() =~= init);
        assert forall|i: int| 0 <= i < d.len() implies is_digit(#[trigger] d[i]) by {
            if i < init.len() {
                assert(d[i] == init[i]);
                assert(is_digit(init[i]));
            }
        }
    }
}

/// A formatted number parses back.
proof fn lemma_decimal_parses(v: int, width: int, max: int)
    requires
        0 <= v <= max,
        0 < width,
    ensures
        parsed(decimal(v, width), max) == Some(v),
{
    lemma_decimal(v, width);
    let d = decimal(v, width);
    assert(is_digit(d[0]));
    assert(unsigned_digits(d) == d);
}

/// No hyphen inside digits.
proof fn lemma_no_hyphen(s: Seq<u8>, k: int, h: int)
    requires
        0 <= k <= h <= s.len(),
        h < s.len() ==> s[h] == 45,
        forall|i: int| k <= i < h ==> #[trigger] s[i] != 45,
    ensures
        hyphen_from(s, k) == h,
    decreases h - k,
{
    if k < h {
        assert(s[k] != 45);
        lemma_no_hyphen(s, k + 1, h);
    }
}

/// A name stands for the file that it was made for.
pub proof fn law_names_round_trip(f: StoredFile)
    ensures
        file_named(name_of(f)) == Some(f),
{
    let name = name_of(f);
    match f {
        StoredFile::Segment(id, generation) => {
            let a = decimal(id as int, 8);
            let b = decimal(generation as int, 8);
            lemma_decimal(id as int, 8);
            lemma_decimal_parses(id as int, 8, u32::MAX as int);
            lemma_decimal_parses(generation as int, 8, u32::MAX as int);
            assert(name[0] == 115);
            assert(name.take(8) =~= segment_prefix());
            assert(!starts(name, centroids_prefix())) by {
                if starts(name, centroids_prefix()) {
                    assert(name.take(10)[0] == name[0]);
                    assert(centroids_prefix()[0] == 99);
                }
            }
            let rest = name.skip(8);
            assert(rest =~= a + seq![45u8] + b);
            assert forall|i: int| 0 <= i < a.len() implies #[trigger] rest[i] != 45 by {
                assert(is_digit(a[i]));
            }
            lemma_no_hyphen(rest, 0, a.len() as int);
            assert(rest.take(a.len() as int) =~= a);
            assert(rest.skip(a.len() as int + 1) =~= b);
        },
        StoredFile::Run(generation) => {
            let b = decimal(generation as int, 16);
            lemma_decimal_parses(generation as int, 16, u64::MAX as int);
            assert(name[0] == 105);
            assert(!starts(name, centroids_prefix())) by {
                if starts(name, centroids_prefix()) {
                    assert(name.take(10)[0] == name[0]);
                    assert(centroids_prefix()[0] == 99);
                }
            }
            assert(!starts(name, segment_prefix())) by {
                if starts(name, segment_prefix()) {
                    assert(name.take(8)[0] == name[0]);
                    assert(segment_prefix()[0] == 115);
                }
            }
            assert(name.take(4) =~= run_prefix());
            assert(name.skip(4) =~= b);
        },
        StoredFile::Centroids(generation) => {
            let b = decimal(generation as int, 16);
            lemma_decimal_parses(generation as int, 16, u64::MAX as int);
            assert(name.take(10) =~= centroids_prefix());
            assert(name.skip(10) =~= b);
        },
    }
}

/// The name of the file beside `name` that is written first and then renamed.
pub fn temp_sibling(name: Option<&[u8]>) -> (r: Vec<u8>)
    ensures
        r@ == match name {
            Some(n) => n@,
            None => seq![105u8, 110u8, 100u8, 101u8, 120u8],
        } + seq![46u8, 116u8, 109u8, 112u8],
{
    let mut r: Vec<u8> = Vec::new();
    match name {
        Some(n) => {
            r.extend_from_slice(n);
            assert(r@ =~= n@);
        },
        None => {
            r.push(105);
            r.push(110);
            r.push(100);
            r.push(101);
            r.push(120);
            assert(r@ =~= seq![105u8, 110u8, 100u8, 101u8, 120u8]);
        },
    }
    r.push(46);
    r.push(116);
    r.push(109);
    r.push(112);
    assert(r@ =~= match name {
        Some(n) => n@,
        None => seq![105u8, 110u8, 100u8, 101u8, 120u8],
    } + seq![46u8, 116u8, 109u8, 112u8]);
    r
}

/// What to do with a file found in a directory.
#[derive(Clone, Copy, PartialEq, Eq, Debug, Structural)]
pub enum Fate {
    Keep,
    /// Keep, but no more bytes than this.
    KeepUpTo(u64),
    Delete,
}

impl FreshIndex {
    /// The partition with this segment file.
    pub open spec fn owner(self, id: u32, generation: u32, k: int) -> Option<int>
        decreases self.partitions@.len() - k,
    {
        if k >= self.partitions@.len() {
            None
        } else if self.partitions@[k].partition_id == id {
            if self.partitions@[k].generation == generation {
                Some(k)
            } else {
                None
            }
        } else {
            self.owner(id, generation, k + 1)
        }
    }

    /// What to do with a file of this name: the manifest, the log, and the
    /// files that the index names stay, a segment without what a write that
    /// was never committed left behind its end; all others go.
    pub open spec fn fate(self, name: Seq<u8>) -> Fate {
        if name == manifest_name() || name == wal_name() {
            Fate::Keep
        } else {
            match file_named(name) {
                None => Fate::Delete,
                Some(f) => match f {
                    StoredFile::Centroids(g) => if g == self.centroids_generation {
                        Fate::Keep
                    } else {
                        Fate::Delete
                    },
                    StoredFile::Run(g) => if crate::copies::generations(self.runs@).contains(g) {
                        Fate::Keep
                    } else {
                        Fate::Delete
                    },
                    StoredFile::Segment(id, g) => match self.owner(id, g, 0) {
                        Some(k) => Fate::KeepUpTo(self.partitions@[k].file_bytes),
                        None => Fate::Delete,
                    },
                },
            }
        }
    }

    fn find_owner(&self, id: u32, generation: u32) -> (r: Option<usize>)
        ensures
            match r {
                Some(k) => self.owner(id, generation, 0) == Some(k as int) && k < self.partitions@.len(),
                None => self.owner(id, generation, 0) is None,
            },
    {
        let mut k: usize = 0;
        while k < self.partitions.len()
            invariant
                k <= self.partitions@.len(),
                self.owner(id, generation, 0) == self.owner(id, generation, k as int),
            decreases self.partitions.len() - k,
        {
            if self.partitions[k].partition_id == id {
                if self.partitions[k].generation == generation {
                    return Some(k);
                }
                return None;
            }
            k = k + 1;
        }
        None
    }

    fn uses_run(&self, generation: u64) -> (r: bool)
        ensures
            r == crate::copies::generations(self.runs@).contains(generation),
    {
        let ghost all = crate::copies::generations(self.runs@);
        let mut k: usize = 0;
        while k < self.runs.len()
            invariant
                k <= self.runs@.len(),
                all == crate::copies::generations(self.runs@),
                forall|j: int| 0 <= j < k ==> all[j] != generation,
            decreases self.runs.len() - k,
        {
            if self.runs[k].generation == generation {
                assert(all[k as int] == generation);
                return true;
            }
            k = k + 1;
        }
        false
    }

    /// What to do with a file of this name found in the directory.
    pub fn file_fate(&self, name: &[u8]) -> (r: Fate)
        ensures
            r == self.fate(name@),
    {
        let manifest: Vec<u8> = vec![109, 97, 110, 105, 102, 101, 115, 116];
        let wal: Vec<u8> = vec![119, 97, 108];
        assert(manifest@ =~= manifest_name());
        assert(wal@ =~= wal_name());
        let is_manifest: bool = name.len() == 8 && has_prefix(name, &manifest);
        let is_wal: bool = name.len() == 3 && has_prefix(name, &wal);
        proof {
            if name@.len() == 8 {
                assert(name@.take(8) =~= name@);
            }
            if name@.len() == 3 {
                assert(name@.take(3) =~= name@);
            }
        }
        if is_manifest || is_wal {
            return Fate::Keep;
        }
        match parse_name(name) {
            None => Fate::Delete,
            Some(f) => match f {
                StoredFile::Centroids(g) => if g == self.centroids_generation {
                    Fate::Keep
                } else {
                    Fate::Delete
                },
                StoredFile::Run(g) => if self.uses_run(g) {
                    Fate::Keep
                } else {
                    Fate::Delete
                },
                StoredFile::Segment(id, g) => match self.find_owner(id, g) {
                    Some(k) => Fate::KeepUpTo(self.partitions[k].file_bytes),
                    None => Fate::Delete,
                },
            },
        }
    }
}

/// The files that an index names survive its clean-up.
pub proof fn law_named_files_stay(x: FreshIndex, k: int)
    requires
        x.wf(),
    ensures
        x.fate(name_of(StoredFile::Centroids(x.centroids_generation))) == Fate::Keep,
        0 <= k < x.runs@.len() ==> x.fate(name_of(StoredFile::Run(x.runs@[k].generation))) == Fate::Keep,
        0 <= k < x.partitions@.len() ==> x.fate(
            name_of(StoredFile::Segment(x.partitions@[k].partition_id, x.partitions@[k].generation)),
        ) == Fate::KeepUpTo(x.partitions@[k].file_bytes),
{
    law_names_round_trip(StoredFile::Centroids(x.centroids_generation));
    lemma_not_reserved(StoredFile::Centroids(x.centroids_generation));
    if 0 <= k < x.runs@.len() {
        let f = StoredFile::Run(x.runs@[k].generation);
        law_names_round_trip(f);
        lemma_not_reserved(f);
        assert(crate::copies::generations(x.runs@)[k] == x.runs@[k].generation);
    }
    if 0 <= k < x.partitions@.len() {
        let p = x.partitions@[k];
        let f = StoredFile::Segment(p.partition_id, p.generation);
        law_names_round_trip(f);
        lemma_not_reserved(f);
        lemma_owner(x, k, 0);
    }
}

proof fn lemma_owner(x: FreshIndex, k: int, j: int)
    requires
        x.wf(),
        0 <= j <= k < x.partitions@.len(),
    ensures
        x.owner(x.partitions@[k].partition_id, x.partitions@[k].generation, j) == Some(k),
    decreases k - j,
{
    if j < k {
        assert(x.partitions@[j].partition_id != x.partitions@[k].partition_id);
        lemma_owner(x, k, j + 1);
    }
}

proof fn lemma_not_reserved(f: StoredFile)
    ensures
        name_of(f) != manifest_name(),
        name_of(f) != wal_name(),
{
    law_names_round_trip(f);
    let m = manifest_name();
    let w = wal_name();
    assert(m[0] == 109 && w[0] == 119);
    match f {
        StoredFile::Segment(id, generation) => {
            assert(name_of(f)[0] == 115);
        },
        StoredFile::Run(generation) => {
            assert(name_of(f)[0] == 105);
        },
        StoredFile::Centroids(generation) => {
            assert(name_of(f)[0] == 99);
        },
    }
}

} // verus!
