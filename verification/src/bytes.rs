//! Little-endian integers inside byte sequences.
use vstd::prelude::*;

verus! {

/// The little-endian `u32` stored at offset `o`.
pub open spec fn u32_at(s: Seq<u8>, o: int) -> u32 {
    (s[o] + 0x100 * s[o + 1] + 0x1_0000 * s[o + 2] + 0x100_0000 * s[o + 3]) as u32
}

/// The little-endian `u64` stored at offset `o`.
pub open spec fn u64_at(s: Seq<u8>, o: int) -> u64 {
    (u32_at(s, o) + 0x1_0000_0000 * u32_at(s, o + 4)) as u64
}

/// The four bytes of `v`, least significant first.
pub open spec fn u32_bytes(v: u32) -> Seq<u8> {
    seq![
        (v % 0x100) as u8,
        (v / 0x100 % 0x100) as u8,
        (v / 0x1_0000 % 0x100) as u8,
        (v / 0x100_0000) as u8,
    ]
}

/// The eight bytes of `v`, least significant first.
pub open spec fn u64_bytes(v: u64) -> Seq<u8> {
    u32_bytes((v % 0x1_0000_0000) as u32) + u32_bytes((v / 0x1_0000_0000) as u32)
}

/// Reads the `u32` at offset `o`.
pub fn read_u32(s: &[u8], o: usize) -> (v: u32)
    requires
        o + 4 <= s.len(),
    ensures
        v == u32_at(s@, o as int),
{
    s[o] as u32 + 0x100 * (s[o + 1] as u32) + 0x1_0000 * (s[o + 2] as u32) + 0x100_0000 * (s[o + 3] as u32)
}

/// Reads the `u64` at offset `o`.
pub fn read_u64(s: &[u8], o: usize) -> (v: u64)
    requires
        o + 8 <= s.len(),
    ensures
        v == u64_at(s@, o as int),
{
    read_u32(s, o) as u64 + 0x1_0000_0000 * (read_u32(s, o + 4) as u64)
}

/// Appends the bytes of `v`.
pub fn push_u32(out: &mut Vec<u8>, v: u32)
    ensures
        final(out)@ == old(out)@ + u32_bytes(v),
{
    out.push((v % 0x100) as u8);
    out.push((v / 0x100 % 0x100) as u8);
    out.push((v / 0x1_0000 % 0x100) as u8);
    out.push((v / 0x100_0000) as u8);
}

/// Appends the bytes of `v`.
pub fn push_u64(out: &mut Vec<u8>, v: u64)
    ensures
        final(out)@ == old(out)@ + u64_bytes(v),
{
    push_u32(out, (v % 0x1_0000_0000) as u32);
    push_u32(out, (v / 0x1_0000_0000) as u32);
}

/// Byte `k` of the four bytes of `v`.
pub open spec fn u32_byte(v: u32, k: int) -> u8 {
    if k == 0 {
        (v % 0x100) as u8
    } else if k == 1 {
        (v / 0x100 % 0x100) as u8
    } else if k == 2 {
        (v / 0x1_0000 % 0x100) as u8
    } else {
        (v / 0x100_0000) as u8
    }
}

/// Byte `k` of the eight bytes of `v`.
pub open spec fn u64_byte(v: u64, k: int) -> u8 {
    if k < 4 {
        u32_byte((v % 0x1_0000_0000) as u32, k)
    } else {
        u32_byte((v / 0x1_0000_0000) as u32, k - 4)
    }
}

/// The concatenated bytes of a sequence of words.
pub open spec fn u32s_bytes(values: Seq<u32>) -> Seq<u8> {
    Seq::new(4 * values.len(), |i: int| u32_byte(values[i / 4], i % 4))
}

/// The concatenated bytes of a sequence of double words.
pub open spec fn u64s_bytes(values: Seq<u64>) -> Seq<u8> {
    Seq::new(8 * values.len(), |i: int| u64_byte(values[i / 8], i % 8))
}

/// The `n` words stored from offset `o` on.
pub open spec fn u32s_at(s: Seq<u8>, o: int, n: nat) -> Seq<u32> {
    Seq::new(n, |i: int| u32_at(s, o + 4 * i))
}

/// The `n` double words stored from offset `o` on.
pub open spec fn u64s_at(s: Seq<u8>, o: int, n: nat) -> Seq<u64> {
    Seq::new(n, |i: int| u64_at(s, o + 8 * i))
}

/// Writing a word and reading it back gives the word.
pub proof fn lemma_u32_round_trip(v: u32, s: Seq<u8>, o: int)
    requires
        0 <= o,
        o + 4 <= s.len(),
        s.subrange(o, o + 4) == u32_bytes(v),
    ensures
        u32_at(s, o) == v,
{
    let t = s.subrange(o, o + 4);
    assert(t[0] == s[o] && t[1] == s[o + 1] && t[2] == s[o + 2] && t[3] == s[o + 3]);
    let b = u32_bytes(v);
    assert(t[0] == b[0] && t[1] == b[1] && t[2] == b[2] && t[3] == b[3]);
}

/// Writing a double word and reading it back gives the double word.
pub proof fn lemma_u64_round_trip(v: u64, s: Seq<u8>, o: int)
    requires
        0 <= o,
        o + 8 <= s.len(),
        s.subrange(o, o + 8) == u64_bytes(v),
    ensures
        u64_at(s, o) == v,
{
    let t = s.subrange(o, o + 8);
    let lo = u32_bytes((v % 0x1_0000_0000) as u32);
    let hi = u32_bytes((v / 0x1_0000_0000) as u32);
    assert(s.subrange(o, o + 4) =~= t.subrange(0, 4));
    assert(s.subrange(o + 4, o + 8) =~= t.subrange(4, 8));
    assert(t.subrange(0, 4) =~= lo);
    assert(t.subrange(4, 8) =~= hi);
    lemma_u32_round_trip((v % 0x1_0000_0000) as u32, s, o);
    lemma_u32_round_trip((v / 0x1_0000_0000) as u32, s, o + 4);
}

/// Appending one word appends its four bytes.
pub proof fn lemma_u32s_push(values: Seq<u32>, v: u32)
    ensures
        u32s_bytes(values.push(v)) == u32s_bytes(values) + u32_bytes(v),
{
    let n = values.len();
    assert forall|i: int| 0 <= i < 4 * n + 4 implies u32s_bytes(values.push(v))[i] == (u32s_bytes(values)
        + u32_bytes(v))[i] by {
        if i < 4 * n {
            assert(values.push(v)[i / 4] == values[i / 4]);
        } else {
            assert(i / 4 == n);
            assert(i % 4 == i - 4 * n);
        }
    }
    assert(u32s_bytes(values.push(v)) =~= u32s_bytes(values) + u32_bytes(v));
}

/// Appending one double word appends its eight bytes.
pub proof fn lemma_u64s_push(values: Seq<u64>, v: u64)
    ensures
        u64s_bytes(values.push(v)) == u64s_bytes(values) + u64_bytes(v),
{
    let n = values.len();
    assert forall|i: int| 0 <= i < 8 * n + 8 implies u64s_bytes(values.push(v))[i] == (u64s_bytes(values)
        + u64_bytes(v))[i] by {
        if i < 8 * n {
            assert(values.push(v)[i / 8] == values[i / 8]);
        } else {
            assert(i / 8 == n);
            assert(i % 8 == i - 8 * n);
        }
    }
    assert(u64s_bytes(values.push(v)) =~= u64s_bytes(values) + u64_bytes(v));
}

/// A sequence of words reads back from its bytes.
pub proof fn lemma_u32s_round_trip(values: Seq<u32>, s: Seq<u8>, o: int)
    requires
        0 <= o,
        o + 4 * values.len() <= s.len(),
        s.subrange(o, o + 4 * values.len()) == u32s_bytes(values),
    ensures
        u32s_at(s, o, values.len()) == values,
{
    let t = s.subrange(o, o + 4 * values.len());
    assert forall|i: int| 0 <= i < values.len() implies u32_at(s, o + 4 * i) == values[i] by {
        assert forall|k: int| 0 <= k < 4 implies s.subrange(o + 4 * i, o + 4 * i + 4)[k] == u32_bytes(
            values[i],
        )[k] by {
            assert(t[4 * i + k] == s[o + 4 * i + k]);
            assert((4 * i + k) / 4 == i && (4 * i + k) % 4 == k);
        }
        assert(s.subrange(o + 4 * i, o + 4 * i + 4) =~= u32_bytes(values[i]));
        lemma_u32_round_trip(values[i], s, o + 4 * i);
    }
    assert(u32s_at(s, o, values.len()) =~= values);
}

/// A sequence of double words reads back from its bytes.
pub proof fn lemma_u64s_round_trip(values: Seq<u64>, s: Seq<u8>, o: int)
    requires
        0 <= o,
        o + 8 * values.len() <= s.len(),
        s.subrange(o, o + 8 * values.len()) == u64s_bytes(values),
    ensures
        u64s_at(s, o, values.len()) == values,
{
    let t = s.subrange(o, o + 8 * values.len());
    assert forall|i: int| 0 <= i < values.len() implies u64_at(s, o + 8 * i) == values[i] by {
        assert forall|k: int| 0 <= k < 8 implies s.subrange(o + 8 * i, o + 8 * i + 8)[k] == u64_bytes(
            values[i],
        )[k] by {
            assert(t[8 * i + k] == s[o + 8 * i + k]);
            assert((8 * i + k) / 8 == i && (8 * i + k) % 8 == k);
        }
        assert(s.subrange(o + 8 * i, o + 8 * i + 8) =~= u64_bytes(values[i]));
        lemma_u64_round_trip(values[i], s, o + 8 * i);
    }
    assert(u64s_at(s, o, values.len()) =~= values);
}

/// Appends the bytes of every word of `values`.
pub fn push_u32s(out: &mut Vec<u8>, values: &[u32])
    ensures
        final(out)@ == old(out)@ + u32s_bytes(values@),
{
    let mut i: usize = 0;
    assert(u32s_bytes(values@.take(0)) =~= Seq::<u8>::empty());
    while i < values.len()
        invariant
            i <= values.len(),
            out@ == old(out)@ + u32s_bytes(values@.take(i as int)),
        decreases values.len() - i,
    {
        push_u32(out, values[i]);
        proof {
            lemma_u32s_push(values@.take(i as int), values@[i as int]);
            assert(values@.take(i as int).push(values@[i as int]) =~= values@.take(i + 1));
        }
        i = i + 1;
    }
    assert(values@.take(i as int) =~= values@);
}

/// Appends the bytes of every double word of `values`.
pub fn push_u64s(out: &mut Vec<u8>, values: &[u64])
    ensures
        final(out)@ == old(out)@ + u64s_bytes(values@),
{
    let mut i: usize = 0;
    assert(u64s_bytes(values@.take(0)) =~= Seq::<u8>::empty());
    while i < values.len()
        invariant
            i <= values.len(),
            out@ == old(out)@ + u64s_bytes(values@.take(i as int)),
        decreases values.len() - i,
    {
        push_u64(out, values[i]);
        proof {
            lemma_u64s_push(values@.take(i as int), values@[i as int]);
            assert(values@.take(i as int).push(values@[i as int]) =~= values@.take(i + 1));
        }
        i = i + 1;
    }
    assert(values@.take(i as int) =~= values@);
}

/// Reads `n` words from offset `o` on.
pub fn read_u32s(s: &[u8], o: usize, n: usize) -> (values: Vec<u32>)
    requires
        o + 4 * n <= s.len(),
    ensures
        values@ == u32s_at(s@, o as int, n as nat),
{
    let mut values: Vec<u32> = Vec::new();
    let mut i: usize = 0;
    while i < n
        invariant
            i <= n,
            o + 4 * n <= s.len(),
            values@ == u32s_at(s@, o as int, i as nat),
        decreases n - i,
    {
        let v: u32 = read_u32(s, o + 4 * i);
        values.push(v);
        i = i + 1;
        assert(values@ =~= u32s_at(s@, o as int, i as nat));
    }
    values
}

/// Reads `n` double words from offset `o` on.
pub fn read_u64s(s: &[u8], o: usize, n: usize) -> (values: Vec<u64>)
    requires
        o + 8 * n <= s.len(),
    ensures
        values@ == u64s_at(s@, o as int, n as nat),
{
    let mut values: Vec<u64> = Vec::new();
    let mut i: usize = 0;
    while i < n
        invariant
            i <= n,
            o + 8 * n <= s.len(),
            values@ == u64s_at(s@, o as int, i as nat),
        decreases n - i,
    {
        let v: u64 = read_u64(s, o + 8 * i);
        values.push(v);
        i = i + 1;
        assert(values@ =~= u64s_at(s@, o as int, i as nat));
    }
    values
}

} // verus!
