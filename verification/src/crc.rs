//! CRC-32 (reflected polynomial 0xEDB88320).
use vstd::prelude::*;

verus! {

/// One bit of the division.
pub open spec fn crc_bit(v: u32) -> u32 {
    if v & 1 != 0 {
        0xEDB8_8320u32 ^ (v >> 1)
    } else {
        v >> 1
    }
}

/// One byte of the division: eight bits.
pub open spec fn crc_byte(v: u32) -> u32 {
    crc_bit(crc_bit(crc_bit(crc_bit(crc_bit(crc_bit(crc_bit(crc_bit(v))))))))
}

/// The register after the bytes of `s`.
pub open spec fn crc_state(s: Seq<u8>) -> u32
    decreases s.len(),
{
    if s.len() == 0 {
        0xFFFF_FFFFu32
    } else {
        crc_byte(crc_state(s.drop_last()) ^ (s.last() as u32))
    }
}

/// The checksum of `s`.
pub open spec fn crc_of(s: Seq<u8>) -> u32 {
    !crc_state(s)
}

/// A byte step is a table look-up on the low byte.
proof fn lemma_byte_step(v: u32)
    by (bit_vector)
    ensures
        crc_byte(v) == crc_byte(v & 0xFF) ^ (v >> 8u32),
{
}

/// The byte only reaches the low byte of the register.
proof fn lemma_byte_in(v: u32, b: u32)
    by (bit_vector)
    requires
        b < 256,
    ensures
        (v ^ b) >> 8u32 == v >> 8u32,
        (v ^ b) & 0xFF < 256,
{
}

proof fn lemma_bit_injective(v: u32, w: u32)
    by (bit_vector)
    requires
        crc_bit(v) == crc_bit(w),
    ensures
        v == w,
{
}

proof fn lemma_byte_injective(v: u32, w: u32)
    requires
        crc_byte(v) == crc_byte(w),
    ensures
        v == w,
{
    let v1 = crc_bit(v);
    let v2 = crc_bit(v1);
    let v3 = crc_bit(v2);
    let v4 = crc_bit(v3);
    let v5 = crc_bit(v4);
    let v6 = crc_bit(v5);
    let v7 = crc_bit(v6);
    let w1 = crc_bit(w);
    let w2 = crc_bit(w1);
    let w3 = crc_bit(w2);
    let w4 = crc_bit(w3);
    let w5 = crc_bit(w4);
    let w6 = crc_bit(w5);
    let w7 = crc_bit(w6);
    lemma_bit_injective(v7, w7);
    lemma_bit_injective(v6, w6);
    lemma_bit_injective(v5, w5);
    lemma_bit_injective(v4, w4);
    lemma_bit_injective(v3, w3);
    lemma_bit_injective(v2, w2);
    lemma_bit_injective(v1, w1);
    lemma_bit_injective(v, w);
}

proof fn lemma_xor_injective(v: u32, w: u32, b: u32, c: u32)
    by (bit_vector)
    ensures
        v ^ b == w ^ b ==> v == w,
        v ^ b == v ^ c ==> b == c,
{
}

proof fn lemma_not_injective(v: u32, w: u32)
    by (bit_vector)
    ensures
        !v == !w ==> v == w,
{
}

proof fn lemma_state_differs(s: Seq<u8>, t: Seq<u8>, i: int)
    requires
        s.len() == t.len(),
        0 <= i < s.len(),
        s[i] != t[i],
        forall|k: int| 0 <= k < s.len() && k != i ==> s[k] == t[k],
    ensures
        crc_state(s) != crc_state(t),
    decreases s.len(),
{
    let a = s.drop_last();
    let b = t.drop_last();
    let x = crc_state(a);
    let y = crc_state(b);
    let p = s.last() as u32;
    let q = t.last() as u32;
    if i == s.len() - 1 {
        assert(a =~= b);
        if crc_state(s) == crc_state(t) {
            lemma_byte_injective(x ^ p, y ^ q);
            lemma_xor_injective(x, y, p, q);
        }
    } else {
        lemma_state_differs(a, b, i);
        if crc_state(s) == crc_state(t) {
            lemma_byte_injective(x ^ p, y ^ q);
            lemma_xor_injective(x, y, p, q);
        }
    }
}

/// Changing one byte changes the checksum.
pub proof fn law_one_changed_byte_is_seen(s: Seq<u8>, t: Seq<u8>, i: int)
    requires
        s.len() == t.len(),
        0 <= i < s.len(),
        s[i] != t[i],
        forall|k: int| 0 <= k < s.len() && k != i ==> s[k] == t[k],
    ensures
        crc_of(s) != crc_of(t),
{
    lemma_state_differs(s, t, i);
    lemma_not_injective(crc_state(s), crc_state(t));
}

fn bit_step(v: u32) -> (r: u32)
    ensures
        r == crc_bit(v),
{
    if v & 1 != 0 {
        0xEDB8_8320u32 ^ (v >> 1)
    } else {
        v >> 1
    }
}

/// The byte steps of the 256 low bytes.
fn table() -> (t: Vec<u32>)
    ensures
        t@.len() == 256,
        forall|i: int| 0 <= i < 256 ==> #[trigger] t@[i] == crc_byte(i as u32),
{
    let mut t: Vec<u32> = Vec::new();
    let mut i: u32 = 0;
    while i < 256
        invariant
            i <= 256,
            t@.len() == i,
            forall|k: int| 0 <= k < i ==> #[trigger] t@[k] == crc_byte(k as u32),
        decreases 256 - i,
    {
        let v: u32 = bit_step(bit_step(bit_step(bit_step(i))));
        t.push(bit_step(bit_step(bit_step(bit_step(v)))));
        i = i + 1;
    }
    t
}

/// The checksum of `bytes`.
pub fn crc32(bytes: &[u8]) -> (crc: u32)
    ensures
        crc == crc_of(bytes@),
{
    let steps: Vec<u32> = table();
    let mut state: u32 = 0xFFFF_FFFF;
    let mut i: usize = 0;
    assert(bytes@.take(0) =~= Seq::<u8>::empty());
    while i < bytes.len()
        invariant
            i <= bytes.len(),
            steps@.len() == 256,
            forall|k: int| 0 <= k < 256 ==> #[trigger] steps@[k] == crc_byte(k as u32),
            state == crc_state(bytes@.take(i as int)),
        decreases bytes.len() - i,
    {
        let b: u32 = bytes[i] as u32;
        let low: u32 = (state ^ b) & 0xFF;
        proof {
            assert(bytes@.take(i + 1).drop_last() =~= bytes@.take(i as int));
            lemma_byte_in(state, b);
            lemma_byte_step(state ^ b);
            assert(steps@[low as int] == crc_byte(low));
        }
        state = steps[low as usize] ^ (state >> 8);
        i = i + 1;
    }
    assert(bytes@.take(i as int) =~= bytes@);
    !state
}

} // verus!
