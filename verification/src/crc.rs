use vstd::prelude::*;

verus! {

/// The CRC-32 generator polynomial of Ogg pages.
pub const CRC32_POLY: u32 = 0x04c11db7;

/// One step of the bitwise CRC: shift left, reducing by the polynomial
/// when the top bit falls out.
pub open spec fn crc_step(s: u32) -> u32 {
    ((s << 1u32) ^ (if s >= 0x8000_0000 { CRC32_POLY } else { 0u32 })) as u32
}

/// `k` steps of the bitwise CRC.
pub open spec fn crc_steps(s: u32, k: nat) -> u32
    decreases k,
{
    if k == 0 {
        s
    } else {
        crc_steps(crc_step(s), (k - 1) as nat)
    }
}

/// Entry `i` of the byte-wise CRC table: eight bitwise steps from `i << 24`.
pub open spec fn crc_table_entry(i: u32) -> u32 {
    crc_steps(i << 24u32, 8)
}

/// A table holds exactly the 256 entries of the byte-wise CRC.
pub open spec fn crc_table_ok(t: Seq<u32>) -> bool {
    &&& t.len() == 256
    &&& forall|i: int| 0 <= i < 256 ==> #[trigger] t[i] == crc_table_entry(i as u32)
}

/// The CRC after feeding one more byte.
pub open spec fn crc32_update_spec(crc: u32, byte: u8) -> u32 {
    (crc << 8u32) ^ crc_table_entry(((byte as u32) ^ (crc >> 24u32)) as u32)
}

/// The CRC after feeding the bytes of `s` in order, starting from `crc`.
pub open spec fn crc32_of(crc: u32, s: Seq<u8>) -> u32
    decreases s.len(),
{
    if s.len() == 0 {
        crc
    } else {
        crc32_update_spec(crc32_of(crc, s.drop_last()), s.last())
    }
}

/// Feeding bytes in two chunks gives the CRC of the whole.
pub proof fn lemma_crc32_chunks(crc: u32, a: Seq<u8>, b: Seq<u8>)
    ensures
        crc32_of(crc, a + b) == crc32_of(crc32_of(crc, a), b),
    decreases b.len(),
{
    if b.len() == 0 {
        assert(a + b =~= a);
    } else {
        assert((a + b).drop_last() =~= a + b.drop_last());
        assert((a + b).last() == b.last());
        lemma_crc32_chunks(crc, a, b.drop_last());
    }
}

/// Feeding one more byte extends the CRC of a sequence.
pub proof fn lemma_crc32_push(crc: u32, a: Seq<u8>, x: u8)
    ensures
        crc32_of(crc, a.push(x)) == crc32_update_spec(crc32_of(crc, a), x),
{
    assert(a.push(x).drop_last() =~= a);
}

/// Builds the byte-wise CRC table.
pub fn crc32_init() -> (t: Vec<u32>)
    ensures
        crc_table_ok(t@),
{
    let mut t: Vec<u32> = Vec::new();
    let mut i: u32 = 0;
    while i < 256
        invariant
            i <= 256,
            t@.len() == i,
            forall|j: int| 0 <= j < i ==> #[trigger] t@[j] == crc_table_entry(j as u32),
        decreases 256 - i,
    {
        let mut s: u32 = i << 24;
        let mut k: u32 = 0;
        while k < 8
            invariant
                k <= 8,
                crc_steps(s, (8 - k) as nat) == crc_table_entry(i),
            decreases 8 - k,
        {
            assert(crc_steps(s, (8 - k) as nat) == crc_steps(crc_step(s), (8 - k - 1) as nat));
            s = (s << 1) ^ (if s >= 0x8000_0000 { CRC32_POLY } else { 0 });
            k = k + 1;
        }
        t.push(s);
        i = i + 1;
    }
    t
}

/// Feeds one byte to a running CRC.
pub fn crc32_update(table: &[u32], crc: u32, byte: u8) -> (r: u32)
    requires
        crc_table_ok(table@),
    ensures
        r == crc32_update_spec(crc, byte),
{
    let idx = (byte as u32) ^ (crc >> 24);
    assert(((byte as u32) ^ (crc >> 24u32)) < 256) by (bit_vector);
    (crc << 8) ^ table[idx as usize]
}

} // verus!
