//! CRC-32 (reflected 0xEDB88320 polynomial) over byte strings, used for
//! the block and record checksums of the store's file formats.
use vstd::prelude::*;

verus! {

/// One bit-round of the reflected polynomial division.
pub open spec fn crc32_bit(c: u32) -> u32 {
    if c & 1 == 1 {
        (c >> 1u32) ^ 0xEDB88320u32
    } else {
        c >> 1u32
    }
}

/// `k` bit-rounds applied to `c`.
pub open spec fn crc32_bits(c: u32, k: nat) -> u32
    decreases k,
{
    if k == 0 {
        c
    } else {
        crc32_bit(crc32_bits(c, (k - 1) as nat))
    }
}

/// The state after absorbing one byte: mix it in, then eight bit-rounds.
pub open spec fn crc32_step(c: u32, b: u8) -> u32 {
    crc32_bits(c ^ (b as u32), 8)
}

/// The state after absorbing every byte of `s` in order, starting from `c`.
pub open spec fn crc32_acc(s: Seq<u8>, c: u32) -> u32
    decreases s.len(),
{
    if s.len() == 0 {
        c
    } else {
        crc32_acc(s.skip(1), crc32_step(c, s[0]))
    }
}

/// The CRC-32 checksum of a byte string.
pub open spec fn spec_crc32(s: Seq<u8>) -> u32 {
    crc32_acc(s, 0xFFFFFFFFu32) ^ 0xFFFFFFFFu32
}

pub fn crc32_checksum(buf: &[u8]) -> (r: u32)
    ensures
        r == spec_crc32(buf@),
{
    let mut c: u32 = 0xFFFFFFFF;
    let mut i: usize = 0;
    proof {
        assert(buf@.skip(0) =~= buf@);
    }
    while i < buf.len()
        invariant
            i <= buf@.len(),
            crc32_acc(buf@.skip(i as int), c) == crc32_acc(buf@, 0xFFFFFFFFu32),
        decreases buf@.len() - i,
    {
        let b = buf[i];
        let ghost c_in = c;
        let mut acc: u32 = c ^ (b as u32);
        let mut k: usize = 0;
        while k < 8
            invariant
                k <= 8,
                acc == crc32_bits(c_in ^ (b as u32), k as nat),
            decreases 8 - k,
        {
            if acc & 1 == 1 {
                acc = (acc >> 1u32) ^ 0xEDB88320;
            } else {
                acc = acc >> 1u32;
            }
            k = k + 1;
        }
        proof {
            assert(acc == crc32_step(c_in, b));
            assert(buf@.skip(i as int).skip(1) =~= buf@.skip(i + 1));
            assert(buf@.skip(i as int)[0] == b);
        }
        c = acc;
        i = i + 1;
    }
    proof {
        assert(buf@.skip(i as int).len() == 0);
    }
    c ^ 0xFFFFFFFF
}

/// One bit-round loses nothing: distinct states stay distinct.
pub proof fn lemma_crc32_bit_inj(c1: u32, c2: u32)
    requires
        crc32_bit(c1) == crc32_bit(c2),
    ensures
        c1 == c2,
{
    if c1 & 1 == 1 && c2 & 1 == 1 {
        assert(((c1 >> 1u32) ^ 0xEDB88320u32) == ((c2 >> 1u32) ^ 0xEDB88320u32) ==> c1 == c2)
            by (bit_vector)
            requires
                c1 & 1 == 1 && c2 & 1 == 1,
        ;
    } else if c1 & 1 == 1 && c2 & 1 != 1 {
        assert(((c1 >> 1u32) ^ 0xEDB88320u32) != (c2 >> 1u32)) by (bit_vector);
    } else if c1 & 1 != 1 && c2 & 1 == 1 {
        assert((c1 >> 1u32) != ((c2 >> 1u32) ^ 0xEDB88320u32)) by (bit_vector);
    } else {
        assert((c1 >> 1u32) == (c2 >> 1u32) ==> c1 == c2) by (bit_vector)
            requires
                c1 & 1 != 1 && c2 & 1 != 1,
        ;
    }
}

/// Any number of bit-rounds loses nothing.
pub proof fn lemma_crc32_bits_inj(c1: u32, c2: u32, k: nat)
    requires
        crc32_bits(c1, k) == crc32_bits(c2, k),
    ensures
        c1 == c2,
    decreases k,
{
    if k > 0 {
        lemma_crc32_bit_inj(crc32_bits(c1, (k - 1) as nat), crc32_bits(c2, (k - 1) as nat));
        lemma_crc32_bits_inj(c1, c2, (k - 1) as nat);
    }
}

/// Absorbing different bytes from one state leaves different states.
pub proof fn lemma_crc32_step_inj_byte(c: u32, b1: u8, b2: u8)
    requires
        b1 != b2,
    ensures
        crc32_step(c, b1) != crc32_step(c, b2),
{
    assert((c ^ (b1 as u32)) != (c ^ (b2 as u32))) by (bit_vector)
        requires
            b1 != b2,
    ;
    if crc32_step(c, b1) == crc32_step(c, b2) {
        lemma_crc32_bits_inj(c ^ (b1 as u32), c ^ (b2 as u32), 8);
    }
}

/// Absorbing one byte from different states leaves different states.
pub proof fn lemma_crc32_step_inj_state(c1: u32, c2: u32, b: u8)
    requires
        c1 != c2,
    ensures
        crc32_step(c1, b) != crc32_step(c2, b),
{
    if crc32_step(c1, b) == crc32_step(c2, b) {
        lemma_crc32_bits_inj(c1 ^ (b as u32), c2 ^ (b as u32), 8);
        assert((c1 ^ (b as u32)) != (c2 ^ (b as u32))) by (bit_vector)
            requires
                c1 != c2,
        ;
    }
}

/// Absorbing the same bytes from different states leaves different
/// states.
pub proof fn lemma_crc32_acc_inj(s: Seq<u8>, c1: u32, c2: u32)
    requires
        c1 != c2,
    ensures
        crc32_acc(s, c1) != crc32_acc(s, c2),
    decreases s.len(),
{
    if s.len() > 0 {
        lemma_crc32_step_inj_state(c1, c2, s[0]);
        lemma_crc32_acc_inj(s.skip(1), crc32_step(c1, s[0]), crc32_step(c2, s[0]));
    }
}

/// The state after a byte string splits at any point into the state
/// after the head continued with the tail.
pub proof fn lemma_crc32_acc_split(s: Seq<u8>, c: u32, i: int)
    requires
        0 <= i <= s.len(),
    ensures
        crc32_acc(s, c) == crc32_acc(s.skip(i), crc32_acc(s.subrange(0, i), c)),
    decreases i,
{
    if i == 0 {
        assert(s.subrange(0, 0).len() == 0);
        assert(s.skip(0) =~= s);
    } else {
        assert(s.len() > 0);
        assert(s.subrange(0, i)[0] == s[0]);
        assert(s.subrange(0, i).skip(1) =~= s.skip(1).subrange(0, i - 1));
        lemma_crc32_acc_split(s.skip(1), crc32_step(c, s[0]), i - 1);
        assert(s.skip(1).skip(i - 1) =~= s.skip(i));
    }
}

/// Two byte strings of one length that differ in exactly one place have
/// different checksums: any single-byte corruption flips the CRC-32.
pub proof fn lemma_crc32_one_byte(s1: Seq<u8>, s2: Seq<u8>, i: int)
    requires
        s1.len() == s2.len(),
        0 <= i < s1.len(),
        s1[i] != s2[i],
        forall|j: int| 0 <= j < s1.len() && j != i ==> s1[j] == s2[j],
    ensures
        spec_crc32(s1) != spec_crc32(s2),
{
    assert(s1.subrange(0, i) =~= s2.subrange(0, i));
    lemma_crc32_acc_split(s1, 0xFFFFFFFFu32, i);
    lemma_crc32_acc_split(s2, 0xFFFFFFFFu32, i);
    let mid = crc32_acc(s1.subrange(0, i), 0xFFFFFFFFu32);
    assert(s1.skip(i)[0] == s1[i]);
    assert(s2.skip(i)[0] == s2[i]);
    lemma_crc32_step_inj_byte(mid, s1[i], s2[i]);
    assert(s1.skip(i).skip(1) =~= s2.skip(i).skip(1));
    lemma_crc32_acc_inj(s1.skip(i).skip(1), crc32_step(mid, s1[i]), crc32_step(mid, s2[i]));
    let a1 = crc32_acc(s1, 0xFFFFFFFFu32);
    let a2 = crc32_acc(s2, 0xFFFFFFFFu32);
    assert(a1 != a2);
    assert((a1 ^ 0xFFFFFFFFu32) != (a2 ^ 0xFFFFFFFFu32)) by (bit_vector)
        requires
            a1 != a2,
    ;
}

} // verus!
