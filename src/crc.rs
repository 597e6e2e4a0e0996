use vstd::prelude::*;

verus! {

/// One round of the checksum register over one input byte, on 16-bit values
/// with truncating shifts.
pub open spec fn crc_step(crc: u16, b: u8) -> u16 {
    let code0: u16 = (crc >> 8u16) ^ (b as u16);
    let code1: u16 = code0 ^ (code0 >> 4u16);
    let crc1: u16 = (crc << 8u16) ^ code1;
    let code2: u16 = code1 << 5u16;
    let crc2: u16 = crc1 ^ code2;
    let code3: u16 = code2 << 7u16;
    crc2 ^ code3
}

/// The checksum of a byte sequence: the register starts at 0 and takes each
/// byte in order.
pub open spec fn crc_spec(s: Seq<u8>) -> u16
    decreases s.len(),
{
    if s.len() == 0 {
        0
    } else {
        crc_step(crc_spec(s.drop_last()), s.last())
    }
}

/// Computes the CRC16 of `data` as the protocol defines it.
pub fn create_crc(data: &[u8]) -> (r: u16)
    ensures
        r == crc_spec(data@),
{
    let mut crc: u16 = 0;
    let mut i: usize = 0;
    while i < data.len()
        invariant
            i <= data@.len(),
            crc == crc_spec(data@.subrange(0, i as int)),
        decreases data@.len() - i,
    {
        let b = data[i];
        let mut code: u16 = crc >> 8u16;
        code = code ^ (b as u16);
        code = code ^ (code >> 4u16);
        crc = crc << 8u16;
        crc = crc ^ code;
        code = code << 5u16;
        crc = crc ^ code;
        code = code << 7u16;
        crc = crc ^ code;
        proof {
            let s = data@.subrange(0, i as int + 1);
            assert(s.drop_last() =~= data@.subrange(0, i as int));
        }
        i = i + 1;
    }
    proof {
        assert(data@.subrange(0, i as int) =~= data@);
    }
    crc
}

/// The register update is linear over XOR, in the register and the byte.
pub proof fn lemma_step_xor(a: u16, x: u8, b: u16, y: u8)
    ensures
        crc_step(a, x) ^ crc_step(b, y) == crc_step(a ^ b, x ^ y),
{
    assert(((((a << 8u16) ^ (((a >> 8u16) ^ (x as u16)) ^ (((a >> 8u16) ^ (x as u16)) >> 4u16))) ^ ((((a >> 8u16) ^ (x as u16)) ^ (((a >> 8u16) ^ (x as u16)) >> 4u16)) << 5u16)) ^ (((((a >> 8u16) ^ (x as u16)) ^ (((a >> 8u16) ^ (x as u16)) >> 4u16)) << 5u16) << 7u16)) ^ ((((b << 8u16) ^ (((b >> 8u16) ^ (y as u16)) ^ (((b >> 8u16) ^ (y as u16)) >> 4u16))) ^ ((((b >> 8u16) ^ (y as u16)) ^ (((b >> 8u16) ^ (y as u16)) >> 4u16)) << 5u16)) ^ (((((b >> 8u16) ^ (y as u16)) ^ (((b >> 8u16) ^ (y as u16)) >> 4u16)) << 5u16) << 7u16)) == (((((a ^ b) << 8u16) ^ ((((a ^ b) >> 8u16) ^ ((x ^ y) as u16)) ^ ((((a ^ b) >> 8u16) ^ ((x ^ y) as u16)) >> 4u16))) ^ (((((a ^ b) >> 8u16) ^ ((x ^ y) as u16)) ^ ((((a ^ b) >> 8u16) ^ ((x ^ y) as u16)) >> 4u16)) << 5u16)) ^ ((((((a ^ b) >> 8u16) ^ ((x ^ y) as u16)) ^ ((((a ^ b) >> 8u16) ^ ((x ^ y) as u16)) >> 4u16)) << 5u16) << 7u16))) by (bit_vector);
}

/// A zero byte keeps a nonzero register nonzero, and a nonzero byte makes
/// a zero register nonzero.
pub proof fn lemma_step_nonzero(c: u16, x: u8)
    ensures
        c != 0 ==> crc_step(c, 0) != 0,
        x != 0 ==> crc_step(0, x) != 0,
{
    assert(c != 0u16 ==> ((((c << 8u16) ^ (((c >> 8u16) ^ (0u8 as u16)) ^ (((c >> 8u16) ^ (0u8 as u16)) >> 4u16))) ^ ((((c >> 8u16) ^ (0u8 as u16)) ^ (((c >> 8u16) ^ (0u8 as u16)) >> 4u16)) << 5u16)) ^ (((((c >> 8u16) ^ (0u8 as u16)) ^ (((c >> 8u16) ^ (0u8 as u16)) >> 4u16)) << 5u16) << 7u16)) != 0u16) by (bit_vector);
    assert(x != 0u8 ==> ((((0u16 << 8u16) ^ (((0u16 >> 8u16) ^ (x as u16)) ^ (((0u16 >> 8u16) ^ (x as u16)) >> 4u16))) ^ ((((0u16 >> 8u16) ^ (x as u16)) ^ (((0u16 >> 8u16) ^ (x as u16)) >> 4u16)) << 5u16)) ^ (((((0u16 >> 8u16) ^ (x as u16)) ^ (((0u16 >> 8u16) ^ (x as u16)) >> 4u16)) << 5u16) << 7u16)) != 0u16) by (bit_vector);
}

/// Two sequences that differ in one byte only.
pub open spec fn differ_at(s1: Seq<u8>, s2: Seq<u8>, i: int) -> bool {
    &&& s1.len() == s2.len()
    &&& 0 <= i < s1.len()
    &&& s1[i] != s2[i]
    &&& forall|j: int| 0 <= j < s1.len() && j != i ==> s1[j] == s2[j]
}

proof fn lemma_differ_prefix(s1: Seq<u8>, s2: Seq<u8>, i: int, k: int)
    requires
        differ_at(s1, s2, i),
        0 <= k <= s1.len(),
    ensures
        k <= i ==> crc_spec(s1.take(k)) == crc_spec(s2.take(k)),
        k > i ==> crc_spec(s1.take(k)) != crc_spec(s2.take(k)),
    decreases k,
{
    if k <= i {
        assert(s1.take(k) =~= s2.take(k));
    } else {
        lemma_differ_prefix(s1, s2, i, k - 1);
        assert(s1.take(k).drop_last() =~= s1.take(k - 1));
        assert(s2.take(k).drop_last() =~= s2.take(k - 1));
        let c1 = crc_spec(s1.take(k - 1));
        let c2 = crc_spec(s2.take(k - 1));
        let x = s1[k - 1];
        let y = s2[k - 1];
        lemma_step_xor(c1, x, c2, y);
        lemma_step_nonzero(c1 ^ c2, x ^ y);
        assert(c1 == c2 ==> c1 ^ c2 == 0u16) by (bit_vector);
        assert(c1 != c2 ==> c1 ^ c2 != 0u16) by (bit_vector);
        assert(x == y ==> x ^ y == 0u8) by (bit_vector);
        assert(x != y ==> x ^ y != 0u8) by (bit_vector);
        let d1 = crc_step(c1, x);
        let d2 = crc_step(c2, y);
        assert(d1 ^ d2 != 0u16 ==> d1 != d2) by (bit_vector);
    }
}

/// The checksum tells apart any two sequences that differ in a single
/// byte, and so catches every single-bit error.
pub proof fn lemma_crc_detects_one_byte_change(s1: Seq<u8>, s2: Seq<u8>, i: int)
    requires
        differ_at(s1, s2, i),
    ensures
        crc_spec(s1) != crc_spec(s2),
{
    lemma_differ_prefix(s1, s2, i, s1.len() as int);
    assert(s1.take(s1.len() as int) =~= s1);
    assert(s2.take(s2.len() as int) =~= s2);
}

} // verus!
