use vstd::prelude::*;

verus! {

/// FNV-1a offset basis (64 bit).
pub open spec fn fnv_offset_basis() -> u64 {
    0xcbf29ce484222325
}

/// FNV-1a prime (64 bit).
pub open spec fn fnv_prime() -> u64 {
    0x00000100000001b3
}

/// 64-bit FNV-1a hash: starting from the offset basis, each byte is xored in
/// and the state multiplied by the prime modulo `2^64`.
pub open spec fn fnv64_spec(bytes: Seq<u8>) -> u64
    decreases bytes.len(),
{
    if bytes.len() == 0 {
        fnv_offset_basis()
    } else {
        let h = fnv64_spec(bytes.drop_last()) ^ (bytes.last() as u64);
        ((h as nat * fnv_prime() as nat) % 0x10000000000000000nat) as u64
    }
}

/// 64-bit FNV-1a hash of a serialized artifact.
pub fn fnv64(bytes: &[u8]) -> (h: u64)
    ensures
        h == fnv64_spec(bytes@),
{
    let mut h: u64 = 0xcbf29ce484222325;
    let mut i: usize = 0;
    while i < bytes.len()
        invariant
            i <= bytes.len(),
            h == fnv64_spec(bytes@.take(i as int)),
        decreases bytes.len() - i,
    {
        proof {
            assert(bytes@.take(i + 1).drop_last() =~= bytes@.take(i as int));
        }
        h ^= bytes[i] as u64;
        h = h.wrapping_mul(0x00000100000001b3);
        i = i + 1;
    }
    proof {
        assert(bytes@.take(bytes.len() as int) =~= bytes@);
    }
    h
}

} // verus!
