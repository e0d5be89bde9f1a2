//! A small bloom-filter utility over words of 64 bits.

use vstd::prelude::*;
use core::hash::Hasher;
use std::collections::hash_map::DefaultHasher;

verus! {

/// The little-endian bytes of a `u16`.
pub open spec fn le_bytes_u16(n: u16) -> Seq<u8> {
    seq![(n & 0xff) as u8, ((n >> 8) & 0xff) as u8]
}

/// The little-endian bytes of a `u64`.
pub open spec fn le_bytes_u64(n: u64) -> Seq<u8> {
    seq![
        (n & 0xff) as u8,
        ((n >> 8) & 0xff) as u8,
        ((n >> 16) & 0xff) as u8,
        ((n >> 24) & 0xff) as u8,
        ((n >> 32) & 0xff) as u8,
        ((n >> 40) & 0xff) as u8,
        ((n >> 48) & 0xff) as u8,
        ((n >> 56) & 0xff) as u8,
    ]
}

/// The hash drawn for round `n` of the filter of `id`.
pub open spec fn bloom_hash(n: u16, id: u64) -> u64 {
    <DefaultHasher as vstd::std_specs::hash::DefaultHasherAdditionalSpecFns>::spec_finish(
        seq![le_bytes_u16(n), le_bytes_u64(id)])
}

/// The mask after setting the bit that `hash` names.
pub open spec fn bloom_apply(v: Seq<u64>, hash: u64, size: usize) -> Seq<u64>
    recommends size > 0,
{
    let word = (((hash / 64) as usize) % size) as int;
    v.update(word, (v[word] | (1u64 << (hash % 64))) as u64)
}

/// The mask after the rounds `1 ..= n`.
pub open spec fn bloom_bits_spec(size: usize, n: nat, id: u64) -> Seq<u64>
    decreases n,
{
    if n == 0 {
        Seq::new(size as nat, |i: int| 0u64)
    } else {
        bloom_apply(bloom_bits_spec(size, (n - 1) as nat, id), bloom_hash(n as u16, id),
            size)
    }
}

/// The filter bits of one identity: `num_hashes` hash rounds, each setting
/// one bit of a mask of `size` words.
pub fn bloom_filter_bits(size: usize, num_hashes: usize, id: usize) -> (r: Vec<u64>)
    requires
        num_hashes > 0 ==> size > 0,
        num_hashes <= u16::MAX,
    ensures
        r@.len() == size,
        r@ == bloom_bits_spec(size, num_hashes as nat, id as u64),
{
    let mut v: Vec<u64> = Vec::new();
    let mut z: usize = 0;
    while z < size
        invariant
            z <= size,
            v@ =~= Seq::new(z as nat, |i: int| 0u64),
        decreases size - z,
    {
        v.push(0);
        proof {
            assert(v@ =~= Seq::new(z as nat + 1, |i: int| 0u64));
        }
        z = z + 1;
    }
    let mut n: usize = 1;
    while n <= num_hashes
        invariant
            num_hashes > 0 ==> size > 0,
            num_hashes <= u16::MAX,
            1 <= n <= num_hashes + 1,
            v@.len() == size,
            v@ == bloom_bits_spec(size, (n - 1) as nat, id as u64),
        decreases num_hashes + 1 - n,
    {
        let mut h = DefaultHasher::new();
        let nu: u16 = n as u16;
        let mut b16: Vec<u8> = Vec::new();
        b16.push((nu & 0xff) as u8);
        b16.push(((nu >> 8) & 0xff) as u8);
        h.write(b16.as_slice());
        let idw: u64 = id as u64;
        let mut b64: Vec<u8> = Vec::new();
        b64.push((idw & 0xff) as u8);
        b64.push(((idw >> 8) & 0xff) as u8);
        b64.push(((idw >> 16) & 0xff) as u8);
        b64.push(((idw >> 24) & 0xff) as u8);
        b64.push(((idw >> 32) & 0xff) as u8);
        b64.push(((idw >> 40) & 0xff) as u8);
        b64.push(((idw >> 48) & 0xff) as u8);
        b64.push(((idw >> 56) & 0xff) as u8);
        h.write(b64.as_slice());
        let hash = h.finish();
        proof {
            assert(b16@ =~= le_bytes_u16(nu));
            assert(b64@ =~= le_bytes_u64(idw));
            assert(h@ =~= seq![le_bytes_u16(nu), le_bytes_u64(idw)]);
            assert(hash == bloom_hash(n as u16, idw));
        }
        let u64_index = ((hash / 64u64) as usize) % size;
        let bit_index = hash % 64u64;
        let ghost pre = v@;
        let word = v[u64_index];
        v[u64_index] = word | (1u64 << bit_index);
        proof {
            assert(v@ =~= bloom_apply(pre, hash, size));
            assert(v@ == bloom_bits_spec(size, n as nat, id as u64));
        }
        n = n + 1;
    }
    v
}

/// Merge the bits of one identity into a mask. Fails when the widths differ.
pub fn bloom_filter_add(mask: &mut Vec<u64>, bits: &Vec<u64>) -> (r: Result<(), ()>)
    ensures
        match r {
            Ok(()) => old(mask)@.len() == bits@.len()
                && final(mask)@.len() == old(mask)@.len()
                && forall|i: int| 0 <= i < bits@.len()
                    ==> final(mask)@[i] == (old(mask)@[i] | bits@[i]),
            Err(()) => old(mask)@.len() != bits@.len() && final(mask)@ == old(mask)@,
        },
{
    if mask.len() != bits.len() {
        return Err(());
    }
    let n = mask.len();
    let mut i: usize = 0;
    while i < n
        invariant
            n == bits@.len(),
            mask@.len() == n,
            i <= n,
            forall|j: int| 0 <= j < i ==> mask@[j] == (old(mask)@[j] | bits@[j]),
            forall|j: int| i <= j < n ==> mask@[j] == old(mask)@[j],
        decreases n - i,
    {
        let m = mask[i];
        mask[i] = m | bits[i];
        i = i + 1;
    }
    Ok(())
}

/// Whether every bit of `bits` stands in `mask`. Fails when the widths
/// differ.
pub fn bloom_filter_contains(mask: &Vec<u64>, bits: &Vec<u64>) -> (r: Result<bool, ()>)
    ensures
        match r {
            Ok(b) => mask@.len() == bits@.len()
                && b == (forall|i: int| 0 <= i < bits@.len()
                    ==> (mask@[i] & bits@[i]) == bits@[i]),
            Err(()) => mask@.len() != bits@.len(),
        },
{
    if mask.len() != bits.len() {
        return Err(());
    }
    let n = mask.len();
    let mut i: usize = 0;
    while i < n
        invariant
            n == bits@.len(),
            mask@.len() == n,
            i <= n,
            forall|j: int| 0 <= j < i ==> (mask@[j] & bits@[j]) == bits@[j],
        decreases n - i,
    {
        if (mask[i] & bits[i]) != bits[i] {
            return Ok(false);
        }
        i = i + 1;
    }
    Ok(true)
}

} // verus!
