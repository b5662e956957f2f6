//! Routing of k-mers to the peers that own them.
//!
//! A k-mer belongs to the peer whose number is its word, mixed by a 64-bit
//! integer hash, modulo the number of peers.
use crate::kmer::{Alphabet, KMeru64};
use vstd::prelude::*;
use vstd::wrapping::u64_specs::wrapping_add;

verus! {

/// Thomas Wang's 64-bit integer mix.
pub open spec fn mix(key: u64) -> u64 {
    let k1 = wrapping_add(!key, key << 21u64);
    let k2 = k1 ^ (k1 >> 24u64);
    let k3 = wrapping_add(wrapping_add(k2, k2 << 3u64), k2 << 8u64);
    let k4 = k3 ^ (k3 >> 14u64);
    let k5 = wrapping_add(wrapping_add(k4, k4 << 2u64), k4 << 4u64);
    let k6 = k5 ^ (k5 >> 28u64);
    wrapping_add(k6, k6 << 31u64)
}

/// The peer, of `world_size`, that owns the k-mer with word `word`.
pub open spec fn partition_of(word: u64, world_size: nat) -> nat {
    (mix(word) as nat) % world_size
}

/// The words of `s` that the peer `p` of `world_size` owns, in order.
pub open spec fn for_peer(s: Seq<u64>, world_size: nat, p: nat) -> Seq<u64>
    decreases s.len(),
{
    if s.len() == 0 {
        Seq::empty()
    } else {
        let prev = for_peer(s.drop_last(), world_size, p);
        if partition_of(s.last(), world_size) == p {
            prev.push(s.last())
        } else {
            prev
        }
    }
}

pub fn mix_hash(key: u64) -> (r: u64)
    ensures
        r == mix(key),
{
    let mut k = (!key).wrapping_add(key << 21u64);
    k = k ^ (k >> 24u64);
    k = k.wrapping_add(k << 3u64).wrapping_add(k << 8u64);
    k = k ^ (k >> 14u64);
    k = k.wrapping_add(k << 2u64).wrapping_add(k << 4u64);
    k = k ^ (k >> 28u64);
    k.wrapping_add(k << 31u64)
}

/// The peer, of `world_size`, that owns `kmer`.
pub fn get_partition<A: Alphabet, const N: usize>(kmer: &KMeru64<A, N>, world_size: usize) -> (r:
    usize)
    requires
        world_size > 0,
    ensures
        r == partition_of(kmer.data, world_size as nat),
        r < world_size,
{
    (mix_hash(kmer.data) % world_size as u64) as usize
}

/// Equal k-mers go to the same peer, whichever peer routes them.
pub proof fn lemma_partition_deterministic<A: Alphabet, const N: usize>(
    a: KMeru64<A, N>,
    b: KMeru64<A, N>,
    world_size: nat,
)
    requires
        world_size > 0,
        a.data == b.data,
    ensures
        partition_of(a.data, world_size) == partition_of(b.data, world_size),
        partition_of(a.data, world_size) < world_size,
{
}

/// Appends each of `words` to the bucket of the peer that owns it.
pub fn route(words: &[u64], buckets: &mut Vec<Vec<u64>>)
    requires
        old(buckets).len() > 0,
    ensures
        final(buckets).len() == old(buckets).len(),
        forall|p: int|
            0 <= p < final(buckets).len() ==> #[trigger] final(buckets)[p]@ == old(buckets)[p]@
                + for_peer(words@, old(buckets).len() as nat, p as nat),
{
    let world_size = buckets.len();
    let ghost before = buckets@;
    let mut i: usize = 0;
    while i < words.len()
        invariant
            world_size == buckets.len() == before.len() > 0,
            i <= words.len(),
            forall|p: int|
                0 <= p < world_size ==> #[trigger] buckets[p]@ == before[p]@ + for_peer(
                    words@.subrange(0, i as int),
                    world_size as nat,
                    p as nat,
                ),
        decreases words.len() - i,
    {
        let w = words[i];
        let dst = (mix_hash(w) % world_size as u64) as usize;
        buckets[dst].push(w);
        proof {
            let prefix = words@.subrange(0, i + 1);
            assert(prefix.drop_last() =~= words@.subrange(0, i as int));
            assert forall|p: int| 0 <= p < world_size implies #[trigger] buckets[p]@ == before[p]@
                + for_peer(prefix, world_size as nat, p as nat) by {
                assert(prefix.last() == w);
                if p == dst {
                    assert(buckets[p]@ =~= before[p]@ + for_peer(prefix, world_size as nat, p as nat));
                }
            }
        }
        i = i + 1;
    }
    proof {
        assert(words@.subrange(0, words@.len() as int) =~= words@);
    }
}

} // verus!
