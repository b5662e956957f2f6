//! Counting the k-mers of a batch of reads.
//!
//! A batch of reads is turned into canonical k-mer words, which are either
//! routed to the buckets of the peers that own them, or aggregated at once
//! into a histogram. A peer keeps the words it receives in a store that grows
//! by whole batches.
use crate::extract::{canonical_kmers, read_kmers};
use crate::histogram::{histogram, is_histogram_of, weighted_sum};
use crate::kmer::Alphabet;
use crate::partition::{for_peer, route};
use vstd::prelude::*;

verus! {

/// The canonical k-mers of every read of `reads`, read after read.
pub open spec fn all_kmers<A: Alphabet>(reads: Seq<Vec<u8>>, k: nat) -> Seq<u64>
    decreases reads.len(),
{
    if reads.len() == 0 {
        Seq::empty()
    } else {
        all_kmers::<A>(reads.drop_last(), k) + read_kmers::<A>(reads.last()@, k)
    }
}

/// Routing two sequences one after the other routes their concatenation.
proof fn lemma_for_peer_append(a: Seq<u64>, b: Seq<u64>, world_size: nat, p: nat)
    ensures
        for_peer(a + b, world_size, p) == for_peer(a, world_size, p) + for_peer(b, world_size, p),
    decreases b.len(),
{
    if b.len() == 0 {
        assert(a + b =~= a);
        assert(for_peer(b, world_size, p) =~= Seq::<u64>::empty());
        assert(for_peer(a, world_size, p) + Seq::<u64>::empty() =~= for_peer(a, world_size, p));
    } else {
        assert((a + b).drop_last() =~= a + b.drop_last());
        assert((a + b).last() == b.last());
        lemma_for_peer_append(a, b.drop_last(), world_size, p);
        let fa = for_peer(a, world_size, p);
        let fb = for_peer(b.drop_last(), world_size, p);
        assert((fa + fb).push(b.last()) =~= fa + fb.push(b.last()));
    }
}

/// Extracts the canonical k-mers of every read and appends each to the
/// bucket of the peer that owns it.
pub fn kmer_counting<A: Alphabet, const N: usize>(reads: &Vec<Vec<u8>>, buckets: &mut Vec<Vec<u64>>)
    requires
        1 <= N <= 32,
        old(buckets).len() > 0,
    ensures
        final(buckets).len() == old(buckets).len(),
        forall|p: int|
            0 <= p < final(buckets).len() ==> #[trigger] final(buckets)[p]@ == old(buckets)[p]@
                + for_peer(all_kmers::<A>(reads@, N as nat), old(buckets).len() as nat, p as nat),
{
    let ghost before = buckets@;
    let ghost ws = buckets.len() as nat;
    let mut i: usize = 0;
    proof {
        assert(reads@.subrange(0, 0) =~= Seq::<Vec<u8>>::empty());
        assert forall|p: int| 0 <= p < ws implies #[trigger] buckets[p]@ == before[p]@ + for_peer(
            all_kmers::<A>(reads@.subrange(0, 0), N as nat),
            ws,
            p as nat,
        ) by {
            assert(before[p]@ + Seq::<u64>::empty() =~= before[p]@);
        }
    }
    while i < reads.len()
        invariant
            1 <= N <= 32,
            i <= reads.len(),
            buckets.len() == ws == before.len() > 0,
            forall|p: int|
                0 <= p < ws ==> #[trigger] buckets[p]@ == before[p]@ + for_peer(
                    all_kmers::<A>(reads@.subrange(0, i as int), N as nat),
                    ws,
                    p as nat,
                ),
        decreases reads.len() - i,
    {
        let kmers = canonical_kmers::<A, N>(reads[i].as_slice());
        let ghost mid = buckets@;
        route(kmers.as_slice(), buckets);
        proof {
            let prev = all_kmers::<A>(reads@.subrange(0, i as int), N as nat);
            let next = reads@.subrange(0, i + 1);
            assert(next.drop_last() =~= reads@.subrange(0, i as int));
            assert(all_kmers::<A>(next, N as nat) == prev + kmers@);
            assert forall|p: int| 0 <= p < ws implies #[trigger] buckets[p]@ == before[p]@
                + for_peer(all_kmers::<A>(next, N as nat), ws, p as nat) by {
                lemma_for_peer_append(prev, kmers@, ws, p as nat);
                assert(buckets[p]@ == mid[p]@ + for_peer(kmers@, ws, p as nat));
                assert(before[p]@ + for_peer(prev, ws, p as nat) + for_peer(kmers@, ws, p as nat)
                    =~= before[p]@ + (for_peer(prev, ws, p as nat) + for_peer(kmers@, ws, p as nat)));
            }
        }
        i = i + 1;
    }
    proof {
        assert(reads@.subrange(0, reads@.len() as int) =~= reads@);
    }
}

/// Adds a batch of k-mer words to the store of a peer.
pub fn update_kmer(store: &mut Vec<u64>, kmers: &[u64])
    ensures
        final(store)@ == old(store)@ + kmers@,
{
    store.extend_from_slice(kmers);
}

/// The histogram of the multiplicities of the canonical k-mers of `reads`.
pub fn count_reads<A: Alphabet, const N: usize>(reads: &Vec<Vec<u8>>) -> (r: Vec<usize>)
    requires
        1 <= N <= 32,
    ensures
        is_histogram_of(r@, all_kmers::<A>(reads@, N as nat).to_multiset()),
        weighted_sum(r@) == all_kmers::<A>(reads@, N as nat).len(),
{
    let mut words: Vec<u64> = Vec::new();
    let mut i: usize = 0;
    while i < reads.len()
        invariant
            1 <= N <= 32,
            i <= reads.len(),
            words@ == all_kmers::<A>(reads@.subrange(0, i as int), N as nat),
        decreases reads.len() - i,
    {
        let kmers = canonical_kmers::<A, N>(reads[i].as_slice());
        update_kmer(&mut words, kmers.as_slice());
        proof {
            let next = reads@.subrange(0, i + 1);
            assert(next.drop_last() =~= reads@.subrange(0, i as int));
        }
        i = i + 1;
    }
    proof {
        assert(reads@.subrange(0, reads@.len() as int) =~= reads@);
    }
    histogram(words)
}

} // verus!
