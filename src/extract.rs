//! Extraction of the canonical k-mers of a read.
//!
//! Every window of `k` consecutive symbols of the alphabet yields the
//! canonical form of its k-mer, in the order in which the windows end. A byte
//! outside the alphabet restarts the window after it.
use crate::kmer::{
    all_bases, canonical_word, extend_word, lemma_results_live, units_of_bases, word_of_bases,
    AbstractKMer, Alphabet, KMeru64,
};
use crate::packed::lemma_units_encode;
use vstd::prelude::*;

verus! {

/// The window of `k` bytes of `read` that starts at `i` lies inside it and
/// holds symbols of the alphabet only.
pub open spec fn window_valid<A: Alphabet>(read: Seq<u8>, i: int, k: nat) -> bool {
    0 <= i && i + k <= read.len() && all_bases::<A>(read.subrange(i, i + k))
}

/// The word of the k-mer in the window that ends before `n`.
pub open spec fn window_word<A: Alphabet>(read: Seq<u8>, n: int, k: nat) -> nat {
    word_of_bases::<A>(read.subrange(n - k, n), k)
}

/// The canonical k-mers of the valid windows of `read` that end at or before
/// `n`, in the order in which they end.
pub open spec fn kmers_upto<A: Alphabet>(read: Seq<u8>, k: nat, n: nat) -> Seq<u64>
    decreases n,
{
    if n == 0 || n < k {
        Seq::empty()
    } else {
        let prev = kmers_upto::<A>(read, k, (n - 1) as nat);
        if window_valid::<A>(read, n - k, k) {
            prev.push(canonical_word(window_word::<A>(read, n as int, k), k) as u64)
        } else {
            prev
        }
    }
}

/// The canonical k-mers of every valid window of `read`.
pub open spec fn read_kmers<A: Alphabet>(read: Seq<u8>, k: nat) -> Seq<u64> {
    kmers_upto::<A>(read, k, read.len())
}

/// Sliding a valid window on by a symbol gives the word of the next window.
proof fn lemma_slide<A: Alphabet>(read: Seq<u8>, q: int, k: nat)
    requires
        k >= 1,
        window_valid::<A>(read, q - k, k),
        window_valid::<A>(read, q - k + 1, k),
    ensures
        extend_word(window_word::<A>(read, q, k), k, (A::unit_of(read[q])->0) as nat)
            == window_word::<A>(read, q + 1, k),
{
    let w = read.subrange(q - k, q);
    let w2 = read.subrange(q - k + 1, q + 1);
    let us = units_of_bases::<A>(w.subrange(0, k as int));
    let us2 = units_of_bases::<A>(w2.subrange(0, k as int));
    assert forall|i: int| 0 <= i < us.len() implies us[i] < 4 by {
        let b = w[i];
        A::lemma_codes(b, A::unit_of(b)->0);
    }
    lemma_units_encode(us);
    assert(w2[k - 1] == read[q]);
    assert(us.drop_first().push((A::unit_of(read[q])->0) as nat) =~= us2);
}

/// Windows that all hold a byte outside the alphabet add nothing.
proof fn lemma_invalid_run<A: Alphabet>(read: Seq<u8>, k: nat, p: nat, n: nat)
    requires
        k >= 1,
        p <= n < p + k,
        forall|i: int| p - k < i < p ==> !#[trigger] window_valid::<A>(read, i, k),
    ensures
        kmers_upto::<A>(read, k, n) == kmers_upto::<A>(read, k, p),
    decreases n,
{
    if n > p {
        assert(!window_valid::<A>(read, n - k, k));
        lemma_invalid_run::<A>(read, k, p, (n - 1) as nat);
    }
}

/// The canonical k-mers of every window of `read` that holds `N` symbols of the
/// alphabet, in order.
pub fn canonical_kmers<A: Alphabet, const N: usize>(read: &[u8]) -> (r: Vec<u64>)
    requires
        1 <= N <= 32,
    ensures
        r@ == read_kmers::<A>(read@, N as nat),
{
    let ghost k = N as nat;
    let ghost s = read@;
    let mut out: Vec<u64> = Vec::new();
    let end = read.len();
    let mut next_pos: usize = 0;
    let mut start = true;
    let mut current = KMeru64::<A, N>::new(0);
    while next_pos < end
        invariant
            1 <= N <= 32,
            k == N,
            s == read@,
            end == s.len(),
            next_pos <= end,
            out@ == kmers_upto::<A>(s, k, next_pos as nat),
            start ==> forall|i: int|
                next_pos - k < i < next_pos ==> !#[trigger] window_valid::<A>(s, i, k),
            !start ==> next_pos >= k && window_valid::<A>(s, next_pos - k, k)
                && current.data as nat == window_word::<A>(s, next_pos as int, k),
        decreases end - next_pos,
    {
        if start {
            let rest = vstd::slice::slice_subrange(read, next_pos, end);
            match KMeru64::<A, N>::from_bytes(rest) {
                Some(km) => {
                    let ghost p = next_pos as int;
                    proof {
                        let w = s.subrange(p, p + k);
                        assert(rest@.subrange(0, k as int) =~= w);
                        assert forall|j: int| 0 <= j < k implies (#[trigger] A::unit_of(w[j])) is Some by {
                            assert(<KMeru64<A, N> as AbstractKMer>::base_unit(rest@[j]) is Some);
                            assert(rest@[j] == w[j]);
                        }
                        assert(window_valid::<A>(s, p, k));
                        assert(w.subrange(0, k as int) =~= w);
                        assert(rest@.subrange(0, k as int).map_values(
                            |b: u8| (<KMeru64<A, N> as AbstractKMer>::base_unit(b)->0) as nat,
                        ) =~= units_of_bases::<A>(w.subrange(0, k as int)));
                        assert(km.data as nat == window_word::<A>(s, p + k, k));
                        lemma_invalid_run::<A>(s, k, p as nat, (p + k - 1) as nat);
                        lemma_results_live::<A>(km.data as nat, k, 0, w);
                    }
                    let canon = km.get_canonical();
                    out.push(canon.data);
                    current = km;
                    next_pos = next_pos + N;
                    start = false;
                },
                None => {
                    proof {
                        let p = next_pos as int;
                        if p + k <= s.len() {
                            let w = s.subrange(p, p + k);
                            assert(rest@.subrange(0, k as int) =~= w);
                            if window_valid::<A>(s, p, k) {
                                assert forall|j: int| 0 <= j < k implies (#[trigger] A::unit_of(
                                    rest@[j],
                                )) is Some by {
                                    assert(rest@[j] == w[j]);
                                }
                            }
                        }
                        assert(!window_valid::<A>(s, p, k));
                        if p + 1 >= k {
                            assert(!window_valid::<A>(s, p + 1 - k, k));
                        }
                    }
                    next_pos = next_pos + 1;
                },
            }
        } else {
            let b = read[next_pos];
            match current.extend(b) {
                Some(km) => {
                    let ghost q = next_pos as int;
                    proof {
                        let w = s.subrange(q - k + 1, q + 1);
                        assert forall|j: int| 0 <= j < k implies (#[trigger] A::unit_of(w[j])) is Some by {
                            if j < k - 1 {
                                assert(w[j] == s.subrange(q - k, q)[j + 1]);
                            }
                        }
                        assert(window_valid::<A>(s, q - k + 1, k));
                        lemma_slide::<A>(s, q, k);
                        lemma_results_live::<A>(km.data as nat, k, 0, w);
                    }
                    let canon = km.get_canonical();
                    out.push(canon.data);
                    current = km;
                },
                None => {
                    let ghost q = next_pos as int;
                    proof {
                        assert forall|i: int| q + 1 - k < i < q + 1 implies !#[trigger] window_valid::<
                            A,
                        >(s, i, k) by {
                            if window_valid::<A>(s, i, k) {
                                assert(s.subrange(i, i + k)[q - i] == s[q]);
                            }
                        }
                    }
                    start = true;
                },
            }
            next_pos = next_pos + 1;
        }
    }
    out
}

} // verus!
