//! Aggregation of k-mer words into a histogram of multiplicities.
//!
//! The words are sorted by a radix sort and the runs of equal words are
//! counted: entry `m - 1` of the histogram is the number of distinct words that
//! occur exactly `m` times. The histogram has at least `HIST_MIN_LEN` entries
//! and grows as far as the largest multiplicity; no count is dropped.
use voracious_radix_sort::RadixSort;
use vstd::multiset::Multiset;
use vstd::prelude::*;

verus! {

/// The length below which a histogram never shrinks.
pub const HIST_MIN_LEN: usize = 1024;

/// The number of distinct words that occur exactly `m` times in `ms`.
pub open spec fn distinct_with_count(ms: Multiset<u64>, m: nat) -> nat {
    ms.dom().filter(|x: u64| ms.count(x) == m).len()
}

/// `h` is the histogram of the multiplicities of `ms`.
pub open spec fn is_histogram_of(h: Seq<usize>, ms: Multiset<u64>) -> bool {
    &&& h.len() >= HIST_MIN_LEN
    &&& h.len() == HIST_MIN_LEN || distinct_with_count(ms, h.len() as nat) > 0
    &&& forall|i: int| 0 <= i < h.len() ==> #[trigger] h[i] == distinct_with_count(ms, (i + 1) as nat)
    &&& forall|m: nat| m > h.len() ==> #[trigger] distinct_with_count(ms, m) == 0
}

/// The sum over `m` of `m` times entry `m - 1`: the number of words that a
/// histogram accounts for.
pub open spec fn weighted_sum(h: Seq<usize>) -> int
    decreases h.len(),
{
    if h.len() == 0 {
        0
    } else {
        weighted_sum(h.drop_last()) + h.len() * h.last()
    }
}

pub open spec fn sorted(s: Seq<u64>) -> bool {
    forall|i: int, j: int| 0 <= i < j < s.len() ==> s[i] <= s[j]
}

/// Relies on `RadixSort::voracious_sort` of voracious_radix_sort, which sorts a
/// slice of `u64` in ascending order, in place.
#[verifier::external_body]
fn radix_sort(v: &mut Vec<u64>)
    ensures
        final(v)@.len() == old(v)@.len(),
        final(v)@.to_multiset() == old(v)@.to_multiset(),
        sorted(final(v)@),
{
    v.voracious_sort();
}

proof fn lemma_weighted_nonneg(h: Seq<usize>)
    ensures
        weighted_sum(h) >= 0,
    decreases h.len(),
{
    if h.len() > 0 {
        lemma_weighted_nonneg(h.drop_last());
        assert(h.len() * h.last() >= 0) by (nonlinear_arith);
    }
}

/// One entry, counted once, is at most the weighted sum.
proof fn lemma_weighted_entry(h: Seq<usize>, i: int)
    requires
        0 <= i < h.len(),
    ensures
        h[i] <= weighted_sum(h),
    decreases h.len(),
{
    lemma_weighted_nonneg(h.drop_last());
    if i < h.len() - 1 {
        lemma_weighted_entry(h.drop_last(), i);
        assert(h.len() * h.last() >= 0) by (nonlinear_arith);
    } else {
        assert(h.len() * h.last() >= h.last()) by (nonlinear_arith)
            requires
                h.len() >= 1,
        ;
    }
}

/// Adding one to entry `i` adds `i + 1` to the weighted sum.
proof fn lemma_weighted_bump(h: Seq<usize>, i: int, v: usize)
    requires
        0 <= i < h.len(),
        v == h[i] + 1,
    ensures
        weighted_sum(h.update(i, v)) == weighted_sum(h) + i + 1,
    decreases h.len(),
{
    let g = h.update(i, v);
    if i < h.len() - 1 {
        assert(g.drop_last() =~= h.drop_last().update(i, v));
        lemma_weighted_bump(h.drop_last(), i, v);
    } else {
        assert(g.drop_last() =~= h.drop_last());
        assert(h.len() * v == h.len() * h.last() + h.len()) by (nonlinear_arith)
            requires
                v == h.last() + 1,
        ;
    }
}

/// Appending a zero entry leaves the weighted sum as it is.
proof fn lemma_weighted_push_zero(h: Seq<usize>)
    ensures
        weighted_sum(h.push(0)) == weighted_sum(h),
{
    let g = h.push(0);
    assert(g.drop_last() =~= h);
    assert(g.last() == 0);
    assert(g.len() * g.last() == 0) by (nonlinear_arith)
        requires
            g.last() == 0,
    ;
}

/// A run of `c` copies of a word that was absent adds one distinct word of
/// multiplicity `c`, and changes no other multiplicity.
proof fn lemma_add_run(a: Multiset<u64>, b: Multiset<u64>, v: u64, c: nat, m: nat)
    requires
        c >= 1,
        m >= 1,
        a.count(v) == 0,
        b.count(v) == c,
        forall|x: u64| x != v ==> #[trigger] b.count(x) == a.count(x),
    ensures
        distinct_with_count(b, m) == distinct_with_count(a, m) + if m == c {
            1nat
        } else {
            0nat
        },
{
    let fa = a.dom().filter(|x: u64| a.count(x) == m);
    let fb = b.dom().filter(|x: u64| b.count(x) == m);
    assert(a.dom().finite());
    assert(b.dom().finite());
    assert(fa.finite()) by {
        a.dom().lemma_len_filter(|x: u64| a.count(x) == m);
    }
    if m == c {
        assert(fb =~= fa.insert(v));
        assert(!fa.contains(v));
    } else {
        assert(fb =~= fa);
    }
}

/// The words of the first `i` of `s`, as a multiset.
pub open spec fn prefix_ms(s: Seq<u64>, i: int) -> Multiset<u64> {
    s.subrange(0, i).to_multiset()
}

/// Counting one more element of `s` adds it to the multiset of the prefix.
proof fn lemma_prefix_step(s: Seq<u64>, i: int)
    requires
        0 <= i < s.len(),
    ensures
        prefix_ms(s, i + 1) == prefix_ms(s, i).insert(s[i]),
{
    assert(s.subrange(0, i + 1) =~= s.subrange(0, i).push(s[i]));
    s.subrange(0, i).to_multiset_ensures();
}

/// The histogram of the multiplicities of `words`, of at least
/// `HIST_MIN_LEN` entries.
pub fn histogram(words: Vec<u64>) -> (r: Vec<usize>)
    ensures
        is_histogram_of(r@, words@.to_multiset()),
        weighted_sum(r@) == words@.len(),
{
    let mut t = words;
    radix_sort(&mut t);
    let n = t.len();
    let mut hist: Vec<usize> = vec![0; HIST_MIN_LEN];
    let mut i: usize = 0;
    proof {
        assert(t@.subrange(0, 0) =~= Seq::<u64>::empty());
        t@.subrange(0, 0).to_multiset_ensures();
        vstd::multiset::lemma_multiset_empty_len(prefix_ms(t@, 0));
        assert(prefix_ms(t@, 0) =~= Multiset::<u64>::empty());
        assert forall|m: nat| #[trigger] distinct_with_count(prefix_ms(t@, 0), m) == 0 by {
            let ms = prefix_ms(t@, 0);
            assert(ms.dom().filter(|x: u64| ms.count(x) == m) =~= Set::<u64>::empty());
        }
        assert(hist@.drop_last().len() == HIST_MIN_LEN - 1);
        lemma_all_zero_weighted(hist@);
    }
    while i < n
        invariant
            n == t@.len(),
            sorted(t@),
            i <= n,
            0 < i < n ==> t@[i - 1] != t@[i as int],
            hist@.len() >= HIST_MIN_LEN,
            hist@.len() == HIST_MIN_LEN || distinct_with_count(
                prefix_ms(t@, i as int),
                hist@.len() as nat,
            ) > 0,
            forall|j: int|
                0 <= j < hist@.len() ==> #[trigger] hist@[j] == distinct_with_count(
                    prefix_ms(t@, i as int),
                    (j + 1) as nat,
                ),
            forall|m: nat|
                m > hist@.len() ==> #[trigger] distinct_with_count(prefix_ms(t@, i as int), m) == 0,
            weighted_sum(hist@) == i,
        decreases n - i,
    {
        let v = t[i];
        let mut j: usize = i + 1;
        proof {
            lemma_prefix_step(t@, i as int);
            assert forall|l: int| 0 <= l < i implies t@[l] < v by {
                assert(t@[l] <= t@[i - 1]);
            }
            assert(prefix_ms(t@, i as int).count(v) == 0) by {
                t@.subrange(0, i as int).to_multiset_ensures();
                if prefix_ms(t@, i as int).count(v) > 0 {
                    assert(t@.subrange(0, i as int).contains(v));
                    let l = choose|l: int| 0 <= l < i && t@.subrange(0, i as int)[l] == v;
                    assert(t@[l] < v);
                }
            }
        }
        while j < n && t[j] == v
            invariant
                i < j <= n,
                n == t@.len(),
                v == t@[i as int],
                t@[j - 1] == v,
                forall|x: u64|
                    #[trigger] prefix_ms(t@, j as int).count(x) == prefix_ms(t@, i as int).count(x)
                        + if x == v {
                        (j - i) as nat
                    } else {
                        0nat
                    },
            decreases n - j,
        {
            proof {
                lemma_prefix_step(t@, j as int);
            }
            j = j + 1;
        }
        let c = j - i;
        let ghost before = prefix_ms(t@, i as int);
        let ghost after = prefix_ms(t@, j as int);
        proof {
            assert forall|m: nat| m >= 1 implies #[trigger] distinct_with_count(after, m)
                == distinct_with_count(before, m) + if m == c {
                1nat
            } else {
                0nat
            } by {
                assert forall|x: u64| x != v implies #[trigger] after.count(x) == before.count(x) by {
                }
                lemma_add_run(before, after, v, c as nat, m);
            }
        }
        while hist.len() < c
            invariant
                hist@.len() >= HIST_MIN_LEN,
                hist@.len() == HIST_MIN_LEN || hist@.len() <= c || distinct_with_count(
                    before,
                    hist@.len() as nat,
                ) > 0,
                forall|jj: int|
                    0 <= jj < hist@.len() ==> #[trigger] hist@[jj] == distinct_with_count(
                        before,
                        (jj + 1) as nat,
                    ),
                forall|m: nat| m > hist@.len() ==> #[trigger] distinct_with_count(before, m) == 0,
                weighted_sum(hist@) == i,
            decreases c - hist@.len(),
        {
            proof {
                lemma_weighted_push_zero(hist@);
                assert(distinct_with_count(before, (hist@.len() + 1) as nat) == 0);
            }
            hist.push(0);
        }
        proof {
            lemma_weighted_entry(hist@, c - 1);
            assert(hist@[c - 1] == distinct_with_count(before, c as nat));
        }
        let bumped = hist[c - 1] + 1;
        proof {
            lemma_weighted_bump(hist@, c - 1, bumped);
        }
        hist.set(c - 1, bumped);
        proof {
            assert forall|jj: int| 0 <= jj < hist@.len() implies #[trigger] hist@[jj]
                == distinct_with_count(after, (jj + 1) as nat) by {
                assert(distinct_with_count(after, (jj + 1) as nat) == distinct_with_count(
                    before,
                    (jj + 1) as nat,
                ) + if jj + 1 == c {
                    1nat
                } else {
                    0nat
                });
            }
            assert forall|m: nat| m > hist@.len() implies #[trigger] distinct_with_count(after, m)
                == 0 by {
                assert(distinct_with_count(after, m) == distinct_with_count(before, m) + if m == c {
                    1nat
                } else {
                    0nat
                });
            }
            if hist@.len() > HIST_MIN_LEN {
                assert(hist@[hist@.len() - 1] == distinct_with_count(after, hist@.len() as nat));
                if c < hist@.len() {
                    assert(distinct_with_count(after, hist@.len() as nat) == distinct_with_count(
                        before,
                        hist@.len() as nat,
                    ));
                }
            }
        }
        i = j;
    }
    proof {
        assert(t@.subrange(0, n as int) =~= t@);
    }
    hist
}

proof fn lemma_all_zero_weighted(h: Seq<usize>)
    requires
        forall|i: int| 0 <= i < h.len() ==> h[i] == 0,
    ensures
        weighted_sum(h) == 0,
    decreases h.len(),
{
    if h.len() > 0 {
        lemma_all_zero_weighted(h.drop_last());
    }
}

} // verus!
