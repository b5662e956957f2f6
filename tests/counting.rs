use kmer_count::count::count_reads;
use kmer_count::count::kmer_counting;
use kmer_count::count::update_kmer;
use kmer_count::extract::canonical_kmers;
use kmer_count::histogram::histogram;
use kmer_count::histogram::HIST_MIN_LEN;
use kmer_count::kmer::AbstractKMer;
use kmer_count::kmer::KMeru64;
use kmer_count::kmer::DNA;
use kmer_count::partition::get_partition;
use kmer_count::partition::mix_hash;
use kmer_count::partition::route;
use kmer_count::reads::Lines;
use kmer_count::reads::SeqReader;

type KMer31 = KMeru64<DNA, 31>;

fn kmers(read: &str) -> Vec<u64> {
    canonical_kmers::<DNA, 31>(read.as_bytes())
}

fn weighted(hist: &[usize]) -> usize {
    hist.iter().enumerate().map(|(i, c)| (i + 1) * c).sum()
}

#[test]
fn single_all_a_read() {
    let reads = vec![b"AAAAAAAAAAAAAAAAAAAAAAAAAAAAAAA".to_vec()];
    let hist = count_reads::<DNA, 31>(&reads);
    assert_eq!(hist.len(), HIST_MIN_LEN);
    assert_eq!(hist[0], 1);
    assert!(hist[1..].iter().all(|c| *c == 0));
}

#[test]
fn single_read_canonical_is_min_of_strands() {
    let read = "AAAAAAAAAAAAAAAAAAAAAAAAAAACCCC";
    let x = read.parse::<KMer31>().unwrap();
    let comp = "TTTTTTTTTTTTTTTTTTTTTTTTTTTGGGG".parse::<KMer31>().unwrap();
    let expected = x.data.min(comp.reverse().data);
    assert_eq!(kmers(read), vec![expected]);
    let hist = count_reads::<DNA, 31>(&vec![read.as_bytes().to_vec()]);
    assert_eq!(hist[0], 1);
    assert!(hist[1..].iter().all(|c| *c == 0));
}

#[test]
fn read_of_32_bases_gives_two_kmers() {
    let read = "ACGTACGTACGTACGTACGTACGTACGTACGT";
    let out = kmers(read);
    assert_eq!(out.len(), 2);
    let first = read[..31].parse::<KMer31>().unwrap().get_canonical();
    let second = read[1..].parse::<KMer31>().unwrap().get_canonical();
    assert_eq!(out, vec![first.data, second.data]);
    assert_eq!(kmers("ACGTACGTACGTACGTACGTACGTACGTACGTA").len(), 3);
}

#[test]
fn invalid_base_splits_read() {
    let read = "AAAAAAAAAAAAAAAAAAAAAAAAAAAAAAANAAAAAAAAAAAAAAAAAAAAAAAAAAAAAAA";
    let out = kmers(read);
    assert_eq!(out, vec![0, 0]);
    let hist = count_reads::<DNA, 31>(&vec![read.as_bytes().to_vec()]);
    assert_eq!(hist[0], 0);
    assert_eq!(hist[1], 1);
}

#[test]
fn restart_after_invalid_base_probes_every_shift() {
    // 5 symbols, an invalid byte, then 32 symbols: the second part gives two windows.
    let read = "ACGTAxCCCCCCCCCCCCCCCCCCCCCCCCCCCCCCCC";
    let out = kmers(read);
    assert_eq!(out.len(), 2);
    let c = "CCCCCCCCCCCCCCCCCCCCCCCCCCCCCCC".parse::<KMer31>().unwrap().get_canonical();
    assert_eq!(out, vec![c.data, c.data]);
}

#[test]
fn short_reads_give_nothing() {
    assert!(kmers("").is_empty());
    assert!(kmers("ACGTACGTACGTACGTACGTACGTACGTAC").is_empty());
    assert!(kmers("AAAAAAAAAAAAAAAAAAAAAAAAAAAAAAN").is_empty());
    assert_eq!(kmers("AAAAAAAAAAAAAAAAAAAAAAAAAAAAAAA").len(), 1);
}

#[test]
fn empty_input_gives_zero_histogram() {
    let hist = count_reads::<DNA, 31>(&vec![]);
    assert_eq!(hist.len(), HIST_MIN_LEN);
    assert!(hist.iter().all(|c| *c == 0));
    let hist = histogram(vec![]);
    assert_eq!(hist, vec![0; HIST_MIN_LEN]);
}

#[test]
fn histogram_counts_multiplicities() {
    let hist = histogram(vec![5, 3, 5, 9, 5, 3, 7]);
    assert_eq!(hist.len(), HIST_MIN_LEN);
    assert_eq!(hist[0], 2);
    assert_eq!(hist[1], 1);
    assert_eq!(hist[2], 1);
    assert!(hist[3..].iter().all(|c| *c == 0));
    assert_eq!(weighted(&hist), 7);
}

#[test]
fn histogram_grows_past_minimum_length() {
    let mut words = vec![42u64; 2000];
    words.push(1);
    let hist = histogram(words);
    assert_eq!(hist.len(), 2000);
    assert_eq!(hist[1999], 1);
    assert_eq!(hist[0], 1);
    assert_eq!(weighted(&hist), 2001);
}

#[test]
fn histogram_accounts_for_every_kmer() {
    let reads = vec![
        b"ACGTACGTACGTACGTACGTACGTACGTACGTACGT".to_vec(),
        b"TTTTTTTTTTTTTTTTTTTTTTTTTTTTTTTNAAAAAAAAAAAAAAAAAAAAAAAAAAAAAAA".to_vec(),
        b"GATTACA".to_vec(),
        b"CCGGCCGGCCGGCCGGCCGGCCGGCCGGCCGGAT".to_vec(),
    ];
    let total: usize = reads.iter().map(|r| canonical_kmers::<DNA, 31>(r).len()).sum();
    assert_eq!(total, 6 + 2 + 0 + 4);
    let hist = count_reads::<DNA, 31>(&reads);
    assert_eq!(weighted(&hist), total);
    // poly-T and poly-A are one canonical k-mer
    assert_eq!(hist[1], 3);
}

#[test]
fn mix_hash_values() {
    assert_eq!(mix_hash(0), 8633297058295171728);
    assert_eq!(mix_hash(1), 6614235796240398542);
    assert_eq!(mix_hash(12345), 7658450573117590115);
}

#[test]
fn partition_is_deterministic() {
    let a = KMer31::new(0x0123456789ABCDEF);
    let b = KMer31::new(0x0123456789ABCDEF);
    assert_eq!(get_partition(&a, 7), 5);
    assert_eq!(get_partition(&a, 7), get_partition(&b, 7));
    assert_eq!(get_partition(&KMer31::new(12345), 7), 2);
    assert_eq!(get_partition(&KMer31::new(1), 1), 0);
}

#[test]
fn route_sends_each_word_to_its_owner() {
    let mut buckets = vec![vec![], vec![99u64], vec![], vec![], vec![], vec![], vec![]];
    route(&[0, 1, 12345, 1], &mut buckets);
    assert_eq!(buckets[4], vec![0]);
    assert_eq!(buckets[6], vec![1, 1]);
    assert_eq!(buckets[2], vec![12345]);
    assert_eq!(buckets[1], vec![99]);
    assert!(buckets[0].is_empty() && buckets[3].is_empty() && buckets[5].is_empty());
}

#[test]
fn kmer_counting_buckets_every_kmer() {
    let reads = vec![
        b"ACGTACGTACGTACGTACGTACGTACGTACGTACGT".to_vec(),
        b"AAAAAAAAAAAAAAAAAAAAAAAAAAAAAAANAAAAAAAAAAAAAAAAAAAAAAAAAAAAAAA".to_vec(),
    ];
    let mut buckets = vec![vec![]; 3];
    kmer_counting::<DNA, 31>(&reads, &mut buckets);
    let mut all: Vec<u64> = buckets.iter().flatten().copied().collect();
    let mut expected: Vec<u64> = reads.iter().flat_map(|r| canonical_kmers::<DNA, 31>(r)).collect();
    assert_eq!(all.len(), 8);
    all.sort();
    expected.sort();
    assert_eq!(all, expected);
    for (p, b) in buckets.iter().enumerate() {
        for w in b {
            assert_eq!(get_partition(&KMer31::new(*w), 3), p);
        }
    }
}

#[test]
fn update_kmer_appends_batch() {
    let mut store = vec![1u64, 2];
    update_kmer(&mut store, &[3, 4]);
    assert_eq!(store, vec![1, 2, 3, 4]);
}

#[test]
fn reader_tells_reads_from_headers_and_qualities() {
    let lines: Vec<&[u8]> = vec![
        b">f1", b"GGCC", b"", b"TTAA", b"@r1", b"ACGT", b"+", b"IIII", b"@r2", b"CCCC", b"+r2",
        b"@@@@",
    ];
    let mut reader = SeqReader::new();
    let reads: Vec<&[u8]> = lines.into_iter().filter(|l| reader.next_line(l)).collect();
    let expected: Vec<&[u8]> = vec![b"GGCC", b"TTAA", b"ACGT", b"CCCC"];
    assert_eq!(reads, expected);
}

#[test]
fn reader_skips_quality_lines_until_next_header() {
    let mut reader = SeqReader::new();
    assert!(!reader.next_line(b"+"));
    assert!(!reader.next_line(b"ACGT"));
    assert!(!reader.next_line(b">h"));
    assert!(!reader.next_line(b"ACGT"));
    assert!(!reader.next_line(b"@h"));
    assert!(reader.next_line(b"ACGT"));
}

#[test]
fn lines_split_on_newline() {
    let mut lines = Lines::new(b"ab\n\ncd\nrest");
    assert_eq!(lines.next(), Some(&b"ab"[..]));
    assert_eq!(lines.next(), Some(&b""[..]));
    assert_eq!(lines.next(), Some(&b"cd"[..]));
    assert_eq!(lines.next(), None);
    assert_eq!(lines.data, b"rest");
    let mut last = Lines::new(b"x\n");
    assert_eq!(last.next(), Some(&b"x"[..]));
    assert!(last.data.is_empty());
    assert_eq!(last.next(), None);
}

#[test]
fn fastq_buffer_to_histogram() {
    let text = b"@r1\nAAAAAAAAAAAAAAAAAAAAAAAAAAAAAAAA\n+\nIIIIIIIIIIIIIIIIIIIIIIIIIIIIIIII\n@r2\nTTTTTTTTTTTTTTTTTTTTTTTTTTTTTTT\n+\nIIIIIIIIIIIIIIIIIIIIIIIIIIIIIII\n";
    let mut lines = Lines::new(text);
    let mut reader = SeqReader::new();
    let mut reads = vec![];
    while let Some(line) = lines.next() {
        if reader.next_line(line) {
            reads.push(line.to_vec());
        }
    }
    assert_eq!(reads.len(), 2);
    let hist = count_reads::<DNA, 31>(&reads);
    assert_eq!(hist[2], 1);
    assert_eq!(weighted(&hist), 3);
}
