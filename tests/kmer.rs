use kmer_count::kmer::reverse_u64_pack_2;
use kmer_count::kmer::AbstractKMer;
use kmer_count::kmer::Alphabet;
use kmer_count::kmer::KMeru64;
use kmer_count::kmer::DNA;

type KMer31 = KMeru64<DNA, 31>;

#[test]
fn test_reverse_u64_pack_2() {
    let data: u64 = 0x0123456789ABCDEF;
    assert_eq!(reverse_u64_pack_2(reverse_u64_pack_2(data)), data)
}

#[test]
fn test_parse() {
    let read = "TCGCGTAGCTAGCATATATTCGCGGCTAGTAC";
    let kmer = read.parse::<KMer31>().unwrap();
    assert_eq!(&kmer.to_string(), &read[..KMer31::kmer_len()]);
}

#[test]
fn test_get_unit() {
    let read = "AAAAAAAAAAAAAAAAAAAAAAAAAAAAAAAA";
    let mut kmer = read.parse::<KMer31>().unwrap();
    kmer.set_unit(1, DNA::to_unit(b'C').unwrap());
    assert_eq!(DNA::to_u8(kmer.get_unit(1)).unwrap(), b'C');
}

#[test]
fn test_complement() {
    let kmer = "AAAAAAAAAAAAAAAAAAAAAAAAAAACCCC".parse::<KMer31>().unwrap();
    let comp = "TTTTTTTTTTTTTTTTTTTTTTTTTTTGGGG".parse::<KMer31>().unwrap();
    assert_eq!(kmer.complement(), comp);
}

#[test]
fn test_reverse() {
    let kmer = "AAAAAAAAAAAAAAAAAAAAAAAAAAACCCC".parse::<KMer31>().unwrap();
    let reverse = "CCCCAAAAAAAAAAAAAAAAAAAAAAAAAAA".parse::<KMer31>().unwrap();
    assert_eq!(kmer.reverse(), reverse);
}

#[test]
fn test_canonical() {
    let kmer = "CCCCAAAAAAAAAAAAAAAAAAAAAAAAAAA".parse::<KMer31>().unwrap();
    assert_eq!(kmer, kmer.get_canonical());

    let kmer = "GGGGGGGGGGGGGGGGGGGGGGGGGGGCCCC".parse::<KMer31>().unwrap();
    let c = "GGGGCCCCCCCCCCCCCCCCCCCCCCCCCCCC".parse::<KMer31>().unwrap();
    assert_eq!(c, kmer.get_canonical());
}

#[test]
fn test_extend() {
    let kmer = "CCCCAAAAAAAAAAAAAAAAAAAAAAAAAAA".parse::<KMer31>().unwrap();
    let kmer_e = "CCCAAAAAAAAAAAAAAAAAAAAAAAAAAAT".parse::<KMer31>().unwrap();
    assert_eq!(kmer.extend(b'T').unwrap(), kmer_e);
}

#[test]
fn round_trip_of_every_symbol() {
    let read = "ACGTTGCAACGTTGCAACGTTGCAACGTTGC";
    let kmer = KMer31::from_bytes(read.as_bytes()).unwrap();
    assert_eq!(kmer.to_string(), read);
}

#[test]
fn from_bytes_rejects_short_and_invalid() {
    assert!(KMer31::from_bytes(b"ACGT").is_none());
    assert!(KMer31::from_bytes(b"AAAAAAAAAAAAAAANAAAAAAAAAAAAAAA").is_none());
    assert!("ACGTN".parse::<KMer31>().is_err());
}

#[test]
fn from_bytes_packs_right_aligned() {
    let kmer = KMer31::from_bytes(b"ACGTACGTACGTACGTACGTACGTACGTACG").unwrap();
    assert_eq!(kmer.data, 0x06c6c6c6c6c6c6c6);
    let t = KMer31::from_bytes(b"TTTTTTTTTTTTTTTTTTTTTTTTTTTTTTT").unwrap();
    assert_eq!(t.data, (1u64 << 62) - 1);
    assert_eq!(t.data >> 62, 0);
}

#[test]
fn extend_slides_window_and_rejects_invalid_base() {
    let kmer = "ACGTACGTACGTACGTACGTACGTACGTACG".parse::<KMer31>().unwrap();
    let next = kmer.extend(b'G').unwrap();
    assert_eq!(next.to_string(), "CGTACGTACGTACGTACGTACGTACGTACGG");
    assert!(kmer.extend(b'N').is_none());
    assert!(kmer.extend(b'a').is_none());
}

#[test]
fn extend_clears_the_bits_above_the_kmer() {
    let kmer = KMer31::new(u64::MAX);
    let next = kmer.extend(b'A').unwrap();
    assert_eq!(next.data, (1u64 << 62) - 4);
}

#[test]
fn complement_twice_is_identity() {
    let kmer = "ACGTTGCAACGTTGCAACGTTGCAACGTTGC".parse::<KMer31>().unwrap();
    assert_eq!(kmer.complement().complement(), kmer);
    assert_eq!(kmer.complement().to_string(), "TGCAACGTTGCAACGTTGCAACGTTGCAACG");
}

#[test]
fn reverse_twice_is_identity() {
    let kmer = "ACGTTGCAACGTTGCAACGTTGCAACGTTGA".parse::<KMer31>().unwrap();
    assert_eq!(kmer.reverse().reverse(), kmer);
    assert_eq!(kmer.reverse().to_string(), "AGTTGCAACGTTGCAACGTTGCAACGTTGCA");
}

#[test]
fn complement_and_reverse_commute() {
    let kmer = "AACCCGGGGTTTTTACGATCGATCGGCTAAC".parse::<KMer31>().unwrap();
    assert_eq!(kmer.reverse().complement(), kmer.complement().reverse());
}

#[test]
fn canonical_is_idempotent_and_strand_agnostic() {
    let kmer = "TTGCAGCATCGACTACGACTAGCAGCATCAG".parse::<KMer31>().unwrap();
    let c = kmer.get_canonical();
    assert_eq!(c.get_canonical(), c);
    let rc = kmer.reverse().complement();
    assert_eq!(rc.get_canonical(), c);
    assert!(c.data <= kmer.data && c.data <= rc.data);
}

#[test]
fn reverse_u64_pack_2_reverses_units() {
    assert_eq!(reverse_u64_pack_2(0x0123456789ABCDEF), 0xfb73ea62d951c840);
    assert_eq!(reverse_u64_pack_2(1), 1u64 << 62);
}

#[test]
fn reverse_scenario() {
    let kmer = "CCCCAAAAAAAAAAAAAAAAAAAAAAAAAAA".parse::<KMer31>().unwrap();
    assert_eq!(kmer.reverse().to_string(), "AAAAAAAAAAAAAAAAAAAAAAAAAAACCCC");
}

#[test]
fn short_kmer_lengths() {
    let k1 = "G".parse::<KMeru64<DNA, 1>>().unwrap();
    assert_eq!(k1.extend(b'T').unwrap().to_string(), "T");
    assert_eq!(k1.complement().to_string(), "C");
    let k32 = "ACGTACGTACGTACGTACGTACGTACGTACGT".parse::<KMeru64<DNA, 32>>().unwrap();
    assert_eq!(k32.reverse().to_string(), "TGCATGCATGCATGCATGCATGCATGCATGCA");
    assert_eq!(k32.complement().complement(), k32);
}

#[test]
fn default_and_sizes() {
    let k: KMer31 = Default::default();
    assert_eq!(k.data, 0);
    assert_eq!(k.to_string(), "AAAAAAAAAAAAAAAAAAAAAAAAAAAAAAA");
    assert_eq!(KMer31::unused_bits(), 2);
    assert_eq!(KMer31::used_bits(), 62);
    assert_eq!(KMer31::data_len(), 64);
    assert_eq!(KMer31::unit_num(), 32);
}

#[test]
fn ordering_follows_the_word() {
    let a = "ACGTACGTACGTACGTACGTACGTACGTACG".parse::<KMer31>().unwrap();
    let c = "CAAAAAAAAAAAAAAAAAAAAAAAAAAAAAA".parse::<KMer31>().unwrap();
    assert!(a < c);
    assert_eq!(a.cmp(&c), a.data.cmp(&c.data));
}
