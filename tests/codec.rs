use tinydbg::kmer::{Base, Canonical, IntKmer, Kmer};

#[test]
fn decode_then_encode_gives_each_base_back() {
    for &c in b"ACGT" {
        let code = u8::from_char(&c).unwrap();
        assert_eq!(code.to_char(), c);
        let wide = u64::from_char(&c).unwrap();
        assert_eq!(wide.to_char(), c);
    }
}

#[test]
fn codes_follow_alphabetical_order() {
    assert_eq!(u16::from_char(&b'A'), Some(0));
    assert_eq!(u16::from_char(&b'C'), Some(1));
    assert_eq!(u16::from_char(&b'G'), Some(2));
    assert_eq!(u16::from_char(&b'T'), Some(3));
    assert_eq!(u32::bases(), [0, 1, 2, 3]);
}

#[test]
fn other_bytes_are_not_bases() {
    for &c in b"acgtNn-X \n" {
        assert_eq!(u8::from_char(&c), None);
    }
}

#[test]
fn atcg_packs_and_unpacks() {
    let kmer = IntKmer::<4, u8>::from_chars(b"ATCG");
    // A=0, T=3, C=1, G=2: 00 11 01 10
    assert_eq!(kmer.to_int(), 0b0011_0110);
    assert_eq!(kmer.to_chars(), *b"ATCG");
    assert_eq!(kmer.rev_comp().to_chars(), *b"CGAT");
}

#[test]
fn from_chars_skips_other_bytes_and_stops_after_k() {
    let kmer = IntKmer::<3, u16>::from_chars(b"xA-C\nGTT");
    assert_eq!(kmer.to_chars(), *b"ACG");
}

#[test]
fn from_chars_with_too_few_bases_packs_those_found() {
    let kmer = IntKmer::<4, u32>::from_chars(b"CG");
    assert_eq!(kmer.to_int(), 0b0110);
    let empty = IntKmer::<4, u32>::from_chars(b"");
    assert_eq!(empty.to_int(), 0);
}

#[test]
fn mask_covers_two_bits_per_base() {
    assert_eq!(IntKmer::<3, u8>::mask(), 0b11_1111);
    assert_eq!(IntKmer::<4, u8>::mask(), 0xff);
    assert_eq!(IntKmer::<64, u128>::mask(), u128::MAX);
}

#[test]
fn append_drops_the_oldest_base() {
    let kmer = IntKmer::<3, u8>::from_chars(b"ACG");
    assert_eq!(kmer.append(3).to_chars(), *b"CGT");
    let full = IntKmer::<4, u8>::from_chars(b"TTTT");
    assert_eq!(full.append(0).to_chars(), *b"TTTA");
}

#[test]
fn extend_keeps_every_base() {
    let kmer = IntKmer::<4, u8>::empty().extend(2).extend(1);
    assert_eq!(kmer.to_int(), 0b1001);
}

#[test]
fn successors_extend_in_code_order() {
    let kmer = IntKmer::<3, u8>::from_chars(b"GAT");
    let next: Vec<Vec<u8>> = kmer.successors().iter().map(|k| k.to_chars().to_vec()).collect();
    assert_eq!(next, vec![b"ATA".to_vec(), b"ATC".to_vec(), b"ATG".to_vec(), b"ATT".to_vec()]);
}

#[test]
fn reverse_complement_of_full_width_kmers() {
    let kmer = IntKmer::<32, u64>::from_chars(b"AAAAAAAAAAAAAAAAAAAAAAAAAAAAAAAC");
    assert_eq!(kmer.rev_comp().to_chars(), *b"GTTTTTTTTTTTTTTTTTTTTTTTTTTTTTTT");
    let wide = IntKmer::<64, u128>::from_int(0);
    assert_eq!(wide.rev_comp().to_int(), u128::MAX);
}

#[test]
fn canonical_picks_the_smaller_strand() {
    let kmer = IntKmer::<4, u8>::from_chars(b"TTGC");
    assert_eq!(kmer.canonical().to_chars(), *b"GCAA");
    let low = IntKmer::<4, u8>::from_chars(b"ACCC");
    assert_eq!(low.canonical().to_chars(), *b"ACCC");
    let palindrome = IntKmer::<4, u8>::from_chars(b"ACGT");
    assert_eq!(palindrome.canonical().to_chars(), *b"ACGT");
}

#[test]
fn canonical_is_idempotent_and_strand_independent() {
    for i in 0..=255u8 {
        let kmer = IntKmer::<4, u8>::from_int(i);
        let c = kmer.canonical();
        assert_eq!(c.canonical().to_int(), c.to_int());
        assert_eq!(kmer.rev_comp().canonical().to_int(), c.to_int());
        assert_eq!(kmer.rev_comp().rev_comp().to_int(), i);
    }
}

#[test]
fn generator_yields_one_kmer_per_window() {
    let mut it = IntKmer::<3, u8>::iter_from_chars(b"ACGTA");
    let kmers: Vec<Vec<u8>> = it.collect_kmers().iter().map(|k| k.to_chars().to_vec()).collect();
    assert_eq!(kmers, vec![b"ACG".to_vec(), b"CGT".to_vec(), b"GTA".to_vec()]);
    assert!(it.next().is_none());
}

#[test]
fn generator_skips_other_bytes() {
    let mut it = IntKmer::<2, u8>::iter_from_chars(b"A\nC-g G");
    let kmers: Vec<Vec<u8>> = it.collect_kmers().iter().map(|k| k.to_chars().to_vec()).collect();
    assert_eq!(kmers, vec![b"AC".to_vec(), b"CG".to_vec()]);
}

#[test]
fn generator_on_short_input_yields_nothing() {
    let mut it = IntKmer::<4, u8>::iter_from_chars(b"ACG");
    assert!(it.next().is_none());
    assert!(it.next().is_none());
    let mut exact = IntKmer::<4, u8>::iter_from_chars(b"ACGT");
    assert_eq!(exact.collect_kmers().len(), 1);
}

#[test]
fn generator_count_is_length_minus_k_plus_one() {
    let seq: Vec<u8> = b"ACGTTGCAAGGCTTAC".to_vec();
    for len in 0..=seq.len() {
        let mut it = IntKmer::<5, u32>::iter_from_chars(&seq[..len]);
        let expected = if len >= 5 { len - 5 + 1 } else { 0 };
        let kmers = it.collect_kmers();
        assert_eq!(kmers.len(), expected);
        for (i, k) in kmers.iter().enumerate() {
            assert_eq!(k.to_chars().to_vec(), seq[i..i + 5].to_vec());
        }
    }
}

#[test]
fn generator_over_codes() {
    let mut it = IntKmer::<2, u64>::iter_from_bases(vec![3, 0, 1]);
    assert_eq!(it.next().map(|k| k.to_chars()), Some(*b"TA"));
    assert_eq!(it.next().map(|k| k.to_chars()), Some(*b"AC"));
    assert!(it.next().is_none());
}
