use tinydbg::kmer::{Canonical, IntKmer, Kmer};

#[test]
fn test_rc_8() {
    let kmer = IntKmer::<4, u8>::from_chars(b"ATCG");
    assert_eq!(kmer.rev_comp().to_chars(), *b"CGAT");
}

#[test]
fn test_rc_16() {
    let kmer = IntKmer::<4, u16>::from_chars(b"ATCG");
    assert_eq!(kmer.rev_comp().to_chars(), *b"CGAT");
}

#[test]
fn test_rc_32() {
    let kmer = IntKmer::<11, u32>::from_chars(b"CATAATCCAGC");
    assert_eq!(kmer.rev_comp().to_chars(), *b"GCTGGATTATG");
}

#[test]
fn test_rc_64() {
    let kmer = IntKmer::<11, u64>::from_chars(b"CATAATCCAGC");
    assert_eq!(kmer.rev_comp().to_chars(), *b"GCTGGATTATG");
}

#[test]
fn test_rc_128() {
    let kmer = IntKmer::<11, u128>::from_chars(b"CATAATCCAGC");
    assert_eq!(kmer.rev_comp().to_chars(), *b"GCTGGATTATG");
}

#[test]
fn rc_rc_8() {
    for i in 0..64 {
        let kmer = IntKmer::<3, u8>::from_int(i);
        assert_eq!(kmer.rev_comp().rev_comp().to_int(), i);
    }
}

#[test]
fn rc_rc_16() {
    for i in 0..16384 {
        let kmer = IntKmer::<7, u16>::from_int(i);
        assert_eq!(kmer.rev_comp().rev_comp().to_int(), i);
    }
}

#[test]
fn rc_rc_32() {
    for i in 0..1_000_000 {
        let kmer = IntKmer::<15, u32>::from_int(i);
        assert_eq!(kmer.rev_comp().rev_comp().to_int(), i);
    }
}

#[test]
fn rc_rc_64() {
    for i in 0..1_000_000 {
        let kmer = IntKmer::<15, u64>::from_int(i);
        assert_eq!(kmer.rev_comp().rev_comp().to_int(), i);
    }
}

#[test]
fn rc_rc_128() {
    for i in 0..1_000_000 {
        let kmer = IntKmer::<15, u128>::from_int(i);
        assert_eq!(kmer.rev_comp().rev_comp().to_int(), i);
    }
}
