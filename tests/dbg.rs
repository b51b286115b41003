use tinydbg::dbg::{
    Dbg, DbgBuilder, DbgError, DenseDbg, DenseDbgBuilder, HashDbg, HashDbgBuilder, SparseDbg,
    SparseDbgBuilder,
};
use tinydbg::kmer::{Canonical, IntKmer, Kmer};

const KEYS: [u8; 9] = [0, 1, 7, 42, 99, 128, 200, 254, 255];

fn hash_index(keys: &[u8]) -> HashDbg<4, u8> {
    let mut b = HashDbgBuilder::<4, u8>::new();
    for &k in keys {
        b = b.insert(IntKmer::from_int(k));
    }
    b.build()
}

fn dense_index(keys: &[u8]) -> DenseDbg<4, u8> {
    let mut b = DenseDbgBuilder::<4, u8>::new();
    for &k in keys {
        b = b.insert(IntKmer::from_int(k));
    }
    b.build()
}

fn sparse_index(keys: &[u8]) -> SparseDbg<4, u8> {
    let mut b = SparseDbgBuilder::<4, u8>::new();
    for &k in keys {
        b = b.insert(IntKmer::from_int(k));
    }
    b.build()
}

#[test]
fn hash_index_holds_exactly_the_inserted_keys() {
    let index = hash_index(&KEYS);
    for k in 0..=255u8 {
        assert_eq!(index.contains(IntKmer::from_int(k)), KEYS.contains(&k), "key {k}");
    }
}

#[test]
fn dense_index_holds_exactly_the_inserted_keys() {
    let index = dense_index(&KEYS);
    for k in 0..=255u8 {
        assert_eq!(index.contains(IntKmer::from_int(k)), KEYS.contains(&k), "key {k}");
    }
}

#[test]
fn sparse_index_holds_exactly_the_inserted_keys() {
    let index = sparse_index(&KEYS);
    for k in 0..=255u8 {
        assert_eq!(index.contains(IntKmer::from_int(k)), KEYS.contains(&k), "key {k}");
    }
}

#[test]
fn inserts_are_order_independent_and_idempotent() {
    let shuffled = [255u8, 7, 0, 200, 42, 7, 1, 254, 99, 128, 0, 255];
    let a = sparse_index(&shuffled);
    let b = dense_index(&shuffled);
    let c = hash_index(&shuffled);
    for k in 0..=255u8 {
        let expected = KEYS.contains(&k);
        assert_eq!(a.contains(IntKmer::from_int(k)), expected);
        assert_eq!(b.contains(IntKmer::from_int(k)), expected);
        assert_eq!(c.contains(IntKmer::from_int(k)), expected);
    }
}

#[test]
fn empty_indexes_hold_nothing() {
    let a = sparse_index(&[]);
    let b = dense_index(&[]);
    let c = hash_index(&[]);
    for k in 0..=255u8 {
        assert!(!a.contains(IntKmer::from_int(k)));
        assert!(!b.contains(IntKmer::from_int(k)));
        assert!(!c.contains(IntKmer::from_int(k)));
    }
}

#[test]
fn dense_index_round_trips_through_bytes() {
    let index = dense_index(&KEYS);
    let mut bytes = Vec::new();
    let n = index.serialize_into(&mut bytes);
    assert_eq!(n, bytes.len());
    assert_eq!(n, index.size_in_bytes());
    let back = DenseDbg::<4, u8>::deserialize_from(&bytes).unwrap();
    for k in 0..=255u8 {
        assert_eq!(back.contains(IntKmer::from_int(k)), index.contains(IntKmer::from_int(k)));
    }
}

#[test]
fn sparse_index_round_trips_through_bytes() {
    let index = sparse_index(&KEYS);
    let mut bytes = vec![9u8];
    let n = index.serialize_into(&mut bytes);
    assert_eq!(n + 1, bytes.len());
    assert_eq!(n, index.size_in_bytes());
    let back = SparseDbg::<4, u8>::deserialize_from(&bytes[1..]).unwrap();
    for k in 0..=255u8 {
        assert_eq!(back.contains(IntKmer::from_int(k)), index.contains(IntKmer::from_int(k)));
    }
}

#[test]
fn empty_sparse_index_round_trips_through_bytes() {
    let index = sparse_index(&[]);
    let mut bytes = Vec::new();
    index.serialize_into(&mut bytes);
    let back = SparseDbg::<4, u8>::deserialize_from(&bytes).unwrap();
    for k in 0..=255u8 {
        assert!(!back.contains(IntKmer::from_int(k)));
    }
}

#[test]
fn truncated_bytes_are_corrupt() {
    assert_eq!(DenseDbg::<4, u8>::deserialize_from(&[]).err(), Some(DbgError::Corrupt));
    assert_eq!(SparseDbg::<4, u8>::deserialize_from(&[1, 2, 3]).err(), Some(DbgError::Corrupt));
    let index = dense_index(&KEYS);
    let mut bytes = Vec::new();
    index.serialize_into(&mut bytes);
    bytes.truncate(bytes.len() - 1);
    assert_eq!(DenseDbg::<4, u8>::deserialize_from(&bytes).err(), Some(DbgError::Corrupt));
}

#[test]
fn bytes_of_another_length_are_a_mismatch() {
    let mut b = DenseDbgBuilder::<3, u8>::new();
    b = b.insert(IntKmer::from_int(5));
    let small = b.build();
    let mut bytes = Vec::new();
    small.serialize_into(&mut bytes);
    assert_eq!(DenseDbg::<4, u8>::deserialize_from(&bytes).err(), Some(DbgError::Mismatch));

    let mut s = SparseDbgBuilder::<3, u8>::new();
    s = s.insert(IntKmer::from_int(5));
    let small = s.build();
    let mut bytes = Vec::new();
    small.serialize_into(&mut bytes);
    assert_eq!(SparseDbg::<4, u8>::deserialize_from(&bytes).err(), Some(DbgError::Mismatch));
}

fn canonical_kmers(seq: &[u8]) -> Vec<IntKmer<4, u8>> {
    let mut it = IntKmer::<4, u8>::iter_from_chars(seq);
    it.collect_kmers().iter().map(|k| k.canonical()).collect()
}

#[test]
fn repeating_sequence_is_found_in_every_backend() {
    let seq = b"ACGTACGTACGT";
    let kmers = canonical_kmers(seq);
    assert_eq!(kmers.len(), 9);
    let mut h = HashDbgBuilder::<4, u8>::new();
    let mut d = DenseDbgBuilder::<4, u8>::new();
    let mut s = SparseDbgBuilder::<4, u8>::new();
    for &k in &kmers {
        h = h.insert(k);
        d = d.insert(k);
        s = s.insert(k);
    }
    let (h, d, s) = (h.build(), d.build(), s.build());
    for k in canonical_kmers(seq) {
        assert!(h.contains(k));
        assert!(d.contains(k));
        assert!(s.contains(k));
    }
    // ACGT, CGTA, GTAC, TACG canonicalise to ACGT, CGTA, GTAC, CGTA.
    let distinct = (0..=255u8).filter(|&k| s.contains(IntKmer::from_int(k))).count();
    assert_eq!(distinct, 3);
}

#[test]
fn successors_of_a_linear_sequence() {
    let seq = b"ACCGTTAGCAT";
    let mut it = IntKmer::<4, u8>::iter_from_chars(seq);
    let kmers = it.collect_kmers();
    let mut b = SparseDbgBuilder::<4, u8>::new();
    let mut h = HashDbgBuilder::<4, u8>::new();
    let mut d = DenseDbgBuilder::<4, u8>::new();
    for &k in &kmers {
        b = b.insert(k);
        h = h.insert(k);
        d = d.insert(k);
    }
    let (s, h, d) = (b.build(), h.build(), d.build());
    for (i, &k) in kmers.iter().enumerate() {
        for next in [s.successors(k), h.successors(k), d.successors(k)] {
            for &n in &next {
                assert!(s.contains(n));
            }
            if i + 1 < kmers.len() {
                assert_eq!(next.len(), 1);
                assert_eq!(next[0].to_int(), kmers[i + 1].to_int());
            } else {
                assert!(next.is_empty());
            }
        }
    }
}

#[test]
fn successors_keep_code_order() {
    let mut b = HashDbgBuilder::<3, u8>::new();
    for s in [b"CGT", b"CGA", b"CGG"] {
        b = b.insert(IntKmer::from_chars(s));
    }
    let index = b.build();
    let next: Vec<Vec<u8>> =
        index.successors(IntKmer::from_chars(b"ACG")).iter().map(|k| k.to_chars().to_vec()).collect();
    assert_eq!(next, vec![b"CGA".to_vec(), b"CGG".to_vec(), b"CGT".to_vec()]);
}

#[test]
fn wide_kmers_in_hash_and_sparse_indexes() {
    let seq = b"CATAATCCAGCTTAGGACCATGACGATTACAGATTACA";
    let mut it = IntKmer::<31, u64>::iter_from_chars(seq);
    let kmers = it.collect_kmers();
    assert_eq!(kmers.len(), seq.len() - 31 + 1);
    let mut h = HashDbgBuilder::<31, u64>::new();
    for &k in &kmers {
        h = h.insert(k.canonical());
    }
    let h = h.build();
    let mut s = SparseDbgBuilder::<31, u64>::new();
    let mut it30 = IntKmer::<31, u64>::iter_from_chars(seq);
    let kmers30 = it30.collect_kmers();
    for &k in &kmers30 {
        s = s.insert(k.canonical());
    }
    let s = s.build();
    for &k in &kmers {
        assert!(h.contains(k.rev_comp().canonical()));
    }
    for &k in &kmers30 {
        assert!(s.contains(k.rev_comp().canonical()));
    }
    assert!(!h.contains(IntKmer::from_int(0)));
    assert!(!s.contains(IntKmer::from_int(0)));
}

fn words(ws: &[u64]) -> Vec<u8> {
    ws.iter().flat_map(|w| w.to_le_bytes()).collect()
}

#[test]
fn oversized_length_prefix_is_corrupt() {
    let short = words(&[1u64 << 60]);
    assert_eq!(DenseDbg::<4, u8>::deserialize_from(&short).err(), Some(DbgError::Corrupt));
    assert_eq!(SparseDbg::<4, u8>::deserialize_from(&short).err(), Some(DbgError::Corrupt));
    let long = words(&[1u64 << 60, 256, 0]);
    assert_eq!(DenseDbg::<4, u8>::deserialize_from(&long).err(), Some(DbgError::Corrupt));
    assert_eq!(SparseDbg::<4, u8>::deserialize_from(&long).err(), Some(DbgError::Corrupt));
}

#[test]
fn bit_length_beyond_the_words_is_corrupt() {
    let bytes = words(&[0, 256]);
    assert_eq!(DenseDbg::<4, u8>::deserialize_from(&bytes).err(), Some(DbgError::Corrupt));
    let too_many_words = words(&[5, 0, 0, 0, 0, 0, 256]);
    assert_eq!(DenseDbg::<4, u8>::deserialize_from(&too_many_words).err(), Some(DbgError::Corrupt));
}

#[test]
fn empty_bytes_are_corrupt() {
    assert_eq!(DenseDbg::<4, u8>::deserialize_from(&[]).err(), Some(DbgError::Corrupt));
    assert_eq!(SparseDbg::<4, u8>::deserialize_from(&[]).err(), Some(DbgError::Corrupt));
}

#[test]
fn every_strict_prefix_is_corrupt() {
    let mut dense = Vec::new();
    dense_index(&KEYS).serialize_into(&mut dense);
    for len in 0..dense.len() {
        assert_eq!(DenseDbg::<4, u8>::deserialize_from(&dense[..len]).err(), Some(DbgError::Corrupt), "len {len}");
    }
    let mut sparse = Vec::new();
    sparse_index(&KEYS).serialize_into(&mut sparse);
    for len in 0..sparse.len() {
        assert_eq!(SparseDbg::<4, u8>::deserialize_from(&sparse[..len]).err(), Some(DbgError::Corrupt), "len {len}");
    }
}

#[test]
fn sparse_stored_form_is_universe_count_then_keys() {
    let mut bytes = Vec::new();
    let n = sparse_index(&[7, 42, 3]).serialize_into(&mut bytes);
    assert_eq!(bytes, words(&[256, 3, 3, 7, 42]));
    assert_eq!(n, 40);
    assert_eq!(sparse_index(&[7, 42, 3]).size_in_bytes(), 40);
}

#[test]
fn unsorted_or_out_of_range_sparse_keys_are_a_mismatch() {
    let unsorted = words(&[256, 2, 9, 4]);
    assert_eq!(SparseDbg::<4, u8>::deserialize_from(&unsorted).err(), Some(DbgError::Mismatch));
    let repeated = words(&[256, 2, 9, 9]);
    assert_eq!(SparseDbg::<4, u8>::deserialize_from(&repeated).err(), Some(DbgError::Mismatch));
    let beyond = words(&[256, 1, 256]);
    assert_eq!(SparseDbg::<4, u8>::deserialize_from(&beyond).err(), Some(DbgError::Mismatch));
    let ok = words(&[256, 2, 4, 9]);
    let index = SparseDbg::<4, u8>::deserialize_from(&ok).unwrap();
    for k in 0..=255u8 {
        assert_eq!(index.contains(IntKmer::from_int(k)), k == 4 || k == 9);
    }
}

#[test]
fn dense_size_depends_on_k_only() {
    assert_eq!(dense_index(&KEYS).size_in_bytes(), 16 + 8 * 4);
    assert_eq!(dense_index(&[]).size_in_bytes(), 16 + 8 * 4);
    let mut b = DenseDbgBuilder::<3, u8>::new();
    b = b.insert(IntKmer::from_int(1));
    assert_eq!(b.build().size_in_bytes(), 16 + 8);
}
