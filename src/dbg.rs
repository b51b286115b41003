//! Membership indexes over packed k-mers: a hash set, a dense bit vector and a sparse
//! Elias-Fano sequence, behind one builder and query contract.
use crate::backing::{
    bit_vector_bits, bit_vector_bytes, bit_vector_from_bit, bit_vector_get_bit, bit_vector_read,
    bit_vector_set_bit, bit_vector_size, bit_vector_write, builder_capacity, builder_universe,
    builder_values, count_less, elias_fano_build, elias_fano_builder_new, elias_fano_builder_push,
    elias_fano_enable_rank, elias_fano_has_rank, elias_fano_len, elias_fano_rank, elias_fano_select,
    elias_fano_universe, elias_fano_universe_of, elias_fano_values, key_set_contains,
    key_set_insert, key_set_new, KeySet,
};
use std::collections::BTreeSet;
use vstd::std_specs::btree::{increasing_seq, spec_btree_keys_iter};
use vstd::std_specs::cmp::OrdSpec;
use vstd::std_specs::iter::IteratorSpec;
use sucds::bit_vectors::BitVector;
use sucds::mii_sequences::EliasFano;
use crate::backing::{bit_vector_framed, framed_bit_len, elias_fano_sound};
use crate::frame::{push_word, read_word, word_at, word_bytes, words_bytes};
use crate::kmer::{fits, Base, IntKmer, Kmer};
use crate::model::{extensions_in, pow4, slide, successor_keys};
use std::marker::PhantomData;
use vstd::prelude::*;

verus! {

/// A finished index: a set of packed k-mer keys.
pub trait Dbg<const K: usize, T: Base, KT: Kmer<K, T>> {
    /// The keys held.
    spec fn keys(&self) -> Set<nat>;

    /// The internal invariant of the index.
    spec fn wf(&self) -> bool;

    /// Whether the key of `kmer` is held.
    fn contains(&self, kmer: KT) -> (r: bool)
        requires
            self.wf(),
            kmer.value() < pow4(K as nat),
        ensures
            r == self.keys().contains(kmer.value()),
    ;

    /// The one-base right extensions of `kmer` that are held, in the order A, C, G, T.
    fn successors(&self, kmer: KT) -> (r: Vec<KT>)
        requires
            self.wf(),
            fits::<T>(K as nat),
            kmer.value() < pow4(K as nat),
        ensures
            r@.map_values(|x: KT| x.value()) == successor_keys(self.keys(), kmer.value(), K as nat),
    {
        let ext = kmer.successors();
        let mut res: Vec<KT> = Vec::new();
        let mut i: usize = 0;
        while i < 4
            invariant
                fits::<T>(K as nat),
                self.wf(),
                i <= 4,
                forall|j: int| 0 <= j < 4 ==> (#[trigger] ext[j]).value() == slide(kmer.value(), j as nat, K as nat),
                res@.map_values(|x: KT| x.value()) == extensions_in(self.keys(), kmer.value(), K as nat, i as nat),
            decreases 4 - i,
        {
            proof {
                crate::model::lemma_pow4_pos(K as nat);
                vstd::arithmetic::div_mod::lemma_mod_bound(
                    (kmer.value() * 4 + i) as int,
                    pow4(K as nat) as int,
                );
            }
            let x = ext[i];
            if self.contains(x) {
                res.push(x);
                proof {
                    assert(res@.map_values(|x: KT| x.value()) =~= extensions_in(
                        self.keys(),
                        kmer.value(),
                        K as nat,
                        i as nat,
                    ).push(x.value()));
                }
            }
            i = i + 1;
        }
        res
    }
}

/// The accumulation state of an index: keys are inserted, then the index is built once.
pub trait DbgBuilder<const K: usize, T: Base, KT: Kmer<K, T>, DT: Dbg<K, T, KT>>: Sized {
    /// The keys inserted so far.
    spec fn inserted(&self) -> Set<nat>;

    /// The internal invariant of the builder.
    spec fn ready(&self) -> bool;

    /// Whether this backend can hold k-mers of length `K` in type `T`.
    spec fn supported() -> bool;

    /// An empty builder.
    fn new() -> (r: Self)
        requires
            Self::supported(),
        ensures
            r.ready(),
            r.inserted() == Set::<nat>::empty(),
    ;

    /// Add the key of `kmer`; inserting a key twice is the same as once.
    fn insert(self, kmer: IntKmer<K, T>) -> (r: Self)
        requires
            self.ready(),
            kmer.value() < pow4(K as nat),
        ensures
            r.ready(),
            r.inserted() == self.inserted().insert(kmer.value()),
    ;

    /// The index of the inserted keys.
    fn build(self) -> (r: DT)
        requires
            self.ready(),
        ensures
            r.wf(),
            r.keys() == self.inserted(),
    ;
}

/// An index held in a hash set; any `K` that fits `T`.
pub struct HashDbg<const K: usize, T: Base> {
    data: KeySet,
    phantom: PhantomData<T>,
}

/// The hash index is its own builder.
pub type HashDbgBuilder<const K: usize, T> = HashDbg<K, T>;

impl<const K: usize, T: Base> HashDbg<K, T> {
    /// The keys of the set.
    pub closed spec fn held(&self) -> Set<nat> {
        Set::new(|k: nat| k <= u128::MAX && self.data@.contains(k as u128))
    }
}

impl<const K: usize, T: Base> Dbg<K, T, IntKmer<K, T>> for HashDbg<K, T> {
    closed spec fn keys(&self) -> Set<nat> {
        self.held()
    }

    closed spec fn wf(&self) -> bool {
        fits::<T>(K as nat)
    }

    fn contains(&self, kmer: IntKmer<K, T>) -> (r: bool) {
        key_set_contains(&self.data, kmer.to_int().to_wide())
    }
}

impl<const K: usize, T: Base> DbgBuilder<K, T, IntKmer<K, T>, HashDbg<K, T>> for HashDbg<K, T> {
    closed spec fn inserted(&self) -> Set<nat> {
        self.held()
    }

    closed spec fn ready(&self) -> bool {
        fits::<T>(K as nat)
    }

    open spec fn supported() -> bool {
        fits::<T>(K as nat)
    }

    fn new() -> (r: Self) {
        let r = HashDbg { data: key_set_new(), phantom: PhantomData };
        proof {
            assert(r.held() =~= Set::<nat>::empty());
        }
        r
    }

    fn insert(self, kmer: IntKmer<K, T>) -> (r: Self) {
        let mut s = self;
        key_set_insert(&mut s.data, kmer.to_int().to_wide());
        proof {
            assert(s.held() =~= self.held().insert(kmer.value()));
        }
        s
    }

    fn build(self) -> (r: HashDbg<K, T>) {
        self
    }
}

/// Why stored index bytes could not be read back.
#[derive(Debug, Clone, Copy, PartialEq, Eq)]
pub enum DbgError {
    /// The bytes do not decode as the stored structure.
    Corrupt,
    /// The bytes decode, but not to an index of this k-mer length.
    Mismatch,
}

/// The dense and sparse indexes take k-mers of length `k` when their universe `4^k`
/// is addressable: `k <= 31`, and `4^k` fits a `usize`.
pub open spec fn universe_fits(k: nat) -> bool {
    k <= 31 && pow4(k) <= usize::MAX
}

/// The universe of the dense and sparse indexes fits a `usize` with room to spare.
proof fn lemma_universe_bound(k: nat)
    requires
        universe_fits(k),
    ensures
        pow4(k) <= 0x4000_0000_0000_0000,
        pow4(k) <= usize::MAX,
{
    reveal_with_fuel(pow4, 32);
    crate::model::lemma_pow4_mono(k, 31);
}

/// `4^k` as a `usize`.
fn universe_size(k: usize) -> (r: usize)
    requires
        universe_fits(k as nat),
    ensures
        r == pow4(k as nat),
        r <= 0x4000_0000_0000_0000,
{
    proof {
        lemma_universe_bound(k as nat);
    }
    let mut r: usize = 1;
    let mut i: usize = 0;
    while i < k
        invariant
            i <= k,
            universe_fits(k as nat),
            r == pow4(i as nat),
        decreases k - i,
    {
        proof {
            crate::model::lemma_pow4_mono((i + 1) as nat, k as nat);
            assert(pow4((i + 1) as nat) == 4 * pow4(i as nat));
        }
        r = r * 4;
        i = i + 1;
    }
    r
}

/// An index held in a bit vector with one bit per possible key: `4^K` bits.
pub struct DenseDbg<const K: usize, T: Base> {
    data: BitVector,
    phantom: PhantomData<T>,
}

/// The dense index is its own builder.
pub type DenseDbgBuilder<const K: usize, T> = DenseDbg<K, T>;

impl<const K: usize, T: Base> DenseDbg<K, T> {
    /// The positions of the set bits.
    pub closed spec fn held(&self) -> Set<nat> {
        Set::new(
            |k: nat| k < bit_vector_bits(self.data).len() && bit_vector_bits(self.data)[k as int],
        )
    }

    /// One bit for each of the `4^K` possible keys, in words that exactly cover them.
    pub closed spec fn shaped(&self) -> bool {
        &&& fits::<T>(K as nat)
        &&& universe_fits(K as nat)
        &&& bit_vector_bits(self.data).len() == pow4(K as nat)
        &&& bit_vector_framed(bit_vector_bytes(self.data))
        &&& framed_bit_len(bit_vector_bytes(self.data)) == pow4(K as nat)
    }

    /// The bytes the index is stored as.
    pub closed spec fn bytes(&self) -> Seq<u8> {
        bit_vector_bytes(self.data)
    }

    /// Append the stored form to `out`; returns the number of bytes written.
    pub fn serialize_into(&self, out: &mut Vec<u8>) -> (r: usize)
        ensures
            final(out)@ == old(out)@ + self.bytes(),
            r == self.bytes().len(),
    {
        match bit_vector_write(&self.data, out) {
            Ok(n) => n,
            Err(_) => vstd::pervasive::unreached(),
        }
    }

    /// Read an index back from its stored form. Bytes that some index of this `K` was
    /// stored as give an index with the same keys; a strict prefix of them is `Corrupt`.
    pub fn deserialize_from(bytes: &[u8]) -> (r: Result<Self, DbgError>)
        requires
            fits::<T>(K as nat),
            universe_fits(K as nat),
        ensures
            r is Ok ==> r->Ok_0.wf(),
            forall|d: Self|
                d.wf() && bytes@ == #[trigger] d.bytes() ==> r is Ok && r->Ok_0.keys() == d.keys(),
            forall|d: Self|
                d.wf() && bytes@.len() < d.bytes().len() && bytes@ == #[trigger] d.bytes().subrange(
                    0,
                    bytes@.len() as int,
                ) ==> r == Err::<Self, DbgError>(DbgError::Corrupt),
            bytes@.len() < 16 ==> r == Err::<Self, DbgError>(DbgError::Corrupt),
    {
        let n = bytes.len();
        if n < 16 || (n - 16) % 8 != 0 {
            return Err(DbgError::Corrupt);
        }
        let words = read_word(bytes, 0);
        let bits = read_word(bytes, n - 8);
        let cover = bits / 64 + if bits % 64 == 0 { 0 } else { 1 };
        proof {
            assert forall|d: Self|
                d.wf() && bytes@.len() < d.bytes().len() && bytes@ == #[trigger] d.bytes().subrange(
                    0,
                    bytes@.len() as int,
                ) implies words != ((n - 16) / 8) as u64 by {
                assert(bytes@.subrange(0, 8) =~= d.bytes().subrange(0, 8));
            }
        }
        if words != ((n - 16) / 8) as u64 || words != cover {
            return Err(DbgError::Corrupt);
        }
        proof {
            assert(bit_vector_framed(bytes@));
        }
        if bits != universe_size(K) as u64 {
            return Err(DbgError::Mismatch);
        }
        match bit_vector_read(bytes) {
            Ok(v) => {
                let r = DenseDbg { data: v, phantom: PhantomData };
                proof {
                    assert forall|d: Self| d.wf() && bytes@ == #[trigger] d.bytes() implies r.keys()
                        == d.keys() by {
                        assert(r.held() =~= d.held());
                    }
                }
                Ok(r)
            },
            Err(_) => vstd::pervasive::unreached(),
        }
    }

    /// The number of bytes `serialize_into` writes: two words and `ceil(4^K / 64)` words
    /// of bits, whatever the keys.
    pub fn size_in_bytes(&self) -> (r: usize)
        requires
            self.wf(),
        ensures
            r == self.bytes().len(),
            r == 16 + 8 * ((pow4(K as nat) + 63) / 64),
    {
        bit_vector_size(&self.data)
    }
}

impl<const K: usize, T: Base> Dbg<K, T, IntKmer<K, T>> for DenseDbg<K, T> {
    closed spec fn keys(&self) -> Set<nat> {
        self.held()
    }

    closed spec fn wf(&self) -> bool {
        self.shaped()
    }

    fn contains(&self, kmer: IntKmer<K, T>) -> (r: bool) {
        let pos = kmer.to_int().to_wide() as usize;
        proof {
            lemma_universe_bound(K as nat);
            assert(pos as nat == kmer.value());
        }
        match bit_vector_get_bit(&self.data, pos) {
            Some(b) => b,
            None => false,
        }
    }
}

impl<const K: usize, T: Base> DbgBuilder<K, T, IntKmer<K, T>, DenseDbg<K, T>> for DenseDbg<K, T> {
    closed spec fn inserted(&self) -> Set<nat> {
        self.held()
    }

    closed spec fn ready(&self) -> bool {
        self.shaped()
    }

    open spec fn supported() -> bool {
        fits::<T>(K as nat) && universe_fits(K as nat)
    }

    fn new() -> (r: Self) {
        let r = DenseDbg { data: bit_vector_from_bit(false, universe_size(K)), phantom: PhantomData };
        proof {
            assert(r.held() =~= Set::<nat>::empty());
        }
        r
    }

    fn insert(self, kmer: IntKmer<K, T>) -> (r: Self) {
        let mut s = self;
        let pos = kmer.to_int().to_wide() as usize;
        proof {
            lemma_universe_bound(K as nat);
            assert(pos as nat == kmer.value());
        }
        let _ = bit_vector_set_bit(&mut s.data, pos, true);
        proof {
            assert(s.held() =~= self.held().insert(kmer.value()));
        }
        s
    }

    fn build(self) -> (r: DenseDbg<K, T>) {
        self
    }
}

/// The elements strictly increase.
pub open spec fn strictly_increasing(s: Seq<usize>) -> bool {
    forall|i: int, j: int| 0 <= i < j < s.len() ==> s[i] < s[j]
}

/// Every element of `s` below `p` counts.
proof fn lemma_count_all_less(s: Seq<usize>, p: usize)
    requires
        forall|i: int| 0 <= i < s.len() ==> s[i] < p,
    ensures
        count_less(s, p) == s.len(),
    decreases s.len(),
{
    if s.len() > 0 {
        lemma_count_all_less(s.drop_last(), p);
    }
}

/// A strictly increasing sequence below `u` has at most `u` elements.
proof fn lemma_increasing_len(s: Seq<usize>, u: nat)
    requires
        strictly_increasing(s),
        forall|i: int| 0 <= i < s.len() ==> s[i] < u,
    ensures
        s.len() <= u,
{
    assert forall|i: int| 0 <= i < s.len() implies s[i] >= i by {
        lemma_increasing_at_least(s, i);
    }
    if s.len() > 0 {
        assert(s[s.len() - 1] >= s.len() - 1);
    }
}

proof fn lemma_increasing_at_least(s: Seq<usize>, i: int)
    requires
        strictly_increasing(s),
        0 <= i < s.len(),
    ensures
        s[i] >= i,
    decreases i,
{
    if i > 0 {
        lemma_increasing_at_least(s, i - 1);
    }
}

/// In a strictly increasing sequence, the elements below the `j`-th are those before it.
proof fn lemma_count_less_at(s: Seq<usize>, j: int)
    requires
        strictly_increasing(s),
        0 <= j < s.len(),
    ensures
        count_less(s, s[j]) == j,
    decreases s.len(),
{
    let f = s.drop_last();
    if j == s.len() - 1 {
        lemma_count_all_less(f, s[j]);
    } else {
        lemma_count_less_at(f, j);
    }
}

/// An index held in a quasi-succinct Elias-Fano sequence of its sorted keys.
pub struct SparseDbg<const K: usize, T: Base> {
    data: EliasFano,
    phantom: PhantomData<T>,
}

/// The accumulation state of a sparse index: the keys, sorted and without duplicates.
pub struct SparseDbgBuilder<const K: usize, T: Base> {
    positions: BTreeSet<usize>,
    phantom: PhantomData<T>,
}

/// The Elias-Fano sequence of `vals`, with rank queries ready.
fn encode_sorted(vals: &Vec<usize>, universe: usize) -> (r: EliasFano)
    requires
        strictly_increasing(vals@),
        forall|i: int| 0 <= i < vals@.len() ==> vals@[i] < universe,
        1 <= universe <= 0x4000_0000_0000_0000,
    ensures
        elias_fano_values(r) == vals@,
        elias_fano_universe(r) == universe,
        elias_fano_has_rank(r),
        elias_fano_sound(r),
{
    proof {
        lemma_increasing_len(vals@, universe as nat);
    }
    let n = vals.len();
    let cap = if n == 0 { 1 } else { n };
    let mut b = match elias_fano_builder_new(universe, cap) {
        Ok(b) => b,
        Err(_) => vstd::pervasive::unreached(),
    };
    let mut i: usize = 0;
    while i < n
        invariant
            n == vals@.len(),
            i <= n,
            n > 0 ==> cap == n,
            strictly_increasing(vals@),
            forall|j: int| 0 <= j < vals@.len() ==> vals@[j] < universe,
            builder_universe(b) == universe,
            builder_capacity(b) == cap,
            builder_values(b) == vals@.take(i as int),
        decreases n - i,
    {
        let _ = elias_fano_builder_push(&mut b, vals[i]);
        proof {
            assert(builder_values(b) =~= vals@.take(i + 1));
        }
        i = i + 1;
    }
    proof {
        assert(vals@.take(n as int) =~= vals@);
    }
    elias_fano_enable_rank(elias_fano_build(b))
}

impl<const K: usize, T: Base> SparseDbg<K, T> {
    /// The integers of the sequence.
    pub closed spec fn held(&self) -> Set<nat> {
        Set::new(
            |k: nat|
                exists|i: int|
                    0 <= i < elias_fano_values(self.data).len() && #[trigger] elias_fano_values(
                        self.data,
                    )[i] == k,
        )
    }

    /// The keys strictly increase below the universe `4^K`, and rank queries are ready.
    pub closed spec fn shaped(&self) -> bool {
        &&& fits::<T>(K as nat)
        &&& universe_fits(K as nat)
        &&& elias_fano_sound(self.data)
        &&& elias_fano_has_rank(self.data)
        &&& elias_fano_universe(self.data) == pow4(K as nat)
        &&& strictly_increasing(elias_fano_values(self.data))
        &&& elias_fano_values(self.data).len() <= usize::MAX
        &&& forall|i: int|
            0 <= i < elias_fano_values(self.data).len() ==> #[trigger] elias_fano_values(self.data)[i]
                < pow4(K as nat)
    }

    /// The words of the stored form: the universe, the number of keys, then the keys.
    pub closed spec fn stored_words(&self) -> Seq<u64> {
        seq![elias_fano_universe(self.data) as u64, elias_fano_values(self.data).len() as u64]
            + elias_fano_values(self.data).map_values(|v: usize| v as u64)
    }

    /// The bytes the index is stored as.
    pub closed spec fn bytes(&self) -> Seq<u8> {
        words_bytes(self.stored_words())
    }

    /// Append the stored form to `out`; returns the number of bytes written.
    pub fn serialize_into(&self, out: &mut Vec<u8>) -> (r: usize)
        requires
            self.wf(),
        ensures
            final(out)@ == old(out)@ + self.bytes(),
            r == self.bytes().len(),
    {
        let ghost ws = self.stored_words();
        let start = out.len();
        let universe = elias_fano_universe_of(&self.data);
        let n = elias_fano_len(&self.data);
        push_word(out, universe as u64);
        push_word(out, n as u64);
        proof {
            reveal_with_fuel(words_bytes, 3);
            assert(ws.take(2).drop_last().drop_last() =~= Seq::<u64>::empty());
            assert(ws.take(2).drop_last() =~= seq![universe as u64]);
            assert(ws.take(2).last() == n as u64);
            assert(words_bytes(Seq::<u64>::empty()) =~= Seq::<u8>::empty());
            assert(words_bytes(seq![universe as u64]) =~= word_bytes(universe as u64 as nat));
            assert(out@ =~= old(out)@ + words_bytes(ws.take(2)));
        }
        let mut i: usize = 0;
        while i < n
            invariant
                self.wf(),
                ws == self.stored_words(),
                n == elias_fano_values(self.data).len(),
                i <= n,
                start == old(out)@.len(),
                out@ == old(out)@ + words_bytes(ws.take(i + 2)),
            decreases n - i,
        {
            let x = match elias_fano_select(&self.data, i) {
                Some(x) => x,
                None => vstd::pervasive::unreached(),
            };
            push_word(out, x as u64);
            proof {
                assert(ws.take(i + 3).drop_last() =~= ws.take(i + 2));
                assert(out@ =~= old(out)@ + words_bytes(ws.take(i + 3)));
            }
            i = i + 1;
        }
        proof {
            assert(ws.take(n + 2) =~= ws);
        }
        out.len() - start
    }

    /// Read an index back from its stored form. The keys are checked and the sequence is
    /// built anew from them. Bytes that some index of this `K` was stored as give an index
    /// with the same keys; a strict prefix of them is `Corrupt`.
    pub fn deserialize_from(bytes: &[u8]) -> (r: Result<Self, DbgError>)
        requires
            fits::<T>(K as nat),
            universe_fits(K as nat),
        ensures
            r is Ok ==> r->Ok_0.wf(),
            forall|d: Self|
                d.wf() && bytes@ == #[trigger] d.bytes() ==> r is Ok && r->Ok_0.keys() == d.keys(),
            forall|d: Self|
                d.wf() && bytes@.len() < d.bytes().len() && bytes@ == #[trigger] d.bytes().subrange(
                    0,
                    bytes@.len() as int,
                ) ==> r == Err::<Self, DbgError>(DbgError::Corrupt),
            bytes@.len() < 16 ==> r == Err::<Self, DbgError>(DbgError::Corrupt),
    {
        let n = bytes.len();
        if n < 16 || (n - 16) % 8 != 0 {
            proof {
                assert forall|d: Self| d.wf() && bytes@ == #[trigger] d.bytes() implies false by {
                    lemma_stored_header(d);
                }
            }
            return Err(DbgError::Corrupt);
        }
        let u = read_word(bytes, 0);
        let cnt = read_word(bytes, 8);
        let ghost vals_none = Seq::<usize>::empty();
        let count = (n - 16) / 8;
        proof {
            assert forall|d: Self|
                d.wf() && bytes@.len() < d.bytes().len() && bytes@ == #[trigger] d.bytes().subrange(
                    0,
                    bytes@.len() as int,
                ) implies cnt != count as u64 by {
                lemma_stored_header(d);
                assert(bytes@.subrange(8, 16) =~= d.bytes().subrange(8, 16));
            }
            assert forall|d: Self| d.wf() && bytes@ == #[trigger] d.bytes() implies cnt == count as u64
                && u == pow4(K as nat) && elias_fano_values(d.data).len() == count && vals_none
                == elias_fano_values(d.data).take(0) by {
                lemma_stored_header(d);
                assert(elias_fano_values(d.data).take(0) =~= Seq::<usize>::empty());
            }
        }
        if cnt != count as u64 {
            return Err(DbgError::Corrupt);
        }
        let universe = universe_size(K);
        if u != universe as u64 {
            return Err(DbgError::Mismatch);
        }
        let mut vals: Vec<usize> = Vec::new();
        let mut i: usize = 0;
        proof {
            assert(vals@ =~= vals_none);
        }
        while i < count
            invariant
                n == bytes@.len(),
                n == 16 + 8 * count,
                i <= count,
                universe == pow4(K as nat),
                universe <= 0x4000_0000_0000_0000,
                vals@.len() == i,
                strictly_increasing(vals@),
                forall|j: int| 0 <= j < vals@.len() ==> vals@[j] < universe,
                forall|d: Self|
                    d.wf() && bytes@ == #[trigger] d.bytes() ==> vals@ == elias_fano_values(d.data).take(
                        i as int,
                    ) && elias_fano_values(d.data).len() == count,
                forall|d: Self|
                    !(d.wf() && bytes@.len() < d.bytes().len() && bytes@ == #[trigger] d.bytes().subrange(
                        0,
                        bytes@.len() as int,
                    )),
            decreases count - i,
        {
            let w = read_word(bytes, 16 + 8 * i);
            proof {
                assert forall|d: Self| d.wf() && bytes@ == #[trigger] d.bytes() implies w
                    == elias_fano_values(d.data)[i as int] as u64 by {
                    lemma_stored_header(d);
                    crate::frame::lemma_words_at(d.stored_words(), i + 2);
                    if i > 0 {
                        assert(vals@[i - 1] == elias_fano_values(d.data).take(i as int)[i - 1]);
                    }
                }
            }
            if w >= universe as u64 || (i > 0 && w <= vals[i - 1] as u64) {
                return Err(DbgError::Mismatch);
            }
            vals.push(w as usize);
            proof {
                assert forall|d: Self| d.wf() && bytes@ == #[trigger] d.bytes() implies vals@
                    == elias_fano_values(d.data).take(i + 1) by {
                    assert(vals@ =~= elias_fano_values(d.data).take(i + 1));
                }
            }
            i = i + 1;
        }
        proof {
            crate::model::lemma_pow4_pos(K as nat);
        }
        let r = SparseDbg { data: encode_sorted(&vals, universe), phantom: PhantomData };
        proof {
            assert forall|d: Self| d.wf() && bytes@ == #[trigger] d.bytes() implies r.keys()
                == d.keys() by {
                assert(elias_fano_values(d.data).take(count as int) =~= elias_fano_values(d.data));
                assert(r.held() =~= d.held());
            }
        }
        Ok(r)
    }

    /// The number of bytes `serialize_into` writes, or `usize::MAX` if that does not fit.
    pub fn size_in_bytes(&self) -> (r: usize)
        requires
            self.wf(),
        ensures
            self.bytes().len() <= usize::MAX ==> r == self.bytes().len(),
    {
        proof {
            lemma_stored_header(*self);
        }
        let n = elias_fano_len(&self.data);
        if n <= (usize::MAX - 16) / 8 {
            16 + 8 * n
        } else {
            usize::MAX
        }
    }
}

/// The header of a stored sparse index: its universe and its number of keys, and its length.
proof fn lemma_stored_header<const K: usize, T: Base>(d: SparseDbg<K, T>)
    requires
        d.wf(),
    ensures
        d.bytes().len() == 16 + 8 * elias_fano_values(d.data).len(),
        word_at(d.bytes(), 0) == pow4(K as nat),
        word_at(d.bytes(), 8) == elias_fano_values(d.data).len(),
        forall|i: int|
            0 <= i < elias_fano_values(d.data).len() ==> word_at(d.bytes(), 16 + 8 * i)
                == elias_fano_values(d.data)[i],
{
    let ws = d.stored_words();
    lemma_universe_bound(K as nat);
    crate::frame::lemma_words_at(ws, 0);
    crate::frame::lemma_words_at(ws, 1);
    assert forall|i: int| 0 <= i < elias_fano_values(d.data).len() implies word_at(d.bytes(), 16 + 8 * i)
        == elias_fano_values(d.data)[i] by {
        crate::frame::lemma_words_at(ws, i + 2);
    }
}

impl<const K: usize, T: Base> Dbg<K, T, IntKmer<K, T>> for SparseDbg<K, T> {
    closed spec fn keys(&self) -> Set<nat> {
        self.held()
    }

    closed spec fn wf(&self) -> bool {
        self.shaped()
    }

    /// The rank of the key counts the integers below it; the key is held exactly when
    /// the integer of that rank is the key itself.
    fn contains(&self, kmer: IntKmer<K, T>) -> (r: bool) {
        let pos = kmer.to_int().to_wide() as usize;
        proof {
            lemma_universe_bound(K as nat);
            assert(pos as nat == kmer.value());
        }
        let ghost vals = elias_fano_values(self.data);
        match elias_fano_rank(&self.data, pos) {
            Some(rank) => {
                let r = match elias_fano_select(&self.data, rank) {
                    Some(x) => x == pos,
                    None => false,
                };
                proof {
                    if self.held().contains(kmer.value()) {
                        let j = choose|j: int| 0 <= j < vals.len() && #[trigger] vals[j] == kmer.value();
                        lemma_count_less_at(vals, j);
                        assert(pos < elias_fano_universe(self.data));
                        assert(pos == vals[j]);
                        assert(rank as nat == count_less(vals, pos));
                        assert(rank == j);
                    }
                    if r {
                        assert(vals[rank as int] == kmer.value());
                    }
                }
                r
            },
            None => false,
        }
    }
}

impl<const K: usize, T: Base> SparseDbgBuilder<K, T> {
    /// The keys collected so far.
    pub closed spec fn held(&self) -> Set<nat> {
        Set::new(|k: nat| k <= usize::MAX && self.positions@.contains(k as usize))
    }
}

impl<const K: usize, T: Base> DbgBuilder<K, T, IntKmer<K, T>, SparseDbg<K, T>> for SparseDbgBuilder<K, T> {
    closed spec fn inserted(&self) -> Set<nat> {
        self.held()
    }

    closed spec fn ready(&self) -> bool {
        &&& fits::<T>(K as nat)
        &&& universe_fits(K as nat)
        &&& forall|x: usize| #[trigger] self.positions@.contains(x) ==> x < pow4(K as nat)
    }

    open spec fn supported() -> bool {
        fits::<T>(K as nat) && universe_fits(K as nat)
    }

    fn new() -> (r: Self) {
        let r = SparseDbgBuilder { positions: BTreeSet::new(), phantom: PhantomData };
        proof {
            assert(r.held() =~= Set::<nat>::empty());
        }
        r
    }

    fn insert(self, kmer: IntKmer<K, T>) -> (r: Self) {
        broadcast use vstd::std_specs::btree::group_btree_axioms;
        let mut s = self;
        let pos = kmer.to_int().to_wide() as usize;
        proof {
            lemma_universe_bound(K as nat);
            assert(pos as nat == kmer.value());
        }
        s.positions.insert(pos);
        proof {
            assert(s.held() =~= self.held().insert(kmer.value()));
        }
        s
    }

    /// The sorted keys go, smallest first, into an Elias-Fano sequence over the universe
    /// `4^K`, with room for at least one integer.
    fn build(self) -> (r: SparseDbg<K, T>) {
        broadcast use vstd::std_specs::btree::group_btree_axioms;
        broadcast use vstd::laws_cmp::group_laws_cmp;

        let universe = universe_size(K);
        let ghost ks = spec_btree_keys_iter(&self.positions).remaining().unref();
        proof {
            lemma_universe_bound(K as nat);
            crate::model::lemma_pow4_pos(K as nat);
            let rem = spec_btree_keys_iter(&self.positions).remaining();
            assert(increasing_seq(rem));
            assert(vstd::laws_cmp::obeys_cmp::<usize>());
            assert(vstd::laws_cmp::obeys_cmp::<&usize>());
            assert forall|i: int, j: int| 0 <= i < j < ks.len() implies ks[i] < ks[j] by {
                assert(<&usize as OrdSpec>::cmp_spec(&rem[i], &rem[j]) is Less);
            }
            assert forall|i: int| 0 <= i < ks.len() implies ks[i] < universe by {
                assert(ks.to_set().contains(ks[i]));
            }
        }
        let mut vals: Vec<usize> = Vec::new();
        for x in it: self.positions.iter()
            invariant
                it.seq().unref() == ks,
                vals@ == ks.take(it.index()),
        {
            vals.push(*x);
            proof {
                assert(vals@ =~= ks.take(it.index() + 1));
            }
        }
        proof {
            assert(ks.take(ks.len() as int) =~= ks);
        }
        let e = encode_sorted(&vals, universe);
        let r = SparseDbg { data: e, phantom: PhantomData };
        proof {
            lemma_increasing_len(ks, universe as nat);
            assert forall|k: nat| #[trigger] self.held().contains(k) implies r.held().contains(k) by {
                assert(ks.to_set().contains(k as usize));
                let i = choose|i: int| 0 <= i < ks.len() && ks[i] == k as usize;
                assert(elias_fano_values(r.data)[i] == k);
            }
            assert(r.held() =~= self.held());
        }
        r
    }
}

} // verus!
