//! Bases, packed k-mers, reverse complements and the sliding-window generator.
use crate::model::{
    all_codes, decode, decode_all, encode, first_codes, lemma_decode_all_codes, lemma_pack_bound,
    lemma_pow4_mono, lemma_pow4_pos, lemma_unpack_index, pack, pow4, slide, unpack, rc_value,
    canonical_value, rev_comp_codes, window, lemma_window_slide,
};
use vstd::arithmetic::power2::pow2;
use vstd::prelude::*;

verus! {

/// The largest value of a `u128`, plus one.
pub open spec fn wide_limit() -> nat {
    u128::MAX as nat + 1
}

/// An unsigned integer type that holds 2-bit base codes.
pub trait Base: Sized + Copy {
    /// One more than the largest value of the type: `2^W` for width `W`.
    spec fn limit() -> nat;

    /// The integer held.
    spec fn value(&self) -> nat;

    proof fn lemma_value(self)
        ensures
            self.value() < Self::limit(),
    ;

    proof fn lemma_limit()
        ensures
            256 <= Self::limit() <= wide_limit(),
    ;

    /// The code of a nucleotide character; `None` for any other byte.
    fn from_char(b: &u8) -> (r: Option<Self>)
        ensures
            match r {
                Some(c) => decode(*b) == Some(c.value()),
                None => decode(*b) is None,
            },
    ;

    /// The nucleotide character of a code.
    fn to_char(self) -> (r: u8)
        requires
            self.value() < 4,
        ensures
            r == encode(self.value()),
    ;

    /// The four codes, in the fixed order A, C, G, T.
    fn bases() -> (r: [Self; 4])
        ensures
            forall|i: int| 0 <= i < 4 ==> (#[trigger] r[i]).value() == i,
    ;

    /// The value as a `u128`.
    fn to_wide(self) -> (r: u128)
        ensures
            r == self.value(),
    ;

    /// A value of the type from a `u128` that fits.
    fn from_wide(v: u128) -> (r: Self)
        requires
            v < Self::limit(),
        ensures
            r.value() == v,
    ;
}

impl Base for u8 {
    open spec fn limit() -> nat {
        u8::MAX as nat + 1
    }

    open spec fn value(&self) -> nat {
        *self as nat
    }

    proof fn lemma_value(self) {
    }

    proof fn lemma_limit() {
    }

    fn from_char(b: &u8) -> (r: Option<Self>) {
        match *b {
            65 => Some(0),
            67 => Some(1),
            71 => Some(2),
            84 => Some(3),
            _ => None,
        }
    }

    fn to_char(self) -> (r: u8) {
        let chars: [u8; 4] = [65, 67, 71, 84];
        chars[self as usize]
    }

    fn bases() -> (r: [Self; 4]) {
        [0, 1, 2, 3]
    }

    fn to_wide(self) -> (r: u128) {
        self as u128
    }

    fn from_wide(v: u128) -> (r: Self) {
        v as u8
    }
}

impl Base for u16 {
    open spec fn limit() -> nat {
        u16::MAX as nat + 1
    }

    open spec fn value(&self) -> nat {
        *self as nat
    }

    proof fn lemma_value(self) {
    }

    proof fn lemma_limit() {
    }

    fn from_char(b: &u8) -> (r: Option<Self>) {
        match *b {
            65 => Some(0),
            67 => Some(1),
            71 => Some(2),
            84 => Some(3),
            _ => None,
        }
    }

    fn to_char(self) -> (r: u8) {
        let chars: [u8; 4] = [65, 67, 71, 84];
        chars[self as usize]
    }

    fn bases() -> (r: [Self; 4]) {
        [0, 1, 2, 3]
    }

    fn to_wide(self) -> (r: u128) {
        self as u128
    }

    fn from_wide(v: u128) -> (r: Self) {
        v as u16
    }
}

impl Base for u32 {
    open spec fn limit() -> nat {
        u32::MAX as nat + 1
    }

    open spec fn value(&self) -> nat {
        *self as nat
    }

    proof fn lemma_value(self) {
    }

    proof fn lemma_limit() {
    }

    fn from_char(b: &u8) -> (r: Option<Self>) {
        match *b {
            65 => Some(0),
            67 => Some(1),
            71 => Some(2),
            84 => Some(3),
            _ => None,
        }
    }

    fn to_char(self) -> (r: u8) {
        let chars: [u8; 4] = [65, 67, 71, 84];
        chars[self as usize]
    }

    fn bases() -> (r: [Self; 4]) {
        [0, 1, 2, 3]
    }

    fn to_wide(self) -> (r: u128) {
        self as u128
    }

    fn from_wide(v: u128) -> (r: Self) {
        v as u32
    }
}

impl Base for u64 {
    open spec fn limit() -> nat {
        u64::MAX as nat + 1
    }

    open spec fn value(&self) -> nat {
        *self as nat
    }

    proof fn lemma_value(self) {
    }

    proof fn lemma_limit() {
    }

    fn from_char(b: &u8) -> (r: Option<Self>) {
        match *b {
            65 => Some(0),
            67 => Some(1),
            71 => Some(2),
            84 => Some(3),
            _ => None,
        }
    }

    fn to_char(self) -> (r: u8) {
        let chars: [u8; 4] = [65, 67, 71, 84];
        chars[self as usize]
    }

    fn bases() -> (r: [Self; 4]) {
        [0, 1, 2, 3]
    }

    fn to_wide(self) -> (r: u128) {
        self as u128
    }

    fn from_wide(v: u128) -> (r: Self) {
        v as u64
    }
}

impl Base for u128 {
    open spec fn limit() -> nat {
        u128::MAX as nat + 1
    }

    open spec fn value(&self) -> nat {
        *self as nat
    }

    proof fn lemma_value(self) {
    }

    proof fn lemma_limit() {
    }

    fn from_char(b: &u8) -> (r: Option<Self>) {
        match *b {
            65 => Some(0),
            67 => Some(1),
            71 => Some(2),
            84 => Some(3),
            _ => None,
        }
    }

    fn to_char(self) -> (r: u8) {
        let chars: [u8; 4] = [65, 67, 71, 84];
        chars[self as usize]
    }

    fn bases() -> (r: [Self; 4]) {
        [0, 1, 2, 3]
    }

    fn to_wide(self) -> (r: u128) {
        self as u128
    }

    fn from_wide(v: u128) -> (r: Self) {
        v as u128
    }
}

/// A k-mer of length `k` fits the type `T`: `1 <= k` and `2k` bits fit its width.
pub open spec fn fits<T: Base>(k: nat) -> bool {
    1 <= k && pow4(k) <= T::limit()
}

/// `4^n` is `2^(2n)`.
proof fn lemma_pow4_pow2(n: nat)
    ensures
        pow4(n) == pow2(2 * n),
    decreases n,
{
    vstd::arithmetic::power2::lemma2_to64();
    if n > 0 {
        let m = (2 * (n - 1)) as nat;
        lemma_pow4_pow2((n - 1) as nat);
        vstd::arithmetic::power2::lemma_pow2_adds(m, 2);
        assert(m + 2 == 2 * n);
        assert(pow4(n) == 4 * pow4((n - 1) as nat));
    }
}

/// A k-mer length whose `4^k` fits a `u128` is at most 64.
proof fn lemma_fits_at_most_64<T: Base>(k: nat)
    requires
        fits::<T>(k),
    ensures
        k <= 64,
{
    T::lemma_limit();
    if k > 64 {
        lemma_pow4_mono(65, k);
        lemma_pow4_pow2(65);
        lemma_pow4_pow2(64);
        vstd::arithmetic::power2::lemma_pow2_adds(128, 2);
        vstd::arithmetic::power2::lemma_pow2_adds(64, 64);
        vstd::arithmetic::power2::lemma2_to64();
        vstd::arithmetic::power2::lemma2_to64_rest();
    }
}

/// `4^k` as a `u128`, by one shift.
fn pow4_wide(k: usize) -> (r: u128)
    requires
        k < 64,
    ensures
        r == pow4(k as nat),
{
    proof {
        lemma_pow4_pow2(k as nat);
        vstd::arithmetic::power2::lemma2_to64();
        vstd::arithmetic::power2::lemma2_to64_rest();
    }
    if k < 32 {
        let s = (2 * k) as u64;
        proof {
            vstd::bits::lemma_u64_pow2_no_overflow(s as nat);
            vstd::bits::lemma_u64_shl_is_mul(1, s);
        }
        (1u64 << s) as u128
    } else {
        let s = (2 * k - 64) as u64;
        proof {
            vstd::bits::lemma_u64_pow2_no_overflow(s as nat);
            vstd::bits::lemma_u64_shl_is_mul(1, s);
            vstd::arithmetic::power2::lemma_pow2_adds(s as nat, 64);
            assert(pow2(s as nat) * 0x1_0000_0000_0000_0000 < u128::MAX) by (nonlinear_arith)
                requires
                    pow2(s as nat) < 0x8000_0000_0000_0000,
            ;
        }
        ((1u64 << s) as u128) * 0x1_0000_0000_0000_0000
    }
}

/// `4^k - 1` as a `u128`: the low `2k` bits set.
fn low_mask<T: Base>(k: usize) -> (r: u128)
    requires
        fits::<T>(k as nat),
    ensures
        r == pow4(k as nat) - 1,
{
    proof {
        lemma_fits_at_most_64::<T>(k as nat);
    }
    if k < 64 {
        proof {
            lemma_pow4_pos(k as nat);
        }
        pow4_wide(k) - 1
    } else {
        proof {
            lemma_pow4_pow2(64);
            vstd::arithmetic::power2::lemma_pow2_adds(64, 64);
            vstd::arithmetic::power2::lemma2_to64_rest();
        }
        u128::MAX
    }
}

/// A k-mer: `K` bases packed two bits each into an integer of type `T`.
pub trait Kmer<const K: usize, T: Base>: Sized + Copy {
    /// The packed integer.
    spec fn value(&self) -> nat;

    fn from_int(s: T) -> (r: Self)
        requires
            fits::<T>(K as nat),
            s.value() < pow4(K as nat),
        ensures
            r.value() == s.value(),
    ;

    fn to_int(self) -> (r: T)
        ensures
            r.value() == self.value(),
    ;

    /// The all-zero k-mer that priming starts from.
    fn empty() -> (r: Self)
        ensures
            r.value() == 0,
    ;

    /// The low `2K` bits set.
    fn mask() -> (r: T)
        requires
            fits::<T>(K as nat),
        ensures
            r.value() == pow4(K as nat) - 1,
    ;

    /// Shift in one base without dropping any: used while fewer than `K` bases are held.
    fn extend(self, base: T) -> (r: Self)
        requires
            fits::<T>(K as nat),
            base.value() < 4,
            self.value() < pow4((K - 1) as nat),
        ensures
            r.value() == self.value() * 4 + base.value(),
    ;

    /// Shift in one base and drop the oldest, keeping `K` bases.
    fn append(self, base: T) -> (r: Self)
        requires
            fits::<T>(K as nat),
            base.value() < 4,
            self.value() < pow4(K as nat),
        ensures
            r.value() == slide(self.value(), base.value(), K as nat),
    ;

    /// The four one-base right extensions, in the order A, C, G, T.
    fn successors(self) -> (r: [Self; 4])
        requires
            fits::<T>(K as nat),
            self.value() < pow4(K as nat),
        ensures
            forall|i: int| 0 <= i < 4 ==> (#[trigger] r[i]).value() == slide(self.value(), i as nat, K as nat),
    {
        let b = T::bases();
        [self.append(b[0]), self.append(b[1]), self.append(b[2]), self.append(b[3])]
    }

    /// The k-mer of the first `K` valid bases of `bytes`; other bytes are skipped.
    /// With fewer valid bases, the value packs those that were found.
    fn from_chars(bytes: &[u8]) -> (r: Self)
        requires
            fits::<T>(K as nat),
        ensures
            r.value() == pack(first_codes(bytes@, K as nat)),
    {
        let mut kmer = Self::empty();
        let mut n: usize = 0;
        let mut i: usize = 0;
        proof {
            assert(bytes@.subrange(0, 0) =~= Seq::<u8>::empty());
        }
        while i < bytes.len()
            invariant
                fits::<T>(K as nat),
                i <= bytes.len(),
                n <= K,
                n == first_codes(bytes@.subrange(0, i as int), K as nat).len(),
                kmer.value() == pack(first_codes(bytes@.subrange(0, i as int), K as nat)),
            decreases bytes.len() - i,
        {
            let ghost before = bytes@.subrange(0, i as int);
            let ghost after = bytes@.subrange(0, i + 1);
            proof {
                assert(after.drop_last() =~= before);
                lemma_decode_all_codes(before);
            }
            let c = T::from_char(&bytes[i]);
            match c {
                Some(b) => {
                    if n < K {
                        proof {
                            let f = first_codes(before, K as nat);
                            assert(all_codes(f));
                            lemma_pack_bound(f);
                            lemma_pow4_mono(n as nat, (K - 1) as nat);
                            assert(first_codes(after, K as nat) =~= f.push(b.value()));
                            assert(first_codes(after, K as nat).drop_last() =~= f);
                        }
                        kmer = kmer.extend(b);
                        n = n + 1;
                    } else {
                        proof {
                            assert(first_codes(after, K as nat) =~= first_codes(before, K as nat));
                        }
                    }
                },
                None => {},
            }
            i = i + 1;
        }
        proof {
            assert(bytes@.subrange(0, bytes@.len() as int) =~= bytes@);
        }
        kmer
    }

    /// The `K` base characters, leftmost first.
    fn to_chars(self) -> (r: [u8; K])
        requires
            fits::<T>(K as nat),
            self.value() < pow4(K as nat),
        ensures
            r@ == unpack(self.value(), K as nat).map_values(|c: nat| encode(c)),
    ;
}

/// A k-mer held in a single unsigned integer.
#[derive(Clone, Copy)]
pub struct IntKmer<const K: usize, T: Base>(T);

impl<const K: usize, T: Base> IntKmer<K, T> {
    /// A generator of the k-mers of a sequence of base codes.
    pub fn iter_from_bases(bases: Vec<T>) -> (r: KmerIterator<K, T, Self>)
        requires
            fits::<T>(K as nat),
            forall|i: int| 0 <= i < bases@.len() ==> (#[trigger] bases@[i]).value() < 4,
        ensures
            r.wf(),
            r.codes() == bases@.map_values(|b: T| b.value()),
            r.emitted() == 0,
    {
        KmerIterator::new(bases)
    }

    /// A generator of the k-mers of the valid bases among `bytes`; other bytes are skipped.
    pub fn iter_from_chars(bytes: &[u8]) -> (r: KmerIterator<K, T, Self>)
        requires
            fits::<T>(K as nat),
        ensures
            r.wf(),
            r.codes() == decode_all(bytes@),
            r.emitted() == 0,
    {
        let mut bases: Vec<T> = Vec::new();
        let mut i: usize = 0;
        proof {
            assert(bytes@.subrange(0, 0) =~= Seq::<u8>::empty());
        }
        while i < bytes.len()
            invariant
                i <= bytes.len(),
                bases@.map_values(|b: T| b.value()) =~= decode_all(bytes@.subrange(0, i as int)),
                forall|j: int| 0 <= j < bases@.len() ==> (#[trigger] bases@[j]).value() < 4,
            decreases bytes.len() - i,
        {
            proof {
                assert(bytes@.subrange(0, i + 1).drop_last() =~= bytes@.subrange(0, i as int));
            }
            match T::from_char(&bytes[i]) {
                Some(b) => {
                    bases.push(b);
                    proof {
                        assert(bases@.map_values(|b: T| b.value()) =~= decode_all(bytes@.subrange(0, i as int)).push(b.value()));
                    }
                },
                None => {},
            }
            i = i + 1;
        }
        proof {
            assert(bytes@.subrange(0, bytes@.len() as int) =~= bytes@);
        }
        KmerIterator::new(bases)
    }
}

impl<const K: usize, T: Base> Kmer<K, T> for IntKmer<K, T> {
    closed spec fn value(&self) -> nat {
        self.0.value()
    }

    fn from_int(s: T) -> (r: Self) {
        IntKmer(s)
    }

    fn to_int(self) -> (r: T) {
        self.0
    }

    fn empty() -> (r: Self) {
        proof {
            T::lemma_limit();
        }
        IntKmer(T::from_wide(0))
    }

    fn mask() -> (r: T) {
        T::from_wide(low_mask::<T>(K))
    }

    fn extend(self, base: T) -> (r: Self) {
        proof {
            lemma_pow4_pos((K - 1) as nat);
            assert(pow4(K as nat) == 4 * pow4((K - 1) as nat));
            base.lemma_value();
            T::lemma_limit();
        }
        IntKmer(T::from_wide(self.0.to_wide() * 4 + base.to_wide()))
    }

    fn append(self, base: T) -> (r: Self) {
        proof {
            lemma_fits_at_most_64::<T>(K as nat);
        }
        let q = pow4_wide(K - 1);
        let v = self.0.to_wide();
        proof {
            lemma_pow4_pos((K - 1) as nat);
            assert(pow4(K as nat) == 4 * pow4((K - 1) as nat));
            assert(q == pow4((K - 1) as nat));
            vstd::arithmetic::div_mod::lemma_fundamental_div_mod(v as int, q as int);
            let a = v / q;
            let r = v % q;
            assert(v * 4 + base.value() == (4 * q) * a + (r * 4 + base.value())) by (nonlinear_arith)
                requires
                    v == q * a + r,
            ;
            assert(r * 4 + base.value() < 4 * q) by (nonlinear_arith)
                requires
                    r < q,
                    base.value() < 4,
            ;
            vstd::arithmetic::div_mod::lemma_mod_multiples_vanish(
                a as int,
                (r * 4 + base.value()) as int,
                (4 * q) as int,
            );
            vstd::arithmetic::div_mod::lemma_small_mod((r * 4 + base.value()) as nat, (4 * q) as nat);
            base.lemma_value();
            T::lemma_limit();
        }
        IntKmer(T::from_wide((v % q) * 4 + base.to_wide()))
    }

    fn to_chars(self) -> (r: [u8; K]) {
        broadcast use vstd::array::group_array_axioms;

        let v = self.0.to_wide();
        let mut res = [0u8; K];
        let mut s = v;
        let mut i: usize = 0;
        let ghost u = unpack(v as nat, K as nat);
        proof {
            crate::model::lemma_unpack_codes(v as nat, K as nat);
            assert(pow4(0) == 1);
        }
        while i < K
            invariant
                fits::<T>(K as nat),
                v == self.value(),
                u == unpack(v as nat, K as nat),
                u.len() == K,
                i <= K,
                res@.len() == K,
                s == v as nat / pow4(i as nat),
                forall|j: int| K - i <= j < K ==> res@[j] == encode(#[trigger] u[j]),
            decreases K - i,
        {
            proof {
                lemma_unpack_index(v as nat, K as nat, i as nat);
                lemma_pow4_pos(i as nat);
                vstd::arithmetic::div_mod::lemma_div_denominator(v as int, pow4(i as nat) as int, 4);
                assert(pow4((i + 1) as nat) == pow4(i as nat) * 4);
                T::lemma_limit();
            }
            let c = T::from_wide(s % 4);
            res[K - 1 - i] = c.to_char();
            s = s / 4;
            i = i + 1;
        }
        proof {
            assert(res@ =~= u.map_values(|c: nat| encode(c)));
        }
        res
    }
}

/// Strand resolution of k-mers: reverse complement and canonical form.
pub trait Canonical<const K: usize, T: Base>: Kmer<K, T> {
    /// The k-mer read on the other strand: bases complemented, order reversed.
    fn rev_comp(self) -> (r: Self)
        requires
            fits::<T>(K as nat),
            self.value() < pow4(K as nat),
        ensures
            r.value() == rc_value(self.value(), K as nat),
    ;

    /// The smaller of the k-mer and its reverse complement.
    fn canonical(self) -> (r: Self)
        requires
            fits::<T>(K as nat),
            self.value() < pow4(K as nat),
        ensures
            r.value() == canonical_value(self.value(), K as nat),
    {
        let rc = self.rev_comp();
        if self.to_int().to_wide() < rc.to_int().to_wide() {
            self
        } else {
            rc
        }
    }
}

impl<const K: usize, T: Base> Canonical<K, T> for IntKmer<K, T> {
    fn rev_comp(self) -> (r: Self) {
        let v = self.0.to_wide();
        let mut s = v;
        let mut res: u128 = 0;
        let mut i: usize = 0;
        let ghost u = unpack(v as nat, K as nat);
        proof {
            crate::model::lemma_unpack_codes(v as nat, K as nat);
            T::lemma_limit();
            assert(pow4(0) == 1);
            assert(rev_comp_codes(u).take(0) =~= Seq::<nat>::empty());
        }
        while i < K
            invariant
                fits::<T>(K as nat),
                u == unpack(v as nat, K as nat),
                u.len() == K,
                i <= K,
                s == v as nat / pow4(i as nat),
                res == pack(rev_comp_codes(u).take(i as int)),
                res < pow4(i as nat),
            decreases K - i,
        {
            proof {
                lemma_unpack_index(v as nat, K as nat, i as nat);
                lemma_pow4_pos(i as nat);
                lemma_pow4_mono((i + 1) as nat, K as nat);
                T::lemma_limit();
                assert(rev_comp_codes(u).take(i + 1).drop_last() =~= rev_comp_codes(u).take(i as int));
                assert(rev_comp_codes(u)[i as int] == 3 - (s % 4));
                vstd::arithmetic::div_mod::lemma_div_denominator(v as int, pow4(i as nat) as int, 4);
                assert(pow4((i + 1) as nat) == pow4(i as nat) * 4);
            }
            res = res * 4 + (3 - s % 4);
            s = s / 4;
            i = i + 1;
        }
        proof {
            assert(rev_comp_codes(u).take(K as int) =~= rev_comp_codes(u));
        }
        IntKmer(T::from_wide(res))
    }
}

/// The k-mers of a base sequence, one per window of `K` consecutive bases.
pub struct KmerIterator<const K: usize, T: Base, KT: Kmer<K, T>> {
    kmer: KT,
    bases: Vec<T>,
    pos: usize,
    init: bool,
}

impl<const K: usize, T: Base, KT: Kmer<K, T>> KmerIterator<K, T, KT> {
    /// The codes of the base sequence.
    pub closed spec fn codes(&self) -> Seq<nat> {
        self.bases@.map_values(|b: T| b.value())
    }

    /// How many k-mers have been produced so far.
    pub closed spec fn emitted(&self) -> nat {
        if self.init && self.pos >= K {
            (self.pos - K + 1) as nat
        } else {
            0
        }
    }

    pub closed spec fn wf(&self) -> bool {
        &&& fits::<T>(K as nat)
        &&& all_codes(self.codes())
        &&& self.pos <= self.bases@.len()
        &&& !self.init ==> self.pos == 0 && self.kmer.value() == 0
        &&& self.init && self.pos < K ==> self.pos == self.bases@.len()
        &&& self.init && self.pos >= K ==> self.kmer.value() == window(self.codes(), (self.pos - K) as nat, K as nat)
    }

    /// A generator over `bases`, which must all be base codes.
    pub fn new(bases: Vec<T>) -> (r: Self)
        requires
            fits::<T>(K as nat),
            forall|i: int| 0 <= i < bases@.len() ==> (#[trigger] bases@[i]).value() < 4,
        ensures
            r.wf(),
            r.codes() == bases@.map_values(|b: T| b.value()),
            r.emitted() == 0,
    {
        KmerIterator { kmer: KT::empty(), bases, pos: 0, init: false }
    }

    /// The next k-mer, or `None` once fewer than `K` bases are left.
    pub fn next(&mut self) -> (r: Option<KT>)
        requires
            old(self).wf(),
        ensures
            final(self).wf(),
            final(self).codes() == old(self).codes(),
            match r {
                Some(x) => {
                    &&& old(self).emitted() + K <= old(self).codes().len()
                    &&& x.value() == window(old(self).codes(), old(self).emitted(), K as nat)
                    &&& final(self).emitted() == old(self).emitted() + 1
                },
                None => {
                    &&& old(self).emitted() + K > old(self).codes().len()
                    &&& final(self).emitted() == old(self).emitted()
                },
            },
    {
        let ghost codes = self.codes();
        if !self.init {
            self.init = true;
            let mut i: usize = 0;
            proof {
                assert(codes.subrange(0, 0) =~= Seq::<nat>::empty());
                assert(pack(Seq::<nat>::empty()) == 0);
            }
            while i < K
                invariant
                    fits::<T>(K as nat),
                    self.codes() == codes,
                    old(self).codes() == codes,
                    !old(self).init,
                    all_codes(codes),
                    self.init,
                    i <= K,
                    self.pos == i,
                    i <= self.bases@.len(),
                    self.kmer.value() == pack(codes.subrange(0, i as int)),
                decreases K - i,
            {
                if self.pos >= self.bases.len() {
                    return None;
                }
                let b = self.bases[self.pos];
                proof {
                    assert(codes[i as int] == b.value());
                    assert(all_codes(codes.subrange(0, i as int)));
                    lemma_pack_bound(codes.subrange(0, i as int));
                    lemma_pow4_mono(i as nat, (K - 1) as nat);
                    assert(codes.subrange(0, i + 1).drop_last() =~= codes.subrange(0, i as int));
                }
                self.kmer = self.kmer.extend(b);
                self.pos = self.pos + 1;
                i = i + 1;
            }
            Some(self.kmer)
        } else {
            if self.pos >= self.bases.len() {
                return None;
            }
            let b = self.bases[self.pos];
            proof {
                assert(codes[self.pos as int] == b.value());
                lemma_window_slide(codes, (self.pos - K) as nat, K as nat);
                assert(all_codes(codes.subrange((self.pos - K) as int, self.pos as int)));
                lemma_pack_bound(codes.subrange((self.pos - K) as int, self.pos as int));
            }
            self.kmer = self.kmer.append(b);
            self.pos = self.pos + 1;
            Some(self.kmer)
        }
    }

    /// All k-mers not yet produced, in order: for `L` bases, `max(0, L - K + 1)` from a fresh generator.
    pub fn collect_kmers(&mut self) -> (r: Vec<KT>)
        requires
            old(self).wf(),
        ensures
            final(self).wf(),
            final(self).codes() == old(self).codes(),
            r@.len() == if old(self).emitted() + K <= old(self).codes().len() {
                old(self).codes().len() - K + 1 - old(self).emitted()
            } else {
                0
            },
            forall|i: int|
                0 <= i < r@.len() ==> (#[trigger] r@[i]).value() == window(
                    old(self).codes(),
                    (old(self).emitted() + i) as nat,
                    K as nat,
                ),
    {
        let mut res: Vec<KT> = Vec::new();
        let ghost codes = self.codes();
        let ghost start = self.emitted();
        loop
            invariant
                self.wf(),
                self.codes() == codes,
                self.emitted() == start + res@.len(),
                start + K > codes.len() ==> res@.len() == 0,
                start + K <= codes.len() ==> start + res@.len() <= codes.len() - K + 1,
                forall|i: int|
                    0 <= i < res@.len() ==> (#[trigger] res@[i]).value() == window(codes, (start + i) as nat, K as nat),
            ensures
                self.wf(),
                self.codes() == codes,
                self.emitted() == start + res@.len(),
                self.emitted() + K > codes.len(),
                start + K > codes.len() ==> res@.len() == 0,
                start + K <= codes.len() ==> start + res@.len() <= codes.len() - K + 1,
                forall|i: int|
                    0 <= i < res@.len() ==> (#[trigger] res@[i]).value() == window(codes, (start + i) as nat, K as nat),
            decreases codes.len() + 1 - self.emitted(),
        {
            match self.next() {
                Some(x) => {
                    res.push(x);
                },
                None => {
                    break;
                },
            }
        }
        res
    }
}

} // verus!
