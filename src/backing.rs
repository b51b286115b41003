//! The outside containers behind the indexes: ahash's hash set, and sucds's bit
//! vector and Elias-Fano sequence, each with the contract its source gives it.
use std::collections::HashSet;
use sucds::bit_vectors::BitVector;
use sucds::mii_sequences::{EliasFano, EliasFanoBuilder};
use sucds::Serializable;
use crate::frame::word_at;
use vstd::prelude::*;

verus! {

#[verifier::external_type_specification]
#[verifier::external_body]
pub struct ExRandomState(ahash::RandomState);

#[verifier::external_type_specification]
#[verifier::external_body]
pub struct ExAnyhowError(anyhow::Error);

#[verifier::external_type_specification]
#[verifier::external_body]
pub struct ExBitVector(BitVector);

#[verifier::external_type_specification]
#[verifier::external_body]
pub struct ExEliasFano(EliasFano);

#[verifier::external_type_specification]
#[verifier::external_body]
pub struct ExEliasFanoBuilder(EliasFanoBuilder);

/// A set of integer keys hashed with ahash.
pub type KeySet = HashSet<u128, ahash::RandomState>;

/// Relies on ahash's `HashSetExt::new`: a new set is empty.
#[verifier::external_body]
pub(crate) fn key_set_new() -> (r: KeySet)
    ensures
        r@ == Set::<u128>::empty(),
{
    <KeySet as ahash::HashSetExt>::new()
}

/// Relies on `HashSet::insert`: the key is added. ahash's hasher gives equal keys equal hashes.
#[verifier::external_body]
pub(crate) fn key_set_insert(s: &mut KeySet, k: u128)
    ensures
        final(s)@ == old(s)@.insert(k),
{
    s.insert(k);
}

/// Relies on `HashSet::contains`: exact membership. ahash's hasher gives equal keys equal hashes.
#[verifier::external_body]
pub(crate) fn key_set_contains(s: &KeySet, k: u128) -> (r: bool)
    ensures
        r == s@.contains(k),
{
    s.contains(&k)
}

/// The bits of a sucds bit vector, in order.
pub uninterp spec fn bit_vector_bits(v: BitVector) -> Seq<bool>;

/// The bytes that sucds writes for a bit vector.
pub uninterp spec fn bit_vector_bytes(v: BitVector) -> Seq<u8>;

/// The stored form of a bit vector as sucds writes it: the word count `n`, `n` words, then
/// the bit length, each as an 8-byte little-endian word; `n` words exactly cover the bits.
pub open spec fn bit_vector_framed(b: Seq<u8>) -> bool {
    &&& b.len() >= 16
    &&& b.len() == 16 + 8 * word_at(b, 0)
    &&& word_at(b, 0) == (framed_bit_len(b) + 63) / 64
}

/// The bit length recorded at the end of a stored bit vector.
pub open spec fn framed_bit_len(b: Seq<u8>) -> nat {
    word_at(b, b.len() - 8)
}

/// Relies on `BitVector::from_bit`: `len` copies of `bit`, in `ceil(len / 64)` words.
#[verifier::external_body]
pub(crate) fn bit_vector_from_bit(bit: bool, len: usize) -> (r: BitVector)
    requires
        len <= 0x4000_0000_0000_0000,
    ensures
        bit_vector_bits(r) == Seq::new(len as nat, |i: int| bit),
        bit_vector_framed(bit_vector_bytes(r)),
        framed_bit_len(bit_vector_bytes(r)) == len,
{
    BitVector::from_bit(bit, len)
}

/// Relies on `BitVector::get_bit`: the bit at `pos`, `None` past the end. Its words must
/// cover its length.
#[verifier::external_body]
pub(crate) fn bit_vector_get_bit(v: &BitVector, pos: usize) -> (r: Option<bool>)
    requires
        bit_vector_framed(bit_vector_bytes(*v)),
    ensures
        r == if pos < bit_vector_bits(*v).len() {
            Some(bit_vector_bits(*v)[pos as int])
        } else {
            None
        },
{
    v.get_bit(pos)
}

/// Relies on `BitVector::set_bit`: succeeds below the length and updates one bit; the word
/// count and the length stay. Its words must cover its length.
#[verifier::external_body]
pub(crate) fn bit_vector_set_bit(v: &mut BitVector, pos: usize, bit: bool) -> (r: Result<(), anyhow::Error>)
    requires
        pos < bit_vector_bits(*old(v)).len(),
        bit_vector_framed(bit_vector_bytes(*old(v))),
    ensures
        r is Ok,
        bit_vector_bits(*final(v)) == bit_vector_bits(*old(v)).update(pos as int, bit),
        bit_vector_framed(bit_vector_bytes(*final(v))),
        framed_bit_len(bit_vector_bytes(*final(v))) == framed_bit_len(bit_vector_bytes(*old(v))),
{
    v.set_bit(pos, bit)
}

/// Relies on `BitVector::serialize_into`: writing into a `Vec` appends the vector's bytes
/// and cannot fail.
#[verifier::external_body]
pub(crate) fn bit_vector_write(v: &BitVector, out: &mut Vec<u8>) -> (r: Result<usize, anyhow::Error>)
    ensures
        r is Ok,
        r->Ok_0 == bit_vector_bytes(*v).len(),
        final(out)@ == old(out)@ + bit_vector_bytes(*v),
{
    v.serialize_into(out)
}

/// Relies on `BitVector::deserialize_from`: on framed bytes it reads the words and the
/// length back, so writing the result gives the same bytes, and reading what
/// `serialize_into` wrote gives the same bits back.
#[verifier::external_body]
pub(crate) fn bit_vector_read(bytes: &[u8]) -> (r: Result<BitVector, anyhow::Error>)
    requires
        bit_vector_framed(bytes@),
    ensures
        r is Ok,
        bit_vector_bytes(r->Ok_0) == bytes@,
        bit_vector_bits(r->Ok_0).len() == framed_bit_len(bytes@),
        forall|v: BitVector|
            bytes@ == #[trigger] bit_vector_bytes(v) ==> r is Ok && bit_vector_bits(r->Ok_0)
                == bit_vector_bits(v),
{
    BitVector::deserialize_from(bytes)
}

/// Relies on `BitVector::size_in_bytes`: the number of bytes `serialize_into` writes.
#[verifier::external_body]
pub(crate) fn bit_vector_size(v: &BitVector) -> (r: usize)
    ensures
        r == bit_vector_bytes(*v).len(),
{
    v.size_in_bytes()
}

/// The integers held by a sucds Elias-Fano sequence, in order.
pub uninterp spec fn elias_fano_values(e: EliasFano) -> Seq<usize>;

/// The exclusive upper bound of the integers of an Elias-Fano sequence.
pub uninterp spec fn elias_fano_universe(e: EliasFano) -> usize;

/// Whether the rank index of an Elias-Fano sequence is built.
pub uninterp spec fn elias_fano_has_rank(e: EliasFano) -> bool;

/// Whether an Elias-Fano sequence was built by its builder: its select and rank indexes
/// agree with its integers.
pub uninterp spec fn elias_fano_sound(e: EliasFano) -> bool;

/// The integers pushed so far into an Elias-Fano builder.
pub uninterp spec fn builder_values(b: EliasFanoBuilder) -> Seq<usize>;

/// The universe an Elias-Fano builder was made with.
pub uninterp spec fn builder_universe(b: EliasFanoBuilder) -> usize;

/// The number of integers an Elias-Fano builder was made for.
pub uninterp spec fn builder_capacity(b: EliasFanoBuilder) -> usize;

/// How many elements of `s` are below `p`.
pub open spec fn count_less(s: Seq<usize>, p: usize) -> nat
    decreases s.len(),
{
    if s.len() == 0 {
        0
    } else {
        count_less(s.drop_last(), p) + if s.last() < p {
            1nat
        } else {
            0nat
        }
    }
}

/// Relies on `EliasFanoBuilder::new`: succeeds for a positive count and starts empty.
#[verifier::external_body]
pub(crate) fn elias_fano_builder_new(universe: usize, num_vals: usize) -> (r: Result<EliasFanoBuilder, anyhow::Error>)
    requires
        0 < num_vals <= universe <= 0x4000_0000_0000_0000,
    ensures
        r is Ok,
        builder_values(r->Ok_0) == Seq::<usize>::empty(),
        builder_universe(r->Ok_0) == universe,
        builder_capacity(r->Ok_0) == num_vals,
{
    EliasFanoBuilder::new(universe, num_vals)
}

/// Relies on `EliasFanoBuilder::push`: succeeds for a value below the universe, no less
/// than the last one, while there is room.
#[verifier::external_body]
pub(crate) fn elias_fano_builder_push(b: &mut EliasFanoBuilder, val: usize) -> (r: Result<(), anyhow::Error>)
    requires
        val < builder_universe(*old(b)),
        builder_values(*old(b)).len() < builder_capacity(*old(b)),
        builder_values(*old(b)).len() > 0 ==> builder_values(*old(b)).last() <= val,
    ensures
        r is Ok,
        builder_values(*final(b)) == builder_values(*old(b)).push(val),
        builder_universe(*final(b)) == builder_universe(*old(b)),
        builder_capacity(*final(b)) == builder_capacity(*old(b)),
{
    b.push(val)
}

/// Relies on `EliasFanoBuilder::build`: the sequence holds the pushed integers.
#[verifier::external_body]
pub(crate) fn elias_fano_build(b: EliasFanoBuilder) -> (r: EliasFano)
    ensures
        elias_fano_values(r) == builder_values(b),
        elias_fano_universe(r) == builder_universe(b),
        elias_fano_sound(r),
{
    b.build()
}

/// Relies on `EliasFano::enable_rank`: same integers, with the rank index built.
#[verifier::external_body]
pub(crate) fn elias_fano_enable_rank(e: EliasFano) -> (r: EliasFano)
    requires
        elias_fano_sound(e),
    ensures
        elias_fano_sound(r),
        elias_fano_values(r) == elias_fano_values(e),
        elias_fano_universe(r) == elias_fano_universe(e),
        elias_fano_has_rank(r),
{
    e.enable_rank()
}

/// Relies on `EliasFano::universe`.
#[verifier::external_body]
pub(crate) fn elias_fano_universe_of(e: &EliasFano) -> (r: usize)
    ensures
        r == elias_fano_universe(*e),
{
    e.universe()
}

/// Relies on `EliasFano::len`: the number of integers.
#[verifier::external_body]
pub(crate) fn elias_fano_len(e: &EliasFano) -> (r: usize)
    ensures
        r == elias_fano_values(*e).len(),
{
    e.len()
}

/// Relies on `EliasFano::rank`: the number of integers less than `pos`, for `pos` below
/// the universe; it needs the rank index.
#[verifier::external_body]
pub(crate) fn elias_fano_rank(e: &EliasFano, pos: usize) -> (r: Option<usize>)
    requires
        elias_fano_has_rank(*e),
        elias_fano_sound(*e),
    ensures
        pos < elias_fano_universe(*e) ==> r == Some(count_less(elias_fano_values(*e), pos) as usize),
{
    e.rank(pos)
}

/// Relies on `EliasFano::select`: the `k`-th integer, `None` past the end.
#[verifier::external_body]
pub(crate) fn elias_fano_select(e: &EliasFano, k: usize) -> (r: Option<usize>)
    requires
        elias_fano_sound(*e),
    ensures
        r == if k < elias_fano_values(*e).len() {
            Some(elias_fano_values(*e)[k as int])
        } else {
            None
        },
{
    e.select(k)
}

} // verus!
