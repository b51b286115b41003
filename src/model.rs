//! Mathematical model of bases, packed k-mers and their reverse complements.
use vstd::prelude::*;

verus! {

/// `4^k`: the number of distinct k-mers.
pub open spec fn pow4(k: nat) -> nat
    decreases k,
{
    if k == 0 {
        1
    } else {
        4 * pow4((k - 1) as nat)
    }
}

/// The 2-bit code of a nucleotide character, if it is one of `A`, `C`, `G`, `T`.
pub open spec fn decode(b: u8) -> Option<nat> {
    if b == 65 {
        Some(0)
    } else if b == 67 {
        Some(1)
    } else if b == 71 {
        Some(2)
    } else if b == 84 {
        Some(3)
    } else {
        None
    }
}

/// The nucleotide character of a 2-bit code.
pub open spec fn encode(c: nat) -> u8 {
    if c == 0 {
        65
    } else if c == 1 {
        67
    } else if c == 2 {
        71
    } else {
        84
    }
}

/// The codes of the valid bases among `b`, in order; other bytes are skipped.
pub open spec fn decode_all(b: Seq<u8>) -> Seq<nat>
    decreases b.len(),
{
    if b.len() == 0 {
        seq![]
    } else {
        let front = decode_all(b.drop_last());
        match decode(b.last()) {
            Some(c) => front.push(c),
            None => front,
        }
    }
}

/// Every element is a base code.
pub open spec fn all_codes(s: Seq<nat>) -> bool {
    forall|i: int| 0 <= i < s.len() ==> #[trigger] s[i] < 4
}

/// The integer holding the codes `s`, two bits each, first code most significant.
pub open spec fn pack(s: Seq<nat>) -> nat
    decreases s.len(),
{
    if s.len() == 0 {
        0
    } else {
        pack(s.drop_last()) * 4 + s.last()
    }
}

/// The `k` codes held in the low `2k` bits of `v`, most significant first.
pub open spec fn unpack(v: nat, k: nat) -> Seq<nat>
    decreases k,
{
    if k == 0 {
        seq![]
    } else {
        unpack(v / 4, (k - 1) as nat).push(v % 4)
    }
}

/// Reverse the order of the codes and complement each (A-T, C-G).
pub open spec fn rev_comp_codes(s: Seq<nat>) -> Seq<nat> {
    Seq::new(s.len(), |i: int| (3 - s[s.len() - 1 - i]) as nat)
}

/// The packed reverse complement of the k-mer `v`.
pub open spec fn rc_value(v: nat, k: nat) -> nat {
    pack(rev_comp_codes(unpack(v, k)))
}

/// The canonical representative of `v`: the smaller of `v` and its reverse complement.
pub open spec fn canonical_value(v: nat, k: nat) -> nat {
    if v < rc_value(v, k) {
        v
    } else {
        rc_value(v, k)
    }
}

/// The k-mer starting at position `i` of the code sequence `s`.
pub open spec fn window(s: Seq<nat>, i: nat, k: nat) -> nat {
    pack(s.subrange(i as int, (i + k) as int))
}

/// One base appended on the right of the k-mer `v`, the leftmost base dropped.
pub open spec fn slide(v: nat, c: nat, k: nat) -> nat {
    (v * 4 + c) % pow4(k)
}

pub proof fn lemma_pow4_pos(k: nat)
    ensures
        pow4(k) >= 1,
    decreases k,
{
    if k > 0 {
        lemma_pow4_pos((k - 1) as nat);
    }
}

pub proof fn lemma_pow4_mono(a: nat, b: nat)
    requires
        a <= b,
    ensures
        pow4(a) <= pow4(b),
    decreases b,
{
    if a < b {
        lemma_pow4_mono(a, (b - 1) as nat);
        lemma_pow4_pos((b - 1) as nat);
    }
}

/// A packed sequence of codes fits in two bits per code.
pub proof fn lemma_pack_bound(s: Seq<nat>)
    requires
        all_codes(s),
    ensures
        pack(s) < pow4(s.len()),
    decreases s.len(),
{
    if s.len() > 0 {
        let f = s.drop_last();
        assert(all_codes(f));
        lemma_pack_bound(f);
        assert(s.last() < 4);
        assert(pack(s) < pow4(s.len())) by (nonlinear_arith)
            requires
                pack(s) == pack(f) * 4 + s.last(),
                pack(f) < pow4(f.len()),
                s.last() < 4,
                pow4(s.len()) == 4 * pow4(f.len()),
        ;
    }
}

/// Unpacking gives `k` codes.
pub proof fn lemma_unpack_codes(v: nat, k: nat)
    ensures
        unpack(v, k).len() == k,
        all_codes(unpack(v, k)),
    decreases k,
{
    if k > 0 {
        lemma_unpack_codes(v / 4, (k - 1) as nat);
    }
}

/// Unpacking then packing a k-mer gives it back.
pub proof fn lemma_pack_unpack(v: nat, k: nat)
    requires
        v < pow4(k),
    ensures
        pack(unpack(v, k)) == v,
    decreases k,
{
    if k > 0 {
        let u = unpack(v / 4, (k - 1) as nat);
        assert(v / 4 < pow4((k - 1) as nat)) by (nonlinear_arith)
            requires
                v < pow4(k),
                pow4(k) == 4 * pow4((k - 1) as nat),
        ;
        lemma_pack_unpack(v / 4, (k - 1) as nat);
        assert(unpack(v, k).drop_last() =~= u);
    }
}

/// Packing then unpacking a sequence of codes gives it back.
pub proof fn lemma_unpack_pack(s: Seq<nat>)
    requires
        all_codes(s),
    ensures
        unpack(pack(s), s.len()) == s,
    decreases s.len(),
{
    if s.len() > 0 {
        let f = s.drop_last();
        assert(all_codes(f));
        lemma_unpack_pack(f);
        let p = pack(s);
        assert(p / 4 == pack(f) && p % 4 == s.last()) by (nonlinear_arith)
            requires
                p == pack(f) * 4 + s.last(),
                s.last() < 4,
        ;
        assert(unpack(p, s.len()) =~= s);
    }
}

/// The code at position `k - 1 - i` of a k-mer is the `i`-th from the right.
pub proof fn lemma_unpack_index(v: nat, k: nat, i: nat)
    requires
        i < k,
    ensures
        unpack(v, k)[k - 1 - i] == (v / pow4(i)) % 4,
    decreases k,
{
    lemma_unpack_codes(v / 4, (k - 1) as nat);
    let u = unpack(v / 4, (k - 1) as nat);
    if i > 0 {
        lemma_unpack_index(v / 4, (k - 1) as nat, (i - 1) as nat);
        lemma_pow4_pos((i - 1) as nat);
        vstd::arithmetic::div_mod::lemma_div_denominator(v as int, 4, pow4((i - 1) as nat) as int);
        assert(unpack(v, k)[k - 1 - i] == u[(k - 1) - 1 - (i - 1)]);
    } else {
        assert(pow4(0) == 1);
    }
}

/// Complementing and reversing twice gives the codes back.
pub proof fn lemma_rev_comp_codes_involutive(s: Seq<nat>)
    requires
        all_codes(s),
    ensures
        all_codes(rev_comp_codes(s)),
        rev_comp_codes(rev_comp_codes(s)) =~= s,
{
}

/// The reverse complement of a k-mer is a k-mer.
pub proof fn lemma_rc_bound(v: nat, k: nat)
    ensures
        rc_value(v, k) < pow4(k),
{
    lemma_unpack_codes(v, k);
    let r = rev_comp_codes(unpack(v, k));
    lemma_rev_comp_codes_involutive(unpack(v, k));
    lemma_pack_bound(r);
}

/// Decoding a base character and encoding its code gives the character back.
pub proof fn lemma_base_round_trip(b: u8)
    requires
        decode(b) is Some,
    ensures
        encode(decode(b)->Some_0) == b,
        decode(b)->Some_0 < 4,
{
}

/// Encoding a code and decoding the character gives the code back.
pub proof fn lemma_code_round_trip(c: nat)
    requires
        c < 4,
    ensures
        decode(encode(c)) == Some(c),
{
}

/// Taking the reverse complement twice gives every k-mer back.
pub proof fn lemma_rc_involutive(v: nat, k: nat)
    requires
        v < pow4(k),
    ensures
        rc_value(rc_value(v, k), k) == v,
{
    let u = unpack(v, k);
    lemma_unpack_codes(v, k);
    lemma_rev_comp_codes_involutive(u);
    let r = rev_comp_codes(u);
    lemma_unpack_pack(r);
    lemma_pack_unpack(v, k);
}

/// Canonicalisation is idempotent and does not depend on the strand.
pub proof fn lemma_canonical_laws(v: nat, k: nat)
    requires
        v < pow4(k),
    ensures
        canonical_value(canonical_value(v, k), k) == canonical_value(v, k),
        canonical_value(rc_value(v, k), k) == canonical_value(v, k),
        canonical_value(v, k) < pow4(k),
{
    lemma_rc_involutive(v, k);
    lemma_rc_bound(v, k);
}

/// The first `k` valid base codes of `b`, or all of them when there are fewer.
pub open spec fn first_codes(b: Seq<u8>, k: nat) -> Seq<nat> {
    if decode_all(b).len() <= k {
        decode_all(b)
    } else {
        decode_all(b).take(k as int)
    }
}

/// Decoded bytes are base codes.
pub proof fn lemma_decode_all_codes(b: Seq<u8>)
    ensures
        all_codes(decode_all(b)),
    decreases b.len(),
{
    if b.len() > 0 {
        lemma_decode_all_codes(b.drop_last());
    }
}

/// Packing splits off the first code as the most significant one.
pub proof fn lemma_pack_front(t: Seq<nat>)
    requires
        t.len() >= 1,
    ensures
        pack(t) == t[0] * pow4((t.len() - 1) as nat) + pack(t.subrange(1, t.len() as int)),
    decreases t.len(),
{
    if t.len() == 1 {
        assert(t.drop_last() =~= Seq::<nat>::empty());
        assert(t.subrange(1, 1) =~= Seq::<nat>::empty());
        assert(pack(Seq::<nat>::empty()) == 0);
        assert(pow4(0) == 1);
        assert(pack(t) == t[0]);
    } else {
        let f = t.drop_last();
        lemma_pack_front(f);
        let n = (t.len() - 1) as nat;
        assert(t.subrange(1, t.len() as int).drop_last() =~= f.subrange(1, f.len() as int));
        let a = t[0];
        let p = pack(f.subrange(1, f.len() as int));
        assert(f[0] == a);
        assert(pack(f) == a * pow4((n - 1) as nat) + p);
        assert(t.subrange(1, t.len() as int).last() == t.last());
        assert(pack(t.subrange(1, t.len() as int)) == p * 4 + t.last());
        assert(pow4(n) == 4 * pow4((n - 1) as nat));
        assert((a * pow4((n - 1) as nat) + p) * 4 + t.last() == a * pow4(n) + (p * 4 + t.last()))
            by (nonlinear_arith)
            requires
                pow4(n) == 4 * pow4((n - 1) as nat),
        ;
    }
}

/// Consecutive windows overlap by `k - 1` codes: each is the previous one slid by one base.
pub proof fn lemma_window_slide(s: Seq<nat>, i: nat, k: nat)
    requires
        all_codes(s),
        i + k < s.len(),
    ensures
        window(s, i + 1, k) == slide(window(s, i, k), s[(i + k) as int], k),
        window(s, i + 1, k) < pow4(k),
{
    let t = s.subrange(i as int, (i + k + 1) as int);
    let rest = t.subrange(1, t.len() as int);
    assert(rest =~= s.subrange((i + 1) as int, (i + 1 + k) as int));
    assert(t.drop_last() =~= s.subrange(i as int, (i + k) as int));
    assert(all_codes(t));
    assert(all_codes(rest));
    lemma_pack_front(t);
    lemma_pack_bound(rest);
    let a = t[0];
    let p = pack(rest);
    let w = pack(t.drop_last());
    assert(t.last() == s[(i + k) as int]);
    assert(w * 4 + s[(i + k) as int] == a * pow4(k) + p);
    assert(a * pow4(k) == pow4(k) * a) by (nonlinear_arith);
    vstd::arithmetic::div_mod::lemma_mod_multiples_vanish(a as int, p as int, pow4(k) as int);
    vstd::arithmetic::div_mod::lemma_small_mod(p, pow4(k));
}

/// The one-base right extensions of `v` among the first `n` codes that `keys` holds, in code order.
pub open spec fn extensions_in(keys: Set<nat>, v: nat, k: nat, n: nat) -> Seq<nat>
    decreases n,
{
    if n == 0 {
        seq![]
    } else {
        let p = extensions_in(keys, v, k, (n - 1) as nat);
        let x = slide(v, (n - 1) as nat, k);
        if keys.contains(x) {
            p.push(x)
        } else {
            p
        }
    }
}

/// The successors of `v` that `keys` holds, in the order A, C, G, T.
pub open spec fn successor_keys(keys: Set<nat>, v: nat, k: nat) -> Seq<nat> {
    extensions_in(keys, v, k, 4)
}

/// The bases of a window are the codes it covers.
pub proof fn lemma_window_codes(s: Seq<nat>, i: nat, k: nat)
    requires
        all_codes(s),
        i + k <= s.len(),
    ensures
        unpack(window(s, i, k), k) == s.subrange(i as int, (i + k) as int),
{
    let t = s.subrange(i as int, (i + k) as int);
    assert(all_codes(t));
    lemma_unpack_pack(t);
}

/// Consecutive windows overlap by `k - 1` bases: the next window's first `k - 1` bases are
/// the last `k - 1` of the previous one, and its last base is the base that follows.
pub proof fn lemma_windows_overlap(s: Seq<nat>, i: nat, k: nat)
    requires
        all_codes(s),
        1 <= k,
        i + k < s.len(),
    ensures
        unpack(window(s, i + 1, k), k).subrange(0, k - 1) == unpack(window(s, i, k), k).subrange(1, k as int),
        unpack(window(s, i + 1, k), k)[k - 1] == s[(i + k) as int],
{
    lemma_window_codes(s, i, k);
    lemma_window_codes(s, i + 1, k);
    assert(unpack(window(s, i + 1, k), k).subrange(0, k - 1) =~= unpack(window(s, i, k), k).subrange(1, k as int));
}

} // verus!
