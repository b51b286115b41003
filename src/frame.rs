//! Stored forms as sequences of 8-byte little-endian words.
use vstd::prelude::*;

verus! {

/// `256^n`.
pub open spec fn pow256(n: nat) -> nat
    decreases n,
{
    if n == 0 {
        1
    } else {
        256 * pow256((n - 1) as nat)
    }
}

/// The integer whose little-endian bytes are `s`.
pub open spec fn le_value(s: Seq<u8>) -> nat
    decreases s.len(),
{
    if s.len() == 0 {
        0
    } else {
        (s[0] + 256 * le_value(s.subrange(1, s.len() as int))) as nat
    }
}

/// The word stored at byte offset `at`.
pub open spec fn word_at(b: Seq<u8>, at: int) -> nat {
    le_value(b.subrange(at, at + 8))
}

/// The 8 little-endian bytes of `v`.
pub open spec fn word_bytes(v: nat) -> Seq<u8> {
    Seq::new(8, |j: int| ((v / pow256(j as nat)) % 256) as u8)
}

/// The words `ws`, one after the other.
pub open spec fn words_bytes(ws: Seq<u64>) -> Seq<u8>
    decreases ws.len(),
{
    if ws.len() == 0 {
        seq![]
    } else {
        words_bytes(ws.drop_last()) + word_bytes(ws.last() as nat)
    }
}

proof fn lemma_pow256_pos(n: nat)
    ensures
        pow256(n) >= 1,
    decreases n,
{
    if n > 0 {
        lemma_pow256_pos((n - 1) as nat);
    }
}

/// Little-endian bytes hold a value below `256^len`.
proof fn lemma_le_bound(s: Seq<u8>)
    ensures
        le_value(s) < pow256(s.len()),
    decreases s.len(),
{
    if s.len() > 0 {
        let t = s.subrange(1, s.len() as int);
        lemma_le_bound(t);
        assert(le_value(s) < pow256(s.len())) by (nonlinear_arith)
            requires
                le_value(s) == s[0] + 256 * le_value(t),
                le_value(t) < pow256(t.len()),
                s[0] < 256,
                pow256(s.len()) == 256 * pow256(t.len()),
        ;
    }
}

/// The bytes `(v / 256^j) % 256` for `j` from `i` on hold `v / 256^i`.
proof fn lemma_le_word_bytes_from(v: nat, i: nat)
    requires
        v < pow256(8),
        i <= 8,
    ensures
        le_value(word_bytes(v).subrange(i as int, 8)) == v / pow256(i),
    decreases 8 - i,
{
    let w = word_bytes(v);
    lemma_pow256_pos(i);
    if i == 8 {
        assert(w.subrange(8, 8) =~= Seq::<u8>::empty());
        lemma_pow256_pos(8);
        assert(v / pow256(8) == 0) by {
            vstd::arithmetic::div_mod::lemma_basic_div(v as int, pow256(8) as int);
        }
    } else {
        lemma_le_word_bytes_from(v, i + 1);
        let s = w.subrange(i as int, 8);
        assert(s.subrange(1, s.len() as int) =~= w.subrange((i + 1) as int, 8));
        let p = pow256(i);
        assert(pow256(i + 1) == 256 * p);
        vstd::arithmetic::div_mod::lemma_div_denominator(v as int, p as int, 256);
        vstd::arithmetic::div_mod::lemma_fundamental_div_mod((v / p) as int, 256);
        assert(s[0] == (v / p) % 256);
        assert(v / pow256(i + 1) == (v / p) / 256);
    }
}

/// The word stored by `word_bytes` reads back.
pub proof fn lemma_word_round_trip(v: nat)
    requires
        v < pow256(8),
    ensures
        word_at(word_bytes(v), 0) == v,
        word_bytes(v).len() == 8,
{
    lemma_le_word_bytes_from(v, 0);
    assert(pow256(0) == 1);
    assert(v / 1 == v);
    assert(word_bytes(v).subrange(0, 8) =~= word_bytes(v));
}

/// A u64 fits in one word.
pub proof fn lemma_u64_fits_word(v: u64)
    ensures
        (v as nat) < pow256(8),
{
    reveal_with_fuel(pow256, 9);
}

/// The `i`-th word of `ws` is stored at byte `8i`.
pub proof fn lemma_words_at(ws: Seq<u64>, i: int)
    requires
        0 <= i < ws.len(),
    ensures
        words_bytes(ws).len() == 8 * ws.len(),
        word_at(words_bytes(ws), 8 * i) == ws[i],
    decreases ws.len(),
{
    lemma_words_len(ws);
    let f = ws.drop_last();
    lemma_words_len(f);
    let b = words_bytes(ws);
    if i == ws.len() - 1 {
        lemma_u64_fits_word(ws.last());
        lemma_word_round_trip(ws.last() as nat);
        assert(b.subrange(8 * i, 8 * i + 8) =~= word_bytes(ws.last() as nat).subrange(0, 8));
    } else {
        lemma_words_at(f, i);
        assert(b.subrange(8 * i, 8 * i + 8) =~= words_bytes(f).subrange(8 * i, 8 * i + 8));
    }
}

pub proof fn lemma_words_len(ws: Seq<u64>)
    ensures
        words_bytes(ws).len() == 8 * ws.len(),
    decreases ws.len(),
{
    if ws.len() > 0 {
        lemma_words_len(ws.drop_last());
    }
}

/// The word at byte `at` of `b`.
pub fn read_word(b: &[u8], at: usize) -> (r: u64)
    requires
        at + 8 <= b@.len(),
    ensures
        r == word_at(b@, at as int),
{
    let ghost s = b@.subrange(at as int, at + 8);
    let n = b.len();
    let mut acc: u128 = 0;
    let mut j: usize = 8;
    proof {
        assert(s.subrange(8, 8) =~= Seq::<u8>::empty());
        reveal_with_fuel(pow256, 9);
        lemma_pow256_mono(0, 8);
    }
    while j > 0
        invariant
            n == b@.len(),
            at + 8 <= b@.len(),
            s == b@.subrange(at as int, at + 8),
            j <= 8,
            acc == le_value(s.subrange(j as int, 8)),
            acc < pow256((8 - j) as nat),
            pow256((8 - j) as nat) <= pow256(8),
            pow256(8) == 0x1_0000_0000_0000_0000,
        decreases j,
    {
        let ghost t = s.subrange(j - 1, 8);
        proof {
            assert(t.subrange(1, t.len() as int) =~= s.subrange(j as int, 8));
            assert(t[0] == b@[at + j - 1]);
            assert(pow256((8 - (j - 1)) as nat) == 256 * pow256((8 - j) as nat));
            lemma_le_bound(t);
            assert(t.len() == 8 - (j - 1));
        }
        acc = acc * 256 + b[at + j - 1] as u128;
        j = j - 1;
        proof {
            if j > 0 {
                reveal_with_fuel(pow256, 9);
                lemma_pow256_mono((8 - j) as nat, 8);
            }
        }
    }
    proof {
        assert(s.subrange(0, 8) =~= s);
    }
    acc as u64
}

proof fn lemma_pow256_mono(a: nat, b: nat)
    requires
        a <= b,
    ensures
        pow256(a) <= pow256(b),
    decreases b,
{
    if a < b {
        lemma_pow256_mono(a, (b - 1) as nat);
        lemma_pow256_pos((b - 1) as nat);
    }
}

/// Append the 8 little-endian bytes of `v`.
pub fn push_word(out: &mut Vec<u8>, v: u64)
    ensures
        final(out)@ == old(out)@ + word_bytes(v as nat),
{
    let ghost start = out@;
    let mut x = v;
    let mut j: usize = 0;
    proof {
        assert(pow256(0) == 1);
    }
    while j < 8
        invariant
            start == old(out)@,
            j <= 8,
            x == v as nat / pow256(j as nat),
            out@ == start + word_bytes(v as nat).subrange(0, j as int),
        decreases 8 - j,
    {
        proof {
            lemma_pow256_pos(j as nat);
            vstd::arithmetic::div_mod::lemma_div_denominator(v as int, pow256(j as nat) as int, 256);
            assert(pow256((j + 1) as nat) == pow256(j as nat) * 256);
        }
        out.push((x % 256) as u8);
        x = x / 256;
        proof {
            assert(out@ =~= start + word_bytes(v as nat).subrange(0, j + 1));
        }
        j = j + 1;
    }
    proof {
        assert(word_bytes(v as nat).subrange(0, 8) =~= word_bytes(v as nat));
    }
}

} // verus!
