//! The 63-bit words of a pooled bitmap and the set of indices they stand for.
//!
//! Word `p` of a list covers the indices `63 * p .. 63 * p + 63`; bit `b < 63` of the word is
//! set when index `63 * p + b` is in the set. Bit 63 of a word never stands for an index.
use vstd::prelude::*;
use vstd::std_specs::bits::axiom_u64_trailing_zeros;
use vstd::std_specs::bits::u64_trailing_zeros;
use vstd::set_lib::lemma_set_disjoint_lens;
use vstd::bits::lemma_u64_shr_is_div;
use vstd::arithmetic::power2::pow2;
use vstd::arithmetic::power2::lemma_pow2_pos;
use vstd::arithmetic::power2::lemma_pow2_adds;
use vstd::arithmetic::div_mod::lemma_div_denominator;

verus! {

/// Number of indices covered by one word.
pub const WORD_BITS: usize = 63;

/// The bits of a word that stand for indices.
pub const WORD_MASK: u64 = 0x7fff_ffff_ffff_ffff;

/// Number of one bits among the `n` lowest bits of `x`.
pub open spec fn ones_below(x: u64, n: nat) -> nat
    decreases n,
{
    if n == 0 {
        0
    } else {
        ones_below(x, (n - 1) as nat) + (if (x >> ((n - 1) as u64)) & 1 == 1 {
            1nat
        } else {
            0nat
        })
    }
}

/// Bit `b` of word `w` stands for an index and is set.
pub open spec fn word_has(w: u64, b: int) -> bool {
    0 <= b < 63 && (w >> (b as u64)) & 1 == 1
}

/// Index `i` is in the set that the words `ws` stand for.
pub open spec fn words_contain(ws: Seq<u64>, i: int) -> bool {
    0 <= i && i / 63 < ws.len() && word_has(ws[i / 63], i % 63)
}

/// The set of indices that the words `ws` stand for.
pub open spec fn words_view(ws: Seq<u64>) -> Set<int> {
    Set::new(|i: int| words_contain(ws, i))
}

/// Number of indices that the words `ws` stand for, word by word.
pub open spec fn count_words(ws: Seq<u64>) -> nat
    decreases ws.len(),
{
    if ws.len() == 0 {
        0
    } else {
        count_words(ws.drop_last()) + ones_below(ws.last(), 63)
    }
}

/// The indices `base + b` for the set bits `b < n` of `w`.
pub open spec fn word_elems(w: u64, base: int, n: int) -> Set<int> {
    Set::new(|i: int| base <= i < base + n && word_has(w, i - base))
}

pub proof fn lemma_bit_test(w: u64, b: u64)
    requires
        b < 64,
    ensures
        ((w & (1u64 << b)) != 0) == ((w >> b) & 1 == 1),
{
    assert(((w & (1u64 << b)) != 0) == ((w >> b) & 1 == 1)) by (bit_vector)
        requires
            b < 64,
    ;
}

pub proof fn lemma_bit_set(w: u64, b: u64, c: u64)
    requires
        b < 64,
        c < 64,
    ensures
        (((w | (1u64 << b)) >> c) & 1 == 1) == (c == b || (w >> c) & 1 == 1),
{
    assert((((w | (1u64 << b)) >> c) & 1 == 1) == (c == b || (w >> c) & 1 == 1)) by (bit_vector)
        requires
            b < 64,
            c < 64,
    ;
}

pub proof fn lemma_bit_clear(w: u64, b: u64, c: u64)
    requires
        b < 64,
        c < 64,
    ensures
        (((w & !(1u64 << b)) >> c) & 1 == 1) == (c != b && (w >> c) & 1 == 1),
{
    assert((((w & !(1u64 << b)) >> c) & 1 == 1) == (c != b && (w >> c) & 1 == 1)) by (bit_vector)
        requires
            b < 64,
            c < 64,
    ;
}

pub proof fn lemma_bit_or(a: u64, b: u64, c: u64)
    requires
        c < 64,
    ensures
        (((a | b) >> c) & 1 == 1) == ((a >> c) & 1 == 1 || (b >> c) & 1 == 1),
{
    assert((((a | b) >> c) & 1 == 1) == ((a >> c) & 1 == 1 || (b >> c) & 1 == 1)) by (bit_vector)
        requires
            c < 64,
    ;
}

pub proof fn lemma_bit_and_not(a: u64, b: u64, c: u64)
    requires
        c < 64,
    ensures
        (((a & !b) >> c) & 1 == 1) == ((a >> c) & 1 == 1 && !((b >> c) & 1 == 1)),
{
    assert((((a & !b) >> c) & 1 == 1) == ((a >> c) & 1 == 1 && !((b >> c) & 1 == 1)))
        by (bit_vector)
        requires
            c < 64,
    ;
}

/// The mask keeps the bits that stand for indices and clears bit 63.
pub proof fn lemma_bit_mask(a: u64, c: u64)
    requires
        c < 64,
    ensures
        c < 63 ==> ((a & WORD_MASK) >> c) & 1 == (a >> c) & 1,
        c == 63 ==> ((a & WORD_MASK) >> c) & 1 == 0,
{
    assert(c < 63 ==> ((a & 0x7fff_ffff_ffff_ffffu64) >> c) & 1 == (a >> c) & 1) by (bit_vector);
    assert(c == 63 ==> ((a & 0x7fff_ffff_ffff_ffffu64) >> c) & 1 == 0) by (bit_vector);
}

/// Two words that agree under the mask agree on every bit that stands for an index.
pub proof fn lemma_masked_eq_bits(a: u64, b: u64, c: u64)
    requires
        a & WORD_MASK == b & WORD_MASK,
        c < 63,
    ensures
        (a >> c) & 1 == (b >> c) & 1,
{
    assert((a >> c) & 1 == (b >> c) & 1) by (bit_vector)
        requires
            a & 0x7fff_ffff_ffff_ffffu64 == b & 0x7fff_ffff_ffff_ffffu64,
            c < 63,
    ;
}

/// A word that is zero under the mask has no bit that stands for an index.
pub proof fn lemma_masked_zero_bits(a: u64, c: u64)
    requires
        a & WORD_MASK == 0,
        c < 63,
    ensures
        (a >> c) & 1 == 0,
{
    assert((a >> c) & 1 == 0) by (bit_vector)
        requires
            a & 0x7fff_ffff_ffff_ffffu64 == 0,
            c < 63,
    ;
}

/// The lowest set bit of a nonzero value.
pub proof fn lemma_lowest_bit(x: u64) -> (t: u64)
    requires
        x != 0,
    ensures
        t < 64,
        t == u64_trailing_zeros(x),
        (x >> t) & 1 == 1,
        forall|j: u64| j < t ==> #[trigger] ((x >> j) & 1) == 0,
{
    axiom_u64_trailing_zeros(x);
    u64_trailing_zeros(x) as u64
}

/// Two words that differ under the mask differ on some bit that stands for an index.
pub proof fn lemma_masked_diff_witness(a: u64, b: u64) -> (t: u64)
    requires
        a & WORD_MASK != b & WORD_MASK,
    ensures
        t < 63,
        ((a >> t) & 1 == 1) != ((b >> t) & 1 == 1),
{
    let x = (a ^ b) & WORD_MASK;
    assert(x != 0) by (bit_vector)
        requires
            a & 0x7fff_ffff_ffff_ffffu64 != b & 0x7fff_ffff_ffff_ffffu64,
            x == (a ^ b) & 0x7fff_ffff_ffff_ffffu64,
    ;
    let t = lemma_lowest_bit(x);
    assert(t < 63 && (((a >> t) & 1 == 1) != ((b >> t) & 1 == 1))) by (bit_vector)
        requires
            x == (a ^ b) & 0x7fff_ffff_ffff_ffffu64,
            t < 64,
            (x >> t) & 1 == 1,
    ;
    t
}

/// A word that is nonzero under the mask has a set bit that stands for an index.
pub proof fn lemma_masked_nonzero_witness(a: u64) -> (t: u64)
    requires
        a & WORD_MASK != 0,
    ensures
        t < 63,
        (a >> t) & 1 == 1,
{
    let x = a & WORD_MASK;
    let t = lemma_lowest_bit(x);
    assert(t < 63 && (a >> t) & 1 == 1) by (bit_vector)
        requires
            x == a & 0x7fff_ffff_ffff_ffffu64,
            t < 64,
            (x >> t) & 1 == 1,
    ;
    t
}

/// Counting below `n <= 63` sees the same bits with or without the mask.
pub proof fn lemma_ones_below_mask(w: u64, n: nat)
    requires
        n <= 64,
    ensures
        n <= 63 ==> ones_below(w & WORD_MASK, n) == ones_below(w, n),
        n == 64 ==> ones_below(w & WORD_MASK, n) == ones_below(w, 63),
    decreases n,
{
    if n > 0 {
        lemma_ones_below_mask(w, (n - 1) as nat);
        lemma_bit_mask(w, (n - 1) as u64);
    }
}

/// The set bits below `n` of `w`, placed at `base`, are `ones_below(w, n)` many.
pub proof fn lemma_word_elems_len(w: u64, base: int, n: nat)
    requires
        n <= 63,
    ensures
        word_elems(w, base, n as int).finite(),
        word_elems(w, base, n as int).len() == ones_below(w, n),
    decreases n,
{
    if n == 0 {
        assert(word_elems(w, base, 0) =~= Set::empty());
    } else {
        let m = (n - 1) as nat;
        lemma_word_elems_len(w, base, m);
        let prev = word_elems(w, base, m as int);
        let cur = word_elems(w, base, n as int);
        if (w >> (m as u64)) & 1 == 1 {
            assert(cur =~= prev.insert(base + m));
            assert(!prev.contains(base + m));
        } else {
            assert(cur =~= prev);
        }
    }
}

/// The view of some words is the view without the last word, plus the last word's indices.
pub proof fn lemma_view_drop_last(ws: Seq<u64>)
    requires
        ws.len() > 0,
    ensures
        words_view(ws) == words_view(ws.drop_last()).union(
            word_elems(ws.last(), 63 * (ws.len() - 1), 63),
        ),
        words_view(ws.drop_last()).disjoint(word_elems(ws.last(), 63 * (ws.len() - 1), 63)),
{
    let k = ws.len() - 1;
    let front = words_view(ws.drop_last());
    let back = word_elems(ws.last(), 63 * k, 63);
    assert forall|i: int| words_view(ws).contains(i) <==> front.contains(i) || back.contains(i) by {
        if 0 <= i {
            if i / 63 < k {
                assert(ws.drop_last()[i / 63] == ws[i / 63]);
                assert(!(63 * k <= i));
            } else if i / 63 == k {
                assert(63 * k <= i < 63 * k + 63);
                assert(i - 63 * k == i % 63);
            } else {
                assert(!(i < 63 * k + 63));
            }
        }
    }
    assert(words_view(ws) =~= front.union(back));
    assert forall|i: int| front.contains(i) implies !back.contains(i) by {
        assert(i / 63 < k);
    }
}

/// The words stand for finitely many indices, `count_words(ws)` of them.
pub proof fn lemma_view_len(ws: Seq<u64>)
    ensures
        words_view(ws).finite(),
        words_view(ws).len() == count_words(ws),
    decreases ws.len(),
{
    if ws.len() == 0 {
        assert(words_view(ws) =~= Set::empty());
    } else {
        lemma_view_len(ws.drop_last());
        lemma_view_drop_last(ws);
        lemma_word_elems_len(ws.last(), 63 * (ws.len() - 1), 63);
        lemma_set_disjoint_lens(
            words_view(ws.drop_last()),
            word_elems(ws.last(), 63 * (ws.len() - 1), 63),
        );
    }
}

/// Counting a prefix of the words gives no more than counting all of them.
pub proof fn lemma_count_prefix(ws: Seq<u64>, i: int)
    requires
        0 <= i <= ws.len(),
    ensures
        count_words(ws.take(i)) <= count_words(ws),
    decreases ws.len(),
{
    if i < ws.len() {
        lemma_count_prefix(ws.drop_last(), i);
        assert(ws.drop_last().take(i) =~= ws.take(i));
    } else {
        assert(ws.take(i) =~= ws);
    }
}

/// Adding one word to a prefix adds that word's count.
pub proof fn lemma_count_step(ws: Seq<u64>, i: int)
    requires
        0 <= i < ws.len(),
    ensures
        count_words(ws.take(i + 1)) == count_words(ws.take(i)) + ones_below(ws[i], 63),
{
    assert(ws.take(i + 1).drop_last() =~= ws.take(i));
}

/// Appending zero words changes nothing in the view.
pub proof fn lemma_view_zero_extend(ws: Seq<u64>, grown: Seq<u64>)
    requires
        ws.len() <= grown.len(),
        forall|j: int| 0 <= j < ws.len() ==> grown[j] == ws[j],
        forall|j: int| ws.len() <= j < grown.len() ==> grown[j] == 0,
    ensures
        words_view(grown) == words_view(ws),
{
    assert forall|i: int| words_contain(grown, i) <==> words_contain(ws, i) by {
        if 0 <= i && ws.len() <= i / 63 < grown.len() {
            let b = (i % 63) as u64;
            assert((0u64 >> b) & 1 == 0) by (bit_vector);
        }
    }
    assert(words_view(grown) =~= words_view(ws));
}

/// Bit `j` of a masked word shifted right by `r` is bit `r + j` of the word, when that bit
/// stands for an index.
pub proof fn lemma_shifted_word_bit(x: u64, r: u64, j: u64, s: u64)
    requires
        r < 63,
        j < 64,
        s == r + j,
    ensures
        ((((x & WORD_MASK) >> r) >> j) & 1 == 1) == (s < 63 && (x >> s) & 1 == 1),
{
    assert(((((x & 0x7fff_ffff_ffff_ffffu64) >> r) >> j) & 1 == 1) == (s < 63 && (x >> s) & 1
        == 1)) by (bit_vector)
        requires
            r < 63,
            j < 64,
            s == r + j,
    ;
}

/// Shifting right twice is shifting right once by the sum.
pub proof fn lemma_shift_shift(y: u64, r: u64, s: u64, total: u64)
    requires
        total == r + s,
        total < 64,
    ensures
        (y >> r) >> s == y >> total,
{
    lemma_u64_shr_is_div(y, r);
    lemma_u64_shr_is_div(y >> r, s);
    lemma_u64_shr_is_div(y, total);
    lemma_pow2_pos(r as nat);
    lemma_pow2_pos(s as nat);
    lemma_pow2_adds(r as nat, s as nat);
    lemma_div_denominator(y as int, pow2(r as nat) as int, pow2(s as nat) as int);
}

/// No word has bit 63 set.
pub open spec fn words_clean(ws: Seq<u64>) -> bool {
    forall|j: int| 0 <= j < ws.len() ==> #[trigger] ws[j] <= WORD_MASK
}

/// Setting a bit that stands for an index keeps bit 63 clear.
pub proof fn lemma_clean_set_bit(w: u64, b: u64)
    requires
        w <= WORD_MASK,
        b < 63,
    ensures
        w | (1u64 << b) <= WORD_MASK,
{
    assert(w | (1u64 << b) <= 0x7fff_ffff_ffff_ffffu64) by (bit_vector)
        requires
            w <= 0x7fff_ffff_ffff_ffffu64,
            b < 63,
    ;
}

/// Clearing a bit keeps bit 63 clear.
pub proof fn lemma_clean_clear_bit(w: u64, b: u64)
    requires
        w <= WORD_MASK,
        b < 64,
    ensures
        w & !(1u64 << b) <= WORD_MASK,
{
    assert(w & !(1u64 << b) <= 0x7fff_ffff_ffff_ffffu64) by (bit_vector)
        requires
            w <= 0x7fff_ffff_ffff_ffffu64,
            b < 64,
    ;
}

/// The union of two words with bit 63 clear has bit 63 clear.
pub proof fn lemma_clean_or(a: u64, b: u64)
    requires
        a <= WORD_MASK,
        b <= WORD_MASK,
    ensures
        a | b <= WORD_MASK,
{
    assert(a | b <= 0x7fff_ffff_ffff_ffffu64) by (bit_vector)
        requires
            a <= 0x7fff_ffff_ffff_ffffu64,
            b <= 0x7fff_ffff_ffff_ffffu64,
    ;
}

/// Taking bits away from a word with bit 63 clear keeps it clear.
pub proof fn lemma_clean_and_not(a: u64, b: u64)
    requires
        a <= WORD_MASK,
    ensures
        a & !b <= WORD_MASK,
{
    assert(a & !b <= 0x7fff_ffff_ffff_ffffu64) by (bit_vector)
        requires
            a <= 0x7fff_ffff_ffff_ffffu64,
    ;
}

/// Counts the one bits of `x`, bit by bit.
pub fn count_ones(x: u64) -> (n: u32)
    ensures
        n == ones_below(x, 64),
{
    let mut n: u32 = 0;
    let mut b: u64 = 0;
    while b < 64
        invariant
            b <= 64,
            n == ones_below(x, b as nat),
            n <= b,
        decreases 64 - b,
    {
        let bit = (x >> b) & 1;
        assert(bit == 0 || bit == 1) by (bit_vector)
            requires
                bit == (x >> b) & 1,
        ;
        n = n + bit as u32;
        b = b + 1;
    }
    n
}

} // verus!
