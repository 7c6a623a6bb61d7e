//! Machine words: how a value wider or narrower than the host's register is
//! laid out as a run of words, low word first, and read back.

use vstd::prelude::*;

verus! {

/// One more than the largest machine word: `2^32` or `2^64`.
pub open spec fn word_modulus() -> int {
    usize::MAX + 1
}

/// The two's-complement bit pattern of `v` in a field that holds `modulus`
/// values, read as an unsigned number.
pub open spec fn pattern_of(v: int, modulus: int) -> int {
    v % modulus
}

/// The signed number that the bit pattern `pattern` stands for in a field
/// that holds `modulus` values.
pub open spec fn signed_of(pattern: int, modulus: int) -> int {
    if 2 * pattern >= modulus {
        pattern - modulus
    } else {
        pattern
    }
}

/// The `count` lowest machine words of `pattern`, low word first.
pub open spec fn split(pattern: int, count: nat) -> Seq<usize>
    decreases count,
{
    if count == 0 {
        Seq::empty()
    } else {
        seq![(pattern % word_modulus()) as usize] + split(
            pattern / word_modulus(),
            (count - 1) as nat,
        )
    }
}

/// The number whose machine words, low word first, are `words`.
pub open spec fn join(words: Seq<usize>) -> int
    decreases words.len(),
{
    if words.len() == 0 {
        0
    } else {
        words[0] + word_modulus() * join(words.drop_first())
    }
}

/// The width of a machine word in bytes: 4 or 8.
pub open spec fn word_bytes() -> int {
    usize::BITS as int / 8
}

/// How many machine words a value of `bits` bits takes: one if it fits,
/// else `bits` divided by the word's width.
pub open spec fn word_count(bits: nat) -> nat {
    if bits <= usize::BITS {
        1
    } else {
        bits / (usize::BITS as nat)
    }
}

/// The machine words of a `bits`-wide value with bit pattern `pattern`:
/// zero-extended to one word if it fits, else split low word first.
pub open spec fn words_of(pattern: int, bits: nat) -> Seq<usize> {
    split(pattern, word_count(bits))
}

/// `word_modulus()` raised to `count`: how many values `count` words hold.
pub open spec fn span(count: nat) -> int
    decreases count,
{
    if count == 0 {
        1
    } else {
        word_modulus() * span((count - 1) as nat)
    }
}

/// `split` yields exactly `count` words.
pub proof fn lemma_split_len(pattern: int, count: nat)
    ensures
        split(pattern, count).len() == count,
    decreases count,
{
    if count > 0 {
        lemma_split_len(pattern / word_modulus(), (count - 1) as nat);
    }
}

/// Joining the words of a pattern gives the pattern back, as long as the
/// pattern fits in that many words.
pub proof fn lemma_join_split(pattern: int, count: nat)
    requires
        0 <= pattern < span(count),
    ensures
        join(split(pattern, count)) == pattern,
    decreases count,
{
    if count > 0 {
        let m = word_modulus();
        let rest = pattern / m;
        let tail = split(rest, (count - 1) as nat);
        let all = split(pattern, count);
        assert(all.drop_first() =~= tail);
        assert(0 <= rest < span((count - 1) as nat)) by (nonlinear_arith)
            requires
                0 <= pattern < m * span((count - 1) as nat),
                m > 0,
                rest == pattern / m,
        ;
        lemma_join_split(rest, (count - 1) as nat);
        assert(pattern == (pattern % m) + m * rest) by (nonlinear_arith)
            requires
                m > 0,
                rest == pattern / m,
        ;
        assert(0 <= pattern % m < m) by (nonlinear_arith)
            requires
                m > 0,
        ;
    }
}

/// Splitting the number that a run of words stands for gives the words back.
pub proof fn lemma_split_join(words: Seq<usize>)
    ensures
        split(join(words), words.len()) == words,
        0 <= join(words) < span(words.len()),
    decreases words.len(),
{
    if words.len() == 0 {
        assert(split(join(words), 0) =~= words);
    } else {
        let m = word_modulus();
        let tail = words.drop_first();
        lemma_split_join(tail);
        let j = join(tail);
        let p = join(words);
        let w = words[0] as int;
        assert(p == w + m * j);
        assert(p % m == w && p / m == j) by (nonlinear_arith)
            requires
                p == w + m * j,
                0 <= w < m,
        ;
        assert(split(p, words.len()) =~= words);
        assert(0 <= p < m * span(tail.len())) by (nonlinear_arith)
            requires
                p == w + m * j,
                0 <= w < m,
                0 <= j < span(tail.len()),
        ;
    }
}

/// The word modulus as a number: `2^64` on a 64-bit host, `2^32` on a
/// 32-bit host.
pub proof fn lemma_word_modulus()
    ensures
        usize::BITS == 64 ==> word_modulus() == 0x1_0000_0000_0000_0000,
        usize::BITS == 32 ==> word_modulus() == 0x1_0000_0000,
        usize::BITS == 64 || usize::BITS == 32,
{
    vstd::layout::unsigned_int_max_values();
    vstd::arithmetic::power2::lemma2_to64();
    vstd::arithmetic::power2::lemma2_to64_rest();
}

/// Whether a type of `bits` bits that holds `modulus` values is one of the
/// integer widths that can be pushed: 8, 16, 32, 64 or 128 bits, or a machine
/// word.
pub open spec fn is_width(bits: nat, modulus: int) -> bool {
    ||| bits == 8 && modulus == 0x100
    ||| bits == 16 && modulus == 0x1_0000
    ||| bits == 32 && modulus == 0x1_0000_0000
    ||| bits == 64 && modulus == 0x1_0000_0000_0000_0000
    ||| bits == 128 && modulus == u128::MAX + 1
    ||| bits == usize::BITS && modulus == word_modulus()
}

/// Every value of a supported width fits in the words that it is given.
pub proof fn lemma_width_fits(bits: nat, modulus: int)
    requires
        is_width(bits, modulus),
    ensures
        0 < modulus <= span(word_count(bits)),
{
    lemma_word_modulus();
    reveal_with_fuel(span, 5);
    let m = word_modulus();
    assert(span(1) == m);
    assert(span(2) == m * m);
    assert(span(4) == m * (m * (m * m)));
    if usize::BITS == 64 {
        assert(m * m == u128::MAX + 1) by (nonlinear_arith)
            requires
                m == 0x1_0000_0000_0000_0000,
        ;
    } else {
        assert(m * m == 0x1_0000_0000_0000_0000) by (nonlinear_arith)
            requires
                m == 0x1_0000_0000,
        ;
        assert(m * (m * (m * m)) == u128::MAX + 1) by (nonlinear_arith)
            requires
                m == 0x1_0000_0000,
        ;
    }
}

/// Below the width of a machine word a register pair reads as its low
/// register: what stands in the high register, a multiple of the word
/// modulus, drops out of the low bits.
pub proof fn lemma_pair_low_bits(low: usize, high: usize, modulus: int)
    requires
        modulus == 0x100 || modulus == 0x1_0000 || modulus == 0x1_0000_0000 || modulus
            == word_modulus(),
    ensures
        (low + word_modulus() * high) % modulus == (low as int) % modulus,
{
    lemma_word_modulus();
    let m = word_modulus();
    let k = m / modulus;
    assert(m == modulus * k) by {
        if usize::BITS == 64 {
            assert(0x1_0000_0000_0000_0000int == 0x100 * 0x100_0000_0000_0000int);
            assert(0x1_0000_0000_0000_0000int == 0x1_0000 * 0x1_0000_0000_0000int);
            assert(0x1_0000_0000_0000_0000int == 0x1_0000_0000 * 0x1_0000_0000int);
        } else {
            assert(0x1_0000_0000int == 0x100 * 0x100_0000int);
            assert(0x1_0000_0000int == 0x1_0000 * 0x1_0000int);
        }
        if modulus == m {
            assert(m / m == 1) by (nonlinear_arith)
                requires
                    m > 0,
            ;
        }
    }
    assert(m * high == modulus * (k * high)) by (nonlinear_arith)
        requires
            m == modulus * k,
    ;
    vstd::arithmetic::div_mod::lemma_mod_multiples_vanish(k * high, low as int, modulus);
    assert(low + m * high == modulus * (k * high) + low);
}

/// Whether the host's machine word is 64 bits wide; it is 32 bits otherwise.
pub fn host_is_wide() -> (wide: bool)
    ensures
        wide == (usize::BITS == 64),
        !wide == (usize::BITS == 32),
{
    usize::BITS == 64
}

/// A pattern that fits one machine word, as the one word it takes.
pub fn single_word(pattern: usize) -> (words: Vec<usize>)
    ensures
        words@ == split(pattern as int, 1),
        words@ == seq![pattern],
{
    let words: Vec<usize> = vec![pattern];
    proof {
        lemma_word_modulus();
        reveal_with_fuel(split, 2);
        assert(split(pattern as int, 1) =~= seq![pattern]);
    }
    words
}

/// The machine words of a 64-bit pattern: one word on a 64-bit host, the low
/// and then the high half on a 32-bit host.
pub fn split_u64(pattern: u64) -> (words: Vec<usize>)
    ensures
        words@ == words_of(pattern as int, 64),
        usize::BITS == 64 ==> words@ == seq![pattern as usize],
        usize::BITS == 32 ==> words@ == seq![
            (pattern % 0x1_0000_0000) as usize,
            (pattern / 0x1_0000_0000) as usize,
        ],
{
    if host_is_wide() {
        single_word(pattern as usize)
    } else {
        let low: u64 = pattern & 0xffff_ffff;
        let high: u64 = pattern >> 32;
        assert(low == pattern % 0x1_0000_0000 && high == pattern / 0x1_0000_0000
            && high < 0x1_0000_0000) by (bit_vector)
            requires
                low == pattern & 0xffff_ffff,
                high == pattern >> 32,
        ;
        let words: Vec<usize> = vec![low as usize, high as usize];
        proof {
            lemma_word_modulus();
            reveal_with_fuel(split, 3);
            assert(split(pattern as int, 2) =~= words@);
        }
        words
    }
}

/// The machine words of a 128-bit pattern, low word first: two on a 64-bit
/// host, four on a 32-bit host.
pub fn split_u128(pattern: u128) -> (words: Vec<usize>)
    ensures
        words@ == words_of(pattern as int, 128),
        usize::BITS == 64 ==> words@.len() == 2,
        usize::BITS == 32 ==> words@.len() == 4,
{
    if host_is_wide() {
        let low: u128 = pattern & 0xffff_ffff_ffff_ffff;
        let high: u128 = pattern >> 64;
        assert(low == pattern % 0x1_0000_0000_0000_0000 && high == pattern
            / 0x1_0000_0000_0000_0000 && high < 0x1_0000_0000_0000_0000) by (bit_vector)
            requires
                low == pattern & 0xffff_ffff_ffff_ffff,
                high == pattern >> 64,
        ;
        let words: Vec<usize> = vec![low as usize, high as usize];
        proof {
            lemma_word_modulus();
            reveal_with_fuel(split, 3);
            assert(split(pattern as int, 2) =~= words@);
        }
        words
    } else {
        let w0: u128 = pattern & 0xffff_ffff;
        let w1: u128 = (pattern >> 32) & 0xffff_ffff;
        let w2: u128 = (pattern >> 64) & 0xffff_ffff;
        let w3: u128 = pattern >> 96;
        assert(w0 == pattern % 0x1_0000_0000 && w1 == (pattern / 0x1_0000_0000) % 0x1_0000_0000
            && w2 == (pattern / 0x1_0000_0000 / 0x1_0000_0000) % 0x1_0000_0000 && w3 == pattern
            / 0x1_0000_0000 / 0x1_0000_0000 / 0x1_0000_0000 && w3 < 0x1_0000_0000)
            by (bit_vector)
            requires
                w0 == pattern & 0xffff_ffff,
                w1 == (pattern >> 32) & 0xffff_ffff,
                w2 == (pattern >> 64) & 0xffff_ffff,
                w3 == pattern >> 96,
        ;
        let words: Vec<usize> = vec![w0 as usize, w1 as usize, w2 as usize, w3 as usize];
        proof {
            lemma_word_modulus();
            reveal_with_fuel(split, 5);
            assert(split(pattern as int, 4) =~= words@);
        }
        words
    }
}

} // verus!
