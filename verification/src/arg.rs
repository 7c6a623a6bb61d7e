//! Argument classification: what each primitive value becomes on its way to
//! the callee.

use vstd::prelude::*;
use crate::float::{Double, Single};
use crate::word::{
    host_is_wide, lemma_word_modulus, pattern_of, single_word, split_u128, split_u64,
    word_modulus, words_of,
};

verus! {

/// A value that can be handed to a native function.
///
/// An integer reaches the callee as its own bit pattern, zero-extended to a
/// machine word: no sign extension takes place, so the `i8` value `-1` is the
/// word `0xFF`. A value wider than a machine word becomes several words, low
/// word first.
pub trait IntoArg: Sized {
    /// The double-precision bit pattern of a floating-point value; `None` for
    /// an integer or an address.
    spec fn float_bits(&self) -> Option<u64>;

    /// The machine words that stand for the value, low word first.
    spec fn words(&self) -> Seq<usize>;

    /// The double-precision bit pattern, if the value is a floating-point
    /// number.
    fn as_float(&self) -> (bits: Option<u64>)
        ensures
            bits == self.float_bits(),
    ;

    /// The machine words that stand for the value, low word first. Those of a
    /// floating-point value are the words of its 64-bit pattern.
    fn into_arg(self) -> (words: Vec<usize>)
        ensures
            words@ == self.words(),
            self.float_bits() matches Some(bits) ==> words@ == words_of(bits as int, 64),
    ;
}

/// A single-precision number is widened to double precision on its way:
/// that is how the C conventions pass one.
impl IntoArg for Single {
    open spec fn float_bits(&self) -> Option<u64> {
        Some(self.widened().bits)
    }

    open spec fn words(&self) -> Seq<usize> {
        words_of(self.widened().bits as int, 64)
    }

    fn as_float(&self) -> (bits: Option<u64>) {
        Some(self.widen().bits)
    }

    fn into_arg(self) -> (words: Vec<usize>) {
        split_u64(self.widen().bits)
    }
}

impl IntoArg for Double {
    open spec fn float_bits(&self) -> Option<u64> {
        Some(self.bits)
    }

    open spec fn words(&self) -> Seq<usize> {
        words_of(self.bits as int, 64)
    }

    fn as_float(&self) -> (bits: Option<u64>) {
        Some(self.bits)
    }

    fn into_arg(self) -> (words: Vec<usize>) {
        split_u64(self.bits)
    }
}

impl IntoArg for u8 {
    open spec fn float_bits(&self) -> Option<u64> {
        None
    }

    open spec fn words(&self) -> Seq<usize> {
        words_of(*self as int, 8)
    }

    fn as_float(&self) -> (bits: Option<u64>) {
        None
    }

    fn into_arg(self) -> (words: Vec<usize>) {
        single_word(self as usize)
    }
}

impl IntoArg for i8 {
    open spec fn float_bits(&self) -> Option<u64> {
        None
    }

    open spec fn words(&self) -> Seq<usize> {
        words_of(pattern_of(*self as int, 0x100), 8)
    }

    fn as_float(&self) -> (bits: Option<u64>) {
        None
    }

    fn into_arg(self) -> (words: Vec<usize>) {
        let pattern: u8 = #[verifier::truncate] (self as u8);
        assert(pattern as int == (self as int) % 0x100) by (bit_vector)
            requires
                pattern == self as u8,
        ;
        single_word(pattern as usize)
    }
}

impl IntoArg for u16 {
    open spec fn float_bits(&self) -> Option<u64> {
        None
    }

    open spec fn words(&self) -> Seq<usize> {
        words_of(*self as int, 16)
    }

    fn as_float(&self) -> (bits: Option<u64>) {
        None
    }

    fn into_arg(self) -> (words: Vec<usize>) {
        single_word(self as usize)
    }
}

impl IntoArg for i16 {
    open spec fn float_bits(&self) -> Option<u64> {
        None
    }

    open spec fn words(&self) -> Seq<usize> {
        words_of(pattern_of(*self as int, 0x1_0000), 16)
    }

    fn as_float(&self) -> (bits: Option<u64>) {
        None
    }

    fn into_arg(self) -> (words: Vec<usize>) {
        let pattern: u16 = #[verifier::truncate] (self as u16);
        assert(pattern as int == (self as int) % 0x1_0000) by (bit_vector)
            requires
                pattern == self as u16,
        ;
        single_word(pattern as usize)
    }
}

impl IntoArg for u32 {
    open spec fn float_bits(&self) -> Option<u64> {
        None
    }

    open spec fn words(&self) -> Seq<usize> {
        words_of(*self as int, 32)
    }

    fn as_float(&self) -> (bits: Option<u64>) {
        None
    }

    fn into_arg(self) -> (words: Vec<usize>) {
        single_word(self as usize)
    }
}

impl IntoArg for i32 {
    open spec fn float_bits(&self) -> Option<u64> {
        None
    }

    open spec fn words(&self) -> Seq<usize> {
        words_of(pattern_of(*self as int, 0x1_0000_0000), 32)
    }

    fn as_float(&self) -> (bits: Option<u64>) {
        None
    }

    fn into_arg(self) -> (words: Vec<usize>) {
        let pattern: u32 = #[verifier::truncate] (self as u32);
        assert(pattern as int == (self as int) % 0x1_0000_0000) by (bit_vector)
            requires
                pattern == self as u32,
        ;
        single_word(pattern as usize)
    }
}

impl IntoArg for u128 {
    open spec fn float_bits(&self) -> Option<u64> {
        None
    }

    open spec fn words(&self) -> Seq<usize> {
        words_of(*self as int, 128)
    }

    fn as_float(&self) -> (bits: Option<u64>) {
        None
    }

    fn into_arg(self) -> (words: Vec<usize>) {
        split_u128(self)
    }
}

/// A machine word as it is; an address is pushed as one.
impl IntoArg for usize {
    open spec fn float_bits(&self) -> Option<u64> {
        None
    }

    open spec fn words(&self) -> Seq<usize> {
        words_of(*self as int, usize::BITS as nat)
    }

    fn as_float(&self) -> (bits: Option<u64>) {
        None
    }

    fn into_arg(self) -> (words: Vec<usize>) {
        single_word(self)
    }
}

impl IntoArg for u64 {
    open spec fn float_bits(&self) -> Option<u64> {
        None
    }

    open spec fn words(&self) -> Seq<usize> {
        words_of(*self as int, 64)
    }

    fn as_float(&self) -> (bits: Option<u64>) {
        None
    }

    fn into_arg(self) -> (words: Vec<usize>) {
        split_u64(self)
    }
}

impl IntoArg for i64 {
    open spec fn float_bits(&self) -> Option<u64> {
        None
    }

    open spec fn words(&self) -> Seq<usize> {
        words_of(pattern_of(*self as int, 0x1_0000_0000_0000_0000), 64)
    }

    fn as_float(&self) -> (bits: Option<u64>) {
        None
    }

    fn into_arg(self) -> (words: Vec<usize>) {
        let pattern: u64 = #[verifier::truncate] (self as u64);
        assert(pattern as int == (self as int) % 0x1_0000_0000_0000_0000) by (bit_vector)
            requires
                pattern == self as u64,
        ;
        split_u64(pattern)
    }
}

impl IntoArg for i128 {
    open spec fn float_bits(&self) -> Option<u64> {
        None
    }

    open spec fn words(&self) -> Seq<usize> {
        words_of(pattern_of(*self as int, (u128::MAX + 1)), 128)
    }

    fn as_float(&self) -> (bits: Option<u64>) {
        None
    }

    fn into_arg(self) -> (words: Vec<usize>) {
        let pattern: u128 = #[verifier::truncate] (self as u128);
        assert(pattern as int == (self as int) % (u128::MAX + 1))
            by (bit_vector)
            requires
                pattern == self as u128,
        ;
        split_u128(pattern)
    }
}

impl IntoArg for isize {
    open spec fn float_bits(&self) -> Option<u64> {
        None
    }

    open spec fn words(&self) -> Seq<usize> {
        words_of(pattern_of(*self as int, word_modulus()), usize::BITS as nat)
    }

    fn as_float(&self) -> (bits: Option<u64>) {
        None
    }

    fn into_arg(self) -> (words: Vec<usize>) {
        proof {
            lemma_word_modulus();
        }
        if host_is_wide() {
            let value: i64 = self as i64;
            let pattern: u64 = #[verifier::truncate] (value as u64);
            assert(pattern as int == (value as int) % 0x1_0000_0000_0000_0000) by (bit_vector)
                requires
                    pattern == value as u64,
            ;
            single_word(pattern as usize)
        } else {
            let value: i32 = self as i32;
            let pattern: u32 = #[verifier::truncate] (value as u32);
            assert(pattern as int == (value as int) % 0x1_0000_0000) by (bit_vector)
                requires
                    pattern == value as u32,
            ;
            single_word(pattern as usize)
        }
    }
}

} // verus!
