//! What holds of whole runs of pushes and of the frames laid out from them.

use vstd::prelude::*;
use crate::arg::IntoArg;
use crate::float::{lemma_narrow_determined, lemma_narrow_widened, Double, Single};
use crate::frame::{CallFrame, FLOAT_REGISTERS, INT_REGISTERS};
use crate::func::{Func, Queues};
use crate::word::{
    is_width, join, lemma_join_split, lemma_width_fits, lemma_word_modulus, pattern_of, span,
    split, word_bytes, word_count, word_modulus, words_of,
};

verus! {

/// One argument as the builder receives it: its double-precision pattern if
/// it is a floating-point value, and its machine words.
pub struct Encoded {
    pub float_bits: Option<u64>,
    pub words: Seq<usize>,
}

/// The argument that the builder receives for `arg`.
pub open spec fn encode<T: IntoArg>(arg: T) -> Encoded {
    Encoded { float_bits: arg.float_bits(), words: arg.words() }
}

/// A double with the given pattern, as the builder receives it.
pub open spec fn encode_double(bits: u64) -> Encoded {
    Encoded { float_bits: Some(bits), words: words_of(bits as int, 64) }
}

/// The queues after pushing `args`, first to last, onto an empty builder.
pub open spec fn pushed(args: Seq<Encoded>) -> Queues
    decreases args.len(),
{
    if args.len() == 0 {
        Queues::empty()
    } else {
        pushed(args.drop_last()).route(args.last().float_bits, args.last().words)
    }
}

/// One more push is one more step of `pushed`: the queues that `push` leaves
/// for `arg` after `args` are those of `args` with `arg` at the end.
pub proof fn lemma_push_extends<T: IntoArg>(args: Seq<Encoded>, arg: T)
    ensures
        pushed(args.push(encode(arg))) == pushed(args).route(arg.float_bits(), arg.words()),
{
    assert(args.push(encode(arg)).drop_last() =~= args);
}

/// The patterns of the floating-point arguments among `args`, in order.
pub open spec fn float_patterns(args: Seq<Encoded>) -> Seq<u64>
    decreases args.len(),
{
    if args.len() == 0 {
        Seq::empty()
    } else {
        let before = float_patterns(args.drop_last());
        match args.last().float_bits {
            Some(bits) => before.push(bits),
            None => before,
        }
    }
}

/// Whether argument `i` of `args` travels in a float register: it is a
/// floating-point value, the host is 64-bit, and fewer than eight floats
/// come before it.
pub open spec fn in_float_register(args: Seq<Encoded>, i: int) -> bool {
    &&& args[i].float_bits is Some
    &&& usize::BITS == 64
    &&& float_patterns(args.take(i)).len() < FLOAT_REGISTERS
}

/// The words of every argument that does not travel in a float register, in
/// the order of the arguments.
pub open spec fn queued_words(args: Seq<Encoded>) -> Seq<usize>
    decreases args.len(),
{
    if args.len() == 0 {
        Seq::empty()
    } else if in_float_register(args, args.len() - 1) {
        queued_words(args.drop_last())
    } else {
        queued_words(args.drop_last()) + args.last().words
    }
}

/// The first `count` entries of `patterns`, or all of them if there are
/// fewer.
pub open spec fn first(patterns: Seq<u64>, count: nat) -> Seq<u64> {
    if patterns.len() <= count {
        patterns
    } else {
        patterns.take(count as int)
    }
}

/// Pushing in source order fills the queues in source order. On a 64-bit
/// host the float queue holds the first eight floating-point arguments, in
/// order, so that its length is their number or eight, whichever is less;
/// on a 32-bit host it stays empty. The word queue holds the words of
/// all other arguments, in order, each argument's words together.
pub proof fn lemma_pushed_in_order(args: Seq<Encoded>)
    ensures
        pushed(args).bounded(),
        usize::BITS == 64 ==> pushed(args).fp == first(float_patterns(args), FLOAT_REGISTERS as nat),
        usize::BITS == 64 ==> pushed(args).fp.len() == if float_patterns(args).len()
            <= FLOAT_REGISTERS {
            float_patterns(args).len()
        } else {
            FLOAT_REGISTERS as nat
        },
        usize::BITS == 32 ==> pushed(args).fp == Seq::<u64>::empty(),
        pushed(args).gp == queued_words(args),
    decreases args.len(),
{
    lemma_word_modulus();
    if args.len() > 0 {
        let before = args.drop_last();
        lemma_pushed_in_order(before);
        assert(args.take(args.len() - 1) =~= before);
        let patterns = float_patterns(before);
        if usize::BITS == 64 {
            match args.last().float_bits {
                Some(bits) => {
                    if patterns.len() < FLOAT_REGISTERS {
                        assert(first(patterns.push(bits), FLOAT_REGISTERS as nat) =~= patterns.push(
                            bits,
                        ));
                    } else {
                        assert(first(patterns.push(bits), FLOAT_REGISTERS as nat) =~= first(
                            patterns,
                            FLOAT_REGISTERS as nat,
                        ));
                    }
                },
                None => {},
            }
        }
    }
}

/// Order preservation for integer arguments: if no argument is a
/// floating-point value, the word queue is the arguments' words laid end to
/// end, and no float is queued.
pub proof fn lemma_integers_in_order(args: Seq<Encoded>)
    requires
        forall|i: int| 0 <= i < args.len() ==> args[i].float_bits is None,
    ensures
        pushed(args).fp == Seq::<u64>::empty(),
        pushed(args).gp == args.map_values(|a: Encoded| a.words).flatten(),
    decreases args.len(),
{
    let each = args.map_values(|a: Encoded| a.words);
    if args.len() == 0 {
        assert(each =~= Seq::<Seq<usize>>::empty());
        assert(each.flatten() =~= Seq::<usize>::empty());
    } else {
        let before = args.drop_last();
        lemma_integers_in_order(before);
        let each_before = before.map_values(|a: Encoded| a.words);
        assert(each =~= each_before.push(args.last().words));
        each_before.lemma_flatten_push(args.last().words);
    }
}

/// Float spill: on a 64-bit host, doubles pushed onto an empty builder fill
/// the float queue up to eight; from the ninth on each lands in the word
/// queue as one word that holds its bit pattern.
pub proof fn lemma_float_spill(floats: Seq<u64>)
    requires
        usize::BITS == 64,
    ensures
        pushed(floats.map_values(|bits: u64| encode_double(bits))).fp == first(
            floats,
            FLOAT_REGISTERS as nat,
        ),
        pushed(floats.map_values(|bits: u64| encode_double(bits))).gp == if floats.len()
            <= FLOAT_REGISTERS {
            Seq::<usize>::empty()
        } else {
            floats.skip(FLOAT_REGISTERS as int).map_values(|bits: u64| bits as usize)
        },
    decreases floats.len(),
{
    lemma_word_modulus();
    let args = floats.map_values(|bits: u64| encode_double(bits));
    if floats.len() > 0 {
        let before = floats.drop_last();
        let last = floats.last();
        lemma_float_spill(before);
        assert(args.drop_last() =~= before.map_values(|bits: u64| encode_double(bits)));
        let q = pushed(args.drop_last());
        if before.len() < FLOAT_REGISTERS {
            assert(first(floats, FLOAT_REGISTERS as nat) =~= first(
                before,
                FLOAT_REGISTERS as nat,
            ).push(last));
        } else {
            assert(first(floats, FLOAT_REGISTERS as nat) =~= first(
                before,
                FLOAT_REGISTERS as nat,
            ));
            reveal_with_fuel(split, 2);
            assert(words_of(last as int, 64) =~= seq![last as usize]);
            let spilled = floats.skip(FLOAT_REGISTERS as int).map_values(|bits: u64| bits as usize);
            if before.len() == FLOAT_REGISTERS {
                assert(spilled =~= Seq::<usize>::empty() + seq![last as usize]);
            } else {
                assert(spilled =~= before.skip(FLOAT_REGISTERS as int).map_values(
                    |bits: u64| bits as usize,
                ) + seq![last as usize]);
            }
        }
    }
}

/// Register and stack order under System V AMD64: integer register `i`
/// holds word `i` of the queue, stack slot `k` above the stack pointer holds
/// word `6 + k`, float register `i` holds float `i`, and `AL` counts the
/// float registers in use.
pub proof fn lemma_sysv_slots(frame: CallFrame, target: usize, gp: Seq<usize>, fp: Seq<u64>)
    requires
        frame.is_sysv(target, gp, fp),
    ensures
        frame.callee_words() == gp,
        forall|i: int| 0 <= i < frame.int_regs@.len() ==> frame.int_regs@[i] == gp[i],
        forall|k: int| 0 <= k < frame.stack().len() ==> frame.stack()[k] == gp[INT_REGISTERS + k],
        forall|i: int| 0 <= i < frame.float_regs@.len() ==> frame.float_regs@[i] == fp[i],
        frame.vector_count == frame.float_regs@.len(),
        frame.int_regs@.len() + frame.stack().len() == gp.len(),
        frame.stack().len() > 0 ==> frame.int_regs@.len() == INT_REGISTERS,
{
    let in_regs = if gp.len() <= INT_REGISTERS {
        gp.len() as int
    } else {
        INT_REGISTERS as int
    };
    let rest = gp.skip(in_regs);
    assert(rest.reverse().reverse() =~= rest);
    assert(gp.take(in_regs) + rest =~= gp);
}

/// Stack order on i386: slot `k` above the stack pointer holds word `k` of
/// the queue.
pub proof fn lemma_i386_slots(frame: CallFrame, target: usize, gp: Seq<usize>, caller_cleans: bool)
    requires
        frame.is_i386(target, gp, caller_cleans),
    ensures
        frame.callee_words() == gp,
        frame.stack() == gp,
{
    assert(gp.reverse().reverse() =~= gp);
    assert(frame.callee_words() =~= gp);
}

/// Whether the return registers of `f` are what a function that hands its
/// argument back leaves for an integer argument queued as `words`, of a type
/// that holds `modulus` values: the register pair agrees with the argument
/// within the type's width, and the bits above are whatever the callee left.
pub open spec fn echoes(f: Func, words: Seq<usize>, modulus: int) -> bool {
    f.ret_pair() % modulus == join(words) % modulus
}

/// A bit pattern queued as words and echoed by the callee reads back as
/// itself.
pub proof fn lemma_echo(f: Func, pattern: int, bits: nat, modulus: int)
    requires
        is_width(bits, modulus),
        0 <= pattern < modulus,
        echoes(f, words_of(pattern, bits), modulus),
    ensures
        f.ret_unsigned(modulus) == pattern,
{
    lemma_width_fits(bits, modulus);
    lemma_join_split(pattern, word_count(bits));
    vstd::arithmetic::div_mod::lemma_small_mod(pattern as nat, modulus as nat);
}

/// A `u8` pushed, echoed by the callee and read back is the value pushed.
pub proof fn lemma_round_trip_u8(f: Func, v: u8)
    requires
        echoes(f, v.words(), 0x100),
    ensures
        f.ret_unsigned(0x100) == v,
{
    lemma_echo(f, v as int, 8, 0x100);
}

/// An `i8` pushed, echoed by the callee and read back is the value pushed.
pub proof fn lemma_round_trip_i8(f: Func, v: i8)
    requires
        echoes(f, v.words(), 0x100),
    ensures
        f.ret_signed(0x100) == v,
{
    lemma_word_modulus();
    lemma_echo(f, pattern_of(v as int, 0x100), 8, 0x100);
}

/// A `u16` pushed, echoed by the callee and read back is the value pushed.
pub proof fn lemma_round_trip_u16(f: Func, v: u16)
    requires
        echoes(f, v.words(), 0x1_0000),
    ensures
        f.ret_unsigned(0x1_0000) == v,
{
    lemma_echo(f, v as int, 16, 0x1_0000);
}

/// An `i16` pushed, echoed by the callee and read back is the value pushed.
pub proof fn lemma_round_trip_i16(f: Func, v: i16)
    requires
        echoes(f, v.words(), 0x1_0000),
    ensures
        f.ret_signed(0x1_0000) == v,
{
    lemma_word_modulus();
    lemma_echo(f, pattern_of(v as int, 0x1_0000), 16, 0x1_0000);
}

/// A `u32` pushed, echoed by the callee and read back is the value pushed.
pub proof fn lemma_round_trip_u32(f: Func, v: u32)
    requires
        echoes(f, v.words(), 0x1_0000_0000),
    ensures
        f.ret_unsigned(0x1_0000_0000) == v,
{
    lemma_echo(f, v as int, 32, 0x1_0000_0000);
}

/// An `i32` pushed, echoed by the callee and read back is the value pushed.
pub proof fn lemma_round_trip_i32(f: Func, v: i32)
    requires
        echoes(f, v.words(), 0x1_0000_0000),
    ensures
        f.ret_signed(0x1_0000_0000) == v,
{
    lemma_word_modulus();
    lemma_echo(f, pattern_of(v as int, 0x1_0000_0000), 32, 0x1_0000_0000);
}

/// A `u64` pushed, echoed by the callee and read back is the value pushed.
pub proof fn lemma_round_trip_u64(f: Func, v: u64)
    requires
        echoes(f, v.words(), 0x1_0000_0000_0000_0000),
    ensures
        f.ret_unsigned(0x1_0000_0000_0000_0000) == v,
{
    lemma_echo(f, v as int, 64, 0x1_0000_0000_0000_0000);
}

/// An `i64` pushed, echoed by the callee and read back is the value pushed.
pub proof fn lemma_round_trip_i64(f: Func, v: i64)
    requires
        echoes(f, v.words(), 0x1_0000_0000_0000_0000),
    ensures
        f.ret_signed(0x1_0000_0000_0000_0000) == v,
{
    lemma_word_modulus();
    lemma_echo(f, pattern_of(v as int, 0x1_0000_0000_0000_0000), 64, 0x1_0000_0000_0000_0000);
}

/// A `usize` pushed, echoed by the callee and read back is the value pushed.
pub proof fn lemma_round_trip_usize(f: Func, v: usize)
    requires
        echoes(f, v.words(), word_modulus()),
    ensures
        f.ret_unsigned(word_modulus()) == v,
{
    lemma_echo(f, v as int, usize::BITS as nat, word_modulus());
}

/// An `isize` pushed, echoed by the callee and read back is the value pushed.
pub proof fn lemma_round_trip_isize(f: Func, v: isize)
    requires
        echoes(f, v.words(), word_modulus()),
    ensures
        f.ret_signed(word_modulus()) == v,
{
    lemma_word_modulus();
    lemma_echo(f, pattern_of(v as int, word_modulus()), usize::BITS as nat, word_modulus());
}

/// A `u128` pushed, echoed by the callee and read back is the value pushed.
pub proof fn lemma_round_trip_u128(f: Func, v: u128)
    requires
        usize::BITS == 64,
        echoes(f, v.words(), u128::MAX + 1),
    ensures
        f.ret_unsigned(u128::MAX + 1) == v,
{
    lemma_echo(f, v as int, 128, u128::MAX + 1);
}

/// An `i128` pushed, echoed by the callee and read back is the value pushed.
pub proof fn lemma_round_trip_i128(f: Func, v: i128)
    requires
        usize::BITS == 64,
        echoes(f, v.words(), u128::MAX + 1),
    ensures
        f.ret_signed(u128::MAX + 1) == v,
{
    lemma_word_modulus();
    lemma_echo(f, pattern_of(v as int, u128::MAX + 1), 128, u128::MAX + 1);
}

/// A double pushed onto an empty builder and echoed by the callee reads back
/// with the pattern pushed. On a 64-bit host it travels in the first float
/// register; on a 32-bit host its words travel on the stack and the callee
/// returns the number that they spell.
pub proof fn lemma_round_trip_double(f: Func, bits: u64)
    requires
        usize::BITS == 64 ==> f.ret_fp() == pushed(seq![encode_double(bits)]).fp[0],
        usize::BITS == 32 ==> f.ret_fp() == join(pushed(seq![encode_double(bits)]).gp),
    ensures
        f.ret_fp() == bits,
{
    lemma_word_modulus();
    let args = seq![encode_double(bits)];
    assert(args.drop_last() =~= Seq::<Encoded>::empty());
    reveal_with_fuel(pushed, 2);
    if usize::BITS == 32 {
        reveal_with_fuel(span, 3);
        assert(pushed(args).gp =~= words_of(bits as int, 64));
        lemma_join_split(bits as int, 2);
    }
}

/// A single-precision number that is pushed, echoed by the callee in the
/// floating-point return register and read back in single precision is the
/// number pushed, bit for bit, unless it is a signalling NaN, which comes
/// back quiet.
pub proof fn lemma_round_trip_single(f: Func, s: Single, read: Single)
    requires
        !s.is_signalling(),
        f.ret_fp() == s.widened().bits,
        (Double { bits: f.ret_fp() }).narrows_to(read),
    ensures
        read == s,
{
    lemma_narrow_widened(s);
    lemma_narrow_determined(s.widened(), s, read);
}

/// Stack cleanup: a call leaves the stack pointer where it was. What the
/// trampoline pushed, padding included, it takes back itself under the C
/// conventions; under stdcall the callee takes the arguments and the
/// trampoline nothing.
pub proof fn lemma_stack_restored(
    frame: CallFrame,
    target: usize,
    gp: Seq<usize>,
    fp: Seq<u64>,
    sp: int,
)
    ensures
        frame.is_sysv(target, gp, fp) ==> frame.stack_pointer_after(sp, 0) == sp,
        frame.is_i386(target, gp, true) ==> frame.stack_pointer_after(sp, 0) == sp,
        frame.is_i386(target, gp, false) ==> frame.stack_pointer_after(
            sp,
            word_bytes() * frame.pushes@.len(),
        ) == sp,
{
    lemma_word_modulus();
    assert(gp.reverse().len() == gp.len());
}

} // verus!
