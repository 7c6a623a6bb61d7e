//! The invocation builder: a code address, the arguments queued for it, and
//! the registers captured when it returned.

use vstd::prelude::*;
use crate::arg::IntoArg;
use crate::float::{Double, Single};
use crate::frame::{i386_frame, sysv_frame, CallFrame, FLOAT_REGISTERS};
use crate::word::{
    host_is_wide, lemma_pair_low_bits, lemma_word_modulus, signed_of, word_modulus,
};

verus! {

/// The two argument queues of an invocation, as sequences.
pub struct Queues {
    /// Integer-class words, in the order of the pushes.
    pub gp: Seq<usize>,
    /// Floating-point patterns bound for registers, in the order of the pushes.
    pub fp: Seq<u64>,
}

impl Queues {
    /// Two empty queues.
    pub open spec fn empty() -> Queues {
        Queues { gp: Seq::empty(), fp: Seq::empty() }
    }

    /// Whether an argument pushed now goes to the float queue: it is a
    /// floating-point value, the host is 64-bit, and a float register is
    /// still free.
    pub open spec fn takes_float(self, float_bits: Option<u64>) -> bool {
        float_bits is Some && usize::BITS == 64 && self.fp.len() < FLOAT_REGISTERS
    }

    /// Whether the float queue fits the float registers, and is empty on a
    /// 32-bit host, which passes no argument in a float register.
    pub open spec fn bounded(self) -> bool {
        &&& self.fp.len() <= FLOAT_REGISTERS
        &&& usize::BITS == 32 ==> self.fp.len() == 0
    }

    /// The queues after one more argument, given by its float pattern (if it
    /// is a float) and its machine words. A float goes to the float queue
    /// while that has room on a 64-bit host; everything else is appended to
    /// the word queue, where a float spills as the words of its pattern.
    pub open spec fn route(self, float_bits: Option<u64>, words: Seq<usize>) -> Queues {
        if self.takes_float(float_bits) {
            Queues { gp: self.gp, fp: self.fp.push(float_bits->Some_0) }
        } else {
            Queues { gp: self.gp + words, fp: self.fp }
        }
    }
}

/// One call of a native function: its address, the arguments pushed so far,
/// and the registers it returned.
#[derive(Debug, Clone, PartialEq, PartialOrd)]
pub struct Func {
    /// Address of the function to call.
    func: usize,
    /// On a 32-bit host every argument; on a 64-bit host the integer
    /// arguments and the floats beyond the first eight.
    args: Vec<usize>,
    /// On a 64-bit host the first eight floating-point arguments.
    fargs: Vec<u64>,
    /// Low half of the returned value.
    ret_low: usize,
    /// High half of the returned value.
    ret_high: usize,
    /// Bit pattern of the value in the floating-point return register.
    ret_float: u64,
}

impl Func {
    /// The invariant of an invocation: at most eight floats are queued for
    /// registers, and none on a 32-bit host.
    pub open spec fn wf(&self) -> bool {
        self.queues().bounded()
    }

    /// Address of the function to call.
    pub closed spec fn target(&self) -> usize {
        self.func
    }

    /// The argument queues.
    pub closed spec fn queues(&self) -> Queues {
        Queues { gp: self.args@, fp: self.fargs@ }
    }

    /// The low return register as captured (`EAX` or `RAX`).
    pub closed spec fn ret_lo(&self) -> usize {
        self.ret_low
    }

    /// The high return register as captured (`EDX` or `RDX`).
    pub closed spec fn ret_hi(&self) -> usize {
        self.ret_high
    }

    /// The bit pattern of the floating-point return register as captured.
    pub closed spec fn ret_fp(&self) -> u64 {
        self.ret_float
    }

    /// An invocation of the code at `address`, with nothing pushed and all
    /// return slots zero. The address is taken on trust.
    pub fn from_raw(address: usize) -> (func: Func)
        ensures
            func.target() == address,
            func.queues() == Queues::empty(),
            func.wf(),
            func.ret_lo() == 0,
            func.ret_hi() == 0,
            func.ret_fp() == 0,
    {
        Func {
            func: address,
            args: Vec::new(),
            fargs: Vec::new(),
            ret_low: 0,
            ret_high: 0,
            ret_float: 0,
        }
    }

    /// Queues one more argument, after those pushed before.
    pub fn push<T: IntoArg>(&mut self, arg: T)
        ensures
            old(self).wf() ==> final(self).wf(),
            final(self).queues() == old(self).queues().route(arg.float_bits(), arg.words()),
            final(self).target() == old(self).target(),
            final(self).ret_lo() == old(self).ret_lo(),
            final(self).ret_hi() == old(self).ret_hi(),
            final(self).ret_fp() == old(self).ret_fp(),
    {
        if host_is_wide() && self.fargs.len() < FLOAT_REGISTERS {
            if let Some(bits) = arg.as_float() {
                self.fargs.push(bits);
                return ;
            }
        }
        let mut words = arg.into_arg();
        self.args.append(&mut words);
    }

    /// Lays the queued arguments out for a call under the C convention of
    /// the host: System V AMD64 on a 64-bit host, cdecl on a 32-bit host.
    pub fn cdecl(&self) -> (frame: CallFrame)
        requires
            self.wf(),
        ensures
            usize::BITS == 64 ==> frame.is_sysv(
                self.target(),
                self.queues().gp,
                self.queues().fp,
            ),
            usize::BITS == 32 ==> frame.is_i386(self.target(), self.queues().gp, true),
            frame.callee_words() == self.queues().gp,
            frame.reclaim == frame.pushes@.len(),
            frame.vector_count == self.queues().fp.len(),
            frame.vector_count <= FLOAT_REGISTERS,
            usize::BITS == 64 ==> (frame.pushes@.len() + frame.padding) % 2 == 0,
    {
        if host_is_wide() {
            sysv_frame(self.func, &self.args, &self.fargs)
        } else {
            i386_frame(self.func, &self.args, true)
        }
    }

    /// Lays the queued arguments out for a call under stdcall, which only a
    /// 32-bit host has.
    pub fn stdcall(&self) -> (frame: CallFrame)
        requires
            usize::BITS == 32,
        ensures
            frame.is_i386(self.target(), self.queues().gp, false),
            frame.callee_words() == self.queues().gp,
            frame.reclaim == 0,
            frame.vector_count == 0,
    {
        i386_frame(self.func, &self.args, false)
    }

    /// Records the registers that the callee returned: the low and the high
    /// general register and the bit pattern of the floating-point one.
    pub fn capture(&mut self, low: usize, high: usize, float: u64)
        ensures
            old(self).wf() ==> final(self).wf(),
            final(self).ret_lo() == low,
            final(self).ret_hi() == high,
            final(self).ret_fp() == float,
            final(self).target() == old(self).target(),
            final(self).queues() == old(self).queues(),
    {
        self.ret_low = low;
        self.ret_high = high;
        self.ret_float = float;
    }
}

/// Typed readings of the captured return registers. Each one reinterprets
/// the raw registers and changes nothing, so any number of them may be taken
/// of one return.
impl Func {
    /// The two general return registers read as one number, the high
    /// register above the low one.
    pub open spec fn ret_pair(&self) -> int {
        self.ret_lo() + word_modulus() * self.ret_hi()
    }

    /// The return registers read as an unsigned integer type that holds
    /// `modulus` values: the register pair, cut down to the type's width.
    pub open spec fn ret_unsigned(&self, modulus: int) -> int {
        self.ret_pair() % modulus
    }

    /// The return registers read as a signed integer type that holds
    /// `modulus` values.
    pub open spec fn ret_signed(&self, modulus: int) -> int {
        signed_of(self.ret_unsigned(modulus), modulus)
    }

    /// The low 8 bits of the low register.
    pub fn ret_as_u8(&self) -> (value: u8)
        ensures
            value == (self.ret_lo() as int) % 0x100,
            value == self.ret_unsigned(0x100),
    {
        proof {
            lemma_pair_low_bits(self.ret_low, self.ret_high, 0x100);
        }
        let low: usize = self.ret_low;
        let value: u8 = #[verifier::truncate] (low as u8);
        assert(value == (low as int) % 0x100) by (bit_vector)
            requires
                value == low as u8,
        ;
        value
    }

    /// The low 8 bits of the low register, as a signed number.
    pub fn ret_as_i8(&self) -> (value: i8)
        ensures
            value == signed_of((self.ret_lo() as int) % 0x100, 0x100),
            value == self.ret_signed(0x100),
    {
        proof {
            lemma_pair_low_bits(self.ret_low, self.ret_high, 0x100);
        }
        let low: usize = self.ret_low;
        let value: i8 = #[verifier::truncate] (low as i8);
        assert(value as int == if 2 * ((low as int) % 0x100) >= 0x100 {
            (low as int) % 0x100 - 0x100
        } else {
            (low as int) % 0x100
        }) by (bit_vector)
            requires
                value == low as i8,
        ;
        value
    }

    /// The low 16 bits of the low register.
    pub fn ret_as_u16(&self) -> (value: u16)
        ensures
            value == (self.ret_lo() as int) % 0x1_0000,
            value == self.ret_unsigned(0x1_0000),
    {
        proof {
            lemma_pair_low_bits(self.ret_low, self.ret_high, 0x1_0000);
        }
        let low: usize = self.ret_low;
        let value: u16 = #[verifier::truncate] (low as u16);
        assert(value == (low as int) % 0x1_0000) by (bit_vector)
            requires
                value == low as u16,
        ;
        value
    }

    /// The low 16 bits of the low register, as a signed number.
    pub fn ret_as_i16(&self) -> (value: i16)
        ensures
            value == signed_of((self.ret_lo() as int) % 0x1_0000, 0x1_0000),
            value == self.ret_signed(0x1_0000),
    {
        proof {
            lemma_pair_low_bits(self.ret_low, self.ret_high, 0x1_0000);
        }
        let low: usize = self.ret_low;
        let value: i16 = #[verifier::truncate] (low as i16);
        assert(value as int == if 2 * ((low as int) % 0x1_0000) >= 0x1_0000 {
            (low as int) % 0x1_0000 - 0x1_0000
        } else {
            (low as int) % 0x1_0000
        }) by (bit_vector)
            requires
                value == low as i16,
        ;
        value
    }

    /// The low 32 bits of the low register.
    pub fn ret_as_u32(&self) -> (value: u32)
        ensures
            value == (self.ret_lo() as int) % 0x1_0000_0000,
            value == self.ret_unsigned(0x1_0000_0000),
    {
        proof {
            lemma_pair_low_bits(self.ret_low, self.ret_high, 0x1_0000_0000);
        }
        let low: usize = self.ret_low;
        let value: u32 = #[verifier::truncate] (low as u32);
        assert(value == (low as int) % 0x1_0000_0000) by (bit_vector)
            requires
                value == low as u32,
        ;
        value
    }

    /// The low 32 bits of the low register, as a signed number.
    pub fn ret_as_i32(&self) -> (value: i32)
        ensures
            value == signed_of((self.ret_lo() as int) % 0x1_0000_0000, 0x1_0000_0000),
            value == self.ret_signed(0x1_0000_0000),
    {
        proof {
            lemma_pair_low_bits(self.ret_low, self.ret_high, 0x1_0000_0000);
        }
        let low: usize = self.ret_low;
        let value: i32 = #[verifier::truncate] (low as i32);
        assert(value as int == if 2 * ((low as int) % 0x1_0000_0000) >= 0x1_0000_0000 {
            (low as int) % 0x1_0000_0000 - 0x1_0000_0000
        } else {
            (low as int) % 0x1_0000_0000
        }) by (bit_vector)
            requires
                value == low as i32,
        ;
        value
    }

    /// A 64-bit result: the low register on a 64-bit host, the register pair
    /// on a 32-bit host.
    pub fn ret_as_u64(&self) -> (value: u64)
        ensures
            usize::BITS == 64 ==> value == self.ret_lo(),
            usize::BITS == 32 ==> value == self.ret_pair(),
            value == self.ret_unsigned(0x1_0000_0000_0000_0000),
    {
        proof {
            lemma_word_modulus();
        }
        if host_is_wide() {
            let value: u64 = self.ret_low as u64;
            assert((value + 0x1_0000_0000_0000_0000 * self.ret_high) % 0x1_0000_0000_0000_0000
                == value) by (nonlinear_arith)
                requires
                    0 <= value < 0x1_0000_0000_0000_0000,
                    0 <= self.ret_high,
            ;
            value
        } else {
            let low: u64 = self.ret_low as u64;
            let high: u64 = self.ret_high as u64;
            let value: u64 = (high << 32) | low;
            assert(value == low + 0x1_0000_0000 * high) by (bit_vector)
                requires
                    value == (high << 32) | low,
                    low < 0x1_0000_0000,
                    high < 0x1_0000_0000,
            ;
            value
        }
    }

    /// A 64-bit result, as a signed number.
    pub fn ret_as_i64(&self) -> (value: i64)
        ensures
            value == self.ret_signed(0x1_0000_0000_0000_0000),
    {
        let pattern: u64 = self.ret_as_u64();
        let value: i64 = #[verifier::truncate] (pattern as i64);
        assert(value as int == if 2 * pattern >= 0x1_0000_0000_0000_0000 {
            pattern - 0x1_0000_0000_0000_0000
        } else {
            pattern as int
        }) by (bit_vector)
            requires
                value == pattern as i64,
        ;
        value
    }

    /// The low register, whole.
    pub fn ret_as_usize(&self) -> (value: usize)
        ensures
            value == self.ret_lo(),
            value == self.ret_unsigned(word_modulus()),
    {
        proof {
            lemma_word_modulus();
            lemma_pair_low_bits(self.ret_low, self.ret_high, word_modulus());
        }
        self.ret_low
    }

    /// The low register, whole, as a signed number.
    pub fn ret_as_isize(&self) -> (value: isize)
        ensures
            value == signed_of(self.ret_lo() as int, word_modulus()),
            value == self.ret_signed(word_modulus()),
    {
        proof {
            lemma_word_modulus();
            lemma_pair_low_bits(self.ret_low, self.ret_high, word_modulus());
        }
        if host_is_wide() {
            let pattern: u64 = self.ret_low as u64;
            let value: i64 = #[verifier::truncate] (pattern as i64);
            assert(value as int == if 2 * pattern >= 0x1_0000_0000_0000_0000 {
                pattern - 0x1_0000_0000_0000_0000
            } else {
                pattern as int
            }) by (bit_vector)
                requires
                    value == pattern as i64,
            ;
            value as isize
        } else {
            let pattern: u32 = self.ret_low as u32;
            let value: i32 = #[verifier::truncate] (pattern as i32);
            assert(value as int == if 2 * pattern >= 0x1_0000_0000 {
                pattern - 0x1_0000_0000
            } else {
                pattern as int
            }) by (bit_vector)
                requires
                    value == pattern as i32,
            ;
            value as isize
        }
    }

    /// A 128-bit result: the register pair of a 64-bit host. A 32-bit host
    /// returns no such value in registers.
    pub fn ret_as_u128(&self) -> (value: u128)
        requires
            usize::BITS == 64,
        ensures
            value == self.ret_pair(),
            value == self.ret_unsigned(u128::MAX + 1),
    {
        proof {
            lemma_word_modulus();
        }
        let low: u128 = self.ret_low as u128;
        let high: u128 = self.ret_high as u128;
        let value: u128 = (high << 64) | low;
        assert(value == low + 0x1_0000_0000_0000_0000 * high) by (bit_vector)
            requires
                value == (high << 64) | low,
                low < 0x1_0000_0000_0000_0000,
                high < 0x1_0000_0000_0000_0000,
        ;
        value
    }

    /// A 128-bit result, as a signed number. A 32-bit host returns no such
    /// value in registers.
    pub fn ret_as_i128(&self) -> (value: i128)
        requires
            usize::BITS == 64,
        ensures
            value == self.ret_signed(u128::MAX + 1),
    {
        let pattern: u128 = self.ret_as_u128();
        let value: i128 = #[verifier::truncate] (pattern as i128);
        assert(value as int == if 2 * pattern >= u128::MAX + 1 {
            pattern - (u128::MAX + 1)
        } else {
            pattern as int
        }) by (bit_vector)
            requires
                value == pattern as i128,
        ;
        value
    }

    /// The floating-point return register, rounded to single precision.
    pub fn ret_as_f32(&self) -> (value: Single)
        ensures
            (Double { bits: self.ret_fp() }).narrows_to(value),
    {
        Double::from_bits(self.ret_float).narrow()
    }

    /// The floating-point return register, as a double.
    pub fn ret_as_f64(&self) -> (value: Double)
        ensures
            value.bits == self.ret_fp(),
    {
        Double::from_bits(self.ret_float)
    }
}

} // verus!
