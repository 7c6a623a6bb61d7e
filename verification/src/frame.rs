//! Trampoline plans: where each queued word has to be when control reaches
//! the callee, one plan per calling convention.

use vstd::prelude::*;
use crate::word::word_bytes;

verus! {

/// How many integer arguments System V AMD64 passes in registers
/// (`RDI, RSI, RDX, RCX, R8, R9`).
pub const INT_REGISTERS: usize = 6;

/// How many floating-point arguments System V AMD64 passes in registers
/// (`XMM0` to `XMM7`).
pub const FLOAT_REGISTERS: usize = 8;

/// The machine state that a trampoline sets up around one `call`.
#[derive(Clone, Debug, PartialEq, Eq)]
pub struct CallFrame {
    /// Address of the code to call.
    pub target: usize,
    /// Words for the integer argument registers, `RDI` first.
    pub int_regs: Vec<usize>,
    /// Bit patterns for the floating-point argument registers, `XMM0` first.
    pub float_regs: Vec<u64>,
    /// What `AL` has to hold at the `call` under System V AMD64: how many
    /// floating-point registers carry an argument. A variadic callee reads
    /// it to know which of them to save. Zero on i386, which has no such
    /// count.
    pub vector_count: usize,
    /// Words of padding (0 or 1) to put below the caller's frame before the
    /// first push, so that the stack pointer is 16-byte aligned at the `call`.
    pub padding: usize,
    /// Words to push, in the order of the pushes: the last argument first.
    pub pushes: Vec<usize>,
    /// Pushed words that the caller takes off the stack once the callee has
    /// returned; the padding is not counted.
    pub reclaim: usize,
}

impl CallFrame {
    /// The argument words on the stack as the callee finds them, from the
    /// stack pointer upwards: the pushes, latest first.
    pub open spec fn stack(&self) -> Seq<usize> {
        self.pushes@.reverse()
    }

    /// All integer-class argument words in the order in which the callee's
    /// parameters take them: the registers, then the stack upwards.
    pub open spec fn callee_words(&self) -> Seq<usize> {
        self.int_regs@ + self.stack()
    }

    /// Where the stack pointer stands once the trampoline is through, if it
    /// stood at `sp` before and the callee took `callee_pops` bytes of
    /// arguments off the stack on its return: the padding and the pushes move
    /// it down, the callee and the cleanup move it up.
    pub open spec fn stack_pointer_after(&self, sp: int, callee_pops: int) -> int {
        sp - word_bytes() * (self.padding + self.pushes@.len()) + callee_pops + word_bytes() * (
        self.reclaim + self.padding)
    }

    /// Whether the frame is the System V AMD64 layout of the two queues: the
    /// first six words in registers, the rest pushed from the last down to
    /// the seventh, every queued float in its register and their number
    /// bound for `AL`, the stack kept 16-byte aligned, and the caller
    /// reclaiming what it pushed.
    pub open spec fn is_sysv(&self, target: usize, gp: Seq<usize>, fp: Seq<u64>) -> bool {
        let in_regs = if gp.len() <= INT_REGISTERS {
            gp.len() as int
        } else {
            INT_REGISTERS as int
        };
        &&& self.target == target
        &&& self.int_regs@ == gp.take(in_regs)
        &&& self.float_regs@ == fp
        &&& self.vector_count == fp.len()
        &&& self.pushes@ == gp.skip(in_regs).reverse()
        &&& self.padding == (gp.len() - in_regs) % 2
        &&& self.reclaim == gp.len() - in_regs
    }

    /// Whether the frame is the i386 stack layout of the queue: every word
    /// pushed, from the last down to the first, nothing in registers. The
    /// caller reclaims all of it (cdecl) or none of it (stdcall, where the
    /// callee does).
    pub open spec fn is_i386(&self, target: usize, gp: Seq<usize>, caller_cleans: bool) -> bool {
        &&& self.target == target
        &&& self.int_regs@ == Seq::<usize>::empty()
        &&& self.float_regs@ == Seq::<u64>::empty()
        &&& self.vector_count == 0
        &&& self.pushes@ == gp.reverse()
        &&& self.padding == 0
        &&& self.reclaim == if caller_cleans {
            gp.len()
        } else {
            0
        }
    }
}

/// Lays out the queued words for a System V AMD64 call.
pub fn sysv_frame(target: usize, gp: &Vec<usize>, fp: &Vec<u64>) -> (frame: CallFrame)
    requires
        fp@.len() <= FLOAT_REGISTERS,
    ensures
        frame.is_sysv(target, gp@, fp@),
        frame.callee_words() == gp@,
        frame.float_regs@.len() <= FLOAT_REGISTERS,
        frame.vector_count == fp@.len(),
        frame.vector_count <= FLOAT_REGISTERS,
        frame.int_regs@.len() <= INT_REGISTERS,
        (frame.pushes@.len() + frame.padding) % 2 == 0,
{
    let len: usize = gp.len();
    let in_regs: usize = if len <= INT_REGISTERS {
        len
    } else {
        INT_REGISTERS
    };
    let spill: usize = len - in_regs;

    // Floating-point registers: every queued pattern, in order.
    let mut float_regs: Vec<u64> = Vec::new();
    let mut k: usize = 0;
    while k < fp.len()
        invariant
            k <= fp.len(),
            float_regs@ == fp@.take(k as int),
        decreases fp.len() - k,
    {
        float_regs.push(fp[k]);
        assert(fp@.take(k + 1) =~= fp@.take(k as int).push(fp@[k as int]));
        k += 1;
    }
    assert(fp@.take(fp@.len() as int) =~= fp@);

    // Stack-resident words: from the last word down to the seventh.
    let mut pushes: Vec<usize> = Vec::new();
    let mut i: usize = len;
    while i > in_regs
        invariant
            in_regs <= i <= len,
            len == gp@.len(),
            pushes@ == gp@.subrange(i as int, len as int).reverse(),
        decreases i,
    {
        i -= 1;
        pushes.push(gp[i]);
        assert(gp@.subrange(i as int, len as int).reverse() =~= gp@.subrange(
            i + 1,
            len as int,
        ).reverse().push(gp@[i as int]));
    }
    assert(gp@.subrange(in_regs as int, len as int) =~= gp@.skip(in_regs as int));

    // Integer registers: the first six words, in order.
    let mut int_regs: Vec<usize> = Vec::new();
    let mut j: usize = 0;
    while j < in_regs
        invariant
            j <= in_regs <= gp@.len(),
            int_regs@ == gp@.take(j as int),
        decreases in_regs - j,
    {
        int_regs.push(gp[j]);
        assert(gp@.take(j + 1) =~= gp@.take(j as int).push(gp@[j as int]));
        j += 1;
    }

    let frame = CallFrame {
        target,
        int_regs,
        float_regs,
        vector_count: fp.len(),
        padding: spill % 2,
        pushes,
        reclaim: spill,
    };
    proof {
        let rest = gp@.skip(in_regs as int);
        assert(rest.reverse().reverse() =~= rest);
        assert(gp@.take(in_regs as int) + rest =~= gp@);
    }
    frame
}

/// Lays out the queued words for an i386 call: everything on the stack,
/// pushed right to left. With `caller_cleans` the caller takes the words off
/// again after the call (cdecl); without, the callee does (stdcall).
pub fn i386_frame(target: usize, gp: &Vec<usize>, caller_cleans: bool) -> (frame: CallFrame)
    ensures
        frame.is_i386(target, gp@, caller_cleans),
        frame.callee_words() == gp@,
{
    let len: usize = gp.len();
    let mut pushes: Vec<usize> = Vec::new();
    let mut i: usize = len;
    while i > 0
        invariant
            i <= len,
            len == gp@.len(),
            pushes@ == gp@.subrange(i as int, len as int).reverse(),
        decreases i,
    {
        i -= 1;
        pushes.push(gp[i]);
        assert(gp@.subrange(i as int, len as int).reverse() =~= gp@.subrange(
            i + 1,
            len as int,
        ).reverse().push(gp@[i as int]));
    }
    assert(gp@.subrange(0, len as int) =~= gp@);
    let frame = CallFrame {
        target,
        int_regs: Vec::new(),
        float_regs: Vec::new(),
        vector_count: 0,
        padding: 0,
        pushes,
        reclaim: if caller_cleans {
            len
        } else {
            0
        },
    };
    proof {
        assert(gp@.reverse().reverse() =~= gp@);
        assert(frame.callee_words() =~= gp@);
    }
    frame
}

} // verus!
