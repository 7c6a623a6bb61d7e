//! Late-bound calls of native functions: a builder that queues typed
//! arguments as machine words, lays them out in registers and on the stack as
//! a calling convention demands, and reads the returned registers back as
//! typed values.
//!
//! The library decides and the caller acts. [`Func::push`] classifies each
//! argument and routes it to the word queue or the float queue;
//! [`Func::cdecl`] and [`Func::stdcall`] turn the queues into a
//! [`CallFrame`], the exact state of registers and stack at the `call`. The
//! code that owns the machine puts it into that state, calls the target and
//! hands the returned registers to [`Func::capture`]; the `ret_as_` readings
//! then reinterpret them.
//!
//! Floating-point numbers are held as their IEEE 754 bit patterns
//! ([`Single`], [`Double`]), so that every step, widening and rounding
//! included, is integer arithmetic.

pub mod arg;
pub mod float;
pub mod frame;
pub mod func;
pub mod theory;
pub mod word;

pub use crate::arg::IntoArg;
pub use crate::float::{Double, Single};
pub use crate::frame::CallFrame;
pub use crate::func::Func;
