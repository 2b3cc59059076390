//! Trampolining for logically tail-recursive functions.
//!
//! A step of such a function returns a [`BorrowRec`]: either the final
//! answer, or the arguments of the next call. The driver [`tramp`] forces
//! one pending call after another in a plain loop, so the depth of the
//! logical recursion never reaches the call stack.
//! [`Thunk`] is the one-shot deferred computation on which this rests.
use vstd::prelude::*;

pub mod rec;
pub mod thunk;

pub use rec::{rec_call, rec_ret, tramp, BorrowRec, Rec};
pub use thunk::Thunk;
