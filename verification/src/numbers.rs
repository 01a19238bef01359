//! The entropy-coding engine: probability tables, the binary range coder and
//! the bounded-integer decoder that sits on top of it.

pub mod chances;
pub mod encoding;
pub mod near_zero;
pub mod rac;
