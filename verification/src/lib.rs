//! Exact amortization-schedule calculator.
//!
//! The engine computes a fixed-rate loan's payment schedule with exact
//! rational arithmetic: every balance, payment and interest amount is a
//! ratio of arbitrary-precision natural numbers, so the recurrence that
//! derives each period's principal/interest split is carried through with
//! no rounding at all, and the final balance is exactly zero.

pub mod bignat;
pub mod rat;
pub mod schedule;
