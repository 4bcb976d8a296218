//! Small numeric utilities, verified with Verus.
//!
//! * [`arithmetic`]: integer arithmetic, factorial and primality.
//! * [`median`] and [`mode`]: order statistics of a sample of double-precision
//!   numbers.
//!
//! A sample is a slice of IEEE-754 bit patterns, one `u64` per number, as
//! `f64::to_bits` yields them ([`ieee`]). Ordering, sorting ([`sorting`]),
//! picking the centre of a sample and counting frequencies are integer work
//! on those patterns, and that is what this library does and proves. It does
//! no floating-point arithmetic: a caller that wants the median of a sample
//! of even size averages the two central values that [`median::mediana`]
//! hands back.
pub mod arithmetic;
pub mod ieee;
pub mod median;
pub mod mode;
pub mod sorting;
