//! Spread-spectrum watermarking of audio sample sequences.
//!
//! A message is hidden by nudging each sample of a window up or down by a
//! small fraction, the direction being the product of the message bit's sign
//! and a chip of a shared key of +1/-1 values. It is read back by comparing
//! the first sample of every window with the unmodified container.
//!
//! The library fixes which samples are touched, with which chip, and how the
//! recovered bits are decided and packed. The arithmetic on a sample is the
//! caller's: every function that touches samples is generic in the sample
//! type and takes the two operations it needs as closures.

pub mod bits;
pub mod clock;
pub mod codec;
pub mod dest;
pub mod key_codec;
pub mod park_miller_prng;
pub mod st;
pub mod text;
pub mod utils;
