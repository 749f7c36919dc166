//! Encoder and decoder for the 18-byte frames in which a motion sensor reports
//! three successive orientations and a timestamp.
//!
//! A frame holds three unit quaternions. Of each quaternion one component is
//! dropped and the other three are stored at reduced precision; the decoder
//! fills the dropped one in from the unit norm. Three layouts trade precision
//! for range: the most precise one stores one sample and two small differences,
//! the coarsest one stores each sample on its own.
//!
//! - [`fixed_point`]: numbers as raw integers, rounding, products, square roots.
//! - [`bit_field`]: fields of an integer, and records read from and written to a
//!   frame.
//! - [`quat`]: quaternions, dropping and filling in a component, vectors at
//!   reduced precision.
//! - [`types`]: the records of the three layouts, the mode and the timestamp.
//! - [`codec`]: [`compress_quaternion_triplet`] and [`Quaternion::parse`].
//! - [`laws`]: what is packed comes back unpacked; which layout is chosen; which
//!   bits of a frame are read.
//! - [`accuracy`]: how close a decoded frame is to what was encoded.

pub mod accuracy;
pub mod bit_field;
pub mod codec;
pub mod fixed_point;
pub mod laws;
pub mod quat;
pub mod types;

pub use codec::compress_quaternion_triplet;
pub use quat::Quaternion;
