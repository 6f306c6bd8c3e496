//! Bit-granular reading and writing over byte streams, verified with Verus.
//!
//! A [`reader::BitReader`] takes spans of 1 to 64 bits from a byte source and
//! a [`writer::BitWriter`] packs such spans into a byte sink, either most
//! significant bit first or least significant bit first. Both fall back to
//! whole bytes where the stream stands at a byte boundary. There are readers
//! that look ahead, readers for spans wider than 64 bits, and two fast
//! readers, one for each bit order.
//!
//! Every operation is specified over a state model, [`model::ReaderState`]
//! and [`model::WriterState`], in terms of plain sequences of bits and bytes.
//! The module [`laws`] proves what follows from those specifications: that a
//! read returns the bits of the stream in stream order, that what was written
//! reads back, that peeking changes no later read, and how a flush pads.

mod accumulator;
pub mod bits;
pub mod byte_order;
pub mod error;
pub mod fast;
pub mod laws;
pub mod model;
pub mod reader;
pub mod register;
pub mod sink;
pub mod source;
pub mod stream;
pub mod traits;
pub mod writer;
