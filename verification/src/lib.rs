// SPDX-License-Identifier: Apache-2.0

//! Enumerates the positions of the bits that are set in a byte sequence.
//!
//! Positions count bits across the whole sequence, starting with the least
//! significant bit of the first byte. [`positions`] holds the mathematical
//! model and its laws, [`scan`] the abstract state of a traversal, and
//! [`bit_iterator`] the cursor that walks a byte slice.

pub mod bit_iterator;
pub mod positions;
pub mod scan;

pub use bit_iterator::BitIterator;
