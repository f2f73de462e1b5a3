//! `VMem` provides a virtual memory data structure where physical memory is
//! only allocated as it is written to.
//!
//! A memory spans a fixed number of word addresses; each word is a byte array
//! of fixed width. Words that were never written read as zero and take no
//! storage.
//!
//! # Example :
//! ```
//! use vmem::VMem;
//! // Create a new virtual memory that spans the addresses 0x00 to 0xff,
//! // where each word is 4 bytes wide.
//! let mut vmem = VMem::<4>::new(0x100);
//!
//! // Write a word to the specified address.
//! vmem.write_word([0x01, 0x02, 0x04, 0x08], 0x03).unwrap();
//!
//! // Read word from the specified address.
//! let word = vmem.read_word(0x03);
//! assert_eq!(word, Some([0x01, 0x02, 0x04, 0x08]));
//! ```
//!
//! The modules: [`model`] holds the mathematical memory that every contract
//! speaks of, [`store`] the store itself, [`bytes`] the byte view, [`iter`]
//! and [`chunks`] the iteration, [`delta`] changesets, and [`laws`] what is
//! proved of the model.

pub mod bytes;
pub mod chunks;
pub mod delta;
pub mod iter;
pub mod laws;
pub mod model;
pub mod store;

pub use chunks::ChunksAdjacentContent;
pub use iter::{IntoIter, Iter, IterMut};
pub use store::VMem;
