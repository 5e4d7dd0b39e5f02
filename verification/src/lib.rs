//! Exhaustive search for "maximally uninformative" Wordle games: every way to
//! pick one answer word and six guess words so that the seven words share no
//! letter at all.
//!
//! Words are abstracted to [`signature::Signature`] bitmasks of their unique
//! letters; the packer enumerates all 7-way disjoint combinations of
//! signatures, and the realizer expands those combinations back into concrete
//! word tuples.

pub mod filterer;
pub mod letters;
pub mod letterset;
pub mod packer;
pub mod realizer;
pub mod seqs;
pub mod signature;
pub mod wordorder;

pub use filterer::Filterer;
pub use letterset::LetterSet;
pub use packer::{Packer, Packing};
pub use realizer::{BadWordleSolution, Realizer};
pub use signature::Signature;
