//! Small shared building blocks.

mod bitset;
pub mod metrics;
mod mytypes;
pub mod text;

pub use bitset::{
    bit_is_set, members_line, members_text, spec_min, word_members, BitSet, BitSetFns, BitSetIter,
    GrowingBitSet, GrowingBitSetIter, MAX_WORDS,
};
pub use mytypes::{MyError, MyVec};
