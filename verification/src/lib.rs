//! In-place merging of two adjoining sorted runs, plus a small
//! partition-based sort of a single run.
//!
//! The core operation rearranges two individually sorted, adjoining views of
//! a backing sequence by element swaps only, so that their concatenation is
//! sorted ascending. No auxiliary buffer proportional to the input is used.

pub mod merge;
pub mod order;
pub mod quick;

pub use merge::in_place_merge;
pub use merge::merge_range;
pub use order::sorted;
pub use order::sorted_between;
pub use quick::lomuto_partition;
pub use quick::partition;
pub use quick::quicksort;
