//! String distance algorithms: Levenshtein (recursive and tabulated),
//! optimal string alignment, fixed-width Hamming distance, and bit-parallel
//! exact substring search.
//!
//! All distances are computed over the UTF-8 byte representation of the
//! inputs; this is a documented restriction to single-byte alphabets, since
//! comparing by byte and by code point differ for non-ASCII input.

pub mod bitap;
pub mod edit_distance;
pub mod hamming_distance;
pub mod osa;

pub use bitap::bitap_bitwise_search;
pub use edit_distance::lev;
pub use edit_distance::wagner_fischer;
pub use hamming_distance::hamming_distance;
pub use osa::osa_distance;
