//! LZ77 factorization of a text over its suffix array, and the reconstruction
//! of a text from its factors.
//!
//! The index (`augmented`) holds a text with its sentinel, its suffix array
//! with inverse and LCP array, and for each rank the nearest ranks on either
//! side that hold a smaller position (`smaller`). The factorizer (`lz`) scans
//! the text and at each position chooses between the two positions that these
//! tables name; `selection` proves that the choice is the factor of the text
//! there, as `factorization` defines it.

pub mod augmented;
pub mod factorization;
pub mod lz;
pub mod lzfactor;
pub mod selection;
pub mod smaller;
pub mod strings;
pub mod suffix_array;
pub mod text;
