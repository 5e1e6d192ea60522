//! Building blocks of the generator that writes the Unicode segmentation
//! tables and test cases for the Meadow package: a stable fingerprint, the
//! base-64 digit encoding, string literals, run-length tables of code point
//! properties, a deterministic random generator and the segmentation records.

pub mod fnv;
pub mod text;
pub mod encoding;
pub mod runs;
pub mod literal;
pub mod rng;
pub mod category;
pub mod segment;
pub mod pool;
pub mod tables_file;
pub mod order;
pub mod cases;
pub mod unique;
pub mod publicise;
