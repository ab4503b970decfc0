//! Finds, among images that have already been decoded, those whose dominant
//! colours lie closest to a target colour, and ranks them.
//!
//! Everything here works on exact integers: a colour is three bytes, a
//! coverage is a count of pixels out of a total, a threshold is a fraction,
//! and a distance is kept as the squared numerator of the normalised
//! Euclidean distance. Reading files, decoding images and asking the
//! catalog are left to the caller.
//!
//! A search runs through the modules in this order: `scan` turns decoded
//! directory entries into candidates, with `find_colors` and `cluster`
//! giving each image its representative colours; `find` matches the
//! candidates against the target, with `distance` and `coverage` deciding
//! what is close and what counts, and `identify` reading the track's
//! identifier from the file's name; and `find::rank` joins the catalog's
//! answers and sorts, with the stable sort of `rank`. `first` is the plain
//! search by mean colour.

pub mod cluster;
pub mod color;
pub mod coverage;
pub mod distance;
pub mod find;
pub mod find_colors;
pub mod first;
pub mod fraction;
pub mod identify;
pub mod rank;
pub mod scan;
