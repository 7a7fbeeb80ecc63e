//! Builds a square mosaic image out of the album artworks of a music
//! playlist: deduplicates the albums of the playlist in first-seen order,
//! derives a square grid from the requested side length and the number of
//! distinct albums, selects and orders the albums that fill the grid,
//! picks the best cover variant of each, composites the decoded covers
//! into one canvas, and derives the radius of an optional final blur.

pub mod args;
pub mod api;
pub mod images;
pub mod numeric;
