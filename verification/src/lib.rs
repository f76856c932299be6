//! A crossword-layout library: words are read from line-oriented input,
//! placed onto a square character grid under a selectable placement
//! policy, and the result is scored by the area of the tightest bounding
//! rectangle around the non-blank cells.

pub mod grid;
pub mod placer;
pub mod scorer;
pub mod words;
