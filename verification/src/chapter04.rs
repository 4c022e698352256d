//! Chapter 4: statistics on the morphological analysis of a text.
pub mod answer;
