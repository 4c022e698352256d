//! Chapter 1: warm-up exercises on strings.
pub mod answer;
pub mod strict;
