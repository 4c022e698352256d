//! Chapter 2: the classic line and column tools on tab-separated text.
pub mod answer;
