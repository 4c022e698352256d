//! Chapter 3: extracting structure from the wiki markup of an article.
pub mod answer;
pub mod pattern;
