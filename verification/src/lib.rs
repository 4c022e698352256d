//! Solutions to a series of language-processing exercises, chapter by chapter,
//! with their behaviour stated as contracts and proved.
pub mod chapter01;
pub mod chapter02;
pub mod chapter03;
pub mod chapter04;
pub mod json;
pub mod numbers;
pub mod ordered;
pub mod sorting;
pub mod text;
