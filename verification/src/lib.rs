//! Storage core of a page-oriented database engine: the packed binary page
//! header, a sorted-page codec with binary-search rank and split discovery,
//! a composable ordered-iterator framework with k-way merging, and a
//! crash-safe manifest log of metadata edits.

pub mod block;
pub mod count;
pub mod data;
pub mod error;
pub mod iter;
pub mod manifest;
pub mod options;
pub mod page;
pub mod sort;
