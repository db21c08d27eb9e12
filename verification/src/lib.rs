//! A word segmenter for Chinese text: a prefix-closed frequency dictionary,
//! the per-sentence word graph, and the walks that turn a chosen route through
//! that graph into tokens.

pub mod classes;
pub mod text;
pub mod dict;
pub mod ends;
pub mod dag;
pub mod walk;
pub mod hmm;
pub mod split;
pub mod full;
pub mod load;
pub mod cut;
