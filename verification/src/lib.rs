//! Read-only, in-memory access to a pre-trained word2vec embedding model and
//! a companion word-cluster file.
//!
//! Vector components are IEEE-754 binary32 values; this crate carries them as
//! their bit patterns (`u32`) and performs the arithmetic through a software
//! implementation of the IEEE-754 operations, so that the parsing, storage,
//! ranking and exclusion logic can all be specified and verified exactly.

pub mod errors;
pub mod numeric;
pub mod utils;
pub mod vectorreader;
pub mod wordclusters;
pub mod wordvectors;
