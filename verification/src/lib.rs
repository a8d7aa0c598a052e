//! Extraction of utility-class candidate strings from arbitrary source text.
//!
//! The core is a grammar-free, boundary-driven byte scanner: one linear pass
//! per blob tracking bracket nesting, quoting and escapes.  Around it stand
//! the batch aggregator — one scan task per blob, merged by set union and
//! sorted into one deterministic output —, the loader's decisions about what
//! each input unit yields, and the resolver's denylist rules for which files
//! of a directory are worth scanning at all.

pub mod scanner;
pub mod order;
pub mod pipeline;
pub mod laws;
pub mod loader;
pub mod resolver;
