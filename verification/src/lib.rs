//! Feature-set resolution engine: derives the candidate feature universe of a
//! package, compiles its declarative configuration into named boolean rules,
//! enumerates every feature combination that satisfies all rules, explains an
//! empty result, and partitions work items into chunks.

pub mod cargo_metadata;
pub mod chunker;
pub mod enumerator;
pub mod diagnostics;
pub mod errors;
pub mod features_finder;
pub mod laws;
pub mod rules;
pub mod runner;
pub mod strutil;
pub mod types;

use vstd::prelude::*;

verus! {

} // verus!
