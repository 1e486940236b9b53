//! The inputs of compiler runs.

use vstd::prelude::*;
use crate::path::SourcePath;
use crate::sorted_map::SortedMap;

verus! {

/// The language of the sources.
#[derive(Clone, Copy, Debug, PartialEq, Eq, Structural)]
pub enum SolcLanguage {
    Solidity,
    Yul,
}

/// What is kept about a compiler run.
#[derive(Clone, Debug, PartialEq, Eq)]
pub struct RawBuildInfo {
    /// The hash by which the run is known.
    pub id: String,
    /// The files by the numbers that the compiler gave them.
    pub source_id_to_path: Vec<(u32, SourcePath)>,
    pub language: SolcLanguage,
    /// Names and values of the remaining fields, the values as JSON.
    pub build_info: Vec<(String, String)>,
}

/// What is needed to make sense of the numbers in an artifact.
#[derive(Clone, Debug, PartialEq, Eq)]
pub struct BuildContext {
    pub source_id_to_path: Vec<(u32, SourcePath)>,
    pub language: SolcLanguage,
}

/// The contexts of compiler runs by their ids.
#[derive(Clone, Debug, PartialEq, Eq)]
pub struct Builds(pub SortedMap<String, BuildContext>);

} // verus!
