//! The collected output of compiling a project with `resolc`.
//!
//! A run of the compiler gives diagnostics, source files and contracts.
//! [`aggregated::AggregatedCompilerOutput`] collects what all runs gave and tells whether they
//! failed, [`diagnostics::OutputDiagnostics`] displays the diagnostics, and
//! [`project::ResolcProjectCompileOutput`] adds the artifacts that were compiled or read from the
//! cache. What holds of them as a whole is stated in [`laws`]; what their operations do, in terms
//! of what goes in and what comes out, is stated in [`output_laws`], [`listing_laws`] and
//! [`path_laws`].

pub mod aggregated;
pub mod artifacts;
pub mod build_info;
pub mod contract;
pub mod contracts;
pub mod diagnostic;
pub mod diagnostics;
pub mod file_map;
pub mod info;
pub mod laws;
pub mod listing_laws;
pub mod order;
pub mod output_laws;
pub mod path;
pub mod path_laws;
pub mod path_map;
pub mod project;
pub mod sorted_map;
pub mod sources;
pub mod style;
pub mod text;
pub mod version;
