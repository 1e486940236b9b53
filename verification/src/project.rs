//! The output of compiling a project.

use semver::Version;
use vstd::prelude::*;
use crate::aggregated::AggregatedCompilerOutput;
use crate::artifacts::{are_ids, are_owned_ids, are_versioned, slashed_files, ArtifactId, Artifacts, ContractArtifact};
use crate::build_info::Builds;
use crate::diagnostic::Severity;
use crate::diagnostics::{displays, OutputDiagnostics};
use crate::file_map::{first_named, listed, without_first, Prune};
use crate::info::ContractInfoRef;
use crate::path::{path_parts, Part, SourcePath};
use crate::path_map::{repathed, respelled, Change};

verus! {

/// What compiling a project gives.
#[derive(Clone, Debug)]
pub struct ResolcProjectCompileOutput {
    /// Contains the aggregated compiler output.
    pub compiler_output: AggregatedCompilerOutput,
    /// All artifact files that were freshly compiled and written.
    pub compiled_artifacts: Artifacts<ContractArtifact>,
    /// All artifacts that were read from cache.
    pub cached_artifacts: Artifacts<ContractArtifact>,
    /// Errors that should be omitted.
    pub ignored_error_codes: Vec<u64>,
    /// Paths that should be omitted.
    pub ignored_file_paths: Vec<SourcePath>,
    /// The minimum level of severity that is treated as an error.
    pub compiler_severity_filter: Severity,
    /// All build infos that were just compiled.
    pub builds: Builds,
}

impl ResolcProjectCompileOutput {
    /// Whether the compiler emitted errors.
    pub open spec fn fails(&self) -> bool {
        self.compiler_output.fails(
            self.ignored_error_codes@,
            self.ignored_file_paths@,
            self.compiler_severity_filter,
        )
    }

    /// Whether `text` is what is displayed: whether a status is in color is left open.
    pub open spec fn displays(&self, text: Seq<char>) -> bool {
        if self.compiler_output.contracts@.dom().is_empty() && self.compiler_output.errors@.len()
            == 0 {
            text == "Nothing to compile"@
        } else {
            displays(
                self.compiler_output,
                self.ignored_error_codes@,
                self.ignored_file_paths@,
                self.compiler_severity_filter,
                text,
            )
        }
    }

    /// Whether the settings are those of `other`.
    pub open spec fn same_settings(&self, other: ResolcProjectCompileOutput) -> bool {
        &&& self.ignored_error_codes == other.ignored_error_codes
        &&& self.ignored_file_paths == other.ignored_file_paths
        &&& self.compiler_severity_filter == other.compiler_severity_filter
        &&& self.builds == other.builds
    }

    /// Converts all `\\` separators in _all_ paths to `/`.
    pub fn slash_paths(&mut self)
        ensures
            final(self).compiler_output.wf(),
            final(self).compiler_output.sources@ == repathed(
                old(self).compiler_output.sources.listing(),
                Change::Slash,
            ),
            final(self).compiler_output.contracts@ == repathed(
                old(self).compiler_output.contracts.0.listing(),
                Change::Slash,
            ),
            final(self).compiler_output.sources.spelled() == respelled(
                old(self).compiler_output.sources.listing(),
                Change::Slash,
            ),
            final(self).compiler_output.contracts.spelled() == respelled(
                old(self).compiler_output.contracts.0.listing(),
                Change::Slash,
            ),
            final(self).compiler_output.errors == old(self).compiler_output.errors,
            final(self).compiler_output.build_infos == old(self).compiler_output.build_infos,
            final(self).compiled_artifacts.0.wf(),
            slashed_files(
                repathed(old(self).compiled_artifacts.0.listing(), Change::Slash),
                final(self).compiled_artifacts@,
            ),
            final(self).compiled_artifacts.spelled() == respelled(
                old(self).compiled_artifacts.0.listing(),
                Change::Slash,
            ),
            final(self).cached_artifacts.0.wf(),
            slashed_files(
                repathed(old(self).cached_artifacts.0.listing(), Change::Slash),
                final(self).cached_artifacts@,
            ),
            final(self).cached_artifacts.spelled() == respelled(
                old(self).cached_artifacts.0.listing(),
                Change::Slash,
            ),
            final(self).same_settings(*old(self)),
    {
        self.compiler_output.slash_paths();
        self.compiled_artifacts.slash_paths();
        self.cached_artifacts.slash_paths();
    }

    /// All artifacts together with their ids: first those that were cached, then those that were
    /// compiled.
    pub fn artifact_ids(&self) -> (r: Vec<(ArtifactId, &ContractArtifact)>)
        ensures
            are_ids(r@, self.cached_artifacts.named() + self.compiled_artifacts.named()),
    {
        let mut out: Vec<(ArtifactId, &ContractArtifact)> = self.cached_artifacts.artifacts();
        let mut compiled: Vec<(ArtifactId, &ContractArtifact)> = self.compiled_artifacts.artifacts();
        out.append(&mut compiled);
        out
    }

    /// All artifacts together with their ids: first those that were cached, then those that were
    /// compiled.
    pub fn into_artifacts(self) -> (r: Vec<(ArtifactId, ContractArtifact)>)
        ensures
            are_owned_ids(r@, self.cached_artifacts.named() + self.compiled_artifacts.named()),
    {
        let mut out: Vec<(ArtifactId, ContractArtifact)> = self.cached_artifacts.into_artifacts();
        let mut compiled: Vec<(ArtifactId, ContractArtifact)> = self.compiled_artifacts.into_artifacts();
        out.append(&mut compiled);
        out
    }

    /// Strips `base` from the paths of all files.
    pub fn with_stripped_file_prefixes(self, base: &SourcePath) -> (r: Self)
        ensures
            r.cached_artifacts.0.wf(),
            r.cached_artifacts@ == repathed(self.cached_artifacts.0.listing(), Change::Strip(base@)),
            r.cached_artifacts.spelled() == respelled(
                self.cached_artifacts.0.listing(),
                Change::Strip(base@),
            ),
            r.compiled_artifacts.0.wf(),
            r.compiled_artifacts.spelled() == respelled(
                self.compiled_artifacts.0.listing(),
                Change::Strip(base@),
            ),
            r.compiled_artifacts@ == repathed(
                self.compiled_artifacts.0.listing(),
                Change::Strip(base@),
            ),
            r.compiler_output.wf(),
            r.compiler_output.contracts@ == repathed(
                self.compiler_output.contracts.0.listing(),
                Change::Strip(base@),
            ),
            r.compiler_output.sources@ == repathed(
                self.compiler_output.sources.listing(),
                Change::Strip(base@),
            ),
            r.compiler_output.contracts.spelled() == respelled(
                self.compiler_output.contracts.0.listing(),
                Change::Strip(base@),
            ),
            r.compiler_output.sources.spelled() == respelled(
                self.compiler_output.sources.listing(),
                Change::Strip(base@),
            ),
            r.compiler_output.errors == self.compiler_output.errors,
            r.compiler_output.build_infos == self.compiler_output.build_infos,
            r.same_settings(self),
    {
        ResolcProjectCompileOutput {
            compiler_output: self.compiler_output.with_stripped_file_prefixes(base),
            compiled_artifacts: self.compiled_artifacts.into_stripped_file_prefixes(base),
            cached_artifacts: self.cached_artifacts.into_stripped_file_prefixes(base),
            ignored_error_codes: self.ignored_error_codes,
            ignored_file_paths: self.ignored_file_paths,
            compiler_severity_filter: self.compiler_severity_filter,
            builds: self.builds,
        }
    }

    /// Returns whether this type does not contain compiled contracts. Diagnostics do not matter here:
    /// [`AggregatedCompilerOutput::is_unchanged`] tells whether there are none of either.
    pub fn is_unchanged(&self) -> (r: bool)
        ensures
            r == self.compiler_output.contracts@.dom().is_empty(),
    {
        self.compiler_output.is_empty()
    }

    /// Returns whether any errors were emitted by the compiler.
    pub fn has_compiler_errors(&self) -> (r: bool)
        ensures
            r == self.fails(),
    {
        self.compiler_output.has_error(
            self.ignored_error_codes.as_slice(),
            self.ignored_file_paths.as_slice(),
            &self.compiler_severity_filter,
        )
    }

    /// States that the compiler emitted no errors. [`Self::failure_text`] tells whether it did.
    pub fn assert_success(&self)
        requires
            !self.fails(),
    {
    }

    /// Where the compiler emitted errors, what there is to say about it: the display on lines of
    /// its own.
    pub fn failure_text(&self) -> (r: Option<String>)
        ensures
            r is Some <==> self.fails(),
            r matches Some(text) ==> exists|shown: Seq<char>| #[trigger]
                self.displays(shown) && text@ == "\n"@ + shown + "\n"@,
    {
        if self.has_compiler_errors() {
            let shown: String = self.to_text();
            let text: String = "\n".to_owned().concat(shown.as_str()).concat("\n");
            assert(self.displays(shown@) && text@ == "\n"@ + shown@ + "\n"@);
            Some(text)
        } else {
            None
        }
    }

    /// The contract names of all artifacts, each with its artifact and the version of the compiler:
    /// first those that were cached, then those that were compiled.
    pub fn versioned_artifacts(&self) -> (r: Vec<(String, (&ContractArtifact, &Version))>)
        ensures
            are_versioned(r@, self.cached_artifacts.named() + self.compiled_artifacts.named()),
    {
        let mut out: Vec<(String, (&ContractArtifact, &Version))> = self.cached_artifacts.versioned_artifacts();
        let mut compiled: Vec<(String, (&ContractArtifact, &Version))> = self.compiled_artifacts.versioned_artifacts();
        out.append(&mut compiled);
        out
    }

    /// The contract names of all artifacts, each with its artifact: first those that were cached,
    /// then those that were compiled.
    pub fn artifacts(&self) -> (r: Vec<(String, &ContractArtifact)>)
        ensures
            r.len() == (self.cached_artifacts.named() + self.compiled_artifacts.named()).len(),
            forall|i: int|
                0 <= i < r.len() ==> (#[trigger] r[i]).0@ == (self.cached_artifacts.named()
                    + self.compiled_artifacts.named())[i].0 && *r[i].1
                    == (self.cached_artifacts.named()
                    + self.compiled_artifacts.named())[i].2.artifact,
    {
        let mut out: Vec<(String, &ContractArtifact)> = Vec::new();
        let ghost named = self.cached_artifacts.named() + self.compiled_artifacts.named();
        let all: Vec<(String, (&ContractArtifact, &Version))> = self.versioned_artifacts();
        let ghost es = all@;
        for entry in it: all
            invariant
                it.seq() == es,
                are_versioned(es, named),
                out.len() == it.index(),
                forall|j: int|
                    0 <= j < it.index() ==> (#[trigger] out[j]).0@ == named[j].0 && *out[j].1
                        == named[j].2.artifact,
        {
            let ghost here = it.index() as int;
            assert(es[here].0@ == named[here].0);
            let (name, (artifact, _)): (String, (&ContractArtifact, &Version)) = entry;
            out.push((name, artifact));
        }
        out
    }

    /// The aggregated compiler output.
    pub fn output(&self) -> (r: &AggregatedCompilerOutput)
        ensures
            *r == self.compiler_output,
    {
        &self.compiler_output
    }

    /// The aggregated compiler output.
    pub fn into_output(self) -> (r: AggregatedCompilerOutput)
        ensures
            r == self.compiler_output,
    {
        self.compiler_output
    }

    /// The artifact with matching path and name: a compiled one, or else a cached one.
    pub open spec fn found(&self, path: Seq<Part>, name: Seq<char>) -> Option<ContractArtifact> {
        let compiled = listed(self.compiled_artifacts@, path, name);
        let cached = listed(self.cached_artifacts@, path, name);
        if compiled.len() > 0 {
            Some(compiled[0].artifact)
        } else if cached.len() > 0 {
            Some(cached[0].artifact)
        } else {
            None
        }
    }

    /// The first artifact with the given contract name: among the compiled ones, or else among the
    /// cached ones.
    pub open spec fn found_first(&self, name: Seq<char>) -> Option<ContractArtifact> {
        match (
            first_named(self.compiled_artifacts.spec_items(), name),
            first_named(self.cached_artifacts.spec_items(), name),
        ) {
            (Some(first), _) => Some(first.1.artifact),
            (None, Some(first)) => Some(first.1.artifact),
            (None, None) => None,
        }
    }

    /// Finds the artifact with matching path and name.
    pub fn find(&self, path: &SourcePath, name: &str) -> (r: Option<&ContractArtifact>)
        ensures
            (match r {
                Some(artifact) => self.found(path.parts(), name@) == Some(*artifact),
                None => self.found(path.parts(), name@) is None,
            }),
    {
        match self.compiled_artifacts.find(path, name) {
            Some(artifact) => Some(artifact),
            None => self.cached_artifacts.find(path, name),
        }
    }

    /// Finds the first contract with the given name.
    pub fn find_first(&self, name: &str) -> (r: Option<&ContractArtifact>)
        ensures
            (match r {
                Some(artifact) => self.found_first(name@) == Some(*artifact),
                None => self.found_first(name@) is None,
            }),
    {
        match self.compiled_artifacts.find_first(name) {
            Some(artifact) => Some(artifact),
            None => self.cached_artifacts.find_first(name),
        }
    }

    /// The artifacts that were cached and got reused.
    pub fn cached_artifacts(&self) -> (r: &Artifacts<ContractArtifact>)
        ensures
            *r == self.cached_artifacts,
    {
        &self.cached_artifacts
    }

    /// The artifacts that were compiled.
    pub fn compiled_artifacts(&self) -> (r: &Artifacts<ContractArtifact>)
        ensures
            *r == self.compiled_artifacts,
    {
        &self.compiled_artifacts
    }

    /// Whether this is `before` without what is found there at `path` under `name`.
    pub open spec fn lacks_found(
        &self,
        before: ResolcProjectCompileOutput,
        path: Seq<Part>,
        name: Seq<char>,
    ) -> bool {
        &&& self.compiler_output == before.compiler_output
        &&& self.same_settings(before)
        &&& self.compiled_artifacts.spelled() == before.compiled_artifacts.spelled()
        &&& self.cached_artifacts.spelled() == before.cached_artifacts.spelled()
        &&& if listed(before.compiled_artifacts@, path, name).len() > 0 {
            &&& self.compiled_artifacts@ == without_first(
                before.compiled_artifacts@,
                path,
                name,
                Prune::Nothing,
            )
            &&& self.cached_artifacts@ == before.cached_artifacts@
        } else {
            &&& self.compiled_artifacts@ == before.compiled_artifacts@
            &&& self.cached_artifacts@ == without_first(
                before.cached_artifacts@,
                path,
                name,
                Prune::Nothing,
            )
        }
    }

    /// Whether this is `before` without what is found there first under `name`.
    pub open spec fn lacks_found_first(
        &self,
        before: ResolcProjectCompileOutput,
        name: Seq<char>,
    ) -> bool {
        &&& self.compiler_output == before.compiler_output
        &&& self.same_settings(before)
        &&& self.compiled_artifacts.spelled() == before.compiled_artifacts.spelled()
        &&& self.cached_artifacts.spelled() == before.cached_artifacts.spelled()
        &&& match (
            first_named(before.compiled_artifacts.spec_items(), name),
            first_named(before.cached_artifacts.spec_items(), name),
        ) {
            (Some(first), _) => {
                &&& self.compiled_artifacts@ == without_first(
                    before.compiled_artifacts@,
                    path_parts(first.0),
                    name,
                    Prune::Nothing,
                )
                &&& self.cached_artifacts@ == before.cached_artifacts@
            },
            (None, Some(first)) => {
                &&& self.compiled_artifacts@ == before.compiled_artifacts@
                &&& self.cached_artifacts@ == without_first(
                    before.cached_artifacts@,
                    path_parts(first.0),
                    name,
                    Prune::Nothing,
                )
            },
            (None, None) => {
                &&& self.compiled_artifacts@ == before.compiled_artifacts@
                &&& self.cached_artifacts@ == before.cached_artifacts@
            },
        }
    }

    /// Whether the maps of artifacts stand in order.
    pub open spec fn artifacts_wf(&self) -> bool {
        self.compiled_artifacts.0.wf() && self.cached_artifacts.0.wf()
    }

    /// Removes the artifact with matching path and name.
    pub fn remove(&mut self, path: &SourcePath, name: &str) -> (r: Option<ContractArtifact>)
        ensures
            r == old(self).found(path.parts(), name@),
            final(self).lacks_found(*old(self), path.parts(), name@),
            final(self).artifacts_wf(),
    {
        proof {
            use_type_invariant(&self.cached_artifacts.0);
        }
        let compiled: Option<ContractArtifact> = self.compiled_artifacts.remove(path, name);
        if compiled.is_some() {
            return compiled;
        }
        assert(self.compiled_artifacts@ =~= old(self).compiled_artifacts@);
        self.cached_artifacts.remove(path, name)
    }

    /// Removes the _first_ contract with the given name from the set.
    pub fn remove_first(&mut self, contract_name: &str) -> (r: Option<ContractArtifact>)
        ensures
            r == old(self).found_first(contract_name@),
            final(self).lacks_found_first(*old(self), contract_name@),
            final(self).artifacts_wf(),
    {
        proof {
            use_type_invariant(&self.cached_artifacts.0);
        }
        let compiled: Option<ContractArtifact> = self.compiled_artifacts.remove_first(
            contract_name,
        );
        if compiled.is_some() {
            return compiled;
        }
        self.cached_artifacts.remove_first(contract_name)
    }

    /// Removes the contract with matching path and name using the `<path>:<contractname>` pattern
    /// where `path` is optional.
    ///
    /// If the `path` segment is `None`, then the first matching contract is removed, see
    /// [`Self::remove_first`].
    pub fn remove_contract<'a>(&mut self, info: ContractInfoRef<'a>) -> (r: Option<
        ContractArtifact,
    >)
        ensures
            info.path matches Some(path) ==> r == old(self).found(path_parts(path@), info.name@)
                && final(self).lacks_found(*old(self), path_parts(path@), info.name@),
            info.path is None ==> r == old(self).found_first(info.name@)
                && final(self).lacks_found_first(*old(self), info.name@),
            final(self).artifacts_wf(),
    {
        match info.path {
            Some(path) => self.remove(&SourcePath::new(path), info.name),
            None => self.remove_first(info.name),
        }
    }

    /// The display: that there is nothing to compile, or else the diagnostics.
    pub fn to_text(&self) -> (r: String)
        ensures
            self.displays(r@),
    {
        if self.compiler_output.is_unchanged() {
            "Nothing to compile".to_owned()
        } else {
            let diagnostics: OutputDiagnostics<'_> = self.compiler_output.diagnostics(
                self.ignored_error_codes.as_slice(),
                self.ignored_file_paths.as_slice(),
                self.compiler_severity_filter,
            );
            diagnostics.to_text()
        }
    }
}

} // verus!
