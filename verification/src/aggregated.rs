//! The output of all compiler runs together.

use semver::Version;
use vstd::prelude::*;
use crate::build_info::RawBuildInfo;
use crate::contract::{compact, CompactContractRef, ResolcContract};
use crate::contracts::{files_grown, VersionedContract, VersionedContracts};
use crate::diagnostic::{Error, Severity};
use crate::diagnostics::OutputDiagnostics;
use crate::file_map::{first_named, listed, without_first, Names, Prune};
use crate::info::ContractInfoRef;
use crate::path::{joined_text, path_parts, Part, SourcePath};
use crate::path_map::{repathed, respelled, Change};
use crate::sorted_map::SortedMap;
use crate::sources::{sources_grown, SourceFile, VersionedSourceFile, VersionedSourceFiles};
use crate::text::{ends_with, ends_with_letters};
use crate::version::{Run, RunKey};

verus! {

/// What one run of the compiler hands back.
#[derive(Clone, Debug, PartialEq, Eq)]
pub struct ResolcCompilerOutput {
    pub errors: Vec<Error>,
    pub sources: SortedMap<SourcePath, SourceFile>,
    pub contracts: SortedMap<SourcePath, SortedMap<String, ResolcContract>>,
}

/// The aggregated output of (multiple) compile jobs.
#[derive(Clone, Debug, PartialEq, Eq)]
pub struct AggregatedCompilerOutput {
    /// All diagnostics of all runs.
    pub errors: Vec<Error>,
    /// All source files with the runs that read them.
    pub sources: VersionedSourceFiles,
    /// All compiled contracts with the runs that made them.
    pub contracts: VersionedContracts,
    /// What is kept about the runs.
    pub build_infos: Vec<RawBuildInfo>,
}

/// Whether one of the paths is at the front of `file`.
pub open spec fn under_any(paths: Seq<SourcePath>, file: Seq<Part>) -> bool {
    exists|i: int| 0 <= i < paths.len() && (#[trigger] paths[i]).parts().is_prefix_of(file)
}

/// The codes of the warnings that do not matter in test files: a missing license identifier and a
/// contract that is too large.
pub open spec fn minor_in_tests(code: u64) -> bool {
    code == 1878 || code == 5574
}

/// Whether one of the paths is at the front of `file`.
pub fn is_under_any(paths: &[SourcePath], file: &SourcePath) -> (r: bool)
    ensures
        r == under_any(paths@, file.parts()),
{
    let mut i: usize = 0;
    while i < paths.len()
        invariant
            i <= paths.len(),
            forall|j: int| 0 <= j < i ==> !(#[trigger] paths@[j]).parts().is_prefix_of(file.parts()),
        decreases paths.len() - i,
    {
        if file.starts_with(&paths[i]) {
            return true;
        }
        i = i + 1;
    }
    false
}

/// Whether the code is one of the codes.
pub fn has_code(codes: &[u64], code: u64) -> (r: bool)
    ensures
        r == codes@.contains(code),
{
    let mut i: usize = 0;
    while i < codes.len()
        invariant
            i <= codes.len(),
            forall|j: int| 0 <= j < i ==> codes@[j] != code,
        decreases codes.len() - i,
    {
        if codes[i] == code {
            return true;
        }
        i = i + 1;
    }
    false
}

impl AggregatedCompilerOutput {
    /// The maps inside stand in order.
    pub open spec fn wf(&self) -> bool {
        self.sources.wf() && self.contracts.0.wf()
    }

    /// Whether a file holds tests: by its name, or because one of its contracts is marked.
    pub open spec fn file_is_test(&self, file: Seq<char>) -> bool {
        ||| ends_with_letters(file, ".t.sol"@)
        ||| exists|i: int|
            0 <= i < self.contracts.spec_items().len() && path_parts(
                (#[trigger] self.contracts.spec_items()[i]).0,
            ) == path_parts(file)
                && self.contracts.spec_items()[i].2.contract.marks_test()
    }

    /// Whether a diagnostic is a warning that is to be passed over: by its code, because it comes
    /// from a file to be ignored, or because it does not matter in tests and comes from one.
    pub open spec fn ignores(
        &self,
        codes: Seq<u64>,
        paths: Seq<SourcePath>,
        error: Error,
    ) -> bool {
        &&& error.severity == Severity::Warning
        &&& error.error_code matches Some(code) && {
            ||| codes.contains(code)
            ||| error.source_location matches Some(location) && {
                ||| under_any(paths, path_parts(location.file@))
                ||| self.file_is_test(location.file@) && minor_in_tests(code)
            }
        }
    }

    /// Whether there is a warning that is not to be passed over.
    pub open spec fn warns(&self, codes: Seq<u64>, paths: Seq<SourcePath>) -> bool {
        exists|i: int|
            0 <= i < self.errors@.len() && (#[trigger] self.errors@[i]).severity
                == Severity::Warning && !self.ignores(codes, paths, self.errors@[i])
    }

    /// Whether a diagnostic counts as an error under the given filter. Warnings count together, as
    /// long as one of them is not to be passed over.
    pub open spec fn counts(
        &self,
        codes: Seq<u64>,
        paths: Seq<SourcePath>,
        filter: Severity,
        error: Error,
    ) -> bool {
        ||| error.severity == Severity::Error
        ||| filter.level() >= error.severity.level() && (filter == Severity::Warning ==> self.warns(
            codes,
            paths,
        ))
    }

    /// Whether a diagnostic counts as an error under the given filter.
    pub open spec fn fails(
        &self,
        codes: Seq<u64>,
        paths: Seq<SourcePath>,
        filter: Severity,
    ) -> bool {
        exists|i: int|
            0 <= i < self.errors@.len() && self.counts(
                codes,
                paths,
                filter,
                #[trigger] self.errors@[i],
            )
    }

    /// Converts all `\\` separators in _all_ paths to `/`.
    pub fn slash_paths(&mut self)
        ensures
            final(self).wf(),
            final(self).sources@ == repathed(old(self).sources.listing(), Change::Slash),
            final(self).sources.spelled() == respelled(old(self).sources.listing(), Change::Slash),
            final(self).contracts@ == repathed(old(self).contracts.0.listing(), Change::Slash),
            final(self).contracts.spelled() == respelled(
                old(self).contracts.0.listing(),
                Change::Slash,
            ),
            final(self).errors == old(self).errors,
            final(self).build_infos == old(self).build_infos,
    {
        self.sources.slash_paths();
        self.contracts.slash_paths();
    }

    /// Whether the output contains a compiler error.
    ///
    /// This adheres to the given `compiler_severity_filter` and also considers diagnostics with the
    /// given severity as errors. For example [`Severity::Warning`] will consider diagnostics with
    /// [`Severity::Warning`] and [`Severity::Error`] as errors.
    pub fn has_error(
        &self,
        ignored_error_codes: &[u64],
        ignored_file_paths: &[SourcePath],
        compiler_severity_filter: &Severity,
    ) -> (r: bool)
        ensures
            r == self.fails(ignored_error_codes@, ignored_file_paths@, *compiler_severity_filter),
    {
        let mut i: usize = 0;
        while i < self.errors.len()
            invariant
                i <= self.errors.len(),
                forall|j: int|
                    0 <= j < i ==> !self.counts(
                        ignored_error_codes@,
                        ignored_file_paths@,
                        *compiler_severity_filter,
                        #[trigger] self.errors@[j],
                    ),
            decreases self.errors.len() - i,
        {
            let error: &Error = &self.errors[i];
            if error.is_error() {
                // an error is an error under any filter
                return true;
            }
            if compiler_severity_filter.reaches(&error.severity) {
                if !compiler_severity_filter.is_warning() {
                    return true;
                }
                // warnings that are to be passed over do not count
                if self.has_warning(ignored_error_codes, ignored_file_paths) {
                    return true;
                }
            }
            i = i + 1;
        }
        false
    }

    /// Checks if there are any compiler warnings that are not ignored by the specified error codes
    /// and file paths.
    pub fn has_warning(
        &self,
        ignored_error_codes: &[u64],
        ignored_file_paths: &[SourcePath],
    ) -> (r: bool)
        ensures
            r == self.warns(ignored_error_codes@, ignored_file_paths@),
    {
        let mut i: usize = 0;
        while i < self.errors.len()
            invariant
                i <= self.errors.len(),
                forall|j: int|
                    0 <= j < i ==> (#[trigger] self.errors@[j]).severity != Severity::Warning
                        || self.ignores(ignored_error_codes@, ignored_file_paths@, self.errors@[j]),
            decreases self.errors.len() - i,
        {
            let error: &Error = &self.errors[i];
            if error.is_warning() && !self.should_ignore(
                ignored_error_codes,
                ignored_file_paths,
                error,
            ) {
                return true;
            }
            i = i + 1;
        }
        false
    }

    /// Whether a diagnostic is a warning that is to be passed over.
    pub fn should_ignore(
        &self,
        ignored_error_codes: &[u64],
        ignored_file_paths: &[SourcePath],
        error: &Error,
    ) -> (r: bool)
        ensures
            r == self.ignores(ignored_error_codes@, ignored_file_paths@, *error),
    {
        if !error.is_warning() {
            return false;
        }
        let mut ignore: bool = false;
        if let Some(code) = error.error_code {
            ignore = has_code(ignored_error_codes, code);
            if let Some(location) = &error.source_location {
                let path: SourcePath = SourcePath::new(location.file.as_str());
                ignore = ignore || is_under_any(ignored_file_paths, &path);
                // license and contract size warnings do not matter in test files
                ignore = ignore || ((code == 1878 || code == 5574) && self.is_test(
                    location.file.as_str(),
                ));
            }
        }
        ignore
    }

    /// Returns true if the contract is expected to be a test.
    pub(crate) fn is_test(&self, contract_path: &str) -> (r: bool)
        ensures
            r == self.file_is_test(contract_path@),
    {
        if ends_with(contract_path, ".t.sol") {
            return true;
        }
        let path: SourcePath = SourcePath::new(contract_path);
        let contracts: Vec<(&SourcePath, &String, &ResolcContract)> =
            self.contracts.contracts_with_files();
        let mut i: usize = 0;
        while i < contracts.len()
            invariant
                path@ == contract_path@,
                i <= contracts.len(),
                contracts.len() == self.contracts.spec_items().len(),
                forall|j: int|
                    0 <= j < contracts.len() ==> (#[trigger] contracts[j]).0@
                        == self.contracts.spec_items()[j].0 && *contracts[j].2
                        == self.contracts.spec_items()[j].2.contract,
                forall|j: int|
                    0 <= j < i ==> !(path_parts((#[trigger] self.contracts.spec_items()[j]).0)
                        == path_parts(contract_path@) && self.contracts.spec_items()[j].2.contract.marks_test()),
            decreases contracts.len() - i,
        {
            let (file, _, contract): (&SourcePath, &String, &ResolcContract) = contracts[i];
            assert(contracts[i as int].0@ == self.contracts.spec_items()[i as int].0);
            if file.same(&path) && contract.is_marked_test() {
                return true;
            }
            i = i + 1;
        }
        false
    }

    /// The diagnostics as they are displayed.
    pub fn diagnostics<'a>(
        &'a self,
        ignored_error_codes: &'a [u64],
        ignored_file_paths: &'a [SourcePath],
        compiler_severity_filter: Severity,
    ) -> (r: OutputDiagnostics<'a>)
        ensures
            r.output() == *self,
            r.codes() == ignored_error_codes@,
            r.paths() == ignored_file_paths@,
            r.filter() == compiler_severity_filter,
    {
        OutputDiagnostics::new(
            self,
            ignored_error_codes,
            ignored_file_paths,
            compiler_severity_filter,
        )
    }

    /// Whether there are no contracts.
    pub fn is_empty(&self) -> (r: bool)
        ensures
            r == self.contracts@.dom().is_empty(),
    {
        self.contracts.is_empty()
    }

    /// Whether there are neither contracts nor diagnostics.
    pub fn is_unchanged(&self) -> (r: bool)
        ensures
            r == (self.contracts@.dom().is_empty() && self.errors@.len() == 0),
    {
        self.contracts.is_empty() && self.errors.len() == 0
    }

    /// Adds the output of a run to the aggregated output.
    pub fn extend(
        &mut self,
        version: Version,
        build_info: RawBuildInfo,
        profile: &str,
        output: ResolcCompilerOutput,
    )
        ensures
            final(self).wf(),
            final(self).build_infos@ == old(self).build_infos@.push(build_info),
            final(self).errors@ == old(self).errors@ + output.errors@,
            sources_grown(
                old(self).sources@,
                final(self).sources@,
                output.sources@,
                (RunKey { version, build_id: build_info.id@, profile: profile@ }),
            ),
            files_grown(
                old(self).contracts@,
                final(self).contracts@,
                output.contracts@,
                (RunKey { version, build_id: build_info.id@, profile: profile@ }),
            ),
            final(self).sources.spelled() == output.sources.spelled().union_prefer_right(
                old(self).sources.spelled(),
            ),
            final(self).contracts.spelled() == output.contracts.spelled().union_prefer_right(
                old(self).contracts.spelled(),
            ),
    {
        let build_id: String = build_info.id.clone();
        self.build_infos.push(build_info);
        let ResolcCompilerOutput { errors, sources, contracts } = output;
        let mut errors: Vec<Error> = errors;
        self.errors.append(&mut errors);
        let run: Run = Run { version: &version, build_id: build_id.as_str(), profile };
        self.sources.extend(sources, &run);
        self.contracts.extend(contracts, &run);
    }

    /// The files in `build_info_dir` that hold what is kept about the runs, one for each run in
    /// their order. The file of a run is named by its id.
    pub fn build_info_files(&self, build_info_dir: &SourcePath) -> (r: Vec<SourcePath>)
        ensures
            r.len() == self.build_infos.len(),
            forall|i: int|
                0 <= i < r.len() ==> (#[trigger] r[i])@ == joined_text(
                    build_info_dir@,
                    self.build_infos@[i].id@ + ".json"@,
                ),
    {
        let mut out: Vec<SourcePath> = Vec::new();
        let mut i: usize = 0;
        while i < self.build_infos.len()
            invariant
                i <= self.build_infos.len(),
                out.len() == i,
                forall|j: int|
                    0 <= j < i ==> (#[trigger] out[j])@ == joined_text(
                        build_info_dir@,
                        self.build_infos@[j].id@ + ".json"@,
                    ),
            decreases self.build_infos.len() - i,
        {
            let file_name: String = self.build_infos[i].id.clone().concat(".json");
            out.push(build_info_dir.join(&SourcePath::new(file_name.as_str())));
            i = i + 1;
        }
        out
    }

    /// Finds the _first_ contract with the given name.
    pub fn find_first(&self, contract: &str) -> (r: Option<CompactContractRef<'_>>)
        ensures
            (match r {
                Some(found) => first_named(self.contracts.spec_items(), contract@) matches Some(
                    first,
                ) && found == compact(&first.1.contract),
                None => first_named(self.contracts.spec_items(), contract@) is None,
            }),
    {
        self.contracts.find_first(contract)
    }

    /// Removes the _first_ contract with the given name from the set.
    pub fn remove_first(&mut self, contract: &str) -> (r: Option<ResolcContract>)
        ensures
            (match r {
                Some(removed) => first_named(
                    old(self).contracts.spec_items(),
                    contract@,
                ) matches Some(first) && first.1.contract == removed && final(self).contracts@
                    == without_first(
                    old(self).contracts@,
                    path_parts(first.0),
                    contract@,
                    Prune::Names,
                ),
                None => first_named(old(self).contracts.spec_items(), contract@) is None
                    && final(self).contracts == old(self).contracts,
            }),
            final(self).contracts.spelled() == old(self).contracts.spelled().restrict(
                final(self).contracts@.dom(),
            ),
            final(self).contracts.0.wf(),
            final(self).errors == old(self).errors,
            final(self).sources == old(self).sources,
            final(self).build_infos == old(self).build_infos,
    {
        self.contracts.remove_first(contract)
    }

    /// Removes the contract with matching path and name.
    pub fn remove(&mut self, path: &SourcePath, contract: &str) -> (r: Option<ResolcContract>)
        ensures
            r is Some <==> listed(old(self).contracts@, path.parts(), contract@).len() > 0,
            r matches Some(removed) ==> removed == listed(
                old(self).contracts@,
                path.parts(),
                contract@,
            )[0].contract,
            final(self).contracts@ == without_first(
                old(self).contracts@,
                path.parts(),
                contract@,
                Prune::Files,
            ),
            final(self).contracts.spelled() == old(self).contracts.spelled().restrict(
                final(self).contracts@.dom(),
            ),
            final(self).contracts.0.wf(),
            final(self).errors == old(self).errors,
            final(self).sources == old(self).sources,
            final(self).build_infos == old(self).build_infos,
    {
        self.contracts.remove(path, contract)
    }

    /// Removes the contract with matching path and name using the `<path>:<contractname>` pattern
    /// where `path` is optional.
    ///
    /// If the `path` segment is `None`, then the first matching contract is removed, see
    /// [`Self::remove_first`].
    pub fn remove_contract<'a>(&mut self, info: ContractInfoRef<'a>) -> (r: Option<ResolcContract>)
        ensures
            info.path matches Some(path) ==> {
                &&& r is Some <==> listed(
                    old(self).contracts@,
                    path_parts(path@),
                    info.name@,
                ).len() > 0
                &&& r matches Some(removed) ==> removed == listed(
                    old(self).contracts@,
                    path_parts(path@),
                    info.name@,
                )[0].contract
                &&& final(self).contracts@ == without_first(
                    old(self).contracts@,
                    path_parts(path@),
                    info.name@,
                    Prune::Files,
                )
            },
            info.path is None ==> (match r {
                Some(removed) => first_named(
                    old(self).contracts.spec_items(),
                    info.name@,
                ) matches Some(first) && first.1.contract == removed && final(self).contracts@
                    == without_first(
                    old(self).contracts@,
                    path_parts(first.0),
                    info.name@,
                    Prune::Names,
                ),
                None => first_named(old(self).contracts.spec_items(), info.name@) is None
                    && final(self).contracts == old(self).contracts,
            }),
            final(self).contracts.spelled() == old(self).contracts.spelled().restrict(
                final(self).contracts@.dom(),
            ),
            final(self).contracts.0.wf(),
            final(self).errors == old(self).errors,
            final(self).sources == old(self).sources,
            final(self).build_infos == old(self).build_infos,
    {
        match info.path {
            Some(path) => self.remove(&SourcePath::new(path), info.name),
            None => self.remove_first(info.name),
        }
    }

    /// All contracts and their names.
    pub fn contracts_iter(&self) -> (r: Vec<(&String, &ResolcContract)>)
        ensures
            r.len() == self.contracts.spec_items().len(),
            forall|i: int|
                0 <= i < r.len() ==> (#[trigger] r[i]).0@ == self.contracts.spec_items()[i].1
                    && *r[i].1 == self.contracts.spec_items()[i].2.contract,
    {
        self.contracts.contracts()
    }

    /// All contracts and their names.
    pub fn contracts_into_iter(self) -> (r: Vec<(String, ResolcContract)>)
        ensures
            r.len() == self.contracts.spec_items().len(),
            forall|i: int|
                0 <= i < r.len() ==> (#[trigger] r[i]).0@ == self.contracts.spec_items()[i].1
                    && r[i].1 == self.contracts.spec_items()[i].2.contract,
    {
        self.contracts.into_contracts()
    }

    /// All contracts as (`file`, `name`, `Contract`).
    pub fn contracts_with_files_iter(&self) -> (r: Vec<(&SourcePath, &String, &ResolcContract)>)
        ensures
            r.len() == self.contracts.spec_items().len(),
            forall|i: int|
                0 <= i < r.len() ==> (#[trigger] r[i]).0@ == self.contracts.spec_items()[i].0
                    && r[i].1@ == self.contracts.spec_items()[i].1 && *r[i].2
                    == self.contracts.spec_items()[i].2.contract,
    {
        self.contracts.contracts_with_files()
    }

    /// All contracts as (`file`, `name`, `Contract`).
    pub fn contracts_with_files_into_iter(self) -> (r: Vec<(SourcePath, String, ResolcContract)>)
        ensures
            r.len() == self.contracts.spec_items().len(),
            forall|i: int|
                0 <= i < r.len() ==> (#[trigger] r[i]).0@ == self.contracts.spec_items()[i].0
                    && r[i].1@ == self.contracts.spec_items()[i].1 && r[i].2
                    == self.contracts.spec_items()[i].2.contract,
    {
        self.contracts.into_contracts_with_files()
    }

    /// All contracts as (`file`, `name`, `Contract`, `Version`).
    pub fn contracts_with_files_and_version_iter(&self) -> (r: Vec<
        (&SourcePath, &String, &ResolcContract, &Version),
    >)
        ensures
            r.len() == self.contracts.spec_items().len(),
            forall|i: int|
                0 <= i < r.len() ==> (#[trigger] r[i]).0@ == self.contracts.spec_items()[i].0
                    && r[i].1@ == self.contracts.spec_items()[i].1 && *r[i].2
                    == self.contracts.spec_items()[i].2.contract && *r[i].3
                    == self.contracts.spec_items()[i].2.version,
    {
        self.contracts.contracts_with_files_and_version()
    }

    /// All contracts as (`file`, `name`, `Contract`, `Version`).
    pub fn contracts_with_files_and_version_into_iter(self) -> (r: Vec<
        (SourcePath, String, ResolcContract, Version),
    >)
        ensures
            r.len() == self.contracts.spec_items().len(),
            forall|i: int|
                0 <= i < r.len() ==> (#[trigger] r[i]).0@ == self.contracts.spec_items()[i].0
                    && r[i].1@ == self.contracts.spec_items()[i].1 && r[i].2
                    == self.contracts.spec_items()[i].2.contract && r[i].3
                    == self.contracts.spec_items()[i].2.version,
    {
        self.contracts.into_contracts_with_files_and_version()
    }

    /// Given the contract file's path and the contract's name, tries to return the contract's
    /// bytecode, runtime bytecode, and ABI.
    pub fn get(&self, path: &SourcePath, contract: &str) -> (r: Option<CompactContractRef<'_>>)
        ensures
            r is Some <==> listed(self.contracts@, path.parts(), contract@).len() > 0,
            r matches Some(found) ==> found == compact(
                &listed(self.contracts@, path.parts(), contract@)[0].contract,
            ),
    {
        self.contracts.get(path, contract)
    }

    /// Returns the output's source files and contracts separately.
    pub fn split(self) -> (r: (VersionedSourceFiles, VersionedContracts))
        ensures
            r == (self.sources, self.contracts),
    {
        (self.sources, self.contracts)
    }

    /// Joins all file paths with `root`.
    pub fn join_all(&mut self, root: &SourcePath) -> (r: &mut Self)
        ensures
            r.wf(),
            r.contracts@ == repathed(old(self).contracts.0.listing(), Change::Join(root@)),
            r.contracts.spelled() == respelled(old(self).contracts.0.listing(), Change::Join(root@)),
            r.sources@ == repathed(old(self).sources.listing(), Change::Join(root@)),
            r.sources.spelled() == respelled(old(self).sources.listing(), Change::Join(root@)),
            r.errors == old(self).errors,
            r.build_infos == old(self).build_infos,
            *final(self) == *final(r),
    {
        self.contracts.join_all(root);
        self.sources.join_all(root);
        self
    }

    /// Strips the given prefix from all file paths to make them relative to the given `base`
    /// argument.
    ///
    /// Convenience method for [`Self::strip_prefix_all`] that consumes the type.
    pub fn with_stripped_file_prefixes(self, base: &SourcePath) -> (r: Self)
        ensures
            r.wf(),
            r.contracts@ == repathed(self.contracts.0.listing(), Change::Strip(base@)),
            r.contracts.spelled() == respelled(self.contracts.0.listing(), Change::Strip(base@)),
            r.sources@ == repathed(self.sources.listing(), Change::Strip(base@)),
            r.sources.spelled() == respelled(self.sources.listing(), Change::Strip(base@)),
            r.errors == self.errors,
            r.build_infos == self.build_infos,
    {
        let mut out: AggregatedCompilerOutput = self;
        out.contracts.strip_prefix_all(base);
        out.sources.strip_prefix_all(base);
        out
    }

    /// Removes `base` from all contract paths.
    pub fn strip_prefix_all(&mut self, base: &SourcePath) -> (r: &mut Self)
        ensures
            r.wf(),
            r.contracts@ == repathed(old(self).contracts.0.listing(), Change::Strip(base@)),
            r.contracts.spelled() == respelled(old(self).contracts.0.listing(), Change::Strip(base@)),
            r.sources@ == repathed(old(self).sources.listing(), Change::Strip(base@)),
            r.sources.spelled() == respelled(old(self).sources.listing(), Change::Strip(base@)),
            r.errors == old(self).errors,
            r.build_infos == old(self).build_infos,
            *final(self) == *final(r),
    {
        self.contracts.strip_prefix_all(base);
        self.sources.strip_prefix_all(base);
        self
    }
}

impl Default for AggregatedCompilerOutput {
    /// The output of no run.
    fn default() -> (r: Self)
        ensures
            r.wf(),
            r.errors@ == Seq::<Error>::empty(),
            r.sources@ == Map::<Seq<Part>, Seq<VersionedSourceFile>>::empty(),
            r.contracts@ == Map::<Seq<Part>, Names<VersionedContract>>::empty(),
            r.sources.spelled() == Map::<Seq<Part>, Seq<char>>::empty(),
            r.contracts.spelled() == Map::<Seq<Part>, Seq<char>>::empty(),
            r.contracts.spec_items() == Seq::<(Seq<char>, Seq<char>, VersionedContract)>::empty(),
            r.build_infos@ == Seq::<RawBuildInfo>::empty(),
    {
        AggregatedCompilerOutput {
            errors: Vec::new(),
            sources: VersionedSourceFiles::new(),
            contracts: VersionedContracts::new(),
            build_infos: Vec::new(),
        }
    }
}

} // verus!
