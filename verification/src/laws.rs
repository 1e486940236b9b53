//! What holds of outputs as a whole.

use vstd::prelude::*;
use crate::aggregated::{under_any, AggregatedCompilerOutput, ResolcCompilerOutput};
use crate::artifacts::{slashed_file, slashed_files, ArtifactFile, Artifacts};
use crate::build_info::RawBuildInfo;
use crate::contracts::{added_in, files_grown, law_extend_appends, made_by, VersionedContract, VersionedContracts};
use crate::diagnostic::{Error, Severity};
use crate::diagnostics::{hides, lines, report_text};
use crate::file_map::{first_named, items_under, law_first_named_is_first_listed, law_items_stand_in_order, law_items_under, law_listing, law_take_touches_one_list, listed, names_of, places_under, Names, Prune};
use crate::path::{law_slashed_once, path_parts, relative, Part, SourcePath};
use crate::path_map::{by_path, distinct, law_slash_of_files_once, law_strip_undoes_join_of_files, repathed, respelled, Change};
use crate::project::ResolcProjectCompileOutput;
use crate::sorted_map::{ascending_pairs, before, lemma_before};
use crate::sources::{law_extend_appends_sources, law_source_listing, sources_at, sources_grown, VersionedSourceFile};
use crate::style::painted;
use crate::version::RunKey;

verus! {

/// What each severity filter makes of the diagnostics: errors alone, errors and warnings that are
/// not passed over, or any diagnostic at all.
pub proof fn law_severity_filter(
    output: AggregatedCompilerOutput,
    codes: Seq<u64>,
    paths: Seq<SourcePath>,
)
    ensures
        output.fails(codes, paths, Severity::Error) <==> exists|i: int|
            0 <= i < output.errors@.len() && (#[trigger] output.errors@[i]).severity
                == Severity::Error,
        output.fails(codes, paths, Severity::Warning) <==> output.fails(
            codes,
            paths,
            Severity::Error,
        ) || output.warns(codes, paths),
        output.fails(codes, paths, Severity::Info) <==> output.errors@.len() > 0,
{
    if output.errors@.len() > 0 {
        assert(output.counts(codes, paths, Severity::Info, output.errors@[0]));
    }
    if exists|i: int|
        0 <= i < output.errors@.len() && (#[trigger] output.errors@[i]).severity
            == Severity::Error {
        let i = choose|i: int|
            0 <= i < output.errors@.len() && (#[trigger] output.errors@[i]).severity
                == Severity::Error;
        assert(output.counts(codes, paths, Severity::Error, output.errors@[i]));
        assert(output.counts(codes, paths, Severity::Warning, output.errors@[i]));
    }
    if output.warns(codes, paths) {
        let i = choose|i: int|
            0 <= i < output.errors@.len() && (#[trigger] output.errors@[i]).severity
                == Severity::Warning && !output.ignores(codes, paths, output.errors@[i]);
        assert(output.counts(codes, paths, Severity::Warning, output.errors@[i]));
    }
}

/// A filter that reaches further never lets an output pass that a narrower filter fails.
pub proof fn law_filter_is_monotone(
    output: AggregatedCompilerOutput,
    codes: Seq<u64>,
    paths: Seq<SourcePath>,
    narrow: Severity,
    wide: Severity,
)
    requires
        narrow.level() <= wide.level(),
        output.fails(codes, paths, narrow),
    ensures
        output.fails(codes, paths, wide),
{
    law_severity_filter(output, codes, paths);
}

/// Ignoring more codes and more paths passes over more warnings and never makes an output fail.
pub proof fn law_ignoring_more(
    output: AggregatedCompilerOutput,
    codes: Seq<u64>,
    more_codes: Seq<u64>,
    paths: Seq<SourcePath>,
    more_paths: Seq<SourcePath>,
    filter: Severity,
)
    requires
        forall|code: u64| #[trigger] codes.contains(code) ==> more_codes.contains(code),
        forall|file: Seq<Part>| #[trigger] under_any(paths, file) ==> under_any(more_paths, file),
    ensures
        forall|error: Error| #[trigger]
            output.ignores(codes, paths, error) ==> output.ignores(more_codes, more_paths, error),
        output.warns(more_codes, more_paths) ==> output.warns(codes, paths),
        output.fails(more_codes, more_paths, filter) ==> output.fails(codes, paths, filter),
{
    assert forall|error: Error| #[trigger] output.ignores(codes, paths, error) implies output.ignores(
        more_codes,
        more_paths,
        error,
    ) by {}
    if output.warns(more_codes, more_paths) {
        let i = choose|i: int|
            0 <= i < output.errors@.len() && (#[trigger] output.errors@[i]).severity
                == Severity::Warning && !output.ignores(more_codes, more_paths, output.errors@[i]);
        assert(!output.ignores(codes, paths, output.errors@[i]));
    }
    law_severity_filter(output, codes, paths);
    law_severity_filter(output, more_codes, more_paths);
}

/// Only warnings with a code are ever passed over, and the display hides exactly those that are
/// passed over.
pub proof fn law_only_warnings_are_passed_over(
    output: AggregatedCompilerOutput,
    codes: Seq<u64>,
    paths: Seq<SourcePath>,
    error: Error,
)
    ensures
        output.ignores(codes, paths, error) ==> error.severity == Severity::Warning
            && error.error_code is Some,
        hides(output, codes, paths, error) == output.ignores(codes, paths, error),
{
}

proof fn lemma_line_stays(
    output: AggregatedCompilerOutput,
    codes: Seq<u64>,
    paths: Seq<SourcePath>,
    n: nat,
    i: int,
)
    requires
        0 <= i < n <= output.errors@.len(),
        !hides(output, codes, paths, output.errors@[i]),
    ensures
        (lines(output, codes, paths, i as nat) + "\n"@ + output.errors@[i].text@).is_prefix_of(
            lines(output, codes, paths, n),
        ),
    decreases n,
{
    let line = lines(output, codes, paths, i as nat) + "\n"@ + output.errors@[i].text@;
    let all = lines(output, codes, paths, n);
    if i < n - 1 {
        let front = lines(output, codes, paths, (n - 1) as nat);
        lemma_line_stays(output, codes, paths, (n - 1) as nat, i);
        assert(all.subrange(0, line.len() as int) =~= front.subrange(0, line.len() as int));
    } else {
        assert(all.subrange(0, line.len() as int) =~= line);
    }
}

/// Every diagnostic that is not hidden is displayed on a line of its own, behind the lines of those
/// that were reported before it. In particular every error is.
pub proof fn law_diagnostics_are_displayed(
    output: AggregatedCompilerOutput,
    codes: Seq<u64>,
    paths: Seq<SourcePath>,
    status: Seq<char>,
    i: int,
)
    requires
        0 <= i < output.errors@.len(),
        !hides(output, codes, paths, output.errors@[i]),
    ensures
        ("Compiler run "@ + status + lines(output, codes, paths, i as nat) + "\n"@
            + output.errors@[i].text@).is_prefix_of(report_text(output, codes, paths, status)),
{
    let head = "Compiler run "@ + status;
    let n = output.errors@.len();
    let line = lines(output, codes, paths, i as nat) + "\n"@ + output.errors@[i].text@;
    lemma_line_stays(output, codes, paths, n, i);
    let shown = head + lines(output, codes, paths, i as nat) + "\n"@ + output.errors@[i].text@;
    let all = report_text(output, codes, paths, status);
    assert(shown =~= head + line);
    let rest = lines(output, codes, paths, n);
    assert(rest.subrange(0, line.len() as int) == line);
    assert forall|k: int| 0 <= k < shown.len() implies shown[k] == all[k] by {
        if k >= head.len() {
            assert(rest.subrange(0, line.len() as int)[k - head.len()] == line[k - head.len()]);
        }
    }
    assert(all.subrange(0, shown.len() as int) =~= shown);
}

proof fn lemma_no_lines(
    output: AggregatedCompilerOutput,
    codes: Seq<u64>,
    paths: Seq<SourcePath>,
    n: nat,
)
    requires
        n <= output.errors@.len(),
        forall|i: int| 0 <= i < n ==> hides(output, codes, paths, #[trigger] output.errors@[i]),
    ensures
        lines(output, codes, paths, n).len() == 0,
    decreases n,
{
    if n > 0 {
        lemma_no_lines(output, codes, paths, (n - 1) as nat);
        assert(hides(output, codes, paths, output.errors@[n - 1]));
    }
}

/// The status and the lines below it agree. Where all diagnostics are errors or warnings, nothing
/// is displayed but a status exactly when there are neither errors nor warnings that count.
pub proof fn law_lines_agree_with_status(
    output: AggregatedCompilerOutput,
    codes: Seq<u64>,
    paths: Seq<SourcePath>,
    status: Seq<char>,
)
    requires
        forall|i: int|
            0 <= i < output.errors@.len() ==> (#[trigger] output.errors@[i]).severity
                != Severity::Info,
    ensures
        lines(output, codes, paths, output.errors@.len()).len() == 0 <==> !output.fails(
            codes,
            paths,
            Severity::Error,
        ) && !output.warns(codes, paths),
        report_text(output, codes, paths, status) == "Compiler run "@ + status <==> !output.fails(
            codes,
            paths,
            Severity::Error,
        ) && !output.warns(codes, paths),
{
    let n = output.errors@.len();
    let head = "Compiler run "@ + status;
    law_severity_filter(output, codes, paths);
    reveal_strlit("\n");
    if lines(output, codes, paths, n).len() == 0 {
        assert(report_text(output, codes, paths, status) =~= head);
        assert forall|i: int| 0 <= i < n implies hides(
            output,
            codes,
            paths,
            #[trigger] output.errors@[i],
        ) by {
            if !hides(output, codes, paths, output.errors@[i]) {
                lemma_line_stays(output, codes, paths, n, i);
            }
        }
    } else {
        assert(report_text(output, codes, paths, status).len() > head.len());
        if forall|i: int| 0 <= i < n ==> hides(output, codes, paths, #[trigger] output.errors@[i]) {
            lemma_no_lines(output, codes, paths, n);
        } else {
            let i = choose|i: int|
                0 <= i < n && !hides(output, codes, paths, #[trigger] output.errors@[i]);
            assert(output.errors@[i].severity == Severity::Error || output.warns(codes, paths));
        }
    }
}

proof fn lemma_distinct<V>(files: Seq<(Seq<char>, V)>)
    requires
        ascending_pairs::<SourcePath, V>(by_path(files)),
    ensures
        distinct(files),
{
    let ps = by_path(files);
    assert forall|i: int, j: int| 0 <= i < j < files.len() implies path_parts(
        (#[trigger] files[i]).0,
    ) != path_parts((#[trigger] files[j]).0) by {
        assert(before::<SourcePath>(ps[i].0, ps[j].0));
        lemma_before::<SourcePath>(ps[i].0, ps[j].0);
    }
}

/// Whether all files of an output are at relative paths.
pub open spec fn all_relative(output: AggregatedCompilerOutput) -> bool {
    &&& forall|i: int|
        0 <= i < output.contracts.0.listing().len() ==> relative(
            path_parts((#[trigger] output.contracts.0.listing()[i]).0),
        )
    &&& forall|i: int|
        0 <= i < output.sources.listing().len() ==> relative(
            path_parts((#[trigger] output.sources.listing()[i]).0),
        )
}

/// When all files of an output at relative paths are joined to a root, stripping that root from
/// all paths gives the same contracts and sources again.
pub proof fn law_strip_undoes_join_all(
    output: AggregatedCompilerOutput,
    under_root: AggregatedCompilerOutput,
    root: Seq<char>,
)
    requires
        output.wf(),
        under_root.wf(),
        all_relative(output),
        under_root.contracts@ == repathed(output.contracts.0.listing(), Change::Join(root)),
        under_root.sources@ == repathed(output.sources.listing(), Change::Join(root)),
    ensures
        repathed(under_root.contracts.0.listing(), Change::Strip(root)) == output.contracts@,
        repathed(under_root.sources.listing(), Change::Strip(root)) == output.sources@,
{
    law_listing(output.contracts.0);
    law_listing(under_root.contracts.0);
    law_source_listing(output.sources);
    law_source_listing(under_root.sources);
    lemma_distinct(output.contracts.0.listing());
    lemma_distinct(under_root.contracts.0.listing());
    lemma_distinct(output.sources.listing());
    lemma_distinct(under_root.sources.listing());
    law_strip_undoes_join_of_files(
        output.contracts.0.listing(),
        under_root.contracts.0.listing(),
        root,
    );
    law_strip_undoes_join_of_files(output.sources.listing(), under_root.sources.listing(), root);
}

/// Slashing all paths of an output once more changes nothing.
pub proof fn law_slash_paths_once(
    output: AggregatedCompilerOutput,
    slashed: AggregatedCompilerOutput,
)
    requires
        slashed.wf(),
        slashed.contracts@ == repathed(output.contracts.0.listing(), Change::Slash),
        slashed.contracts.spelled() == respelled(output.contracts.0.listing(), Change::Slash),
        slashed.sources@ == repathed(output.sources.listing(), Change::Slash),
        slashed.sources.spelled() == respelled(output.sources.listing(), Change::Slash),
    ensures
        repathed(slashed.contracts.0.listing(), Change::Slash) == slashed.contracts@,
        respelled(slashed.contracts.0.listing(), Change::Slash) == slashed.contracts.spelled(),
        repathed(slashed.sources.listing(), Change::Slash) == slashed.sources@,
        respelled(slashed.sources.listing(), Change::Slash) == slashed.sources.spelled(),
{
    law_listing(slashed.contracts.0);
    law_source_listing(slashed.sources);
    lemma_distinct(slashed.contracts.0.listing());
    lemma_distinct(slashed.sources.listing());
    law_slash_of_files_once(output.contracts.0.listing(), slashed.contracts.0.listing());
    law_slash_of_files_once(output.sources.listing(), slashed.sources.listing());
}

/// Whether two artifact files say the same.
pub open spec fn same_file<T>(a: ArtifactFile<T>, b: ArtifactFile<T>) -> bool {
    &&& b.artifact == a.artifact
    &&& b.file@ == a.file@
    &&& b.version == a.version
    &&& b.build_id == a.build_id
    &&& b.profile == a.profile
}

/// Whether two lists of artifact files say the same.
pub open spec fn same_list<T>(a: Seq<ArtifactFile<T>>, b: Seq<ArtifactFile<T>>) -> bool {
    b.len() == a.len() && forall|i: int| 0 <= i < b.len() ==> same_file(a[i], #[trigger] b[i])
}

/// Whether `b` lists the same artifact files as `a`.
pub open spec fn same_files<T>(
    a: Map<Seq<Part>, Names<ArtifactFile<T>>>,
    b: Map<Seq<Part>, Names<ArtifactFile<T>>>,
) -> bool {
    &&& b.dom() == a.dom()
    &&& forall|path: Seq<Part>, name: Seq<char>|
        #![trigger listed(b, path, name)]
        {
            &&& names_of(b, path).contains_key(name) <==> names_of(a, path).contains_key(name)
            &&& same_list(listed(a, path, name), listed(b, path, name))
        }
}

/// Slashing all paths of a set of artifacts once more changes nothing: neither the files that the
/// artifacts come from, nor how their paths are written, nor the artifact files.
pub proof fn law_slash_artifacts_once<T>(
    artifacts: Artifacts<T>,
    slashed: Artifacts<T>,
    again: Artifacts<T>,
)
    requires
        slashed.0.wf(),
        slashed_files(repathed(artifacts.0.listing(), Change::Slash), slashed@),
        slashed.spelled() == respelled(artifacts.0.listing(), Change::Slash),
        slashed_files(repathed(slashed.0.listing(), Change::Slash), again@),
        again.spelled() == respelled(slashed.0.listing(), Change::Slash),
    ensures
        again.spelled() == slashed.spelled(),
        same_files(slashed@, again@),
{
    law_listing(slashed.0);
    lemma_distinct(slashed.0.listing());
    law_slash_of_files_once(artifacts.0.listing(), slashed.0.listing());
    let first = repathed(artifacts.0.listing(), Change::Slash);
    let a = slashed@;
    let b = again@;
    assert(repathed(slashed.0.listing(), Change::Slash) == a);
    assert(slashed_files(a, b));
    assert forall|path: Seq<Part>, name: Seq<char>|
        #![trigger listed(b, path, name)]
        {
            &&& names_of(b, path).contains_key(name) <==> names_of(a, path).contains_key(name)
            &&& same_list(listed(a, path, name), listed(b, path, name))
        } by {
        let once = listed(a, path, name);
        let twice = listed(b, path, name);
        assert(once.len() == listed(first, path, name).len());
        assert forall|i: int| 0 <= i < twice.len() implies same_file(once[i], #[trigger] twice[i]) by {
            assert(slashed_file(listed(first, path, name)[i], once[i]));
            assert(slashed_file(once[i], twice[i]));
            law_slashed_once(listed(first, path, name)[i].file@);
        }
    }
    assert forall|path: Seq<Part>, name: Seq<char>| #[trigger]
        names_of(b, path).contains_key(name) <==> names_of(a, path).contains_key(name) by {
        assert(listed(b, path, name).len() == listed(a, path, name).len());
    }
}

/// Whether everything in an output comes from a run that is kept: every build id of a source file
/// or a contract is the id of a build info.
pub open spec fn builds_are_kept(
    infos: Seq<RawBuildInfo>,
    sources: Map<Seq<Part>, Seq<VersionedSourceFile>>,
    contracts: Map<Seq<Part>, Names<VersionedContract>>,
) -> bool {
    &&& forall|path: Seq<Part>, i: int|
        0 <= i < sources_at(sources, path).len() ==> is_kept(
            infos,
            (#[trigger] sources_at(sources, path)[i]).build_id@,
        )
    &&& forall|path: Seq<Part>, name: Seq<char>, i: int|
        0 <= i < listed(contracts, path, name).len() ==> is_kept(
            infos,
            (#[trigger] listed(contracts, path, name)[i]).build_id@,
        )
}

/// Whether one of the build infos has the given id.
pub open spec fn is_kept(infos: Seq<RawBuildInfo>, id: Seq<char>) -> bool {
    exists|k: int| 0 <= k < infos.len() && (#[trigger] infos[k]).id@ == id
}

/// Where everything in an output comes from a run that is kept, it does so after another run was
/// added.
pub proof fn law_extend_keeps_builds(
    before: AggregatedCompilerOutput,
    after: AggregatedCompilerOutput,
    added: ResolcCompilerOutput,
    info: RawBuildInfo,
    run: RunKey,
)
    requires
        builds_are_kept(before.build_infos@, before.sources@, before.contracts@),
        run.build_id == info.id@,
        after.build_infos@ == before.build_infos@.push(info),
        sources_grown(before.sources@, after.sources@, added.sources@, run),
        files_grown(before.contracts@, after.contracts@, added.contracts@, run),
    ensures
        builds_are_kept(after.build_infos@, after.sources@, after.contracts@),
{
    let infos = before.build_infos@;
    let all = after.build_infos@;
    assert(all[infos.len() as int].id@ == run.build_id);
    assert forall|id: Seq<char>| #[trigger] is_kept(infos, id) implies is_kept(all, id) by {
        let k = choose|k: int| 0 <= k < infos.len() && (#[trigger] infos[k]).id@ == id;
        assert(all[k] == infos[k]);
    }
    assert(is_kept(all, run.build_id));
    assert forall|path: Seq<Part>, i: int|
        0 <= i < sources_at(after.sources@, path).len() implies is_kept(
        all,
        (#[trigger] sources_at(after.sources@, path)[i]).build_id@,
    ) by {
        let was = sources_at(before.sources@, path);
        let now = sources_at(after.sources@, path);
        law_extend_appends_sources(before.sources@, after.sources@, added.sources@, run, path);
        if i < was.len() {
            assert(now.subrange(0, was.len() as int)[i] == now[i]);
            assert(is_kept(infos, was[i].build_id@));
        }
    }
    assert forall|path: Seq<Part>, name: Seq<char>, i: int|
        0 <= i < listed(after.contracts@, path, name).len() implies is_kept(
        all,
        (#[trigger] listed(after.contracts@, path, name)[i]).build_id@,
    ) by {
        let was = listed(before.contracts@, path, name);
        let now = listed(after.contracts@, path, name);
        law_extend_appends(before.contracts@, after.contracts@, added.contracts@, run, path, name);
        if i < was.len() {
            assert(now.subrange(0, was.len() as int)[i] == now[i]);
            assert(is_kept(infos, was[i].build_id@));
        }
    }
}

/// An error that one run reported stays an error whatever later runs report: the aggregated output
/// keeps failing, and under a filter that reaches everything any diagnostic keeps it failing.
pub proof fn law_extend_keeps_errors(
    output: AggregatedCompilerOutput,
    extended: AggregatedCompilerOutput,
    more: Seq<Error>,
    codes: Seq<u64>,
    paths: Seq<SourcePath>,
)
    requires
        extended.errors@ == output.errors@ + more,
    ensures
        output.fails(codes, paths, Severity::Error) ==> extended.fails(
            codes,
            paths,
            Severity::Error,
        ),
        output.fails(codes, paths, Severity::Info) ==> extended.fails(codes, paths, Severity::Info),
{
    law_severity_filter(output, codes, paths);
    law_severity_filter(extended, codes, paths);
    if output.fails(codes, paths, Severity::Error) {
        let i = choose|i: int|
            0 <= i < output.errors@.len() && (#[trigger] output.errors@[i]).severity
                == Severity::Error;
        assert(extended.errors@[i] == output.errors@[i]);
    }
}

/// When the last compiled artifact at a path and name is removed, the cached one comes to light;
/// and what is found at any other path or name stays.
pub proof fn law_remove_uncovers_cached(
    output: ResolcProjectCompileOutput,
    after: ResolcProjectCompileOutput,
    path: Seq<Part>,
    name: Seq<char>,
    other_path: Seq<Part>,
    other_name: Seq<char>,
)
    requires
        after.lacks_found(output, path, name),
    ensures
        listed(output.compiled_artifacts@, path, name).len() == 1 ==> after.found(path, name) == (
        if listed(output.cached_artifacts@, path, name).len() > 0 {
            Some(listed(output.cached_artifacts@, path, name)[0].artifact)
        } else {
            None
        }),
        (other_path, other_name) != (path, name) ==> after.found(other_path, other_name)
            == output.found(other_path, other_name),
{
    law_take_touches_one_list(
        output.compiled_artifacts@,
        path,
        name,
        Prune::Nothing,
        other_path,
        other_name,
    );
    law_take_touches_one_list(
        output.cached_artifacts@,
        path,
        name,
        Prune::Nothing,
        other_path,
        other_name,
    );
}

/// An artifact is found by its name alone exactly when some path finds it, and then the path and
/// the name together find it too.
pub proof fn law_found_first_is_found(output: ResolcProjectCompileOutput, name: Seq<char>)
    requires
        output.artifacts_wf(),
    ensures
        (match output.found_first(name) {
            Some(artifact) => exists|path: Seq<Part>| #[trigger]
                output.found(path, name) == Some(artifact),
            None => forall|path: Seq<Part>| #[trigger] output.found(path, name) is None,
        }),
{
    law_first_named_is_first_listed(output.compiled_artifacts.0, name);
    law_first_named_is_first_listed(output.cached_artifacts.0, name);
    match first_named(output.compiled_artifacts.spec_items(), name) {
        Some(first) => {
            assert(output.found(path_parts(first.0), name) == Some(first.1.artifact));
        },
        None => match first_named(output.cached_artifacts.spec_items(), name) {
            Some(first) => {
                assert(listed(output.compiled_artifacts@, path_parts(first.0), name).len() == 0);
                assert(output.found(path_parts(first.0), name) == Some(first.1.artifact));
            },
            None => {
                assert forall|path: Seq<Part>| #[trigger] output.found(path, name) is None by {
                    assert(listed(output.compiled_artifacts@, path, name).len() == 0);
                    assert(listed(output.cached_artifacts@, path, name).len() == 0);
                }
            },
        },
    }
}

/// A project that failed says so when it is displayed.
pub proof fn law_failure_is_displayed(project: ResolcProjectCompileOutput, text: Seq<char>)
    requires
        project.fails(),
        project.displays(text),
    ensures
        exists|status: Seq<char>|
            {
                &&& painted(seq!['3', '1'], "failed:"@, status)
                &&& text == #[trigger] report_text(
                    project.compiler_output,
                    project.ignored_error_codes@,
                    project.ignored_file_paths@,
                    status,
                )
            },
{
}

/// The contracts of a single run are listed exactly once each, and nothing else is: at every place
/// stands a contract of the run as the run made it and with the path as the run wrote it, every
/// contract of the run has a place, and no two places have the same file and name.
pub proof fn law_one_run_is_listed_once(
    contracts: VersionedContracts,
    added: ResolcCompilerOutput,
    run: RunKey,
)
    requires
        contracts.0.wf(),
        files_grown(
            Map::<Seq<Part>, Names<VersionedContract>>::empty(),
            contracts@,
            added.contracts@,
            run,
        ),
        contracts.spelled() == added.contracts.spelled(),
    ensures
        forall|i: int|
            0 <= i < contracts.spec_items().len() ==> {
                let item = #[trigger] contracts.spec_items()[i];
                let path = path_parts(item.0);
                &&& added_in(added.contracts@, path).contains_key(item.1)
                &&& made_by(item.2, added_in(added.contracts@, path)[item.1], run)
                &&& added.contracts.spelled().contains_key(path)
                &&& item.0 == added.contracts.spelled()[path]
            },
        forall|path: Seq<Part>, name: Seq<char>| #[trigger]
            added_in(added.contracts@, path).contains_key(name) ==> exists|i: int|
                0 <= i < contracts.spec_items().len() && path_parts(
                    (#[trigger] contracts.spec_items()[i]).0,
                ) == path && contracts.spec_items()[i].1 == name,
        forall|i: int, j: int|
            0 <= i < j < contracts.spec_items().len() ==> path_parts(
                (#[trigger] contracts.spec_items()[i]).0,
            ) != path_parts((#[trigger] contracts.spec_items()[j]).0) || contracts.spec_items()[i].1
                != contracts.spec_items()[j].1,
{
    let nothing = Map::<Seq<Part>, Names<VersionedContract>>::empty();
    let items = contracts.spec_items();
    law_items_stand_in_order(contracts.0);
    assert forall|i: int| 0 <= i < items.len() implies {
        let item = #[trigger] items[i];
        let path = path_parts(item.0);
        &&& added_in(added.contracts@, path).contains_key(item.1)
        &&& made_by(item.2, added_in(added.contracts@, path)[item.1], run)
        &&& added.contracts.spelled().contains_key(path)
        &&& item.0 == added.contracts.spelled()[path]
    } by {
        let item = items[i];
        let places = places_under(items, path_parts(item.0), item.1);
        law_items_under(items, path_parts(item.0), item.1);
        law_extend_appends(nothing, contracts@, added.contracts@, run, path_parts(item.0), item.1);
        assert(items_under(items, path_parts(item.0), item.1) == listed(contracts@, path_parts(item.0), item.1));
        let k = choose|k: int| 0 <= k < places.len() && places[k] == i;
        assert(items[places[k]] == item);
    }
    assert forall|path: Seq<Part>, name: Seq<char>| #[trigger]
        added_in(added.contracts@, path).contains_key(name) implies exists|i: int|
        0 <= i < items.len() && path_parts((#[trigger] items[i]).0) == path && items[i].1 == name by {
        law_items_under(items, path, name);
        law_extend_appends(nothing, contracts@, added.contracts@, run, path, name);
        assert(items_under(items, path, name) == listed(contracts@, path, name));
        let first = places_under(items, path, name)[0];
        assert(path_parts(items[first].0) == path && items[first].1 == name);
    }
    assert forall|i: int, j: int| 0 <= i < j < items.len() implies path_parts(
        (#[trigger] items[i]).0,
    ) != path_parts((#[trigger] items[j]).0) || items[i].1 != items[j].1 by {
        let item = items[i];
        law_items_under(items, path_parts(item.0), item.1);
        law_extend_appends(nothing, contracts@, added.contracts@, run, path_parts(item.0), item.1);
        assert(items_under(items, path_parts(item.0), item.1) == listed(contracts@, path_parts(item.0), item.1));
    }
}

/// An output to which a run added a diagnostic or a file of contracts is no longer unchanged, nor
/// is one that was not unchanged before.
pub proof fn law_extend_changes(
    before: AggregatedCompilerOutput,
    after: AggregatedCompilerOutput,
    added: ResolcCompilerOutput,
    run: RunKey,
)
    requires
        after.errors@ == before.errors@ + added.errors@,
        files_grown(before.contracts@, after.contracts@, added.contracts@, run),
    ensures
        after.errors@.len() == 0 <==> before.errors@.len() == 0 && added.errors@.len() == 0,
        after.contracts@.dom().is_empty() <==> before.contracts@.dom().is_empty()
            && added.contracts@.dom().is_empty(),
{
    assert forall|path: Seq<Part>| #[trigger] after.contracts@.dom().contains(path) <==> (
    before.contracts@.dom().contains(path) || added.contracts@.dom().contains(path)) by {
        assert(after.contracts@.contains_key(path) <==> before.contracts@.contains_key(path)
            || added.contracts@.contains_key(path));
    }
    if before.contracts@.dom().is_empty() && added.contracts@.dom().is_empty() {
        assert(after.contracts@.dom() =~= Set::empty());
    }
    if !before.contracts@.dom().is_empty() {
        let path = before.contracts@.dom().choose();
        assert(after.contracts@.dom().contains(path));
    }
    if !added.contracts@.dom().is_empty() {
        let path = added.contracts@.dom().choose();
        assert(after.contracts@.dom().contains(path));
    }
}

} // verus!
