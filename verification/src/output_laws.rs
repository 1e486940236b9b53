//! What the operations on outputs do, said of what goes in and what comes out.

use semver::Version;
use vstd::prelude::*;
use crate::aggregated::AggregatedCompilerOutput;
use crate::artifacts::{are_ids, are_owned_ids, are_versioned, named_files, slashed_files, ArtifactFile, ArtifactId, Artifacts, ContractArtifact};
use crate::contract::{compact, ResolcContract};
use crate::contracts::{files_grown, law_extend_appends, VersionedContract};
use crate::diagnostic::{Error, Severity};
use crate::diagnostics::{displays, hides, lines, report_text};
use crate::file_map::{law_items_are_listed, listed, names_of, Names};
use crate::laws::law_severity_filter;
use crate::listing_laws::{entry_at, law_listed, law_without_first};
use crate::path::{path_parts, stem, Part, SourcePath};
use crate::path_laws::{law_ends_with, law_slashed_text};
use crate::project::ResolcProjectCompileOutput;
use crate::sorted_map::SortedMap;
use crate::sources::{sources_grown, SourceFile, VersionedSourceFile};
use crate::version::RunKey;

verus! {

/// Whether a contract's interface has a function that is named `IS_TEST`.
pub open spec fn has_marker(contract: ResolcContract) -> bool {
    contract.abi matches Some(abi) && exists|f: int|
        0 <= f < abi.functions@.len() && (#[trigger] abi.functions@[f])@ == "IS_TEST"@
}

/// Whether the file at a path holds a contract that is marked as a test.
pub open spec fn holds_marked(
    contracts: Map<Seq<Part>, Names<VersionedContract>>,
    path: Seq<Part>,
) -> bool {
    exists|name: Seq<char>, k: int|
        0 <= k < entry_at(contracts, path, name).len() && has_marker(
            (#[trigger] entry_at(contracts, path, name)[k]).contract,
        )
}

/// A file is a test exactly when its name ends with `.t.sol`, or when one of the contracts at its
/// path, under whatever name and from whatever run, has the marker.
pub proof fn law_what_is_a_test(output: AggregatedCompilerOutput, file: Seq<char>)
    requires
        output.contracts.0.wf(),
    ensures
        output.file_is_test(file) <==> (exists|front: Seq<char>| file == #[trigger] (front
            + ".t.sol"@)) || holds_marked(output.contracts@, path_parts(file)),
{
    law_ends_with(file, ".t.sol"@);
    let items = output.contracts.spec_items();
    let path = path_parts(file);
    assert(items == output.contracts.0.spec_items());
    assert(output.contracts@ == output.contracts.0@);
    if exists|i: int|
        0 <= i < items.len() && path_parts((#[trigger] items[i]).0) == path
            && items[i].2.contract.marks_test() {
        let i = choose|i: int|
            0 <= i < items.len() && path_parts((#[trigger] items[i]).0) == path
                && items[i].2.contract.marks_test();
        let name = items[i].1;
        law_items_are_listed(output.contracts.0, path, name, items[i].2);
        law_listed(output.contracts@, path, name);
        let list = entry_at(output.contracts@, path, name);
        assert(list.contains(items[i].2));
        let k = choose|k: int| 0 <= k < list.len() && list[k] == items[i].2;
        assert(has_marker(list[k].contract));
    }
    if holds_marked(output.contracts@, path) {
        let (name, k) = choose|name: Seq<char>, k: int|
            0 <= k < entry_at(output.contracts@, path, name).len() && has_marker(
                (#[trigger] entry_at(output.contracts@, path, name)[k]).contract,
            );
        let item = entry_at(output.contracts@, path, name)[k];
        law_listed(output.contracts@, path, name);
        assert(listed(output.contracts@, path, name).contains(item));
        law_items_are_listed(output.contracts.0, path, name, item);
        let i = choose|i: int|
            0 <= i < items.len() && path_parts((#[trigger] items[i]).0) == path && items[i].1
                == name && items[i].2 == item;
        assert(items[i].2.contract.marks_test());
    }
}

/// Whether the components of `base` are the first ones of `path`.
pub open spec fn leads_to(base: Seq<Part>, path: Seq<Part>) -> bool {
    base.len() <= path.len() && forall|j: int| 0 <= j < base.len() ==> #[trigger] base[j] == path[j]
}

proof fn lemma_leads_to(base: Seq<Part>, path: Seq<Part>)
    ensures
        leads_to(base, path) <==> base.is_prefix_of(path),
{
    if leads_to(base, path) {
        assert(base =~= path.subrange(0, base.len() as int));
    }
    if base.is_prefix_of(path) {
        assert forall|j: int| 0 <= j < base.len() implies #[trigger] base[j] == path[j] by {
            assert(path.subrange(0, base.len() as int)[j] == path[j]);
        }
    }
}

/// A warning with a code that lies under any of the paths to ignore is passed over, at whatever
/// place that path stands; and so is one whose code stands at any place among the codes to ignore.
pub proof fn law_each_path_and_code_is_ignored(
    output: AggregatedCompilerOutput,
    codes: Seq<u64>,
    paths: Seq<SourcePath>,
    error: Error,
)
    requires
        error.severity == Severity::Warning,
        error.error_code is Some,
    ensures
        forall|k: int|
            0 <= k < codes.len() && #[trigger] codes[k] == error.error_code->Some_0
                ==> output.ignores(codes, paths, error),
        error.source_location matches Some(location) ==> forall|i: int|
            0 <= i < paths.len() && leads_to(
                path_parts((#[trigger] paths[i])@),
                path_parts(location.file@),
            ) ==> output.ignores(codes, paths, error),
{
    assert forall|k: int|
        0 <= k < codes.len() && #[trigger] codes[k] == error.error_code->Some_0 implies output.ignores(
        codes,
        paths,
        error,
    ) by {
        assert(codes.contains(codes[k]));
    }
    if let Some(location) = error.source_location {
        assert forall|i: int|
            0 <= i < paths.len() && leads_to(
                path_parts((#[trigger] paths[i])@),
                path_parts(location.file@),
            ) implies output.ignores(codes, paths, error) by {
            lemma_leads_to(path_parts(paths[i]@), path_parts(location.file@));
            assert(paths[i].parts().is_prefix_of(path_parts(location.file@)));
        }
    }
}

/// What is passed over is a warning with a code, and for one of three reasons: its code stands
/// among the codes to ignore, its file lies under one of the paths to ignore, or it is about a
/// missing license or the size of a contract and comes from a test.
pub proof fn law_why_it_is_ignored(
    output: AggregatedCompilerOutput,
    codes: Seq<u64>,
    paths: Seq<SourcePath>,
    error: Error,
)
    requires
        output.contracts.0.wf(),
    ensures
        output.ignores(codes, paths, error) <==> {
            &&& error.severity == Severity::Warning
            &&& error.error_code matches Some(code) && {
                ||| exists|k: int| 0 <= k < codes.len() && #[trigger] codes[k] == code
                ||| error.source_location matches Some(location) && {
                    ||| exists|i: int|
                        0 <= i < paths.len() && leads_to(
                            path_parts((#[trigger] paths[i])@),
                            path_parts(location.file@),
                        )
                    ||| (code == 1878 || code == 5574) && ((exists|front: Seq<char>|
                        location.file@ == #[trigger] (front + ".t.sol"@)) || holds_marked(
                        output.contracts@,
                        path_parts(location.file@),
                    ))
                }
            }
        },
{
    if error.severity == Severity::Warning && error.error_code is Some {
        law_each_path_and_code_is_ignored(output, codes, paths, error);
        let code = error.error_code->Some_0;
        if codes.contains(code) {
            let k = choose|k: int| 0 <= k < codes.len() && codes[k] == code;
            assert(codes[k] == code);
        }
        if let Some(location) = error.source_location {
            law_what_is_a_test(output, location.file@);
            assert forall|i: int| 0 <= i < paths.len() implies (leads_to(
                path_parts((#[trigger] paths[i])@),
                path_parts(location.file@),
            ) <==> paths[i].parts().is_prefix_of(path_parts(location.file@))) by {
                lemma_leads_to(path_parts(paths[i]@), path_parts(location.file@));
            }
        }
    }
}

/// Ignoring by two lists of codes and two lists of paths put together passes over what either pair
/// passes over, and nothing more.
pub proof fn law_ignoring_is_a_union(
    output: AggregatedCompilerOutput,
    codes: Seq<u64>,
    more_codes: Seq<u64>,
    paths: Seq<SourcePath>,
    more_paths: Seq<SourcePath>,
    error: Error,
)
    ensures
        output.ignores(codes + more_codes, paths + more_paths, error) <==> output.ignores(
            codes,
            paths,
            error,
        ) || output.ignores(more_codes, more_paths, error),
{
    let all_codes = codes + more_codes;
    let all_paths = paths + more_paths;
    assert forall|code: u64| #[trigger] all_codes.contains(code) <==> codes.contains(code)
        || more_codes.contains(code) by {
        if codes.contains(code) {
            let k = choose|k: int| 0 <= k < codes.len() && codes[k] == code;
            assert(all_codes[k] == code);
        }
        if more_codes.contains(code) {
            let k = choose|k: int| 0 <= k < more_codes.len() && more_codes[k] == code;
            assert(all_codes[codes.len() + k] == code);
        }
        if all_codes.contains(code) {
            let k = choose|k: int| 0 <= k < all_codes.len() && all_codes[k] == code;
            if k < codes.len() {
                assert(codes[k] == code);
            } else {
                assert(more_codes[k - codes.len()] == code);
            }
        }
    }
    if error.severity == Severity::Warning && error.error_code is Some {
        assert(all_codes.contains(error.error_code->Some_0) <==> codes.contains(
            error.error_code->Some_0,
        ) || more_codes.contains(error.error_code->Some_0));
        if let Some(location) = error.source_location {
            let file = path_parts(location.file@);
            if exists|i: int| 0 <= i < paths.len() && (#[trigger] paths[i]).parts().is_prefix_of(file) {
                let i = choose|i: int|
                    0 <= i < paths.len() && (#[trigger] paths[i]).parts().is_prefix_of(file);
                assert(all_paths[i].parts().is_prefix_of(file));
            }
            if exists|i: int|
                0 <= i < more_paths.len() && (#[trigger] more_paths[i]).parts().is_prefix_of(file) {
                let i = choose|i: int|
                    0 <= i < more_paths.len() && (#[trigger] more_paths[i]).parts().is_prefix_of(
                        file,
                    );
                assert(all_paths[paths.len() + i].parts().is_prefix_of(file));
            }
            if exists|i: int|
                0 <= i < all_paths.len() && (#[trigger] all_paths[i]).parts().is_prefix_of(file) {
                let i = choose|i: int|
                    0 <= i < all_paths.len() && (#[trigger] all_paths[i]).parts().is_prefix_of(file);
                if i < paths.len() {
                    assert(paths[i].parts().is_prefix_of(file));
                } else {
                    assert(more_paths[i - paths.len()].parts().is_prefix_of(file));
                }
            }
        }
    }
}

/// When a compile warns and when it fails, by its diagnostics one by one: it warns when one of them
/// is a warning that is not passed over; it fails when one of them is an error, or under the filter
/// for warnings also when it warns, or under the filter for everything when there is any at all.
pub proof fn law_when_it_fails(
    output: AggregatedCompilerOutput,
    codes: Seq<u64>,
    paths: Seq<SourcePath>,
)
    ensures
        output.warns(codes, paths) <==> exists|i: int|
            0 <= i < output.errors@.len() && (#[trigger] output.errors@[i]).severity
                == Severity::Warning && !output.ignores(codes, paths, output.errors@[i]),
        output.fails(codes, paths, Severity::Error) <==> exists|i: int|
            0 <= i < output.errors@.len() && (#[trigger] output.errors@[i]).severity
                == Severity::Error,
        output.fails(codes, paths, Severity::Warning) <==> exists|i: int|
            0 <= i < output.errors@.len() && ((#[trigger] output.errors@[i]).severity
                == Severity::Error || output.errors@[i].severity == Severity::Warning
                && !output.ignores(codes, paths, output.errors@[i])),
        output.fails(codes, paths, Severity::Info) <==> output.errors@.len() > 0,
{
    law_severity_filter(output, codes, paths);
    if output.fails(codes, paths, Severity::Error) {
        let i = choose|i: int|
            0 <= i < output.errors@.len() && (#[trigger] output.errors@[i]).severity
                == Severity::Error;
        assert(output.errors@[i].severity == Severity::Error);
    }
    if output.warns(codes, paths) {
        let i = choose|i: int|
            0 <= i < output.errors@.len() && (#[trigger] output.errors@[i]).severity
                == Severity::Warning && !output.ignores(codes, paths, output.errors@[i]);
        assert(output.errors@[i].severity == Severity::Warning);
    }
}

/// The texts, each on a line of its own behind a line break.
pub open spec fn behind_breaks(texts: Seq<Seq<char>>) -> Seq<char>
    decreases texts.len(),
{
    if texts.len() == 0 {
        Seq::empty()
    } else {
        behind_breaks(texts.drop_last()) + seq!['\n'] + texts[texts.len() - 1]
    }
}

/// The texts of the diagnostics that are not passed over, in their order.
pub open spec fn shown_texts(
    output: AggregatedCompilerOutput,
    codes: Seq<u64>,
    paths: Seq<SourcePath>,
    errors: Seq<Error>,
) -> Seq<Seq<char>> {
    errors.filter(|e: Error| !output.ignores(codes, paths, e)).map_values(|e: Error| e.text@)
}

/// The lines of the display are the texts of the diagnostics that are not passed over, each on a
/// line of its own, in their order, and nothing else.
pub proof fn law_lines_are_the_shown_texts(
    output: AggregatedCompilerOutput,
    codes: Seq<u64>,
    paths: Seq<SourcePath>,
    n: nat,
)
    requires
        n <= output.errors@.len(),
    ensures
        lines(output, codes, paths, n) == behind_breaks(
            shown_texts(output, codes, paths, output.errors@.take(n as int)),
        ),
    decreases n,
{
    reveal(Seq::filter);
    let shown = |e: Error| !output.ignores(codes, paths, e);
    let all = output.errors@.take(n as int);
    if n > 0 {
        law_lines_are_the_shown_texts(output, codes, paths, (n - 1) as nat);
        let error = output.errors@[n - 1];
        let front = output.errors@.take(n - 1);
        assert(all.drop_last() =~= front);
        assert(all.last() == error);
        reveal_strlit("\n");
        assert("\n"@ =~= seq!['\n']);
        assert(hides(output, codes, paths, error) == output.ignores(codes, paths, error));
        let before = shown_texts(output, codes, paths, front);
        let after = shown_texts(output, codes, paths, all);
        if shown(error) {
            assert(all.filter(shown) == front.filter(shown).push(error));
            assert(after =~= before.push(error.text@));
            assert(after.drop_last() =~= before);
        } else {
            assert(all.filter(shown) == front.filter(shown));
            assert(after =~= before);
        }
    } else {
        assert(shown_texts(output, codes, paths, all) =~= Seq::<Seq<char>>::empty());
    }
}

/// A diagnostic that is passed over adds nothing to the lines, wherever it stands; any other adds a
/// line break and its text, behind what is there.
pub proof fn law_what_a_diagnostic_adds(
    output: AggregatedCompilerOutput,
    codes: Seq<u64>,
    paths: Seq<SourcePath>,
    n: nat,
)
    requires
        n < output.errors@.len(),
    ensures
        lines(output, codes, paths, 0) == Seq::<char>::empty(),
        output.ignores(codes, paths, output.errors@[n as int]) ==> lines(
            output,
            codes,
            paths,
            n + 1,
        ) == lines(output, codes, paths, n),
        !output.ignores(codes, paths, output.errors@[n as int]) ==> lines(
            output,
            codes,
            paths,
            n + 1,
        ) == lines(output, codes, paths, n) + seq!['\n'] + output.errors@[n as int].text@,
{
    let error = output.errors@[n as int];
    reveal_strlit("\n");
    assert("\n"@ =~= seq!['\n']);
    assert(hides(output, codes, paths, error) == output.ignores(codes, paths, error));
}

/// The whole report: the words in front, the status as it is given, and the shown texts.
pub proof fn law_report(
    output: AggregatedCompilerOutput,
    codes: Seq<u64>,
    paths: Seq<SourcePath>,
    status: Seq<char>,
)
    ensures
        report_text(output, codes, paths, status) == "Compiler run "@ + status + behind_breaks(
            shown_texts(output, codes, paths, output.errors@),
        ),
{
    law_lines_are_the_shown_texts(output, codes, paths, output.errors@.len());
    assert(output.errors@.take(output.errors@.len() as int) =~= output.errors@);
}

/// A text as it is, or between the escape sequence of a color and the one that resets it.
pub open spec fn plain_or_colored(text: Seq<char>, digit: char, shown: Seq<char>) -> bool {
    ||| shown == text
    ||| shown == seq!['\u{1b}', '[', '3', digit, 'm'] + text + seq!['\u{1b}', '[', '0', 'm']
}

/// Whether `text` is the words in front, one of the ways to show the status, and the shown texts.
pub open spec fn is_display(
    output: AggregatedCompilerOutput,
    codes: Seq<u64>,
    paths: Seq<SourcePath>,
    status: Seq<char>,
    digit: char,
    text: Seq<char>,
) -> bool {
    exists|shown: Seq<char>| #[trigger]
        plain_or_colored(status, digit, shown) && text == "Compiler run "@ + shown + behind_breaks(
            shown_texts(output, codes, paths, output.errors@),
        )
}

/// What is displayed: red that the compile failed when it did, yellow that there are warnings when
/// it did not fail but warns, green otherwise; and below it the shown texts.
pub proof fn law_display(
    output: AggregatedCompilerOutput,
    codes: Seq<u64>,
    paths: Seq<SourcePath>,
    filter: Severity,
    text: Seq<char>,
)
    requires
        displays(output, codes, paths, filter, text),
    ensures
        output.fails(codes, paths, filter) ==> is_display(
            output,
            codes,
            paths,
            "failed:"@,
            '1',
            text,
        ),
        !output.fails(codes, paths, filter) && output.warns(codes, paths) ==> is_display(
            output,
            codes,
            paths,
            "successful with warnings:"@,
            '3',
            text,
        ),
        !output.fails(codes, paths, filter) && !output.warns(codes, paths) ==> is_display(
            output,
            codes,
            paths,
            "successful!"@,
            '2',
            text,
        ),
{
    let (words, number) = crate::diagnostics::status_of(output, codes, paths, filter);
    let shown = choose|shown: Seq<char>|
        crate::style::painted(number, words, shown) && text == #[trigger] report_text(
            output,
            codes,
            paths,
            shown,
        );
    law_report(output, codes, paths, shown);
    let digit = number[1];
    assert(seq!['\u{1b}', '['] + number + seq!['m'] =~= seq!['\u{1b}', '[', '3', digit, 'm']);
    assert(plain_or_colored(words, digit, shown));
}

/// What is displayed of a project: that there is nothing to compile where there are neither
/// contracts nor diagnostics, and the display of its diagnostics with its own settings otherwise.
pub proof fn law_project_display(project: ResolcProjectCompileOutput, text: Seq<char>)
    requires
        project.displays(text),
    ensures
        (project.compiler_output.errors@.len() == 0 && forall|path: Seq<Part>|
            !(#[trigger] project.compiler_output.contracts@.contains_key(path))) ==> text
            == "Nothing to compile"@,
        project.compiler_output.errors@.len() > 0 ==> displays(
            project.compiler_output,
            project.ignored_error_codes@,
            project.ignored_file_paths@,
            project.compiler_severity_filter,
            text,
        ),
        (exists|path: Seq<Part>| #[trigger]
            project.compiler_output.contracts@.contains_key(path)) ==> displays(
            project.compiler_output,
            project.ignored_error_codes@,
            project.ignored_file_paths@,
            project.compiler_severity_filter,
            text,
        ),
{
    let contracts = project.compiler_output.contracts@;
    if exists|path: Seq<Part>| #[trigger] contracts.contains_key(path) {
        let path = choose|path: Seq<Part>| #[trigger] contracts.contains_key(path);
        assert(contracts.dom().contains(path));
    } else {
        assert forall|path: Seq<Part>| !contracts.dom().contains(path) by {
            assert(!contracts.contains_key(path));
        }
        assert(contracts.dom() =~= Set::empty());
    }
}

/// A project fails exactly when its output does with the settings of the project.
pub proof fn law_project_fails(project: ResolcProjectCompileOutput)
    ensures
        project.fails() <==> project.compiler_output.fails(
            project.ignored_error_codes@,
            project.ignored_file_paths@,
            project.compiler_severity_filter,
        ),
{
}

/// What a run adds to the contracts. Where it has a contract, the list at that path and name is
/// longer by one item at its end: the whole contract as the run handed it over, with the version,
/// the build id and the profile of the run. Where it has none, the list is as it was. The files are
/// those from before and those of the run, and the names likewise.
pub proof fn law_what_a_run_adds(
    old_files: Map<Seq<Part>, Names<VersionedContract>>,
    new_files: Map<Seq<Part>, Names<VersionedContract>>,
    added: Map<Seq<Part>, SortedMap<String, ResolcContract>>,
    run: RunKey,
    path: Seq<Part>,
    name: Seq<char>,
)
    requires
        files_grown(old_files, new_files, added, run),
    ensures
        ({
            let was = entry_at(old_files, path, name);
            let now = entry_at(new_files, path, name);
            let brought = added.contains_key(path) && added[path]@.contains_key(name);
            let given = added[path]@[name];
            &&& brought ==> {
                &&& now.len() == was.len() + 1
                &&& forall|i: int| 0 <= i < was.len() ==> #[trigger] now[i] == was[i]
                &&& now[was.len() as int].contract == given
                &&& now[was.len() as int].contract.abi == given.abi
                &&& now[was.len() as int].contract.metadata == given.metadata
                &&& now[was.len() as int].contract.bytecode == given.bytecode
                &&& now[was.len() as int].contract.runtime_bytecode == given.runtime_bytecode
                &&& now[was.len() as int].contract.hash == given.hash
                &&& now[was.len() as int].version == run.version
                &&& now[was.len() as int].build_id@ == run.build_id
                &&& now[was.len() as int].profile@ == run.profile
            }
            &&& !brought ==> now == was
            &&& new_files.contains_key(path) <==> old_files.contains_key(path)
                || added.contains_key(path)
            &&& (new_files.contains_key(path) && new_files[path].contains_key(name)) <==> (
            old_files.contains_key(path) && old_files[path].contains_key(name)) || brought
        }),
{
    law_extend_appends(old_files, new_files, added, run, path, name);
    law_listed(old_files, path, name);
    law_listed(new_files, path, name);
    let was = entry_at(old_files, path, name);
    let now = entry_at(new_files, path, name);
    assert(new_files.contains_key(path) <==> old_files.contains_key(path) || added.contains_key(
        path,
    ));
    assert(names_of(new_files, path).contains_key(name) <==> names_of(
        old_files,
        path,
    ).contains_key(name) || crate::contracts::added_in(added, path).contains_key(name));
    assert forall|i: int| 0 <= i < was.len() implies #[trigger] now[i] == was[i] by {
        assert(now.subrange(0, was.len() as int)[i] == now[i]);
    }
}

/// What a run adds to the source files. Where it read one, the list at that path is longer by one
/// item at its end: the source file with the version, the build id and the profile of the run.
/// Where it read none, the list is as it was. The paths are those from before and those of the run.
pub proof fn law_what_a_run_adds_to_sources(
    old_files: Map<Seq<Part>, Seq<VersionedSourceFile>>,
    new_files: Map<Seq<Part>, Seq<VersionedSourceFile>>,
    added: Map<Seq<Part>, SourceFile>,
    run: RunKey,
    path: Seq<Part>,
)
    requires
        sources_grown(old_files, new_files, added, run),
    ensures
        new_files.contains_key(path) <==> old_files.contains_key(path) || added.contains_key(path),
        !added.contains_key(path) && old_files.contains_key(path) ==> new_files[path]
            == old_files[path],
        added.contains_key(path) ==> ({
            let was = if old_files.contains_key(path) {
                old_files[path]
            } else {
                Seq::empty()
            };
            let now = new_files[path];
            &&& now.len() == was.len() + 1
            &&& forall|i: int| 0 <= i < was.len() ==> #[trigger] now[i] == was[i]
            &&& now[was.len() as int].source_file.id == added[path].id
            &&& now[was.len() as int].source_file.ast == added[path].ast
            &&& now[was.len() as int].version == run.version
            &&& now[was.len() as int].build_id@ == run.build_id
            &&& now[was.len() as int].profile@ == run.profile
        }),
{
    assert(new_files.contains_key(path) <==> old_files.contains_key(path) || added.contains_key(
        path,
    ));
    if added.contains_key(path) {
        let was = if old_files.contains_key(path) {
            old_files[path]
        } else {
            Seq::empty()
        };
        let now = new_files[path];
        assert(now.drop_last() == was);
        assert forall|i: int| 0 <= i < was.len() implies #[trigger] now[i] == was[i] by {
            assert(now.drop_last()[i] == now[i]);
        }
    }
}

/// What is handed out of a contract: its interface, its code and its runtime code, each exactly
/// where the contract has it, linked or not.
pub proof fn law_compact(contract: &ResolcContract)
    ensures
        ({
            let found = compact(contract);
            &&& found.abi is Some <==> contract.abi is Some
            &&& contract.abi matches Some(abi) ==> found.abi == Some(&abi)
            &&& found.bin is Some <==> contract.bytecode is Some
            &&& contract.bytecode matches Some(code) ==> found.bin == Some(&code)
            &&& found.bin_runtime is Some <==> contract.runtime_bytecode is Some
            &&& contract.runtime_bytecode matches Some(code) ==> found.bin_runtime == Some(&code)
        }),
{
}

/// The artifact files with a contract name are all those whose own file has a stem, each once and
/// in the order of the items: what is returned are their places among the items. Each comes with
/// that stem and with the file that it was listed under.
pub proof fn law_named_files<T>(items: Seq<(Seq<char>, Seq<char>, ArtifactFile<T>)>) -> (places: Seq<
    int,
>)
    ensures
        places.len() == named_files(items).len(),
        forall|k: int|
            #![trigger places[k]]
            0 <= k < places.len() ==> {
                &&& 0 <= places[k] < items.len()
                &&& stem(path_parts(items[places[k]].2.file@)) == Some(named_files(items)[k].0)
                &&& named_files(items)[k].1 == items[places[k]].0
                &&& named_files(items)[k].2 == items[places[k]].2
            },
        forall|k: int, l: int|
            0 <= k < l < places.len() ==> #[trigger] places[k] < #[trigger] places[l],
        forall|i: int|
            0 <= i < items.len() && stem(path_parts((#[trigger] items[i]).2.file@)) is Some
                ==> places.contains(i),
    decreases items.len(),
{
    if items.len() == 0 {
        Seq::empty()
    } else {
        let front = items.drop_last();
        let n = items.len() - 1;
        let before = law_named_files(front);
        let last = items[n];
        assert forall|i: int| 0 <= i < n implies #[trigger] front[i] == items[i] by {}
        let places = if stem(path_parts(last.2.file@)) is Some {
            before.push(n)
        } else {
            before
        };
        assert forall|k: int|
            #![trigger places[k]]
            0 <= k < places.len() implies {
            &&& 0 <= places[k] < items.len()
            &&& stem(path_parts(items[places[k]].2.file@)) == Some(named_files(items)[k].0)
            &&& named_files(items)[k].1 == items[places[k]].0
            &&& named_files(items)[k].2 == items[places[k]].2
        } by {
            if k < before.len() {
                assert(places[k] == before[k]);
                assert(front[before[k]] == items[places[k]]);
                assert(named_files(items)[k] == named_files(front)[k]);
            }
        }
        assert forall|k: int, l: int| 0 <= k < l < places.len() implies #[trigger] places[k]
            < #[trigger] places[l] by {
            assert(places[k] == before[k]);
            if l < before.len() {
                assert(places[l] == before[l]);
            }
        }
        assert forall|i: int|
            0 <= i < items.len() && stem(
                path_parts((#[trigger] items[i]).2.file@),
            ) is Some implies places.contains(i) by {
            if i < n {
                assert(front[i] == items[i]);
                let k = choose|k: int| 0 <= k < before.len() && before[k] == i;
                assert(places[k] == i);
            } else {
                assert(places[places.len() - 1] == i);
            }
        }
        places
    }
}

/// The artifact files of two groups of items, one behind the other, are those of the first and then
/// those of the second.
pub proof fn law_named_files_of_both<T>(
    a: Seq<(Seq<char>, Seq<char>, ArtifactFile<T>)>,
    b: Seq<(Seq<char>, Seq<char>, ArtifactFile<T>)>,
)
    ensures
        named_files(a + b) == named_files(a) + named_files(b),
    decreases b.len(),
{
    if b.len() == 0 {
        assert(a + b =~= a);
        assert(named_files(a) + named_files(b) =~= named_files(a));
    } else {
        assert((a + b).drop_last() =~= a + b.drop_last());
        law_named_files_of_both(a, b.drop_last());
        assert(named_files(a + b) =~= named_files(a) + named_files(b));
    }
}

/// The items of a project's artifacts: those that were cached, then those that were compiled.
pub open spec fn project_items(project: ResolcProjectCompileOutput) -> Seq<
    (Seq<char>, Seq<char>, ArtifactFile<ContractArtifact>),
> {
    project.cached_artifacts.0.spec_items() + project.compiled_artifacts.0.spec_items()
}

/// Whether `places` are the places of all items of a project whose own file has a stem, first to
/// last.
pub open spec fn all_named_places(project: ResolcProjectCompileOutput, places: Seq<int>) -> bool {
    let items = project_items(project);
    &&& forall|k: int|
        0 <= k < places.len() ==> 0 <= #[trigger] places[k] < items.len() && stem(
            path_parts(items[places[k]].2.file@),
        ) is Some
    &&& forall|k: int, l: int|
        0 <= k < l < places.len() ==> #[trigger] places[k] < #[trigger] places[l]
    &&& forall|i: int|
        0 <= i < items.len() && stem(path_parts((#[trigger] items[i]).2.file@)) is Some
            ==> places.contains(i)
}

proof fn lemma_project_places(project: ResolcProjectCompileOutput) -> (places: Seq<int>)
    ensures
        all_named_places(project, places),
        places.len() == (project.cached_artifacts.named()
            + project.compiled_artifacts.named()).len(),
        forall|k: int|
            #![trigger places[k]]
            0 <= k < places.len() ==> {
                let named = (project.cached_artifacts.named()
                    + project.compiled_artifacts.named())[k];
                &&& stem(path_parts(project_items(project)[places[k]].2.file@)) == Some(named.0)
                &&& named.1 == project_items(project)[places[k]].0
                &&& named.2 == project_items(project)[places[k]].2
            },
{
    law_named_files_of_both(
        project.cached_artifacts.0.spec_items(),
        project.compiled_artifacts.0.spec_items(),
    );
    law_named_files(project_items(project))
}

/// The ids of a project's artifacts are those of all artifact files whose own file has a stem, each
/// once, the cached ones before the compiled ones and otherwise in the order of the items. An id has
/// the stem as its name, the artifact's own file, the file of the contract, and the version, build
/// id and profile of the run; with it comes the artifact.
pub proof fn law_artifact_ids<'a>(
    project: ResolcProjectCompileOutput,
    r: Seq<(ArtifactId, &'a ContractArtifact)>,
) -> (places: Seq<int>)
    requires
        are_ids(r, project.cached_artifacts.named() + project.compiled_artifacts.named()),
    ensures
        all_named_places(project, places),
        r.len() == places.len(),
        forall|k: int|
            #![trigger r[k]]
            0 <= k < r.len() ==> {
                let item = project_items(project)[places[k]];
                &&& stem(path_parts(item.2.file@)) == Some(r[k].0.name@)
                &&& r[k].0.path@ == item.2.file@
                &&& r[k].0.source@ == item.0
                &&& r[k].0.version == item.2.version
                &&& r[k].0.build_id@ == item.2.build_id@
                &&& r[k].0.profile@ == item.2.profile@
                &&& *r[k].1 == item.2.artifact
            },
{
    let places = lemma_project_places(project);
    assert forall|k: int|
        #![trigger r[k]]
        0 <= k < r.len() implies {
        let item = project_items(project)[places[k]];
        &&& stem(path_parts(item.2.file@)) == Some(r[k].0.name@)
        &&& r[k].0.path@ == item.2.file@
        &&& r[k].0.source@ == item.0
        &&& r[k].0.version == item.2.version
        &&& r[k].0.build_id@ == item.2.build_id@
        &&& r[k].0.profile@ == item.2.profile@
        &&& *r[k].1 == item.2.artifact
    } by {
        let at = places[k];
        assert(0 <= at < project_items(project).len());
    }
    places
}

/// The same of the ids of artifacts that are handed over.
pub proof fn law_into_artifacts(
    project: ResolcProjectCompileOutput,
    r: Seq<(ArtifactId, ContractArtifact)>,
) -> (places: Seq<int>)
    requires
        are_owned_ids(r, project.cached_artifacts.named() + project.compiled_artifacts.named()),
    ensures
        all_named_places(project, places),
        r.len() == places.len(),
        forall|k: int|
            #![trigger r[k]]
            0 <= k < r.len() ==> {
                let item = project_items(project)[places[k]];
                &&& stem(path_parts(item.2.file@)) == Some(r[k].0.name@)
                &&& r[k].0.path@ == item.2.file@
                &&& r[k].0.source@ == item.0
                &&& r[k].0.version == item.2.version
                &&& r[k].0.build_id@ == item.2.build_id@
                &&& r[k].0.profile@ == item.2.profile@
                &&& r[k].1 == item.2.artifact
            },
{
    let places = lemma_project_places(project);
    assert forall|k: int|
        #![trigger r[k]]
        0 <= k < r.len() implies {
        let item = project_items(project)[places[k]];
        &&& stem(path_parts(item.2.file@)) == Some(r[k].0.name@)
        &&& r[k].0.path@ == item.2.file@
        &&& r[k].0.source@ == item.0
        &&& r[k].0.version == item.2.version
        &&& r[k].0.build_id@ == item.2.build_id@
        &&& r[k].0.profile@ == item.2.profile@
        &&& r[k].1 == item.2.artifact
    } by {
        let at = places[k];
        assert(0 <= at < project_items(project).len());
    }
    places
}

/// The same of the names with artifacts and versions.
pub proof fn law_versioned_artifacts<'a>(
    project: ResolcProjectCompileOutput,
    r: Seq<(String, (&'a ContractArtifact, &'a Version))>,
) -> (places: Seq<int>)
    requires
        are_versioned(r, project.cached_artifacts.named() + project.compiled_artifacts.named()),
    ensures
        all_named_places(project, places),
        r.len() == places.len(),
        forall|k: int|
            #![trigger r[k]]
            0 <= k < r.len() ==> {
                let item = project_items(project)[places[k]];
                &&& stem(path_parts(item.2.file@)) == Some(r[k].0@)
                &&& *r[k].1.0 == item.2.artifact
                &&& *r[k].1.1 == item.2.version
            },
{
    let places = lemma_project_places(project);
    assert forall|k: int|
        #![trigger r[k]]
        0 <= k < r.len() implies {
        let item = project_items(project)[places[k]];
        &&& stem(path_parts(item.2.file@)) == Some(r[k].0@)
        &&& *r[k].1.0 == item.2.artifact
        &&& *r[k].1.1 == item.2.version
    } by {
        let at = places[k];
        assert(0 <= at < project_items(project).len());
    }
    places
}

/// What slashing does to artifacts: the files and names are those of the slashed paths, every list
/// keeps its length, and every artifact file keeps all but its own path, in which `/` stands for
/// every `\\`.
pub proof fn law_slashed_artifacts<T>(
    a: Map<Seq<Part>, Names<ArtifactFile<T>>>,
    b: Map<Seq<Part>, Names<ArtifactFile<T>>>,
    path: Seq<Part>,
    name: Seq<char>,
)
    requires
        slashed_files(a, b),
    ensures
        b.contains_key(path) <==> a.contains_key(path),
        (b.contains_key(path) && b[path].contains_key(name)) <==> (a.contains_key(path)
            && a[path].contains_key(name)),
        entry_at(b, path, name).len() == entry_at(a, path, name).len(),
        forall|i: int|
            #![trigger entry_at(b, path, name)[i]]
            0 <= i < entry_at(b, path, name).len() ==> {
                let x = entry_at(a, path, name)[i];
                let y = entry_at(b, path, name)[i];
                &&& y.artifact == x.artifact
                &&& y.version == x.version
                &&& y.build_id == x.build_id
                &&& y.profile == x.profile
                &&& y.file@.len() == x.file@.len()
                &&& forall|j: int|
                    0 <= j < x.file@.len() ==> #[trigger] y.file@[j] == (if x.file@[j] == '\\' {
                        '/'
                    } else {
                        x.file@[j]
                    })
            },
{
    law_listed(a, path, name);
    law_listed(b, path, name);
    assert(b.dom().contains(path) <==> a.dom().contains(path));
    let xs = listed(a, path, name);
    let ys = listed(b, path, name);
    assert(ys.len() == xs.len());
    assert forall|i: int| 0 <= i < ys.len() implies crate::artifacts::slashed_file(
        xs[i],
        #[trigger] ys[i],
    ) by {}
    assert forall|i: int| #![trigger ys[i]] 0 <= i < ys.len() implies ys[i].file@.len()
        == xs[i].file@.len() && forall|j: int|
        0 <= j < xs[i].file@.len() ==> #[trigger] ys[i].file@[j] == (if xs[i].file@[j] == '\\' {
            '/'
        } else {
            xs[i].file@[j]
        }) by {
        law_slashed_text(xs[i].file@);
        assert(crate::artifacts::slashed_file(xs[i], ys[i]));
    }
}

/// What is found at a path under a name: the first compiled artifact that is listed there, or where
/// none is the first cached one, or where none is nothing.
pub proof fn law_found(project: ResolcProjectCompileOutput, path: Seq<Part>, name: Seq<char>)
    ensures
        ({
            let compiled = entry_at(project.compiled_artifacts.0@, path, name);
            let cached = entry_at(project.cached_artifacts.0@, path, name);
            &&& compiled.len() > 0 ==> project.found(path, name) == Some(compiled[0].artifact)
            &&& compiled.len() == 0 && cached.len() > 0 ==> project.found(path, name) == Some(
                cached[0].artifact,
            )
            &&& compiled.len() == 0 && cached.len() == 0 ==> project.found(path, name) is None
        }),
{
    law_listed(project.compiled_artifacts@, path, name);
    law_listed(project.cached_artifacts@, path, name);
}

/// Whether the item at place `i` is the first with the given name.
pub open spec fn is_first<T>(
    items: Seq<(Seq<char>, Seq<char>, T)>,
    name: Seq<char>,
    i: int,
) -> bool {
    &&& 0 <= i < items.len()
    &&& items[i].1 == name
    &&& forall|j: int| 0 <= j < i ==> (#[trigger] items[j]).1 != name
}

/// What is found under a name alone: the first compiled artifact with it in the order of the items,
/// or where there is none the first cached one, or where there is none nothing.
pub proof fn law_found_first(project: ResolcProjectCompileOutput, name: Seq<char>)
    ensures
        ({
            let compiled = project.compiled_artifacts.0.spec_items();
            let cached = project.cached_artifacts.0.spec_items();
            let lacks = forall|j: int|
                0 <= j < compiled.len() ==> (#[trigger] compiled[j]).1 != name;
            &&& forall|i: int| #[trigger]
                is_first(compiled, name, i) ==> project.found_first(name) == Some(
                    compiled[i].2.artifact,
                )
            &&& lacks ==> forall|i: int| #[trigger]
                is_first(cached, name, i) ==> project.found_first(name) == Some(
                    cached[i].2.artifact,
                )
            &&& lacks && (forall|j: int| 0 <= j < cached.len() ==> (#[trigger] cached[j]).1 != name)
                ==> project.found_first(name) is None
        }),
{
    let compiled = project.compiled_artifacts.0.spec_items();
    let cached = project.cached_artifacts.0.spec_items();
    crate::file_map::law_first_named(compiled, name);
    crate::file_map::law_first_named(cached, name);
    lemma_first_is_unique(compiled, name);
    lemma_first_is_unique(cached, name);
}

proof fn lemma_first_is_unique<T>(items: Seq<(Seq<char>, Seq<char>, T)>, name: Seq<char>)
    ensures
        forall|i: int| #[trigger]
            is_first(items, name, i) ==> crate::file_map::first_named(items, name) == Some(
                (items[i].0, items[i].2),
            ),
{
    crate::file_map::law_first_named(items, name);
    assert forall|i: int| #[trigger] is_first(items, name, i) implies crate::file_map::first_named(
        items,
        name,
    ) == Some((items[i].0, items[i].2)) by {
        assert(items[i].1 == name);
        let found = crate::file_map::first_named(items, name)->Some_0;
        let k = choose|k: int|
            #![trigger items[k]]
            0 <= k < items.len() && items[k] == (found.0, name, found.1) && (forall|j: int|
                0 <= j < k ==> (#[trigger] items[j]).1 != name);
        if k < i {
            assert(items[k].1 != name);
        } else if i < k {
            assert(items[i].1 != name);
        }
    }
}

/// The first item with a name is the one at the first place that has the name.
pub proof fn law_first_named_by_place<T>(
    items: Seq<(Seq<char>, Seq<char>, T)>,
    name: Seq<char>,
    i: int,
)
    ensures
        is_first(items, name, i) ==> crate::file_map::first_named(items, name) == Some(
            (items[i].0, items[i].2),
        ),
        (forall|j: int| 0 <= j < items.len() ==> (#[trigger] items[j]).1 != name)
            ==> crate::file_map::first_named(items, name) is None,
{
    lemma_first_is_unique(items, name);
    crate::file_map::law_first_named(items, name);
}

/// What removing an artifact at a path and name leaves. The list that the artifact was found in is
/// shorter by its first item; every other list of both sets is as it was, no file and no name goes,
/// every path is written as before, and the output and the settings stay.
pub proof fn law_what_removing_leaves(
    before: ResolcProjectCompileOutput,
    after: ResolcProjectCompileOutput,
    path: Seq<Part>,
    name: Seq<char>,
    other_path: Seq<Part>,
    other_name: Seq<char>,
)
    requires
        after.lacks_found(before, path, name),
    ensures
        ({
            let here = other_path == path && other_name == name;
            let compiled = entry_at(before.compiled_artifacts.0@, other_path, other_name);
            let cached = entry_at(before.cached_artifacts.0@, other_path, other_name);
            let compiled_after = entry_at(after.compiled_artifacts.0@, other_path, other_name);
            let cached_after = entry_at(after.cached_artifacts.0@, other_path, other_name);
            &&& here && compiled.len() > 0 ==> compiled_after == compiled.subrange(
                1,
                compiled.len() as int,
            ) && cached_after == cached
            &&& here && compiled.len() == 0 && cached.len() > 0 ==> compiled_after == compiled
                && cached_after == cached.subrange(1, cached.len() as int)
            &&& !here ==> compiled_after == compiled && cached_after == cached
        }),
        after.compiled_artifacts.0@.contains_key(other_path)
            <==> before.compiled_artifacts.0@.contains_key(other_path),
        after.cached_artifacts.0@.contains_key(other_path)
            <==> before.cached_artifacts.0@.contains_key(other_path),
        after.compiled_artifacts.0.spelled() == before.compiled_artifacts.0.spelled(),
        after.cached_artifacts.0.spelled() == before.cached_artifacts.0.spelled(),
        after.compiler_output == before.compiler_output,
        after.ignored_error_codes == before.ignored_error_codes,
        after.ignored_file_paths == before.ignored_file_paths,
        after.compiler_severity_filter == before.compiler_severity_filter,
        after.builds == before.builds,
{
    let nothing = crate::file_map::Prune::Nothing;
    law_listed(before.compiled_artifacts@, path, name);
    law_without_first(
        before.compiled_artifacts@,
        path,
        name,
        nothing,
        other_path,
        other_name,
    );
    law_without_first(before.cached_artifacts@, path, name, nothing, other_path, other_name);
}

/// What removing the first artifact with a name leaves: the same as removing it at the path where
/// it was found first; and where there is none, everything is as it was.
pub proof fn law_what_removing_the_first_leaves(
    before: ResolcProjectCompileOutput,
    after: ResolcProjectCompileOutput,
    name: Seq<char>,
    i: int,
)
    requires
        before.artifacts_wf(),
        after.lacks_found_first(before, name),
    ensures
        is_first(before.compiled_artifacts.0.spec_items(), name, i) ==> after.lacks_found(
            before,
            path_parts(before.compiled_artifacts.0.spec_items()[i].0),
            name,
        ),
        (forall|j: int|
            0 <= j < before.compiled_artifacts.0.spec_items().len() ==> (
            #[trigger] before.compiled_artifacts.0.spec_items()[j]).1 != name) && is_first(
            before.cached_artifacts.0.spec_items(),
            name,
            i,
        ) ==> after.lacks_found(
            before,
            path_parts(before.cached_artifacts.0.spec_items()[i].0),
            name,
        ),
        before.found_first(name) is None ==> after.compiled_artifacts.0@
            == before.compiled_artifacts.0@ && after.cached_artifacts.0@
            == before.cached_artifacts.0@,
        after.compiler_output == before.compiler_output,
        after.compiled_artifacts.0.spelled() == before.compiled_artifacts.0.spelled(),
        after.cached_artifacts.0.spelled() == before.cached_artifacts.0.spelled(),
        after.ignored_error_codes == before.ignored_error_codes,
        after.ignored_file_paths == before.ignored_file_paths,
        after.compiler_severity_filter == before.compiler_severity_filter,
        after.builds == before.builds,
{
    let compiled = before.compiled_artifacts.0.spec_items();
    let cached = before.cached_artifacts.0.spec_items();
    law_first_named_by_place(compiled, name, i);
    law_first_named_by_place(cached, name, i);
    crate::file_map::law_first_named_is_first_listed(before.compiled_artifacts.0, name);
    crate::file_map::law_first_named_is_first_listed(before.cached_artifacts.0, name);
    crate::file_map::law_first_named(compiled, name);
    crate::file_map::law_first_named(cached, name);
}

/// The items of a set of artifacts and their map are those that the set holds.
pub proof fn law_artifacts_are_their_files<T>(artifacts: Artifacts<T>)
    ensures
        artifacts.spec_items() == artifacts.0.spec_items(),
        artifacts.named() == named_files(artifacts.0.spec_items()),
        artifacts@ == artifacts.0@,
        artifacts.spelled() == artifacts.0.spelled(),
{
}

/// The items of an output's contracts and their map are those that the contracts hold.
pub proof fn law_contracts_are_their_files(output: AggregatedCompilerOutput)
    ensures
        output.contracts.spec_items() == output.contracts.0.spec_items(),
        output.contracts@ == output.contracts.0@,
        output.contracts.spelled() == output.contracts.0.spelled(),
{
}

} // verus!
