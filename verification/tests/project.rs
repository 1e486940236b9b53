use resolc_output::aggregated::{AggregatedCompilerOutput, ResolcCompilerOutput};
use resolc_output::artifacts::{contract_name, ArtifactFile, Artifacts, ContractArtifact};
use resolc_output::build_info::{Builds, RawBuildInfo, SolcLanguage};
use resolc_output::contract::{JsonAbi, ResolcContract};
use resolc_output::diagnostic::{Error, Severity, SourceLocation};
use resolc_output::info::ContractInfoRef;
use resolc_output::path::SourcePath;
use resolc_output::project::ResolcProjectCompileOutput;
use resolc_output::sorted_map::SortedMap;
use semver::Version;

fn path(text: &str) -> SourcePath {
    SourcePath::new(text)
}

fn artifact(tag: &str) -> ContractArtifact {
    ContractArtifact { abi: None, bytecode: None, deployed_bytecode: None, metadata: Some(tag.to_string()) }
}

fn file(tag: &str, at: &str, minor: u64) -> ArtifactFile<ContractArtifact> {
    ArtifactFile {
        artifact: artifact(tag),
        file: path(at),
        version: Version::new(0, minor, 0),
        build_id: format!("id-{tag}"),
        profile: "default".to_string(),
    }
}

fn diagnostic(severity: Severity, code: Option<u64>, at: Option<&str>, text: &str) -> Error {
    Error {
        source_location: at.map(|f| SourceLocation { file: f.to_string(), start: -1, end: -1 }),
        severity,
        error_code: code,
        text: text.to_string(),
    }
}

fn project() -> ResolcProjectCompileOutput {
    let mut compiled: Artifacts<ContractArtifact> = Artifacts::new();
    compiled.0.push(path("src/B.sol"), "B".to_string(), file("B1", "out/B.sol/B.json", 8));
    compiled.0.push(path("src/A.sol"), "A".to_string(), file("A1", "out/A.sol/A.json", 8));
    let mut cached: Artifacts<ContractArtifact> = Artifacts::new();
    cached.0.push(path("src/A.sol"), "A".to_string(), file("A0", "out/A.sol/A.0.7.json", 7));
    cached.0.push(path("src/C.sol"), "C".to_string(), file("C0", "out/C.sol/C.json", 7));
    cached.0.push(path("src/C.sol"), "D".to_string(), file("D0", "..", 7));
    ResolcProjectCompileOutput {
        compiler_output: AggregatedCompilerOutput::default(),
        compiled_artifacts: compiled,
        cached_artifacts: cached,
        ignored_error_codes: vec![],
        ignored_file_paths: vec![],
        compiler_severity_filter: Severity::Error,
        builds: Builds(SortedMap::new()),
    }
}

fn marked(name: &str, file: &str) -> AggregatedCompilerOutput {
    let mut output = AggregatedCompilerOutput::default();
    let contract = ResolcContract {
        abi: Some(JsonAbi { functions: vec!["IS_TEST".to_string()], json: "[]".to_string() }),
        metadata: None,
        bytecode: None,
        runtime_bytecode: None,
        hash: None,
    };
    let names = SortedMap::collect(vec![(name.to_string(), contract)]);
    let added = ResolcCompilerOutput {
        errors: vec![],
        sources: SortedMap::new(),
        contracts: SortedMap::collect(vec![(path(file), names)]),
    };
    let info = RawBuildInfo {
        id: "x".to_string(),
        source_id_to_path: vec![],
        language: SolcLanguage::Yul,
        build_info: vec![],
    };
    output.extend(Version::new(0, 8, 28), info, "default", added);
    output
}

fn tag(found: Option<&ContractArtifact>) -> Option<&str> {
    found.map(|a| a.metadata.as_deref().unwrap())
}

#[test]
fn contract_names_are_file_stems() {
    assert_eq!(contract_name(&path("out/Greeter.sol/Greeter.json")), Some("Greeter".to_string()));
    assert_eq!(contract_name(&path("out/Greeter.0.8.10.json")), Some("Greeter.0.8.10".to_string()));
    assert_eq!(contract_name(&path("out/..")), None);
}

#[test]
fn cached_artifacts_come_before_compiled_ones() {
    let project = project();
    let ids: Vec<(String, String, String, String)> = project
        .artifact_ids()
        .into_iter()
        .map(|(id, a)| {
            (id.name, id.source.to_text(), id.build_id, a.metadata.clone().unwrap())
        })
        .collect();
    let want = vec![
        ("A.0.7".to_string(), "src/A.sol".to_string(), "id-A0".to_string(), "A0".to_string()),
        ("C".to_string(), "src/C.sol".to_string(), "id-C0".to_string(), "C0".to_string()),
        ("A".to_string(), "src/A.sol".to_string(), "id-A1".to_string(), "A1".to_string()),
        ("B".to_string(), "src/B.sol".to_string(), "id-B1".to_string(), "B1".to_string()),
    ];
    assert_eq!(ids, want);
    let names: Vec<(String, Version)> = project
        .versioned_artifacts()
        .into_iter()
        .map(|(n, (_, v))| (n, v.clone()))
        .collect();
    assert_eq!(names[0], ("A.0.7".to_string(), Version::new(0, 7, 0)));
    assert_eq!(names[3], ("B".to_string(), Version::new(0, 8, 0)));
    let plain: Vec<String> = project.artifacts().into_iter().map(|(n, _)| n).collect();
    assert_eq!(plain, vec!["A.0.7", "C", "A", "B"]);
    let owned: Vec<(String, String)> = project
        .into_artifacts()
        .into_iter()
        .map(|(id, a)| (id.path.to_text(), a.metadata.unwrap()))
        .collect();
    assert_eq!(owned[0], ("out/A.sol/A.0.7.json".to_string(), "A0".to_string()));
    assert_eq!(owned.len(), 4);
}

#[test]
fn compiled_artifacts_are_found_before_cached_ones() {
    let project = project();
    assert_eq!(tag(project.find(&path("src/A.sol"), "A")), Some("A1"));
    assert_eq!(tag(project.find(&path("src/C.sol"), "C")), Some("C0"));
    assert_eq!(tag(project.find(&path("src/C.sol"), "A")), None);
    assert_eq!(tag(project.find_first("A")), Some("A1"));
    assert_eq!(tag(project.find_first("C")), Some("C0"));
    assert_eq!(tag(project.find_first("X")), None);
    assert!(project.cached_artifacts().find_first("C").is_some());
    assert!(project.compiled_artifacts().find_first("C").is_none());
}

#[test]
fn removing_uncovers_the_cached_artifact() {
    let mut project = project();
    assert_eq!(project.remove(&path("src/A.sol"), "A"), Some(artifact("A1")));
    assert_eq!(tag(project.find(&path("src/A.sol"), "A")), Some("A0"));
    assert_eq!(tag(project.find(&path("src/B.sol"), "B")), Some("B1"));
    assert_eq!(project.remove_first("A"), Some(artifact("A0")));
    assert_eq!(project.remove_first("A"), None);
    assert_eq!(project.remove_contract(ContractInfoRef::new("src/C.sol:C")), Some(artifact("C0")));
    assert_eq!(project.remove_contract(ContractInfoRef::new("src/C.sol:C")), None);
    assert_eq!(project.remove_contract(ContractInfoRef::new("B")), Some(artifact("B1")));
    assert_eq!(project.remove_contract(ContractInfoRef::new("B")), None);
}

#[test]
fn stripping_and_slashing_reach_the_artifacts() {
    let stripped = project().with_stripped_file_prefixes(&path("src"));
    assert_eq!(tag(stripped.find(&path("A.sol"), "A")), Some("A1"));
    assert_eq!(tag(stripped.find(&path("C.sol"), "C")), Some("C0"));
    let mut project = project();
    project.compiled_artifacts.0.push(
        path("src\\E.sol"),
        "E".to_string(),
        file("E1", "out\\E.sol\\E.json", 8),
    );
    assert_eq!(tag(project.find(&path("src/E.sol"), "E")), None);
    project.slash_paths();
    assert_eq!(tag(project.find(&path("src/E.sol"), "E")), Some("E1"));
    let names: Vec<String> = project.artifacts().into_iter().map(|(n, _)| n).collect();
    assert_eq!(names, vec!["A.0.7", "C", "A", "B", "E"]);
}

#[test]
fn nothing_to_compile_is_displayed() {
    let project = project();
    assert!(project.is_unchanged());
    assert_eq!(project.to_text(), "Nothing to compile");
    assert_eq!(project.failure_text(), None);
    project.assert_success();
    assert!(project.output().is_unchanged());
    assert!(project.into_output().is_empty());
}

#[test]
fn errors_without_contracts_contain_no_contracts() {
    let mut project = project();
    project.compiler_output.errors.push(diagnostic(Severity::Error, None, None, "Error: x"));
    assert!(project.is_unchanged());
    assert!(!project.output().is_unchanged());
    assert!(project.has_compiler_errors());
}

#[test]
fn plain_display() {
    yansi::disable();
    let mut project = project();
    project.compiler_output = marked("T", "src/T.sol");
    assert!(!project.is_unchanged());
    assert_eq!(project.to_text(), "Compiler run successful!");
    project.compiler_output.errors.push(diagnostic(Severity::Warning, Some(9), None, "Warning: w"));
    assert_eq!(project.to_text(), "Compiler run successful with warnings:\nWarning: w");
    project.compiler_output.errors.push(diagnostic(Severity::Error, None, None, "Error: e"));
    assert_eq!(project.to_text(), "Compiler run failed:\nWarning: w\nError: e");
    project.ignored_error_codes.push(9);
    assert_eq!(project.to_text(), "Compiler run failed:\nError: e");
    assert_eq!(project.failure_text(), Some("\nCompiler run failed:\nError: e\n".to_string()));
}

#[test]
fn colored_display() {
    yansi::enable();
    let mut project = project();
    project.compiler_output = marked("T", "src/T.sol");
    assert_eq!(project.to_text(), "Compiler run \u{1b}[32msuccessful!\u{1b}[0m");
    project.compiler_output.errors.push(diagnostic(Severity::Warning, Some(9), None, "w"));
    let text = "Compiler run \u{1b}[33msuccessful with warnings:\u{1b}[0m\nw";
    assert_eq!(project.to_text(), text);
    project.compiler_severity_filter = Severity::Warning;
    assert_eq!(project.to_text(), "Compiler run \u{1b}[31mfailed:\u{1b}[0m\nw");
}

#[test]
fn the_report_takes_the_status_as_given() {
    let mut output = AggregatedCompilerOutput::default();
    output.errors.push(diagnostic(Severity::Info, Some(1), None, "i"));
    output.errors.push(diagnostic(Severity::Warning, Some(2), Some("lib/A.sol"), "w"));
    output.errors.push(diagnostic(Severity::Warning, None, Some("lib/A.sol"), "v"));
    let paths = [path("lib")];
    let diagnostics = output.diagnostics(&[1], &paths, Severity::Error);
    assert!(!diagnostics.has_error());
    assert!(diagnostics.has_warning());
    assert_eq!(diagnostics.report("<>"), "Compiler run <>\ni\nv");
}

#[test]
fn the_display_hides_what_is_passed_over() {
    let warning = || diagnostic(Severity::Warning, Some(1878), Some("src/T.sol"), "license");
    let mut by_file = marked("T", "src/T.sol");
    by_file.errors.push(warning());
    assert!(!by_file.has_warning(&[], &[]));
    assert_eq!(by_file.diagnostics(&[], &[], Severity::Error).report("ok"), "Compiler run ok");
    let mut by_name = marked("src/T.sol", "src/U.sol");
    by_name.errors.push(warning());
    assert!(by_name.has_warning(&[], &[]));
    assert_eq!(by_name.diagnostics(&[], &[], Severity::Error).report("ok"), "Compiler run ok\nlicense");
    let mut by_suffix = AggregatedCompilerOutput::default();
    by_suffix.errors.push(diagnostic(Severity::Warning, Some(5574), Some("a.t.sol"), "size"));
    assert!(!by_suffix.has_warning(&[], &[]));
    assert_eq!(by_suffix.diagnostics(&[], &[], Severity::Error).report("ok"), "Compiler run ok");
}

#[test]
fn the_lines_agree_with_the_status() {
    yansi::disable();
    let mut project = project();
    project.compiler_output = marked("T", "src/T.sol");
    let license = diagnostic(Severity::Warning, Some(1878), Some("src/T.sol"), "license");
    project.compiler_output.errors.push(license);
    assert_eq!(project.to_text(), "Compiler run successful!");
    let size = diagnostic(Severity::Warning, Some(5574), Some("src/U.sol"), "size");
    project.compiler_output.errors.push(size);
    assert_eq!(project.to_text(), "Compiler run successful with warnings:\nsize");
}

#[test]
fn a_failure_is_displayed_as_failed() {
    yansi::disable();
    let mut project = project();
    project.compiler_output.errors.push(diagnostic(Severity::Info, None, None, "i"));
    project.compiler_severity_filter = Severity::Info;
    assert!(project.has_compiler_errors());
    assert!(project.is_unchanged());
    assert_eq!(project.to_text(), "Compiler run failed:\ni");
}

#[test]
fn slashing_a_project_twice_is_slashing_it_once() {
    let mut project = project();
    project.cached_artifacts.0.push(
        path("src\\F.sol"),
        "F".to_string(),
        file("F0", "out\\F.sol\\F.json", 7),
    );
    project.slash_paths();
    let once = project.clone();
    project.slash_paths();
    assert_eq!(project.cached_artifacts, once.cached_artifacts);
    assert_eq!(project.compiled_artifacts, once.compiled_artifacts);
    let ids = project.artifact_ids();
    let found = ids.iter().find(|(id, _)| id.name == "F").unwrap();
    assert_eq!(found.0.path.to_text(), "out/F.sol/F.json");
    assert_eq!(found.0.source.to_text(), "src/F.sol");
}
