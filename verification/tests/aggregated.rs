use resolc_output::aggregated::{AggregatedCompilerOutput, ResolcCompilerOutput};
use resolc_output::build_info::{RawBuildInfo, SolcLanguage};
use resolc_output::contract::{BytecodeObject, JsonAbi, ResolcContract};
use resolc_output::diagnostic::{Error, Severity, SourceLocation};
use resolc_output::info::ContractInfoRef;
use resolc_output::path::SourcePath;
use resolc_output::sorted_map::SortedMap;
use resolc_output::sources::{SourceFile, VersionedSourceFiles};
use semver::Version;

fn path(text: &str) -> SourcePath {
    SourcePath::new(text)
}

fn diagnostic(severity: Severity, code: Option<u64>, file: Option<&str>) -> Error {
    Error {
        source_location: file.map(|f| SourceLocation { file: f.to_string(), start: 0, end: 1 }),
        severity,
        error_code: code,
        text: "text".to_string(),
    }
}

fn contract(hash: &str, functions: &[&str]) -> ResolcContract {
    ResolcContract {
        abi: Some(JsonAbi {
            functions: functions.iter().map(|f| f.to_string()).collect(),
            json: "[]".to_string(),
        }),
        metadata: None,
        bytecode: Some(BytecodeObject::Bytecode(vec![1, 2])),
        runtime_bytecode: Some(BytecodeObject::Unlinked("__lib__".to_string())),
        hash: Some(hash.to_string()),
    }
}

fn build_info(id: &str) -> RawBuildInfo {
    RawBuildInfo {
        id: id.to_string(),
        source_id_to_path: vec![(0, path("src/A.sol"))],
        language: SolcLanguage::Solidity,
        build_info: vec![],
    }
}

fn run(
    errors: Vec<Error>,
    sources: Vec<(&str, u32)>,
    contracts: Vec<(&str, Vec<(&str, ResolcContract)>)>,
) -> ResolcCompilerOutput {
    ResolcCompilerOutput {
        errors,
        sources: SortedMap::collect(
            sources.into_iter().map(|(p, id)| (path(p), SourceFile { id, ast: None })).collect(),
        ),
        contracts: SortedMap::collect(
            contracts
                .into_iter()
                .map(|(p, cs)| {
                    let names: Vec<(String, ResolcContract)> =
                        cs.into_iter().map(|(n, c)| (n.to_string(), c)).collect();
                    (path(p), SortedMap::collect(names))
                })
                .collect(),
        ),
    }
}

fn with_errors(errors: Vec<Error>) -> AggregatedCompilerOutput {
    let mut output = AggregatedCompilerOutput::default();
    output.extend(Version::new(0, 8, 28), build_info("x"), "default", run(errors, vec![], vec![]));
    output
}

fn two_runs() -> AggregatedCompilerOutput {
    let mut output = AggregatedCompilerOutput::default();
    output.extend(
        Version::new(0, 8, 28),
        build_info("one"),
        "default",
        run(
            vec![diagnostic(Severity::Info, None, None)],
            vec![("src/A.sol", 0), ("src/B.sol", 1)],
            vec![
                ("src/B.sol", vec![("B", contract("b1", &[]))]),
                ("src/A.sol", vec![("A", contract("a1", &[])), ("B", contract("ab1", &[]))]),
            ],
        ),
    );
    output.extend(
        Version::new(0, 8, 29),
        build_info("two"),
        "opt",
        run(
            vec![diagnostic(Severity::Warning, Some(1), None)],
            vec![("src/A.sol", 7)],
            vec![("src/A.sol", vec![("A", contract("a2", &[]))]), ("src/I.sol", vec![])],
        ),
    );
    output
}

fn hashes(output: &AggregatedCompilerOutput) -> Vec<(String, String, String)> {
    output
        .contracts_with_files_iter()
        .into_iter()
        .map(|(p, n, c)| (p.to_text(), n.clone(), c.hash.clone().unwrap()))
        .collect()
}

fn row(p: &str, n: &str, h: &str) -> (String, String, String) {
    (p.to_string(), n.to_string(), h.to_string())
}

#[test]
fn nothing_is_unchanged() {
    let output = AggregatedCompilerOutput::default();
    assert!(output.is_empty());
    assert!(output.is_unchanged());
    assert!(!output.has_error(&[], &[], &Severity::Info));
    assert!(!output.has_warning(&[], &[]));
    let failed = with_errors(vec![diagnostic(Severity::Error, None, None)]);
    assert!(failed.is_empty());
    assert!(!failed.is_unchanged());
}

#[test]
fn extend_appends_runs() {
    let output = two_runs();
    assert_eq!(output.errors.len(), 2);
    assert_eq!(output.errors[1].error_code, Some(1));
    let ids: Vec<&str> = output.build_infos.iter().map(|b| b.id.as_str()).collect();
    assert_eq!(ids, vec!["one", "two"]);
    assert_eq!(
        hashes(&output),
        vec![
            row("src/A.sol", "A", "a1"),
            row("src/A.sol", "A", "a2"),
            row("src/A.sol", "B", "ab1"),
            row("src/B.sol", "B", "b1"),
        ]
    );
    let versions: Vec<String> = output
        .contracts_with_files_and_version_iter()
        .into_iter()
        .map(|(_, _, _, v)| v.to_string())
        .collect();
    assert_eq!(versions, vec!["0.8.28", "0.8.29", "0.8.28", "0.8.28"]);
    let sources = output.sources.get(&path("src/A.sol")).unwrap();
    assert_eq!(sources.len(), 2);
    assert_eq!(sources[0].source_file.id, 0);
    assert_eq!(sources[0].build_id, "one");
    assert_eq!(sources[0].profile, "default");
    assert_eq!(sources[1].source_file.id, 7);
    assert_eq!(sources[1].version, Version::new(0, 8, 29));
    assert_eq!(sources[1].build_id, "two");
    assert_eq!(sources[1].profile, "opt");
    assert_eq!(output.sources.get(&path("src/B.sol")).unwrap().len(), 1);
    assert!(output.sources.get(&path("src/I.sol")).is_none());
}

#[test]
fn pre_release_and_build_of_a_version_are_kept() {
    let version = Version::parse("0.8.28-nightly.2024.12.1+commit.0123456789abcdef").unwrap();
    let mut output = AggregatedCompilerOutput::default();
    let added = run(vec![], vec![("a", 0), ("b", 1)], vec![("a", vec![("A", contract("a", &[]))])]);
    output.extend(version.clone(), build_info("x"), "p", added);
    let listed = output.contracts_with_files_and_version_into_iter();
    assert_eq!(listed.len(), 1);
    assert_eq!(listed[0].3, version);
}

#[test]
fn a_file_without_contracts_is_not_empty() {
    let mut output = AggregatedCompilerOutput::default();
    let added = run(vec![], vec![], vec![("src/I.sol", vec![])]);
    output.extend(Version::new(0, 8, 28), build_info("x"), "default", added);
    assert!(!output.is_empty());
    assert!(!output.is_unchanged());
    assert!(output.contracts_iter().is_empty());
}

#[test]
fn first_contract_stays_first() {
    let output = two_runs();
    assert_eq!(output.find_first("A").unwrap().abi.unwrap().json, "[]");
    let found = output.get(&path("src/A.sol"), "A").unwrap();
    assert_eq!(found.bin, Some(&BytecodeObject::Bytecode(vec![1, 2])));
    assert_eq!(found.bin_runtime, Some(&BytecodeObject::Unlinked("__lib__".to_string())));
    assert!(output.get(&path("src/B.sol"), "A").is_none());
    assert!(output.find_first("C").is_none());
    let names: Vec<&String> = output.contracts_iter().into_iter().map(|(n, _)| n).collect();
    assert_eq!(names, vec!["A", "A", "B", "B"]);
    let owned: Vec<String> = output
        .clone()
        .contracts_into_iter()
        .into_iter()
        .map(|(_, c)| c.hash.unwrap())
        .collect();
    assert_eq!(owned, vec!["a1", "a2", "ab1", "b1"]);
    let owned: Vec<String> = output
        .contracts_with_files_into_iter()
        .into_iter()
        .map(|(p, _, _)| p.to_text())
        .collect();
    assert_eq!(owned, vec!["src/A.sol", "src/A.sol", "src/A.sol", "src/B.sol"]);
}

#[test]
fn removing_takes_the_first() {
    let mut output = two_runs();
    assert_eq!(output.remove_first("B").unwrap().hash.unwrap(), "ab1");
    assert_eq!(output.remove_first("B").unwrap().hash.unwrap(), "b1");
    assert_eq!(output.remove_first("B"), None);
    assert_eq!(output.remove(&path("src/A.sol"), "A").unwrap().hash.unwrap(), "a1");
    assert_eq!(output.remove(&path("src/A.sol"), "A").unwrap().hash.unwrap(), "a2");
    assert_eq!(output.remove(&path("src/A.sol"), "A"), None);
    assert!(hashes(&output).is_empty());
    assert_eq!(output.errors.len(), 2);
}

#[test]
fn removing_by_info() {
    let mut output = two_runs();
    let info = ContractInfoRef::new("src/B.sol:B");
    assert_eq!(output.remove_contract(info).unwrap().hash.unwrap(), "b1");
    assert_eq!(output.remove_contract(info), None);
    let info = ContractInfoRef::new("B");
    assert_eq!(output.remove_contract(info).unwrap().hash.unwrap(), "ab1");
    assert_eq!(output.remove_contract(info), None);
}

#[test]
fn files_go_with_their_last_contract() {
    let one = || {
        let mut output = AggregatedCompilerOutput::default();
        let added = run(vec![], vec![], vec![("a", vec![("A", contract("a", &[]))])]);
        output.extend(Version::new(0, 8, 28), build_info("x"), "default", added);
        output
    };
    let mut by_path = one();
    assert!(by_path.remove(&path("a"), "A").is_some());
    assert!(by_path.is_empty());
    let mut by_name = one();
    assert!(by_name.remove_first("A").is_some());
    assert!(!by_name.is_empty());
}

#[test]
fn each_filter_has_its_own_errors() {
    let info = with_errors(vec![diagnostic(Severity::Info, None, None)]);
    assert!(!info.has_error(&[], &[], &Severity::Error));
    assert!(!info.has_error(&[], &[], &Severity::Warning));
    assert!(info.has_error(&[], &[], &Severity::Info));
    let warning = with_errors(vec![diagnostic(Severity::Warning, Some(9), None)]);
    assert!(!warning.has_error(&[], &[], &Severity::Error));
    assert!(warning.has_error(&[], &[], &Severity::Warning));
    assert!(!warning.has_error(&[9], &[], &Severity::Warning));
    assert!(warning.has_error(&[9], &[], &Severity::Info));
    let error = with_errors(vec![diagnostic(Severity::Error, Some(9), Some("a.t.sol"))]);
    for filter in [Severity::Error, Severity::Warning, Severity::Info] {
        assert!(error.has_error(&[9], &[path("a.t.sol")], &filter));
    }
}

#[test]
fn only_warnings_are_warnings() {
    let output = with_errors(vec![
        diagnostic(Severity::Info, None, None),
        diagnostic(Severity::Warning, Some(9), None),
    ]);
    assert!(output.has_warning(&[], &[]));
    assert!(!output.has_warning(&[9], &[]));
    assert!(!output.has_error(&[9], &[], &Severity::Warning));
    let info = with_errors(vec![diagnostic(Severity::Info, None, None)]);
    assert!(!info.has_warning(&[], &[]));
    let error = with_errors(vec![diagnostic(Severity::Error, None, None)]);
    assert!(!error.has_warning(&[], &[]));
}

#[test]
fn ignoring_by_code_path_and_test() {
    let mut output = AggregatedCompilerOutput::default();
    let added = run(
        vec![],
        vec![],
        vec![
            ("src/T.sol", vec![("Plain", contract("p", &["run"])), ("T", contract("t", &["IS_TEST"]))]),
            ("src/U.sol", vec![("U", contract("u", &["setUp"]))]),
        ],
    );
    output.extend(Version::new(0, 8, 28), build_info("x"), "default", added);
    let ignored = |severity: Severity, code: Option<u64>, file: Option<&str>| {
        output.should_ignore(&[7], &[path("lib"), path("node_modules")], &diagnostic(severity, code, file))
    };
    assert!(ignored(Severity::Warning, Some(7), None));
    assert!(!ignored(Severity::Error, Some(7), None));
    assert!(!ignored(Severity::Info, Some(7), None));
    assert!(!ignored(Severity::Warning, Some(8), None));
    assert!(ignored(Severity::Warning, Some(8), Some("lib/x/A.sol")));
    assert!(!ignored(Severity::Warning, Some(8), Some("library/A.sol")));
    assert!(!ignored(Severity::Warning, None, Some("lib/x/A.sol")));
    for code in [1878, 5574] {
        assert!(ignored(Severity::Warning, Some(code), Some("src/A.t.sol")));
        assert!(ignored(Severity::Warning, Some(code), Some("src//T.sol")));
        assert!(!ignored(Severity::Warning, Some(code), Some("src/U.sol")));
        assert!(!ignored(Severity::Warning, Some(code), Some("src/A.t.sol/")));
    }
    assert!(!ignored(Severity::Warning, Some(1879), Some("src/A.t.sol")));
    assert!(ignored(Severity::Warning, Some(8), Some("./src/x")) == false);
    assert!(output.should_ignore(&[], &[path("")], &diagnostic(Severity::Warning, Some(8), Some("x"))));
}

#[test]
fn ignoring_more_never_fails_more() {
    let output = with_errors(vec![
        diagnostic(Severity::Warning, Some(1), Some("lib/A.sol")),
        diagnostic(Severity::Warning, Some(2), Some("src/A.sol")),
    ]);
    assert!(output.has_error(&[], &[], &Severity::Warning));
    assert!(output.has_error(&[2], &[], &Severity::Warning));
    assert!(output.has_error(&[], &[path("lib")], &Severity::Warning));
    assert!(!output.has_error(&[2], &[path("lib")], &Severity::Warning));
}

#[test]
fn an_error_stays_when_runs_are_added() {
    let mut output = with_errors(vec![diagnostic(Severity::Error, None, None)]);
    assert!(output.has_error(&[], &[], &Severity::Error));
    output.extend(Version::new(0, 8, 29), build_info("y"), "default", run(vec![], vec![], vec![]));
    assert!(output.has_error(&[], &[], &Severity::Error));
}

#[test]
fn join_and_strip_all() {
    let mut output = two_runs();
    let before = output.clone();
    let root = path("/work");
    output.join_all(&root).errors.clear();
    assert!(output.errors.is_empty());
    assert!(output.get(&path("/work/src/A.sol"), "A").is_some());
    assert!(output.get(&path("src/A.sol"), "A").is_none());
    assert_eq!(output.sources.get(&path("/work/src/A.sol")).unwrap().len(), 2);
    let consumed = output.clone().with_stripped_file_prefixes(&root);
    output.strip_prefix_all(&root);
    assert_eq!(output, consumed);
    let (sources, contracts) = output.split();
    assert_eq!(sources, before.sources);
    assert_eq!(contracts, before.contracts);
}

#[test]
fn slash_paths_of_sources_and_contracts() {
    let mut output = AggregatedCompilerOutput::default();
    let added = run(vec![], vec![("src\\A.sol", 0)], vec![("src\\A.sol", vec![("A", contract("a", &[]))])]);
    output.extend(Version::new(0, 8, 28), build_info("x"), "default", added);
    assert!(output.get(&path("src/A.sol"), "A").is_none());
    output.slash_paths();
    assert!(output.get(&path("src/A.sol"), "A").is_some());
    assert!(output.sources.get(&path("src/A.sol")).is_some());
    let once = output.clone();
    output.slash_paths();
    assert_eq!(output, once);
}

#[test]
fn build_info_files_are_named_by_id() {
    let output = two_runs();
    let files: Vec<String> =
        output.build_info_files(&path("out/build-info")).iter().map(|f| f.to_text()).collect();
    assert_eq!(files, vec!["out/build-info/one.json", "out/build-info/two.json"]);
    assert!(AggregatedCompilerOutput::default().build_info_files(&path("out")).is_empty());
}

#[test]
fn sources_go_in_and_out() {
    let sources = two_runs().sources;
    let files = sources.clone().into_files();
    assert_eq!(files.len(), 2);
    assert_eq!(files.at(0).0.to_text(), "src/A.sol");
    assert_eq!(files.at(0).1.len(), 2);
    assert_eq!(VersionedSourceFiles::of(files), sources);
}

#[test]
fn a_single_run_is_listed_once() {
    let mut output = AggregatedCompilerOutput::default();
    let added = run(
        vec![],
        vec![],
        vec![
            ("src/B.sol", vec![("B", contract("b", &[]))]),
            ("src/A.sol", vec![("B", contract("ab", &[])), ("A", contract("a", &[]))]),
        ],
    );
    output.extend(Version::new(0, 8, 28), build_info("one"), "default", added);
    let rows: Vec<(String, String, String, String)> = output
        .contracts_with_files_and_version_iter()
        .into_iter()
        .map(|(p, n, c, v)| (p.to_text(), n.clone(), c.hash.clone().unwrap(), v.to_string()))
        .collect();
    let want: Vec<(String, String, String, String)> =
        [("src/A.sol", "A", "a"), ("src/A.sol", "B", "ab"), ("src/B.sol", "B", "b")]
            .iter()
            .map(|(p, n, h)| (p.to_string(), n.to_string(), h.to_string(), "0.8.28".to_string()))
            .collect();
    assert_eq!(rows, want);
}

#[test]
fn a_clone_is_the_same_output() {
    let output = two_runs();
    let copy = output.clone();
    assert_eq!(copy, output);
    assert_eq!(hashes(&copy), hashes(&output));
    assert_eq!(copy.sources.get(&path("src/A.sol")), output.sources.get(&path("src/A.sol")));
}

#[test]
fn paths_come_back_as_they_were_written() {
    let mut output = AggregatedCompilerOutput::default();
    let first = run(
        vec![],
        vec![("src//A.sol", 0)],
        vec![("src//A.sol", vec![("A", contract("a", &[]))])],
    );
    let second = run(
        vec![],
        vec![("src/A.sol", 1), ("lib/./B.sol", 2)],
        vec![
            ("src/A.sol", vec![("A", contract("b", &[]))]),
            ("lib/./B.sol", vec![("B", contract("c", &[]))]),
        ],
    );
    output.extend(Version::new(0, 8, 28), build_info("one"), "default", first);
    output.extend(Version::new(0, 8, 29), build_info("two"), "default", second);
    assert_eq!(
        hashes(&output),
        vec![row("lib/./B.sol", "B", "c"), row("src//A.sol", "A", "a"), row("src//A.sol", "A", "b")]
    );
    let files = output.sources.clone().into_files();
    assert_eq!(files.at(0).0.to_text(), "lib/./B.sol");
    assert_eq!(files.at(1).0.to_text(), "src//A.sol");
    output.join_all(&path("/work/"));
    assert_eq!(hashes(&output)[1], row("/work/src//A.sol", "A", "a"));
    output.strip_prefix_all(&path("/work"));
    assert_eq!(hashes(&output)[0], row("lib/./B.sol", "B", "c"));
}

#[test]
fn build_ids_stay_known() {
    let output = two_runs();
    let ids: Vec<&str> = output.build_infos.iter().map(|b| b.id.as_str()).collect();
    for (_, list) in output.sources.clone().into_files().into_entries() {
        for file in list {
            assert!(ids.contains(&file.build_id.as_str()));
        }
    }
    for (_, _, item) in output.contracts.0.items() {
        assert!(ids.contains(&item.build_id.as_str()));
    }
}
