use resolc_output::file_map::{FileMap, Prune};
use resolc_output::info::ContractInfoRef;
use resolc_output::order::{text_order, Order};
use resolc_output::path::SourcePath;
use resolc_output::path_map::{repath, PathChange};
use resolc_output::sorted_map::SortedMap;
use std::collections::BTreeMap;

fn path(text: &str) -> SourcePath {
    SourcePath::new(text)
}

fn texts(map: &FileMap<u32>) -> Vec<(String, String, u32)> {
    map.items().into_iter().map(|(p, n, t)| (p.to_text(), n.clone(), *t)).collect()
}

fn item(p: &str, n: &str, t: u32) -> (String, String, u32) {
    (p.to_string(), n.to_string(), t)
}

fn sample() -> FileMap<u32> {
    let mut map: FileMap<u32> = FileMap::new();
    map.push(path("src/B.sol"), "Token".to_string(), 1);
    map.push(path("src/A.sol"), "Zed".to_string(), 2);
    map.push(path("src/A.sol"), "Alpha".to_string(), 3);
    map.push(path("src//B.sol"), "Token".to_string(), 4);
    map.push(path("src/C.sol"), "Token".to_string(), 5);
    map
}

#[test]
fn texts_are_ordered_as_strings() {
    for a in ["", "a", "ab", "b", "é", "z", "Z", "\u{10000}", "\u{ffff}"] {
        for b in ["", "a", "ab", "b", "é", "z", "Z", "\u{10000}", "\u{ffff}"] {
            let want = if a < b {
                Order::Less
            } else if a == b {
                Order::Same
            } else {
                Order::Greater
            };
            assert_eq!(text_order(a, b), want);
        }
    }
}

#[test]
fn sorted_map_behaves_as_btree_map() {
    let mut ours: SortedMap<String, u32> = SortedMap::new();
    let mut theirs: BTreeMap<String, u32> = BTreeMap::new();
    assert!(ours.is_empty());
    for (i, key) in ["m", "c", "x", "a", "c", "z", "m", "b"].into_iter().enumerate() {
        assert_eq!(ours.insert(key.to_string(), i as u32), theirs.insert(key.to_string(), i as u32));
    }
    assert_eq!(ours.remove_entry(&"c".to_string()), theirs.remove_entry("c"));
    assert_eq!(ours.remove_entry(&"q".to_string()), None);
    assert_eq!(ours.get(&"m".to_string()), theirs.get("m"));
    assert_eq!(ours.get(&"c".to_string()), None);
    assert_eq!(ours.len(), theirs.len());
    assert_eq!(ours.at(0), (&"a".to_string(), &3));
    let copy = ours.clone();
    assert_eq!(copy, ours);
    let ours: Vec<(String, u32)> = ours.into_entries();
    let theirs: Vec<(String, u32)> = theirs.into_iter().collect();
    assert_eq!(ours, theirs);
}

#[test]
fn collecting_keeps_the_last_value() {
    let entries = vec![("b".to_string(), 1u32), ("a".to_string(), 2), ("b".to_string(), 3)];
    let map = SortedMap::collect(entries);
    assert_eq!(map.into_entries(), vec![("a".to_string(), 2), ("b".to_string(), 3)]);
}

#[test]
fn values_are_mapped_in_place() {
    let map = SortedMap::collect(vec![("b".to_string(), 1u32), ("a".to_string(), 2)]);
    let map: SortedMap<String, u32> = map.map_values(|v| v * 10);
    assert_eq!(map.into_entries(), vec![("a".to_string(), 20), ("b".to_string(), 10)]);
}

#[test]
fn items_come_by_path_and_name() {
    let want = vec![
        item("src/A.sol", "Alpha", 3),
        item("src/A.sol", "Zed", 2),
        item("src/B.sol", "Token", 1),
        item("src/B.sol", "Token", 4),
        item("src/C.sol", "Token", 5),
    ];
    assert_eq!(texts(&sample()), want);
    let owned: Vec<(String, String, u32)> =
        sample().into_items().into_iter().map(|(p, n, t)| (p.to_text(), n, t)).collect();
    assert_eq!(owned, want);
}

#[test]
fn first_is_looked_up_by_file_or_anywhere() {
    let map = sample();
    assert_eq!(map.first(&path("src/./B.sol"), "Token"), Some(&1));
    assert_eq!(map.first(&path("src/A.sol"), "Token"), None);
    assert_eq!(map.first(&path("src/D.sol"), "Token"), None);
    assert_eq!(map.first_named("Token"), Some(&1));
    assert_eq!(map.first_named("Alpha"), Some(&3));
    assert_eq!(map.first_named("Nope"), None);
}

#[test]
fn taking_touches_one_list() {
    let mut map = sample();
    assert_eq!(map.take(&path("src/B.sol"), "Token", Prune::Files), Some(1));
    assert_eq!(map.first(&path("src/B.sol"), "Token"), Some(&4));
    assert_eq!(map.first(&path("src/C.sol"), "Token"), Some(&5));
    assert_eq!(map.take_named("Token", Prune::Names), Some(4));
    assert_eq!(map.take_named("Token", Prune::Names), Some(5));
    assert_eq!(map.take_named("Token", Prune::Names), None);
    assert_eq!(texts(&map), vec![item("src/A.sol", "Alpha", 3), item("src/A.sol", "Zed", 2)]);
}

#[test]
fn what_goes_with_the_last_item() {
    let mut one: FileMap<u32> = FileMap::new();
    one.push(path("a"), "N".to_string(), 7);
    let mut files = one.clone();
    assert_eq!(files.take(&path("a"), "N", Prune::Files), Some(7));
    assert!(files.is_empty());
    let mut names = one.clone();
    assert_eq!(names.take(&path("a"), "N", Prune::Names), Some(7));
    assert!(!names.is_empty());
    let mut nothing = one.clone();
    assert_eq!(nothing.take(&path("a"), "N", Prune::Nothing), Some(7));
    assert!(!nothing.is_empty());
    assert_eq!(nothing.take(&path("a"), "N", Prune::Nothing), None);
    assert_ne!(names, nothing);
}

#[test]
fn a_file_without_names_counts() {
    let mut map: FileMap<u32> = FileMap::new();
    assert!(map.is_empty());
    map.add_file(path("a"));
    assert!(!map.is_empty());
    assert!(map.items().is_empty());
}

#[test]
fn changing_paths_and_back() {
    let mut map = sample();
    let root = path("/root");
    map.repath(&PathChange::Join(&root));
    assert_eq!(map.first(&path("/root/src/A.sol"), "Zed"), Some(&2));
    assert_eq!(map.first(&path("src/A.sol"), "Zed"), None);
    map.repath(&PathChange::Strip(&root));
    assert_eq!(map, sample());
}

#[test]
fn of_files_that_come_to_one_path_the_later_stays() {
    let files = SortedMap::collect(vec![(path("lib/x"), 1u32), (path("x"), 2)]);
    let lib = path("lib");
    let files = repath(files, &PathChange::Strip(&lib));
    assert_eq!(files.into_entries(), vec![(path("x"), 2)]);
}

#[test]
fn info_is_read_back() {
    let info = ContractInfoRef::new("src/Greeter.sol:Greeter");
    assert_eq!(info, ContractInfoRef { path: Some("src/Greeter.sol"), name: "Greeter" });
    let info = ContractInfoRef::new("Greeter");
    assert_eq!(info, ContractInfoRef { path: None, name: "Greeter" });
    let info = ContractInfoRef::new("C:/src/A.sol:A");
    assert_eq!(info, ContractInfoRef { path: Some("C:/src/A.sol"), name: "A" });
    let info = ContractInfoRef::new(":");
    assert_eq!(info, ContractInfoRef { path: Some(""), name: "" });
}

#[test]
fn files_go_in_and_out() {
    let map = sample();
    let files = map.clone().into_files();
    assert_eq!(files.len(), 3);
    let (first, names) = files.at(0);
    assert_eq!(first.to_text(), "src/A.sol");
    assert_eq!(names.get(&"Zed".to_string()), Some(&vec![2]));
    assert_eq!(FileMap::of(files), map);
}

#[test]
fn a_key_keeps_its_first_spelling() {
    let mut map: FileMap<u32> = FileMap::new();
    map.push(path("src//A.sol"), "A".to_string(), 1);
    map.push(path("src/A.sol"), "A".to_string(), 2);
    map.add_file(path("src/./A.sol"));
    assert_eq!(texts(&map), vec![item("src//A.sol", "A", 1), item("src//A.sol", "A", 2)]);
    assert_eq!(map.take(&path("src/A.sol"), "A", Prune::Files), Some(1));
    assert_eq!(texts(&map.clone()), vec![item("src//A.sol", "A", 2)]);
}

#[test]
fn collecting_keeps_the_last_spelling() {
    let map = SortedMap::collect(vec![(path("a//b"), 1u32), (path("a/b"), 2), (path("a/./b"), 3)]);
    assert_eq!(map.len(), 1);
    assert_eq!(map.at(0).0.to_text(), "a/./b");
    assert_eq!(map.at(0).1, &3);
}
