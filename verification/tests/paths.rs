use resolc_output::path::{PathPart, SourcePath};
use resolc_output::sorted_map::SortKey;
use resolc_output::order::Order;
use std::path::Path;

const TEXTS: [&str; 40] = [
    "", "/", ".", "..", "a", "/a", "a/b", "a//b", "a/./b", "a/b/", "./a", "./a/./b", "../a", "a/..",
    "/..", "//a", "/.", "./.", "a/b/c.t.sol", "src/.hidden", "src/x.tar.gz", "src/..x", "!a", "A/b",
    "a/", "a//", "a/.", "a/./", "a/.//.", "a/b/.", "a//b//c", "a/./b//c/", "//", "/./", "/.//a/", ".//a/.",
    "./", "././", "../", "a/../b/./",
];

#[test]
fn components_are_those_of_std() {
    for text in TEXTS {
        let path = SourcePath::new(text);
        let std_text: String = Path::new(text).components().as_path().to_str().unwrap().to_string();
        let again = Path::new(&path.to_text()).to_path_buf();
        assert_eq!(again.as_path(), Path::new(text), "{text}");
        assert_eq!(Path::new(&std_text), again.as_path());
    }
}

#[test]
fn equality_and_order_are_those_of_std() {
    for a in TEXTS {
        for b in TEXTS {
            let x = SourcePath::new(a);
            let y = SourcePath::new(b);
            assert_eq!(x.same(&y), Path::new(a) == Path::new(b), "{a} {b}");
            assert_eq!(x == y, Path::new(a) == Path::new(b), "{a} {b}");
            let less = x.order(&y) == Order::Less;
            assert_eq!(less, Path::new(a) < Path::new(b), "{a} {b}");
        }
    }
}

#[test]
fn prefixes_are_those_of_std() {
    for a in TEXTS {
        for b in TEXTS {
            let x = SourcePath::new(a);
            let y = SourcePath::new(b);
            assert_eq!(x.starts_with(&y), Path::new(a).starts_with(b), "{a} {b}");
            let stripped = Path::new(a).strip_prefix(b).unwrap_or(Path::new(a));
            assert_eq!(x.stripped(&y).to_text(), stripped.to_str().unwrap(), "{a} {b}");
        }
    }
}

#[test]
fn joins_are_those_of_std() {
    for a in TEXTS {
        for b in TEXTS {
            let joined = SourcePath::new(a).join(&SourcePath::new(b));
            assert_eq!(joined.to_text(), Path::new(a).join(b).to_str().unwrap(), "{a} {b}");
        }
    }
}

#[test]
fn stems_are_those_of_std() {
    for a in TEXTS {
        let stem: Option<String> = Path::new(a).file_stem().map(|s| s.to_str().unwrap().to_string());
        assert_eq!(SourcePath::new(a).file_stem(), stem, "{a}");
    }
}

#[test]
fn prefix_is_by_component() {
    let path = SourcePath::new("lib/ds-test/src/test.sol");
    assert!(path.starts_with(&SourcePath::new("lib/ds-test")));
    assert!(!path.starts_with(&SourcePath::new("lib/ds")));
}

#[test]
fn spelling_is_kept() {
    for text in TEXTS {
        assert_eq!(SourcePath::new(text).to_text(), text);
        assert_eq!(SourcePath::new(text).clone().to_text(), text);
    }
    assert_eq!(SourcePath::new("src//A.sol"), SourcePath::new("src/./A.sol"));
    let under = SourcePath::new("lib//x/./A.sol/").stripped(&SourcePath::new("lib"));
    assert_eq!(under.to_text(), "x/./A.sol");
    assert_eq!(SourcePath::new("src\\.\\\\A.sol").slashed().to_text(), "src/.//A.sol");
}

#[test]
fn strip_undoes_join() {
    let root = SourcePath::new("/home/project");
    let path = SourcePath::new("src/A.sol");
    let under = root.join(&path);
    assert_eq!(under.to_text(), "/home/project/src/A.sol");
    assert!(under.starts_with(&root));
    assert_eq!(under.stripped(&root), path);
    assert_eq!(root.join(&under.stripped(&root)), under);
}

#[test]
fn strip_does_not_undo_join_of_current_directory() {
    let root = SourcePath::new("root");
    let path = SourcePath::new("./a");
    assert_eq!(root.join(&path).stripped(&root), SourcePath::new("a"));
}

#[test]
fn slashing_splits_components_and_is_done_once() {
    let path = SourcePath::new("src\\token\\A.sol");
    let slashed = path.slashed();
    assert_eq!(slashed.to_text(), "src/token/A.sol");
    assert!(slashed.starts_with(&SourcePath::new("src/token")));
    assert!(!path.starts_with(&SourcePath::new("src")));
    assert_eq!(slashed.slashed(), slashed);
    assert_eq!(SourcePath::new("\\a").slashed().to_text(), "/a");
}

#[test]
fn parts_are_told_apart() {
    assert_ne!(PathPart::CurDir, PathPart::ParentDir);
    assert_eq!(PathPart::Normal("a".to_string()), PathPart::Normal("a".to_string()));
}
