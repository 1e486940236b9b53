//! Changes to the paths by which a map is keyed.

use vstd::prelude::*;
use crate::path::{joined, joined_text, law_join_by_components, law_slashed_once, law_strip_by_components, law_strip_undoes_join, path_parts, relative, slashed_text, stripped, stripped_text, Part, SourcePath};
use crate::sorted_map::{collected, lemma_collected, pairs, written_keys, SortedMap};

verus! {

/// A change that every path of a map goes through.
pub enum PathChange<'a> {
    /// Join the path to a root.
    Join(&'a SourcePath),
    /// Take a base from the front of the path.
    Strip(&'a SourcePath),
    /// Write `/` for every `\`.
    Slash,
}

/// What a change does.
pub enum Change {
    Join(Seq<char>),
    Strip(Seq<char>),
    Slash,
}

impl<'a> View for PathChange<'a> {
    type V = Change;

    open spec fn view(&self) -> Change {
        match self {
            PathChange::Join(root) => Change::Join(root@),
            PathChange::Strip(base) => Change::Strip(base@),
            PathChange::Slash => Change::Slash,
        }
    }
}

/// The text of a path after a change.
pub open spec fn changed(change: Change, text: Seq<char>) -> Seq<char> {
    match change {
        Change::Join(root) => joined_text(root, text),
        Change::Strip(base) => stripped_text(text, base),
        Change::Slash => slashed_text(text),
    }
}

/// The files with changed paths.
pub open spec fn changed_files<V>(files: Seq<(Seq<char>, V)>, change: Change) -> Seq<
    (Seq<char>, V),
> {
    files.map_values(|f: (Seq<char>, V)| (changed(change, f.0), f.1))
}

/// The files by what their paths name.
pub open spec fn by_path<V>(files: Seq<(Seq<char>, V)>) -> Seq<(Seq<Part>, V)> {
    files.map_values(|f: (Seq<char>, V)| (path_parts(f.0), f.1))
}

/// The paths of files, each with how it is written.
pub open spec fn spellings<V>(files: Seq<(Seq<char>, V)>) -> Seq<(Seq<Part>, Seq<char>)> {
    files.map_values(|f: (Seq<char>, V)| (path_parts(f.0), f.0))
}

/// The map that files make after a change of their paths. Where two files come to have one path,
/// the later of them stays.
pub open spec fn repathed<V>(files: Seq<(Seq<char>, V)>, change: Change) -> Map<Seq<Part>, V> {
    collected(by_path(changed_files(files, change)))
}

/// How the paths are written after a change. Where two files come to have one path, it is written
/// as that of the later file.
pub open spec fn respelled<V>(files: Seq<(Seq<char>, V)>, change: Change) -> Map<
    Seq<Part>,
    Seq<char>,
> {
    collected(spellings(changed_files(files, change)))
}

/// The entries of a map with their paths as they are written.
pub open spec fn written_files<V>(entries: Seq<(SourcePath, V)>) -> Seq<(Seq<char>, V)> {
    entries.map_values(|e: (SourcePath, V)| (e.0@, e.1))
}

impl<'a> PathChange<'a> {
    /// The path after this change.
    pub fn apply(&self, path: &SourcePath) -> (r: SourcePath)
        ensures
            r.wf(),
            r@ == changed(self@, path@),
    {
        match self {
            PathChange::Join(root) => root.join(path),
            PathChange::Strip(base) => path.stripped(base),
            PathChange::Slash => path.slashed(),
        }
    }
}

/// The map with every path changed.
pub fn repath<V>(files: SortedMap<SourcePath, V>, change: &PathChange) -> (r: SortedMap<
    SourcePath,
    V,
>)
    ensures
        r.wf(),
        r@ == repathed(written_files(files.entries()), change@),
        r.spelled() == respelled(written_files(files.entries()), change@),
{
    let ghost before = written_files(files.entries());
    let ghost target = changed_files(before, change@);
    let entries: Vec<(SourcePath, V)> = files.into_entries();
    let ghost es = entries@;
    let mut out: Vec<(SourcePath, V)> = Vec::new();
    for entry in it: entries
        invariant
            it.seq() == es,
            before == written_files(es),
            target == changed_files(before, change@),
            written_files(out@) == target.take(it.index() as int),
    {
        let (path, value): (SourcePath, V) = entry;
        let ghost was = out@;
        out.push((change.apply(&path), value));
        assert(written_files(out@) =~= written_files(was).push((out@.last().0@, value)));
        assert(target.take(it.index() + 1) =~= target.take(it.index() as int).push(
            target[it.index() as int],
        ));
    }
    assert(target.take(target.len() as int) =~= target);
    assert(pairs(out@) =~= by_path(written_files(out@)));
    assert(pairs(written_keys(out@)) =~= spellings(written_files(out@)));
    SortedMap::collect(out)
}

/// Collecting and then mapping the values gives what mapping and then collecting gives.
pub proof fn lemma_collected_values<A, V, W>(pairs: Seq<(A, V)>, f: spec_fn(V) -> W)
    ensures
        collected(pairs).map_values(f) == collected(pairs.map_values(|p: (A, V)| (p.0, f(p.1)))),
    decreases pairs.len(),
{
    let mapped = pairs.map_values(|p: (A, V)| (p.0, f(p.1)));
    if pairs.len() > 0 {
        lemma_collected_values(pairs.drop_last(), f);
        assert(pairs.drop_last().map_values(|p: (A, V)| (p.0, f(p.1))) =~= mapped.drop_last());
    }
    assert(collected(pairs).map_values(f) =~= collected(mapped));
}

/// Whether no path occurs twice.
pub open spec fn distinct<V>(files: Seq<(Seq<char>, V)>) -> bool {
    forall|i: int, j: int|
        0 <= i < j < files.len() ==> path_parts((#[trigger] files[i]).0) != path_parts(
            (#[trigger] files[j]).0,
        )
}

proof fn lemma_distinct_value<V>(files: Seq<(Seq<char>, V)>, i: int)
    requires
        distinct(files),
        0 <= i < files.len(),
    ensures
        collected(by_path(files)).contains_key(path_parts(files[i].0)),
        collected(by_path(files))[path_parts(files[i].0)] == files[i].1,
{
    let all = by_path(files);
    lemma_collected(all);
    let path = path_parts(files[i].0);
    assert(all[i].0 == path);
    assert(collected(all).contains_key(path));
    let k = choose|k: int|
        #![trigger all[k]]
        0 <= k < all.len() && all[k] == (path, collected(all)[path]) && (forall|j: int|
            k < j < all.len() ==> (#[trigger] all[j]).0 != path);
    assert(path_parts(files[k].0) == path);
    assert(k == i);
}

/// Files at relative paths that were joined to a root are the same files again when the root is
/// stripped from their paths.
pub proof fn law_strip_undoes_join_of_files<V>(
    files: Seq<(Seq<char>, V)>,
    under_root: Seq<(Seq<char>, V)>,
    root: Seq<char>,
)
    requires
        distinct(files),
        distinct(under_root),
        forall|i: int| 0 <= i < files.len() ==> relative(path_parts((#[trigger] files[i]).0)),
        collected(by_path(under_root)) == repathed(files, Change::Join(root)),
    ensures
        repathed(under_root, Change::Strip(root)) == collected(by_path(files)),
{
    let joins = by_path(changed_files(files, Change::Join(root)));
    let strips = by_path(changed_files(under_root, Change::Strip(root)));
    let here = by_path(files);
    let there = by_path(under_root);
    let base = path_parts(root);
    lemma_collected(here);
    lemma_collected(there);
    lemma_collected(joins);
    lemma_collected(strips);
    let after = collected(strips);
    let want = collected(here);
    assert forall|a: int| 0 <= a < files.len() implies (#[trigger] joins[a]).0 == joined(
        base,
        here[a].0,
    ) by {
        law_join_by_components(root, files[a].0);
    }
    assert forall|i: int| 0 <= i < under_root.len() implies (#[trigger] strips[i]).0 == stripped(
        there[i].0,
        base,
    ) by {
        law_strip_by_components(under_root[i].0, root);
    }
    assert forall|path: Seq<Part>| #[trigger] after.contains_key(path) implies want.contains_key(
        path,
    ) && want[path] == after[path] by {
        let i = choose|i: int|
            #![trigger strips[i]]
            0 <= i < strips.len() && strips[i] == (path, after[path]) && (forall|j: int|
                i < j < strips.len() ==> (#[trigger] strips[j]).0 != path);
        let long = there[i].0;
        lemma_distinct_value(under_root, i);
        assert(collected(joins).contains_key(long));
        let a = choose|a: int|
            #![trigger joins[a]]
            0 <= a < joins.len() && joins[a] == (long, collected(joins)[long]) && (forall|j: int|
                a < j < joins.len() ==> (#[trigger] joins[j]).0 != long);
        assert(relative(path_parts(files[a].0)));
        law_strip_undoes_join(base, here[a].0);
        assert(here[a].0 == path);
        lemma_distinct_value(files, a);
    }
    assert forall|path: Seq<Part>| #[trigger] want.contains_key(path) implies after.contains_key(
        path,
    ) by {
        let a = choose|a: int|
            #![trigger here[a]]
            0 <= a < here.len() && here[a] == (path, want[path]) && (forall|j: int|
                a < j < here.len() ==> (#[trigger] here[j]).0 != path);
        assert(relative(path_parts(files[a].0)));
        law_strip_undoes_join(base, path);
        assert(joins[a].0 == joined(base, path));
        assert(collected(there).contains_key(joined(base, path)));
        let i = choose|i: int|
            #![trigger there[i]]
            0 <= i < there.len() && there[i] == (
                joined(base, path),
                collected(there)[joined(base, path)],
            ) && (forall|j: int|
                i < j < there.len() ==> (#[trigger] there[j]).0 != joined(base, path));
        assert(strips[i].0 == path);
    }
    assert(after =~= want);
}

/// Where no two files come to have one path, a change of the paths loses nothing: every file is
/// found under its new path.
pub proof fn law_repath_loses_nothing<V>(files: Seq<(Seq<char>, V)>, change: Change)
    requires
        distinct(changed_files(files, change)),
    ensures
        forall|i: int|
            0 <= i < files.len() ==> repathed(files, change).contains_key(
                path_parts(changed(change, (#[trigger] files[i]).0)),
            ) && repathed(files, change)[path_parts(changed(change, files[i].0))] == files[i].1,
{
    let next = changed_files(files, change);
    assert forall|i: int| 0 <= i < files.len() implies repathed(files, change).contains_key(
        path_parts(changed(change, (#[trigger] files[i]).0)),
    ) && repathed(files, change)[path_parts(changed(change, files[i].0))] == files[i].1 by {
        lemma_distinct_value(next, i);
        assert(next[i] == (changed(change, files[i].0), files[i].1));
    }
}

/// Files whose paths were slashed stay as they are when their paths are slashed once more.
pub proof fn law_slash_of_files_once<V>(
    files: Seq<(Seq<char>, V)>,
    slashed_once: Seq<(Seq<char>, V)>,
)
    requires
        distinct(slashed_once),
        collected(spellings(slashed_once)) == respelled(files, Change::Slash),
    ensures
        changed_files(slashed_once, Change::Slash) == slashed_once,
        repathed(slashed_once, Change::Slash) == collected(by_path(slashed_once)),
        respelled(slashed_once, Change::Slash) == collected(spellings(slashed_once)),
{
    let first = spellings(changed_files(files, Change::Slash));
    let again = changed_files(slashed_once, Change::Slash);
    let written = spellings(slashed_once);
    lemma_collected(first);
    lemma_collected(written);
    assert forall|i: int| 0 <= i < again.len() implies #[trigger] again[i] == slashed_once[i] by {
        let text = slashed_once[i].0;
        let path = path_parts(text);
        assert(written[i] == (path, text));
        assert(collected(written).contains_key(path));
        let k = choose|k: int|
            #![trigger written[k]]
            0 <= k < written.len() && written[k] == (path, collected(written)[path]) && (forall|
                j: int,
            |
                k < j < written.len() ==> (#[trigger] written[j]).0 != path);
        assert(path_parts(slashed_once[k].0) == path);
        assert(k == i);
        assert(collected(first).contains_key(path));
        let a = choose|a: int|
            #![trigger first[a]]
            0 <= a < first.len() && first[a] == (path, collected(first)[path]) && (forall|j: int|
                a < j < first.len() ==> (#[trigger] first[j]).0 != path);
        assert(text == slashed_text(files[a].0));
        law_slashed_once(files[a].0);
    }
    assert(again =~= slashed_once);
}

} // verus!
