//! What the operations on listings do, said of the lists themselves.

use vstd::prelude::*;
use crate::file_map::{files_cloned, law_listing, list_of, listed, name_lists, names_of, owned, pushed, seen, without_first, FileMap, Names, Prune};
use crate::path::{joined_text, path_parts, slashed_text, stripped_text, Part, SourcePath};
use crate::path_map::{by_path, changed, changed_files, repathed, respelled, spellings, Change};
use crate::sorted_map::{ascending, ascending_pairs, before, collected, holds_at, lemma_before, lemma_collected, lemma_lookup, lemma_spelling, pairs, spelled_with, to_map, written_keys, SortKey, SortedMap};
use crate::sources::{law_source_listing, sources_at, sources_cloned, VersionedSourceFile, VersionedSourceFiles};

verus! {

/// What a map of files has under a name in a file, looked up step by step.
pub open spec fn entry_at<T>(
    files: Map<Seq<Part>, Names<T>>,
    path: Seq<Part>,
    name: Seq<char>,
) -> Seq<T> {
    if files.contains_key(path) && files[path].contains_key(name) {
        files[path][name]
    } else {
        Seq::empty()
    }
}

/// What is listed is what the map has, whole and in its order.
pub proof fn law_listed<T>(files: Map<Seq<Part>, Names<T>>, path: Seq<Part>, name: Seq<char>)
    ensures
        listed(files, path, name) == entry_at(files, path, name),
        files.contains_key(path) ==> names_of(files, path) == files[path],
        !files.contains_key(path) ==> names_of(files, path) == Map::<Seq<char>, Seq<T>>::empty(),
        files.contains_key(path) ==> list_of(files[path], name) == entry_at(files, path, name),
{
}

/// What is listed of sources is what the map has, whole and in its order.
pub proof fn law_sources_at(files: Map<Seq<Part>, Seq<VersionedSourceFile>>, path: Seq<Part>)
    ensures
        files.contains_key(path) ==> sources_at(files, path) == files[path],
        !files.contains_key(path) ==> sources_at(files, path).len() == 0,
{
}

/// Appending an item makes one list longer by that item, at its end, and leaves every other list as
/// it is. No file and no name appears but those of the item, and none goes.
pub proof fn law_pushed<T>(
    files: Map<Seq<Part>, Names<T>>,
    path: Seq<Part>,
    name: Seq<char>,
    item: T,
    other_path: Seq<Part>,
    other_name: Seq<char>,
)
    ensures
        ({
            let after = pushed(files, path, name, item);
            &&& entry_at(after, path, name) == entry_at(files, path, name).push(item)
            &&& (other_path != path || other_name != name) ==> entry_at(
                after,
                other_path,
                other_name,
            ) == entry_at(files, other_path, other_name)
            &&& after.contains_key(other_path) <==> files.contains_key(other_path) || other_path
                == path
            &&& (after.contains_key(other_path) && after[other_path].contains_key(other_name)) <==> (
            files.contains_key(other_path) && files[other_path].contains_key(other_name)) || (
            other_path == path && other_name == name)
        }),
{
}

/// Taking the first item of a list leaves the rest of that list in its order and every other list
/// as it is. The name goes with its last item unless nothing is pruned; the file goes only where
/// files are pruned and no other name is left in it.
pub proof fn law_without_first<T>(
    files: Map<Seq<Part>, Names<T>>,
    path: Seq<Part>,
    name: Seq<char>,
    prune: Prune,
    other_path: Seq<Part>,
    other_name: Seq<char>,
)
    ensures
        ({
            let after = without_first(files, path, name, prune);
            let list = entry_at(files, path, name);
            let had = files.contains_key(path) && files[path].contains_key(name);
            let name_goes = had && prune != Prune::Nothing && list.len() <= 1;
            let file_goes = prune == Prune::Files && files.contains_key(path) && (forall|n: Seq<
                char,
            >| #[trigger]
                files[path].contains_key(n) ==> n == name && name_goes);
            &&& list.len() > 0 ==> entry_at(after, path, name) == list.subrange(
                1,
                list.len() as int,
            )
            &&& list.len() == 0 ==> entry_at(after, path, name).len() == 0
            &&& (other_path != path || other_name != name) ==> entry_at(
                after,
                other_path,
                other_name,
            ) == entry_at(files, other_path, other_name)
            &&& after.contains_key(other_path) <==> files.contains_key(other_path) && !(other_path
                == path && file_goes)
            &&& (after.contains_key(other_path) && after[other_path].contains_key(other_name)) <==> (
            files.contains_key(other_path) && files[other_path].contains_key(other_name)) && !(
            other_path == path && other_name == name && name_goes)
        }),
{
    let after = without_first(files, path, name, prune);
    let list = entry_at(files, path, name);
    if files.contains_key(path) {
        let names = crate::file_map::names_without(files[path], name, prune);
        assert forall|n: Seq<char>| #[trigger] names.contains_key(n) <==> files[path].contains_key(n)
            && !(n == name && prune != Prune::Nothing && list.len() <= 1) by {}
        if list.len() > 0 {
            assert(list.drop_first() =~= list.subrange(1, list.len() as int));
        }
        if names.dom().is_empty() {
            assert forall|n: Seq<char>| !(#[trigger] names.contains_key(n)) by {
                assert(!names.dom().contains(n));
            }
            assert forall|n: Seq<char>| #[trigger] files[path].contains_key(n) implies n == name
                && prune != Prune::Nothing && list.len() <= 1 by {
                assert(!names.contains_key(n));
            }
        } else {
            let n = names.dom().choose();
            assert(names.contains_key(n));
            assert(files[path].contains_key(n));
        }
    }
}

/// A key that is there keeps its spelling, and a new one is spelled as it comes.
pub proof fn law_spelled_with<A>(spelled: Map<A, Seq<char>>, key: A, written: Seq<char>, other: A)
    ensures
        ({
            let after = spelled_with(spelled, key, written);
            &&& after.contains_key(other) <==> spelled.contains_key(other) || other == key
            &&& spelled.contains_key(other) ==> after[other] == spelled[other]
            &&& !spelled.contains_key(key) ==> after[key] == written
        }),
{
}

/// What each change makes of the text of a path.
pub proof fn law_changed(root: Seq<char>, text: Seq<char>)
    ensures
        changed(Change::Join(root), text) == joined_text(root, text),
        changed(Change::Strip(root), text) == stripped_text(text, root),
        changed(Change::Slash, text) == slashed_text(text),
{
}

/// Whether the file at place `i` comes to have the given path, and no later file does.
pub open spec fn last_to_have<V>(
    files: Seq<(Seq<char>, V)>,
    change: Change,
    path: Seq<Part>,
    i: int,
) -> bool {
    &&& 0 <= i < files.len()
    &&& path_parts(changed(change, files[i].0)) == path
    &&& forall|j: int|
        i < j < files.len() ==> path_parts(changed(change, (#[trigger] files[j]).0)) != path
}

/// After a change of the paths every file is at its new path, unless a later file came to have the
/// same; and there is nothing else. Each path is written as that of the file that is there.
pub proof fn law_repathed<V>(files: Seq<(Seq<char>, V)>, change: Change, path: Seq<Part>)
    ensures
        repathed(files, change).contains_key(path) <==> exists|i: int|
            0 <= i < files.len() && path_parts(changed(change, (#[trigger] files[i]).0)) == path,
        respelled(files, change).contains_key(path) <==> repathed(files, change).contains_key(path),
        forall|i: int| #[trigger]
            last_to_have(files, change, path, i) ==> repathed(files, change)[path] == files[i].1
                && respelled(files, change)[path] == changed(change, files[i].0),
        repathed(files, change).contains_key(path) ==> exists|i: int| #[trigger]
            last_to_have(files, change, path, i),
{
    let moved = changed_files(files, change);
    let ps = by_path(moved);
    let ws = spellings(moved);
    lemma_collected(ps);
    lemma_collected(ws);
    assert forall|i: int| 0 <= i < files.len() implies #[trigger] ps[i] == (
        path_parts(changed(change, files[i].0)),
        files[i].1,
    ) && ws[i] == (path_parts(changed(change, files[i].0)), changed(change, files[i].0)) by {
        assert(moved[i] == (changed(change, files[i].0), files[i].1));
    }
    if repathed(files, change).contains_key(path) {
        let k = choose|k: int|
            #![trigger ps[k]]
            0 <= k < ps.len() && ps[k] == (path, collected(ps)[path]) && (forall|j: int|
                k < j < ps.len() ==> (#[trigger] ps[j]).0 != path);
        assert forall|j: int| k < j < files.len() implies path_parts(
            changed(change, (#[trigger] files[j]).0),
        ) != path by {
            assert(ps[j].0 != path);
        }
        assert(last_to_have(files, change, path, k));
        assert(ws[k].0 == path);
        assert(collected(ws).contains_key(path));
    }
    if respelled(files, change).contains_key(path) {
        let k = choose|k: int|
            #![trigger ws[k]]
            0 <= k < ws.len() && ws[k] == (path, collected(ws)[path]) && (forall|j: int|
                k < j < ws.len() ==> (#[trigger] ws[j]).0 != path);
        assert(ps[k].0 == path);
    }
    assert forall|i: int| #[trigger] last_to_have(files, change, path, i) implies repathed(
        files,
        change,
    )[path] == files[i].1 && respelled(files, change)[path] == changed(change, files[i].0) by {
        assert(ps[i].0 == path);
        assert(collected(ps).contains_key(path));
        let k = choose|k: int|
            #![trigger ps[k]]
            0 <= k < ps.len() && ps[k] == (path, collected(ps)[path]) && (forall|j: int|
                k < j < ps.len() ==> (#[trigger] ps[j]).0 != path);
        if k < i {
            assert(ps[i].0 != path);
        } else if i < k {
            assert(path_parts(changed(change, files[k].0)) != path);
        }
        assert(ws[i].0 == path);
        assert(collected(ws).contains_key(path));
        let l = choose|l: int|
            #![trigger ws[l]]
            0 <= l < ws.len() && ws[l] == (path, collected(ws)[path]) && (forall|j: int|
                l < j < ws.len() ==> (#[trigger] ws[j]).0 != path);
        if l < i {
            assert(ws[i].0 != path);
        } else if i < l {
            assert(path_parts(changed(change, files[l].0)) != path);
        }
    }
    if exists|i: int|
        0 <= i < files.len() && path_parts(changed(change, (#[trigger] files[i]).0)) == path {
        let i = choose|i: int|
            0 <= i < files.len() && path_parts(changed(change, (#[trigger] files[i]).0)) == path;
        assert(ps[i].0 == path);
    }
}

/// Items that are handed out stand for their path as it is written, their name and themselves.
pub proof fn law_items_stand_for<'a, T>(
    borrowed: Seq<(&'a SourcePath, &'a String, &'a T)>,
    moved: Seq<(SourcePath, String, T)>,
)
    ensures
        seen(borrowed).len() == borrowed.len(),
        forall|i: int|
            0 <= i < borrowed.len() ==> #[trigger] seen(borrowed)[i] == (
                borrowed[i].0@,
                borrowed[i].1@,
                *borrowed[i].2,
            ),
        owned(moved).len() == moved.len(),
        forall|i: int|
            0 <= i < moved.len() ==> #[trigger] owned(moved)[i] == (
                moved[i].0@,
                moved[i].1@,
                moved[i].2,
            ),
{
}

/// A sorted map has the key of every entry, with its value and its spelling, and no other key.
pub proof fn law_map_of_entries<K: SortKey, V>(entries: Seq<(K, V)>, key: K::Key)
    requires
        ascending(entries),
    ensures
        to_map(entries).contains_key(key) <==> exists|i: int|
            0 <= i < entries.len() && (#[trigger] entries[i]).0.key() == key,
        to_map(written_keys(entries)).contains_key(key) <==> to_map(entries).contains_key(key),
        forall|i: int|
            0 <= i < entries.len() && (#[trigger] entries[i]).0.key() == key ==> to_map(
                entries,
            )[key] == entries[i].1 && to_map(written_keys(entries))[key] == entries[i].0.written(),
{
    lemma_spelling(entries);
    assert(to_map(written_keys(entries)).dom().contains(key) <==> to_map(entries).dom().contains(
        key,
    ));
    if to_map(entries).contains_key(key) {
        let i = choose|i: int| holds_at(entries, i, key);
        assert(entries[i].0.key() == key);
    }
    assert forall|i: int| 0 <= i < entries.len() && (#[trigger] entries[i]).0.key() == key implies to_map(
        entries,
    )[key] == entries[i].1 && to_map(written_keys(entries))[key] == entries[i].0.written()
        && to_map(entries).contains_key(key) by {
        lemma_lookup(entries, i);
    }
}

/// Cloning files keeps every file and every name, and every list with its length; each item is a
/// clone of the one at its place.
pub proof fn law_files_cloned<T: Clone>(
    a: Map<Seq<Part>, Names<T>>,
    b: Map<Seq<Part>, Names<T>>,
    path: Seq<Part>,
    name: Seq<char>,
)
    requires
        files_cloned(a, b),
    ensures
        b.contains_key(path) <==> a.contains_key(path),
        (b.contains_key(path) && b[path].contains_key(name)) <==> (a.contains_key(path)
            && a[path].contains_key(name)),
        entry_at(b, path, name).len() == entry_at(a, path, name).len(),
        forall|i: int|
            0 <= i < entry_at(b, path, name).len() ==> cloned(
                entry_at(a, path, name)[i],
                #[trigger] entry_at(b, path, name)[i],
            ),
{
    assert(b.contains_key(path) <==> a.contains_key(path));
    if b.contains_key(path) {
        assert(b[path].contains_key(name) <==> a[path].contains_key(name));
    }
}

/// Cloning source files keeps every path, and every list with its length; each source file is a
/// clone of the one at its place.
pub proof fn law_sources_cloned(
    a: Map<Seq<Part>, Seq<VersionedSourceFile>>,
    b: Map<Seq<Part>, Seq<VersionedSourceFile>>,
    path: Seq<Part>,
)
    requires
        sources_cloned(a, b),
    ensures
        b.contains_key(path) <==> a.contains_key(path),
        b.contains_key(path) ==> b[path].len() == a[path].len(),
        b.contains_key(path) ==> forall|i: int|
            0 <= i < b[path].len() ==> cloned(a[path][i], #[trigger] b[path][i]),
{
    assert(b.contains_key(path) <==> a.contains_key(path));
}

/// A sorted map holds what its entries hold: every key with its value, as it is written in its
/// entry, and no other key.
pub proof fn law_sorted_map<K: SortKey, V>(map: SortedMap<K, V>, key: K::Key)
    requires
        map.wf(),
    ensures
        map@.contains_key(key) <==> exists|i: int|
            0 <= i < map.entries().len() && (#[trigger] map.entries()[i]).0.key() == key,
        map.spelled().contains_key(key) <==> map@.contains_key(key),
        forall|i: int|
            0 <= i < map.entries().len() && (#[trigger] map.entries()[i]).0.key() == key
                ==> map@[key] == map.entries()[i].1 && map.spelled()[key]
                == map.entries()[i].0.written(),
        forall|i: int, j: int|
            0 <= i < j < map.entries().len() ==> before::<K>(
                (#[trigger] map.entries()[i]).0.key(),
                (#[trigger] map.entries()[j]).0.key(),
            ),
{
    law_map_of_entries(map.entries(), key);
}

/// What collecting gives: every key of the entries, with the value and the spelling of the last
/// entry that has it, and no other key.
pub proof fn law_collected<K: SortKey, V>(entries: Seq<(K, V)>, key: K::Key)
    ensures
        collected(pairs(entries)).contains_key(key) <==> exists|i: int|
            0 <= i < entries.len() && (#[trigger] entries[i]).0.key() == key,
        collected(pairs(written_keys(entries))).contains_key(key) <==> collected(
            pairs(entries),
        ).contains_key(key),
        forall|i: int|
            #![trigger entries[i]]
            0 <= i < entries.len() && entries[i].0.key() == key && (forall|j: int|
                i < j < entries.len() ==> (#[trigger] entries[j]).0.key() != key) ==> collected(
                pairs(entries),
            )[key] == entries[i].1 && collected(pairs(written_keys(entries)))[key]
                == entries[i].0.written(),
{
    let ps = pairs(entries);
    let ws = pairs(written_keys(entries));
    lemma_collected(ps);
    lemma_collected(ws);
    assert forall|i: int| 0 <= i < entries.len() implies #[trigger] ps[i] == (
        entries[i].0.key(),
        entries[i].1,
    ) && ws[i] == (entries[i].0.key(), entries[i].0.written()) by {
        assert(written_keys(entries)[i] == (entries[i].0, entries[i].0.written()));
    }
    if collected(ps).contains_key(key) {
        let k = choose|k: int|
            #![trigger ps[k]]
            0 <= k < ps.len() && ps[k] == (key, collected(ps)[key]) && (forall|j: int|
                k < j < ps.len() ==> (#[trigger] ps[j]).0 != key);
        assert(entries[k].0.key() == key);
        assert(ws[k].0 == key);
    }
    if collected(ws).contains_key(key) {
        let k = choose|k: int|
            #![trigger ws[k]]
            0 <= k < ws.len() && ws[k] == (key, collected(ws)[key]) && (forall|j: int|
                k < j < ws.len() ==> (#[trigger] ws[j]).0 != key);
        assert(ps[k].0 == key);
    }
    if exists|i: int| 0 <= i < entries.len() && (#[trigger] entries[i]).0.key() == key {
        let i = choose|i: int| 0 <= i < entries.len() && (#[trigger] entries[i]).0.key() == key;
        assert(ps[i].0 == key);
    }
    assert forall|i: int|
        #![trigger entries[i]]
        0 <= i < entries.len() && entries[i].0.key() == key && (forall|j: int|
            i < j < entries.len() ==> (#[trigger] entries[j]).0.key() != key) implies collected(
        ps,
    )[key] == entries[i].1 && collected(ws)[key] == entries[i].0.written() by {
        assert(ps[i].0 == key);
        assert(ws[i].0 == key);
        let k = choose|k: int|
            #![trigger ps[k]]
            0 <= k < ps.len() && ps[k] == (key, collected(ps)[key]) && (forall|j: int|
                k < j < ps.len() ==> (#[trigger] ps[j]).0 != key);
        if i < k {
            assert(entries[k].0.key() != key);
        }
        let l = choose|l: int|
            #![trigger ws[l]]
            0 <= l < ws.len() && ws[l] == (key, collected(ws)[key]) && (forall|j: int|
                l < j < ws.len() ==> (#[trigger] ws[j]).0 != key);
        if i < l {
            assert(entries[l].0.key() != key);
        }
    }
}

/// The lists of a file are those that its map has, name by name.
pub proof fn law_name_lists<T>(names: SortedMap<String, Vec<T>>, name: Seq<char>)
    ensures
        name_lists(names).contains_key(name) <==> names@.contains_key(name),
        names@.contains_key(name) ==> name_lists(names)[name] == names@[name]@,
{
}

/// A path is found by its components and keeps its text; a name is both.
pub proof fn law_keys(path: SourcePath, name: String)
    ensures
        path.parts() == path_parts(path@),
        path.key() == path_parts(path@),
        path.written() == path@,
        name.key() == name@,
        name.written() == name@,
{
}

/// The files of a map are listed once each, by ascending path, as their paths are written and with
/// all their names; and nothing else is listed.
pub proof fn law_files_are_listed_once<T>(map: FileMap<T>, path: Seq<Part>)
    requires
        map.wf(),
    ensures
        map@.contains_key(path) <==> exists|i: int|
            0 <= i < map.listing().len() && path_parts((#[trigger] map.listing()[i]).0) == path,
        forall|i: int|
            0 <= i < map.listing().len() && path_parts((#[trigger] map.listing()[i]).0) == path
                ==> map@[path] == map.listing()[i].1 && map.spelled()[path] == map.listing()[i].0,
        forall|i: int, j: int|
            0 <= i < j < map.listing().len() ==> before::<SourcePath>(
                path_parts((#[trigger] map.listing()[i]).0),
                path_parts((#[trigger] map.listing()[j]).0),
            ),
{
    law_listing(map);
    lemma_listed_once(map.listing(), path);
}

/// The source files are listed by ascending path, each path once, as it is written and with all its
/// source files; and nothing else is listed.
pub proof fn law_sources_are_listed_once(files: VersionedSourceFiles, path: Seq<Part>)
    requires
        files.wf(),
    ensures
        files@.contains_key(path) <==> exists|i: int|
            0 <= i < files.listing().len() && path_parts((#[trigger] files.listing()[i]).0) == path,
        forall|i: int|
            0 <= i < files.listing().len() && path_parts((#[trigger] files.listing()[i]).0) == path
                ==> files@[path] == files.listing()[i].1 && files.spelled()[path]
                == files.listing()[i].0,
        forall|i: int, j: int|
            0 <= i < j < files.listing().len() ==> before::<SourcePath>(
                path_parts((#[trigger] files.listing()[i]).0),
                path_parts((#[trigger] files.listing()[j]).0),
            ),
{
    law_source_listing(files);
    lemma_listed_once(files.listing(), path);
}

proof fn lemma_listed_once<V>(files: Seq<(Seq<char>, V)>, path: Seq<Part>)
    requires
        ascending_pairs::<SourcePath, V>(by_path(files)),
    ensures
        collected(by_path(files)).contains_key(path) <==> exists|i: int|
            0 <= i < files.len() && path_parts((#[trigger] files[i]).0) == path,
        forall|i: int|
            0 <= i < files.len() && path_parts((#[trigger] files[i]).0) == path ==> collected(
                by_path(files),
            )[path] == files[i].1 && collected(spellings(files))[path] == files[i].0,
        forall|i: int, j: int|
            0 <= i < j < files.len() ==> before::<SourcePath>(
                path_parts((#[trigger] files[i]).0),
                path_parts((#[trigger] files[j]).0),
            ),
{
    let ps = by_path(files);
    let ws = spellings(files);
    lemma_collected(ps);
    lemma_collected(ws);
    assert forall|i: int, j: int| 0 <= i < j < files.len() implies before::<SourcePath>(
        path_parts((#[trigger] files[i]).0),
        path_parts((#[trigger] files[j]).0),
    ) by {
        assert(before::<SourcePath>(ps[i].0, ps[j].0));
    }
    if collected(ps).contains_key(path) {
        let k = choose|k: int|
            #![trigger ps[k]]
            0 <= k < ps.len() && ps[k] == (path, collected(ps)[path]) && (forall|j: int|
                k < j < ps.len() ==> (#[trigger] ps[j]).0 != path);
        assert(path_parts(files[k].0) == path);
    }
    assert forall|i: int| 0 <= i < files.len() && path_parts((#[trigger] files[i]).0) == path implies collected(
        ps,
    ).contains_key(path) && collected(ps)[path] == files[i].1 && collected(ws)[path]
        == files[i].0 by {
        assert(ps[i].0 == path);
        assert(ws[i].0 == path);
        let k = choose|k: int|
            #![trigger ps[k]]
            0 <= k < ps.len() && ps[k] == (path, collected(ps)[path]) && (forall|j: int|
                k < j < ps.len() ==> (#[trigger] ps[j]).0 != path);
        let l = choose|l: int|
            #![trigger ws[l]]
            0 <= l < ws.len() && ws[l] == (path, collected(ws)[path]) && (forall|j: int|
                l < j < ws.len() ==> (#[trigger] ws[j]).0 != path);
        lemma_before::<SourcePath>(path, path);
        if i < k {
            assert(before::<SourcePath>(ps[i].0, ps[k].0));
        } else if k < i {
            assert(before::<SourcePath>(ps[k].0, ps[i].0));
        }
        if i < l {
            assert(before::<SourcePath>(ps[i].0, ps[l].0));
        } else if l < i {
            assert(before::<SourcePath>(ps[l].0, ps[i].0));
        }
    }
}

} // verus!
