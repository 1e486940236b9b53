//! The source files of all compiler runs.

use semver::Version;
use vstd::prelude::*;
use crate::path::{Part, SourcePath};
use crate::path_map::{by_path, changed_files, lemma_collected_values, repath, repathed, respelled, spellings, written_files, Change, PathChange};
use crate::sorted_map::{ascending_pairs, before, collected, holds_at, lemma_ascending_pairs, lemma_collected_entries, lemma_fresh_key, lemma_lookup, lemma_spelling, pairs, spelled_with, written_keys, SortKey, SortedMap};
use crate::version::{Run, RunKey};

verus! {

/// A source file as the compiler saw it.
#[derive(Clone, Debug, PartialEq, Eq)]
pub struct SourceFile {
    pub id: u32,
    /// The syntax tree as JSON.
    pub ast: Option<String>,
}

/// A source file and the compiler run that read it.
#[derive(Clone, Debug, PartialEq, Eq)]
pub struct VersionedSourceFile {
    pub source_file: SourceFile,
    pub version: Version,
    pub build_id: String,
    pub profile: String,
}

/// Whether `item` is the source file as the given run read it.
pub open spec fn read_by(item: VersionedSourceFile, source_file: SourceFile, run: RunKey) -> bool {
    &&& item.source_file == source_file
    &&& item.version == run.version
    &&& item.build_id@ == run.build_id
    &&& item.profile@ == run.profile
}

/// What is listed at a path, nothing where the path is unknown.
pub open spec fn sources_at(
    files: Map<Seq<Part>, Seq<VersionedSourceFile>>,
    path: Seq<Part>,
) -> Seq<VersionedSourceFile> {
    if files.contains_key(path) {
        files[path]
    } else {
        Seq::empty()
    }
}

/// Whether the lists went from `old_files` to `new_files` by appending, at each path of `added`,
/// the source file at that path.
pub open spec fn sources_grown(
    old_files: Map<Seq<Part>, Seq<VersionedSourceFile>>,
    new_files: Map<Seq<Part>, Seq<VersionedSourceFile>>,
    added: Map<Seq<Part>, SourceFile>,
    run: RunKey,
) -> bool {
    forall|path: Seq<Part>|
        {
            &&& #[trigger] new_files.contains_key(path) <==> old_files.contains_key(path)
                || added.contains_key(path)
            &&& added.contains_key(path) ==> {
                &&& new_files[path].len() == sources_at(old_files, path).len() + 1
                &&& new_files[path].drop_last() == sources_at(old_files, path)
                &&& read_by(new_files[path].last(), added[path], run)
            }
            &&& !added.contains_key(path) && old_files.contains_key(path) ==> new_files[path]
                == old_files[path]
        }
}

/// Source files by path, each in the order of the compiler runs.
#[derive(Debug, PartialEq, Eq)]
pub struct VersionedSourceFiles {
    files: SortedMap<SourcePath, Vec<VersionedSourceFile>>,
}

impl View for VersionedSourceFiles {
    type V = Map<Seq<Part>, Seq<VersionedSourceFile>>;

    closed spec fn view(&self) -> Map<Seq<Part>, Seq<VersionedSourceFile>> {
        self.files@.map_values(|list: Vec<VersionedSourceFile>| list@)
    }
}

impl VersionedSourceFiles {
    /// The map inside stands in order.
    #[verifier::type_invariant]
    pub closed spec fn wf(&self) -> bool {
        self.files.wf()
    }

    /// How the paths are written.
    pub closed spec fn spelled(&self) -> Map<Seq<Part>, Seq<char>> {
        self.files.spelled()
    }

    /// The paths in ascending order, each as it is written and with its source files.
    pub closed spec fn listing(&self) -> Seq<(Seq<char>, Seq<VersionedSourceFile>)> {
        self.files.entries().map_values(|e: (SourcePath, Vec<VersionedSourceFile>)| (e.0@, e.1@))
    }

    /// No source files.
    pub fn new() -> (r: Self)
        ensures
            r.wf(),
            r@ == Map::<Seq<Part>, Seq<VersionedSourceFile>>::empty(),
            r.spelled() == Map::<Seq<Part>, Seq<char>>::empty(),
            r.listing() == Seq::<(Seq<char>, Seq<VersionedSourceFile>)>::empty(),
    {
        let r = VersionedSourceFiles { files: SortedMap::new() };
        assert(r@ =~= Map::<Seq<Part>, Seq<VersionedSourceFile>>::empty());
        assert(r.listing() =~= Seq::<(Seq<char>, Seq<VersionedSourceFile>)>::empty());
        r
    }

    /// The given source files.
    pub fn of(files: SortedMap<SourcePath, Vec<VersionedSourceFile>>) -> (r: Self)
        ensures
            r.wf(),
            r@ == files@.map_values(|list: Vec<VersionedSourceFile>| list@),
            r.spelled() == files.spelled(),
    {
        proof {
            use_type_invariant(&files);
        }
        VersionedSourceFiles { files }
    }

    /// The source files by path.
    pub fn into_files(self) -> (r: SortedMap<SourcePath, Vec<VersionedSourceFile>>)
        ensures
            self@ == r@.map_values(|list: Vec<VersionedSourceFile>| list@),
            self.spelled() == r.spelled(),
            self.listing() == r.entries().map_values(
                |e: (SourcePath, Vec<VersionedSourceFile>)| (e.0@, e.1@),
            ),
    {
        self.files
    }

    /// Appends a source file at `path`.
    pub fn push(&mut self, path: SourcePath, item: VersionedSourceFile)
        ensures
            final(self).wf(),
            final(self)@ == old(self)@.insert(
                path.parts(),
                sources_at(old(self)@, path.parts()).push(item),
            ),
            final(self).spelled() == spelled_with(old(self).spelled(), path.parts(), path@),
    {
        let mut files: SortedMap<SourcePath, Vec<VersionedSourceFile>> = SortedMap::new();
        proof {
            use_type_invariant(&*self);
        }
        std::mem::swap(&mut files, &mut self.files);
        let ghost parts = path.parts();
        let ghost text = path@;
        proof {
            lemma_spelling(files.entries());
            assert(files.spelled().dom().contains(parts) <==> files@.dom().contains(parts));
        }
        let (kept, mut list): (SourcePath, Vec<VersionedSourceFile>) = match files.remove_entry(
            &path,
        ) {
            Some((kept, list)) => (kept, list),
            None => (path, Vec::new()),
        };
        assert(list@ =~= sources_at(old(self)@, parts));
        list.push(item);
        files.insert(kept, list);
        self.files = files;
        assert(self@ =~= old(self)@.insert(parts, sources_at(old(self)@, parts).push(item)));
        assert(self.spelled() =~= spelled_with(old(self).spelled(), parts, text));
    }

    /// Appends the source files of a run.
    pub fn extend(&mut self, sources: SortedMap<SourcePath, SourceFile>, run: &Run)
        ensures
            final(self).wf(),
            sources_grown(old(self)@, final(self)@, sources@, run@),
            final(self).spelled() == sources.spelled().union_prefer_right(old(self).spelled()),
    {
        let ghost es = sources.entries();
        let ghost ps = pairs(es);
        let ghost ws = pairs(written_keys(es));
        proof {
            use_type_invariant(&sources);
            lemma_collected_entries(es);
            lemma_spelling(es);
            lemma_collected_entries(written_keys(es));
            lemma_ascending_pairs(es);
            lemma_ascending_pairs(written_keys(es));
        }
        assert(collected(ps.take(0)) =~= Map::<Seq<Part>, SourceFile>::empty());
        assert(collected(ws.take(0)).union_prefer_right(self.spelled()) =~= self.spelled());
        for entry in it: sources.into_entries()
            invariant
                it.seq() == es,
                ps == pairs(es),
                ws == pairs(written_keys(es)),
                ascending_pairs::<SourcePath, SourceFile>(ps),
                ascending_pairs::<SourcePath, Seq<char>>(ws),
                sources_grown(old(self)@, self@, collected(ps.take(it.index() as int)), run@),
                self.spelled() == collected(ws.take(it.index() as int)).union_prefer_right(
                    old(self).spelled(),
                ),
        {
            let ghost here = it.index() as int;
            let ghost was = self@;
            let ghost done = collected(ps.take(here));
            let ghost written = collected(ws.take(here));
            let (path, source_file): (SourcePath, SourceFile) = entry;
            let ghost key = path.parts();
            let ghost text = path@;
            proof {
                assert(ps.take(here + 1).drop_last() =~= ps.take(here));
                assert(ws.take(here + 1).drop_last() =~= ws.take(here));
                assert(ps[here] == (key, source_file));
                assert(ws[here] == (key, text));
                lemma_fresh_key::<SourcePath, SourceFile>(ps, here);
                lemma_fresh_key::<SourcePath, Seq<char>>(ws, here);
            }
            let item: VersionedSourceFile = VersionedSourceFile {
                source_file,
                version: run.version.clone(),
                build_id: run.build_id.to_owned(),
                profile: run.profile.to_owned(),
            };
            self.push(path, item);
            proof {
                assert(self.spelled() =~= written.insert(key, text).union_prefer_right(
                    old(self).spelled(),
                ));
                assert(was.contains_key(key) <==> old(self)@.contains_key(key)
                    || done.contains_key(key));
                assert(self@[key].drop_last() =~= sources_at(old(self)@, key));
                let added = collected(ps.take(here + 1));
                assert(added == done.insert(key, source_file));
                assert forall|p: Seq<Part>|
                    {
                        &&& #[trigger] self@.contains_key(p) <==> old(self)@.contains_key(p)
                            || added.contains_key(p)
                        &&& added.contains_key(p) ==> {
                            &&& self@[p].len() == sources_at(old(self)@, p).len() + 1
                            &&& self@[p].drop_last() == sources_at(old(self)@, p)
                            &&& read_by(self@[p].last(), added[p], run@)
                        }
                        &&& !added.contains_key(p) && old(self)@.contains_key(p) ==> self@[p]
                            == old(self)@[p]
                    } by {
                    assert(was.contains_key(p) <==> old(self)@.contains_key(p)
                        || done.contains_key(p));
                }
            }
        }
        proof {
            use_type_invariant(&*self);
            assert(ps.take(ps.len() as int) =~= ps);
            assert(ws.take(ws.len() as int) =~= ws);
        }
    }

    /// Changes every path.
    fn repath(&mut self, change: &PathChange)
        ensures
            final(self).wf(),
            final(self)@ == repathed(old(self).listing(), change@),
            final(self).spelled() == respelled(old(self).listing(), change@),
    {
        let mut files: SortedMap<SourcePath, Vec<VersionedSourceFile>> = SortedMap::new();
        std::mem::swap(&mut files, &mut self.files);
        let ghost es = files.entries();
        self.files = repath(files, change);
        proof {
            let moved = changed_files(written_files(es), change@);
            let ps = by_path(moved);
            let deep = |list: Vec<VersionedSourceFile>| list@;
            lemma_collected_values(ps, deep);
            assert(ps.map_values(|p: (Seq<Part>, Vec<VersionedSourceFile>)| (p.0, deep(p.1)))
                =~= by_path(changed_files(old(self).listing(), change@)));
            assert(spellings(moved) =~= spellings(changed_files(old(self).listing(), change@)));
            assert(self@ =~= self.files@.map_values(deep));
        }
    }

    /// Converts all `\\` separators in all paths to `/`.
    pub fn slash_paths(&mut self)
        ensures
            final(self).wf(),
            final(self)@ == repathed(old(self).listing(), Change::Slash),
            final(self).spelled() == respelled(old(self).listing(), Change::Slash),
    {
        self.repath(&PathChange::Slash);
    }

    /// Joins all paths with `root`.
    pub fn join_all(&mut self, root: &SourcePath)
        ensures
            final(self).wf(),
            final(self)@ == repathed(old(self).listing(), Change::Join(root@)),
            final(self).spelled() == respelled(old(self).listing(), Change::Join(root@)),
    {
        self.repath(&PathChange::Join(root));
    }

    /// Removes `base` from all paths.
    pub fn strip_prefix_all(&mut self, base: &SourcePath)
        ensures
            final(self).wf(),
            final(self)@ == repathed(old(self).listing(), Change::Strip(base@)),
            final(self).spelled() == respelled(old(self).listing(), Change::Strip(base@)),
    {
        self.repath(&PathChange::Strip(base));
    }

    /// The source files at `path`, first run first.
    pub fn get(&self, path: &SourcePath) -> (r: Option<&Vec<VersionedSourceFile>>)
        ensures
            r is Some <==> self@.contains_key(path.parts()),
            r matches Some(list) ==> list@ == self@[path.parts()],
    {
        self.files.get(path)
    }
}

/// Whether `b` has the paths of `a`, each with clones of its source files.
pub open spec fn sources_cloned(
    a: Map<Seq<Part>, Seq<VersionedSourceFile>>,
    b: Map<Seq<Part>, Seq<VersionedSourceFile>>,
) -> bool {
    forall|path: Seq<Part>|
        {
            &&& #[trigger] b.contains_key(path) <==> a.contains_key(path)
            &&& b.contains_key(path) ==> {
                &&& b[path].len() == a[path].len()
                &&& forall|i: int|
                    0 <= i < b[path].len() ==> cloned(a[path][i], #[trigger] b[path][i])
            }
        }
}

impl Clone for VersionedSourceFiles {
    /// The same paths, each with clones of its source files.
    fn clone(&self) -> (r: Self)
        ensures
            r.wf(),
            sources_cloned(self@, r@),
            r.spelled() == self.spelled(),
    {
        proof {
            use_type_invariant(self);
        }
        let files: SortedMap<SourcePath, Vec<VersionedSourceFile>> = self.files.clone();
        proof {
            let a = self.files.entries();
            let b = files.entries();
            assert forall|path: Seq<Part>| files@.contains_key(path) implies {
                &&& (#[trigger] files@[path])@.len() == self.files@[path]@.len()
                &&& forall|k: int|
                    0 <= k < files@[path]@.len() ==> cloned(
                        self.files@[path]@[k],
                        #[trigger] files@[path]@[k],
                    )
            } by {
                let i = choose|i: int| holds_at(b, i, path);
                lemma_lookup(b, i);
                lemma_lookup(a, i);
                assert(cloned(a[i].1, b[i].1));
            }
        }
        let r: VersionedSourceFiles = VersionedSourceFiles { files };
        proof {
            assert forall|path: Seq<Part>|
                {
                    &&& #[trigger] r@.contains_key(path) <==> self@.contains_key(path)
                    &&& r@.contains_key(path) ==> {
                        &&& r@[path].len() == self@[path].len()
                        &&& forall|i: int|
                            0 <= i < r@[path].len() ==> cloned(
                                self@[path][i],
                                #[trigger] r@[path][i],
                            )
                    }
                } by {
                assert(r@.dom().contains(path) <==> r.files@.dom().contains(path));
                if r@.contains_key(path) {
                    assert(r@[path] == r.files@[path]@);
                    assert(self@[path] == self.files@[path]@);
                }
            }
        }
        r
    }
}

/// The files stand by ascending path, and together they are the map.
pub proof fn law_source_listing(files: VersionedSourceFiles)
    requires
        files.wf(),
    ensures
        files@ == collected(by_path(files.listing())),
        files.spelled() == collected(spellings(files.listing())),
        ascending_pairs::<SourcePath, Seq<VersionedSourceFile>>(by_path(files.listing())),
{
    let es = files.files.entries();
    lemma_collected_entries(es);
    let deep = |list: Vec<VersionedSourceFile>| list@;
    lemma_collected_values(pairs(es), deep);
    assert(pairs(es).map_values(|p: (Seq<Part>, Vec<VersionedSourceFile>)| (p.0, deep(p.1)))
        =~= by_path(files.listing()));
    assert(files@ =~= files.files@.map_values(deep));
    lemma_spelling(es);
    lemma_collected_entries(written_keys(es));
    assert(pairs(written_keys(es)) =~= spellings(files.listing()));
    let ps = by_path(files.listing());
    assert forall|i: int, j: int| 0 <= i < j < ps.len() implies before::<SourcePath>(
        (#[trigger] ps[i]).0,
        (#[trigger] ps[j]).0,
    ) by {
        assert(before::<SourcePath>(es[i].0.key(), es[j].0.key()));
    }
}

/// A run that reads a source file puts it behind those that are listed already.
pub proof fn law_extend_appends_sources(
    old_files: Map<Seq<Part>, Seq<VersionedSourceFile>>,
    new_files: Map<Seq<Part>, Seq<VersionedSourceFile>>,
    added: Map<Seq<Part>, SourceFile>,
    run: RunKey,
    path: Seq<Part>,
)
    requires
        sources_grown(old_files, new_files, added, run),
    ensures
        sources_at(old_files, path).is_prefix_of(sources_at(new_files, path)),
        sources_at(new_files, path).len() == sources_at(old_files, path).len() + (
        if added.contains_key(path) {
            1int
        } else {
            0int
        }),
        added.contains_key(path) ==> read_by(sources_at(new_files, path).last(), added[path], run),
{
    assert(new_files.contains_key(path) <==> old_files.contains_key(path) || added.contains_key(
        path,
    ));
    let before_list = sources_at(old_files, path);
    let after_list = sources_at(new_files, path);
    if added.contains_key(path) {
        assert(after_list.drop_last() == before_list);
    }
    assert(after_list.subrange(0, before_list.len() as int) =~= before_list);
}

} // verus!
