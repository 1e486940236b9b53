//! The artifacts of contracts.

use semver::Version;
use vstd::prelude::*;
use crate::contract::{BytecodeObject, JsonAbi};
use crate::file_map::{first_named, law_every_file_is_spelled, law_first_named_is_first_listed, listed, names_mapped, names_of, owned, seen, without_first, FileMap, Names, Prune};
use crate::path::{path_parts, slashed_text, stem, Part, SourcePath};
use crate::path_map::{repathed, respelled, Change, PathChange};
use crate::sorted_map::SortKey;

verus! {

/// What is kept of a contract on disk.
#[derive(Clone, Debug, PartialEq, Eq)]
pub struct ContractArtifact {
    pub abi: Option<JsonAbi>,
    pub bytecode: Option<BytecodeObject>,
    pub deployed_bytecode: Option<BytecodeObject>,
    /// The metadata as JSON.
    pub metadata: Option<String>,
}

/// An artifact and the file that it was written to.
#[derive(Clone, Debug, PartialEq, Eq)]
pub struct ArtifactFile<T> {
    pub artifact: T,
    pub file: SourcePath,
    pub version: Version,
    pub build_id: String,
    pub profile: String,
}

/// Which artifact is meant.
#[derive(Clone, Debug, PartialEq, Eq)]
pub struct ArtifactId {
    /// The file of the artifact.
    pub path: SourcePath,
    /// The name of the contract.
    pub name: String,
    /// The file of the contract.
    pub source: SourcePath,
    pub version: Version,
    pub build_id: String,
    pub profile: String,
}

/// What an [`ArtifactId`] says.
pub struct ArtifactKey {
    pub path: Seq<char>,
    pub name: Seq<char>,
    pub source: Seq<char>,
    pub version: Version,
    pub build_id: Seq<char>,
    pub profile: Seq<char>,
}

impl View for ArtifactId {
    type V = ArtifactKey;

    open spec fn view(&self) -> ArtifactKey {
        ArtifactKey {
            path: self.path@,
            name: self.name@,
            source: self.source@,
            version: self.version,
            build_id: self.build_id@,
            profile: self.profile@,
        }
    }
}

/// The name of the contract that an artifact file holds: the name of the file without its
/// extension.
pub fn contract_name(file: &SourcePath) -> (r: Option<String>)
    ensures
        (match r {
            Some(name) => stem(file.parts()) == Some(name@),
            None => stem(file.parts()) is None,
        }),
{
    file.file_stem()
}

/// The artifact files that have a contract name, each with that name and the file of its contract.
pub open spec fn named_files<T>(items: Seq<(Seq<char>, Seq<char>, ArtifactFile<T>)>) -> Seq<
    (Seq<char>, Seq<char>, ArtifactFile<T>),
>
    decreases items.len(),
{
    if items.len() == 0 {
        Seq::empty()
    } else {
        let last = items.last();
        let front = named_files(items.drop_last());
        match stem(last.2.file.parts()) {
            Some(name) => front.push((name, last.0, last.2)),
            None => front,
        }
    }
}

/// The id of an artifact file.
pub open spec fn id_of<T>(named: (Seq<char>, Seq<char>, ArtifactFile<T>)) -> ArtifactKey {
    ArtifactKey {
        path: named.2.file@,
        name: named.0,
        source: named.1,
        version: named.2.version,
        build_id: named.2.build_id@,
        profile: named.2.profile@,
    }
}

/// Whether `r` holds the ids of the named files, each with its artifact.
pub open spec fn are_ids<'a, T>(
    r: Seq<(ArtifactId, &'a T)>,
    named: Seq<(Seq<char>, Seq<char>, ArtifactFile<T>)>,
) -> bool {
    &&& r.len() == named.len()
    &&& forall|i: int|
        0 <= i < r.len() ==> (#[trigger] r[i]).0@ == id_of(named[i]) && *r[i].1
            == named[i].2.artifact
}

/// Whether `r` holds the ids of the named files, each with its artifact.
pub open spec fn are_owned_ids<T>(
    r: Seq<(ArtifactId, T)>,
    named: Seq<(Seq<char>, Seq<char>, ArtifactFile<T>)>,
) -> bool {
    &&& r.len() == named.len()
    &&& forall|i: int|
        0 <= i < r.len() ==> (#[trigger] r[i]).0@ == id_of(named[i]) && r[i].1
            == named[i].2.artifact
}

/// Whether `r` holds the names of the named files, each with its artifact and its version.
pub open spec fn are_versioned<'a, T>(
    r: Seq<(String, (&'a T, &'a Version))>,
    named: Seq<(Seq<char>, Seq<char>, ArtifactFile<T>)>,
) -> bool {
    &&& r.len() == named.len()
    &&& forall|i: int|
        0 <= i < r.len() ==> (#[trigger] r[i]).0@ == named[i].0 && *r[i].1.0 == named[i].2.artifact
            && *r[i].1.1 == named[i].2.version
}

/// Artifacts by file and name, each in the order of the compiler runs.
#[derive(Clone, Debug, PartialEq, Eq)]
pub struct Artifacts<T>(pub FileMap<ArtifactFile<T>>);

impl<T> View for Artifacts<T> {
    type V = Map<Seq<Part>, Names<ArtifactFile<T>>>;

    open spec fn view(&self) -> Map<Seq<Part>, Names<ArtifactFile<T>>> {
        self.0@
    }
}

impl<T> Artifacts<T> {
    /// All artifact files, by ascending path and name.
    pub open spec fn spec_items(&self) -> Seq<(Seq<char>, Seq<char>, ArtifactFile<T>)> {
        self.0.spec_items()
    }

    /// How the paths of the files that the artifacts come from are written.
    pub open spec fn spelled(&self) -> Map<Seq<Part>, Seq<char>> {
        self.0.spelled()
    }

    /// The artifact files with a contract name.
    pub open spec fn named(&self) -> Seq<(Seq<char>, Seq<char>, ArtifactFile<T>)> {
        named_files(self.spec_items())
    }

    /// No artifacts.
    pub fn new() -> (r: Self)
        ensures
            r.0.wf(),
            r@ == Map::<Seq<Part>, Names<ArtifactFile<T>>>::empty(),
            r.spelled() == Map::<Seq<Part>, Seq<char>>::empty(),
            r.spec_items() == Seq::<(Seq<char>, Seq<char>, ArtifactFile<T>)>::empty(),
    {
        Artifacts(FileMap::new())
    }

    /// Finds the artifact with matching path and name.
    pub fn find(&self, path: &SourcePath, name: &str) -> (r: Option<&T>)
        ensures
            r is Some <==> listed(self@, path.parts(), name@).len() > 0,
            r matches Some(artifact) ==> *artifact == listed(self@, path.parts(), name@)[0].artifact,
    {
        match self.0.first(path, name) {
            Some(item) => Some(&item.artifact),
            None => None,
        }
    }

    /// Finds the first artifact with the given contract name.
    pub fn find_first(&self, name: &str) -> (r: Option<&T>)
        ensures
            (match r {
                Some(artifact) => first_named(self.spec_items(), name@) matches Some(first)
                    && first.1.artifact == *artifact,
                None => first_named(self.spec_items(), name@) is None,
            }),
    {
        match self.0.first_named(name) {
            Some(item) => Some(&item.artifact),
            None => None,
        }
    }

    /// Removes the artifact with matching path and name. A list stays when its last artifact goes.
    pub fn remove(&mut self, path: &SourcePath, name: &str) -> (r: Option<T>)
        ensures
            final(self).0.wf(),
            r is Some <==> listed(old(self)@, path.parts(), name@).len() > 0,
            r matches Some(artifact) ==> artifact == listed(old(self)@, path.parts(), name@)[0].artifact,
            final(self)@ == without_first(old(self)@, path.parts(), name@, Prune::Nothing),
            final(self).spelled() == old(self).spelled(),
    {
        proof {
            use_type_invariant(&self.0);
            law_every_file_is_spelled(self.0);
        }
        let taken: Option<ArtifactFile<T>> = self.0.take(path, name, Prune::Nothing);
        assert(self@.dom() =~= old(self)@.dom());
        assert(self.spelled() =~= old(self).spelled());
        match taken {
            Some(item) => Some(item.artifact),
            None => None,
        }
    }

    /// Removes the first artifact with the given contract name. A list stays when its last artifact
    /// goes.
    pub fn remove_first(&mut self, name: &str) -> (r: Option<T>)
        ensures
            final(self).0.wf(),
            (match r {
                Some(artifact) => first_named(old(self).spec_items(), name@) matches Some(first)
                    && first.1.artifact == artifact && final(self)@ == without_first(
                    old(self)@,
                    path_parts(first.0),
                    name@,
                    Prune::Nothing,
                ) && final(self).spelled() == old(self).spelled(),
                None => first_named(old(self).spec_items(), name@) is None && *final(self) == *old(
                    self,
                ),
            }),
    {
        proof {
            use_type_invariant(&self.0);
            law_every_file_is_spelled(self.0);
            law_first_named_is_first_listed(self.0, name@);
        }
        let taken: Option<ArtifactFile<T>> = self.0.take_named(name, Prune::Nothing);
        assert(self@.dom() =~= old(self)@.dom());
        assert(self.spelled() =~= old(self).spelled());
        match taken {
            Some(item) => Some(item.artifact),
            None => None,
        }
    }

    /// The ids of all artifacts, each with its artifact.
    pub fn artifacts(&self) -> (r: Vec<(ArtifactId, &T)>)
        ensures
            are_ids(r@, self.named()),
    {
        let mut out: Vec<(ArtifactId, &T)> = Vec::new();
        let items: Vec<(&SourcePath, &String, &ArtifactFile<T>)> = self.0.items();
        let ghost all = self.spec_items();
        let mut i: usize = 0;
        assert(all.take(0) =~= Seq::<(Seq<char>, Seq<char>, ArtifactFile<T>)>::empty());
        while i < items.len()
            invariant
                seen(items@) == all,
                i <= items.len(),
                are_ids(out@, named_files(all.take(i as int))),
            decreases items.len() - i,
        {
            let (source, _, item): (&SourcePath, &String, &ArtifactFile<T>) = items[i];
            assert(all.take(i + 1).drop_last() =~= all.take(i as int));
            assert(all[i as int] == (source@, items@[i as int].1@, *item));
            match contract_name(&item.file) {
                None => {},
                Some(name) => {
                    let id: ArtifactId = ArtifactId {
                        path: item.file.copy(),
                        name,
                        source: source.copy(),
                        version: item.version.clone(),
                        build_id: item.build_id.clone(),
                        profile: item.profile.clone(),
                    };
                    out.push((id, &item.artifact));
                },
            }
            i = i + 1;
        }
        assert(seen(items@).len() == items@.len());
        assert(all.take(all.len() as int) =~= all);
        out
    }

    /// The ids of all artifacts, each with its artifact.
    pub fn into_artifacts(self) -> (r: Vec<(ArtifactId, T)>)
        ensures
            are_owned_ids(r@, self.named()),
    {
        let mut out: Vec<(ArtifactId, T)> = Vec::new();
        let ghost all = self.spec_items();
        let items: Vec<(SourcePath, String, ArtifactFile<T>)> = self.0.into_items();
        let ghost es = items@;
        assert(all.take(0) =~= Seq::<(Seq<char>, Seq<char>, ArtifactFile<T>)>::empty());
        for entry in it: items
            invariant
                it.seq() == es,
                owned(es) == all,
                are_owned_ids(out@, named_files(all.take(it.index() as int))),
        {
            let ghost here = it.index() as int;
            let (source, _, item): (SourcePath, String, ArtifactFile<T>) = entry;
            assert(all.take(here + 1).drop_last() =~= all.take(here));
            assert(all[here] == (source@, es[here].1@, item));
            match contract_name(&item.file) {
                None => {},
                Some(name) => {
                    let id: ArtifactId = ArtifactId {
                        path: item.file,
                        name,
                        source,
                        version: item.version,
                        build_id: item.build_id,
                        profile: item.profile,
                    };
                    out.push((id, item.artifact));
                },
            }
        }
        assert(owned(es).len() == es.len());
        assert(all.take(all.len() as int) =~= all);
        out
    }

    /// The contract names of all artifacts, each with its artifact and its version.
    pub fn versioned_artifacts(&self) -> (r: Vec<(String, (&T, &Version))>)
        ensures
            are_versioned(r@, self.named()),
    {
        let mut out: Vec<(String, (&T, &Version))> = Vec::new();
        let items: Vec<(&SourcePath, &String, &ArtifactFile<T>)> = self.0.items();
        let ghost all = self.spec_items();
        let mut i: usize = 0;
        assert(all.take(0) =~= Seq::<(Seq<char>, Seq<char>, ArtifactFile<T>)>::empty());
        while i < items.len()
            invariant
                seen(items@) == all,
                i <= items.len(),
                are_versioned(out@, named_files(all.take(i as int))),
            decreases items.len() - i,
        {
            let (source, _, item): (&SourcePath, &String, &ArtifactFile<T>) = items[i];
            assert(all.take(i + 1).drop_last() =~= all.take(i as int));
            assert(all[i as int] == (source@, items@[i as int].1@, *item));
            match contract_name(&item.file) {
                None => {},
                Some(name) => {
                    out.push((name, (&item.artifact, &item.version)));
                },
            }
            i = i + 1;
        }
        assert(seen(items@).len() == items@.len());
        assert(all.take(all.len() as int) =~= all);
        out
    }

    /// Strips `base` from the paths of the files that the artifacts come from.
    pub fn into_stripped_file_prefixes(self, base: &SourcePath) -> (r: Self)
        ensures
            r.0.wf(),
            r@ == repathed(self.0.listing(), Change::Strip(base@)),
            r.spelled() == respelled(self.0.listing(), Change::Strip(base@)),
    {
        let mut files: FileMap<ArtifactFile<T>> = self.0;
        files.repath(&PathChange::Strip(base));
        Artifacts(files)
    }
}

/// Whether `b` is the artifact file `a` with `/` for every `\\` in its own path.
pub open spec fn slashed_file<T>(a: ArtifactFile<T>, b: ArtifactFile<T>) -> bool {
    &&& b.artifact == a.artifact
    &&& b.file@ == slashed_text(a.file@)
    &&& b.version == a.version
    &&& b.build_id == a.build_id
    &&& b.profile == a.profile
}

/// Whether `b` lists the artifact files of `a` with `/` for every `\\` in their own paths.
pub open spec fn slashed_files<T>(
    a: Map<Seq<Part>, Names<ArtifactFile<T>>>,
    b: Map<Seq<Part>, Names<ArtifactFile<T>>>,
) -> bool {
    &&& b.dom() == a.dom()
    &&& forall|path: Seq<Part>, name: Seq<char>|
        #![trigger listed(b, path, name)]
        {
            &&& names_of(b, path).contains_key(name) <==> names_of(a, path).contains_key(name)
            &&& listed(b, path, name).len() == listed(a, path, name).len()
            &&& forall|i: int|
                0 <= i < listed(b, path, name).len() ==> slashed_file(
                    listed(a, path, name)[i],
                    #[trigger] listed(b, path, name)[i],
                )
        }
}

impl<T> Artifacts<T> {
    /// Converts all `\\` separators in all paths to `/`: in those of the files that the artifacts
    /// come from, and in those of the artifacts.
    pub fn slash_paths(&mut self)
        ensures
            final(self).0.wf(),
            slashed_files(repathed(old(self).0.listing(), Change::Slash), final(self)@),
            final(self).spelled() == respelled(old(self).0.listing(), Change::Slash),
    {
        self.0.repath(&PathChange::Slash);
        let ghost a = self@;
        let each = |item: ArtifactFile<T>| -> (out: ArtifactFile<T>)
            ensures
                slashed_file(item, out),
            {
                ArtifactFile {
                    artifact: item.artifact,
                    file: item.file.slashed(),
                    version: item.version,
                    build_id: item.build_id,
                    profile: item.profile,
                }
            };
        self.0.map_items(&each);
        proof {
            let b = self@;
            assert forall|path: Seq<Part>| b.dom().contains(path) <==> a.dom().contains(path) by {
                assert(b.contains_key(path) <==> a.contains_key(path));
            }
            assert(b.dom() =~= a.dom());
            assert forall|path: Seq<Part>, name: Seq<char>|
                #![trigger listed(b, path, name)]
                {
                    &&& names_of(b, path).contains_key(name) <==> names_of(a, path).contains_key(
                        name,
                    )
                    &&& listed(b, path, name).len() == listed(a, path, name).len()
                    &&& forall|i: int|
                        0 <= i < listed(b, path, name).len() ==> slashed_file(
                            listed(a, path, name)[i],
                            #[trigger] listed(b, path, name)[i],
                        )
                } by {
                assert(b.contains_key(path) <==> a.contains_key(path));
                if b.contains_key(path) {
                    assert(names_mapped(a[path], b[path], each));
                    assert(b[path].contains_key(name) <==> a[path].contains_key(name));
                }
            }
        }
    }
}

} // verus!
