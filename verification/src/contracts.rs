//! The contracts of all compiler runs.

use semver::Version;
use vstd::prelude::*;
use crate::contract::{compact, CompactContractRef, ResolcContract};
use crate::file_map::{first_named, law_every_file_is_spelled, list_of, listed, names_of, owned, seen, without_first, FileMap, Names, Prune};
use crate::path::{path_parts, Part, SourcePath};
use crate::path_map::{repathed, respelled, Change, PathChange};
use crate::sorted_map::{ascending, ascending_pairs, before, collected, lemma_ascending_pairs, lemma_before, lemma_collected, lemma_collected_entries, lemma_fresh_key, lemma_spelling, pairs, spelled_with, written_keys, SortKey, SortedMap};

use crate::version::{Run, RunKey};

verus! {

/// A contract and the compiler run that made it.
#[derive(Clone, Debug, PartialEq, Eq)]
pub struct VersionedContract {
    pub contract: ResolcContract,
    pub version: Version,
    pub build_id: String,
    pub profile: String,
}

/// Whether `item` is the contract as the given run made it.
pub open spec fn made_by(item: VersionedContract, contract: ResolcContract, run: RunKey) -> bool {
    &&& item.contract == contract
    &&& item.version == run.version
    &&& item.build_id@ == run.build_id
    &&& item.profile@ == run.profile
}

/// Whether the lists of a file went from `old_names` to `new_names` by appending, under each name
/// of `added`, the contract with that name.
pub open spec fn file_grown(
    old_names: Names<VersionedContract>,
    new_names: Names<VersionedContract>,
    added: Map<Seq<char>, ResolcContract>,
    run: RunKey,
) -> bool {
    forall|name: Seq<char>|
        {
            &&& #[trigger] new_names.contains_key(name) <==> old_names.contains_key(name)
                || added.contains_key(name)
            &&& added.contains_key(name) ==> {
                &&& new_names[name].len() == list_of(old_names, name).len() + 1
                &&& new_names[name].drop_last() == list_of(old_names, name)
                &&& made_by(new_names[name].last(), added[name], run)
            }
            &&& !added.contains_key(name) && old_names.contains_key(name) ==> new_names[name]
                == old_names[name]
        }
}

/// The new contracts of a file, none where the run has no such file.
pub open spec fn added_in(
    added: Map<Seq<Part>, SortedMap<String, ResolcContract>>,
    path: Seq<Part>,
) -> Map<Seq<char>, ResolcContract> {
    if added.contains_key(path) {
        added[path]@
    } else {
        Map::empty()
    }
}

/// Whether the files went from `old_files` to `new_files` by appending the contracts of a run.
pub open spec fn files_grown(
    old_files: Map<Seq<Part>, Names<VersionedContract>>,
    new_files: Map<Seq<Part>, Names<VersionedContract>>,
    added: Map<Seq<Part>, SortedMap<String, ResolcContract>>,
    run: RunKey,
) -> bool {
    forall|path: Seq<Part>|
        {
            &&& #[trigger] new_files.contains_key(path) <==> old_files.contains_key(path)
                || added.contains_key(path)
            &&& file_grown(
                names_of(old_files, path),
                names_of(new_files, path),
                added_in(added, path),
                run,
            )
        }
}

/// Contracts by file and name, each in the order of the compiler runs.
#[derive(Clone, Debug, PartialEq, Eq)]
pub struct VersionedContracts(pub FileMap<VersionedContract>);

impl View for VersionedContracts {
    type V = Map<Seq<Part>, Names<VersionedContract>>;

    open spec fn view(&self) -> Map<Seq<Part>, Names<VersionedContract>> {
        self.0@
    }
}

impl VersionedContracts {
    /// All contracts, by ascending path and name.
    pub open spec fn spec_items(&self) -> Seq<(Seq<char>, Seq<char>, VersionedContract)> {
        self.0.spec_items()
    }

    /// How the paths of the files are written.
    pub open spec fn spelled(&self) -> Map<Seq<Part>, Seq<char>> {
        self.0.spelled()
    }

    /// No contracts.
    pub fn new() -> (r: Self)
        ensures
            r.0.wf(),
            r@ == Map::<Seq<Part>, Names<VersionedContract>>::empty(),
            r.spelled() == Map::<Seq<Part>, Seq<char>>::empty(),
            r.spec_items() == Seq::<(Seq<char>, Seq<char>, VersionedContract)>::empty(),
            r.0.listing() == Seq::<(Seq<char>, Names<VersionedContract>)>::empty(),
    {
        VersionedContracts(FileMap::new())
    }

    /// Whether there is no file.
    pub fn is_empty(&self) -> (r: bool)
        ensures
            r == self@.dom().is_empty(),
    {
        self.0.is_empty()
    }

    /// Appends the contracts of one file of a run.
    fn extend_file(
        &mut self,
        path: &SourcePath,
        contracts: SortedMap<String, ResolcContract>,
        run: &Run,
    )
        ensures
            file_grown(
                names_of(old(self)@, path.parts()),
                names_of(final(self)@, path.parts()),
                contracts@,
                run@,
            ),
            final(self)@.contains_key(path.parts()),
            final(self).spelled() == spelled_with(old(self).spelled(), path.parts(), path@),
            forall|other: Seq<Part>|
                other != path.parts() ==> (#[trigger] final(self)@.contains_key(other) <==> old(
                    self,
                )@.contains_key(other)) && names_of(final(self)@, other) == names_of(
                    old(self)@,
                    other,
                ),
    {
        proof {
            use_type_invariant(&contracts);
            lemma_collected_entries(contracts.entries());
        }
        let ghost start = names_of(self@, path.parts());
        let ghost ps = pairs(contracts.entries());
        self.0.add_file(path.copy());
        let ghost es = contracts.entries();
        assert(names_of(self@, path.parts()) == start);
        assert(collected(ps.take(0)) =~= Map::<Seq<char>, ResolcContract>::empty());
        for entry in it: contracts.into_entries()
            invariant
                it.seq() == es,
                ps == pairs(es),
                ascending(es),
                self@.contains_key(path.parts()),
                self.spelled() == spelled_with(old(self).spelled(), path.parts(), path@),
                file_grown(
                    start,
                    names_of(self@, path.parts()),
                    collected(ps.take(it.index() as int)),
                    run@,
                ),
                forall|other: Seq<Part>|
                    other != path.parts() ==> (#[trigger] self@.contains_key(other) <==> old(
                        self,
                    )@.contains_key(other)) && names_of(self@, other) == names_of(
                        old(self)@,
                        other,
                    ),
        {
            let ghost here = it.index() as int;
            let ghost was = self@;
            let ghost done = collected(ps.take(here));
            let (name, contract): (String, ResolcContract) = entry;
            let ghost key = name@;
            proof {
                assert(ps.take(here + 1).drop_last() =~= ps.take(here));
                assert(ps[here] == (key, contract));
                lemma_collected(ps.take(here));
                if done.contains_key(key) {
                    let i = choose|i: int|
                        #![trigger ps.take(here)[i]]
                        0 <= i < here && ps.take(here)[i] == (key, done[key]) && (forall|j: int|
                            i < j < here ==> (#[trigger] ps.take(here)[j]).0 != key);
                    assert(ps.take(here)[i] == ps[i]);
                    lemma_before::<String>(key, key);
                    assert(before::<String>(es[i].0.key(), es[here].0.key()));
                }
            }
            let item: VersionedContract = VersionedContract {
                contract,
                version: run.version.clone(),
                build_id: run.build_id.to_owned(),
                profile: run.profile.to_owned(),
            };
            self.0.push(path.copy(), name, item);
            proof {
                let added = collected(ps.take(here + 1));
                let now = names_of(self@, path.parts());
                assert(added == done.insert(key, contract));
                assert(now == names_of(was, path.parts()).insert(
                    key,
                    listed(was, path.parts(), key).push(item),
                ));
                assert(listed(was, path.parts(), key) == list_of(start, key));
                assert(now[key].drop_last() =~= list_of(start, key));
            }
        }
        assert(ps.take(ps.len() as int) =~= ps);
    }

    /// Appends the contracts of a run.
    pub fn extend(
        &mut self,
        contracts: SortedMap<SourcePath, SortedMap<String, ResolcContract>>,
        run: &Run,
    )
        ensures
            final(self).0.wf(),
            files_grown(old(self)@, final(self)@, contracts@, run@),
            final(self).spelled() == contracts.spelled().union_prefer_right(old(self).spelled()),
    {
        let ghost es = contracts.entries();
        let ghost ps = pairs(es);
        let ghost ws = pairs(written_keys(es));
        proof {
            use_type_invariant(&contracts);
            lemma_collected_entries(es);
            lemma_spelling(es);
            lemma_collected_entries(written_keys(es));
            lemma_ascending_pairs(es);
            lemma_ascending_pairs(written_keys(es));
        }
        assert(collected(ps.take(0)) =~= Map::<
            Seq<Part>,
            SortedMap<String, ResolcContract>,
        >::empty());
        assert(collected(ws.take(0)).union_prefer_right(self.spelled()) =~= self.spelled());
        for entry in it: contracts.into_entries()
            invariant
                it.seq() == es,
                ps == pairs(es),
                ws == pairs(written_keys(es)),
                ascending_pairs::<SourcePath, SortedMap<String, ResolcContract>>(ps),
                ascending_pairs::<SourcePath, Seq<char>>(ws),
                files_grown(old(self)@, self@, collected(ps.take(it.index() as int)), run@),
                self.spelled() == collected(ws.take(it.index() as int)).union_prefer_right(
                    old(self).spelled(),
                ),
        {
            let ghost here = it.index() as int;
            let ghost was = self@;
            let ghost done = collected(ps.take(here));
            let ghost written = collected(ws.take(here));
            let (path, names): (SourcePath, SortedMap<String, ResolcContract>) = entry;
            let ghost key = path.parts();
            proof {
                assert(ps.take(here + 1).drop_last() =~= ps.take(here));
                assert(ws.take(here + 1).drop_last() =~= ws.take(here));
                assert(ps[here] == (key, names));
                assert(ws[here] == (key, path@));
                lemma_fresh_key::<SourcePath, SortedMap<String, ResolcContract>>(ps, here);
                lemma_fresh_key::<SourcePath, Seq<char>>(ws, here);
            }
            self.extend_file(&path, names, run);
            proof {
                assert(self.spelled() =~= written.insert(key, path@).union_prefer_right(
                    old(self).spelled(),
                ));
                let added = collected(ps.take(here + 1));
                assert(added == done.insert(key, names));
                lemma_not_grown(names_of(old(self)@, key), names_of(was, key), run@);
                assert forall|p: Seq<Part>|
                    {
                        &&& #[trigger] self@.contains_key(p) <==> old(self)@.contains_key(p)
                            || added.contains_key(p)
                        &&& file_grown(
                            names_of(old(self)@, p),
                            names_of(self@, p),
                            added_in(added, p),
                            run@,
                        )
                    } by {
                    assert(was.contains_key(p) <==> old(self)@.contains_key(p)
                        || done.contains_key(p));
                    if p != key {
                        assert(added_in(added, p) == added_in(done, p));
                    } else {
                        assert(added_in(done, p) == Map::<Seq<char>, ResolcContract>::empty());
                    }
                }
            }
        }
        proof {
            use_type_invariant(&self.0);
            assert(ps.take(ps.len() as int) =~= ps);
            assert(ws.take(ws.len() as int) =~= ws);
        }
    }
}

proof fn lemma_not_grown(
    old_names: Names<VersionedContract>,
    new_names: Names<VersionedContract>,
    run: RunKey,
)
    ensures
        file_grown(old_names, new_names, Map::<Seq<char>, ResolcContract>::empty(), run) ==> old_names
            == new_names,
{
    let none = Map::<Seq<char>, ResolcContract>::empty();
    if file_grown(old_names, new_names, none, run) {
        assert forall|name: Seq<char>|
            #![trigger new_names.contains_key(name)]
            #![trigger old_names.contains_key(name)]
            new_names.contains_key(name) <==> old_names.contains_key(name) by {
            assert(new_names.contains_key(name) <==> old_names.contains_key(name)
                || none.contains_key(name));
        }
        assert(old_names =~= new_names);
    }
}

impl VersionedContracts {
    /// Finds the _first_ contract with the given name.
    pub fn find_first(&self, name: &str) -> (r: Option<CompactContractRef<'_>>)
        ensures
            (match r {
                Some(found) => first_named(self.spec_items(), name@) matches Some(first) && found
                    == compact(&first.1.contract),
                None => first_named(self.spec_items(), name@) is None,
            }),
    {
        match self.0.first_named(name) {
            Some(item) => Some(CompactContractRef::of(&item.contract)),
            None => None,
        }
    }

    /// Finds the contract with matching path and name.
    pub fn get(&self, path: &SourcePath, name: &str) -> (r: Option<CompactContractRef<'_>>)
        ensures
            r is Some <==> listed(self@, path.parts(), name@).len() > 0,
            r matches Some(found) ==> found == compact(&listed(self@, path.parts(), name@)[0].contract),
    {
        match self.0.first(path, name) {
            Some(item) => Some(CompactContractRef::of(&item.contract)),
            None => None,
        }
    }

    /// Removes the _first_ contract with the given name. A name goes with its last contract, and
    /// its file stays.
    pub fn remove_first(&mut self, name: &str) -> (r: Option<ResolcContract>)
        ensures
            final(self).0.wf(),
            final(self).spelled() == old(self).spelled().restrict(final(self)@.dom()),
            (match r {
                Some(contract) => first_named(old(self).spec_items(), name@) matches Some(first)
                    && first.1.contract == contract && final(self)@ == without_first(
                    old(self)@,
                    path_parts(first.0),
                    name@,
                    Prune::Names,
                ),
                None => first_named(old(self).spec_items(), name@) is None && *final(self) == *old(
                    self,
                ),
            }),
    {
        proof {
            use_type_invariant(&self.0);
            law_every_file_is_spelled(self.0);
        }
        let taken: Option<VersionedContract> = self.0.take_named(name, Prune::Names);
        assert(self.spelled() =~= old(self).spelled().restrict(self@.dom()));
        match taken {
            Some(item) => Some(item.contract),
            None => None,
        }
    }

    /// Removes the contract with matching path and name. A name goes with its last contract, and a
    /// file with its last name.
    pub fn remove(&mut self, path: &SourcePath, name: &str) -> (r: Option<ResolcContract>)
        ensures
            final(self).0.wf(),
            r is Some <==> listed(old(self)@, path.parts(), name@).len() > 0,
            r matches Some(contract) ==> contract == listed(old(self)@, path.parts(), name@)[0].contract,
            final(self)@ == without_first(old(self)@, path.parts(), name@, Prune::Files),
            final(self).spelled() == old(self).spelled().restrict(final(self)@.dom()),
    {
        match self.0.take(path, name, Prune::Files) {
            Some(item) => Some(item.contract),
            None => None,
        }
    }

    /// All contracts with their names.
    pub fn contracts(&self) -> (r: Vec<(&String, &ResolcContract)>)
        ensures
            r.len() == self.spec_items().len(),
            forall|i: int|
                0 <= i < r.len() ==> (#[trigger] r[i]).0@ == self.spec_items()[i].1 && *r[i].1
                    == self.spec_items()[i].2.contract,
    {
        let mut out: Vec<(&String, &ResolcContract)> = Vec::new();
        let items: Vec<(&SourcePath, &String, &VersionedContract)> = self.0.items();
        let mut i: usize = 0;
        while i < items.len()
            invariant
                seen(items@) == self.spec_items(),
                i <= items.len(),
                out.len() == i,
                forall|j: int|
                    0 <= j < i ==> (#[trigger] out[j]).0@ == self.spec_items()[j].1 && *out[j].1
                        == self.spec_items()[j].2.contract,
            decreases items.len() - i,
        {
            let (_, name, item): (&SourcePath, &String, &VersionedContract) = items[i];
            assert(seen(items@)[i as int] == (items@[i as int].0@, name@, *item));
            out.push((name, &item.contract));
            i = i + 1;
        }
        assert(seen(items@).len() == items@.len());
        out
    }

    /// All contracts with their names.
    pub fn into_contracts(self) -> (r: Vec<(String, ResolcContract)>)
        ensures
            r.len() == self.spec_items().len(),
            forall|i: int|
                0 <= i < r.len() ==> (#[trigger] r[i]).0@ == self.spec_items()[i].1 && r[i].1
                    == self.spec_items()[i].2.contract,
    {
        let mut out: Vec<(String, ResolcContract)> = Vec::new();
        let ghost all = self.spec_items();
        let items: Vec<(SourcePath, String, VersionedContract)> = self.0.into_items();
        let ghost es = items@;
        for entry in it: items
            invariant
                it.seq() == es,
                owned(es) == all,
                out.len() == it.index(),
                forall|j: int|
                    0 <= j < it.index() ==> (#[trigger] out[j]).0@ == all[j].1 && out[j].1
                        == all[j].2.contract,
        {
            let ghost here = it.index() as int;
            let (_, name, item): (SourcePath, String, VersionedContract) = entry;
            assert(all[here] == (es[here].0@, name@, item));
            out.push((name, item.contract));
        }
        assert(owned(es).len() == es.len());
        out
    }

    /// All contracts with their files and names.
    pub fn contracts_with_files(&self) -> (r: Vec<(&SourcePath, &String, &ResolcContract)>)
        ensures
            r.len() == self.spec_items().len(),
            forall|i: int|
                0 <= i < r.len() ==> (#[trigger] r[i]).0@ == self.spec_items()[i].0 && r[i].1@
                    == self.spec_items()[i].1 && *r[i].2 == self.spec_items()[i].2.contract,
    {
        let mut out: Vec<(&SourcePath, &String, &ResolcContract)> = Vec::new();
        let items: Vec<(&SourcePath, &String, &VersionedContract)> = self.0.items();
        let mut i: usize = 0;
        while i < items.len()
            invariant
                seen(items@) == self.spec_items(),
                i <= items.len(),
                out.len() == i,
                forall|j: int|
                    0 <= j < i ==> (#[trigger] out[j]).0@ == self.spec_items()[j].0 && out[j].1@
                        == self.spec_items()[j].1 && *out[j].2
                        == self.spec_items()[j].2.contract,
            decreases items.len() - i,
        {
            let (path, name, item): (&SourcePath, &String, &VersionedContract) = items[i];
            assert(seen(items@)[i as int] == (path@, name@, *item));
            out.push((path, name, &item.contract));
            i = i + 1;
        }
        assert(seen(items@).len() == items@.len());
        out
    }

    /// All contracts with their files and names.
    pub fn into_contracts_with_files(self) -> (r: Vec<(SourcePath, String, ResolcContract)>)
        ensures
            r.len() == self.spec_items().len(),
            forall|i: int|
                0 <= i < r.len() ==> (#[trigger] r[i]).0@ == self.spec_items()[i].0 && r[i].1@
                    == self.spec_items()[i].1 && r[i].2 == self.spec_items()[i].2.contract,
    {
        let mut out: Vec<(SourcePath, String, ResolcContract)> = Vec::new();
        let ghost all = self.spec_items();
        let items: Vec<(SourcePath, String, VersionedContract)> = self.0.into_items();
        let ghost es = items@;
        for entry in it: items
            invariant
                it.seq() == es,
                owned(es) == all,
                out.len() == it.index(),
                forall|j: int|
                    0 <= j < it.index() ==> (#[trigger] out[j]).0@ == all[j].0 && out[j].1@
                        == all[j].1 && out[j].2 == all[j].2.contract,
        {
            let ghost here = it.index() as int;
            let (path, name, item): (SourcePath, String, VersionedContract) = entry;
            assert(all[here] == (path@, name@, item));
            out.push((path, name, item.contract));
        }
        assert(owned(es).len() == es.len());
        out
    }

    /// All contracts with their files, names and compiler versions.
    pub fn contracts_with_files_and_version(&self) -> (r: Vec<
        (&SourcePath, &String, &ResolcContract, &Version),
    >)
        ensures
            r.len() == self.spec_items().len(),
            forall|i: int|
                0 <= i < r.len() ==> (#[trigger] r[i]).0@ == self.spec_items()[i].0 && r[i].1@
                    == self.spec_items()[i].1 && *r[i].2 == self.spec_items()[i].2.contract
                    && *r[i].3 == self.spec_items()[i].2.version,
    {
        let mut out: Vec<(&SourcePath, &String, &ResolcContract, &Version)> = Vec::new();
        let items: Vec<(&SourcePath, &String, &VersionedContract)> = self.0.items();
        let mut i: usize = 0;
        while i < items.len()
            invariant
                seen(items@) == self.spec_items(),
                i <= items.len(),
                out.len() == i,
                forall|j: int|
                    0 <= j < i ==> (#[trigger] out[j]).0@ == self.spec_items()[j].0 && out[j].1@
                        == self.spec_items()[j].1 && *out[j].2 == self.spec_items()[j].2.contract
                        && *out[j].3 == self.spec_items()[j].2.version,
            decreases items.len() - i,
        {
            let (path, name, item): (&SourcePath, &String, &VersionedContract) = items[i];
            assert(seen(items@)[i as int] == (path@, name@, *item));
            out.push((path, name, &item.contract, &item.version));
            i = i + 1;
        }
        assert(seen(items@).len() == items@.len());
        out
    }

    /// All contracts with their files, names and compiler versions.
    pub fn into_contracts_with_files_and_version(self) -> (r: Vec<
        (SourcePath, String, ResolcContract, Version),
    >)
        ensures
            r.len() == self.spec_items().len(),
            forall|i: int|
                0 <= i < r.len() ==> (#[trigger] r[i]).0@ == self.spec_items()[i].0 && r[i].1@
                    == self.spec_items()[i].1 && r[i].2 == self.spec_items()[i].2.contract && r[i].3
                    == self.spec_items()[i].2.version,
    {
        let mut out: Vec<(SourcePath, String, ResolcContract, Version)> = Vec::new();
        let ghost all = self.spec_items();
        let items: Vec<(SourcePath, String, VersionedContract)> = self.0.into_items();
        let ghost es = items@;
        for entry in it: items
            invariant
                it.seq() == es,
                owned(es) == all,
                out.len() == it.index(),
                forall|j: int|
                    0 <= j < it.index() ==> (#[trigger] out[j]).0@ == all[j].0 && out[j].1@
                        == all[j].1 && out[j].2 == all[j].2.contract && out[j].3
                        == all[j].2.version,
        {
            let ghost here = it.index() as int;
            let (path, name, item): (SourcePath, String, VersionedContract) = entry;
            assert(all[here] == (path@, name@, item));
            out.push((path, name, item.contract, item.version));
        }
        assert(owned(es).len() == es.len());
        out
    }

    /// Converts all `\\` separators in all paths to `/`.
    pub fn slash_paths(&mut self)
        ensures
            final(self).0.wf(),
            final(self)@ == repathed(old(self).0.listing(), Change::Slash),
            final(self).spelled() == respelled(old(self).0.listing(), Change::Slash),
    {
        self.0.repath(&PathChange::Slash);
    }

    /// Joins all paths with `root`.
    pub fn join_all(&mut self, root: &SourcePath)
        ensures
            final(self).0.wf(),
            final(self)@ == repathed(old(self).0.listing(), Change::Join(root@)),
            final(self).spelled() == respelled(old(self).0.listing(), Change::Join(root@)),
    {
        self.0.repath(&PathChange::Join(root));
    }

    /// Removes `base` from all paths.
    pub fn strip_prefix_all(&mut self, base: &SourcePath)
        ensures
            final(self).0.wf(),
            final(self)@ == repathed(old(self).0.listing(), Change::Strip(base@)),
            final(self).spelled() == respelled(old(self).0.listing(), Change::Strip(base@)),
    {
        self.0.repath(&PathChange::Strip(base));
    }
}

/// A run that adds a contract puts it behind those that are listed already: what was found first
/// before is found first after, and only where there was nothing the new contract is.
pub proof fn law_extend_appends(
    old_files: Map<Seq<Part>, Names<VersionedContract>>,
    new_files: Map<Seq<Part>, Names<VersionedContract>>,
    added: Map<Seq<Part>, SortedMap<String, ResolcContract>>,
    run: RunKey,
    path: Seq<Part>,
    name: Seq<char>,
)
    requires
        files_grown(old_files, new_files, added, run),
    ensures
        listed(old_files, path, name).is_prefix_of(listed(new_files, path, name)),
        listed(old_files, path, name).len() > 0 ==> listed(new_files, path, name)[0] == listed(
            old_files,
            path,
            name,
        )[0],
        !added_in(added, path).contains_key(name) ==> listed(new_files, path, name) == listed(
            old_files,
            path,
            name,
        ),
        added_in(added, path).contains_key(name) ==> {
            &&& listed(new_files, path, name).len() == listed(old_files, path, name).len() + 1
            &&& made_by(listed(new_files, path, name).last(), added_in(added, path)[name], run)
        },
{
    let a = names_of(old_files, path);
    let b = names_of(new_files, path);
    assert(new_files.contains_key(path) <==> old_files.contains_key(path) || added.contains_key(
        path,
    ));
    assert(file_grown(a, b, added_in(added, path), run));
    assert(b.contains_key(name) <==> a.contains_key(name) || added_in(added, path).contains_key(
        name,
    ));
    let before_list = listed(old_files, path, name);
    let after_list = listed(new_files, path, name);
    if added_in(added, path).contains_key(name) {
        assert(after_list == b[name]);
        assert(after_list.drop_last() == before_list);
    }
    assert(after_list.subrange(0, before_list.len() as int) =~= before_list);
    if before_list.len() > 0 {
        assert(after_list.subrange(0, before_list.len() as int)[0] == after_list[0]);
    }
}

} // verus!
