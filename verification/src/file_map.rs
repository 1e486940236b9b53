//! Things listed by the file they come from and by their name.

use vstd::prelude::*;
use crate::path::{path_parts, Part, SourcePath};
use crate::path_map::{by_path, changed_files, lemma_collected_values, repath, repathed, respelled, spellings, written_files, PathChange};
use crate::sorted_map::{ascending, ascending_pairs, before, collected, holds_at, lemma_ascending_unique, lemma_before, lemma_collected, lemma_collected_entries, lemma_lookup, lemma_spelling, pairs, spelled_with, to_map, written_keys, SortKey, SortedMap};

verus! {

/// What the names of one file list.
pub type Names<T> = Map<Seq<char>, Seq<T>>;

/// The lists of one file.
pub open spec fn name_lists<T>(names: SortedMap<String, Vec<T>>) -> Names<T> {
    names@.map_values(|list: Vec<T>| list@)
}

/// A file, as its path is written, and its lists.
pub open spec fn file_lists<T>(entry: (SourcePath, SortedMap<String, Vec<T>>)) -> (
    Seq<char>,
    Names<T>,
) {
    (entry.0@, name_lists(entry.1))
}

/// The things in one list, each with its file and its name.
pub open spec fn list_items<T>(path: Seq<char>, name: Seq<char>, list: Seq<T>) -> Seq<
    (Seq<char>, Seq<char>, T),
> {
    list.map_values(|item: T| (path, name, item))
}

/// The things of one file, by ascending name.
pub open spec fn file_items<T>(path: Seq<char>, names: Seq<(String, Vec<T>)>) -> Seq<
    (Seq<char>, Seq<char>, T),
>
    decreases names.len(),
{
    if names.len() == 0 {
        Seq::empty()
    } else {
        file_items(path, names.drop_last()) + list_items(path, names.last().0@, names.last().1@)
    }
}

/// The things of all files, by ascending path.
pub open spec fn all_items<T>(files: Seq<(SourcePath, SortedMap<String, Vec<T>>)>) -> Seq<
    (Seq<char>, Seq<char>, T),
>
    decreases files.len(),
{
    if files.len() == 0 {
        Seq::empty()
    } else {
        all_items(files.drop_last()) + file_items(files.last().0@, files.last().1.entries())
    }
}

/// The first item with the given name, with its file as the path is written.
pub open spec fn first_named<T>(items: Seq<(Seq<char>, Seq<char>, T)>, name: Seq<char>) -> Option<
    (Seq<char>, T),
>
    decreases items.len(),
{
    if items.len() == 0 {
        None
    } else if items[0].1 == name {
        Some((items[0].0, items[0].2))
    } else {
        first_named(items.drop_first(), name)
    }
}

/// The lists of a file, none where the file is unknown.
pub open spec fn names_of<T>(files: Map<Seq<Part>, Names<T>>, path: Seq<Part>) -> Names<T> {
    if files.contains_key(path) {
        files[path]
    } else {
        Map::empty()
    }
}

/// What is listed under a name in a file, nothing where either is unknown.
pub open spec fn listed<T>(
    files: Map<Seq<Part>, Names<T>>,
    path: Seq<Part>,
    name: Seq<char>,
) -> Seq<T> {
    list_of(names_of(files, path), name)
}

/// What a file's names list, empty for a name that is unknown.
pub open spec fn list_of<T>(names: Names<T>, name: Seq<char>) -> Seq<T> {
    if names.contains_key(name) {
        names[name]
    } else {
        Seq::empty()
    }
}

/// The files with one more item at the end of a list.
pub open spec fn pushed<T>(
    files: Map<Seq<Part>, Names<T>>,
    path: Seq<Part>,
    name: Seq<char>,
    item: T,
) -> Map<Seq<Part>, Names<T>> {
    files.insert(
        path,
        names_of(files, path).insert(name, listed(files, path, name).push(item)),
    )
}

/// What goes when the last item of a list is taken.
#[derive(Clone, Copy, Debug, PartialEq, Eq, Structural)]
pub enum Prune {
    /// The empty list stays.
    Nothing,
    /// The name goes, its file stays.
    Names,
    /// The name goes, and its file with its last name.
    Files,
}

/// The lists of a file without the first item under `name`.
pub open spec fn names_without<T>(names: Names<T>, name: Seq<char>, prune: Prune) -> Names<T> {
    if !names.contains_key(name) {
        names
    } else if names[name].len() <= 1 && prune != Prune::Nothing {
        names.remove(name)
    } else if names[name].len() == 0 {
        names
    } else {
        names.insert(name, names[name].drop_first())
    }
}

/// The files without the first item under `name` in the file at `path`.
pub open spec fn without_first<T>(
    files: Map<Seq<Part>, Names<T>>,
    path: Seq<Part>,
    name: Seq<char>,
    prune: Prune,
) -> Map<Seq<Part>, Names<T>> {
    if !files.contains_key(path) {
        files
    } else {
        let names = names_without(files[path], name, prune);
        if prune == Prune::Files && names.dom().is_empty() {
            files.remove(path)
        } else {
            files.insert(path, names)
        }
    }
}

/// Lists of things, by file and by name.
#[derive(Debug, PartialEq, Eq)]
pub struct FileMap<T> {
    files: SortedMap<SourcePath, SortedMap<String, Vec<T>>>,
}

impl<T> View for FileMap<T> {
    type V = Map<Seq<Part>, Names<T>>;

    closed spec fn view(&self) -> Map<Seq<Part>, Names<T>> {
        self.files@.map_values(|names: SortedMap<String, Vec<T>>| name_lists(names))
    }
}

impl<T> FileMap<T> {
    /// The maps inside stand in order.
    #[verifier::type_invariant]
    pub closed spec fn wf(&self) -> bool {
        &&& self.files.wf()
        &&& forall|path: Seq<Part>|
            self.files@.contains_key(path) ==> (#[trigger] self.files@[path]).wf()
    }

    /// The files by ascending path, each with its lists.
    pub closed spec fn listing(&self) -> Seq<(Seq<char>, Names<T>)> {
        self.files.entries().map_values(
            |e: (SourcePath, SortedMap<String, Vec<T>>)| file_lists(e),
        )
    }

    /// How the paths of the files are written.
    pub closed spec fn spelled(&self) -> Map<Seq<Part>, Seq<char>> {
        self.files.spelled()
    }

    /// All items, by ascending path and, in a file, by ascending name.
    pub closed spec fn spec_items(&self) -> Seq<(Seq<char>, Seq<char>, T)> {
        all_items(self.files.entries())
    }

    /// The map without files.
    pub fn new() -> (r: Self)
        ensures
            r.wf(),
            r@ == Map::<Seq<Part>, Names<T>>::empty(),
            r.spelled() == Map::<Seq<Part>, Seq<char>>::empty(),
            r.listing() == Seq::<(Seq<char>, Names<T>)>::empty(),
            r.spec_items() == Seq::<(Seq<char>, Seq<char>, T)>::empty(),
    {
        let r = FileMap { files: SortedMap::new() };
        assert(r@ =~= Map::<Seq<Part>, Names<T>>::empty());
        assert(r.listing() =~= Seq::<(Seq<char>, Names<T>)>::empty());
        r
    }

    /// Whether there is no file.
    pub fn is_empty(&self) -> (r: bool)
        ensures
            r == self@.dom().is_empty(),
    {
        let r: bool = self.files.is_empty();
        assert(self@.dom() =~= self.files@.dom());
        r
    }

    /// The first item under `name` in the file at `path`.
    pub fn first(&self, path: &SourcePath, name: &str) -> (r: Option<&T>)
        ensures
            r is Some <==> listed(self@, path.parts(), name@).len() > 0,
            r matches Some(item) ==> *item == listed(self@, path.parts(), name@)[0],
    {
        let key: String = name.to_owned();
        match self.files.get(path) {
            None => None,
            Some(names) => match names.get(&key) {
                None => None,
                Some(list) => {
                    assert(list@ == listed(self@, path.parts(), name@));
                    if list.len() == 0 {
                        None
                    } else {
                        Some(&list[0])
                    }
                },
            },
        }
    }

    /// Makes sure that there is a file at `path`.
    pub fn add_file(&mut self, path: SourcePath)
        ensures
            final(self).wf(),
            final(self)@ == old(self)@.insert(path.parts(), names_of(old(self)@, path.parts())),
            final(self).spelled() == spelled_with(old(self).spelled(), path.parts(), path@),
    {
        proof {
            use_type_invariant(&*self);
        }
        let mut files: SortedMap<SourcePath, SortedMap<String, Vec<T>>> = SortedMap::new();
        std::mem::swap(&mut files, &mut self.files);
        let ghost parts = path.parts();
        let ghost text = path@;
        proof {
            lemma_spelling(files.entries());
            assert(files.spelled().dom().contains(parts) <==> files@.dom().contains(parts));
        }
        let (kept, names): (SourcePath, SortedMap<String, Vec<T>>) = match files.remove_entry(
            &path,
        ) {
            Some((kept, names)) => (kept, names),
            None => (path, SortedMap::new()),
        };
        proof {
            use_type_invariant(&names);
            assert(name_lists(names) =~= names_of(old(self)@, parts));
        }
        files.insert(kept, names);
        self.files = files;
        assert(self.spelled() =~= spelled_with(old(self).spelled(), parts, text));
        assert(self@ =~= old(self)@.insert(parts, names_of(old(self)@, parts)));
    }

    /// Appends an item to the list under `name` in the file at `path`.
    pub fn push(&mut self, path: SourcePath, name: String, item: T)
        ensures
            final(self).wf(),
            final(self)@ == pushed(old(self)@, path.parts(), name@, item),
            final(self).spelled() == spelled_with(old(self).spelled(), path.parts(), path@),
    {
        proof {
            use_type_invariant(&*self);
        }
        let mut files: SortedMap<SourcePath, SortedMap<String, Vec<T>>> = SortedMap::new();
        std::mem::swap(&mut files, &mut self.files);
        let ghost parts = path.parts();
        let ghost text = path@;
        proof {
            lemma_spelling(files.entries());
            assert(files.spelled().dom().contains(parts) <==> files@.dom().contains(parts));
        }
        let (kept, mut names): (SourcePath, SortedMap<String, Vec<T>>) = match files.remove_entry(
            &path,
        ) {
            Some((kept, names)) => (kept, names),
            None => (path, SortedMap::new()),
        };
        assert(name_lists(names) =~= names_of(old(self)@, parts));
        let mut list: Vec<T> = match names.remove_entry(&name) {
            Some((_, list)) => list,
            None => Vec::new(),
        };
        assert(list@ =~= listed(old(self)@, parts, name@));
        list.push(item);
        let ghost key = name@;
        names.insert(name, list);
        assert(name_lists(names) =~= names_of(old(self)@, parts).insert(
            key,
            listed(old(self)@, parts, key).push(item),
        ));
        files.insert(kept, names);
        self.files = files;
        assert(self.spelled() =~= spelled_with(old(self).spelled(), parts, text));
        assert(self@ =~= pushed(old(self)@, parts, key, item));
    }

    /// Takes the first item under `name` in the file at `path` out.
    pub fn take(&mut self, path: &SourcePath, name: &str, prune: Prune) -> (r: Option<T>)
        ensures
            final(self).wf(),
            r is Some <==> listed(old(self)@, path.parts(), name@).len() > 0,
            r matches Some(item) ==> item == listed(old(self)@, path.parts(), name@)[0],
            final(self)@ == without_first(old(self)@, path.parts(), name@, prune),
            final(self).spelled() == old(self).spelled().restrict(final(self)@.dom()),
    {
        proof {
            use_type_invariant(&*self);
        }
        let mut files: SortedMap<SourcePath, SortedMap<String, Vec<T>>> = SortedMap::new();
        std::mem::swap(&mut files, &mut self.files);
        proof {
            lemma_spelling(files.entries());
            assert(old(self)@.dom() =~= files@.dom());
        }
        match files.remove_entry(path) {
            None => {
                self.files = files;
                assert(self@ =~= old(self)@);
                assert(self.spelled() =~= old(self).spelled().restrict(self@.dom()));
                None
            },
            Some((kept, mut names)) => {
                let ghost lists = name_lists(names);
                let key: String = name.to_owned();
                let mut taken: Option<T> = None;
                match names.remove_entry(&key) {
                    None => {},
                    Some((key, mut list)) => {
                        if list.len() > 0 {
                            taken = Some(list.remove(0));
                        }
                        if list.len() > 0 || prune == Prune::Nothing {
                            names.insert(key, list);
                        }
                    },
                }
                assert(name_lists(names) =~= names_without(lists, name@, prune));
                assert(lists == old(self)@[path.parts()]);
                assert(names@.dom() =~= name_lists(names).dom());
                if !(prune == Prune::Files && names.is_empty()) {
                    files.insert(kept, names);
                }
                self.files = files;
                assert(self@ =~= without_first(old(self)@, path.parts(), name@, prune));
                assert(self.spelled() =~= old(self).spelled().restrict(self@.dom()));
                taken
            },
        }
    }
}

/// Whether `b` has the names of `a`, each with clones of what it lists.
pub open spec fn names_cloned<T: Clone>(a: Names<T>, b: Names<T>) -> bool {
    forall|name: Seq<char>|
        {
            &&& #[trigger] b.contains_key(name) <==> a.contains_key(name)
            &&& b.contains_key(name) ==> {
                &&& b[name].len() == a[name].len()
                &&& forall|i: int|
                    0 <= i < b[name].len() ==> cloned(a[name][i], #[trigger] b[name][i])
            }
        }
}

/// Whether `b` has the files and names of `a`, each name with clones of what it lists.
pub open spec fn files_cloned<T: Clone>(
    a: Map<Seq<Part>, Names<T>>,
    b: Map<Seq<Part>, Names<T>>,
) -> bool {
    forall|path: Seq<Part>|
        {
            &&& #[trigger] b.contains_key(path) <==> a.contains_key(path)
            &&& b.contains_key(path) ==> names_cloned(a[path], b[path])
        }
}

proof fn lemma_names_cloned<T: Clone>(
    a: SortedMap<String, Vec<T>>,
    b: SortedMap<String, Vec<T>>,
)
    requires
        a.wf(),
        cloned(a, b),
    ensures
        b.wf(),
        names_cloned(name_lists(a), name_lists(b)),
{
    let es = a.entries();
    let fs = b.entries();
    assert forall|name: Seq<char>|
        {
            &&& #[trigger] name_lists(b).contains_key(name) <==> name_lists(a).contains_key(name)
            &&& name_lists(b).contains_key(name) ==> {
                &&& name_lists(b)[name].len() == name_lists(a)[name].len()
                &&& forall|i: int|
                    0 <= i < name_lists(b)[name].len() ==> cloned(
                        name_lists(a)[name][i],
                        #[trigger] name_lists(b)[name][i],
                    )
            }
        } by {
        assert(b@.dom().contains(name) <==> a@.dom().contains(name));
        if b@.contains_key(name) {
            let i = choose|i: int| holds_at(fs, i, name);
            lemma_lookup(fs, i);
            lemma_lookup(es, i);
            assert(cloned(es[i].1, fs[i].1));
        }
    }
}

impl<T: Clone> Clone for FileMap<T> {
    /// The same files and names, each with a clone of its list.
    fn clone(&self) -> (r: Self)
        ensures
            r.wf(),
            files_cloned(self@, r@),
            r.spelled() == self.spelled(),
    {
        let files: SortedMap<SourcePath, SortedMap<String, Vec<T>>> = self.files.clone();
        proof {
            use_type_invariant(self);
            let es = files.entries();
            assert forall|path: Seq<Part>| files@.contains_key(path) implies (
            #[trigger] files@[path]).wf() && names_cloned(
                name_lists(self.files@[path]),
                name_lists(files@[path]),
            ) by {
                let i = choose|i: int| holds_at(es, i, path);
                lemma_lookup(es, i);
                lemma_lookup(self.files.entries(), i);
                assert(self.files@[path].wf());
                assert(cloned(self.files.entries()[i].1, es[i].1));
                lemma_names_cloned(self.files.entries()[i].1, es[i].1);
            }
        }
        let r: FileMap<T> = FileMap { files };
        proof {
            assert forall|path: Seq<Part>|
                {
                    &&& #[trigger] r@.contains_key(path) <==> self@.contains_key(path)
                    &&& r@.contains_key(path) ==> names_cloned(self@[path], r@[path])
                } by {
                assert(r.files@.dom().contains(path) <==> self.files@.dom().contains(path));
                if r@.contains_key(path) {
                    assert(r@[path] == name_lists(r.files@[path]));
                    assert(self@[path] == name_lists(self.files@[path]));
                }
            }
        }
        r
    }
}

proof fn lemma_first_named_concat<T>(
    a: Seq<(Seq<char>, Seq<char>, T)>,
    b: Seq<(Seq<char>, Seq<char>, T)>,
    name: Seq<char>,
)
    ensures
        first_named(a + b, name) == (match first_named(a, name) {
            Some(found) => Some(found),
            None => first_named(b, name),
        }),
    decreases a.len(),
{
    if a.len() == 0 {
        assert(a + b =~= b);
    } else {
        assert((a + b).drop_first() =~= a.drop_first() + b);
        lemma_first_named_concat(a.drop_first(), b, name);
    }
}

proof fn lemma_first_named_list<T>(
    path: Seq<char>,
    name: Seq<char>,
    list: Seq<T>,
    wanted: Seq<char>,
)
    ensures
        first_named(list_items(path, name, list), wanted) == (if name == wanted && list.len() > 0 {
            Some((path, list[0]))
        } else {
            None
        }),
    decreases list.len(),
{
    if list.len() > 0 {
        lemma_first_named_list(path, name, list.drop_first(), wanted);
        assert(list_items(path, name, list).drop_first() =~= list_items(
            path,
            name,
            list.drop_first(),
        ));
    }
}

/// In a file the first item with a name is the first of the list under it.
proof fn lemma_first_named_file<T>(
    path: Seq<char>,
    names: Seq<(String, Vec<T>)>,
    wanted: Seq<char>,
)
    requires
        ascending(names),
    ensures
        first_named(file_items(path, names), wanted) == (if to_map(names).contains_key(wanted)
            && to_map(names)[wanted]@.len() > 0 {
            Some((path, to_map(names)[wanted]@[0]))
        } else {
            None
        }),
    decreases names.len(),
{
    lemma_collected_entries(names);
    if names.len() > 0 {
        let front = names.drop_last();
        assert forall|i: int, j: int| 0 <= i < j < front.len() implies before::<
            String,
        >(#[trigger] front[i].0.key(), #[trigger] front[j].0.key()) by {
            assert(front[i] == names[i] && front[j] == names[j]);
        }
        lemma_first_named_file(path, front, wanted);
        lemma_collected_entries(front);
        let last = names.last();
        assert(pairs(names).drop_last() =~= pairs(front));
        assert(pairs(names).last() == (last.0@, last.1));
        assert(to_map(names) == to_map(front).insert(last.0@, last.1));
        lemma_first_named_concat(
            file_items(path, front),
            list_items(path, last.0@, last.1@),
            wanted,
        );
        lemma_first_named_list(path, last.0@, last.1@, wanted);
        if last.0@ == wanted && to_map(front).contains_key(wanted) {
            let i = choose|i: int| holds_at(front, i, wanted);
            assert(names[i].0.key() == wanted);
            lemma_before::<String>(wanted, wanted);
            assert(before::<String>(
                names[i].0.key(),
                names[names.len() - 1].0.key(),
            ));
        }
    }
}

impl<T> FileMap<T> {
    /// The place of the first file that lists something under `name`.
    fn file_with(&self, name: &String) -> (r: Option<usize>)
        ensures
            (match r {
                Some(i) => {
                    &&& i < self.files.entries().len()
                    &&& self.files.entries()[i as int].1@.contains_key(name@)
                    &&& self.files.entries()[i as int].1@[name@]@.len() > 0
                    &&& first_named(self.spec_items(), name@) == Some(
                        (
                            self.files.entries()[i as int].0@,
                            self.files.entries()[i as int].1@[name@]@[0],
                        ),
                    )
                },
                None => first_named(self.spec_items(), name@) is None,
            }),
    {
        let ghost es = self.files.entries();
        let mut i: usize = 0;
        assert(es.take(0) =~= Seq::<(SourcePath, SortedMap<String, Vec<T>>)>::empty());
        while i < self.files.len()
            invariant
                es == self.files.entries(),
                i <= es.len(),
                first_named(all_items(es.take(i as int)), name@) is None,
            decreases es.len() - i,
        {
            let (path, names): (&SourcePath, &SortedMap<String, Vec<T>>) = self.files.at(i);
            let found: bool = match names.get(name) {
                Some(list) => list.len() > 0,
                None => false,
            };
            proof {
                use_type_invariant(names);
                lemma_first_named_file(path@, names.entries(), name@);
                assert(es.take(i + 1).drop_last() =~= es.take(i as int));
                lemma_first_named_concat(
                    all_items(es.take(i as int)),
                    file_items(path@, names.entries()),
                    name@,
                );
                if found {
                    lemma_first_named_prefix(es, i + 1, name@);
                }
            }
            if found {
                return Some(i);
            }
            i = i + 1;
        }
        assert(es.take(es.len() as int) =~= es);
        None
    }

    /// The first item under `name` in any file.
    pub fn first_named(&self, name: &str) -> (r: Option<&T>)
        ensures
            (match r {
                Some(item) => first_named(self.spec_items(), name@) matches Some(found) && found.1
                    == *item,
                None => first_named(self.spec_items(), name@) is None,
            }),
    {
        let key: String = name.to_owned();
        match self.file_with(&key) {
            None => None,
            Some(i) => {
                let (_, names): (&SourcePath, &SortedMap<String, Vec<T>>) = self.files.at(i);
                match names.get(&key) {
                    Some(list) => Some(&list[0]),
                    None => None,
                }
            },
        }
    }

    /// Takes the first item under `name` in any file out.
    pub fn take_named(&mut self, name: &str, prune: Prune) -> (r: Option<T>)
        ensures
            final(self).wf(),
            (match r {
                Some(item) => first_named(old(self).spec_items(), name@) matches Some(found)
                    && found.1 == item && final(self)@ == without_first(
                    old(self)@,
                    path_parts(found.0),
                    name@,
                    prune,
                ) && final(self).spelled() == old(self).spelled().restrict(final(self)@.dom()),
                None => first_named(old(self).spec_items(), name@) is None && *final(self) == *old(
                    self,
                ),
            }),
    {
        proof {
            use_type_invariant(&*self);
        }
        let key: String = name.to_owned();
        match self.file_with(&key) {
            None => None,
            Some(i) => {
                let path: SourcePath = self.files.at(i).0.copy();
                proof {
                    lemma_lookup(self.files.entries(), i as int);
                    let names = self.files.entries()[i as int].1;
                    assert(self@[path.parts()] == name_lists(names));
                    assert(listed(self@, path.parts(), name@) == names@[name@]@);
                }
                self.take(&path, name, prune)
            },
        }
    }
}

proof fn lemma_first_named_prefix<T>(
    files: Seq<(SourcePath, SortedMap<String, Vec<T>>)>,
    n: int,
    name: Seq<char>,
)
    requires
        0 <= n <= files.len(),
        first_named(all_items(files.take(n)), name) is Some,
    ensures
        first_named(all_items(files), name) == first_named(all_items(files.take(n)), name),
    decreases files.len() - n,
{
    if n == files.len() {
        assert(files.take(n) =~= files);
    } else {
        let next = files.take(n + 1);
        assert(next.drop_last() =~= files.take(n));
        lemma_first_named_concat(
            all_items(files.take(n)),
            file_items(files[n].0@, files[n].1.entries()),
            name,
        );
        lemma_first_named_prefix(files, n + 1, name);
    }
}

/// What borrowed items stand for.
pub open spec fn seen<'a, T>(items: Seq<(&'a SourcePath, &'a String, &'a T)>) -> Seq<
    (Seq<char>, Seq<char>, T),
> {
    items.map_values(|e: (&'a SourcePath, &'a String, &'a T)| (e.0@, e.1@, *e.2))
}

/// What owned items stand for.
pub open spec fn owned<T>(items: Seq<(SourcePath, String, T)>) -> Seq<(Seq<char>, Seq<char>, T)> {
    items.map_values(|e: (SourcePath, String, T)| (e.0@, e.1@, e.2))
}

fn see_list<'a, T>(
    out: &mut Vec<(&'a SourcePath, &'a String, &'a T)>,
    path: &'a SourcePath,
    name: &'a String,
    list: &'a Vec<T>,
)
    ensures
        seen(final(out)@) == seen(old(out)@) + list_items(path@, name@, list@),
{
    let ghost start = seen(out@);
    let ghost items = list_items(path@, name@, list@);
    let mut i: usize = 0;
    assert(seen(out@) =~= start + items.take(0));
    while i < list.len()
        invariant
            i <= list.len(),
            items == list_items(path@, name@, list@),
            seen(out@) == start + items.take(i as int),
        decreases list.len() - i,
    {
        let ghost was = out@;
        out.push((path, name, &list[i]));
        assert(seen(out@) =~= seen(was).push(items[i as int]));
        assert(seen(out@) =~= start + items.take(i + 1));
        i = i + 1;
    }
    assert(items.take(items.len() as int) =~= items);
}

fn see_file<'a, T>(
    out: &mut Vec<(&'a SourcePath, &'a String, &'a T)>,
    path: &'a SourcePath,
    names: &'a SortedMap<String, Vec<T>>,
)
    ensures
        seen(final(out)@) == seen(old(out)@) + file_items(path@, names.entries()),
{
    let ghost start = seen(out@);
    let ghost es = names.entries();
    let mut i: usize = 0;
    assert(es.take(0) =~= Seq::<(String, Vec<T>)>::empty());
    assert(seen(out@) =~= start + file_items(path@, es.take(0)));
    while i < names.len()
        invariant
            es == names.entries(),
            i <= es.len(),
            seen(out@) == start + file_items(path@, es.take(i as int)),
        decreases es.len() - i,
    {
        let (name, list): (&String, &Vec<T>) = names.at(i);
        assert(es.take(i + 1).drop_last() =~= es.take(i as int));
        see_list(out, path, name, list);
        assert(seen(out@) =~= start + file_items(path@, es.take(i + 1)));
        i = i + 1;
    }
    assert(es.take(es.len() as int) =~= es);
}

fn own_file<T>(
    out: &mut Vec<(SourcePath, String, T)>,
    path: &SourcePath,
    names: SortedMap<String, Vec<T>>,
)
    ensures
        owned(final(out)@) == owned(old(out)@) + file_items(path@, names.entries()),
{
    let ghost start = owned(out@);
    let ghost es = names.entries();
    assert(es.take(0) =~= Seq::<(String, Vec<T>)>::empty());
    assert(owned(out@) =~= start + file_items(path@, es.take(0)));
    for entry in it: names.into_entries()
        invariant
            it.seq() == es,
            owned(out@) == start + file_items(path@, es.take(it.index() as int)),
    {
        let ghost here = it.index() as int;
        assert(es.take(here + 1).drop_last() =~= es.take(here));
        let (name, list): (String, Vec<T>) = entry;
        own_list(out, path, &name, list);
        assert(owned(out@) =~= start + file_items(path@, es.take(here + 1)));
    }
    assert(es.take(es.len() as int) =~= es);
}

fn own_list<T>(
    out: &mut Vec<(SourcePath, String, T)>,
    path: &SourcePath,
    name: &String,
    list: Vec<T>,
)
    ensures
        owned(final(out)@) == owned(old(out)@) + list_items(path@, name@, list@),
{
    let ghost start = owned(out@);
    let ghost all = list@;
    let ghost items = list_items(path@, name@, all);
    assert(owned(out@) =~= start + items.take(0));
    for item in it: list
        invariant
            it.seq() == all,
            items == list_items(path@, name@, all),
            owned(out@) == start + items.take(it.index() as int),
    {
        let ghost here = it.index() as int;
        let ghost was = out@;
        out.push((path.copy(), name.clone(), item));
        assert(owned(out@) =~= owned(was).push(items[here]));
        assert(owned(out@) =~= start + items.take(here + 1));
    }
    assert(items.take(items.len() as int) =~= items);
}

impl<T> FileMap<T> {
    /// All items, each with its file and its name.
    pub fn items(&self) -> (r: Vec<(&SourcePath, &String, &T)>)
        ensures
            seen(r@) == self.spec_items(),
    {
        let mut out: Vec<(&SourcePath, &String, &T)> = Vec::new();
        let ghost es = self.files.entries();
        let mut i: usize = 0;
        assert(es.take(0) =~= Seq::<(SourcePath, SortedMap<String, Vec<T>>)>::empty());
        assert(seen(out@) =~= all_items(es.take(0)));
        while i < self.files.len()
            invariant
                es == self.files.entries(),
                i <= es.len(),
                seen(out@) == all_items(es.take(i as int)),
            decreases es.len() - i,
        {
            let (path, names): (&SourcePath, &SortedMap<String, Vec<T>>) = self.files.at(i);
            assert(es.take(i + 1).drop_last() =~= es.take(i as int));
            see_file(&mut out, path, names);
            i = i + 1;
        }
        assert(es.take(es.len() as int) =~= es);
        out
    }

    /// All items, each with its file and its name.
    pub fn into_items(self) -> (r: Vec<(SourcePath, String, T)>)
        ensures
            owned(r@) == self.spec_items(),
    {
        let mut out: Vec<(SourcePath, String, T)> = Vec::new();
        let ghost es = self.files.entries();
        assert(es.take(0) =~= Seq::<(SourcePath, SortedMap<String, Vec<T>>)>::empty());
        assert(owned(out@) =~= all_items(es.take(0)));
        for entry in it: self.files.into_entries()
            invariant
                it.seq() == es,
                owned(out@) == all_items(es.take(it.index() as int)),
        {
            assert(es.take(it.index() + 1).drop_last() =~= es.take(it.index() as int));
            let (path, names): (SourcePath, SortedMap<String, Vec<T>>) = entry;
            own_file(&mut out, &path, names);
        }
        assert(es.take(es.len() as int) =~= es);
        out
    }

    /// The map with the given files.
    pub fn of(files: SortedMap<SourcePath, SortedMap<String, Vec<T>>>) -> (r: Self)
        ensures
            r.wf(),
            r@ == files@.map_values(|names: SortedMap<String, Vec<T>>| name_lists(names)),
            r.spelled() == files.spelled(),
    {
        proof {
            use_type_invariant(&files);
        }
        let ghost es = files.entries();
        let mut i: usize = 0;
        while i < files.len()
            invariant
                es == files.entries(),
                i <= es.len(),
                forall|j: int| 0 <= j < i ==> (#[trigger] es[j]).1.wf(),
            decreases es.len() - i,
        {
            let (_, names): (&SourcePath, &SortedMap<String, Vec<T>>) = files.at(i);
            proof {
                use_type_invariant(names);
            }
            i = i + 1;
        }
        proof {
            assert forall|path: Seq<Part>| files@.contains_key(path) implies (
            #[trigger] files@[path]).wf() by {
                let k = choose|k: int| holds_at(es, k, path);
                lemma_lookup(es, k);
                assert(es[k].1.wf());
            }
        }
        FileMap { files }
    }

    /// The files by path, each with its lists by name.
    pub fn into_files(self) -> (r: SortedMap<SourcePath, SortedMap<String, Vec<T>>>)
        ensures
            self@ == r@.map_values(|names: SortedMap<String, Vec<T>>| name_lists(names)),
            self.spelled() == r.spelled(),
            self.listing() == r.entries().map_values(
                |e: (SourcePath, SortedMap<String, Vec<T>>)| file_lists(e),
            ),
    {
        self.files
    }

    /// Changes every path.
    pub fn repath(&mut self, change: &PathChange)
        ensures
            final(self).wf(),
            final(self)@ == repathed(old(self).listing(), change@),
            final(self).spelled() == respelled(old(self).listing(), change@),
    {
        proof {
            use_type_invariant(&*self);
        }
        let mut files: SortedMap<SourcePath, SortedMap<String, Vec<T>>> = SortedMap::new();
        std::mem::swap(&mut files, &mut self.files);
        let ghost es = files.entries();
        let next: SortedMap<SourcePath, SortedMap<String, Vec<T>>> = repath(files, change);
        proof {
            let moved = changed_files(written_files(es), change@);
            let ps = by_path(moved);
            let deep = |names: SortedMap<String, Vec<T>>| name_lists(names);
            lemma_collected(ps);
            assert forall|path: Seq<Part>| next@.contains_key(path) implies (
            #[trigger] next@[path]).wf() by {
                assert(collected(ps).contains_key(path));
                let i = choose|i: int|
                    #![trigger ps[i]]
                    0 <= i < ps.len() && ps[i] == (path, collected(ps)[path]) && (forall|j: int|
                        i < j < ps.len() ==> (#[trigger] ps[j]).0 != path);
                lemma_lookup(es, i);
                assert(old(self).files@[es[i].0.key()].wf());
                assert(ps[i].1 == es[i].1);
            }
            lemma_collected_values(ps, deep);
            assert(ps.map_values(
                |p: (Seq<Part>, SortedMap<String, Vec<T>>)| (p.0, deep(p.1)),
            ) =~= by_path(changed_files(old(self).listing(), change@)));
            assert(spellings(moved) =~= spellings(changed_files(old(self).listing(), change@)));
        }
        self.files = next;
    }
}

proof fn lemma_file_items<T>(
    path: Seq<char>,
    names: Seq<(String, Vec<T>)>,
    item: (Seq<char>, Seq<char>, T),
)
    ensures
        file_items(path, names).contains(item) <==> exists|b: int|
            0 <= b < names.len() && list_items(
                path,
                (#[trigger] names[b]).0@,
                names[b].1@,
            ).contains(item),
    decreases names.len(),
{
    if names.len() > 0 {
        let front = names.drop_last();
        let last = list_items(path, names.last().0@, names.last().1@);
        lemma_file_items(path, front, item);
        lemma_contains_concat(file_items(path, front), last, item);
        if file_items(path, front).contains(item) {
            let b = choose|b: int|
                0 <= b < front.len() && list_items(
                    path,
                    (#[trigger] front[b]).0@,
                    front[b].1@,
                ).contains(item);
            assert(names[b] == front[b]);
        }
        if last.contains(item) {
            assert(names[names.len() - 1] == names.last());
        }
        if exists|b: int|
            0 <= b < names.len() && list_items(
                path,
                (#[trigger] names[b]).0@,
                names[b].1@,
            ).contains(item) {
            let b = choose|b: int|
                0 <= b < names.len() && list_items(
                    path,
                    (#[trigger] names[b]).0@,
                    names[b].1@,
                ).contains(item);
            if b < front.len() {
                assert(front[b] == names[b]);
            }
        }
    }
}

proof fn lemma_contains_concat<A>(a: Seq<A>, b: Seq<A>, x: A)
    ensures
        (a + b).contains(x) <==> a.contains(x) || b.contains(x),
{
    if a.contains(x) {
        let i = choose|i: int| 0 <= i < a.len() && a[i] == x;
        assert((a + b)[i] == x);
    }
    if b.contains(x) {
        let i = choose|i: int| 0 <= i < b.len() && b[i] == x;
        assert((a + b)[a.len() + i] == x);
    }
    if (a + b).contains(x) {
        let i = choose|i: int| 0 <= i < (a + b).len() && (a + b)[i] == x;
        if i < a.len() {
            assert(a[i] == x);
        } else {
            assert(b[i - a.len()] == x);
        }
    }
}

proof fn lemma_all_items<T>(
    files: Seq<(SourcePath, SortedMap<String, Vec<T>>)>,
    item: (Seq<char>, Seq<char>, T),
)
    ensures
        all_items(files).contains(item) <==> exists|a: int|
            0 <= a < files.len() && file_items(
                (#[trigger] files[a]).0@,
                files[a].1.entries(),
            ).contains(item),
    decreases files.len(),
{
    if files.len() > 0 {
        let front = files.drop_last();
        let last = file_items(files.last().0@, files.last().1.entries());
        lemma_all_items(front, item);
        lemma_contains_concat(all_items(front), last, item);
        if all_items(front).contains(item) {
            let a = choose|a: int|
                0 <= a < front.len() && file_items(
                    (#[trigger] front[a]).0@,
                    front[a].1.entries(),
                ).contains(item);
            assert(files[a] == front[a]);
        }
        if last.contains(item) {
            assert(files[files.len() - 1] == files.last());
        }
        if exists|a: int|
            0 <= a < files.len() && file_items(
                (#[trigger] files[a]).0@,
                files[a].1.entries(),
            ).contains(item) {
            let a = choose|a: int|
                0 <= a < files.len() && file_items(
                    (#[trigger] files[a]).0@,
                    files[a].1.entries(),
                ).contains(item);
            if a < front.len() {
                assert(front[a] == files[a]);
            }
        }
    }
}

/// What the items hold for a path and a name: each of them that has both, in their order.
pub open spec fn items_under<T>(
    items: Seq<(Seq<char>, Seq<char>, T)>,
    path: Seq<Part>,
    name: Seq<char>,
) -> Seq<T>
    decreases items.len(),
{
    if items.len() == 0 {
        Seq::empty()
    } else {
        let front = items_under(items.drop_last(), path, name);
        if path_parts(items.last().0) == path && items.last().1 == name {
            front.push(items.last().2)
        } else {
            front
        }
    }
}

/// Whether the item at one place may stand before the item at another: by path, and in one file by
/// name.
pub open spec fn in_order<T>(
    a: (Seq<char>, Seq<char>, T),
    b: (Seq<char>, Seq<char>, T),
) -> bool {
    ||| before::<SourcePath>(path_parts(a.0), path_parts(b.0))
    ||| a.0 == b.0 && (before::<String>(a.1, b.1) || a.1 == b.1)
}

proof fn lemma_items_under_concat<T>(
    a: Seq<(Seq<char>, Seq<char>, T)>,
    b: Seq<(Seq<char>, Seq<char>, T)>,
    path: Seq<Part>,
    name: Seq<char>,
)
    ensures
        items_under(a + b, path, name) == items_under(a, path, name) + items_under(b, path, name),
    decreases b.len(),
{
    if b.len() == 0 {
        assert(a + b =~= a);
        assert(items_under(a, path, name) + items_under(b, path, name) =~= items_under(
            a,
            path,
            name,
        ));
    } else {
        assert((a + b).drop_last() =~= a + b.drop_last());
        lemma_items_under_concat(a, b.drop_last(), path, name);
        assert(items_under(a + b, path, name) =~= items_under(a, path, name) + items_under(
            b,
            path,
            name,
        ));
    }
}

proof fn lemma_items_under_list<T>(
    from: Seq<char>,
    key: Seq<char>,
    list: Seq<T>,
    path: Seq<Part>,
    name: Seq<char>,
)
    ensures
        items_under(list_items(from, key, list), path, name) == (if path_parts(from) == path && key == name {
            list
        } else {
            Seq::empty()
        }),
    decreases list.len(),
{
    if list.len() > 0 {
        assert(list_items(from, key, list).drop_last() =~= list_items(from, key, list.drop_last()));
        lemma_items_under_list(from, key, list.drop_last(), path, name);
        assert(list =~= list.drop_last().push(list.last()));
    } else {
        assert(list =~= Seq::empty());
    }
}

proof fn lemma_items_under_file<T>(
    from: Seq<char>,
    names: Seq<(String, Vec<T>)>,
    path: Seq<Part>,
    name: Seq<char>,
)
    requires
        ascending(names),
    ensures
        items_under(file_items(from, names), path, name) == (if path_parts(from) == path && to_map(
            names,
        ).contains_key(name) {
            to_map(names)[name]@
        } else {
            Seq::empty()
        }),
    decreases names.len(),
{
    lemma_collected_entries(names);
    if names.len() > 0 {
        let front = names.drop_last();
        assert forall|i: int, j: int| 0 <= i < j < front.len() implies before::<
            String,
        >(#[trigger] front[i].0.key(), #[trigger] front[j].0.key()) by {
            assert(front[i] == names[i] && front[j] == names[j]);
        }
        lemma_items_under_file(from, front, path, name);
        lemma_collected_entries(front);
        let last = names.last();
        assert(pairs(names).drop_last() =~= pairs(front));
        assert(pairs(names).last() == (last.0@, last.1));
        assert(to_map(names) == to_map(front).insert(last.0@, last.1));
        lemma_items_under_concat(
            file_items(from, front),
            list_items(from, last.0@, last.1@),
            path,
            name,
        );
        lemma_items_under_list(from, last.0@, last.1@, path, name);
        if last.0@ == name && to_map(front).contains_key(name) {
            let i = choose|i: int| holds_at(front, i, name);
            assert(names[i].0.key() == name);
            lemma_before::<String>(name, name);
            assert(before::<String>(names[i].0.key(), names[names.len() - 1].0.key()));
        }
        assert(items_under(file_items(from, names), path, name) =~= (if path_parts(from) == path && to_map(
            names,
        ).contains_key(name) {
            to_map(names)[name]@
        } else {
            Seq::empty()
        }));
    }
}

proof fn lemma_items_under_files<T>(
    files: Seq<(SourcePath, SortedMap<String, Vec<T>>)>,
    path: Seq<Part>,
    name: Seq<char>,
)
    requires
        ascending(files),
        forall|i: int| 0 <= i < files.len() ==> (#[trigger] files[i]).1.wf(),
    ensures
        items_under(all_items(files), path, name) == (if to_map(files).contains_key(path)
            && to_map(files)[path]@.contains_key(name) {
            to_map(files)[path]@[name]@
        } else {
            Seq::empty()
        }),
    decreases files.len(),
{
    lemma_collected_entries(files);
    if files.len() > 0 {
        let front = files.drop_last();
        assert forall|i: int| 0 <= i < front.len() implies (#[trigger] front[i]).1.wf() by {
            assert(front[i] == files[i]);
        }
        assert forall|i: int, j: int| 0 <= i < j < front.len() implies before::<
            SourcePath,
        >(#[trigger] front[i].0.key(), #[trigger] front[j].0.key()) by {
            assert(front[i] == files[i] && front[j] == files[j]);
        }
        lemma_items_under_files(front, path, name);
        lemma_collected_entries(front);
        let last = files.last();
        assert(files[files.len() - 1].1.wf());
        assert(pairs(files).drop_last() =~= pairs(front));
        assert(pairs(files).last() == (last.0.key(), last.1));
        assert(to_map(files) == to_map(front).insert(last.0.key(), last.1));
        lemma_items_under_concat(
            all_items(front),
            file_items(last.0@, last.1.entries()),
            path,
            name,
        );
        lemma_items_under_file(last.0@, last.1.entries(), path, name);
        if last.0.key() == path && to_map(front).contains_key(path) {
            let i = choose|i: int| holds_at(front, i, path);
            assert(files[i].0.key() == path);
            lemma_before::<SourcePath>(path, path);
            assert(before::<SourcePath>(files[i].0.key(), files[files.len() - 1].0.key()));
        }
        assert(items_under(all_items(files), path, name) =~= (if to_map(files).contains_key(path)
            && to_map(files)[path]@.contains_key(name) {
            to_map(files)[path]@[name]@
        } else {
            Seq::empty()
        }));
    }
}

proof fn lemma_file_items_in_order<T>(path: Seq<char>, names: Seq<(String, Vec<T>)>)
    requires
        ascending(names),
    ensures
        forall|i: int|
            0 <= i < file_items(path, names).len() ==> (#[trigger] file_items(path, names)[i]).0
                == path,
        forall|i: int, j: int|
            0 <= i < j < file_items(path, names).len() ==> in_order(
                #[trigger] file_items(path, names)[i],
                #[trigger] file_items(path, names)[j],
            ),
    decreases names.len(),
{
    if names.len() > 0 {
        let front = names.drop_last();
        assert forall|i: int, j: int| 0 <= i < j < front.len() implies before::<
            String,
        >(#[trigger] front[i].0.key(), #[trigger] front[j].0.key()) by {
            assert(front[i] == names[i] && front[j] == names[j]);
        }
        lemma_file_items_in_order(path, front);
        let xs = file_items(path, front);
        let ys = list_items(path, names.last().0@, names.last().1@);
        let all = file_items(path, names);
        assert(all == xs + ys);
        assert forall|i: int, j: int| 0 <= i < j < all.len() implies in_order(
            #[trigger] all[i],
            #[trigger] all[j],
        ) by {
            if j < xs.len() {
                assert(in_order(xs[i], xs[j]));
            } else if i < xs.len() {
                lemma_file_items(path, front, xs[i]);
                assert(xs.contains(xs[i]));
                let b = choose|b: int|
                    0 <= b < front.len() && list_items(
                        path,
                        (#[trigger] front[b]).0@,
                        front[b].1@,
                    ).contains(xs[i]);
                assert(names[b] == front[b]);
                assert(before::<String>(names[b].0.key(), names[names.len() - 1].0.key()));
            }
        }
    }
}

proof fn lemma_all_items_in_order<T>(files: Seq<(SourcePath, SortedMap<String, Vec<T>>)>)
    requires
        ascending(files),
        forall|i: int| 0 <= i < files.len() ==> (#[trigger] files[i]).1.wf(),
    ensures
        forall|i: int, j: int|
            0 <= i < j < all_items(files).len() ==> in_order(
                #[trigger] all_items(files)[i],
                #[trigger] all_items(files)[j],
            ),
    decreases files.len(),
{
    if files.len() > 0 {
        let front = files.drop_last();
        assert forall|i: int| 0 <= i < front.len() implies (#[trigger] front[i]).1.wf() by {
            assert(front[i] == files[i]);
        }
        assert forall|i: int, j: int| 0 <= i < j < front.len() implies before::<
            SourcePath,
        >(#[trigger] front[i].0.key(), #[trigger] front[j].0.key()) by {
            assert(front[i] == files[i] && front[j] == files[j]);
        }
        lemma_all_items_in_order(front);
        let last = files[files.len() - 1];
        assert(last.1.wf());
        lemma_file_items_in_order(last.0@, last.1.entries());
        let xs = all_items(front);
        let ys = file_items(last.0@, last.1.entries());
        let all = all_items(files);
        assert(all == xs + ys);
        assert forall|i: int, j: int| 0 <= i < j < all.len() implies in_order(
            #[trigger] all[i],
            #[trigger] all[j],
        ) by {
            if j < xs.len() {
                assert(in_order(xs[i], xs[j]));
            } else if i < xs.len() {
                lemma_all_items(front, xs[i]);
                assert(xs.contains(xs[i]));
                let a = choose|a: int|
                    0 <= a < front.len() && file_items(
                        (#[trigger] front[a]).0@,
                        front[a].1.entries(),
                    ).contains(xs[i]);
                lemma_file_items_in_order(front[a].0@, front[a].1.entries());
                assert(files[a] == front[a]);
                assert(before::<SourcePath>(files[a].0.key(), files[files.len() - 1].0.key()));
                assert(ys[j - xs.len()].0 == last.0@);
            } else {
                assert(in_order(ys[i - xs.len()], ys[j - xs.len()]));
            }
        }
    }
}

/// How the items stand: by ascending path and, in a file, by ascending name, each with the path as
/// it is written in the map. Those with one path and one name are what is listed there, as often
/// and in the order in which it is listed.
pub proof fn law_items_stand_in_order<T>(map: FileMap<T>)
    requires
        map.wf(),
    ensures
        forall|path: Seq<Part>, name: Seq<char>| #[trigger]
            items_under(map.spec_items(), path, name) == listed(map@, path, name),
        forall|i: int, j: int|
            0 <= i < j < map.spec_items().len() ==> in_order(
                #[trigger] map.spec_items()[i],
                #[trigger] map.spec_items()[j],
            ),
        forall|i: int|
            0 <= i < map.spec_items().len() ==> map.spelled().contains_key(
                path_parts((#[trigger] map.spec_items()[i]).0),
            ) && map.spelled()[path_parts(map.spec_items()[i].0)] == map.spec_items()[i].0,
{
    let es = map.files.entries();
    assert forall|i: int| 0 <= i < es.len() implies (#[trigger] es[i]).1.wf() by {
        lemma_lookup(es, i);
        assert(map.files@[es[i].0.key()].wf());
    }
    lemma_all_items_in_order(es);
    lemma_spelling(es);
    assert forall|i: int| 0 <= i < map.spec_items().len() implies map.spelled().contains_key(
        path_parts((#[trigger] map.spec_items()[i]).0),
    ) && map.spelled()[path_parts(map.spec_items()[i].0)] == map.spec_items()[i].0 by {
        let item = map.spec_items()[i];
        lemma_all_items(es, item);
        assert(all_items(es).contains(item));
        let a = choose|a: int|
            0 <= a < es.len() && file_items(
                (#[trigger] es[a]).0@,
                es[a].1.entries(),
            ).contains(item);
        lemma_file_items_in_order(es[a].0@, es[a].1.entries());
        assert(item.0 == es[a].0@);
        assert(es[a].0.key() == path_parts(item.0));
    }
    assert forall|path: Seq<Part>, name: Seq<char>| #[trigger]
        items_under(map.spec_items(), path, name) == listed(map@, path, name) by {
        lemma_items_under_files(es, path, name);
        assert(map@.dom() =~= map.files@.dom());
        if map.files@.contains_key(path) {
            assert(map@[path] == name_lists(map.files@[path]));
        }
    }
}

/// The places of the items with the given path and name, first to last.
pub open spec fn places_under<T>(
    items: Seq<(Seq<char>, Seq<char>, T)>,
    path: Seq<Part>,
    name: Seq<char>,
) -> Seq<int>
    decreases items.len(),
{
    if items.len() == 0 {
        Seq::empty()
    } else {
        let front = places_under(items.drop_last(), path, name);
        if path_parts(items.last().0) == path && items.last().1 == name {
            front.push(items.len() - 1)
        } else {
            front
        }
    }
}

/// What the items hold for a path and a name is what stands at the places that have both, from the
/// first of these places to the last.
pub proof fn law_items_under<T>(
    items: Seq<(Seq<char>, Seq<char>, T)>,
    path: Seq<Part>,
    name: Seq<char>,
)
    ensures
        items_under(items, path, name).len() == places_under(items, path, name).len(),
        forall|k: int|
            0 <= k < places_under(items, path, name).len() ==> {
                &&& 0 <= #[trigger] places_under(items, path, name)[k] < items.len()
                &&& path_parts(items[places_under(items, path, name)[k]].0) == path
                &&& items[places_under(items, path, name)[k]].1 == name
                &&& items[places_under(items, path, name)[k]].2 == items_under(items, path, name)[k]
            },
        forall|k: int, l: int|
            0 <= k < l < places_under(items, path, name).len() ==> #[trigger] places_under(
                items,
                path,
                name,
            )[k] < #[trigger] places_under(items, path, name)[l],
        forall|i: int|
            0 <= i < items.len() && path_parts((#[trigger] items[i]).0) == path && items[i].1 == name
                ==> places_under(items, path, name).contains(i),
    decreases items.len(),
{
    if items.len() > 0 {
        let front = items.drop_last();
        let places = places_under(items, path, name);
        let front_places = places_under(front, path, name);
        law_items_under(front, path, name);
        assert forall|k: int| 0 <= k < places.len() implies {
            &&& 0 <= #[trigger] places[k] < items.len()
            &&& path_parts(items[places[k]].0) == path
            &&& items[places[k]].1 == name
            &&& items[places[k]].2 == items_under(items, path, name)[k]
        } by {
            if k < front_places.len() {
                assert(places[k] == front_places[k]);
                assert(front[front_places[k]] == items[places[k]]);
            }
        }
        assert forall|k: int, l: int| 0 <= k < l < places.len() implies #[trigger] places[k]
            < #[trigger] places[l] by {
            assert(places[k] == front_places[k]);
            if l < front_places.len() {
                assert(places[l] == front_places[l]);
            }
        }
        assert forall|i: int|
            0 <= i < items.len() && path_parts((#[trigger] items[i]).0) == path && items[i].1
                == name implies places.contains(i) by {
            if i < front.len() {
                assert(front[i] == items[i]);
                let k = choose|k: int| 0 <= k < front_places.len() && front_places[k] == i;
                assert(places[k] == i);
            } else {
                assert(places[places.len() - 1] == i);
            }
        }
    }
}

/// The items are what the lists hold: nothing is left out and nothing is made up.
pub proof fn law_items_are_listed<T>(
    map: FileMap<T>,
    path: Seq<Part>,
    name: Seq<char>,
    item: T,
)
    requires
        map.wf(),
    ensures
        listed(map@, path, name).contains(item) <==> exists|i: int|
            0 <= i < map.spec_items().len() && path_parts((#[trigger] map.spec_items()[i]).0)
                == path && map.spec_items()[i].1 == name && map.spec_items()[i].2 == item,
{
    let items = map.spec_items();
    let under = items_under(items, path, name);
    let places = places_under(items, path, name);
    law_items_stand_in_order(map);
    law_items_under(items, path, name);
    assert(under == listed(map@, path, name));
    if under.contains(item) {
        let k = choose|k: int| 0 <= k < under.len() && under[k] == item;
        assert(0 <= places[k] < items.len());
        assert(items[places[k]].2 == item);
    }
    if exists|i: int|
        0 <= i < items.len() && path_parts((#[trigger] items[i]).0) == path && items[i].1 == name
            && items[i].2 == item {
        let i = choose|i: int|
            0 <= i < items.len() && path_parts((#[trigger] items[i]).0) == path && items[i].1
                == name && items[i].2 == item;
        let k = choose|k: int| 0 <= k < places.len() && places[k] == i;
        assert(under[k] == item);
    }
}

/// The first item with a name is one of the items, and there is none exactly when no item has it.
pub proof fn law_first_named<T>(items: Seq<(Seq<char>, Seq<char>, T)>, name: Seq<char>)
    ensures
        first_named(items, name) is Some <==> exists|i: int|
            0 <= i < items.len() && (#[trigger] items[i]).1 == name,
        first_named(items, name) matches Some(found) ==> exists|i: int|
            #![trigger items[i]]
            0 <= i < items.len() && items[i] == (found.0, name, found.1) && (forall|j: int|
                0 <= j < i ==> (#[trigger] items[j]).1 != name),
    decreases items.len(),
{
    if items.len() > 0 {
        let rest = items.drop_first();
        law_first_named(rest, name);
        assert forall|i: int| 0 < i < items.len() implies #[trigger] items[i] == rest[i - 1] by {}
        if items[0].1 == name {
            assert(items[0] == (items[0].0, name, items[0].2));
        } else {
            if first_named(items, name) is Some {
                let found = first_named(rest, name)->0;
                let i = choose|i: int|
                    #![trigger rest[i]]
                    0 <= i < rest.len() && rest[i] == (found.0, name, found.1) && (forall|j: int|
                        0 <= j < i ==> (#[trigger] rest[j]).1 != name);
                assert(items[i + 1] == (found.0, name, found.1));
                assert forall|j: int| 0 <= j < i + 1 implies (#[trigger] items[j]).1 != name by {
                    if j > 0 {
                        assert(rest[j - 1].1 != name);
                    }
                }
            }
            if exists|i: int| 0 <= i < items.len() && (#[trigger] items[i]).1 == name {
                let i = choose|i: int| 0 <= i < items.len() && (#[trigger] items[i]).1 == name;
                assert(rest[i - 1].1 == name);
            }
        }
    }
}

/// The files stand by ascending path, and together they are the map.
pub proof fn law_listing<T>(map: FileMap<T>)
    requires
        map.wf(),
    ensures
        map@ == collected(by_path(map.listing())),
        map.spelled() == collected(spellings(map.listing())),
        ascending_pairs::<SourcePath, Names<T>>(by_path(map.listing())),
{
    let es = map.files.entries();
    lemma_collected_entries(es);
    let deep = |names: SortedMap<String, Vec<T>>| name_lists(names);
    lemma_collected_values(pairs(es), deep);
    assert(pairs(es).map_values(|p: (Seq<Part>, SortedMap<String, Vec<T>>)| (p.0, deep(p.1)))
        =~= by_path(map.listing()));
    lemma_spelling(es);
    lemma_collected_entries(written_keys(es));
    assert(pairs(written_keys(es)) =~= spellings(map.listing()));
    let ps = by_path(map.listing());
    assert forall|i: int, j: int| 0 <= i < j < ps.len() implies before::<SourcePath>(
        (#[trigger] ps[i]).0,
        (#[trigger] ps[j]).0,
    ) by {
        assert(before::<SourcePath>(es[i].0.key(), es[j].0.key()));
    }
}

/// Every file has a spelling, and there are no others.
pub proof fn law_every_file_is_spelled<T>(map: FileMap<T>)
    requires
        map.wf(),
    ensures
        map.spelled().dom() == map@.dom(),
{
    lemma_spelling(map.files.entries());
    assert(map@.dom() =~= map.files@.dom());
}

/// The lists of one file, by ascending name.
spec fn name_pairs<T>(names: Seq<(String, Vec<T>)>) -> Seq<(Seq<char>, Seq<T>)> {
    names.map_values(|e: (String, Vec<T>)| (e.0@, e.1@))
}

proof fn lemma_name_pairs<T>(names: SortedMap<String, Vec<T>>)
    requires
        names.wf(),
    ensures
        collected(name_pairs(names.entries())) == name_lists(names),
        ascending_pairs::<String, Seq<T>>(name_pairs(names.entries())),
{
    let es = names.entries();
    lemma_collected_entries(es);
    let deep = |list: Vec<T>| list@;
    lemma_collected_values(pairs(es), deep);
    assert(pairs(es).map_values(|p: (Seq<char>, Vec<T>)| (p.0, deep(p.1))) =~= name_pairs(es));
    assert(names@.map_values(deep) =~= name_lists(names));
    let ps = name_pairs(es);
    assert forall|i: int, j: int| 0 <= i < j < ps.len() implies before::<String>(
        (#[trigger] ps[i]).0,
        (#[trigger] ps[j]).0,
    ) by {
        assert(before::<String>(es[i].0.key(), es[j].0.key()));
    }
}

proof fn lemma_same_file_items<T>(
    path: Seq<char>,
    a: Seq<(String, Vec<T>)>,
    b: Seq<(String, Vec<T>)>,
)
    requires
        name_pairs(a) == name_pairs(b),
    ensures
        file_items(path, a) == file_items(path, b),
    decreases a.len(),
{
    assert(name_pairs(a).len() == a.len());
    assert(name_pairs(b).len() == b.len());
    if a.len() > 0 {
        assert(name_pairs(a)[a.len() - 1] == (a.last().0@, a.last().1@));
        assert(name_pairs(b)[b.len() - 1] == (b.last().0@, b.last().1@));
        assert(name_pairs(a.drop_last()) =~= name_pairs(a).drop_last());
        assert(name_pairs(b.drop_last()) =~= name_pairs(b).drop_last());
        lemma_same_file_items(path, a.drop_last(), b.drop_last());
    }
}

proof fn lemma_same_all_items<T>(
    a: Seq<(SourcePath, SortedMap<String, Vec<T>>)>,
    b: Seq<(SourcePath, SortedMap<String, Vec<T>>)>,
)
    requires
        a.len() == b.len(),
        forall|i: int|
            #![trigger a[i]]
            0 <= i < a.len() ==> a[i].0@ == b[i].0@ && a[i].1.wf() && b[i].1.wf() && name_lists(
                a[i].1,
            ) == name_lists(b[i].1),
    ensures
        all_items(a) == all_items(b),
    decreases a.len(),
{
    if a.len() > 0 {
        let n = a.len() - 1;
        let x = a[n];
        let y = b[n];
        lemma_name_pairs(x.1);
        lemma_name_pairs(y.1);
        lemma_ascending_unique::<String, Seq<T>>(
            name_pairs(x.1.entries()),
            name_pairs(y.1.entries()),
        );
        lemma_same_file_items(x.0@, x.1.entries(), y.1.entries());
        assert forall|i: int|
            #![trigger a.drop_last()[i]]
            0 <= i < n implies a.drop_last()[i].0@ == b.drop_last()[i].0@
            && a.drop_last()[i].1.wf() && b.drop_last()[i].1.wf() && name_lists(
            a.drop_last()[i].1,
        ) == name_lists(b.drop_last()[i].1) by {
            assert(a.drop_last()[i] == a[i]);
        }
        lemma_same_all_items(a.drop_last(), b.drop_last());
    }
}

/// What is listed, and how the paths are written, determines the order in which it is listed.
pub proof fn law_order_is_determined<T>(a: FileMap<T>, b: FileMap<T>)
    requires
        a.wf(),
        b.wf(),
        a@ == b@,
        a.spelled() == b.spelled(),
    ensures
        a.listing() == b.listing(),
        a.spec_items() == b.spec_items(),
{
    law_listing(a);
    law_listing(b);
    lemma_ascending_unique::<SourcePath, Names<T>>(by_path(a.listing()), by_path(b.listing()));
    let x = a.files.entries();
    let y = b.files.entries();
    lemma_spelling(x);
    lemma_spelling(y);
    assert(by_path(a.listing()).len() == by_path(b.listing()).len());
    assert forall|i: int| 0 <= i < x.len() implies #[trigger] a.listing()[i] == b.listing()[i] by {
        assert(by_path(a.listing())[i] == by_path(b.listing())[i]);
        assert(x[i].0.key() == y[i].0.key());
        assert(a.spelled()[x[i].0.key()] == x[i].0@);
        assert(b.spelled()[y[i].0.key()] == y[i].0@);
    }
    assert(a.listing() =~= b.listing());
    assert(a.listing().len() == x.len());
    assert(b.listing().len() == y.len());
    assert forall|i: int|
        #![trigger x[i]]
        0 <= i < x.len() implies x[i].0@ == y[i].0@ && x[i].1.wf() && y[i].1.wf() && name_lists(
        x[i].1,
    ) == name_lists(y[i].1) by {
        assert(a.listing()[i] == file_lists(x[i]));
        assert(b.listing()[i] == file_lists(y[i]));
        lemma_lookup(x, i);
        lemma_lookup(y, i);
        assert(a.files@[x[i].0.key()].wf());
        assert(b.files@[y[i].0.key()].wf());
    }
    lemma_same_all_items(x, y);
}

/// Whether the lists of a file went from `a` to `b` by putting every item through `f`.
pub open spec fn names_mapped<T, F: Fn(T) -> T>(a: Names<T>, b: Names<T>, f: F) -> bool {
    forall|name: Seq<char>|
        {
            &&& #[trigger] b.contains_key(name) <==> a.contains_key(name)
            &&& b.contains_key(name) ==> {
                &&& b[name].len() == a[name].len()
                &&& forall|i: int|
                    0 <= i < b[name].len() ==> call_ensures(
                        f,
                        (a[name][i],),
                        #[trigger] b[name][i],
                    )
            }
        }
}

/// Whether the files went from `a` to `b` by putting every item through `f`.
pub open spec fn files_mapped<T, F: Fn(T) -> T>(
    a: Map<Seq<Part>, Names<T>>,
    b: Map<Seq<Part>, Names<T>>,
    f: F,
) -> bool {
    forall|path: Seq<Part>|
        {
            &&& #[trigger] b.contains_key(path) <==> a.contains_key(path)
            &&& b.contains_key(path) ==> names_mapped(a[path], b[path], f)
        }
}

fn map_list<T, F: Fn(T) -> T>(list: Vec<T>, f: &F) -> (r: Vec<T>)
    requires
        forall|t: T| #[trigger] call_requires(f, (t,)),
    ensures
        r.len() == list.len(),
        forall|i: int| 0 <= i < r.len() ==> call_ensures(f, (list@[i],), #[trigger] r@[i]),
{
    let mut out: Vec<T> = Vec::new();
    let ghost all = list@;
    for item in it: list
        invariant
            it.seq() == all,
            forall|t: T| #[trigger] call_requires(f, (t,)),
            out.len() == it.index(),
            forall|i: int| 0 <= i < it.index() ==> call_ensures(f, (all[i],), #[trigger] out@[i]),
    {
        out.push(f(item));
    }
    out
}

fn map_names<T, F: Fn(T) -> T>(names: SortedMap<String, Vec<T>>, f: &F) -> (r: SortedMap<
    String,
    Vec<T>,
>)
    requires
        forall|t: T| #[trigger] call_requires(f, (t,)),
    ensures
        r.wf(),
        names_mapped(name_lists(names), name_lists(r), f),
{
    let each = |list: Vec<T>| -> (out: Vec<T>)
        requires
            forall|t: T| #[trigger] call_requires(f, (t,)),
        ensures
            out.len() == list.len(),
            forall|i: int| 0 <= i < out.len() ==> call_ensures(f, (list@[i],), #[trigger] out@[i]),
        { map_list(list, f) };
    let r: SortedMap<String, Vec<T>> = names.map_values(each);
    proof {
        let a = name_lists(names);
        let b = name_lists(r);
        assert forall|name: Seq<char>|
            {
                &&& #[trigger] b.contains_key(name) <==> a.contains_key(name)
                &&& b.contains_key(name) ==> {
                    &&& b[name].len() == a[name].len()
                    &&& forall|i: int|
                        0 <= i < b[name].len() ==> call_ensures(
                            f,
                            (a[name][i],),
                            #[trigger] b[name][i],
                        )
                }
            } by {
            assert(r@.dom().contains(name) <==> names@.dom().contains(name));
            if b.contains_key(name) {
                assert(r@.contains_key(name));
                assert(call_ensures(each, (names@[name],), r@[name]));
            }
        }
    }
    r
}

impl<T> FileMap<T> {
    /// Puts every item through `f`.
    pub fn map_items<F: Fn(T) -> T>(&mut self, f: &F)
        requires
            forall|t: T| #[trigger] call_requires(f, (t,)),
        ensures
            final(self).wf(),
            files_mapped(old(self)@, final(self)@, f),
            final(self).spelled() == old(self).spelled(),
    {
        let mut files: SortedMap<SourcePath, SortedMap<String, Vec<T>>> = SortedMap::new();
        std::mem::swap(&mut files, &mut self.files);
        let each = |names: SortedMap<String, Vec<T>>| -> (out: SortedMap<String, Vec<T>>)
            requires
                forall|t: T| #[trigger] call_requires(f, (t,)),
            ensures
                out.wf(),
                names_mapped(name_lists(names), name_lists(out), f),
            { map_names(names, f) };
        let next: SortedMap<SourcePath, SortedMap<String, Vec<T>>> = files.map_values(each);
        proof {
            assert forall|path: Seq<Part>| next@.contains_key(path) implies (
            #[trigger] next@[path]).wf() by {
                assert(call_ensures(each, (files@[path],), next@[path]));
            }
        }
        self.files = next;
        proof {
            let a = old(self)@;
            let b = self@;
            assert forall|path: Seq<Part>|
                {
                    &&& #[trigger] b.contains_key(path) <==> a.contains_key(path)
                    &&& b.contains_key(path) ==> names_mapped(a[path], b[path], f)
                } by {
                assert(next@.dom().contains(path) <==> files@.dom().contains(path));
                if b.contains_key(path) {
                    assert(next@.contains_key(path));
                    assert(call_ensures(each, (files@[path],), next@[path]));
                }
            }
        }
    }
}

/// Taking an item out shortens one list by its first item and leaves all others as they are.
pub proof fn law_take_touches_one_list<T>(
    files: Map<Seq<Part>, Names<T>>,
    path: Seq<Part>,
    name: Seq<char>,
    prune: Prune,
    other_path: Seq<Part>,
    other_name: Seq<char>,
)
    ensures
        listed(files, path, name).len() > 0 ==> listed(
            without_first(files, path, name, prune),
            path,
            name,
        ) == listed(files, path, name).drop_first(),
        listed(files, path, name).len() == 0 ==> listed(
            without_first(files, path, name, prune),
            path,
            name,
        ).len() == 0,
        (other_path, other_name) != (path, name) ==> listed(
            without_first(files, path, name, prune),
            other_path,
            other_name,
        ) == listed(files, other_path, other_name),
{
    let after = without_first(files, path, name, prune);
    if files.contains_key(path) {
        let names = names_without(files[path], name, prune);
        if listed(files, path, name).len() > 0 {
            assert(listed(after, path, name) =~= listed(files, path, name).drop_first());
        }
        if names.dom().is_empty() {
            assert(!names.dom().contains(other_name));
            assert(!names.contains_key(other_name));
        }
    }
}

/// Whether a file lists something under `name`.
spec fn file_has<T>(
    entry: (SourcePath, SortedMap<String, Vec<T>>),
    name: Seq<char>,
) -> bool {
    entry.1@.contains_key(name) && entry.1@[name]@.len() > 0
}

proof fn lemma_first_named_files<T>(
    files: Seq<(SourcePath, SortedMap<String, Vec<T>>)>,
    name: Seq<char>,
)
    requires
        forall|i: int| 0 <= i < files.len() ==> (#[trigger] files[i]).1.wf(),
    ensures
        (match first_named(all_items(files), name) {
            Some(found) => exists|a: int|
                {
                    &&& 0 <= a < files.len()
                    &&& file_has(#[trigger] files[a], name)
                    &&& found == (files[a].0@, files[a].1@[name]@[0])
                    &&& forall|b: int| 0 <= b < a ==> !file_has(#[trigger] files[b], name)
                },
            None => forall|b: int| 0 <= b < files.len() ==> !file_has(#[trigger] files[b], name),
        }),
    decreases files.len(),
{
    if files.len() > 0 {
        let front = files.drop_last();
        let n = files.len() - 1;
        let last = files[n];
        assert forall|i: int| 0 <= i < front.len() implies (#[trigger] front[i]).1.wf() by {
            assert(front[i] == files[i]);
        }
        lemma_first_named_files(front, name);
        lemma_first_named_concat(
            all_items(front),
            file_items(last.0@, last.1.entries()),
            name,
        );
        lemma_first_named_file(last.0@, last.1.entries(), name);
        match first_named(all_items(front), name) {
            Some(found) => {
                let a = choose|a: int|
                    {
                        &&& 0 <= a < front.len()
                        &&& file_has(#[trigger] front[a], name)
                        &&& found == (front[a].0@, front[a].1@[name]@[0])
                        &&& forall|b: int| 0 <= b < a ==> !file_has(#[trigger] front[b], name)
                    };
                assert(files[a] == front[a]);
                assert forall|b: int| 0 <= b < a implies !file_has(#[trigger] files[b], name) by {
                    assert(front[b] == files[b]);
                }
            },
            None => {
                assert forall|b: int| 0 <= b < n implies !file_has(#[trigger] files[b], name) by {
                    assert(front[b] == files[b]);
                }
            },
        }
    }
}

/// The first item with a name is the first of the list under that name in the first file that lists
/// anything under it.
pub proof fn law_first_named_is_first_listed<T>(map: FileMap<T>, name: Seq<char>)
    requires
        map.wf(),
    ensures
        (match first_named(map.spec_items(), name) {
            Some(found) => {
                &&& listed(map@, path_parts(found.0), name).len() > 0
                &&& found.1 == listed(map@, path_parts(found.0), name)[0]
                &&& forall|path: Seq<Part>|
                    before::<SourcePath>(path, path_parts(found.0)) ==> (#[trigger] listed(
                        map@,
                        path,
                        name,
                    )).len() == 0
            },
            None => forall|path: Seq<Part>| (#[trigger] listed(map@, path, name)).len() == 0,
        }),
{
    let es = map.files.entries();
    assert forall|i: int| 0 <= i < es.len() implies (#[trigger] es[i]).1.wf() by {
        lemma_lookup(es, i);
        assert(map.files@[es[i].0.key()].wf());
    }
    lemma_first_named_files(es, name);
    assert forall|path: Seq<Part>| (#[trigger] listed(map@, path, name)).len() > 0 implies exists|
        i: int,
    |
        0 <= i < es.len() && (#[trigger] es[i]).0.key() == path && file_has(es[i], name) by {
        let i = choose|i: int| holds_at(es, i, path);
        lemma_lookup(es, i);
        assert(map@[path] == name_lists(es[i].1));
    }
    match first_named(map.spec_items(), name) {
        Some(found) => {
            let a = choose|a: int|
                {
                    &&& 0 <= a < es.len()
                    &&& file_has(#[trigger] es[a], name)
                    &&& found == (es[a].0@, es[a].1@[name]@[0])
                    &&& forall|b: int| 0 <= b < a ==> !file_has(#[trigger] es[b], name)
                };
            lemma_lookup(es, a);
            assert(map@[path_parts(found.0)] == name_lists(es[a].1));
            assert forall|path: Seq<Part>| before::<SourcePath>(path, path_parts(found.0)) implies (
            #[trigger] listed(map@, path, name)).len() == 0 by {
                if listed(map@, path, name).len() > 0 {
                    let i = choose|i: int|
                        0 <= i < es.len() && (#[trigger] es[i]).0.key() == path && file_has(es[i], name);
                    lemma_before::<SourcePath>(path, path_parts(found.0));
                    if a < i {
                        assert(before::<SourcePath>(es[a].0.key(), es[i].0.key()));
                    }
                }
            }
        },
        None => {},
    }
}

} // verus!
