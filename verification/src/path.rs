//! File paths, compared by their components.

use vstd::prelude::*;
use crate::order::{phrase_order, text_order, word_of, word_order, Order};
use crate::sorted_map::SortKey;
use crate::text::{letters, same_text};

verus! {

/// One component of a path.
#[derive(Debug, PartialEq, Eq)]
pub enum PathPart {
    /// The root, at the front of an absolute path.
    RootDir,
    /// The current directory, kept at the front of a path only.
    CurDir,
    /// The parent directory.
    ParentDir,
    /// A file or a directory.
    Normal(String),
}

/// What a component is.
pub enum Part {
    RootDir,
    CurDir,
    ParentDir,
    Normal(Seq<char>),
}

impl View for PathPart {
    type V = Part;

    open spec fn view(&self) -> Part {
        match self {
            PathPart::RootDir => Part::RootDir,
            PathPart::CurDir => Part::CurDir,
            PathPart::ParentDir => Part::ParentDir,
            PathPart::Normal(name) => Part::Normal(name@),
        }
    }
}

/// The pieces of a text between its `/`.
pub open spec fn segments(text: Seq<char>) -> Seq<Seq<char>>
    decreases text.len(),
{
    if text.len() == 0 {
        seq![Seq::empty()]
    } else {
        let front = segments(text.drop_last());
        if text.last() == '/' {
            front.push(Seq::empty())
        } else {
            front.drop_last().push(front.last().push(text.last()))
        }
    }
}

/// The component that a segment stands for, if any: an empty segment stands for none, and `.`
/// does so only at the front of the path.
pub open spec fn segment_part(segment: Seq<char>, at_front: bool) -> Seq<Part> {
    if segment.len() == 0 {
        Seq::empty()
    } else if segment == seq!['.'] {
        if at_front {
            seq![Part::CurDir]
        } else {
            Seq::empty()
        }
    } else if segment == seq!['.', '.'] {
        seq![Part::ParentDir]
    } else {
        seq![Part::Normal(segment)]
    }
}

/// The components that the segments stand for.
pub open spec fn gathered(segments: Seq<Seq<char>>) -> Seq<Part>
    decreases segments.len(),
{
    if segments.len() == 0 {
        Seq::empty()
    } else {
        gathered(segments.drop_last()) + segment_part(segments.last(), segments.len() == 1)
    }
}

/// The root of an absolute path.
pub open spec fn root_part(text: Seq<char>) -> Seq<Part> {
    if text.len() > 0 && text[0] == '/' {
        seq![Part::RootDir]
    } else {
        Seq::empty()
    }
}

/// The components of a path. Repeated separators, a separator at the end and a `.` that is not at
/// the front leave no trace.
pub open spec fn path_parts(text: Seq<char>) -> Seq<Part> {
    root_part(text) + gathered(segments(text))
}

/// Whether `part` can be a component at all.
pub open spec fn valid_part(part: Part) -> bool {
    part matches Part::Normal(name) ==> {
        &&& name.len() > 0
        &&& !name.contains('/')
        &&& name != seq!['.']
        &&& name != seq!['.', '.']
    }
}

/// Whether `parts` are the components of some path: the root and the current directory stand at
/// the front only.
pub open spec fn valid_parts(parts: Seq<Part>) -> bool {
    forall|i: int|
        #![trigger parts[i]]
        0 <= i < parts.len() ==> {
            &&& valid_part(parts[i])
            &&& i > 0 ==> parts[i] != Part::RootDir && parts[i] != Part::CurDir
        }
}

/// Whether the path starts at the root.
pub open spec fn absolute(parts: Seq<Part>) -> bool {
    parts.len() > 0 && parts[0] == Part::RootDir
}

/// The path without `base` in front of it, or the path itself where `base` is not in front.
pub open spec fn stripped(parts: Seq<Part>, base: Seq<Part>) -> Seq<Part> {
    if base.is_prefix_of(parts) {
        parts.skip(base.len() as int)
    } else {
        parts
    }
}

/// The path `parts` as seen from `root`: an absolute path stays, any other continues `root`.
pub open spec fn joined(root: Seq<Part>, parts: Seq<Part>) -> Seq<Part> {
    if absolute(parts) || root.len() == 0 {
        parts
    } else if parts.len() > 0 && parts[0] == Part::CurDir {
        root + parts.skip(1)
    } else {
        root + parts
    }
}

/// The text of a path joined to a root: an absolute path stays, any other is written behind the
/// root and a separator.
pub open spec fn joined_text(root: Seq<char>, text: Seq<char>) -> Seq<char> {
    if root.len() == 0 || text.len() > 0 && text[0] == '/' {
        text
    } else if root.last() == '/' {
        root + text
    } else {
        root + seq!['/'] + text
    }
}

/// Whether a segment that is not at the front of a path stands for no component.
pub open spec fn idle(segment: Seq<char>) -> bool {
    segment.len() == 0 || segment == seq!['.']
}

/// The segments from the one that stands for component number `n` on.
pub open spec fn segments_from(segments: Seq<Seq<char>>, n: nat) -> Seq<Seq<char>>
    decreases segments.len(),
{
    if segments.len() == 0 {
        segments
    } else if idle(segments[0]) {
        segments_from(segments.drop_first(), n)
    } else if n == 0 {
        segments
    } else {
        segments_from(segments.drop_first(), (n - 1) as nat)
    }
}

/// The segments up to the last one that stands for a component.
pub open spec fn trimmed(segments: Seq<Seq<char>>) -> Seq<Seq<char>>
    decreases segments.len(),
{
    if segments.len() > 0 && idle(segments.last()) {
        trimmed(segments.drop_last())
    } else {
        segments
    }
}

/// The segments as one text, with `/` between them.
pub open spec fn glued(segments: Seq<Seq<char>>) -> Seq<char>
    decreases segments.len(),
{
    if segments.len() == 0 {
        Seq::empty()
    } else if segments.len() == 1 {
        segments[0]
    } else {
        glued(segments.drop_last()) + seq!['/'] + segments.last()
    }
}

/// Whether the first segment stands for a component of its own kind: the root, which is written as
/// an empty segment, or the current directory.
pub open spec fn special_front(text: Seq<char>) -> bool {
    text.len() > 0 && idle(segments(text)[0])
}

/// The text from the first letter of component number `n` to the last letter of the last
/// component, as it is written. From component 0 on that is the whole text but for what stands
/// behind the last component.
pub open spec fn text_from(text: Seq<char>, n: nat) -> Seq<char> {
    let all = segments(text);
    if n > 0 {
        if special_front(text) {
            glued(trimmed(segments_from(all.drop_first(), (n - 1) as nat)))
        } else {
            glued(trimmed(segments_from(all, n)))
        }
    } else {
        let rest = trimmed(all.drop_first());
        if rest.len() == 0 && text.len() > 0 && text[0] == '/' {
            seq!['/']
        } else {
            glued(seq![all[0]] + rest)
        }
    }
}

/// The text of a path without `base` in front of it, or the text itself where `base` is not in
/// front.
pub open spec fn stripped_text(text: Seq<char>, base: Seq<char>) -> Seq<char> {
    if path_parts(base).is_prefix_of(path_parts(text)) {
        text_from(text, path_parts(base).len())
    } else {
        text
    }
}

/// The text with `/` for every `\`.
pub open spec fn slashed_text(text: Seq<char>) -> Seq<char> {
    text.map_values(
        |c: char|
            if c == '\\' {
                '/'
            } else {
                c
            },
    )
}

/// The place of the last `.` in a name, or -1.
pub open spec fn last_dot(name: Seq<char>) -> int
    decreases name.len(),
{
    if name.len() == 0 {
        -1
    } else if name.last() == '.' {
        name.len() - 1
    } else {
        last_dot(name.drop_last())
    }
}

/// The name of a file without its extension. A `.` at the front starts no extension.
pub open spec fn name_stem(name: Seq<char>) -> Seq<char> {
    if last_dot(name) <= 0 {
        name
    } else {
        name.take(last_dot(name))
    }
}

/// The stem of the file that the path names, if its last component is a name.
pub open spec fn stem(parts: Seq<Part>) -> Option<Seq<char>> {
    if parts.len() == 0 {
        None
    } else {
        match parts.last() {
            Part::Normal(name) => Some(name_stem(name)),
            _ => None,
        }
    }
}

/// The word by which a component is ordered: the root before the current directory, before the
/// parent directory, before names.
pub open spec fn part_word(part: Part) -> Seq<int> {
    match part {
        Part::RootDir => seq![0int],
        Part::CurDir => seq![1int],
        Part::ParentDir => seq![2int],
        Part::Normal(name) => seq![3int] + word_of(name),
    }
}

/// A path to a file, as it is written. Two paths are the same when their components are: `src//A.sol`
/// and `src/./A.sol` are the same path as `src/A.sol`, and each keeps its own spelling. Paths are
/// read as on Unix: only `/` separates components, and there are no drive prefixes; a path with `\\`
/// separators has to be slashed first ([`SourcePath::slashed`]).
#[derive(Debug)]
pub struct SourcePath {
    text: String,
    parts: Vec<PathPart>,
}

impl View for SourcePath {
    type V = Seq<char>;

    closed spec fn view(&self) -> Seq<char> {
        self.text@
    }
}

pub(crate) proof fn lemma_segments_nonempty(text: Seq<char>)
    ensures
        segments(text).len() > 0,
        text.len() > 0 && text[0] == '/' ==> segments(text).len() > 1 && segments(text)[0].len() == 0,
    decreases text.len(),
{
    if text.len() > 0 {
        lemma_segments_nonempty(text.drop_last());
    }
}

pub(crate) proof fn lemma_segments_have_no_slash(text: Seq<char>)
    ensures
        forall|i: int|
            0 <= i < segments(text).len() ==> !(#[trigger] segments(text)[i]).contains('/'),
    decreases text.len(),
{
    if text.len() > 0 {
        let front = segments(text.drop_last());
        lemma_segments_have_no_slash(text.drop_last());
        lemma_segments_nonempty(text.drop_last());
        let all = segments(text);
        assert forall|i: int| 0 <= i < all.len() implies !(#[trigger] all[i]).contains('/') by {
            if i < front.len() - 1 {
                assert(all[i] == front[i]);
            } else if text.last() != '/' {
                let seg = front.last();
                assert(all[i] == seg.push(text.last()));
                assert(!seg.contains('/'));
                assert forall|j: int| 0 <= j < all[i].len() implies all[i][j] != '/' by {
                    if j < seg.len() {
                        assert(seg.contains(seg[j]));
                    }
                }
            } else if i == front.len() - 1 {
                assert(all[i] == front[i]);
            }
        }
    }
}

proof fn lemma_gathered_valid(segs: Seq<Seq<char>>)
    requires
        forall|i: int| 0 <= i < segs.len() ==> !(#[trigger] segs[i]).contains('/'),
    ensures
        valid_parts(gathered(segs)),
        forall|i: int|
            0 <= i < gathered(segs).len() ==> #[trigger] gathered(segs)[i] != Part::RootDir,
        segs.len() > 0 && segs[0].len() == 0 ==> forall|i: int|
            0 <= i < gathered(segs).len() ==> #[trigger] gathered(segs)[i] != Part::CurDir,
    decreases segs.len(),
{
    if segs.len() > 0 {
        lemma_gathered_valid(segs.drop_last());
        let front = gathered(segs.drop_last());
        let all = gathered(segs);
        assert(!segs.last().contains('/'));
        assert(segs.len() == 1 ==> front.len() == 0);
        assert forall|i: int| 0 <= i < all.len() implies #[trigger] all[i] == (if i < front.len() {
            front[i]
        } else {
            segment_part(segs.last(), segs.len() == 1)[0]
        }) by {}
    }
}

/// The components of any text are valid.
pub(crate) proof fn lemma_path_parts_valid(text: Seq<char>)
    ensures
        valid_parts(path_parts(text)),
{
    lemma_segments_nonempty(text);
    lemma_segments_have_no_slash(text);
    lemma_gathered_valid(segments(text));
}

/// The views of texts.
spec fn views_of(texts: Seq<&str>) -> Seq<Seq<char>> {
    texts.map_values(|t: &str| t@)
}

/// The pieces of a text between its `/`.
fn split<'a>(text: &'a str) -> (r: Vec<&'a str>)
    ensures
        views_of(r@) == segments(text@),
        r.len() > 0,
{
    let cs: Vec<char> = letters(text);
    let mut out: Vec<&'a str> = Vec::new();
    let mut start: usize = 0;
    let mut i: usize = 0;
    assert(cs@.take(0) =~= Seq::<char>::empty());
    assert(segments(cs@.take(0)).drop_last() =~= Seq::<Seq<char>>::empty());
    assert(cs@.subrange(0, 0) =~= Seq::<char>::empty());
    assert(views_of(out@) =~= Seq::<Seq<char>>::empty());
    while i < cs.len()
        invariant
            cs@ == text@,
            start <= i <= cs.len(),
            segments(cs@.take(i as int)).len() > 0,
            segments(cs@.take(i as int)).last() == cs@.subrange(start as int, i as int),
            views_of(out@) == segments(cs@.take(i as int)).drop_last(),
        decreases cs.len() - i,
    {
        let ghost here = cs@.take(i as int);
        let ghost next = cs@.take(i + 1);
        assert(next.drop_last() =~= here);
        if cs[i] == '/' {
            let ghost was = out@;
            out.push(text.substring_char(start, i));
            proof {
                assert(segments(next).drop_last() =~= segments(here));
                assert(views_of(out@) =~= views_of(was).push(segments(here).last()));
                assert(views_of(out@) =~= segments(here));
            }
            start = i + 1;
            assert(cs@.subrange(i + 1, i + 1) =~= Seq::<char>::empty());
        } else {
            proof {
                assert(segments(next).drop_last() =~= segments(here).drop_last());
                assert(cs@.subrange(start as int, i + 1) =~= cs@.subrange(
                    start as int,
                    i as int,
                ).push(cs@[i as int]));
            }
        }
        i = i + 1;
    }
    assert(cs@.take(cs@.len() as int) =~= cs@);
    let ghost was = out@;
    out.push(text.substring_char(start, i));
    proof {
        assert(views_of(out@) =~= views_of(was).push(segments(text@).last()));
        assert(views_of(out@) =~= segments(text@));
    }
    out
}

impl SourcePath {
    /// The components, as they are kept.
    pub closed spec fn kept(&self) -> Seq<Part> {
        self.parts@.map_values(|p: PathPart| p@)
    }

    /// The components that are kept are those that the text names.
    #[verifier::type_invariant]
    pub open spec fn wf(&self) -> bool {
        self.kept() == path_parts(self@)
    }

    /// The components of the path.
    pub open spec fn parts(&self) -> Seq<Part> {
        path_parts(self@)
    }

    /// The path that a text names.
    pub fn new(text: &str) -> (r: SourcePath)
        ensures
            r.wf(),
            r@ == text@,
    {
        let pieces: Vec<&str> = split(text);
        let mut parts: Vec<PathPart> = Vec::new();
        let ghost views = |p: PathPart| p@;
        proof {
            lemma_segments_nonempty(text@);
            assert(views_of(pieces@).len() == pieces.len());
            assert(views_of(pieces@)[0] == pieces@[0]@);
        }
        let absolute: bool = pieces.len() > 1 && pieces[0].is_empty();
        proof {
            lemma_absolute_text(text@);
        }
        if absolute {
            parts.push(PathPart::RootDir);
        }
        let ghost all = segments(text@);
        let mut i: usize = 0;
        assert(all.take(0) =~= Seq::<Seq<char>>::empty());
        assert(parts@.map_values(views) =~= root_part(text@));
        while i < pieces.len()
            invariant
                views_of(pieces@) == all,
                all == segments(text@),
                views == (|p: PathPart| p@),
                i <= pieces.len(),
                parts@.map_values(views) == root_part(text@) + gathered(all.take(i as int)),
            decreases pieces.len() - i,
        {
            push_segment(&mut parts, pieces[i], i == 0);
            proof {
                assert(all.len() == pieces.len());
                assert(all[i as int] == pieces@[i as int]@);
                assert(all.take(i + 1).drop_last() =~= all.take(i as int));
                assert(parts@.map_values(views) =~= root_part(text@) + gathered(all.take(i + 1)));
            }
            i = i + 1;
        }
        assert(all.take(all.len() as int) =~= all);
        SourcePath { text: text.to_owned(), parts }
    }
}

proof fn lemma_absolute_text(text: Seq<char>)
    ensures
        (segments(text).len() > 1 && segments(text)[0].len() == 0) <==> (text.len() > 0 && text[0]
            == '/'),
        text.len() > 0 && text[0] != '/' ==> segments(text)[0].len() > 0 && segments(text)[0][0]
            == text[0],
        text.len() == 0 ==> segments(text) == seq![Seq::<char>::empty()],
    decreases text.len(),
{
    if text.len() > 1 {
        let front = text.drop_last();
        lemma_absolute_text(front);
        lemma_segments_nonempty(front);
        assert(front[0] == text[0]);
        if segments(front).len() == 1 && text.last() != '/' {
            assert(segments(front).drop_last() =~= Seq::<Seq<char>>::empty());
        }
    } else if text.len() == 1 {
        assert(text.drop_last() =~= Seq::<char>::empty());
        assert(segments(text.drop_last()) =~= seq![Seq::<char>::empty()]);
        assert(seq![Seq::<char>::empty()].drop_last() =~= Seq::<Seq<char>>::empty());
    }
}

/// Appends the component that a segment stands for.
fn push_segment(parts: &mut Vec<PathPart>, segment: &str, at_front: bool)
    ensures
        final(parts)@.map_values(|p: PathPart| p@) == old(parts)@.map_values(|p: PathPart| p@)
            + segment_part(segment@, at_front),
{
    proof {
        reveal_strlit(".");
        reveal_strlit("..");
        assert("."@ =~= seq!['.']);
        assert(".."@ =~= seq!['.', '.']);
    }
    let ghost before = parts@;
    if segment.is_empty() {
    } else if same_text(segment, ".") {
        if at_front {
            parts.push(PathPart::CurDir);
        }
    } else if same_text(segment, "..") {
        parts.push(PathPart::ParentDir);
    } else {
        parts.push(PathPart::Normal(segment.to_owned()));
    }
    assert(parts@.map_values(|p: PathPart| p@) =~= before.map_values(|p: PathPart| p@)
        + segment_part(segment@, at_front));
}

/// Compares two components.
fn part_order(a: &PathPart, b: &PathPart) -> (r: Order)
    ensures
        r == word_order(part_word(a@), part_word(b@)),
{
    proof {
        lemma_part_words(a@, b@);
    }
    match (a, b) {
        (PathPart::Normal(x), PathPart::Normal(y)) => text_order(x.as_str(), y.as_str()),
        (PathPart::RootDir, PathPart::RootDir) => Order::Same,
        (PathPart::CurDir, PathPart::CurDir) => Order::Same,
        (PathPart::ParentDir, PathPart::ParentDir) => Order::Same,
        (PathPart::RootDir, _) => Order::Less,
        (_, PathPart::RootDir) => Order::Greater,
        (PathPart::CurDir, _) => Order::Less,
        (_, PathPart::CurDir) => Order::Greater,
        (PathPart::ParentDir, _) => Order::Less,
        (_, PathPart::ParentDir) => Order::Greater,
    }
}

pub(crate) proof fn lemma_part_words(a: Part, b: Part)
    ensures
        a is Normal && b is Normal ==> word_order(part_word(a), part_word(b)) == word_order(
            word_of(a->Normal_0),
            word_of(b->Normal_0),
        ),
        !(a is Normal) && a == b ==> word_order(part_word(a), part_word(b)) == Order::Same,
        part_word(a)[0] < part_word(b)[0] ==> word_order(part_word(a), part_word(b)) == Order::Less,
        part_word(a)[0] > part_word(b)[0] ==> word_order(part_word(a), part_word(b))
            == Order::Greater,
{
    let x = part_word(a);
    let y = part_word(b);
    if a is Normal && b is Normal {
        assert(x.drop_first() =~= word_of(a->Normal_0));
        assert(y.drop_first() =~= word_of(b->Normal_0));
    }
    if !(a is Normal) && a == b {
        assert(x.drop_first() =~= Seq::<int>::empty());
        assert(word_order(x.drop_first(), y.drop_first()) == Order::Same);
    }
}

pub(crate) proof fn lemma_part_kind(part: Part)
    ensures
        part_word(part).len() > 0,
        part is RootDir <==> part_word(part)[0] == 0,
        part is CurDir <==> part_word(part)[0] == 1,
        part is ParentDir <==> part_word(part)[0] == 2,
        part is Normal <==> part_word(part)[0] == 3,
{
    match part {
        Part::Normal(name) => {
            assert((seq![3int] + word_of(name))[0] == 3);
        },
        _ => {},
    }
}

pub(crate) proof fn lemma_part_word_injective(a: Part, b: Part)
    requires
        part_word(a) == part_word(b),
    ensures
        a == b,
{
    lemma_part_kind(a);
    lemma_part_kind(b);
    assert(part_word(a)[0] == part_word(b)[0]);
    if a is Normal {
        let x = a->Normal_0;
        let y = b->Normal_0;
        assert(word_of(x) =~= part_word(a).drop_first());
        assert(word_of(y) =~= part_word(b).drop_first());
        assert(word_of(x).len() == word_of(y).len());
        assert forall|i: int| 0 <= i < x.len() implies x[i] == y[i] by {
            assert(word_of(x)[i] == word_of(y)[i]);
        }
        assert(x =~= y);
    }
}

/// Whether two components are the same.
fn same_part(a: &PathPart, b: &PathPart) -> (r: bool)
    ensures
        r == (a@ == b@),
{
    match (a, b) {
        (PathPart::Normal(x), PathPart::Normal(y)) => same_text(x.as_str(), y.as_str()),
        (PathPart::RootDir, PathPart::RootDir) => true,
        (PathPart::CurDir, PathPart::CurDir) => true,
        (PathPart::ParentDir, PathPart::ParentDir) => true,
        _ => false,
    }
}

fn copy_part(part: &PathPart) -> (r: PathPart)
    ensures
        r@ == part@,
{
    match part {
        PathPart::RootDir => PathPart::RootDir,
        PathPart::CurDir => PathPart::CurDir,
        PathPart::ParentDir => PathPart::ParentDir,
        PathPart::Normal(name) => PathPart::Normal(name.clone()),
    }
}

/// The same components once more.
fn copy_parts(parts: &Vec<PathPart>) -> (r: Vec<PathPart>)
    ensures
        r@.map_values(|p: PathPart| p@) == parts@.map_values(|p: PathPart| p@),
{
    let mut out: Vec<PathPart> = Vec::new();
    let mut i: usize = 0;
    while i < parts.len()
        invariant
            i <= parts.len(),
            out.len() == i,
            forall|j: int| 0 <= j < i ==> (#[trigger] out@[j])@ == parts@[j]@,
        decreases parts.len() - i,
    {
        out.push(copy_part(&parts[i]));
        i = i + 1;
    }
    assert(out@.map_values(|p: PathPart| p@) =~= parts@.map_values(|p: PathPart| p@));
    out
}

impl SortKey for SourcePath {
    type Key = Seq<Part>;

    open spec fn key(&self) -> Seq<Part> {
        path_parts(self@)
    }

    open spec fn written(&self) -> Seq<char> {
        self@
    }

    open spec fn rank(key: Seq<Part>) -> Seq<Seq<int>> {
        key.map_values(|p: Part| part_word(p))
    }

    proof fn lemma_rank_injective(a: Seq<Part>, b: Seq<Part>) {
        assert(Self::rank(a) == a.map_values(|p: Part| part_word(p)));
        assert(Self::rank(b) == b.map_values(|p: Part| part_word(p)));
        assert(Self::rank(a).len() == Self::rank(b).len());
        assert forall|i: int| 0 <= i < a.len() implies a[i] == b[i] by {
            assert(Self::rank(a)[i] == part_word(a[i]));
            assert(Self::rank(b)[i] == part_word(b[i]));
            lemma_part_word_injective(a[i], b[i]);
        }
        assert(a =~= b);
    }

    fn order(&self, other: &Self) -> (r: Order) {
        proof {
            use_type_invariant(self);
            use_type_invariant(other);
        }
        let ghost x = Self::rank(self.kept());
        let ghost y = Self::rank(other.kept());
        let mut i: usize = 0;
        assert(x.skip(0) =~= x);
        assert(y.skip(0) =~= y);
        while i < self.parts.len() && i < other.parts.len()
            invariant
                x == Self::rank(self.kept()),
                y == Self::rank(other.kept()),
                self.kept() == path_parts(self@),
                other.kept() == path_parts(other@),
                i <= self.parts.len(),
                i <= other.parts.len(),
                phrase_order(x, y) == phrase_order(x.skip(i as int), y.skip(i as int)),
            decreases self.parts.len() - i,
        {
            match part_order(&self.parts[i], &other.parts[i]) {
                Order::Same => {},
                Order::Less => {
                    return Order::Less;
                },
                Order::Greater => {
                    return Order::Greater;
                },
            }
            assert(x.skip(i as int).drop_first() =~= x.skip(i + 1));
            assert(y.skip(i as int).drop_first() =~= y.skip(i + 1));
            i = i + 1;
        }
        if i < self.parts.len() {
            Order::Greater
        } else if i < other.parts.len() {
            Order::Less
        } else {
            Order::Same
        }
    }

    fn copy(&self) -> (r: Self)
        ensures
            r.wf(),
            r@ == self@,
    {
        proof {
            use_type_invariant(self);
        }
        SourcePath { text: self.text.clone(), parts: copy_parts(&self.parts) }
    }
}

impl Clone for SourcePath {
    fn clone(&self) -> (r: Self)
        ensures
            r@ == self@,
    {
        self.copy()
    }
}

impl PartialEq for SourcePath {
    fn eq(&self, other: &Self) -> (r: bool) {
        self.same(other)
    }
}

impl vstd::std_specs::cmp::PartialEqSpecImpl for SourcePath {
    open spec fn obeys_eq_spec() -> bool {
        true
    }

    open spec fn eq_spec(&self, other: &Self) -> bool {
        path_parts(self@) == path_parts(other@)
    }
}

impl Eq for SourcePath {

}

impl SourcePath {
    /// Whether two paths have the same components.
    pub fn same(&self, other: &SourcePath) -> (r: bool)
        ensures
            r == (path_parts(self@) == path_parts(other@)),
    {
        proof {
            use_type_invariant(self);
            use_type_invariant(other);
        }
        if self.parts.len() != other.parts.len() {
            return false;
        }
        let r: bool = self.starts_with(other);
        assert(self.kept().subrange(0, self.kept().len() as int) =~= self.kept());
        r
    }

    /// Whether the components of `base` stand at the front of this path.
    pub fn starts_with(&self, base: &SourcePath) -> (r: bool)
        ensures
            r == path_parts(base@).is_prefix_of(path_parts(self@)),
    {
        proof {
            use_type_invariant(self);
            use_type_invariant(base);
        }
        let ghost mine = self.kept();
        let ghost front = base.kept();
        if base.parts.len() > self.parts.len() {
            return false;
        }
        let mut i: usize = 0;
        while i < base.parts.len()
            invariant
                mine == self.kept(),
                front == base.kept(),
                mine == path_parts(self@),
                front == path_parts(base@),
                i <= base.parts.len() <= self.parts.len(),
                forall|j: int| 0 <= j < i ==> #[trigger] front[j] == mine[j],
            decreases base.parts.len() - i,
        {
            if !same_part(&self.parts[i], &base.parts[i]) {
                assert(front[i as int] != mine[i as int]);
                assert(mine.subrange(0, front.len() as int)[i as int] == mine[i as int]);
                return false;
            }
            assert(front[i as int] == mine[i as int]);
            i = i + 1;
        }
        assert(front =~= mine.subrange(0, front.len() as int));
        true
    }

    /// This path without `base` in front, or a copy of it where `base` is not in front.
    pub fn stripped(&self, base: &SourcePath) -> (r: SourcePath)
        ensures
            r.wf(),
            r@ == stripped_text(self@, base@),
    {
        proof {
            use_type_invariant(self);
            use_type_invariant(base);
        }
        if !self.starts_with(base) {
            return self.copy();
        }
        SourcePath::new(text_behind(self.text.as_str(), base.parts.len()).as_str())
    }

    /// The path `other` as seen from this one.
    pub fn join(&self, other: &SourcePath) -> (r: SourcePath)
        ensures
            r.wf(),
            r@ == joined_text(self@, other@),
    {
        proof {
            use_type_invariant(other);
        }
        let n: usize = self.text.as_str().unicode_len();
        if n == 0 || (other.text.as_str().unicode_len() > 0 && other.text.as_str().get_char(0)
            == '/') {
            return other.copy();
        }
        let mut text: String = self.text.clone();
        if self.text.as_str().get_char(n - 1) != '/' {
            text.append("/");
        }
        text.append(other.text.as_str());
        proof {
            reveal_strlit("/");
            assert(text@ =~= joined_text(self@, other@));
        }
        SourcePath::new(text.as_str())
    }

    /// The text of the path, as it is written.
    pub fn to_text(&self) -> (r: String)
        ensures
            r@ == self@,
    {
        self.text.clone()
    }

    /// The path with `/` for every `\\` in its text.
    pub fn slashed(&self) -> (r: SourcePath)
        ensures
            r.wf(),
            r@ == slashed_text(self@),
    {
        SourcePath::new(slash_text(self.text.as_str()).as_str())
    }

    /// The stem of the file that the path names.
    pub fn file_stem(&self) -> (r: Option<String>)
        ensures
            (match r {
                Some(text) => stem(path_parts(self@)) == Some(text@),
                None => stem(path_parts(self@)) is None,
            }),
    {
        proof {
            use_type_invariant(self);
        }
        if self.parts.len() == 0 {
            return None;
        }
        assert(self.kept().last() == self.parts@.last()@);
        match &self.parts[self.parts.len() - 1] {
            PathPart::Normal(name) => Some(stem_of(name.as_str())),
            _ => None,
        }
    }
}

/// Whether a segment that is not at the front of a path stands for no component.
fn is_idle(segment: &str) -> (r: bool)
    ensures
        r == idle(segment@),
{
    proof {
        reveal_strlit(".");
        assert("."@ =~= seq!['.']);
    }
    segment.is_empty() || same_text(segment, ".")
}

/// Glues the pieces from `start` to `end`.
fn glue(pieces: &Vec<&str>, start: usize, end: usize) -> (r: String)
    requires
        start <= end <= pieces.len(),
    ensures
        r@ == glued(views_of(pieces@).subrange(start as int, end as int)),
{
    let ghost all = views_of(pieces@);
    let mut out: String = String::new();
    let mut i: usize = start;
    proof {
        reveal_strlit("/");
        assert("/"@ =~= seq!['/']);
    }
    while i < end
        invariant
            all == views_of(pieces@),
            "/"@ == seq!['/'],
            start <= i <= end <= pieces.len(),
            out@ == glued(all.subrange(start as int, i as int)),
        decreases end - i,
    {
        if i > start {
            out.append("/");
        }
        out.append(pieces[i]);
        proof {
            let next = all.subrange(start as int, i + 1);
            assert(next.drop_last() =~= all.subrange(start as int, i as int));
            assert(next.last() == pieces@[i as int]@);
            assert(out@ =~= glued(next));
        }
        i = i + 1;
    }
    out
}

/// The text from component number `n` on.
fn text_behind(text: &str, n: usize) -> (r: String)
    ensures
        r@ == text_from(text@, n as nat),
{
    let pieces: Vec<&str> = split(text);
    let ghost all = segments(text@);
    proof {
        lemma_absolute_text(text@);
        assert(all.len() == pieces.len());
        assert(all[0] == pieces@[0]@);
    }
    let text_len: usize = text.unicode_len();
    let special: bool = text_len > 0 && is_idle(pieces[0]);
    let mut start: usize = if n == 0 || special {
        1
    } else {
        0
    };
    let mut left: usize = if n > 0 && special {
        n - 1
    } else {
        n
    };
    let ghost from = start as int;
    let ghost wanted = left as nat;
    if n > 0 {
        while start < pieces.len() && (left > 0 || is_idle(pieces[start]))
            invariant
                views_of(pieces@) == all,
                start <= pieces.len() == all.len(),
                segments_from(all.skip(from), wanted) == segments_from(
                    all.skip(start as int),
                    left as nat,
                ),
            decreases pieces.len() - start,
        {
            assert(all[start as int] == pieces@[start as int]@);
            assert(all.skip(start as int).drop_first() =~= all.skip(start + 1));
            if !is_idle(pieces[start]) {
                left = left - 1;
            }
            start = start + 1;
        }
        proof {
            let rest = all.skip(start as int);
            if start < pieces.len() {
                assert(rest[0] == pieces@[start as int]@);
            }
            assert(segments_from(rest, left as nat) == rest);
        }
    }
    let mut end: usize = pieces.len();
    assert(all.subrange(start as int, end as int) =~= all.skip(start as int));
    while end > start && is_idle(pieces[end - 1])
        invariant
            views_of(pieces@) == all,
            start <= end <= pieces.len() == all.len(),
            trimmed(all.subrange(start as int, end as int)) == trimmed(all.skip(start as int)),
        decreases end,
    {
        let ghost here = all.subrange(start as int, end as int);
        assert(here.last() == pieces@[end - 1]@);
        assert(here.drop_last() =~= all.subrange(start as int, end - 1));
        end = end - 1;
    }
    proof {
        let here = all.subrange(start as int, end as int);
        if end > start {
            assert(here.last() == pieces@[end - 1]@);
        }
        assert(trimmed(here) == here);
        assert(all.skip(0) =~= all);
        assert(all.skip(1) =~= all.drop_first());
    }
    if n > 0 {
        glue(&pieces, start, end)
    } else if end == 1 && text_len > 0 && text.get_char(0) == '/' {
        proof {
            reveal_strlit("/");
            assert("/"@ =~= seq!['/']);
        }
        "/".to_owned()
    } else {
        assert(all.subrange(0, end as int) =~= seq![all[0]] + all.subrange(1, end as int));
        glue(&pieces, 0, end)
    }
}

/// A text with `/` for every `\\`.
fn slash_text(text: &str) -> (r: String)
    ensures
        r@ == slashed_text(text@),
{
    let cs: Vec<char> = letters(text);
    let mut out: String = String::new();
    let mut start: usize = 0;
    let mut i: usize = 0;
    let ghost all = slashed_text(text@);
    while i < cs.len()
        invariant
            cs@ == text@,
            all == slashed_text(text@),
            start <= i <= cs.len(),
            out@ == all.take(start as int),
            forall|j: int| start <= j < i ==> cs@[j] != '\\',
        decreases cs.len() - i,
    {
        if cs[i] == '\\' {
            out.append(text.substring_char(start, i));
            out.append("/");
            proof {
                reveal_strlit("/");
                assert(out@ =~= all.take(i + 1));
            }
            start = i + 1;
        }
        i = i + 1;
    }
    out.append(text.substring_char(start, i));
    assert(out@ =~= all);
    out
}

/// The name of a file without its extension.
fn stem_of(name: &str) -> (r: String)
    ensures
        r@ == name_stem(name@),
{
    let cs: Vec<char> = letters(name);
    let mut i: usize = cs.len();
    assert(name@.take(name@.len() as int) =~= name@);
    while i > 0 && cs[i - 1] != '.'
        invariant
            i <= cs.len(),
            cs@ == name@,
            last_dot(name@) == last_dot(name@.take(i as int)),
        decreases i,
    {
        assert(name@.take(i as int).drop_last() =~= name@.take(i - 1));
        i = i - 1;
    }
    if i <= 1 {
        name.to_owned()
    } else {
        assert(name@.take(i as int).last() == '.');
        name.substring_char(0, i - 1).to_owned()
    }
}

pub(crate) proof fn lemma_segments_plain(front: Seq<char>, name: Seq<char>)
    requires
        !name.contains('/'),
    ensures
        segments(front + seq!['/'] + name) == segments(front).push(name),
    decreases name.len(),
{
    let text = front + seq!['/'] + name;
    if name.len() == 0 {
        assert(text.drop_last() =~= front);
        assert(name =~= Seq::<char>::empty());
    } else {
        let shorter = name.drop_last();
        assert(name.contains(name.last()));
        assert forall|i: int| 0 <= i < shorter.len() implies shorter[i] != '/' by {
            assert(name.contains(name[i]));
        }
        lemma_segments_plain(front, shorter);
        assert(text.drop_last() =~= front + seq!['/'] + shorter);
        assert(shorter.push(name.last()) =~= name);
        assert(segments(front).push(shorter).drop_last() =~= segments(front));
    }
}

pub(crate) proof fn lemma_segments_of_name(name: Seq<char>)
    requires
        !name.contains('/'),
    ensures
        segments(name) == seq![name],
    decreases name.len(),
{
    if name.len() > 0 {
        let shorter = name.drop_last();
        assert(name.contains(name.last()));
        assert forall|i: int| 0 <= i < shorter.len() implies shorter[i] != '/' by {
            assert(name.contains(name[i]));
        }
        lemma_segments_of_name(shorter);
        assert(shorter.push(name.last()) =~= name);
        assert(seq![shorter].drop_last() =~= Seq::<Seq<char>>::empty());
        assert(segments(name) =~= seq![name]);
    } else {
        assert(name =~= Seq::<char>::empty());
    }
}

pub(crate) proof fn lemma_gathered_one(segment: Seq<char>)
    ensures
        gathered(seq![segment]) == segment_part(segment, true),
{
    reveal_with_fuel(gathered, 2);
    assert(seq![segment].drop_last() =~= Seq::<Seq<char>>::empty());
    assert(gathered(seq![segment]) =~= segment_part(segment, true));
}

/// The components that segments stand for behind the front of a path.
spec fn body(segments: Seq<Seq<char>>) -> Seq<Part>
    decreases segments.len(),
{
    if segments.len() == 0 {
        Seq::empty()
    } else {
        segment_part(segments[0], false) + body(segments.drop_first())
    }
}

proof fn lemma_body_concat(a: Seq<Seq<char>>, b: Seq<Seq<char>>)
    ensures
        body(a + b) == body(a) + body(b),
    decreases a.len(),
{
    if a.len() == 0 {
        assert(a + b =~= b);
        assert(body(a) + body(b) =~= body(b));
    } else {
        lemma_body_concat(a.drop_first(), b);
        assert((a + b).drop_first() =~= a.drop_first() + b);
        assert(body(a + b) =~= body(a) + body(b));
    }
}

proof fn lemma_body_one(segment: Seq<char>)
    ensures
        body(seq![segment]) == segment_part(segment, false),
{
    reveal_with_fuel(body, 2);
    assert(seq![segment].drop_first() =~= Seq::<Seq<char>>::empty());
    assert(body(seq![segment]) =~= segment_part(segment, false));
}

/// The front segment stands for what it stands for at the front, the others for what they stand for
/// behind it.
proof fn lemma_gathered_front(segs: Seq<Seq<char>>)
    requires
        segs.len() > 0,
    ensures
        gathered(segs) == segment_part(segs[0], true) + body(segs.drop_first()),
    decreases segs.len(),
{
    if segs.len() == 1 {
        assert(segs =~= seq![segs[0]]);
        lemma_gathered_one(segs[0]);
        assert(segs.drop_first() =~= Seq::<Seq<char>>::empty());
        assert(gathered(segs) =~= segment_part(segs[0], true) + body(segs.drop_first()));
    } else {
        let front = segs.drop_last();
        lemma_gathered_front(front);
        assert(segs.drop_first() =~= front.drop_first() + seq![segs.last()]);
        lemma_body_concat(front.drop_first(), seq![segs.last()]);
        lemma_body_one(segs.last());
        assert(gathered(segs) =~= segment_part(segs[0], true) + body(segs.drop_first()));
    }
}

proof fn lemma_body_has_no_front(segs: Seq<Seq<char>>)
    ensures
        forall|i: int|
            0 <= i < body(segs).len() ==> #[trigger] body(segs)[i] != Part::CurDir && body(segs)[i]
                != Part::RootDir,
    decreases segs.len(),
{
    if segs.len() > 0 {
        lemma_body_has_no_front(segs.drop_first());
    }
}

proof fn lemma_segments_concat(a: Seq<char>, b: Seq<char>)
    ensures
        segments(a + seq!['/'] + b) == segments(a) + segments(b),
    decreases b.len(),
{
    let text = a + seq!['/'] + b;
    if b.len() == 0 {
        assert(b =~= Seq::<char>::empty());
        assert(text.drop_last() =~= a);
        assert(segments(text) =~= segments(a) + segments(b));
    } else {
        let shorter = b.drop_last();
        assert(text.drop_last() =~= a + seq!['/'] + shorter);
        lemma_segments_concat(a, shorter);
        lemma_segments_nonempty(shorter);
        assert((segments(a) + segments(shorter)).drop_last() =~= segments(a) + segments(
            shorter,
        ).drop_last());
        assert(segments(text) =~= segments(a) + segments(b));
    }
}

/// The components of a text by its segments: a special front stands for one component.
proof fn lemma_parts_by_front(text: Seq<char>)
    ensures
        text.len() == 0 ==> path_parts(text).len() == 0,
        special_front(text) ==> path_parts(text).len() > 0 && (path_parts(text)[0] == Part::RootDir
            || path_parts(text)[0] == Part::CurDir) && path_parts(text).drop_first() == body(
            segments(text).drop_first(),
        ),
        text.len() > 0 && !special_front(text) ==> path_parts(text) == body(segments(text))
            && path_parts(text).len() > 0,
        (path_parts(text).len() > 0 && path_parts(text)[0] == Part::RootDir) <==> (text.len() > 0
            && text[0] == '/'),
{
    let all = segments(text);
    let parts = path_parts(text);
    lemma_segments_nonempty(text);
    lemma_absolute_text(text);
    lemma_gathered_front(all);
    lemma_body_has_no_front(all.drop_first());
    let rest = body(all.drop_first());
    if text.len() == 0 {
        assert(all.drop_first() =~= Seq::<Seq<char>>::empty());
    } else if text[0] == '/' {
        assert(parts =~= seq![Part::RootDir] + rest);
        assert(parts.drop_first() =~= rest);
    } else if all[0] == seq!['.'] {
        assert(parts =~= seq![Part::CurDir] + rest);
        assert(parts.drop_first() =~= rest);
    } else {
        assert(parts =~= body(all));
        assert(segment_part(all[0], false).len() == 1);
    }
}

/// A path starts at the root exactly when its text starts with the separator.
pub(crate) proof fn lemma_root_text(text: Seq<char>)
    ensures
        (path_parts(text).len() > 0 && path_parts(text)[0] == Part::RootDir) <==> (text.len() > 0
            && text[0] == '/'),
{
    lemma_parts_by_front(text);
}

/// Joining the texts of two paths joins their components.
pub proof fn law_join_by_components(root: Seq<char>, text: Seq<char>)
    ensures
        path_parts(joined_text(root, text)) == joined(path_parts(root), path_parts(text)),
{
    lemma_parts_by_front(root);
    lemma_parts_by_front(text);
    if root.len() > 0 && !(text.len() > 0 && text[0] == '/') {
        let all = joined_text(root, text);
        let a = if root.last() == '/' {
            root.drop_last()
        } else {
            root
        };
        assert(all =~= a + seq!['/'] + text);
        lemma_segments_concat(a, text);
        lemma_segments_nonempty(a);
        lemma_segments_nonempty(text);
        let front = segments(a);
        let behind = segments(text);
        lemma_gathered_front(front + behind);
        lemma_gathered_front(front);
        assert((front + behind).drop_first() =~= front.drop_first() + behind);
        lemma_body_concat(front.drop_first(), behind);
        assert(gathered(front + behind) =~= gathered(front) + body(behind));
        assert(all[0] == root[0]);
        if root.last() == '/' {
            assert(segments(root) == front.push(Seq::empty()));
            assert(front.push(Seq::<char>::empty()).drop_last() =~= front);
            assert(gathered(segments(root)) =~= gathered(front));
        }
        assert(path_parts(all) =~= path_parts(root) + body(behind));
        lemma_absolute_text(text);
        lemma_body_has_no_front(behind);
        if text.len() == 0 {
            lemma_body_one(Seq::empty());
            assert(body(behind) =~= path_parts(text));
        } else if special_front(text) {
            assert(behind[0] == seq!['.']);
            assert(body(behind) =~= body(behind.drop_first()));
            assert(path_parts(text).skip(1) =~= path_parts(text).drop_first());
        }
        assert(path_parts(all) =~= joined(path_parts(root), path_parts(text)));
    }
}

proof fn lemma_segments_from(segs: Seq<Seq<char>>, n: nat)
    requires
        n <= body(segs).len(),
    ensures
        body(segments_from(segs, n)) == body(segs).skip(n as int),
        segments_from(segs, n).len() > 0 ==> !idle(segments_from(segs, n)[0]),
        forall|i: int|
            0 <= i < segments_from(segs, n).len() ==> segs.contains(
                #[trigger] segments_from(segs, n)[i],
            ),
    decreases segs.len(),
{
    if segs.len() > 0 {
        let rest = segs.drop_first();
        let part = segment_part(segs[0], false);
        assert forall|i: int| 0 <= i < rest.len() implies segs.contains(#[trigger] rest[i]) by {
            assert(segs[i + 1] == rest[i]);
        }
        if idle(segs[0]) {
            assert(body(segs) =~= body(rest));
            lemma_segments_from(rest, n);
        } else if n == 0 {
            assert(body(segs).skip(0) =~= body(segs));
            assert forall|i: int| 0 <= i < segs.len() implies segs.contains(#[trigger] segs[i]) by {}
        } else {
            assert(part.len() == 1);
            lemma_segments_from(rest, (n - 1) as nat);
            assert(body(segs).skip(n as int) =~= body(rest).skip(n - 1));
        }
        let all = segments_from(segs, n);
        assert forall|i: int| 0 <= i < all.len() implies segs.contains(#[trigger] all[i]) by {
            if idle(segs[0]) || n > 0 {
                assert(rest.contains(all[i]));
                let k = choose|k: int| 0 <= k < rest.len() && rest[k] == all[i];
                assert(segs.contains(rest[k]));
            }
        }
    } else {
        assert(body(segs).skip(0) =~= body(segs));
    }
}

proof fn lemma_trimmed(segs: Seq<Seq<char>>)
    ensures
        body(trimmed(segs)) == body(segs),
        trimmed(segs).len() <= segs.len(),
        trimmed(segs) == segs.take(trimmed(segs).len() as int),
        segs.len() > 0 && !idle(segs[0]) ==> trimmed(segs).len() > 0,
    decreases segs.len(),
{
    if segs.len() > 0 && idle(segs.last()) {
        let front = segs.drop_last();
        lemma_trimmed(front);
        assert(segs =~= front + seq![segs.last()]);
        lemma_body_concat(front, seq![segs.last()]);
        lemma_body_one(segs.last());
        assert(body(segs) =~= body(front));
        assert(front.take(trimmed(segs).len() as int) =~= segs.take(trimmed(segs).len() as int));
    } else {
        assert(segs.take(segs.len() as int) =~= segs);
    }
}

proof fn lemma_segments_of_glued(segs: Seq<Seq<char>>)
    requires
        segs.len() > 0,
        forall|i: int| 0 <= i < segs.len() ==> !(#[trigger] segs[i]).contains('/'),
    ensures
        segments(glued(segs)) == segs,
    decreases segs.len(),
{
    if segs.len() == 1 {
        lemma_segments_of_name(segs[0]);
        assert(segs =~= seq![segs[0]]);
    } else {
        let front = segs.drop_last();
        assert forall|i: int| 0 <= i < front.len() implies !(#[trigger] front[i]).contains('/') by {
            assert(front[i] == segs[i]);
        }
        lemma_segments_of_glued(front);
        assert(!segs[segs.len() - 1].contains('/'));
        lemma_segments_plain(glued(front), segs.last());
        assert(front.push(segs.last()) =~= segs);
    }
}

/// What segments behind the front leave when they are trimmed and glued is a path with the
/// components that they stand for.
proof fn lemma_parts_of_rest(segs: Seq<Seq<char>>)
    requires
        segs.len() > 0 ==> !idle(segs[0]),
        forall|i: int| 0 <= i < segs.len() ==> !(#[trigger] segs[i]).contains('/'),
    ensures
        path_parts(glued(trimmed(segs))) == body(segs),
{
    let kept = trimmed(segs);
    let text = glued(kept);
    lemma_trimmed(segs);
    lemma_parts_by_front(text);
    if segs.len() > 0 {
        assert(kept[0] == segs[0]);
        assert forall|i: int| 0 <= i < kept.len() implies !(#[trigger] kept[i]).contains('/') by {
            assert(kept[i] == segs[i]);
        }
        lemma_segments_of_glued(kept);
        lemma_absolute_text(text);
        if text.len() == 0 {
            assert(segments(text)[0].len() == 0);
        }
    } else {
        assert(path_parts(text) =~= body(segs));
    }
}

/// Stripping the text of a path strips its components.
pub proof fn law_strip_by_components(text: Seq<char>, base: Seq<char>)
    ensures
        path_parts(stripped_text(text, base)) == stripped(path_parts(text), path_parts(base)),
{
    let all = segments(text);
    let parts = path_parts(text);
    let n = path_parts(base).len();
    if path_parts(base).is_prefix_of(parts) {
        lemma_parts_by_front(text);
        lemma_segments_nonempty(text);
        lemma_segments_have_no_slash(text);
        lemma_absolute_text(text);
        let rest = all.drop_first();
        assert forall|i: int| 0 <= i < rest.len() implies !(#[trigger] rest[i]).contains('/') by {
            assert(rest[i] == all[i + 1]);
        }
        if n > 0 {
            let (from, k) = if special_front(text) {
                (rest, (n - 1) as nat)
            } else {
                (all, n)
            };
            assert(k <= body(from).len());
            lemma_segments_from(from, k);
            let left = segments_from(from, k);
            assert forall|i: int| 0 <= i < left.len() implies !(#[trigger] left[i]).contains('/') by {
                assert(from.contains(left[i]));
            }
            lemma_parts_of_rest(left);
            assert(parts.skip(n as int) =~= body(from).skip(k as int));
        } else {
            assert(parts.skip(0) =~= parts);
            lemma_trimmed(rest);
            let tail = trimmed(rest);
            let kept = seq![all[0]] + tail;
            assert forall|i: int| 0 <= i < kept.len() implies !(#[trigger] kept[i]).contains('/') by {
                if i > 0 {
                    assert(kept[i] == rest[i - 1]);
                }
            }
            lemma_segments_of_glued(kept);
            lemma_gathered_front(all);
            lemma_gathered_front(kept);
            assert(kept.drop_first() =~= tail);
            assert(gathered(kept) == gathered(all));
            let absolute = text.len() > 0 && text[0] == '/';
            if tail.len() == 0 && absolute {
                lemma_parts_by_front(seq!['/']);
                assert(seq!['/'].drop_last() =~= Seq::<char>::empty());
                let two = segments(seq!['/']);
                assert(two =~= seq![Seq::<char>::empty(), Seq::<char>::empty()]);
                assert(two.drop_first() =~= seq![Seq::<char>::empty()]);
                lemma_body_one(Seq::empty());
                assert(path_parts(seq!['/']) =~= seq![Part::RootDir]);
                assert(parts =~= seq![Part::RootDir]);
            } else {
                let new = glued(kept);
                lemma_absolute_text(new);
                assert(root_part(new) == root_part(text));
                assert(path_parts(new) =~= parts);
            }
        }
    }
}

/// Whether a path continues any path that it is joined to: it does not start at the root or at the
/// current directory.
pub open spec fn relative(parts: Seq<Part>) -> bool {
    parts.len() > 0 ==> parts[0] != Part::RootDir && parts[0] != Part::CurDir
}

/// A relative path that was joined to a root lies under that root, and stripping the root gives the
/// path back.
pub proof fn law_strip_undoes_join(root: Seq<Part>, parts: Seq<Part>)
    requires
        relative(parts),
    ensures
        root.is_prefix_of(joined(root, parts)),
        stripped(joined(root, parts), root) == parts,
{
    let all = joined(root, parts);
    assert(all =~= root + parts);
    assert(all.subrange(0, root.len() as int) =~= root);
    assert(all.skip(root.len() as int) =~= parts);
}

/// What stripping a base leaves, joined to that base, is the path again.
pub proof fn law_join_undoes_strip(text: Seq<char>, base: Seq<char>)
    requires
        path_parts(base).is_prefix_of(path_parts(text)),
    ensures
        path_parts(joined_text(base, stripped_text(text, base))) == path_parts(text),
{
    let parts = path_parts(text);
    let front = path_parts(base);
    let rest = parts.skip(front.len() as int);
    law_strip_by_components(text, base);
    law_join_by_components(base, stripped_text(text, base));
    lemma_path_parts_valid(text);
    assert(front.len() > 0 && rest.len() > 0 ==> rest[0] == parts[front.len() as int]);
    assert(parts.subrange(0, front.len() as int) + rest =~= parts);
    assert(front.len() == 0 ==> rest =~= parts);
}

/// A text with slashed separators has no `\\` left, and slashing it once more changes nothing.
pub proof fn law_slashed_once(text: Seq<char>)
    ensures
        !slashed_text(text).contains('\\'),
        slashed_text(slashed_text(text)) == slashed_text(text),
{
    assert(slashed_text(slashed_text(text)) =~= slashed_text(text));
}

} // verus!
