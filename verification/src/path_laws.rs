//! What paths and their order are, said of the texts alone.

use vstd::prelude::*;
use crate::order::{phrase_order, word_of, word_order, Order};
use crate::path::{joined_text, last_dot, law_strip_by_components, name_stem, part_word, path_parts, segments, slashed_text, stem, stripped_text, trimmed, glued, segments_from, Part, SourcePath};
use crate::sorted_map::{before, SortKey};
use crate::text::ends_with_letters;

verus! {

/// A path that is one segment has at most one component: the text itself, unless it is empty, `.`
/// or `..`.
pub proof fn law_path_of_one_segment(segment: Seq<char>)
    requires
        !segment.contains('/'),
    ensures
        segment.len() == 0 ==> path_parts(segment) == Seq::<Part>::empty(),
        segment == seq!['.'] ==> path_parts(segment) == seq![Part::CurDir],
        segment == seq!['.', '.'] ==> path_parts(segment) == seq![Part::ParentDir],
        segment.len() > 0 && segment != seq!['.'] && segment != seq!['.', '.'] ==> path_parts(
            segment,
        ) == seq![Part::Normal(segment)],
{
    crate::path::lemma_segments_of_name(segment);
    crate::path::lemma_gathered_one(segment);
    assert(segment.len() > 0 ==> segment.contains(segment[0]));
    assert(path_parts(segment) =~= crate::path::segment_part(segment, true));
}

/// One more segment behind a path adds at most one component: none for an empty one or a `.`, the
/// parent directory for `..`, and otherwise the segment itself. An empty front before the separator
/// is the root.
pub proof fn law_path_with_one_more_segment(front: Seq<char>, segment: Seq<char>)
    requires
        !segment.contains('/'),
    ensures
        ({
            let start = if front.len() == 0 {
                seq![Part::RootDir]
            } else {
                path_parts(front)
            };
            let all = path_parts(front + seq!['/'] + segment);
            &&& segment.len() == 0 || segment == seq!['.'] ==> all == start
            &&& segment == seq!['.', '.'] ==> all == start.push(Part::ParentDir)
            &&& segment.len() > 0 && segment != seq!['.'] && segment != seq!['.', '.'] ==> all
                == start.push(Part::Normal(segment))
        }),
{
    let text = front + seq!['/'] + segment;
    crate::path::lemma_segments_plain(front, segment);
    crate::path::lemma_segments_nonempty(front);
    let all = segments(text);
    assert(all.drop_last() =~= segments(front));
    let added = crate::path::segment_part(segment, false);
    if front.len() == 0 {
        assert(front =~= Seq::<char>::empty());
        assert(segments(front) =~= seq![Seq::<char>::empty()]);
        crate::path::lemma_gathered_one(Seq::empty());
        assert(text[0] == '/');
        assert(path_parts(text) =~= seq![Part::RootDir] + added);
    } else {
        assert(text[0] == front[0]);
        assert(path_parts(text) =~= path_parts(front) + added);
    }
}

/// Every text is one segment, or a front and one more segment behind it.
pub proof fn law_every_path_has_a_last_segment(text: Seq<char>) -> (r: (Seq<char>, Seq<char>))
    requires
        text.contains('/'),
    ensures
        text == r.0 + seq!['/'] + r.1,
        !r.1.contains('/'),
    decreases text.len(),
{
    let shorter = text.drop_last();
    if text.last() == '/' {
        assert(text =~= shorter + seq!['/'] + Seq::<char>::empty());
        (shorter, Seq::empty())
    } else {
        let k = choose|k: int| 0 <= k < text.len() && text[k] == '/';
        assert(shorter[k] == '/');
        let (front, segment) = law_every_path_has_a_last_segment(shorter);
        let longer = segment.push(text.last());
        assert(text =~= shorter.push(text.last()));
        assert(text =~= front + seq!['/'] + longer);
        assert forall|i: int| 0 <= i < longer.len() implies longer[i] != '/' by {
            if i < segment.len() {
                assert(segment.contains(segment[i]));
            }
        }
        (front, longer)
    }
}

/// How the text of a joined path is written: the absolute path alone, the path alone where there is
/// no root, and otherwise the root, one separator unless the root ends with one, and the path.
pub proof fn law_joined_text(root: Seq<char>, text: Seq<char>)
    ensures
        text.len() > 0 && text[0] == '/' ==> joined_text(root, text) == text,
        root.len() == 0 ==> joined_text(root, text) == text,
        root.len() > 0 && root[root.len() - 1] == '/' && !(text.len() > 0 && text[0] == '/')
            ==> joined_text(root, text) == root + text,
        root.len() > 0 && root[root.len() - 1] != '/' && !(text.len() > 0 && text[0] == '/')
            ==> joined_text(root, text) == root + seq!['/'] + text,
{
}

/// Slashing a text keeps every letter in its place but `\\`, which becomes `/`.
pub proof fn law_slashed_text(text: Seq<char>)
    ensures
        slashed_text(text).len() == text.len(),
        forall|i: int|
            0 <= i < text.len() ==> #[trigger] slashed_text(text)[i] == (if text[i] == '\\' {
                '/'
            } else {
                text[i]
            }),
{
}

/// Whether `part` is written in `text` without a break.
pub open spec fn is_piece(part: Seq<char>, text: Seq<char>) -> bool {
    exists|a: int, b: int|
        0 <= a <= b <= text.len() && part == #[trigger] text.subrange(a, b)
}

proof fn lemma_glued_len(segs: Seq<Seq<char>>, i: int)
    requires
        0 <= i <= segs.len(),
    ensures
        glued(segs.take(i)).len() <= glued(segs).len(),
        glued(segs.take(i)) == glued(segs).subrange(0, glued(segs.take(i)).len() as int),
    decreases segs.len() - i,
{
    if i == segs.len() {
        assert(segs.take(i) =~= segs);
        assert(glued(segs).subrange(0, glued(segs).len() as int) =~= glued(segs));
    } else {
        lemma_glued_len(segs, i + 1);
        let next = segs.take(i + 1);
        let here = segs.take(i);
        assert(next.drop_last() =~= here);
        if i == 0 {
            assert(here.len() == 0);
            assert(glued(segs).subrange(0, 0) =~= glued(here));
        } else {
            assert(glued(next) == glued(here) + seq!['/'] + next.last());
            assert(glued(segs).subrange(0, glued(here).len() as int) =~= glued(next).subrange(
                0,
                glued(here).len() as int,
            ));
            assert(glued(next).subrange(0, glued(here).len() as int) =~= glued(here));
        }
    }
}

proof fn lemma_glued_skip(segs: Seq<Seq<char>>, i: int)
    requires
        0 <= i <= segs.len(),
    ensures
        glued(segs.skip(i)).len() <= glued(segs).len(),
        glued(segs.skip(i)) == glued(segs).subrange(
            glued(segs).len() - glued(segs.skip(i)).len(),
            glued(segs).len() as int,
        ),
    decreases segs.len(),
{
    let whole = glued(segs);
    if segs.len() == 0 {
        assert(segs.skip(i) =~= segs);
        assert(whole.subrange(0, 0) =~= whole);
    } else if i == segs.len() {
        assert(segs.skip(i) =~= Seq::<Seq<char>>::empty());
        assert(whole.subrange(whole.len() as int, whole.len() as int) =~= Seq::<char>::empty());
    } else if i == 0 {
        assert(segs.skip(0) =~= segs);
        assert(whole.subrange(0, whole.len() as int) =~= whole);
    } else {
        let front = segs.drop_last();
        lemma_glued_skip(front, i);
        let rest = segs.skip(i);
        assert(rest.drop_last() =~= front.skip(i));
        assert(rest.last() == segs.last());
        let n = glued(rest).len();
        if rest.len() == 1 {
            assert(glued(rest) == segs.last());
            assert(whole.subrange(whole.len() - n, whole.len() as int) =~= glued(rest));
        } else {
            assert(glued(rest) == glued(front.skip(i)) + seq!['/'] + segs.last());
            assert(whole.subrange(whole.len() - n, whole.len() as int) =~= glued(rest));
        }
    }
}

proof fn lemma_glued_segments(text: Seq<char>)
    ensures
        glued(segments(text)) == text,
    decreases text.len(),
{
    if text.len() > 0 {
        let front = text.drop_last();
        lemma_glued_segments(front);
        crate::path::lemma_segments_nonempty(front);
        let segs = segments(front);
        let all = segments(text);
        if text.last() == '/' {
            assert(all.drop_last() =~= segs);
            assert(glued(all) =~= text);
        } else {
            assert(all.drop_last() =~= segs.drop_last());
            assert(all.last() == segs.last().push(text.last()));
            assert(text =~= front.push(text.last()));
            if segs.len() == 1 {
                assert(all[0] == segs[0].push(text.last()));
            } else {
                assert(glued(segs) == glued(segs.drop_last()) + seq!['/'] + segs.last());
                assert(glued(all) == glued(segs.drop_last()) + seq!['/'] + all.last());
            }
            assert(glued(all) =~= text);
        }
    }
}

proof fn lemma_trimmed_prefix(segs: Seq<Seq<char>>)
    ensures
        trimmed(segs).len() <= segs.len(),
        trimmed(segs) == segs.take(trimmed(segs).len() as int),
        trimmed(segs).len() > 0 ==> trimmed(segs).last().len() > 0 && trimmed(segs).last()
            != seq!['.'],
    decreases segs.len(),
{
    if segs.len() > 0 && crate::path::idle(segs.last()) {
        lemma_trimmed_prefix(segs.drop_last());
        assert(segs.drop_last().take(trimmed(segs).len() as int) =~= segs.take(
            trimmed(segs).len() as int,
        ));
    } else {
        assert(segs.take(segs.len() as int) =~= segs);
    }
}

proof fn lemma_segments_from_suffix(segs: Seq<Seq<char>>, n: nat)
    ensures
        segments_from(segs, n).len() <= segs.len(),
        segments_from(segs, n) == segs.skip(segs.len() - segments_from(segs, n).len()),
    decreases segs.len(),
{
    if segs.len() > 0 {
        let rest = segs.drop_first();
        if crate::path::idle(segs[0]) {
            lemma_segments_from_suffix(rest, n);
            assert(rest.skip(rest.len() - segments_from(segs, n).len()) =~= segs.skip(
                segs.len() - segments_from(segs, n).len(),
            ));
        } else if n == 0 {
            assert(segs.skip(0) =~= segs);
        } else {
            lemma_segments_from_suffix(rest, (n - 1) as nat);
            assert(rest.skip(rest.len() - segments_from(segs, n).len()) =~= segs.skip(
                segs.len() - segments_from(segs, n).len(),
            ));
        }
    } else {
        assert(segs.skip(0) =~= segs);
    }
}

proof fn lemma_piece_of_segments(segs: Seq<Seq<char>>, a: int, b: int)
    requires
        0 <= a <= b <= segs.len(),
    ensures
        is_piece(glued(segs.subrange(a, b)), glued(segs)),
{
    lemma_glued_skip(segs, a);
    let rest = segs.skip(a);
    lemma_glued_len(rest, b - a);
    assert(rest.take(b - a) =~= segs.subrange(a, b));
    let whole = glued(segs);
    let from = whole.len() - glued(rest).len();
    let n = glued(segs.subrange(a, b)).len() as int;
    assert(glued(segs.subrange(a, b)) =~= whole.subrange(from, from + n));
}

/// How the text of a stripped path is written. Where the base does not stand in front, the text
/// stays. Where it does, what is left is a piece of the text, as it stands there, with the
/// remaining components; behind a base that has components, it neither starts nor ends with a
/// separator, nor with a `.` behind one. Where the base has no components, only what stands behind
/// the last component goes.
pub proof fn law_stripped_text(text: Seq<char>, base: Seq<char>)
    ensures
        !path_parts(base).is_prefix_of(path_parts(text)) ==> stripped_text(text, base) == text,
        path_parts(base).is_prefix_of(path_parts(text)) ==> {
            &&& is_piece(stripped_text(text, base), text)
            &&& path_parts(stripped_text(text, base)) == path_parts(text).skip(
                path_parts(base).len() as int,
            )
            &&& path_parts(base).len() > 0 && stripped_text(text, base).len() > 0 ==> {
                &&& stripped_text(text, base)[0] != '/'
                &&& stripped_text(text, base).last() != '/'
                &&& stripped_text(text, base).len() > 1 && stripped_text(text, base).last() == '.'
                    ==> stripped_text(text, base)[stripped_text(text, base).len() - 2] != '/'
            }
            &&& path_parts(base).len() == 0 ==> {
                &&& stripped_text(text, base) == text.take(stripped_text(text, base).len() as int)
                &&& stripped_text(text, base).len() > 1 ==> stripped_text(text, base).last() != '/'
                &&& stripped_text(text, base).len() > 1 && stripped_text(text, base).last() == '.'
                    ==> stripped_text(text, base)[stripped_text(text, base).len() - 2] != '/'
            }
        },
{
    let all = segments(text);
    let parts = path_parts(text);
    let n = path_parts(base).len();
    law_strip_by_components(text, base);
    lemma_glued_segments(text);
    crate::path::lemma_segments_nonempty(text);
    crate::path::lemma_segments_have_no_slash(text);
    if path_parts(base).is_prefix_of(parts) {
        let r = stripped_text(text, base);
        let rest = all.drop_first();
        if n > 0 {
            let (from, k, first) = if crate::path::special_front(text) {
                (rest, (n - 1) as nat, 1int)
            } else {
                (all, n, 0int)
            };
            lemma_segments_from_suffix(from, k);
            let left = segments_from(from, k);
            lemma_trimmed_prefix(left);
            let kept = trimmed(left);
            let a = all.len() - left.len();
            let b = a + kept.len();
            assert(from =~= all.skip(first));
            assert(left =~= all.skip(a));
            assert(kept =~= all.subrange(a, b));
            lemma_piece_of_segments(all, a, b);
            if r.len() > 0 {
                assert(kept.len() > 0);
                crate::path::lemma_root_text(r);
                crate::path::lemma_path_parts_valid(text);
                if r[0] == '/' {
                    assert(path_parts(r)[0] == Part::RootDir);
                    assert(path_parts(r)[0] == parts[n as int]);
                }
                let last = kept.last();
                assert(last == all[b - 1]);
                assert(!last.contains('/'));
                assert(last.contains(last.last()));
                assert(r.last() == last.last());
                if r.len() > 1 && r.last() == '.' {
                    if last.len() == 1 {
                        assert(last =~= seq!['.']);
                    } else {
                        assert(last.contains(last[last.len() - 2]));
                        assert(r[r.len() - 2] == last[last.len() - 2]);
                    }
                }
            }
        } else {
            lemma_trimmed_prefix(rest);
            let tail = trimmed(rest);
            let absolute = text.len() > 0 && text[0] == '/';
            if tail.len() == 0 && absolute {
                assert(text.subrange(0, 1) =~= seq!['/']);
                assert(text.take(1) =~= seq!['/']);
            } else {
                let kept = seq![all[0]] + tail;
                assert(kept =~= all.subrange(0, kept.len() as int));
                lemma_piece_of_segments(all, 0, kept.len() as int);
                lemma_glued_len(all, kept.len() as int);
                assert(all.take(kept.len() as int) =~= kept);
                assert(text.take(r.len() as int) =~= text.subrange(0, r.len() as int));
                if r.len() > 1 {
                    let last = kept.last();
                    assert(last == all[kept.len() - 1]);
                    assert(!last.contains('/'));
                    assert(last.len() > 0);
                    assert(last.contains(last.last()));
                    assert(r.last() == last.last());
                    if r.last() == '.' {
                        if last.len() == 1 {
                            assert(last =~= seq!['.']);
                        } else {
                            assert(last.contains(last[last.len() - 2]));
                            assert(r[r.len() - 2] == last[last.len() - 2]);
                        }
                    }
                }
            }
        }
    }
}

/// The stem of a file's name: what stands before the last `.`, or the whole name where there is no
/// `.` or only one at the front.
pub proof fn law_stem_of_name(front: Seq<char>, extension: Seq<char>)
    requires
        !extension.contains('.'),
    ensures
        front.len() > 0 ==> name_stem(front + seq!['.'] + extension) == front,
        front.len() == 0 ==> name_stem(front + seq!['.'] + extension) == front + seq!['.']
            + extension,
        name_stem(extension) == extension,
    decreases extension.len(),
{
    let name = front + seq!['.'] + extension;
    lemma_last_dot(front, extension);
    assert(name.take(front.len() as int) =~= front);
}

proof fn lemma_last_dot(front: Seq<char>, extension: Seq<char>)
    requires
        !extension.contains('.'),
    ensures
        last_dot(front + seq!['.'] + extension) == front.len(),
        last_dot(extension) == -1,
    decreases extension.len(),
{
    let name = front + seq!['.'] + extension;
    if extension.len() > 0 {
        let shorter = extension.drop_last();
        assert(extension.contains(extension.last()));
        assert forall|i: int| 0 <= i < shorter.len() implies shorter[i] != '.' by {
            assert(extension.contains(extension[i]));
        }
        lemma_last_dot(front, shorter);
        assert(name.drop_last() =~= front + seq!['.'] + shorter);
    }
}

/// A path has a stem exactly when its last component is a name, and it is the stem of that name.
pub proof fn law_stem_of_path(parts: Seq<Part>)
    ensures
        stem(parts) is Some <==> parts.len() > 0 && parts[parts.len() - 1] is Normal,
        parts.len() > 0 ==> (parts[parts.len() - 1] matches Part::Normal(name) ==> stem(parts)
            == Some(name_stem(name))),
{
}

/// Whether `a` stands before `b` in dictionary order: at the first place where they differ `a` has
/// the smaller letter, or `b` goes on where `a` ends.
pub open spec fn letters_before(a: Seq<char>, b: Seq<char>) -> bool {
    exists|k: int|
        {
            &&& 0 <= k <= a.len()
            &&& k < b.len()
            &&& #[trigger] a.take(k) == b.take(k)
            &&& k < a.len() ==> (a[k] as int) < (b[k] as int)
        }
}

/// Which component stands first: the root, the current directory, the parent directory, then names
/// in dictionary order.
pub open spec fn part_before(a: Part, b: Part) -> bool {
    match (a, b) {
        (Part::Normal(x), Part::Normal(y)) => letters_before(x, y),
        (Part::RootDir, _) => b != Part::RootDir,
        (Part::CurDir, _) => b is ParentDir || b is Normal,
        (Part::ParentDir, _) => b is Normal,
        _ => false,
    }
}

proof fn lemma_word_less(x: Seq<int>, y: Seq<int>)
    ensures
        word_order(x, y) == Order::Less <==> exists|k: int|
            {
                &&& 0 <= k <= x.len()
                &&& k < y.len()
                &&& #[trigger] x.take(k) == y.take(k)
                &&& k < x.len() ==> x[k] < y[k]
            },
    decreases x.len(),
{
    if x.len() == 0 {
        assert(x.take(0) =~= y.take(0));
    } else if y.len() > 0 {
        let a = x.drop_first();
        let b = y.drop_first();
        lemma_word_less(a, b);
        if word_order(x, y) == Order::Less {
            if x[0] < y[0] {
                assert(x.take(0) =~= y.take(0));
            } else {
                let k = choose|k: int|
                    {
                        &&& 0 <= k <= a.len()
                        &&& k < b.len()
                        &&& #[trigger] a.take(k) == b.take(k)
                        &&& k < a.len() ==> a[k] < b[k]
                    };
                assert forall|i: int| 0 <= i < k + 1 implies x[i] == y[i] by {
                    if i > 0 {
                        assert(a.take(k)[i - 1] == b.take(k)[i - 1]);
                    }
                }
                assert(x.take(k + 1) =~= y.take(k + 1));
            }
        }
        if exists|k: int|
            {
                &&& 0 <= k <= x.len()
                &&& k < y.len()
                &&& #[trigger] x.take(k) == y.take(k)
                &&& k < x.len() ==> x[k] < y[k]
            } {
            let k = choose|k: int|
                {
                    &&& 0 <= k <= x.len()
                    &&& k < y.len()
                    &&& #[trigger] x.take(k) == y.take(k)
                    &&& k < x.len() ==> x[k] < y[k]
                };
            if k > 0 {
                assert(x.take(k)[0] == y.take(k)[0]);
                assert(a.take(k - 1) =~= x.take(k).drop_first());
                assert(b.take(k - 1) =~= y.take(k).drop_first());
                assert(a.take(k - 1) == b.take(k - 1));
            }
        }
    }
}

proof fn lemma_letters_before(a: Seq<char>, b: Seq<char>)
    ensures
        word_order(word_of(a), word_of(b)) == Order::Less <==> letters_before(a, b),
{
    let x = word_of(a);
    let y = word_of(b);
    lemma_word_less(x, y);
    if word_order(x, y) == Order::Less {
        let k = choose|k: int|
            {
                &&& 0 <= k <= x.len()
                &&& k < y.len()
                &&& #[trigger] x.take(k) == y.take(k)
                &&& k < x.len() ==> x[k] < y[k]
            };
        assert forall|i: int| 0 <= i < k implies a[i] == b[i] by {
            assert(x.take(k)[i] == y.take(k)[i]);
            assert(x[i] == a[i] as int && y[i] == b[i] as int);
        }
        assert(a.take(k) =~= b.take(k));
    }
    if letters_before(a, b) {
        let k = choose|k: int|
            {
                &&& 0 <= k <= a.len()
                &&& k < b.len()
                &&& #[trigger] a.take(k) == b.take(k)
                &&& k < a.len() ==> (a[k] as int) < (b[k] as int)
            };
        assert forall|i: int| 0 <= i < k implies x[i] == y[i] by {
            assert(a.take(k)[i] == b.take(k)[i]);
        }
        assert(x.take(k) =~= y.take(k));
    }
}

/// Names stand in dictionary order.
pub proof fn law_order_of_names(a: Seq<char>, b: Seq<char>)
    ensures
        before::<String>(a, b) <==> letters_before(a, b),
{
    let x = seq![word_of(a)];
    let y = seq![word_of(b)];
    assert(x.drop_first() =~= Seq::<Seq<int>>::empty());
    assert(y.drop_first() =~= Seq::<Seq<int>>::empty());
    assert(phrase_order(x.drop_first(), y.drop_first()) == Order::Same);
    lemma_letters_before(a, b);
}

proof fn lemma_part_before(a: Part, b: Part)
    ensures
        word_order(part_word(a), part_word(b)) == Order::Less <==> part_before(a, b),
        word_order(part_word(a), part_word(b)) == Order::Same <==> a == b,
{
    crate::path::lemma_part_words(a, b);
    crate::path::lemma_part_kind(a);
    crate::path::lemma_part_kind(b);
    crate::order::lemma_word_same(part_word(a), part_word(b));
    if part_word(a) == part_word(b) {
        crate::path::lemma_part_word_injective(a, b);
    }
    if a is Normal && b is Normal {
        lemma_letters_before(a->Normal_0, b->Normal_0);
    }
}

/// Paths stand in the order of their first components that differ, and a path stands before those
/// that continue it.
pub proof fn law_order_of_paths(a: Seq<Part>, b: Seq<Part>)
    ensures
        before::<SourcePath>(a, b) <==> exists|k: int|
            {
                &&& 0 <= k <= a.len()
                &&& k < b.len()
                &&& #[trigger] a.take(k) == b.take(k)
                &&& k < a.len() ==> part_before(a[k], b[k])
            },
    decreases a.len(),
{
    let x = SourcePath::rank(a);
    let y = SourcePath::rank(b);
    assert(x == a.map_values(|p: Part| part_word(p)));
    assert(y == b.map_values(|p: Part| part_word(p)));
    if a.len() == 0 {
        assert(a.take(0) =~= b.take(0));
    } else if b.len() > 0 {
        let c = a.drop_first();
        let d = b.drop_first();
        law_order_of_paths(c, d);
        lemma_part_before(a[0], b[0]);
        assert(x[0] == part_word(a[0]) && y[0] == part_word(b[0]));
        assert(x.drop_first() =~= SourcePath::rank(c));
        assert(y.drop_first() =~= SourcePath::rank(d));
        if before::<SourcePath>(a, b) {
            if part_before(a[0], b[0]) {
                assert(a.take(0) =~= b.take(0));
            } else {
                let k = choose|k: int|
                    {
                        &&& 0 <= k <= c.len()
                        &&& k < d.len()
                        &&& #[trigger] c.take(k) == d.take(k)
                        &&& k < c.len() ==> part_before(c[k], d[k])
                    };
                assert forall|i: int| 0 <= i < k + 1 implies a[i] == b[i] by {
                    if i > 0 {
                        assert(c.take(k)[i - 1] == d.take(k)[i - 1]);
                    }
                }
                assert(a.take(k + 1) =~= b.take(k + 1));
            }
        }
        if exists|k: int|
            {
                &&& 0 <= k <= a.len()
                &&& k < b.len()
                &&& #[trigger] a.take(k) == b.take(k)
                &&& k < a.len() ==> part_before(a[k], b[k])
            } {
            let k = choose|k: int|
                {
                    &&& 0 <= k <= a.len()
                    &&& k < b.len()
                    &&& #[trigger] a.take(k) == b.take(k)
                    &&& k < a.len() ==> part_before(a[k], b[k])
                };
            if k > 0 {
                assert(a.take(k)[0] == b.take(k)[0]);
                assert(c.take(k - 1) =~= a.take(k).drop_first());
                assert(d.take(k - 1) =~= b.take(k).drop_first());
                assert(c.take(k - 1) == d.take(k - 1));
            }
        }
    }
}

/// A text ends with another exactly when it is some text with the other behind it.
pub proof fn law_ends_with(text: Seq<char>, tail: Seq<char>)
    ensures
        ends_with_letters(text, tail) <==> exists|front: Seq<char>| text == #[trigger] (front + tail),
{
    if ends_with_letters(text, tail) {
        let front = text.take(text.len() - tail.len());
        assert(text =~= front + tail) by {
            assert forall|i: int| front.len() <= i < text.len() implies text[i] == (front
                + tail)[i] by {
                assert(text.subrange(text.len() - tail.len(), text.len() as int)[i - front.len()]
                    == tail[i - front.len()]);
            }
        }
    }
    if exists|front: Seq<char>| text == #[trigger] (front + tail) {
        let front = choose|front: Seq<char>| text == #[trigger] (front + tail);
        assert(text.subrange(text.len() - tail.len(), text.len() as int) =~= tail);
    }
}

} // verus!
