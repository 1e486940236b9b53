//! Dictionary order on sequences, as the keys of the library's maps are ordered.

use vstd::prelude::*;

verus! {

/// How two values stand to each other.
#[derive(Clone, Copy, Debug, PartialEq, Eq, Structural)]
pub enum Order {
    Less,
    Same,
    Greater,
}

/// Dictionary order on words: the first letter that differs decides, and a word stands before its
/// own extensions.
pub open spec fn word_order(a: Seq<int>, b: Seq<int>) -> Order
    decreases a.len(),
{
    if a.len() == 0 && b.len() == 0 {
        Order::Same
    } else if a.len() == 0 {
        Order::Less
    } else if b.len() == 0 {
        Order::Greater
    } else if a[0] < b[0] {
        Order::Less
    } else if a[0] > b[0] {
        Order::Greater
    } else {
        word_order(a.drop_first(), b.drop_first())
    }
}

/// Dictionary order on phrases, that is on sequences of words.
pub open spec fn phrase_order(a: Seq<Seq<int>>, b: Seq<Seq<int>>) -> Order
    decreases a.len(),
{
    if a.len() == 0 && b.len() == 0 {
        Order::Same
    } else if a.len() == 0 {
        Order::Less
    } else if b.len() == 0 {
        Order::Greater
    } else if word_order(a[0], b[0]) != Order::Same {
        word_order(a[0], b[0])
    } else {
        phrase_order(a.drop_first(), b.drop_first())
    }
}

/// The letters of a text as numbers: their code points.
pub open spec fn word_of(text: Seq<char>) -> Seq<int> {
    text.map_values(|c: char| c as int)
}

pub(crate) proof fn lemma_word_same(a: Seq<int>, b: Seq<int>)
    ensures
        word_order(a, b) == Order::Same <==> a == b,
    decreases a.len(),
{
    if a.len() > 0 && b.len() > 0 {
        lemma_word_same(a.drop_first(), b.drop_first());
        if a[0] == b[0] && a.drop_first() == b.drop_first() {
            assert(a =~= seq![a[0]] + a.drop_first());
            assert(b =~= seq![b[0]] + b.drop_first());
        }
    } else if a.len() == 0 && b.len() == 0 {
        assert(a =~= b);
    }
}

proof fn lemma_word_reverse(a: Seq<int>, b: Seq<int>)
    ensures
        word_order(a, b) == Order::Less <==> word_order(b, a) == Order::Greater,
    decreases a.len(),
{
    if a.len() > 0 && b.len() > 0 {
        lemma_word_reverse(a.drop_first(), b.drop_first());
    }
}

proof fn lemma_word_transitive(a: Seq<int>, b: Seq<int>, c: Seq<int>)
    requires
        word_order(a, b) == Order::Less,
        word_order(b, c) == Order::Less,
    ensures
        word_order(a, c) == Order::Less,
    decreases a.len(),
{
    if a.len() > 0 && b.len() > 0 && c.len() > 0 && a[0] == b[0] && b[0] == c[0] {
        lemma_word_transitive(a.drop_first(), b.drop_first(), c.drop_first());
    }
}

/// Two phrases compare as the same exactly when they are equal.
pub proof fn lemma_phrase_same(a: Seq<Seq<int>>, b: Seq<Seq<int>>)
    ensures
        phrase_order(a, b) == Order::Same <==> a == b,
    decreases a.len(),
{
    if a.len() > 0 && b.len() > 0 {
        lemma_word_same(a[0], b[0]);
        lemma_phrase_same(a.drop_first(), b.drop_first());
        if a[0] == b[0] && a.drop_first() == b.drop_first() {
            assert(a =~= seq![a[0]] + a.drop_first());
            assert(b =~= seq![b[0]] + b.drop_first());
        }
    } else if a.len() == 0 && b.len() == 0 {
        assert(a =~= b);
    }
}

/// Exchanging two phrases turns their order round.
pub proof fn lemma_phrase_reverse(a: Seq<Seq<int>>, b: Seq<Seq<int>>)
    ensures
        phrase_order(a, b) == Order::Less <==> phrase_order(b, a) == Order::Greater,
    decreases a.len(),
{
    if a.len() > 0 && b.len() > 0 {
        lemma_word_reverse(a[0], b[0]);
        lemma_word_reverse(b[0], a[0]);
        lemma_phrase_reverse(a.drop_first(), b.drop_first());
    }
}

/// The order of phrases is transitive.
pub proof fn lemma_phrase_transitive(a: Seq<Seq<int>>, b: Seq<Seq<int>>, c: Seq<Seq<int>>)
    requires
        phrase_order(a, b) == Order::Less,
        phrase_order(b, c) == Order::Less,
    ensures
        phrase_order(a, c) == Order::Less,
    decreases a.len(),
{
    if a.len() > 0 && b.len() > 0 && c.len() > 0 {
        lemma_word_same(a[0], b[0]);
        lemma_word_same(b[0], c[0]);
        lemma_word_same(a[0], c[0]);
        if a[0] == b[0] && b[0] == c[0] {
            lemma_phrase_transitive(a.drop_first(), b.drop_first(), c.drop_first());
        } else if a[0] != b[0] && b[0] != c[0] {
            lemma_word_transitive(a[0], b[0], c[0]);
        }
    }
}

/// Compares two texts letter by letter.
pub fn text_order(a: &str, b: &str) -> (r: Order)
    ensures
        r == word_order(word_of(a@), word_of(b@)),
{
    let left: Vec<char> = crate::text::letters(a);
    let right: Vec<char> = crate::text::letters(b);
    let ghost x = word_of(a@);
    let ghost y = word_of(b@);
    let mut i: usize = 0;
    assert(x.skip(0) =~= x);
    assert(y.skip(0) =~= y);
    while i < left.len() && i < right.len()
        invariant
            left@ == a@,
            right@ == b@,
            x == word_of(a@),
            y == word_of(b@),
            i <= left.len(),
            i <= right.len(),
            word_order(x, y) == word_order(x.skip(i as int), y.skip(i as int)),
        decreases left.len() - i,
    {
        if left[i] < right[i] {
            return Order::Less;
        }
        if left[i] > right[i] {
            return Order::Greater;
        }
        assert(x.skip(i as int).drop_first() =~= x.skip(i + 1));
        assert(y.skip(i as int).drop_first() =~= y.skip(i + 1));
        i = i + 1;
    }
    if i < left.len() {
        Order::Greater
    } else if i < right.len() {
        Order::Less
    } else {
        Order::Same
    }
}

} // verus!
