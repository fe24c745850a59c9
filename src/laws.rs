use vstd::prelude::*;

use crate::trie::completions;

verus! {

/// Once `w` is stored, completing any shorter prefix of `w` yields `w`, while
/// completing `w` itself yields just the words stored before that extend `w`:
/// none, as long as no longer word through `w` has been stored.
pub proof fn lemma_inserted_word(words: Set<Seq<char>>, w: Seq<char>, p: Seq<char>)
    requires
        p.len() < w.len(),
        w.subrange(0, p.len() as int) == p,
    ensures
        completions(words.insert(w), p).contains(w),
        completions(words.insert(w), w) == completions(words, w),
        (forall|u: Seq<char>| words.contains(u) ==> !(w.len() < u.len() && u.subrange(0, w.len() as int) == w))
            ==> completions(words.insert(w), w) == Set::<Seq<char>>::empty(),
{
    assert(completions(words.insert(w), w) =~= completions(words, w));
    assert(completions(words, w) =~= Set::<Seq<char>>::empty() <== (forall|u: Seq<char>|
        words.contains(u) ==> !(w.len() < u.len() && u.subrange(0, w.len() as int) == w)));
}

/// Storing a word a second time changes neither the stored words nor any completion.
pub proof fn lemma_insert_twice(words: Set<Seq<char>>, w: Seq<char>, p: Seq<char>)
    ensures
        words.insert(w).insert(w) == words.insert(w),
        completions(words.insert(w).insert(w), p) == completions(words.insert(w), p),
{
    assert(words.insert(w).insert(w) =~= words.insert(w));
}

/// Nothing completes anything in an empty tree, the empty prefix included.
pub proof fn lemma_empty_completes_nothing(p: Seq<char>)
    ensures
        completions(Set::<Seq<char>>::empty(), p) == Set::<Seq<char>>::empty(),
{
    assert(completions(Set::<Seq<char>>::empty(), p) =~= Set::<Seq<char>>::empty());
}

/// A prefix of no stored word completes nothing.
pub proof fn lemma_foreign_prefix(words: Set<Seq<char>>, p: Seq<char>)
    requires
        forall|u: Seq<char>|
            words.contains(u) ==> !(p.len() <= u.len() && u.subrange(0, p.len() as int) == p),
    ensures
        completions(words, p) == Set::<Seq<char>>::empty(),
{
    assert(completions(words, p) =~= Set::<Seq<char>>::empty());
}

} // verus!
