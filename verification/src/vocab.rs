//! The vocabulary: every word of every name, in lowercase, once, in ascending
//! order.

use crate::index::{index_image, rank_of, write_vocab_fst, Vocabulary};
use crate::sorted_set::{
    lemma_listing_unique, lemma_take_next_to_set, lists, views, SortedSet,
};
use crate::text::{folded, split_whitespace, to_lowercase, words_of};
use vstd::prelude::*;

verus! {

/// The words that the name `name` contributes to the vocabulary.
pub open spec fn name_words(name: Seq<char>) -> Set<Seq<char>> {
    folded(words_of(name)).to_set()
}

/// The words that the names `names` contribute together.
pub open spec fn corpus_words(names: Seq<Seq<char>>) -> Set<Seq<char>> {
    Set::new(
        |w: Seq<char>| exists|i: int| 0 <= i < names.len() && name_words(#[trigger] names[i]).contains(w),
    )
}

/// The words of the first `i + 1` names are those of the first `i` names
/// with those of the next one.
pub proof fn lemma_corpus_words_next(names: Seq<Seq<char>>, i: int)
    requires
        0 <= i < names.len(),
    ensures
        corpus_words(names.take(i + 1)) == corpus_words(names.take(i)).union(name_words(names[i])),
{
    let longer = names.take(i + 1);
    let shorter = names.take(i);
    let a = corpus_words(longer);
    let b = corpus_words(shorter).union(name_words(names[i]));
    assert forall|w: Seq<char>| a.contains(w) implies b.contains(w) by {
        let j = choose|j: int| 0 <= j < longer.len() && name_words(#[trigger] longer[j]).contains(w);
        if j < i {
            assert(shorter[j] == names[j]);
            assert(name_words(shorter[j]).contains(w));
        }
    }
    assert forall|w: Seq<char>| b.contains(w) implies a.contains(w) by {
        if name_words(names[i]).contains(w) {
            assert(longer[i] == names[i]);
            assert(name_words(longer[i]).contains(w));
        } else {
            let j = choose|j: int|
                0 <= j < shorter.len() && name_words(#[trigger] shorter[j]).contains(w);
            assert(longer[j] == shorter[j]);
            assert(name_words(longer[j]).contains(w));
        }
    }
    assert(a =~= b);
}

/// The names decide the vocabulary: two vocabularies of the same names are
/// the same list, give every word the same identifier, and have the same
/// index, byte for byte. So a second run over unchanged data repeats the
/// first.
pub proof fn lemma_vocabulary_determined(
    a: Seq<Seq<char>>,
    b: Seq<Seq<char>>,
    names: Seq<Seq<char>>,
)
    requires
        lists::<String>(a, corpus_words(names)),
        lists::<String>(b, corpus_words(names)),
    ensures
        a == b,
        forall|w: Seq<char>| rank_of(a, w) == rank_of(b, w),
        index_image(a) == index_image(b),
{
    lemma_listing_unique::<String>(a, b);
}

/// The order of the names, and how often each comes, do not matter: lists
/// that hold the same names contribute the same words.
pub proof fn lemma_corpus_words_of_same_names(first: Seq<Seq<char>>, second: Seq<Seq<char>>)
    requires
        first.to_set() == second.to_set(),
    ensures
        corpus_words(first) == corpus_words(second),
{
    assert forall|w: Seq<char>| corpus_words(first).contains(w) implies corpus_words(
        second,
    ).contains(w) by {
        let i = choose|i: int| 0 <= i < first.len() && name_words(#[trigger] first[i]).contains(w);
        assert(first.to_set().contains(first[i]));
        let j = choose|j: int| 0 <= j < second.len() && second[j] == first[i];
        assert(name_words(second[j]).contains(w));
    }
    assert forall|w: Seq<char>| corpus_words(second).contains(w) implies corpus_words(
        first,
    ).contains(w) by {
        let i = choose|i: int| 0 <= i < second.len() && name_words(#[trigger] second[i]).contains(w);
        assert(second.to_set().contains(second[i]));
        let j = choose|j: int| 0 <= j < first.len() && first[j] == second[i];
        assert(name_words(first[j]).contains(w));
    }
    assert(corpus_words(first) =~= corpus_words(second));
}

/// Adds the words of `name` to `words`: the name is split at whitespace and
/// each piece is put in lowercase.
pub fn fold_name(words: &mut SortedSet<String>, name: &str)
    ensures
        final(words)@ == old(words)@.union(name_words(name@)),
{
    let pieces = split_whitespace(name);
    let ghost lower = folded(words_of(name@));
    let mut i: usize = 0;
    assert(lower.take(0).to_set() =~= Set::<Seq<char>>::empty());
    assert(words@.union(Set::<Seq<char>>::empty()) =~= words@);
    while i < pieces.len()
        invariant
            i <= pieces.len(),
            views(pieces@) == words_of(name@),
            lower == folded(words_of(name@)),
            words@ == old(words)@.union(lower.take(i as int).to_set()),
        decreases pieces.len() - i,
    {
        let word = to_lowercase(pieces[i].as_str());
        assert(views(pieces@)[i as int] == pieces@[i as int]@);
        assert(word@ == lower[i as int]);
        proof {
            lemma_take_next_to_set(lower, i as int);
        }
        words.insert(word);
        assert(words@ =~= old(words)@.union(lower.take(i + 1).to_set()));
        i = i + 1;
    }
    assert(lower.take(i as int) =~= lower);
}

/// The vocabulary of `names`: each of their words once, in ascending order
/// of their UTF-8 bytes. The order in which the names come does not matter.
pub fn get_word_list(names: &Vec<String>) -> (list: Vec<String>)
    ensures
        lists::<String>(views(list@), corpus_words(views(names@))),
{
    let mut words: SortedSet<String> = SortedSet::new();
    let ghost all = views(names@);
    let mut i: usize = 0;
    assert(corpus_words(all.take(0)) =~= Set::<Seq<char>>::empty());
    while i < names.len()
        invariant
            i <= names.len(),
            all == views(names@),
            words@ == corpus_words(all.take(i as int)),
        decreases names.len() - i,
    {
        proof {
            lemma_corpus_words_next(all, i as int);
        }
        fold_name(&mut words, names[i].as_str());
        i = i + 1;
    }
    assert(all.take(i as int) =~= all);
    words.into_vec()
}

/// The single consumer that folds the names of a scan into the vocabulary.
/// It takes one message at a time: a name, or the end of the stream.
pub struct WordAggregator {
    words: SortedSet<String>,
    done: bool,
}

impl WordAggregator {
    /// The words gathered and not yet delivered.
    pub closed spec fn words(&self) -> Set<Seq<char>> {
        self.words@
    }

    /// Whether the end of the stream has been seen.
    pub closed spec fn done(&self) -> bool {
        self.done
    }

    /// An aggregator that has seen nothing.
    pub fn new() -> (a: Self)
        ensures
            a.words() == Set::<Seq<char>>::empty(),
            !a.done(),
    {
        WordAggregator { words: SortedSet::new(), done: false }
    }

    /// Takes the next message of the stream. A name is folded into the words
    /// and nothing is delivered. The end of the stream delivers the
    /// vocabulary, once: whatever comes after it changes nothing and delivers
    /// nothing.
    pub fn receive(&mut self, message: Option<String>) -> (delivered: Option<Vec<String>>)
        ensures
            old(self).done() ==> delivered is None && final(self).done() && final(self).words()
                == old(self).words(),
            !old(self).done() ==> match message {
                Some(name) => {
                    &&& delivered is None
                    &&& !final(self).done()
                    &&& final(self).words() == old(self).words().union(name_words(name@))
                },
                None => {
                    &&& final(self).done()
                    &&& final(self).words() == Set::<Seq<char>>::empty()
                    &&& delivered matches Some(list)
                    &&& lists::<String>(views(list@), old(self).words())
                },
            },
    {
        if self.done {
            return None;
        }
        match message {
            Some(name) => {
                fold_name(&mut self.words, name.as_str());
                None
            },
            None => {
                let mut words: SortedSet<String> = SortedSet::new();
                std::mem::swap(&mut words, &mut self.words);
                self.done = true;
                Some(words.into_vec())
            },
        }
    }
}

/// The first pass: the vocabulary of `names` and its exact-match index.
pub fn build_vocabulary(names: &Vec<String>) -> (r: (Vec<String>, Vocabulary))
    ensures
        lists::<String>(views(r.0@), corpus_words(views(names@))),
        r.1.words() == views(r.0@),
{
    let list = get_word_list(names);
    let vocabulary = write_vocab_fst(&list);
    (list, vocabulary)
}

} // verus!
