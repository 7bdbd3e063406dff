//! The two passes over one corpus, one after the other.

use crate::filter::{PhraseFilter, TooManyFingerprints, MAX_FINGERPRINTS};
use crate::index::Vocabulary;
use crate::phrase::{
    build_phrase_filter, fingerprints_of, get_phrase_list, holds_all, known,
    lemma_corpus_names_known, phrases_of,
};
use crate::sorted_set::{lemma_listing_unique, lists, views};
use crate::vocab::{build_vocabulary, corpus_words};
use vstd::prelude::*;

verus! {

/// What the two passes build from a corpus of names.
pub struct TextIndex {
    /// The vocabulary: every word once, in ascending order.
    pub words: Vec<String>,
    /// The exact-match index from each word to its 1-based position.
    pub vocabulary: Vocabulary,
    /// The distinct identifier sequences of the names, in ascending order.
    pub phrases: Vec<Vec<u64>>,
    /// The filter over the fingerprints of the sequences.
    pub filter: PhraseFilter,
}

/// The distinct identifier sequences of `names` under the vocabulary of
/// `names` itself, in ascending order.
pub open spec fn is_phrase_list(
    phrases: Seq<Seq<u64>>,
    words: Seq<Seq<char>>,
    names: Seq<Seq<char>>,
) -> bool {
    lists::<Vec<u64>>(phrases, phrases_of(words, names).to_set())
}

/// Runs both passes over `names`. The second pass reads the names that the
/// first one read, so it finds every word: only a corpus with too many
/// distinct fingerprints for one filter is refused.
pub fn build_index(names: &Vec<String>) -> (r: Result<TextIndex, TooManyFingerprints>)
    ensures
        r matches Ok(index) ==> {
            &&& lists::<String>(views(index.words@), corpus_words(views(names@)))
            &&& index.vocabulary.words() == views(index.words@)
            &&& is_phrase_list(views(index.phrases@), views(index.words@), views(names@))
            &&& holds_all(index.filter.members(), views(index.phrases@))
            &&& index.filter.is_filter_of(fingerprints_of(views(index.phrases@)).to_set())
        },
        r is Err <==> exists|words: Seq<Seq<char>>, phrases: Seq<Seq<u64>>|
            {
                &&& lists::<String>(words, corpus_words(views(names@)))
                &&& #[trigger] is_phrase_list(phrases, words, views(names@))
                &&& fingerprints_of(phrases).to_set().len() > MAX_FINGERPRINTS
            },
{
    let (words, vocabulary) = build_vocabulary(names);
    proof {
        assert forall|i: int| 0 <= i < names@.len() implies known(
            vocabulary.words(),
            #[trigger] names@[i]@,
        ) by {
            assert(views(names@)[i] == names@[i]@);
            lemma_corpus_names_known(vocabulary.words(), views(names@), i);
        }
    }
    let phrases = get_phrase_list(names, &vocabulary);
    proof {
        assert(is_phrase_list(views(phrases@), views(words@), views(names@)));
        assert forall|w: Seq<Seq<char>>, p: Seq<Seq<u64>>|
            lists::<String>(w, corpus_words(views(names@))) && #[trigger] is_phrase_list(
                p,
                w,
                views(names@),
            ) implies w == views(words@) && p == views(phrases@) by {
            lemma_listing_unique::<String>(w, views(words@));
            lemma_listing_unique::<Vec<u64>>(p, views(phrases@));
        }
    }
    match build_phrase_filter(&phrases) {
        Ok(filter) => Ok(TextIndex { words, vocabulary, phrases, filter }),
        Err(e) => Err(e),
    }
}

} // verus!
