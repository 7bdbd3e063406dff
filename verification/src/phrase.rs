//! The second pass: names become sequences of vocabulary identifiers, and
//! the fingerprints of these sequences feed the filter.

use crate::filter::{
    fingerprint, fingerprint_of, FilterError, PhraseFilter, TooManyFingerprints, MAX_FINGERPRINTS,
};
use crate::index::{rank_of, Vocabulary};
use crate::sorted_set::{lemma_take_next_to_set, lists, views, SortedSet};
use crate::text::{folded, split_whitespace, to_lowercase, words_of};
use crate::vocab::{corpus_words, name_words};
use vstd::prelude::*;

verus! {

/// The words that are looked up for the name `name`: its pieces between
/// whitespace, each in lowercase, as the vocabulary holds them.
pub open spec fn token_words(name: Seq<char>) -> Seq<Seq<char>> {
    folded(words_of(name))
}

/// Every word of `name` is in the vocabulary.
pub open spec fn known(vocabulary: Seq<Seq<char>>, name: Seq<char>) -> bool {
    forall|i: int|
        0 <= i < token_words(name).len() ==> vocabulary.contains(#[trigger] token_words(name)[i])
}

/// The identifiers of the words of `name`, in the order of the words.
pub open spec fn token_ids(vocabulary: Seq<Seq<char>>, name: Seq<char>) -> Seq<u64> {
    Seq::new(token_words(name).len(), |i: int| rank_of(vocabulary, token_words(name)[i])->0)
}

/// The identifier sequences of the names `names`, name by name.
pub open spec fn phrases_of(vocabulary: Seq<Seq<char>>, names: Seq<Seq<char>>) -> Seq<Seq<u64>> {
    Seq::new(names.len(), |i: int| token_ids(vocabulary, names[i]))
}

/// The fingerprints of the sequences `phrases`, sequence by sequence.
pub open spec fn fingerprints_of(phrases: Seq<Seq<u64>>) -> Seq<u64> {
    Seq::new(phrases.len(), |i: int| fingerprint_of(phrases[i]))
}

/// A word of a name is missing from the vocabulary: the name does not belong
/// to the corpus that the vocabulary was built from.
#[derive(Clone, Copy, Debug, PartialEq, Eq, Structural)]
pub struct UnknownWord {
    /// The position, among the words of the name, of the first missing one.
    pub position: usize,
}

/// A name of a list holds a word that is missing from the vocabulary.
#[derive(Clone, Copy, Debug, PartialEq, Eq, Structural)]
pub struct UnknownName {
    /// The position of the first such name in the list.
    pub name: usize,
    /// The position, among the words of that name, of the first missing one.
    pub position: usize,
}

/// Position `position` holds the first word of `name` that the vocabulary
/// lacks.
pub open spec fn first_unknown(
    vocabulary: Seq<Seq<char>>,
    name: Seq<char>,
    position: int,
) -> bool {
    &&& 0 <= position < token_words(name).len()
    &&& !vocabulary.contains(token_words(name)[position])
    &&& forall|j: int| 0 <= j < position ==> vocabulary.contains(#[trigger] token_words(name)[j])
}

/// `word` has an identifier in the vocabulary, between 1 and the number of
/// words.
pub open spec fn known_rank(vocabulary: Seq<Seq<char>>, word: Seq<char>) -> bool {
    match rank_of(vocabulary, word) {
        Some(id) => 1 <= id <= vocabulary.len(),
        None => false,
    }
}

/// Every word of every name of a corpus is found in the vocabulary of that
/// corpus, under an identifier of at least 1: the second pass cannot miss a
/// word when it reads what the first pass read.
pub proof fn lemma_corpus_names_known(vocabulary: Seq<Seq<char>>, names: Seq<Seq<char>>, i: int)
    requires
        vocabulary.to_set() == corpus_words(names),
        0 <= i < names.len(),
    ensures
        known(vocabulary, names[i]),
        vocabulary.len() <= u64::MAX ==> forall|k: int|
            0 <= k < token_words(names[i]).len() ==> known_rank(
                vocabulary,
                #[trigger] token_words(names[i])[k],
            ),
{
    let words = token_words(names[i]);
    assert forall|k: int| 0 <= k < words.len() implies vocabulary.contains(#[trigger] words[k]) by {
        assert(name_words(names[i]).contains(words[k]));
        assert(corpus_words(names).contains(words[k]));
        assert(vocabulary.to_set().contains(words[k]));
    }
}

/// Tokenizes `name`: one identifier for each of its words, in their order.
/// Each word is put in lowercase before it is looked up, as it was when the
/// vocabulary was built. Every word of the name is in the vocabulary, as it
/// is when the vocabulary was built from a corpus that holds the name.
pub fn process_name(name: &str, vocab: &Vocabulary) -> (ids: Vec<u64>)
    requires
        known(vocab.words(), name@),
    ensures
        ids@ == token_ids(vocab.words(), name@),
        ids@.len() == words_of(name@).len(),
        forall|i: int| 0 <= i < ids@.len() ==> 1 <= #[trigger] ids@[i] <= vocab.words().len(),
{
    match try_process_name(name, vocab) {
        Ok(ids) => ids,
        Err(_) => {
            proof {
                assert(false);
            }
            vstd::pervasive::unreached()
        },
    }
}

/// Tokenizes `name` as `process_name` does, and tests each word on the way:
/// a word that the vocabulary lacks fails the whole name, and no shorter
/// sequence comes out.
pub fn try_process_name(name: &str, vocab: &Vocabulary) -> (r: Result<Vec<u64>, UnknownWord>)
    ensures
        r is Ok <==> known(vocab.words(), name@),
        r matches Ok(ids) ==> {
            &&& ids@ == token_ids(vocab.words(), name@)
            &&& ids@.len() == words_of(name@).len()
            &&& forall|i: int| 0 <= i < ids@.len() ==> 1 <= #[trigger] ids@[i] <= vocab.words().len()
        },
        r matches Err(e) ==> first_unknown(vocab.words(), name@, e.position as int),
{
    let pieces = split_whitespace(name);
    let ghost words = token_words(name@);
    let mut ids: Vec<u64> = Vec::new();
    let mut i: usize = 0;
    while i < pieces.len()
        invariant
            i <= pieces.len(),
            views(pieces@) == words_of(name@),
            words == token_words(name@),
            ids@.len() == i,
            forall|j: int| 0 <= j < i ==> vocab.words().contains(#[trigger] words[j]),
            forall|j: int| 0 <= j < i ==> Some(#[trigger] ids@[j]) == rank_of(vocab.words(), words[j]),
            forall|j: int| 0 <= j < i ==> 1 <= #[trigger] ids@[j] <= vocab.words().len(),
        decreases pieces.len() - i,
    {
        let word = to_lowercase(pieces[i].as_str());
        assert(views(pieces@)[i as int] == pieces@[i as int]@);
        assert(word@ == words[i as int]);
        match vocab.get(word.as_str()) {
            Some(id) => {
                ids.push(id);
            },
            None => {
                return Err(UnknownWord { position: i });
            },
        }
        i = i + 1;
    }
    assert(ids@ =~= token_ids(vocab.words(), name@));
    Ok(ids)
}

/// Tokenizes the names `names` and lists each distinct identifier sequence
/// once, in ascending order. A sequence is told from another one by its
/// items and their order. Every word of every name is in the vocabulary.
pub fn get_phrase_list(names: &Vec<String>, vocab: &Vocabulary) -> (list: Vec<Vec<u64>>)
    requires
        forall|i: int| 0 <= i < names@.len() ==> known(vocab.words(), #[trigger] names@[i]@),
    ensures
        lists::<Vec<u64>>(views(list@), phrases_of(vocab.words(), views(names@)).to_set()),
{
    let mut phrases: SortedSet<Vec<u64>> = SortedSet::new();
    let ghost all = phrases_of(vocab.words(), views(names@));
    let mut i: usize = 0;
    assert(all.take(0).to_set() =~= Set::<Seq<u64>>::empty());
    while i < names.len()
        invariant
            i <= names.len(),
            all == phrases_of(vocab.words(), views(names@)),
            phrases@ == all.take(i as int).to_set(),
            forall|j: int| 0 <= j < names@.len() ==> known(vocab.words(), #[trigger] names@[j]@),
        decreases names.len() - i,
    {
        let ids = process_name(names[i].as_str(), vocab);
        proof {
            assert(views(names@)[i as int] == names@[i as int]@);
            assert(all[i as int] == ids@);
            lemma_take_next_to_set(all, i as int);
        }
        phrases.insert(ids);
        i = i + 1;
    }
    assert(all.take(i as int) =~= all);
    phrases.into_vec()
}

/// Lists the identifier sequences as `get_phrase_list` does, and tests each
/// name on the way: a name with a word that the vocabulary lacks fails the
/// whole list, and no list of the other names comes out.
pub fn try_get_phrase_list(names: &Vec<String>, vocab: &Vocabulary) -> (r: Result<
    Vec<Vec<u64>>,
    UnknownName,
>)
    ensures
        r is Ok <==> forall|i: int| 0 <= i < names@.len() ==> known(vocab.words(), #[trigger] names@[i]@),
        r matches Ok(list) ==> lists::<Vec<u64>>(
            views(list@),
            phrases_of(vocab.words(), views(names@)).to_set(),
        ),
        r matches Err(e) ==> {
            &&& e.name < names@.len()
            &&& first_unknown(vocab.words(), names@[e.name as int]@, e.position as int)
            &&& forall|j: int| 0 <= j < e.name ==> known(vocab.words(), #[trigger] names@[j]@)
        },
{
    let mut phrases: SortedSet<Vec<u64>> = SortedSet::new();
    let ghost all = phrases_of(vocab.words(), views(names@));
    let mut i: usize = 0;
    assert(all.take(0).to_set() =~= Set::<Seq<u64>>::empty());
    while i < names.len()
        invariant
            i <= names.len(),
            all == phrases_of(vocab.words(), views(names@)),
            phrases@ == all.take(i as int).to_set(),
            forall|j: int| 0 <= j < i ==> known(vocab.words(), #[trigger] names@[j]@),
        decreases names.len() - i,
    {
        match try_process_name(names[i].as_str(), vocab) {
            Ok(ids) => {
                proof {
                    assert(views(names@)[i as int] == names@[i as int]@);
                    assert(all[i as int] == ids@);
                    lemma_take_next_to_set(all, i as int);
                }
                phrases.insert(ids);
            },
            Err(e) => {
                return Err(UnknownName { name: i, position: e.position });
            },
        }
        i = i + 1;
    }
    assert(all.take(i as int) =~= all);
    Ok(phrases.into_vec())
}

/// The single consumer that gathers the identifier sequences of a scan. It
/// takes one message at a time: a sequence, or the end of the stream.
pub struct PhraseAggregator {
    phrases: SortedSet<Vec<u64>>,
    done: bool,
}

impl PhraseAggregator {
    /// The sequences gathered and not yet delivered.
    pub closed spec fn phrases(&self) -> Set<Seq<u64>> {
        self.phrases@
    }

    /// Whether the end of the stream has been seen.
    pub closed spec fn done(&self) -> bool {
        self.done
    }

    /// An aggregator that has seen nothing.
    pub fn new() -> (a: Self)
        ensures
            a.phrases() == Set::<Seq<u64>>::empty(),
            !a.done(),
    {
        PhraseAggregator { phrases: SortedSet::new(), done: false }
    }

    /// Takes the next message of the stream. A sequence joins the others
    /// unless it is among them, and nothing is delivered. The end of the
    /// stream delivers the distinct sequences in ascending order, once:
    /// whatever comes after it changes nothing and delivers nothing.
    pub fn receive(&mut self, message: Option<Vec<u64>>) -> (delivered: Option<Vec<Vec<u64>>>)
        ensures
            old(self).done() ==> delivered is None && final(self).done() && final(self).phrases()
                == old(self).phrases(),
            !old(self).done() ==> match message {
                Some(tokens) => {
                    &&& delivered is None
                    &&& !final(self).done()
                    &&& final(self).phrases() == old(self).phrases().insert(tokens@)
                },
                None => {
                    &&& final(self).done()
                    &&& final(self).phrases() == Set::<Seq<u64>>::empty()
                    &&& delivered matches Some(list)
                    &&& lists::<Vec<u64>>(views(list@), old(self).phrases())
                },
            },
    {
        if self.done {
            return None;
        }
        match message {
            Some(tokens) => {
                self.phrases.insert(tokens);
                None
            },
            None => {
                let mut phrases: SortedSet<Vec<u64>> = SortedSet::new();
                std::mem::swap(&mut phrases, &mut self.phrases);
                self.done = true;
                Some(phrases.into_vec())
            },
        }
    }
}

/// The distinct fingerprints of the sequences `list`. Sequences with the
/// same fingerprint count once.
pub fn phrase_fingerprints(list: &Vec<Vec<u64>>) -> (set: SortedSet<u64>)
    ensures
        set@ == fingerprints_of(views(list@)).to_set(),
{
    let mut set: SortedSet<u64> = SortedSet::new();
    let ghost all = fingerprints_of(views(list@));
    let mut i: usize = 0;
    assert(all.take(0).to_set() =~= Set::<u64>::empty());
    while i < list.len()
        invariant
            i <= list.len(),
            all == fingerprints_of(views(list@)),
            set@ == all.take(i as int).to_set(),
        decreases list.len() - i,
    {
        let h = fingerprint(list[i].as_slice());
        proof {
            assert(views(list@)[i as int] == list@[i as int]@);
            lemma_take_next_to_set(all, i as int);
        }
        set.insert(h);
        i = i + 1;
    }
    assert(all.take(i as int) =~= all);
    set
}

/// The filter reports the fingerprint of each sequence of `phrases` as
/// present.
pub open spec fn holds_all(members: Set<u64>, phrases: Seq<Seq<u64>>) -> bool {
    forall|i: int| 0 <= i < phrases.len() ==> members.contains(fingerprint_of(#[trigger] phrases[i]))
}

/// Builds the filter over the fingerprints of the sequences `list`, unless
/// the distinct fingerprints are too many.
pub fn build_phrase_filter(list: &Vec<Vec<u64>>) -> (r: Result<PhraseFilter, TooManyFingerprints>)
    ensures
        r is Ok <==> fingerprints_of(views(list@)).to_set().len() <= MAX_FINGERPRINTS,
        r matches Ok(f) ==> f.is_filter_of(fingerprints_of(views(list@)).to_set()) && holds_all(
            f.members(),
            views(list@),
        ),
{
    let set = phrase_fingerprints(list);
    match PhraseFilter::build(set) {
        Ok(f) => {
            proof {
                let all = fingerprints_of(views(list@));
                assert forall|i: int| 0 <= i < views(list@).len() implies f.members().contains(
                    fingerprint_of(#[trigger] views(list@)[i]),
                ) by {
                    assert(all[i] == fingerprint_of(views(list@)[i]));
                    assert(all.to_set().contains(all[i]));
                }
            }
            Ok(f)
        },
        Err(e) => Err(e),
    }
}

/// Builds the filter over the fingerprints of the sequences `list` and
/// gives its bytes, as they are stored in a file.
pub fn write_phrase_filter(list: &Vec<Vec<u64>>) -> (r: Result<Vec<u8>, FilterError>)
    ensures
        r is Ok <==> fingerprints_of(views(list@)).to_set().len() <= MAX_FINGERPRINTS,
        r matches Ok(bytes) ==> exists|f: PhraseFilter|
            {
                &&& f.is_filter_of(fingerprints_of(views(list@)).to_set())
                &&& holds_all(f.members(), views(list@))
                &&& bytes@ == #[trigger] f.image()
            },
        r matches Err(e) ==> e == FilterError::TooManyFingerprints,
{
    match build_phrase_filter(list) {
        Ok(f) => match f.to_bytes() {
            Ok(bytes) => Ok(bytes),
            Err(_) => Err(FilterError::Encoding),
        },
        Err(_) => Err(FilterError::TooManyFingerprints),
    }
}

} // verus!
