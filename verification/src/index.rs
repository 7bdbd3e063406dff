//! The exact-match index from words to identifiers: an ordered map of the
//! `fst` crate, built in memory from the sorted vocabulary.

use crate::order::{bytes_key, lemma_lex_transitive, lex_lt, SortKey};
use crate::sorted_set::{ascending, lemma_ascending_no_duplicates, views};
use vstd::prelude::*;
use vstd::utf8::encode_utf8;

verus! {

/// Declares `fst::MapBuilder`, of which the verifier sees nothing inside.
#[verifier::external_type_specification]
#[verifier::external_body]
#[verifier::reject_recursive_types(W)]
pub struct ExMapBuilder<W>(fst::MapBuilder<W>);

/// Declares `fst::Map`, of which the verifier sees nothing inside.
#[verifier::external_type_specification]
#[verifier::external_body]
#[verifier::reject_recursive_types(D)]
pub struct ExFstMap<D>(fst::Map<D>);

/// Declares `fst::Error`, which is only handed on.
#[verifier::external_type_specification]
#[verifier::external_body]
pub struct ExFstError(fst::Error);

/// The key-value pairs that a builder has accepted, in the order of their
/// insertion.
pub uninterp spec fn builder_entries(b: fst::MapBuilder<Vec<u8>>) -> Seq<(Seq<u8>, u64)>;

/// The key-value pairs that an `fst` map holds; `None` of a map whose bytes
/// are no transducer, on which a lookup may panic.
pub uninterp spec fn map_entries(m: fst::Map<Vec<u8>>) -> Option<Map<Seq<u8>, u64>>;

/// The bytes that represent an `fst` map.
pub uninterp spec fn map_image(m: fst::Map<Vec<u8>>) -> Seq<u8>;

/// The bytes of the transducer that a builder makes of the pairs `entries`,
/// accepted in that order.
pub uninterp spec fn built_image(entries: Seq<(Seq<u8>, u64)>) -> Seq<u8>;

/// Whether a builder that holds `entries` takes `key` next: it must come
/// strictly after the last key in byte order.
pub open spec fn accepts(entries: Seq<(Seq<u8>, u64)>, key: Seq<u8>) -> bool {
    entries.len() > 0 ==> lex_lt(bytes_key(entries.last().0), bytes_key(key))
}

/// The map that holds each pair of `entries`.
pub open spec fn entries_map(entries: Seq<(Seq<u8>, u64)>) -> Map<Seq<u8>, u64> {
    Map::new(
        |k: Seq<u8>| exists|i: int| 0 <= i < entries.len() && (#[trigger] entries[i]).0 == k,
        |k: Seq<u8>| entries[choose|i: int| 0 <= i < entries.len() && (#[trigger] entries[i]).0 == k].1,
    )
}

/// Calls `fst::MapBuilder::memory`, which makes a builder that writes to a
/// vector. Trusted: the new builder has accepted nothing.
#[verifier::external_body]
fn builder_memory() -> (b: fst::MapBuilder<Vec<u8>>)
    ensures
        builder_entries(b) == Seq::<(Seq<u8>, u64)>::empty(),
{
    fst::MapBuilder::memory()
}

/// Calls `fst::MapBuilder::insert`. Trusted: the builder refuses a key that
/// is equal to or smaller than the one before it, and accepts every other
/// one, since writing to a vector cannot fail; an accepted pair is added
/// behind the others.
#[verifier::external_body]
fn builder_insert(b: &mut fst::MapBuilder<Vec<u8>>, key: &[u8], value: u64) -> (r: Result<
    (),
    fst::Error,
>)
    ensures
        r is Ok <==> accepts(builder_entries(*old(b)), key@),
        r is Ok ==> builder_entries(*final(b)) == builder_entries(*old(b)).push((key@, value)),
{
    b.insert(key, value)
}

/// Calls `fst::MapBuilder::into_map`, which finishes the transducer and
/// opens it as a map. Trusted: the map holds the pairs that the builder
/// accepted, and nothing else; its bytes are a function of those pairs
/// alone, since the builder works without chance, clock or environment.
#[verifier::external_body]
fn builder_into_map(b: fst::MapBuilder<Vec<u8>>) -> (m: fst::Map<Vec<u8>>)
    ensures
        map_entries(m) == Some(entries_map(builder_entries(b))),
        map_image(m) == built_image(builder_entries(b)),
{
    b.into_map()
}

/// Calls `fst::Map::get`. Trusted: on a map that holds a transducer, the
/// result is the value stored under `key`, or `None` where there is none.
#[verifier::external_body]
fn map_get(m: &fst::Map<Vec<u8>>, key: &[u8]) -> (r: Option<u64>)
    requires
        map_entries(*m) is Some,
    ensures
        r == (if map_entries(*m)->0.contains_key(key@) {
            Some(map_entries(*m)->0[key@])
        } else {
            None
        }),
{
    m.get(key)
}

/// Calls `fst::raw::Fst::as_bytes` on the transducer of the map and copies
/// the bytes. Trusted: they are the map's representation.
#[verifier::external_body]
fn map_bytes(m: &fst::Map<Vec<u8>>) -> (bytes: Vec<u8>)
    ensures
        bytes@ == map_image(*m),
{
    m.as_fst().as_bytes().to_vec()
}

/// The pairs handed to the builder for the vocabulary `words`: the UTF-8
/// bytes of each word with its 1-based position.
pub open spec fn ranked(words: Seq<Seq<char>>) -> Seq<(Seq<u8>, u64)> {
    Seq::new(words.len(), |i: int| (encode_utf8(words[i]), (i + 1) as u64))
}

/// The identifier of `word` in the vocabulary `words`: its 1-based position,
/// if it is there.
pub open spec fn rank_of(words: Seq<Seq<char>>, word: Seq<char>) -> Option<u64> {
    if words.contains(word) {
        Some((words.index_of(word) + 1) as u64)
    } else {
        None
    }
}

/// The bytes of the index of the vocabulary `words`.
pub open spec fn index_image(words: Seq<Seq<char>>) -> Seq<u8> {
    built_image(ranked(words))
}

/// A list handed to the index builder was not in strictly ascending order.
#[derive(Clone, Copy, Debug, PartialEq, Eq, Structural)]
pub struct OutOfOrder {
    /// The position of the first word that does not come after the one
    /// before it.
    pub position: usize,
}

/// The completed exact-match index of a vocabulary.
pub struct Vocabulary {
    map: fst::Map<Vec<u8>>,
    count: usize,
    words: Ghost<Seq<Seq<char>>>,
}

impl Vocabulary {
    #[verifier::type_invariant]
    spec fn consistent(self) -> bool {
        &&& ascending::<String>(self.words@)
        &&& self.count == self.words@.len()
        &&& map_entries(self.map) == Some(entries_map(ranked(self.words@)))
        &&& map_image(self.map) == built_image(ranked(self.words@))
    }

    /// The words of the vocabulary, in ascending order.
    pub closed spec fn words(&self) -> Seq<Seq<char>> {
        self.words@
    }

    /// The bytes that represent the index: those of the index of its words.
    pub open spec fn image(&self) -> Seq<u8> {
        index_image(self.words())
    }

    /// The number of words.
    pub fn len(&self) -> (n: usize)
        ensures
            n == self.words().len(),
            ascending::<String>(self.words()),
    {
        proof {
            use_type_invariant(self);
        }
        self.count
    }

    /// Looks `word` up as it is written: no case is folded here.
    pub fn get(&self, word: &str) -> (id: Option<u64>)
        ensures
            id == rank_of(self.words(), word@),
            id matches Some(r) ==> 1 <= r <= self.words().len(),
    {
        proof {
            use_type_invariant(self);
            lemma_ranked_lookup(self.words@, word@);
        }
        map_get(&self.map, word.as_bytes())
    }

    /// The bytes of the index, as they are stored in a file.
    pub fn to_bytes(&self) -> (bytes: Vec<u8>)
        ensures
            bytes@ == self.image(),
    {
        proof {
            use_type_invariant(self);
        }
        map_bytes(&self.map)
    }
}

/// What the map built from a vocabulary holds under the bytes of a word: the
/// word's rank, if the word is in the vocabulary.
proof fn lemma_ranked_lookup(words: Seq<Seq<char>>, word: Seq<char>)
    requires
        ascending::<String>(words),
        words.len() <= usize::MAX,
    ensures
        entries_map(ranked(words)).contains_key(encode_utf8(word)) <==> words.contains(word),
        words.contains(word) ==> entries_map(ranked(words))[encode_utf8(word)] == rank_of(
            words,
            word,
        )->0,
        words.contains(word) ==> 1 <= rank_of(words, word)->0 <= words.len(),
{
    let entries = ranked(words);
    let key = encode_utf8(word);
    lemma_ascending_no_duplicates::<String>(words);
    assert forall|i: int| 0 <= i < entries.len() && (#[trigger] entries[i]).0 == key implies words[i]
        == word by {
        vstd::utf8::encode_utf8_decode_utf8(words[i]);
        vstd::utf8::encode_utf8_decode_utf8(word);
    }
    if words.contains(word) {
        let i = words.index_of(word);
        assert(entries[i].0 == key);
        let j = choose|j: int| 0 <= j < entries.len() && (#[trigger] entries[j]).0 == key;
        assert(words[j] == word);
        assert(i == j);
    }
}

/// Builds the exact-match index of `list`, giving each word its 1-based
/// position as identifier. The list is in strictly ascending order, as a
/// vocabulary is: the builder refuses no word of it.
pub fn write_vocab_fst(list: &Vec<String>) -> (vocabulary: Vocabulary)
    requires
        ascending::<String>(views(list@)),
    ensures
        vocabulary.words() == views(list@),
{
    match try_write_vocab_fst(list) {
        Ok(vocabulary) => vocabulary,
        Err(_) => {
            proof {
                assert(false);
            }
            vstd::pervasive::unreached()
        },
    }
}

/// Tests whether `list` is in strictly ascending order while it builds the
/// index of it: the index is built exactly when the list is, and nothing is
/// built of a list that is not.
pub fn try_write_vocab_fst(list: &Vec<String>) -> (r: Result<Vocabulary, OutOfOrder>)
    ensures
        r is Ok <==> ascending::<String>(views(list@)),
        r matches Ok(v) ==> v.words() == views(list@),
        r matches Err(e) ==> {
            &&& 0 < e.position < list.len()
            &&& ascending::<String>(views(list@).take(e.position as int))
            &&& !lex_lt(
                String::key_of(list[e.position - 1]@),
                String::key_of(list[e.position as int]@),
            )
        },
{
    let ghost words = views(list@);
    let mut builder = builder_memory();
    let mut i: usize = 0;
    assert(ranked(words).take(0) =~= Seq::<(Seq<u8>, u64)>::empty());
    while i < list.len()
        invariant
            i <= list.len(),
            words == views(list@),
            builder_entries(builder) == ranked(words).take(i as int),
            ascending::<String>(words.take(i as int)),
        decreases list.len() - i,
    {
        let ghost before = builder_entries(builder);
        let key = list[i].as_str().as_bytes();
        let id: u64 = (i + 1) as u64;
        assert(key@ == encode_utf8(words[i as int]));
        proof {
            if i > 0 {
                assert(before.last() == ranked(words)[i - 1]);
            }
        }
        match builder_insert(&mut builder, key, id) {
            Ok(_) => {},
            Err(_) => {
                proof {
                    if ascending::<String>(words) {
                        assert(lex_lt(String::key_of(words[i - 1]), String::key_of(words[i as int])));
                    }
                }
                return Err(OutOfOrder { position: i });
            },
        }
        proof {
            assert(ranked(words).take(i + 1) =~= before.push((key@, id)));
            let next = words.take(i + 1);
            assert forall|a: int, b: int| 0 <= a < b < next.len() implies lex_lt(
                String::key_of(#[trigger] next[a]),
                String::key_of(#[trigger] next[b]),
            ) by {
                if b == i {
                    if a < i - 1 {
                        assert(words.take(i as int)[a] == words[a]);
                        assert(words.take(i as int)[i - 1] == words[i - 1]);
                        lemma_lex_transitive(
                            String::key_of(words[a]),
                            String::key_of(words[i - 1]),
                            String::key_of(words[i as int]),
                        );
                    }
                } else {
                    assert(words.take(i as int)[a] == words[a]);
                    assert(words.take(i as int)[b] == words[b]);
                }
            }
        }
        i = i + 1;
    }
    assert(words.take(i as int) =~= words);
    assert(ranked(words).take(i as int) =~= ranked(words));
    let map = builder_into_map(builder);
    Ok(Vocabulary { map, count: list.len(), words: Ghost(words) })
}

} // verus!
