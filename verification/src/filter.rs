//! The approximate-membership filter over phrase fingerprints: an xor filter
//! of the `xorf` crate, fed with hashes of the `highway` crate and stored in
//! the layout of `bincode`.

use crate::encoding::{encode_phrase, le_byte, le_bytes, phrase_bytes};
use crate::sorted_set::{lemma_ascending_no_duplicates, lists, views, SortedSet};
use vstd::prelude::*;

verus! {

/// Declares `xorf::Xor16`, of which the verifier sees nothing inside.
#[verifier::external_type_specification]
#[verifier::external_body]
pub struct ExXor16(xorf::Xor16);

/// Declares `bincode::ErrorKind`, which is only handed on.
#[verifier::external_type_specification]
#[verifier::external_body]
pub struct ExBincodeErrorKind(bincode::ErrorKind);

/// The 64-bit HighwayHash of `data` under the all-zero key.
pub uninterp spec fn highway_hash64(data: Seq<u8>) -> u64;

/// The keys that an xor filter reports as present.
pub uninterp spec fn filter_members(f: xorf::Xor16) -> Set<u64>;

/// The seed of an xor filter.
pub uninterp spec fn filter_seed(f: xorf::Xor16) -> u64;

/// The length of each of the three blocks of an xor filter.
pub uninterp spec fn filter_block_length(f: xorf::Xor16) -> nat;

/// The fingerprint slots of an xor filter.
pub uninterp spec fn filter_slots(f: xorf::Xor16) -> Seq<u16>;

/// What `xorf::Xor16::from` builds from the keys `keys`, in that order: the
/// seed, the length of a block, and the slots.
pub uninterp spec fn xor16_of(keys: Seq<u64>) -> (u64, nat, Seq<u16>);

/// The largest number of fingerprints that a filter is built from.
pub const MAX_FINGERPRINTS: usize = 0xffff_ffff;

/// The filter has its three blocks of slots in full, so that a query reads
/// inside them, and a block is short enough for the arithmetic of a query.
pub open spec fn filter_shaped(f: xorf::Xor16) -> bool {
    &&& 1 <= filter_block_length(f) <= 0xffff_ffff
    &&& filter_slots(f).len() == 3 * filter_block_length(f)
}

/// The bytes of a filter in a file: the seed, the block length and the
/// number of slots as 8 bytes each, then the slots as 2 bytes each, all
/// little-endian.
pub open spec fn filter_layout(seed: u64, block_length: nat, slots: Seq<u16>) -> Seq<u8> {
    le_bytes(seed, 8) + le_bytes(block_length as u64, 8) + le_bytes(slots.len() as u64, 8)
        + Seq::new(2 * slots.len(), |i: int| le_byte(slots[i / 2] as u64, i % 2))
}

/// Calls `highway::HighwayHash::hash64` on a `HighwayHasher` with the default
/// key. Trusted: the result is the named hash of the bytes, the same on every
/// machine.
#[verifier::external_body]
fn hash64(data: &[u8]) -> (h: u64)
    ensures
        h == highway_hash64(data@),
{
    highway::HighwayHash::hash64(highway::HighwayHasher::default(), data)
}

/// Calls `xorf::Xor16::from` on keys that are all distinct, as the crate
/// asks, and few enough for its block arithmetic to stay within 64 bits.
/// Trusted: the filter reports every key as present, and it has three blocks
/// of at least one slot each. Its seed, block length and slots are a function
/// of the keys alone: the crate tries a fixed sequence of seeds and fills no
/// slot at random.
#[verifier::external_body]
fn xor16_from(keys: &Vec<u64>) -> (f: xorf::Xor16)
    requires
        keys@.no_duplicates(),
        keys@.len() <= MAX_FINGERPRINTS,
    ensures
        forall|i: int| 0 <= i < keys@.len() ==> filter_members(f).contains(#[trigger] keys@[i]),
        filter_shaped(f),
        (filter_seed(f), filter_block_length(f), filter_slots(f)) == xor16_of(keys@),
{
    xorf::Xor16::from(keys)
}

/// Calls `xorf::Filter::contains`. Trusted: on a filter with its blocks in
/// full the call returns, and says whether the key is among those that the
/// filter reports as present.
#[verifier::external_body]
fn xor16_contains(f: &xorf::Xor16, key: u64) -> (present: bool)
    requires
        filter_shaped(*f),
    ensures
        present == filter_members(*f).contains(key),
{
    xorf::Filter::contains(f, &key)
}

/// Reads the field `seed` of the filter.
#[verifier::external_body]
fn xor16_seed(f: &xorf::Xor16) -> (seed: u64)
    ensures
        seed == filter_seed(*f),
{
    f.seed
}

/// Reads the field `block_length` of the filter.
#[verifier::external_body]
fn xor16_block_length(f: &xorf::Xor16) -> (n: usize)
    ensures
        n == filter_block_length(*f),
{
    f.block_length
}

/// Copies the field `fingerprints` of the filter.
#[verifier::external_body]
fn xor16_slots(f: &xorf::Xor16) -> (slots: Vec<u16>)
    ensures
        slots@ == filter_slots(*f),
{
    f.fingerprints.to_vec()
}

/// Calls `bincode::serialize` on the filter. Trusted: it succeeds, since it
/// writes to a vector without a size limit and every sequence of the filter
/// knows its length; the bytes hold the three fields in the order of their
/// declaration, integers in fixed width and little-endian, the slots behind
/// their count.
#[verifier::external_body]
fn bincode_serialize(f: &xorf::Xor16) -> (r: Result<Vec<u8>, Box<bincode::ErrorKind>>)
    ensures
        r is Ok,
        r matches Ok(bytes) ==> bytes@ == filter_layout(
            filter_seed(*f),
            filter_block_length(*f),
            filter_slots(*f),
        ),
{
    bincode::serialize(f)
}

/// The fingerprint of a sequence of identifiers: the hash of its encoding.
pub open spec fn fingerprint_of(tokens: Seq<u64>) -> u64 {
    highway_hash64(phrase_bytes(tokens))
}

/// Computes the fingerprint of a sequence of identifiers.
pub fn fingerprint(tokens: &[u64]) -> (h: u64)
    ensures
        h == fingerprint_of(tokens@),
{
    let bytes = encode_phrase(tokens);
    hash64(bytes.as_slice())
}

/// The filter could not be put into bytes.
#[derive(Clone, Copy, Debug, PartialEq, Eq, Structural)]
pub struct EncodeError {}

/// There are more distinct fingerprints than a filter is built from.
#[derive(Clone, Copy, Debug, PartialEq, Eq, Structural)]
pub struct TooManyFingerprints {}

/// Why no filter file came out.
#[derive(Clone, Copy, Debug, PartialEq, Eq, Structural)]
pub enum FilterError {
    /// There are more distinct fingerprints than a filter is built from.
    TooManyFingerprints,
    /// The filter could not be put into bytes.
    Encoding,
}

/// A built filter. It reports every fingerprint it was built from as
/// present, and now and then one that it was not built from.
pub struct PhraseFilter {
    filter: xorf::Xor16,
}

impl PhraseFilter {
    #[verifier::type_invariant]
    spec fn shaped(self) -> bool {
        filter_shaped(self.filter)
    }

    /// The fingerprints that the filter reports as present.
    pub closed spec fn members(&self) -> Set<u64> {
        filter_members(self.filter)
    }

    /// The seed under which the filter hashes.
    pub closed spec fn spec_seed(&self) -> u64 {
        filter_seed(self.filter)
    }

    /// The length of each of the filter's three blocks.
    pub closed spec fn spec_block_length(&self) -> nat {
        filter_block_length(self.filter)
    }

    /// The filter's slots.
    pub closed spec fn spec_slots(&self) -> Seq<u16> {
        filter_slots(self.filter)
    }

    /// The bytes of the filter in a file.
    pub open spec fn image(&self) -> Seq<u8> {
        filter_layout(self.spec_seed(), self.spec_block_length(), self.spec_slots())
    }

    /// The filter is the one that is built from the fingerprints `set` and
    /// from nothing else: from their ascending listing.
    pub open spec fn is_filter_of(&self, set: Set<u64>) -> bool {
        &&& set.subset_of(self.members())
        &&& exists|keys: Seq<u64>| #[trigger]
            lists::<u64>(keys, set) && (self.spec_seed(), self.spec_block_length(), self.spec_slots())
                == xor16_of(keys)
    }

    /// Builds the filter of a set of fingerprints, unless they are too many.
    pub fn build(fingerprints: SortedSet<u64>) -> (r: Result<Self, TooManyFingerprints>)
        ensures
            r is Ok <==> fingerprints@.len() <= MAX_FINGERPRINTS,
            r matches Ok(f) ==> f.is_filter_of(fingerprints@),
    {
        let keys = fingerprints.into_vec();
        proof {
            assert(views(keys@) =~= keys@);
            lemma_ascending_no_duplicates::<u64>(keys@);
            keys@.unique_seq_to_set();
        }
        if keys.len() > MAX_FINGERPRINTS {
            return Err(TooManyFingerprints {  });
        }
        let filter = xor16_from(&keys);
        assert forall|k: u64| fingerprints@.contains(k) implies filter_members(filter).contains(
            k,
        ) by {
            let i = choose|i: int| 0 <= i < keys@.len() && keys@[i] == k;
            assert(filter_members(filter).contains(keys@[i]));
        }
        assert(lists::<u64>(keys@, fingerprints@));
        Ok(PhraseFilter { filter })
    }

    /// Whether the filter reports `fingerprint` as present.
    pub fn contains(&self, fingerprint: u64) -> (present: bool)
        ensures
            present == self.members().contains(fingerprint),
    {
        proof {
            use_type_invariant(self);
        }
        xor16_contains(&self.filter, fingerprint)
    }

    /// Whether the filter reports the phrase `tokens` as present.
    pub fn contains_phrase(&self, tokens: &[u64]) -> (present: bool)
        ensures
            present == self.members().contains(fingerprint_of(tokens@)),
    {
        let h = fingerprint(tokens);
        self.contains(h)
    }

    /// The seed under which the filter hashes.
    pub fn seed(&self) -> (seed: u64)
        ensures
            seed == self.spec_seed(),
    {
        xor16_seed(&self.filter)
    }

    /// The length of each of the filter's three blocks.
    pub fn block_length(&self) -> (n: usize)
        ensures
            n == self.spec_block_length(),
            n >= 1,
    {
        proof {
            use_type_invariant(self);
        }
        xor16_block_length(&self.filter)
    }

    /// The filter's slots: three blocks, one behind the other.
    pub fn slots(&self) -> (slots: Vec<u16>)
        ensures
            slots@ == self.spec_slots(),
            slots@.len() == 3 * self.spec_block_length(),
    {
        proof {
            use_type_invariant(self);
        }
        xor16_slots(&self.filter)
    }

    /// The bytes of the filter as they are stored in a file.
    pub fn to_bytes(&self) -> (r: Result<Vec<u8>, EncodeError>)
        ensures
            r is Ok,
            r matches Ok(bytes) ==> bytes@ == self.image(),
    {
        encoded_bytes(bincode_serialize(&self.filter))
    }
}

/// What `PhraseFilter::to_bytes` makes of the encoder's outcome: the bytes
/// are handed on as they are, and an error, whatever it is, becomes an
/// `EncodeError`.
pub fn encoded_bytes(outcome: Result<Vec<u8>, Box<bincode::ErrorKind>>) -> (r: Result<
    Vec<u8>,
    EncodeError,
>)
    ensures
        outcome matches Ok(bytes) ==> r == Ok::<Vec<u8>, EncodeError>(bytes),
        outcome is Err ==> r is Err,
{
    match outcome {
        Ok(bytes) => Ok(bytes),
        Err(_) => Err(EncodeError {  }),
    }
}

} // verus!
