//! Lexicographic order on sequences of integers, the order in which every
//! collection of this crate keeps its items.

use vstd::prelude::*;

verus! {

/// `a` and `b` agree on their first `k` items, and at position `k` either `a`
/// has ended while `b` goes on, or `a` holds the smaller item.
pub open spec fn precedes_at(a: Seq<int>, b: Seq<int>, k: int) -> bool {
    &&& 0 <= k <= a.len()
    &&& k < b.len()
    &&& forall|i: int| 0 <= i < k ==> a[i] == b[i]
    &&& k < a.len() ==> a[k] < b[k]
}

/// `a` comes strictly before `b` in lexicographic order.
pub open spec fn lex_lt(a: Seq<int>, b: Seq<int>) -> bool {
    exists|k: int| precedes_at(a, b, k)
}

/// The outcome of comparing two keys.
#[derive(Clone, Copy, Debug, PartialEq, Eq, Structural)]
pub enum Comparison {
    Less,
    Equal,
    Greater,
}

/// No sequence comes before itself.
pub proof fn lemma_lex_irreflexive(a: Seq<int>)
    ensures
        !lex_lt(a, a),
{
}

/// The order is transitive.
pub proof fn lemma_lex_transitive(a: Seq<int>, b: Seq<int>, c: Seq<int>)
    requires
        lex_lt(a, b),
        lex_lt(b, c),
    ensures
        lex_lt(a, c),
{
    let k1 = choose|k: int| precedes_at(a, b, k);
    let k2 = choose|k: int| precedes_at(b, c, k);
    let k = if k1 <= k2 { k1 } else { k2 };
    assert(precedes_at(a, c, k));
}

/// Two sequences are never each before the other.
pub proof fn lemma_lex_asymmetric(a: Seq<int>, b: Seq<int>)
    requires
        lex_lt(a, b),
    ensures
        !lex_lt(b, a),
{
    if lex_lt(b, a) {
        lemma_lex_transitive(a, b, a);
        lemma_lex_irreflexive(a);
    }
}

proof fn lemma_lex_total_from(a: Seq<int>, b: Seq<int>, k: int)
    requires
        0 <= k <= a.len(),
        k <= b.len(),
        forall|i: int| 0 <= i < k ==> a[i] == b[i],
    ensures
        a == b || lex_lt(a, b) || lex_lt(b, a),
    decreases a.len() - k,
{
    if k == a.len() {
        if k == b.len() {
            assert(a =~= b);
        } else {
            assert(precedes_at(a, b, k));
        }
    } else if k == b.len() {
        assert(precedes_at(b, a, k));
    } else if a[k] < b[k] {
        assert(precedes_at(a, b, k));
    } else if b[k] < a[k] {
        assert(precedes_at(b, a, k));
    } else {
        lemma_lex_total_from(a, b, k + 1);
    }
}

/// Any two sequences are equal or ordered one way or the other.
pub proof fn lemma_lex_total(a: Seq<int>, b: Seq<int>)
    ensures
        a == b || lex_lt(a, b) || lex_lt(b, a),
{
    lemma_lex_total_from(a, b, 0);
}

/// The sort key of a byte string: its bytes as integers.
pub open spec fn bytes_key(s: Seq<u8>) -> Seq<int> {
    s.map_values(|b: u8| b as int)
}

/// The sort key of a sequence of identifiers: its items as integers.
pub open spec fn ids_key(s: Seq<u64>) -> Seq<int> {
    s.map_values(|x: u64| x as int)
}

/// An item of a sequence that is ordered item by item: a number.
trait Digit: Copy + Sized {
    /// The item as an integer.
    spec fn value(self) -> int;

    /// Different items are different integers.
    proof fn lemma_value_injective(a: Self, b: Self)
        requires
            a.value() == b.value(),
        ensures
            a == b,
    ;

    /// Whether `self` is the smaller number.
    fn before(self, other: Self) -> (r: bool)
        ensures
            r == (self.value() < other.value()),
    ;
}

impl Digit for u8 {
    spec fn value(self) -> int {
        self as int
    }

    proof fn lemma_value_injective(a: u8, b: u8) {
    }

    fn before(self, other: u8) -> (r: bool) {
        self < other
    }
}

impl Digit for u64 {
    spec fn value(self) -> int {
        self as int
    }

    proof fn lemma_value_injective(a: u64, b: u64) {
    }

    fn before(self, other: u64) -> (r: bool) {
        self < other
    }
}

/// The items of `s` as integers.
spec fn values<T: Digit>(s: Seq<T>) -> Seq<int> {
    s.map_values(|x: T| x.value())
}

/// Compares two sequences of numbers lexicographically.
fn compare_runs<T: Digit>(a: &[T], b: &[T]) -> (c: Comparison)
    ensures
        c is Less <==> lex_lt(values(a@), values(b@)),
        c is Equal <==> a@ == b@,
        c is Greater <==> lex_lt(values(b@), values(a@)),
{
    let ghost ka = values(a@);
    let ghost kb = values(b@);
    proof {
        lemma_lex_irreflexive(ka);
        if lex_lt(ka, kb) {
            lemma_lex_asymmetric(ka, kb);
        }
    }
    let mut i: usize = 0;
    while i < a.len() && i < b.len()
        invariant
            i <= a.len(),
            i <= b.len(),
            ka == values(a@),
            kb == values(b@),
            forall|j: int| 0 <= j < i ==> a@[j] == b@[j],
        decreases a.len() - i,
    {
        if a[i].before(b[i]) {
            assert(precedes_at(ka, kb, i as int));
            return Comparison::Less;
        }
        if b[i].before(a[i]) {
            assert(precedes_at(kb, ka, i as int));
            return Comparison::Greater;
        }
        proof {
            T::lemma_value_injective(a@[i as int], b@[i as int]);
        }
        i = i + 1;
    }
    if a.len() < b.len() {
        assert(precedes_at(ka, kb, i as int));
        Comparison::Less
    } else if a.len() > b.len() {
        assert(precedes_at(kb, ka, i as int));
        Comparison::Greater
    } else {
        assert(a@ =~= b@);
        Comparison::Equal
    }
}

/// Compares two byte strings lexicographically.
pub fn compare_bytes(a: &[u8], b: &[u8]) -> (c: Comparison)
    ensures
        c is Less <==> lex_lt(bytes_key(a@), bytes_key(b@)),
        c is Equal <==> a@ == b@,
        c is Greater <==> lex_lt(bytes_key(b@), bytes_key(a@)),
{
    assert(values::<u8>(a@) =~= bytes_key(a@));
    assert(values::<u8>(b@) =~= bytes_key(b@));
    compare_runs(a, b)
}

/// Compares two sequences of identifiers lexicographically.
pub fn compare_ids(a: &[u64], b: &[u64]) -> (c: Comparison)
    ensures
        c is Less <==> lex_lt(ids_key(a@), ids_key(b@)),
        c is Equal <==> a@ == b@,
        c is Greater <==> lex_lt(ids_key(b@), ids_key(a@)),
{
    assert(values::<u64>(a@) =~= ids_key(a@));
    assert(values::<u64>(b@) =~= ids_key(b@));
    compare_runs(a, b)
}

/// A type whose values are ordered by a key that is a sequence of integers.
/// The key is a function of the value's view and tells two views apart.
pub trait SortKey: View + Sized {
    /// The key by which a value with view `v` is ordered.
    spec fn key_of(v: Self::V) -> Seq<int>;

    /// Values with the same key have the same view.
    proof fn lemma_key_injective(v: Self::V, w: Self::V)
        requires
            Self::key_of(v) == Self::key_of(w),
        ensures
            v == w,
    ;

    /// Compares two values by their keys.
    fn compare(&self, other: &Self) -> (c: Comparison)
        ensures
            c is Less <==> lex_lt(Self::key_of(self@), Self::key_of(other@)),
            c is Equal <==> self@ == other@,
            c is Greater <==> lex_lt(Self::key_of(other@), Self::key_of(self@)),
    ;
}

/// A string is ordered by the bytes of its UTF-8 encoding.
impl SortKey for String {
    open spec fn key_of(v: Seq<char>) -> Seq<int> {
        bytes_key(vstd::utf8::encode_utf8(v))
    }

    proof fn lemma_key_injective(v: Seq<char>, w: Seq<char>) {
        let bv = vstd::utf8::encode_utf8(v);
        let bw = vstd::utf8::encode_utf8(w);
        assert(bv =~= bw) by {
            assert(bytes_key(bv).len() == bytes_key(bw).len());
            assert forall|i: int| 0 <= i < bv.len() implies bv[i] == bw[i] by {
                assert(bytes_key(bv)[i] == bytes_key(bw)[i]);
            }
        }
        vstd::utf8::encode_utf8_decode_utf8(v);
        vstd::utf8::encode_utf8_decode_utf8(w);
    }

    fn compare(&self, other: &Self) -> (c: Comparison) {
        let a = self.as_str().as_bytes();
        let b = other.as_str().as_bytes();
        proof {
            vstd::utf8::encode_utf8_decode_utf8(self@);
            vstd::utf8::encode_utf8_decode_utf8(other@);
        }
        compare_bytes(a, b)
    }
}

/// A sequence of identifiers is ordered item by item.
impl SortKey for Vec<u64> {
    open spec fn key_of(v: Seq<u64>) -> Seq<int> {
        ids_key(v)
    }

    proof fn lemma_key_injective(v: Seq<u64>, w: Seq<u64>) {
        assert(v =~= w) by {
            assert(ids_key(v).len() == ids_key(w).len());
            assert forall|i: int| 0 <= i < v.len() implies v[i] == w[i] by {
                assert(ids_key(v)[i] == ids_key(w)[i]);
            }
        }
    }

    fn compare(&self, other: &Self) -> (c: Comparison) {
        compare_ids(self.as_slice(), other.as_slice())
    }
}

/// A single number is ordered as the sequence that holds only it.
impl SortKey for u64 {
    open spec fn key_of(v: u64) -> Seq<int> {
        seq![v as int]
    }

    proof fn lemma_key_injective(v: u64, w: u64) {
        assert(Self::key_of(v)[0] == v as int);
        assert(Self::key_of(w)[0] == w as int);
    }

    fn compare(&self, other: &Self) -> (c: Comparison) {
        let ghost ka = Self::key_of(*self);
        let ghost kb = Self::key_of(*other);
        proof {
            lemma_lex_irreflexive(ka);
            if lex_lt(ka, kb) {
                lemma_lex_asymmetric(ka, kb);
                let k = choose|k: int| precedes_at(ka, kb, k);
                assert(k == 0);
            }
            if lex_lt(kb, ka) {
                lemma_lex_asymmetric(kb, ka);
                let k = choose|k: int| precedes_at(kb, ka, k);
                assert(k == 0);
            }
        }
        if *self < *other {
            assert(precedes_at(ka, kb, 0));
            Comparison::Less
        } else if *self > *other {
            assert(precedes_at(kb, ka, 0));
            Comparison::Greater
        } else {
            Comparison::Equal
        }
    }
}

} // verus!
