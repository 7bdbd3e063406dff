//! A set kept as a vector in strictly ascending key order.

use crate::order::{
    lemma_lex_asymmetric, lemma_lex_irreflexive, lemma_lex_transitive, lex_lt, Comparison, SortKey,
};
use vstd::prelude::*;

verus! {

/// The views of the items of `items`, in the same order.
pub open spec fn views<T: View>(items: Seq<T>) -> Seq<T::V> {
    items.map_values(|t: T| t@)
}

/// Every item of `s` comes strictly before each later one. Such a sequence
/// holds nothing twice.
pub open spec fn ascending<T: SortKey>(s: Seq<T::V>) -> bool {
    forall|i: int, j: int| 0 <= i < j < s.len() ==> lex_lt(T::key_of(#[trigger] s[i]), T::key_of(#[trigger] s[j]))
}

/// `list` holds exactly the values of `set`, in ascending order. There is one
/// such list for a set.
pub open spec fn lists<T: SortKey>(list: Seq<T::V>, set: Set<T::V>) -> bool {
    ascending::<T>(list) && list.to_set() == set
}

/// Every value of `s` comes strictly before `v`.
pub open spec fn all_before<T: SortKey>(s: Seq<T::V>, v: T::V) -> bool {
    forall|i: int| 0 <= i < s.len() ==> lex_lt(T::key_of(#[trigger] s[i]), T::key_of(v))
}

/// Every item of `s` comes strictly after each later one.
pub open spec fn descending<T: SortKey>(s: Seq<T::V>) -> bool {
    forall|i: int, j: int| 0 <= i < j < s.len() ==> lex_lt(T::key_of(#[trigger] s[j]), T::key_of(#[trigger] s[i]))
}

/// No value of `a` is a value of `b`.
pub open spec fn apart<A>(a: Seq<A>, b: Seq<A>) -> bool {
    forall|i: int, j: int| 0 <= i < a.len() && 0 <= j < b.len() ==> #[trigger] a[i] != #[trigger] b[j]
}

/// How many items wait outside the main run before they are merged into it.
pub const PENDING_LIMIT: usize = 4096;

/// A finite set of values of `T`. Most items stand in one ascending run; the
/// latest arrivals wait in a short ascending run of their own and are merged
/// into the main one when it is full, so that an insertion moves few items.
pub struct SortedSet<T: SortKey> {
    items: Vec<T>,
    pending: Vec<T>,
}

impl<T: SortKey> View for SortedSet<T> {
    type V = Set<T::V>;

    /// The set of the views of the items held.
    closed spec fn view(&self) -> Set<T::V> {
        views(self.items@).to_set().union(views(self.pending@).to_set())
    }
}

/// Finds `item` in an ascending run, or the place where it belongs: the first
/// result says whether the item at the returned position has the view of
/// `item`; if not, everything before that position is smaller and everything
/// from it on is greater.
fn locate<T: SortKey>(run: &Vec<T>, item: &T) -> (r: (bool, usize))
    requires
        ascending::<T>(views(run@)),
    ensures
        r.1 <= run@.len(),
        r.0 ==> r.1 < run@.len() && run@[r.1 as int]@ == item@,
        r.0 == views(run@).contains(item@),
        !r.0 ==> forall|i: int|
            0 <= i < r.1 ==> lex_lt(T::key_of(#[trigger] views(run@)[i]), T::key_of(item@)),
        !r.0 ==> forall|i: int|
            r.1 <= i < run@.len() ==> lex_lt(T::key_of(item@), T::key_of(#[trigger] views(run@)[i])),
{
    let ghost s = views(run@);
    let mut lo: usize = 0;
    let mut hi: usize = run.len();
    while lo < hi
        invariant
            lo <= hi <= run.len(),
            s == views(run@),
            ascending::<T>(s),
            forall|i: int| 0 <= i < lo ==> lex_lt(T::key_of(#[trigger] s[i]), T::key_of(item@)),
            forall|i: int| hi <= i < s.len() ==> lex_lt(T::key_of(item@), T::key_of(#[trigger] s[i])),
        decreases hi - lo,
    {
        let mid: usize = lo + (hi - lo) / 2;
        match run[mid].compare(item) {
            Comparison::Equal => {
                assert(s[mid as int] == item@);
                return (true, mid);
            },
            Comparison::Less => {
                assert forall|i: int| 0 <= i < mid + 1 implies lex_lt(
                    T::key_of(#[trigger] s[i]),
                    T::key_of(item@),
                ) by {
                    if i < mid {
                        lemma_lex_transitive(
                            T::key_of(s[i]),
                            T::key_of(s[mid as int]),
                            T::key_of(item@),
                        );
                    }
                }
                lo = mid + 1;
            },
            Comparison::Greater => {
                assert forall|i: int| mid <= i < s.len() implies lex_lt(
                    T::key_of(item@),
                    T::key_of(#[trigger] s[i]),
                ) by {
                    if mid < i {
                        lemma_lex_transitive(
                            T::key_of(item@),
                            T::key_of(s[mid as int]),
                            T::key_of(s[i]),
                        );
                    }
                }
                hi = mid;
            },
        }
    }
    proof {
        if s.contains(item@) {
            let i = choose|i: int| 0 <= i < s.len() && s[i] == item@;
            lemma_lex_irreflexive(T::key_of(item@));
        }
    }
    (false, lo)
}

/// Puts `item` into an ascending run that does not hold it, at the place
/// that `locate` gave.
fn place<T: SortKey>(run: &mut Vec<T>, at: usize, item: T)
    requires
        ascending::<T>(views(old(run)@)),
        at <= old(run)@.len(),
        forall|i: int|
            0 <= i < at ==> lex_lt(T::key_of(#[trigger] views(old(run)@)[i]), T::key_of(item@)),
        forall|i: int|
            at <= i < old(run)@.len() ==> lex_lt(
                T::key_of(item@),
                T::key_of(#[trigger] views(old(run)@)[i]),
            ),
    ensures
        ascending::<T>(views(final(run)@)),
        final(run)@.len() == old(run)@.len() + 1,
        views(final(run)@) == views(old(run)@).insert(at as int, item@),
        views(final(run)@).to_set() == views(old(run)@).to_set().insert(item@),
{
    let ghost before = views(run@);
    let ghost v = item@;
    run.insert(at, item);
    proof {
        let after = views(run@);
        let p = at as int;
        assert(after =~= before.insert(p, v));
        assert forall|i: int, j: int| 0 <= i < j < after.len() implies lex_lt(
            T::key_of(#[trigger] after[i]),
            T::key_of(#[trigger] after[j]),
        ) by {
            if i < p && j > p {
                assert(after[i] == before[i]);
                assert(after[j] == before[j - 1]);
            } else if i < p && j == p {
                assert(after[i] == before[i]);
            } else if i == p {
                assert(after[j] == before[j - 1]);
            } else if j < p {
                assert(after[i] == before[i]);
                assert(after[j] == before[j]);
            } else {
                assert(after[i] == before[i - 1]);
                assert(after[j] == before[j - 1]);
            }
        }
        assert forall|w: T::V| after.to_set().contains(w) implies before.to_set().insert(v).contains(
            w,
        ) by {
            let i = choose|i: int| 0 <= i < after.len() && after[i] == w;
            if i < p {
                assert(before[i] == w);
            } else if i > p {
                assert(before[i - 1] == w);
            }
        }
        assert forall|w: T::V| before.to_set().insert(v).contains(w) implies after.to_set().contains(
            w,
        ) by {
            if w == v {
                assert(after[p] == w);
            } else {
                let i = choose|i: int| 0 <= i < before.len() && before[i] == w;
                if i < p {
                    assert(after[i] == w);
                } else {
                    assert(after[i + 1] == w);
                }
            }
        }
        assert(after.to_set() =~= before.to_set().insert(v));
    }
}

/// A sequence with one more item holds, as a set, that item more.
pub proof fn lemma_push_to_set<A>(s: Seq<A>, v: A)
    ensures
        s.push(v).to_set() == s.to_set().insert(v),
{
    let longer = s.push(v);
    lemma_take_next_to_set(longer, s.len() as int);
    assert(longer.take(s.len() as int + 1) =~= longer);
    assert(longer.take(s.len() as int) =~= s);
}

/// What holds while two ascending runs `a` and `b` are merged from their
/// ends into `back`: `back` holds the greatest values of both, the greatest
/// first, and the three together hold the values `all`.
spec fn merging<T: SortKey>(a: Seq<T::V>, b: Seq<T::V>, back: Seq<T::V>, all: Set<T::V>) -> bool {
    &&& ascending::<T>(a)
    &&& ascending::<T>(b)
    &&& apart(a, b)
    &&& descending::<T>(back)
    &&& forall|i: int|
        0 <= i < back.len() ==> all_before::<T>(a, #[trigger] back[i]) && all_before::<T>(b, back[i])
    &&& back.to_set().union(a.to_set()).union(b.to_set()) == all
}

/// The two runs of a merge can change places.
proof fn lemma_merging_swap<T: SortKey>(a: Seq<T::V>, b: Seq<T::V>, back: Seq<T::V>, all: Set<T::V>)
    requires
        merging::<T>(a, b, back, all),
    ensures
        merging::<T>(b, a, back, all),
{
    assert forall|i: int, j: int| 0 <= i < b.len() && 0 <= j < a.len() implies #[trigger] b[i]
        != #[trigger] a[j] by {
        assert(a[j] != b[i]);
    }
    assert(back.to_set().union(b.to_set()).union(a.to_set()) =~= back.to_set().union(
        a.to_set(),
    ).union(b.to_set()));
}

/// A value behind the last item of an ascending run is behind all of it.
proof fn lemma_all_before_from_last<T: SortKey>(run: Seq<T::V>, v: T::V)
    requires
        ascending::<T>(run),
        run.len() > 0 ==> lex_lt(T::key_of(run.last()), T::key_of(v)),
    ensures
        all_before::<T>(run, v),
{
    assert forall|i: int| 0 <= i < run.len() implies lex_lt(
        T::key_of(#[trigger] run[i]),
        T::key_of(v),
    ) by {
        if i < run.len() - 1 {
            lemma_lex_transitive(T::key_of(run[i]), T::key_of(run.last()), T::key_of(v));
        }
    }
}

/// One step of a merge: moves the last item of `from`, which is behind every
/// item of `other`, to the end of `back`.
fn move_last<T: SortKey>(
    from: &mut Vec<T>,
    other: &Vec<T>,
    back: &mut Vec<T>,
    Ghost(all): Ghost<Set<T::V>>,
)
    requires
        old(from)@.len() > 0,
        merging::<T>(views(old(from)@), views(other@), views(old(back)@), all),
        all_before::<T>(views(other@), views(old(from)@).last()),
    ensures
        final(from)@.len() == old(from)@.len() - 1,
        merging::<T>(views(final(from)@), views(other@), views(final(back)@), all),
{
    let ghost vf = views(from@);
    let ghost vo = views(other@);
    let ghost vr = views(back@);
    let ghost n = from.len() - 1;
    let ghost v = vf[n];
    let x = from.pop().unwrap();
    back.push(x);
    proof {
        let rest = views(from@);
        let more = views(back@);
        assert(rest =~= vf.take(n));
        assert(more =~= vr.push(v));
        assert(vf.take(n + 1) =~= vf);
        lemma_take_next_to_set(vf, n);
        lemma_push_to_set(vr, v);
        assert forall|i: int, j: int| 0 <= i < j < rest.len() implies lex_lt(
            T::key_of(#[trigger] rest[i]),
            T::key_of(#[trigger] rest[j]),
        ) by {
            assert(rest[i] == vf[i] && rest[j] == vf[j]);
        }
        assert forall|i: int, j: int| 0 <= i < rest.len() && 0 <= j < vo.len() implies #[trigger] rest[i]
            != #[trigger] vo[j] by {
            assert(rest[i] == vf[i]);
        }
        assert forall|i: int, j: int| 0 <= i < j < more.len() implies lex_lt(
            T::key_of(#[trigger] more[j]),
            T::key_of(#[trigger] more[i]),
        ) by {
            assert(more[i] == vr[i]);
            if j < vr.len() {
                assert(more[j] == vr[j]);
            } else {
                assert(all_before::<T>(vf, vr[i]));
            }
        }
        assert forall|i: int| 0 <= i < more.len() implies all_before::<T>(rest, #[trigger] more[i])
            && all_before::<T>(vo, more[i]) by {
            assert forall|k: int| 0 <= k < rest.len() implies lex_lt(
                T::key_of(#[trigger] rest[k]),
                T::key_of(more[i]),
            ) by {
                assert(rest[k] == vf[k]);
                if i < vr.len() {
                    assert(more[i] == vr[i]);
                    assert(all_before::<T>(vf, vr[i]));
                }
            }
            if i < vr.len() {
                assert(more[i] == vr[i]);
            }
        }
        assert(more.to_set().union(rest.to_set()).union(vo.to_set()) =~= all);
    }
}

/// Merges two ascending runs that share no value into one.
fn merge<T: SortKey>(a: Vec<T>, b: Vec<T>) -> (out: Vec<T>)
    requires
        ascending::<T>(views(a@)),
        ascending::<T>(views(b@)),
        apart(views(a@), views(b@)),
    ensures
        ascending::<T>(views(out@)),
        views(out@).to_set() == views(a@).to_set().union(views(b@).to_set()),
{
    let ghost all = views(a@).to_set().union(views(b@).to_set());
    let mut a = a;
    let mut b = b;
    let mut back: Vec<T> = Vec::new();
    assert(views(back@).to_set().union(views(a@).to_set()).union(views(b@).to_set()) =~= all);
    while a.len() > 0 || b.len() > 0
        invariant
            merging::<T>(views(a@), views(b@), views(back@), all),
        decreases a.len() + b.len(),
    {
        let ghost va = views(a@);
        let ghost vb = views(b@);
        let from_a: bool = if a.len() == 0 {
            false
        } else if b.len() == 0 {
            true
        } else {
            assert(va.last() == a@[a.len() - 1]@ && vb.last() == b@[b.len() - 1]@);
            match a[a.len() - 1].compare(&b[b.len() - 1]) {
                Comparison::Greater => true,
                _ => false,
            }
        };
        if from_a {
            proof {
                lemma_all_before_from_last::<T>(vb, va.last());
            }
            move_last(&mut a, &b, &mut back, Ghost(all));
        } else {
            proof {
                lemma_merging_swap::<T>(va, vb, views(back@), all);
                lemma_all_before_from_last::<T>(va, vb.last());
            }
            move_last(&mut b, &a, &mut back, Ghost(all));
            proof {
                lemma_merging_swap::<T>(views(b@), va, views(back@), all);
            }
        }
    }
    assert(views(back@).to_set() =~= all) by {
        assert(views(a@).to_set() =~= Set::<T::V>::empty());
        assert(views(b@).to_set() =~= Set::<T::V>::empty());
    }
    let ghost r0 = views(back@);
    let mut out: Vec<T> = Vec::new();
    assert(r0.take(back.len() as int) =~= r0);
    assert(views(out@).to_set().union(r0.to_set()) =~= all);
    while back.len() > 0
        invariant
            back.len() <= r0.len(),
            views(back@) == r0.take(back.len() as int),
            descending::<T>(r0),
            ascending::<T>(views(out@)),
            forall|i: int, j: int|
                0 <= i < out.len() && 0 <= j < back.len() ==> lex_lt(
                    T::key_of(#[trigger] views(out@)[i]),
                    T::key_of(#[trigger] r0[j]),
                ),
            views(out@).to_set().union(views(back@).to_set()) == all,
        decreases back.len(),
    {
        let ghost vo = views(out@);
        let ghost vr = views(back@);
        let n: usize = back.len() - 1;
        let x = back.pop().unwrap();
        proof {
            assert(x@ == vr[n as int]);
            assert(vr[n as int] == r0[n as int]);
            assert(views(back@) =~= r0.take(n as int));
            lemma_take_next_to_set(r0, n as int);
            lemma_push_to_set(vo, x@);
        }
        out.push(x);
        proof {
            let v = vo.push(r0[n as int]);
            assert(views(out@) =~= v);
            assert forall|i: int, j: int| 0 <= i < j < v.len() implies lex_lt(
                T::key_of(#[trigger] v[i]),
                T::key_of(#[trigger] v[j]),
            ) by {
                assert(v[i] == vo[i]);
                if j < vo.len() {
                    assert(v[j] == vo[j]);
                }
            }
            assert forall|i: int, j: int| 0 <= i < v.len() && 0 <= j < n implies lex_lt(
                T::key_of(#[trigger] v[i]),
                T::key_of(#[trigger] r0[j]),
            ) by {
                if i < vo.len() {
                    assert(v[i] == vo[i]);
                }
            }
            assert(views(out@).to_set().union(views(back@).to_set()) =~= all);
        }
    }
    assert(views(back@).to_set() =~= Set::<T::V>::empty());
    assert(views(out@).to_set() =~= all);
    out
}

impl<T: SortKey> SortedSet<T> {
    #[verifier::type_invariant]
    spec fn sorted(self) -> bool {
        &&& ascending::<T>(views(self.items@))
        &&& ascending::<T>(views(self.pending@))
        &&& apart(views(self.items@), views(self.pending@))
        &&& self.pending@.len() < PENDING_LIMIT
    }

    /// The empty set.
    pub fn new() -> (s: Self)
        ensures
            s@ == Set::<T::V>::empty(),
    {
        let s = SortedSet { items: Vec::new(), pending: Vec::new() };
        assert(s@ =~= Set::<T::V>::empty());
        s
    }

    /// Whether the set holds a value with the view of `item`.
    pub fn contains(&self, item: &T) -> (found: bool)
        ensures
            found == self@.contains(item@),
    {
        proof {
            use_type_invariant(self);
        }
        let r = locate(&self.items, item);
        if r.0 {
            return true;
        }
        let r = locate(&self.pending, item);
        r.0
    }

    /// Adds `item` unless the set holds its view already, and says whether
    /// it was added.
    pub fn insert(&mut self, item: T) -> (added: bool)
        ensures
            final(self)@ == old(self)@.insert(item@),
            added == !old(self)@.contains(item@),
    {
        proof {
            use_type_invariant(&*self);
        }
        let r = locate(&self.items, &item);
        if r.0 {
            assert(self@.insert(item@) =~= self@);
            return false;
        }
        let r = locate(&self.pending, &item);
        if r.0 {
            assert(self@.insert(item@) =~= self@);
            return false;
        }
        let ghost v = item@;
        let ghost main = views(self.items@);
        let ghost rest = views(self.pending@);
        let mut items: Vec<T> = Vec::new();
        let mut pending: Vec<T> = Vec::new();
        std::mem::swap(&mut items, &mut self.items);
        std::mem::swap(&mut pending, &mut self.pending);
        place(&mut pending, r.1, item);
        proof {
            assert forall|i: int, j: int|
                0 <= i < main.len() && 0 <= j < views(pending@).len() implies #[trigger] main[i]
                != #[trigger] views(pending@)[j] by {
                if views(pending@)[j] != v {
                    assert(views(pending@).to_set().contains(views(pending@)[j]));
                    assert(rest.to_set().contains(views(pending@)[j]));
                    let k = choose|k: int| 0 <= k < rest.len() && rest[k] == views(pending@)[j];
                    assert(main[i] != rest[k]);
                }
            }
            assert(main.to_set().union(views(pending@).to_set()) =~= main.to_set().union(
                rest.to_set(),
            ).insert(v));
        }
        if pending.len() >= PENDING_LIMIT {
            let merged = merge(items, pending);
            self.items = merged;
            assert(self@ =~= old(self)@.insert(v));
        } else {
            self.items = items;
            self.pending = pending;
        }
        true
    }

    /// Hands the items out in ascending order.
    pub fn into_vec(self) -> (v: Vec<T>)
        ensures
            lists::<T>(views(v@), self@),
    {
        proof {
            use_type_invariant(&self);
        }
        merge(self.items, self.pending)
    }
}

/// The items of a sequence up to position `i`, as a set, with the next item.
pub proof fn lemma_take_next_to_set<A>(s: Seq<A>, i: int)
    requires
        0 <= i < s.len(),
    ensures
        s.take(i + 1).to_set() == s.take(i).to_set().insert(s[i]),
{
    let longer = s.take(i + 1);
    let shorter = s.take(i);
    let a = longer.to_set();
    let b = shorter.to_set().insert(s[i]);
    assert forall|x: A| a.contains(x) implies b.contains(x) by {
        let j = choose|j: int| 0 <= j < longer.len() && longer[j] == x;
        if j < i {
            assert(shorter[j] == x);
        }
    }
    assert forall|x: A| b.contains(x) implies a.contains(x) by {
        if x == s[i] {
            assert(longer[i] == x);
        } else {
            let j = choose|j: int| 0 <= j < shorter.len() && shorter[j] == x;
            assert(longer[j] == x);
        }
    }
    assert(a =~= b);
}

/// A sequence in ascending order holds no value twice.
pub proof fn lemma_ascending_no_duplicates<T: SortKey>(s: Seq<T::V>)
    requires
        ascending::<T>(s),
    ensures
        s.no_duplicates(),
{
    assert forall|i: int, j: int| 0 <= i < s.len() && 0 <= j < s.len() && i != j implies s[i]
        != s[j] by {
        lemma_lex_irreflexive(T::key_of(s[i]));
        if i < j {
            assert(lex_lt(T::key_of(s[i]), T::key_of(s[j])));
        } else {
            assert(lex_lt(T::key_of(s[j]), T::key_of(s[i])));
        }
    }
}

/// The last item of an ascending sequence is its greatest: two ascending
/// sequences with the same values end in the same value.
proof fn lemma_same_last<T: SortKey>(a: Seq<T::V>, b: Seq<T::V>)
    requires
        ascending::<T>(a),
        ascending::<T>(b),
        a.to_set() == b.to_set(),
        a.len() > 0,
        b.len() > 0,
    ensures
        a.last() == b.last(),
{
    assert(a.to_set().contains(a.last()));
    assert(b.to_set().contains(b.last()));
    let j = choose|j: int| 0 <= j < b.len() && b[j] == a.last();
    let k = choose|k: int| 0 <= k < a.len() && a[k] == b.last();
    if j < b.len() - 1 && k < a.len() - 1 {
        assert(lex_lt(T::key_of(b[j]), T::key_of(b[b.len() - 1])));
        assert(lex_lt(T::key_of(a[k]), T::key_of(a[a.len() - 1])));
        lemma_lex_asymmetric(T::key_of(a.last()), T::key_of(b.last()));
    }
}

/// Without its last item, an ascending sequence holds the same values but
/// that one.
proof fn lemma_drop_last_to_set<T: SortKey>(a: Seq<T::V>)
    requires
        ascending::<T>(a),
        a.len() > 0,
    ensures
        ascending::<T>(a.drop_last()),
        a.drop_last().to_set() == a.to_set().remove(a.last()),
{
    let d = a.drop_last();
    lemma_ascending_no_duplicates::<T>(a);
    assert forall|i: int, j: int| 0 <= i < j < d.len() implies lex_lt(
        T::key_of(#[trigger] d[i]),
        T::key_of(#[trigger] d[j]),
    ) by {
        assert(d[i] == a[i] && d[j] == a[j]);
    }
    assert forall|x: T::V| d.to_set().contains(x) implies a.to_set().remove(a.last()).contains(
        x,
    ) by {
        let i = choose|i: int| 0 <= i < d.len() && d[i] == x;
        assert(a[i] == x);
    }
    assert forall|x: T::V| a.to_set().remove(a.last()).contains(x) implies d.to_set().contains(
        x,
    ) by {
        let i = choose|i: int| 0 <= i < a.len() && a[i] == x;
        assert(d[i] == x);
    }
    assert(d.to_set() =~= a.to_set().remove(a.last()));
}

/// A set has one ascending listing: two ascending sequences that hold the
/// same values are the same sequence. So the same words give the same
/// vocabulary, and each word the same position in it.
pub proof fn lemma_listing_unique<T: SortKey>(a: Seq<T::V>, b: Seq<T::V>)
    requires
        ascending::<T>(a),
        ascending::<T>(b),
        a.to_set() == b.to_set(),
    ensures
        a == b,
    decreases a.len(),
{
    if a.len() == 0 {
        if b.len() > 0 {
            assert(b.to_set().contains(b[0]));
            assert(a.to_set().contains(b[0]));
        }
        assert(a =~= b);
    } else {
        assert(a.to_set().contains(a[0]));
        assert(b.len() > 0);
        lemma_same_last::<T>(a, b);
        lemma_drop_last_to_set::<T>(a);
        lemma_drop_last_to_set::<T>(b);
        lemma_listing_unique::<T>(a.drop_last(), b.drop_last());
        assert(a =~= a.drop_last().push(a.last()));
        assert(b =~= b.drop_last().push(b.last()));
    }
}

} // verus!
