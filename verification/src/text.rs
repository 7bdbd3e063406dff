//! Splitting names into words and folding their case.

use crate::order::{compare_bytes, Comparison};
use crate::sorted_set::views;
use vstd::prelude::*;
use vstd::std_specs::iter::IteratorSpec;
use vstd::string::StrSliceExecFns;
use vstd::string::StringExecFns;

verus! {

/// Whether `c` is a whitespace character: one of the 25 code points with the
/// Unicode property White_Space.
pub open spec fn is_whitespace(c: char) -> bool {
    let u = c as u32;
    ||| 0x09 <= u <= 0x0d
    ||| u == 0x20
    ||| u == 0x85
    ||| u == 0xa0
    ||| u == 0x1680
    ||| 0x2000 <= u <= 0x200a
    ||| u == 0x2028
    ||| u == 0x2029
    ||| u == 0x202f
    ||| u == 0x205f
    ||| u == 0x3000
}

/// The lowercase form of `s`, as `str::to_lowercase` gives it.
pub uninterp spec fn lowercase(s: Seq<char>) -> Seq<char>;

/// Calls `char::is_whitespace`, which tests the Unicode property White_Space.
/// Trusted: the characters with that property are the ones that
/// `is_whitespace` lists.
#[verifier::external_body]
pub(crate) fn char_is_whitespace(c: char) -> (r: bool)
    ensures
        r == is_whitespace(c),
{
    c.is_whitespace()
}

/// Calls `str::to_lowercase`, which maps a string to its lowercase form by the
/// Unicode tables, whatever the locale. Trusted: the result is the named
/// lowercase form of `s`.
#[verifier::external_body]
pub(crate) fn to_lowercase(s: &str) -> (r: String)
    ensures
        r@ == lowercase(s@),
{
    s.to_lowercase()
}

/// Whether two strings hold the same characters.
pub fn same_text(a: &str, b: &str) -> (same: bool)
    ensures
        same == (a@ == b@),
{
    proof {
        vstd::utf8::encode_utf8_decode_utf8(a@);
        vstd::utf8::encode_utf8_decode_utf8(b@);
    }
    match compare_bytes(a.as_bytes(), b.as_bytes()) {
        Comparison::Equal => true,
        _ => false,
    }
}

/// The words of `words` in lowercase, each in its place.
pub open spec fn folded(words: Seq<Seq<char>>) -> Seq<Seq<char>> {
    words.map_values(|w: Seq<char>| lowercase(w))
}

/// What a reader that goes through `s` from the left has found: the words
/// that have ended, and the word it is in (empty between words).
pub open spec fn scan(s: Seq<char>) -> (Seq<Seq<char>>, Seq<char>)
    decreases s.len(),
{
    if s.len() == 0 {
        (Seq::empty(), Seq::empty())
    } else {
        let (done, current) = scan(s.drop_last());
        if !is_whitespace(s.last()) {
            (done, current.push(s.last()))
        } else if current.len() > 0 {
            (done.push(current), Seq::empty())
        } else {
            (done, current)
        }
    }
}

/// The words of `s`: its maximal runs of characters that are not whitespace,
/// from left to right.
pub open spec fn words_of(s: Seq<char>) -> Seq<Seq<char>> {
    let (done, current) = scan(s);
    if current.len() > 0 {
        done.push(current)
    } else {
        done
    }
}

/// No character of `w` is whitespace.
pub open spec fn free_of_whitespace(w: Seq<char>) -> bool {
    forall|j: int| 0 <= j < w.len() ==> !is_whitespace(#[trigger] w[j])
}

/// Every word that a reader has found is non-empty and free of whitespace,
/// and so is what it has read of the word it is in.
proof fn lemma_scan_words(s: Seq<char>)
    ensures
        forall|i: int|
            0 <= i < scan(s).0.len() ==> (#[trigger] scan(s).0[i]).len() > 0 && free_of_whitespace(
                scan(s).0[i],
            ),
        free_of_whitespace(scan(s).1),
    decreases s.len(),
{
    if s.len() > 0 {
        lemma_scan_words(s.drop_last());
        let (done, current) = scan(s.drop_last());
        if !is_whitespace(s.last()) {
            let longer = current.push(s.last());
            assert forall|j: int| 0 <= j < longer.len() implies !is_whitespace(
                #[trigger] longer[j],
            ) by {
                if j < current.len() {
                    assert(longer[j] == current[j]);
                }
            }
        } else if current.len() > 0 {
            let more = done.push(current);
            assert forall|i: int| 0 <= i < more.len() implies (#[trigger] more[i]).len() > 0
                && free_of_whitespace(more[i]) by {
                if i < done.len() {
                    assert(more[i] == done[i]);
                }
            }
        }
    }
}

/// No word is empty, and no word holds whitespace.
pub proof fn lemma_words_hold_no_whitespace(s: Seq<char>)
    ensures
        forall|i: int|
            0 <= i < words_of(s).len() ==> (#[trigger] words_of(s)[i]).len() > 0
                && free_of_whitespace(words_of(s)[i]),
{
    lemma_scan_words(s);
    let (done, current) = scan(s);
    if current.len() > 0 {
        let more = done.push(current);
        assert forall|i: int| 0 <= i < more.len() implies (#[trigger] more[i]).len() > 0
            && free_of_whitespace(more[i]) by {
            if i < done.len() {
                assert(more[i] == done[i]);
            }
        }
    }
}

/// Behind a point where no word is open, a reader finds what it would find
/// in the rest alone.
proof fn lemma_scan_resumes(a: Seq<char>, b: Seq<char>)
    requires
        scan(a).1.len() == 0,
    ensures
        scan(a + b) == (scan(a).0 + scan(b).0, scan(b).1),
    decreases b.len(),
{
    if b.len() == 0 {
        assert(a + b =~= a);
        assert(scan(a).0 + scan(b).0 =~= scan(a).0);
        assert(scan(b).1 =~= scan(a).1);
    } else {
        lemma_scan_resumes(a, b.drop_last());
        assert((a + b).drop_last() =~= a + b.drop_last());
        assert((a + b).last() == b.last());
        let (done, current) = scan(b.drop_last());
        assert((scan(a).0 + done).push(current) =~= scan(a).0 + done.push(current));
    }
}

/// A whitespace character parts a string: the words of the whole are the
/// words before it, then the words behind it.
pub proof fn lemma_words_split_at_whitespace(a: Seq<char>, c: char, b: Seq<char>)
    requires
        is_whitespace(c),
    ensures
        words_of(a.push(c) + b) == words_of(a) + words_of(b),
{
    let head = a.push(c);
    assert(head.drop_last() =~= a);
    assert(head.last() == c);
    assert(scan(head) == (words_of(a), Seq::<char>::empty()));
    lemma_scan_resumes(head, b);
    let (done, current) = scan(b);
    assert((words_of(a) + done).push(current) =~= words_of(a) + done.push(current));
}

/// A reader that has met no whitespace has found no word, and is in the
/// word that it has read.
proof fn lemma_scan_one_word(w: Seq<char>)
    requires
        free_of_whitespace(w),
    ensures
        scan(w) == (Seq::<Seq<char>>::empty(), w),
    decreases w.len(),
{
    if w.len() == 0 {
        assert(w =~= Seq::<char>::empty());
    } else {
        lemma_scan_one_word(w.drop_last());
        assert(w.drop_last().push(w.last()) =~= w);
    }
}

/// A space parts a string, and so does a tab: the words of the whole are the
/// words before it, then the words behind it.
pub proof fn lemma_words_split_at_space_or_tab(a: Seq<char>, b: Seq<char>)
    ensures
        words_of(a.push(' ') + b) == words_of(a) + words_of(b),
        words_of(a.push('\t') + b) == words_of(a) + words_of(b),
{
    lemma_words_split_at_whitespace(a, ' ', b);
    lemma_words_split_at_whitespace(a, '\t', b);
}

/// A non-empty string without whitespace is its own single word.
pub proof fn lemma_single_word(w: Seq<char>)
    requires
        w.len() > 0,
        free_of_whitespace(w),
    ensures
        words_of(w) == seq![w],
{
    lemma_scan_one_word(w);
    assert(Seq::<Seq<char>>::empty().push(w) =~= seq![w]);
}

/// Splits `name` at whitespace into its words.
pub fn split_whitespace(name: &str) -> (words: Vec<String>)
    ensures
        views(words@) == words_of(name@),
{
    let n: usize = name.unicode_len();
    let mut words: Vec<String> = Vec::new();
    let mut chars = name.chars();
    let mut i: usize = 0;
    let mut start: usize = 0;
    assert(name@.take(0) =~= Seq::<char>::empty());
    assert(name@.skip(0) =~= name@);
    assert(views(words@) =~= Seq::<Seq<char>>::empty());
    assert(name@.subrange(0, 0) =~= Seq::<char>::empty());
    loop
        invariant
            n == name@.len(),
            start <= i <= n,
            chars.remaining() == name@.skip(i as int),
            scan(name@.take(i as int)) == (views(words@), name@.subrange(start as int, i as int)),
        ensures
            i == n,
            start <= i,
            scan(name@) == (views(words@), name@.subrange(start as int, i as int)),
        decreases n - i,
    {
        let next = chars.next();
        match next {
            None => {
                assert(name@.take(i as int) =~= name@);
                break ;
            },
            Some(c) => {
                assert(i < n);
                assert(c == name@[i as int]);
                let ghost prefix = name@.take(i + 1);
                assert(prefix.drop_last() =~= name@.take(i as int));
                assert(prefix.last() == c);
                assert(name@.skip(i as int).drop_first() =~= name@.skip(i + 1));
                if char_is_whitespace(c) {
                    if start < i {
                        let word = String::from_str(name.substring_char(start, i));
                        let ghost before = views(words@);
                        words.push(word);
                        assert(views(words@) =~= before.push(name@.subrange(start as int, i as int)));
                    }
                    start = i + 1;
                    assert(name@.subrange(start as int, i + 1) =~= Seq::<char>::empty());
                } else {
                    assert(name@.subrange(start as int, i + 1) =~= name@.subrange(
                        start as int,
                        i as int,
                    ).push(c));
                }
                i = i + 1;
            },
        }
    }
    if start < i {
        let word = String::from_str(name.substring_char(start, i));
        let ghost before = views(words@);
        words.push(word);
        assert(views(words@) =~= before.push(name@.subrange(start as int, i as int)));
    }
    words
}

} // verus!
