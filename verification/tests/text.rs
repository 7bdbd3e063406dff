use phrase_index::order::{compare_bytes, compare_ids, Comparison, SortKey};
use phrase_index::sorted_set::SortedSet;
use phrase_index::text::{same_text, split_whitespace};
use phrase_index::vocab::fold_name;
use phrase_index::{get_word_list, WordAggregator};

#[test]
fn split_keeps_the_order_of_words() {
    assert_eq!(split_whitespace("Rue De La Paix"), vec!["Rue", "De", "La", "Paix"]);
    assert_eq!(split_whitespace("one"), vec!["one"]);
}

#[test]
fn split_skips_runs_of_whitespace() {
    assert_eq!(split_whitespace("  a \t\tb\n c  "), vec!["a", "b", "c"]);
    assert_eq!(split_whitespace("a\u{3000}b\u{a0}c\u{2003}d\u{85}e"), vec!["a", "b", "c", "d", "e"]);
    assert_eq!(split_whitespace("a\u{200b}b"), vec!["a\u{200b}b"]);
}

#[test]
fn split_of_blank_text_is_empty() {
    assert!(split_whitespace("").is_empty());
    assert!(split_whitespace(" ").is_empty());
    assert!(split_whitespace("\t\n\r \u{2028}").is_empty());
}

#[test]
fn split_agrees_with_the_standard_library() {
    for s in ["", " x", "x ", "Grüße  aus\tKöln", "東京 タワー", " \u{1680}a\u{202f}\u{205f}b ", "a b c d e f g"] {
        let expected: Vec<String> = s.split_whitespace().map(|w| w.to_string()).collect();
        assert_eq!(split_whitespace(s), expected);
    }
}

#[test]
fn same_text_tells_strings_apart() {
    assert!(same_text("name", "name"));
    assert!(!same_text("name", "Name"));
    assert!(!same_text("name", "names"));
    assert!(!same_text("nam", "name"));
    assert!(same_text("", ""));
    assert!(same_text("é", "\u{e9}"));
    assert!(!same_text("é", "e\u{301}"));
}

#[test]
fn words_are_folded_to_lowercase() {
    let mut set: SortedSet<String> = SortedSet::new();
    fold_name(&mut set, "ÉCOLE Élémentaire école");
    assert_eq!(set.into_vec(), vec!["école", "élémentaire"]);
    assert_eq!(get_word_list(&vec!["ΟΔΟΣ Οδός".to_string()]), vec!["οδος", "οδός"]);
}

#[test]
fn vocabulary_is_in_byte_order() {
    let names = vec!["zebra Zoo émile eagle Ärger apple 10 2 _x".to_string()];
    let list = get_word_list(&names);
    assert_eq!(list, vec!["10", "2", "_x", "apple", "eagle", "zebra", "zoo", "ärger", "émile"]);
    let mut sorted = list.clone();
    sorted.sort();
    sorted.dedup();
    assert_eq!(list, sorted);
}

#[test]
fn vocabulary_holds_no_word_twice() {
    let names = vec!["a b a".to_string(), "B A".to_string(), "b  a".to_string()];
    assert_eq!(get_word_list(&names), vec!["a", "b"]);
}

#[test]
fn compare_bytes_is_lexicographic() {
    assert_eq!(compare_bytes(b"", b""), Comparison::Equal);
    assert_eq!(compare_bytes(b"", b"a"), Comparison::Less);
    assert_eq!(compare_bytes(b"a", b""), Comparison::Greater);
    assert_eq!(compare_bytes(b"abc", b"abd"), Comparison::Less);
    assert_eq!(compare_bytes(b"abd", b"abc"), Comparison::Greater);
    assert_eq!(compare_bytes(b"ab", b"abc"), Comparison::Less);
    assert_eq!(compare_bytes(b"b", b"abc"), Comparison::Greater);
    assert_eq!(compare_bytes(&[0xff], &[0x00, 0x01]), Comparison::Greater);
    assert_eq!(compare_bytes(b"same", b"same"), Comparison::Equal);
}

#[test]
fn compare_ids_is_lexicographic() {
    assert_eq!(compare_ids(&[], &[]), Comparison::Equal);
    assert_eq!(compare_ids(&[1, 2], &[1, 2]), Comparison::Equal);
    assert_eq!(compare_ids(&[1, 2], &[2, 1]), Comparison::Less);
    assert_eq!(compare_ids(&[2, 1], &[1, 2]), Comparison::Greater);
    assert_eq!(compare_ids(&[1], &[1, 0]), Comparison::Less);
    assert_eq!(compare_ids(&[u64::MAX], &[1, 2, 3]), Comparison::Greater);
    assert_eq!(compare_ids(&[256], &[255, 255]), Comparison::Greater);
}

#[test]
fn sort_keys_compare_as_the_standard_order() {
    let words = ["", "a", "A", "ab", "b", "é", "z", "東", "ab "];
    for a in words {
        for b in words {
            let expected = match a.cmp(b) {
                std::cmp::Ordering::Less => Comparison::Less,
                std::cmp::Ordering::Equal => Comparison::Equal,
                std::cmp::Ordering::Greater => Comparison::Greater,
            };
            assert_eq!(a.to_string().compare(&b.to_string()), expected);
        }
    }
    assert_eq!(3u64.compare(&7), Comparison::Less);
    assert_eq!(7u64.compare(&7), Comparison::Equal);
    assert_eq!(u64::MAX.compare(&0), Comparison::Greater);
    assert_eq!(vec![1u64, 2].compare(&vec![1, 2, 0]), Comparison::Less);
}

#[test]
fn sorted_set_keeps_order_and_drops_repeats() {
    let mut set: SortedSet<u64> = SortedSet::new();
    assert!(!set.contains(&5));
    for (x, added) in [(5, true), (1, true), (9, true), (5, false), (3, true), (1, false), (0, true)] {
        assert_eq!(set.insert(x), added);
    }
    assert!(set.contains(&0));
    assert!(set.contains(&9));
    assert!(!set.contains(&4));
    assert_eq!(set.into_vec(), vec![0, 1, 3, 5, 9]);
}

#[test]
fn sorted_set_of_many_items() {
    let mut set: SortedSet<u64> = SortedSet::new();
    let mut expected: Vec<u64> = Vec::new();
    let mut x: u64 = 12345;
    for round in 0..20000u64 {
        x = x.wrapping_mul(6364136223846793005).wrapping_add(1442695040888963407);
        let item = (x >> 33) % 15000;
        let is_new = !expected.contains(&item);
        assert_eq!(set.contains(&item), !is_new);
        assert_eq!(set.insert(item), is_new);
        assert!(set.contains(&item));
        if is_new {
            expected.push(item);
        }
        if round % 5000 == 0 {
            assert!(!set.contains(&20000));
        }
    }
    expected.sort();
    assert!(expected.len() > 2 * 4096);
    assert_eq!(set.into_vec(), expected);
}

#[test]
fn sorted_set_of_many_words() {
    let mut set: SortedSet<String> = SortedSet::new();
    let mut expected: Vec<String> = Vec::new();
    for i in (0..5000u32).rev() {
        let word = format!("w{}", (i * 7919) % 5000);
        assert!(set.insert(word.clone()));
        expected.push(word);
    }
    for w in &expected {
        assert!(!set.insert(w.clone()));
    }
    expected.sort();
    assert_eq!(set.into_vec(), expected);
}

#[test]
fn sorted_set_of_sequences() {
    let mut set: SortedSet<Vec<u64>> = SortedSet::new();
    assert!(set.insert(vec![2, 1]));
    assert!(set.insert(vec![1, 2]));
    assert!(set.insert(vec![]));
    assert!(set.insert(vec![1]));
    assert!(!set.insert(vec![1, 2]));
    assert!(set.insert(vec![1, 2, 0]));
    assert_eq!(set.into_vec(), vec![vec![], vec![1], vec![1, 2], vec![1, 2, 0], vec![2, 1]]);
}

#[test]
fn word_aggregator_delivers_once() {
    let mut a = WordAggregator::new();
    assert_eq!(a.receive(Some("b a".to_string())), None);
    assert_eq!(a.receive(Some("C b".to_string())), None);
    assert_eq!(a.receive(None), Some(vec!["a".to_string(), "b".to_string(), "c".to_string()]));
    assert_eq!(a.receive(None), None);
    assert_eq!(a.receive(Some("d".to_string())), None);
    assert_eq!(a.receive(None), None);
}

#[test]
fn word_aggregator_with_nothing_to_deliver() {
    let mut a = WordAggregator::new();
    assert_eq!(a.receive(None), Some(Vec::<String>::new()));
    assert_eq!(a.receive(None), None);
}

fn has_white_space_property(c: char) -> bool {
    matches!(
        c as u32,
        0x09..=0x0d
            | 0x20
            | 0x85
            | 0xa0
            | 0x1680
            | 0x2000..=0x200a
            | 0x2028
            | 0x2029
            | 0x202f
            | 0x205f
            | 0x3000
    )
}

#[test]
fn whitespace_is_the_listed_code_points() {
    let mut count = 0;
    for u in 0..=0x10ffffu32 {
        if let Some(c) = char::from_u32(u) {
            assert_eq!(c.is_whitespace(), has_white_space_property(c));
            if has_white_space_property(c) {
                count += 1;
                let text = format!("a{}b", c);
                assert_eq!(split_whitespace(&text), vec!["a", "b"]);
            }
        }
    }
    assert_eq!(count, 25);
    for c in ['\u{200b}', '\u{180e}', '\u{feff}', '\u{1f}', '_', '\u{2060}'] {
        let text = format!("a{}b", c);
        assert_eq!(split_whitespace(&text), vec![text.clone()]);
    }
}
