use phrase_index::{
    build_index, build_vocabulary, get_phrase_list, get_word_list, phrase_fingerprints,
    process_dense_nodes, process_name, process_nodes_and_ways, process_relations, record_name,
    try_get_phrase_list, try_process_name, try_write_vocab_fst, write_phrase_filter,
    write_vocab_fst, PhraseAggregator, PhraseFilter, Record, RecordKind, Tag, UnknownName,
    UnknownWord, WordAggregator,
};

fn tag(key: &str, value: &str) -> Tag {
    Tag { key: key.to_string(), value: value.to_string() }
}

fn record(kind: RecordKind, tags: Vec<Tag>) -> Record {
    Record { kind, tags }
}

fn names_of(records: &[Record]) -> Vec<String> {
    let mut names = Vec::new();
    for r in records {
        if let Some(n) = process_nodes_and_ways(r) {
            names.push(n);
        }
        if let Some(n) = process_dense_nodes(r) {
            names.push(n);
        }
        if let Some(n) = process_relations(r) {
            names.push(n);
        }
    }
    names
}

#[test]
fn scenario_a_two_cases_of_one_name() {
    let records = vec![
        record(RecordKind::Node, vec![tag("name", "Rue De La Paix")]),
        record(RecordKind::Way, vec![tag("name", "rue de la paix")]),
    ];
    let names = names_of(&records);
    assert_eq!(names, vec!["rue de la paix", "rue de la paix"]);
    let list = get_word_list(&names);
    assert_eq!(list, vec!["de", "la", "paix", "rue"]);
    let vocab = write_vocab_fst(&list);
    assert_eq!(vocab.get("de"), Some(1));
    assert_eq!(vocab.get("la"), Some(2));
    assert_eq!(vocab.get("paix"), Some(3));
    assert_eq!(vocab.get("rue"), Some(4));
    assert_eq!(process_name("Rue De La Paix", &vocab), vec![4, 1, 2, 3]);
    assert_eq!(process_name("rue de la paix", &vocab), vec![4, 1, 2, 3]);
    let phrases = get_phrase_list(&names, &vocab);
    assert_eq!(phrases, vec![vec![4, 1, 2, 3]]);
    let fingerprints = phrase_fingerprints(&phrases).into_vec();
    assert_eq!(fingerprints.len(), 1);
}

#[test]
fn scenario_a_through_the_aggregators() {
    let mut words = WordAggregator::new();
    assert_eq!(words.receive(Some("Rue De La Paix".to_string())), None);
    assert_eq!(words.receive(Some("rue de la paix".to_string())), None);
    let list = words.receive(None).unwrap();
    assert_eq!(list, vec!["de", "la", "paix", "rue"]);
    let vocab = write_vocab_fst(&list);
    let mut phrases = PhraseAggregator::new();
    assert_eq!(phrases.receive(Some(process_name("Rue De La Paix", &vocab))), None);
    assert_eq!(phrases.receive(Some(process_name("rue de la paix", &vocab))), None);
    assert_eq!(phrases.receive(None), Some(vec![vec![4, 1, 2, 3]]));
}

#[test]
fn scenario_b_record_without_name() {
    let r = record(RecordKind::Node, vec![tag("highway", "residential"), tag("ref", "A 1")]);
    assert_eq!(process_nodes_and_ways(&r), None);
    assert_eq!(process_dense_nodes(&r), None);
    assert_eq!(process_relations(&r), None);
    assert_eq!(record_name(&r), None);
    let bare = record(RecordKind::Relation, vec![]);
    assert_eq!(process_relations(&bare), None);
    let names = names_of(&[r, bare]);
    assert!(names.is_empty());
    let index = build_index(&names).unwrap();
    assert!(index.words.is_empty());
    assert!(index.phrases.is_empty());
}

#[test]
fn scenario_c_first_of_two_name_tags() {
    let r = record(
        RecordKind::Way,
        vec![tag("ref", "B 2"), tag("name", "First Street"), tag("name", "Second Avenue")],
    );
    assert_eq!(process_nodes_and_ways(&r), Some("first street".to_string()));
    let list = get_word_list(&names_of(&[r]));
    assert_eq!(list, vec!["first", "street"]);
}

#[test]
fn scenario_d_empty_dataset() {
    let names: Vec<String> = Vec::new();
    let list = get_word_list(&names);
    assert!(list.is_empty());
    let vocab = write_vocab_fst(&list);
    assert_eq!(vocab.len(), 0);
    assert_eq!(vocab.get("anything"), None);
    let phrases = get_phrase_list(&names, &vocab);
    assert!(phrases.is_empty());
    assert!(phrase_fingerprints(&phrases).into_vec().is_empty());
    let filter = PhraseFilter::build(phrase_fingerprints(&phrases)).unwrap();
    assert_eq!(filter.slots().len(), 3 * filter.block_length());
    let bytes = write_phrase_filter(&phrases).unwrap();
    assert_eq!(bytes, filter.to_bytes().unwrap());
    assert!(!vocab.to_bytes().is_empty());
}

#[test]
fn extractors_go_by_kind() {
    let tags = || vec![tag("name", "Lac Léman")];
    let node = record(RecordKind::Node, tags());
    let dense = record(RecordKind::DenseNode, tags());
    let way = record(RecordKind::Way, tags());
    let relation = record(RecordKind::Relation, tags());
    let name = Some("lac léman".to_string());
    assert_eq!(process_nodes_and_ways(&node), name);
    assert_eq!(process_nodes_and_ways(&way), name);
    assert_eq!(process_nodes_and_ways(&dense), None);
    assert_eq!(process_nodes_and_ways(&relation), None);
    assert_eq!(process_dense_nodes(&dense), name);
    assert_eq!(process_dense_nodes(&node), None);
    assert_eq!(process_dense_nodes(&way), None);
    assert_eq!(process_dense_nodes(&relation), None);
    assert_eq!(process_relations(&relation), name);
    assert_eq!(process_relations(&node), None);
    assert_eq!(process_relations(&dense), None);
    assert_eq!(process_relations(&way), None);
    for r in [&node, &dense, &way, &relation] {
        assert_eq!(record_name(r), name);
    }
}

#[test]
fn name_key_is_matched_exactly() {
    let r = record(
        RecordKind::Node,
        vec![tag("Name", "A"), tag("name:en", "B"), tag("nam", "C"), tag("names", "D")],
    );
    assert_eq!(process_nodes_and_ways(&r), None);
    let r = record(RecordKind::Node, vec![tag("NAME", "A"), tag("name", "Ünter DEN Linden")]);
    assert_eq!(process_nodes_and_ways(&r), Some("ünter den linden".to_string()));
}

#[test]
fn empty_name_gives_no_word() {
    let r = record(RecordKind::Node, vec![tag("name", "  \t ")]);
    assert_eq!(process_nodes_and_ways(&r), Some("  \t ".to_string()));
    let list = get_word_list(&names_of(&[r]));
    assert!(list.is_empty());
}

#[test]
fn pipeline_on_a_small_corpus() {
    let names = vec![
        "Main Street".to_string(),
        "main street".to_string(),
        "Street Main".to_string(),
        "Old Main Road".to_string(),
    ];
    let index = build_index(&names).unwrap();
    assert_eq!(index.words, vec!["main", "old", "road", "street"]);
    assert_eq!(index.vocabulary.len(), 4);
    assert_eq!(index.phrases, vec![vec![1, 4], vec![2, 1, 3], vec![4, 1]]);
    for phrase in &index.phrases {
        assert!(index.filter.contains_phrase(phrase));
    }
    let (words, vocabulary) = build_vocabulary(&names);
    assert_eq!(words, index.words);
    assert_eq!(vocabulary.to_bytes(), index.vocabulary.to_bytes());
}

#[test]
fn second_run_repeats_the_first() {
    let names =
        vec!["Place de la Concorde".to_string(), "Rue de Rivoli".to_string(), "la place".to_string()];
    let first = build_index(&names).unwrap();
    let second = build_index(&names).unwrap();
    assert_eq!(first.words, second.words);
    assert_eq!(first.phrases, second.phrases);
    assert_eq!(first.vocabulary.to_bytes(), second.vocabulary.to_bytes());
    assert_eq!(first.filter.to_bytes().unwrap(), second.filter.to_bytes().unwrap());
    for w in &first.words {
        assert_eq!(first.vocabulary.get(w), second.vocabulary.get(w));
    }
}

#[test]
fn order_of_names_does_not_matter() {
    let a = vec!["gamma alpha".to_string(), "beta".to_string(), "alpha beta".to_string()];
    let b = vec!["alpha beta".to_string(), "gamma alpha".to_string(), "beta".to_string(), "beta".to_string()];
    assert_eq!(get_word_list(&a), get_word_list(&b));
    assert_eq!(get_word_list(&a), vec!["alpha", "beta", "gamma"]);
    let x = build_index(&a).unwrap();
    let y = build_index(&b).unwrap();
    assert_eq!(x.phrases, y.phrases);
    assert_eq!(x.phrases, vec![vec![1, 2], vec![2], vec![3, 1]]);
}

#[test]
fn every_word_of_the_corpus_is_found() {
    let names = vec![
        "Πλατεία ΣΥΝΤΆΓΜΑΤΟΣ".to_string(),
        "Straße des 17. Juni".to_string(),
        "İstiklal Caddesi".to_string(),
        "東京 タワー".to_string(),
    ];
    let (words, vocabulary) = build_vocabulary(&names);
    for name in &names {
        let ids = process_name(name, &vocabulary);
        assert_eq!(ids.len(), name.split_whitespace().count());
        for (piece, id) in name.split_whitespace().zip(ids.iter()) {
            assert!(*id >= 1);
            assert!(*id as usize <= words.len());
            assert_eq!(words[*id as usize - 1], piece.to_lowercase());
            assert_eq!(vocabulary.get(&piece.to_lowercase()), Some(*id));
        }
    }
}

#[test]
fn name_from_another_corpus_is_refused() {
    let first = vec!["rue de la paix".to_string()];
    let (_, vocabulary) = build_vocabulary(&first);
    let second = vec!["rue".to_string(), "gare".to_string()];
    assert_eq!(try_process_name("rue", &vocabulary), Ok(vec![4]));
    assert_eq!(try_process_name("gare", &vocabulary), Err(UnknownWord { position: 0 }));
    assert_eq!(
        try_get_phrase_list(&second, &vocabulary),
        Err(UnknownName { name: 1, position: 0 })
    );
}

#[test]
fn testing_functions_agree_with_the_plain_ones() {
    let names = vec!["Old Main Road".to_string(), "main".to_string(), "".to_string()];
    let list = get_word_list(&names);
    let by_test = try_write_vocab_fst(&list).unwrap();
    let plain = write_vocab_fst(&list);
    assert_eq!(by_test.to_bytes(), plain.to_bytes());
    for name in &names {
        assert_eq!(try_process_name(name, &plain), Ok(process_name(name, &plain)));
    }
    assert_eq!(try_get_phrase_list(&names, &plain), Ok(get_phrase_list(&names, &plain)));
}

#[test]
fn empty_dataset_gives_the_filter_of_nothing() {
    let bytes = write_phrase_filter(&Vec::new()).unwrap();
    let expected = xorf::Xor16::from(&Vec::<u64>::new());
    assert_eq!(bytes, bincode::serialize(&expected).unwrap());
    assert_eq!(bytes.len(), 84);
}
