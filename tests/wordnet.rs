use algs4::outcast::find_outcast;
use algs4::text::{parse_decimal, split_fields};
use algs4::wordnet::{Synset, WordNet};

#[test]
fn should_have_no_nouns_initially() {
    let w = WordNet::create_from_synsets_and_hypernyms(Vec::new(), Vec::new());

    assert!(!w.is_noun(&"dog".to_string()));
}

#[test]
fn should_remember_nouns_in_synsets() {
    let w = WordNet::create_from_synsets_and_hypernyms(
        vec![
            Synset::new(vec!["dog".to_string(), "hound".to_string()]),
            Synset::new(vec!["god".to_string()]),
        ],
        Vec::new(),
    );

    assert!(w.is_noun(&"dog".to_string()));
    assert!(w.is_noun(&"hound".to_string()));
    assert!(w.is_noun(&"god".to_string()));
    assert!(!w.is_noun(&"cat".to_string()));
}

#[test]
fn should_be_able_to_calculate_relationship_between_nouns() {
    let w = WordNet::create_from_synsets_and_hypernyms(
        vec![
            Synset::new(vec!["mars".to_string(), "ares".to_string()]),
            Synset::new(vec!["god".to_string()]),
            Synset::new(vec!["zeus".to_string()]),
        ],
        vec![
            (0, 1), // mars and ares are gods
            (2, 1), // zeus is a god
        ],
    );

    assert_eq!(w.relationship(&"mars".to_string(), &"zeus".to_string()), 2);
    assert_eq!(w.relationship(&"zeus".to_string(), &"mars".to_string()), 2);

    assert_eq!(w.relationship(&"ares".to_string(), &"zeus".to_string()), 2);

    assert_eq!(w.relationship(&"ares".to_string(), &"god".to_string()), 1);
}

#[test]
fn lists_each_noun_once() {
    let w = WordNet::create_from_synsets_and_hypernyms(
        vec![
            Synset::new(vec!["bat".to_string(), "club".to_string()]),
            Synset::new(vec!["bat".to_string()]),
        ],
        vec![(1, 0)],
    );
    let mut nouns: Vec<String> = w.nouns().into_iter().cloned().collect();
    nouns.sort();
    assert_eq!(nouns, vec!["bat".to_string(), "club".to_string()]);
    assert_eq!(w.relationship(&"bat".to_string(), &"club".to_string()), 0);
}

#[test]
fn calculates_sample_outcast_correctly() {
    let w = WordNet::create_from_synsets_and_hypernyms(
        vec![
            Synset::new(vec!["mars".to_string(), "ares".to_string()]),
            Synset::new(vec!["god".to_string()]),
            Synset::new(vec!["zeus".to_string()]),
            Synset::new(vec!["being".to_string()]),
            Synset::new(vec!["caspar".to_string()]),
        ],
        vec![
            (0, 1), // mars and ares are gods
            (2, 1), // zeus is a god
            (1, 3), // a god is a being
            (4, 3), // caspar is a being
        ],
    );

    assert_eq!(
        find_outcast(
            &w,
            &vec![
                "mars".to_string(),
                "zeus".to_string(),
                "god".to_string(),
                "caspar".to_string()
            ]
        ),
        &"caspar".to_string()
    );
}

#[test]
fn splits_lines_into_fields() {
    assert_eq!(
        split_fields(b"34,AIDS acquired_immune_deficiency_syndrome,a disease", b','),
        vec![
            b"34".to_vec(),
            b"AIDS acquired_immune_deficiency_syndrome".to_vec(),
            b"a disease".to_vec()
        ]
    );
    assert_eq!(split_fields(b"", b','), vec![Vec::<u8>::new()]);
    assert_eq!(split_fields(b"a,,b,", b','), vec![b"a".to_vec(), vec![], b"b".to_vec(), vec![]]);
}

#[test]
fn parses_decimal_numbers() {
    assert_eq!(parse_decimal(b"0"), Some(0));
    assert_eq!(parse_decimal(b"82192"), Some(82192));
    assert_eq!(parse_decimal(b""), None);
    assert_eq!(parse_decimal(b"12a"), None);
    assert_eq!(parse_decimal(b"-3"), None);
    assert_eq!(parse_decimal(b"18446744073709551615"), usize::try_from(u64::MAX).ok());
    assert_eq!(parse_decimal(b"99999999999999999999999"), None);
}
