use qc::data::{
    filter_clues, get_multi_surfaces, make_lookup, make_mask_lookup, make_ms_pairs, make_pair_prefix_lookup,
    make_pairs_to_surface, make_pairs_to_surfaces, make_word_list, make_word_list_all, should_include, LOOKUP_BUCKETS,
};

fn w(s: &str) -> Vec<char> {
    s.chars().collect()
}

fn clue(s: &str, a: &str) -> (String, Vec<char>) {
    (s.to_string(), w(a))
}

fn pair(s: &str, a: &str, b: &str) -> (String, Vec<char>, Vec<char>) {
    (s.to_string(), w(a), w(b))
}

#[test]
fn should_include_accepts_plain_clue() {
    assert!(should_include(&"Fruit".to_string(), &w("APPLE"), 0, None, 0, None));
}

#[test]
fn should_include_rejects_bad_surfaces() {
    assert!(!should_include(&"".to_string(), &w("APPLE"), 0, None, 0, None));
    assert!(!should_include(&"See 4 across".to_string(), &w("APPLE"), 0, None, 0, None));
    assert!(!should_include(&"<<NO CLUE>>".to_string(), &w("APPLE"), 0, None, 0, None));
    // Only a cross-reference is dropped, not every surface starting with "See".
    assert!(should_include(&"Seesaw".to_string(), &w("APPLE"), 0, None, 0, None));
}

#[test]
fn should_include_rejects_bad_answers() {
    assert!(!should_include(&"Fruit".to_string(), &w("Apple"), 0, None, 0, None));
    assert!(!should_include(&"Fruit".to_string(), &w("APPLE PIE"), 0, None, 0, None));
    assert!(!should_include(&"Fruit".to_string(), &w("ÄPPLE"), 0, None, 0, None));
}

#[test]
fn should_include_applies_thresholds() {
    let s = "Fruit".to_string();
    assert!(should_include(&s, &w("APPLE"), 5, Some(5), 0, None));
    assert!(!should_include(&s, &w("APPLE"), 4, Some(5), 0, None));
    assert!(should_include(&s, &w("APPLE"), 0, None, 7, Some(7)));
    assert!(!should_include(&s, &w("APPLE"), 0, None, 6, Some(7)));
}

#[test]
fn filter_clues_keeps_order() {
    let clues = vec![clue("A", "ONE"), clue("", "TWO"), clue("B", "THREE"), clue("C", "four")];
    let kept = filter_clues(clues, vec![1, 1, 0, 1], Some(1), &vec![0, 0, 0, 0], None);
    assert_eq!(kept, vec![clue("A", "ONE")]);
    let clues = vec![clue("A", "ONE"), clue("", "TWO"), clue("B", "THREE"), clue("C", "four")];
    let kept = filter_clues(clues, vec![0; 4], None, &vec![0; 4], None);
    assert_eq!(kept, vec![clue("A", "ONE"), clue("B", "THREE")]);
}

#[test]
fn multi_surfaces_grouped_in_first_appearance_order() {
    let clues = vec![
        clue("S2", "XYZ"),
        clue("S1", "ABC"),
        clue("S2", "XYW"),
        clue("S1", "GHI"),
        clue("S1", "ABC"),
        clue("S3", "QQQ"),
    ];
    let ms = get_multi_surfaces(&clues);
    assert_eq!(
        ms,
        vec![
            ("S2".to_string(), vec![w("XYZ"), w("XYW")]),
            ("S1".to_string(), vec![w("ABC"), w("GHI")]),
        ]
    );
}

#[test]
fn multi_surfaces_need_two_distinct_answers() {
    let clues = vec![clue("S1", "ABC"), clue("S1", "ABC"), clue("S2", "DEF")];
    assert!(get_multi_surfaces(&clues).is_empty());
    assert!(get_multi_surfaces(&vec![]).is_empty());
}

#[test]
fn ms_pairs_both_orders() {
    let ms = vec![("S".to_string(), vec![w("AAA"), w("BBB"), w("CCC")])];
    let pairs = make_ms_pairs(&ms);
    assert_eq!(
        pairs,
        vec![
            pair("S", "AAA", "BBB"),
            pair("S", "BBB", "AAA"),
            pair("S", "AAA", "CCC"),
            pair("S", "CCC", "AAA"),
            pair("S", "BBB", "CCC"),
            pair("S", "CCC", "BBB"),
        ]
    );
}

fn sample_pairs() -> Vec<(String, Vec<char>, Vec<char>)> {
    vec![
        pair("P", "ABCD", "WXYZ"),
        pair("Q", "ABEF", "WXQQ"),
        pair("R", "AXCD", "WXYZ"),
        pair("S", "ABCD", "WQYZ"),
    ]
}

#[test]
fn prefix_lookup_finds_first_two_letters() {
    let pairs = sample_pairs();
    let lookup = make_pair_prefix_lookup(&pairs);
    assert_eq!(lookup.buckets.len(), LOOKUP_BUCKETS);
    assert_eq!(lookup.get(&pairs, &w("AB"), &w("WX")), vec![0, 1]);
    assert_eq!(lookup.get(&pairs, &w("AB"), &w("WQ")), vec![3]);
    assert_eq!(lookup.get(&pairs, &w("ZZ"), &w("WX")), Vec::<usize>::new());
    assert_eq!(lookup.get(&pairs, &w("ABC"), &w("WX")), Vec::<usize>::new());
}

#[test]
fn mask_lookup_finds_first_and_third_letters() {
    let pairs = sample_pairs();
    let lookup = make_mask_lookup(&pairs);
    assert_eq!(lookup.get(&pairs, &w("AC"), &w("WY")), vec![0, 2, 3]);
    assert_eq!(lookup.get(&pairs, &w("AE"), &w("WQ")), vec![1]);
    assert_eq!(lookup.get(&pairs, &w("AC"), &w("WQ")), Vec::<usize>::new());
}

#[test]
fn lookup_handles_other_characters() {
    let pairs = vec![pair("P", "a-b", "??"), pair("Q", "A", "B")];
    let lookup = make_lookup(&pairs, 0, 1);
    assert_eq!(lookup.get(&pairs, &w("a-"), &w("??")), vec![0]);
    assert_eq!(lookup.get(&pairs, &w("A"), &w("B")), vec![1]);
    assert_eq!(lookup.get(&pairs, &w("b-"), &w("??")), Vec::<usize>::new());
}

#[test]
fn pairs_to_surface_first_pair_wins() {
    let pairs = vec![pair("A3", "GHI", "PQR"), pair("A3_2", "GHI", "PQR"), pair("X", "PQR", "GHI")];
    let map = make_pairs_to_surface(&pairs);
    assert_eq!(map.get(&w("GHI"), &w("PQR")), Some("A3".to_string()));
    assert_eq!(map.get(&w("PQR"), &w("GHI")), Some("X".to_string()));
    assert_eq!(map.get(&w("GHI"), &w("GHI")), None);
    assert_eq!(map.get(&w("GH"), &w("PQ")), None);
}

#[test]
fn pairs_to_surfaces_from_multi_surfaces() {
    let ms = vec![("S".to_string(), vec![w("AAA"), w("BBB")])];
    let map = make_pairs_to_surfaces(&ms);
    assert_eq!(map.get(&w("AAA"), &w("BBB")), Some("S".to_string()));
    assert_eq!(map.get(&w("BBB"), &w("AAA")), Some("S".to_string()));
    assert_eq!(map.get(&w("AAA"), &w("AAA")), None);
}

#[test]
fn word_list_all_keeps_length() {
    let clues = vec![clue("A", "ONE"), clue("B", "THREE"), clue("C", "TWO"), clue("D", "ONE")];
    let list = make_word_list_all(3, &clues);
    assert!(list.contains(&w("ONE")));
    assert!(list.contains(&w("TWO")));
    assert!(!list.contains(&w("THREE")));
    assert!(!list.contains(&w("SIX")));
}

#[test]
fn word_list_of_first_answers() {
    let list = make_word_list(&sample_pairs());
    assert!(list.contains(&w("ABCD")));
    assert!(list.contains(&w("AXCD")));
    assert!(!list.contains(&w("WXYZ")));
}

#[test]
fn extract_words_of_multi_surfaces() {
    let ms = vec![("S".to_string(), vec![w("AAA"), w("BBB")]), ("T".to_string(), vec![w("CCC"), w("AAA")])];
    let words = qc::data::extract_words(&ms);
    assert!(words.contains(&w("AAA")));
    assert!(words.contains(&w("BBB")));
    assert!(words.contains(&w("CCC")));
    assert!(!words.contains(&w("DDD")));
}

#[test]
fn raw_clue_filter() {
    assert!(qc::munge::should_include(&"Fruit".to_string(), &"APPLE".to_string(), 5));
    assert!(!qc::munge::should_include(&"".to_string(), &"APPLE".to_string(), 5));
    assert!(!qc::munge::should_include(&"See 3".to_string(), &"APPLE".to_string(), 5));
    assert!(!qc::munge::should_include(&"Seen".to_string(), &"APPLE".to_string(), 5));
    assert!(!qc::munge::should_include(&"Fruit".to_string(), &"APPLE".to_string(), 4));
    assert!(!qc::munge::should_include(&"Fruit".to_string(), &"AP PL".to_string(), 5));
}

#[test]
fn raw_multi_surfaces() {
    let clues = vec![
        ("S1".to_string(), "ABC".to_string()),
        ("S1".to_string(), "DEF".to_string()),
        ("S2".to_string(), "GHI".to_string()),
        ("S1".to_string(), "ABC".to_string()),
        ("S2".to_string(), "LONG".to_string()),
        ("S3".to_string(), "A C".to_string()),
        ("S3".to_string(), "XYZ".to_string()),
    ];
    let ms = qc::munge::get_multi_surfaces(clues.clone(), 3);
    assert_eq!(ms, vec![("S1".to_string(), vec!["ABC".to_string(), "DEF".to_string()])]);
    let groups = qc::munge::accumulate(clues, 3);
    assert_eq!(
        groups,
        vec![
            ("S1".to_string(), vec![w("ABC"), w("DEF")]),
            ("S2".to_string(), vec![w("GHI")]),
            ("S3".to_string(), vec![w("XYZ")]),
        ]
    );
}
