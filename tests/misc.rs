use qc::data::{make_word_list_all, WordList};
use qc::find::{show_crossword_type, CrosswordType};
use qc::product::cartesian_product;
use qc::qc::{crossword_text_exec, hash_crossword, print_surfaces, QuinianCrossword};
use qc::searchers::alternating::Alternating;
use qc::searchers::dense::Dense;
use qc::searchers::{decimal_exec, word_greater};
use qc::selection::{
    all_words_are_common, any_banned_words_used, get_all_used_words, is_good_solution, FilterOptions, WordScores,
};
use qc::sources::{make_url, make_xwordinfo_date};

fn w(s: &str) -> Vec<char> {
    s.chars().collect()
}

fn sample_crossword() -> QuinianCrossword {
    QuinianCrossword {
        grid1: vec![w("ABC"), w("DEF"), w("GHI")],
        grid2: vec![w("JKL"), w("MNO"), w("PQR")],
        across_surfaces: vec![Some("A1".to_string()), Some("A2".to_string()), None],
        down_surfaces: vec![Some("D1".to_string()), Some("D2".to_string()), Some("D3".to_string())],
    }
}

#[test]
fn cartesian_product_lexicographic() {
    let lists = vec![vec![1, 2], vec![3], vec![4, 5]];
    assert_eq!(
        cartesian_product(lists),
        vec![vec![1, 3, 4], vec![1, 3, 5], vec![2, 3, 4], vec![2, 3, 5]]
    );
}

#[test]
fn cartesian_product_edges() {
    assert_eq!(cartesian_product(vec![]), vec![Vec::<usize>::new()]);
    assert_eq!(cartesian_product(vec![vec![1, 2], vec![]]), Vec::<Vec<usize>>::new());
    assert_eq!(cartesian_product(vec![vec![], vec![1]]), Vec::<Vec<usize>>::new());
    assert_eq!(cartesian_product(vec![vec![7, 8]]), vec![vec![7], vec![8]]);
}

#[test]
fn crossword_text_layout() {
    let text: String = crossword_text_exec(&sample_crossword()).into_iter().collect();
    assert_eq!(text, "3:ABC\n3:DEF\n3:GHI\n|3:JKL\n3:MNO\n3:PQR\n|+2:A1\n+2:A2\n-\n|+2:D1\n+2:D2\n+2:D3\n");
}

#[test]
fn hash_depends_on_content() {
    let a = sample_crossword();
    let b = sample_crossword();
    assert_eq!(hash_crossword(&a), hash_crossword(&b));
    let mut c = sample_crossword();
    c.across_surfaces[2] = Some("A3".to_string());
    assert_ne!(hash_crossword(&a), hash_crossword(&c));
    let mut d = sample_crossword();
    d.grid2[0] = w("JKM");
    assert_ne!(hash_crossword(&a), hash_crossword(&d));
}

#[test]
fn surfaces_listed_with_numbers() {
    let listing = print_surfaces(&sample_crossword().across_surfaces);
    assert_eq!(listing, "1. A1\n2. A2\n3. [[missing]]\n".to_string());
    assert_eq!(print_surfaces(&vec![]), "".to_string());
}

#[test]
fn guardian_url() {
    assert_eq!(make_url("16157"), "https://www.theguardian.com/crosswords/quick/16157".to_string());
}

#[test]
fn xwordinfo_date() {
    assert_eq!(make_xwordinfo_date("10-19-2026"), "10/19/2026".to_string());
    assert_eq!(make_xwordinfo_date(""), "".to_string());
}

#[test]
fn crossword_type_names() {
    assert_eq!(show_crossword_type(CrosswordType::Dense3), "dense3".to_string());
    assert_eq!(show_crossword_type(CrosswordType::Dense5), "dense5".to_string());
    assert_eq!(show_crossword_type(CrosswordType::Alternating7), "alternating7".to_string());
    assert_eq!(Dense::new(4, vec![]).crossword_type(), "dense4".to_string());
    assert_eq!(Alternating::new(6, vec![]).crossword_type(), "alternating6".to_string());
}

#[test]
fn decimal_digits() {
    assert_eq!(decimal_exec(0), w("0"));
    assert_eq!(decimal_exec(7), w("7"));
    assert_eq!(decimal_exec(10), w("10"));
    assert_eq!(decimal_exec(1203), w("1203"));
}

#[test]
fn lexicographic_order() {
    assert!(word_greater(&w("JKL"), &w("ABC")));
    assert!(!word_greater(&w("ABC"), &w("JKL")));
    assert!(!word_greater(&w("ABC"), &w("ABC")));
    assert!(word_greater(&w("ABCD"), &w("ABC")));
    assert!(!word_greater(&w("AB"), &w("ABC")));
}

fn across_clues() -> Vec<(String, Vec<char>)> {
    [("A1", "ABC"), ("A1", "JKL"), ("A2", "DEF"), ("A2", "MNO"), ("A3", "GHI"), ("A3", "PQR")]
        .iter()
        .map(|(s, a)| (s.to_string(), w(a)))
        .collect()
}

#[test]
fn seed_counts() {
    let dense = Dense::new(3, across_clues());
    assert_eq!(dense.pairs.len(), 6);
    assert_eq!(dense.calculate_number_of_initial_pairs(), 15);
    let alternating = Alternating::new(3, across_clues());
    assert_eq!(alternating.calculate_number_of_initial_pairs(), 30);
    assert_eq!(alternating.number_of_clues, 2);
    assert_eq!(Dense::new(3, vec![]).calculate_number_of_initial_pairs(), 0);
}

#[test]
fn dense_index_drops_other_lengths() {
    let mut clues = across_clues();
    clues.push(("A1".to_string(), w("LONGER")));
    let dense = Dense::new(3, clues);
    assert_eq!(dense.pairs.len(), 6);
    assert!(dense.word_list.contains(&w("GHI")));
    assert!(!dense.word_list.contains(&w("LONGER")));
}

#[test]
fn word_scores_last_entry_wins() {
    let scores = WordScores { entries: vec![(w("ABC"), 3), (w("DEF"), 9), (w("ABC"), 5)] };
    assert_eq!(scores.get(&w("ABC")), 5);
    assert_eq!(scores.get(&w("DEF")), 9);
    assert_eq!(scores.get(&w("XYZ")), 0);
}

#[test]
fn used_words_filters() {
    let crossword = sample_crossword();
    let used = get_all_used_words(&crossword);
    assert!(used.contains(&w("ADG")));
    assert!(used.contains(&w("PQR")));
    assert!(!used.contains(&w("XYZ")));
    let all_common = WordScores {
        entries: ["ABC", "DEF", "GHI", "ADG", "BEH", "CFI", "JKL", "MNO", "PQR", "JMP", "KNQ", "LOR"]
            .iter()
            .map(|s| (w(s), 10))
            .collect(),
    };
    assert!(all_words_are_common(&all_common, 10, &used));
    assert!(!all_words_are_common(&all_common, 11, &used));
    let banned = make_word_list_all(3, &vec![("x".to_string(), w("MNO"))]);
    assert!(any_banned_words_used(&banned, &used));
    let nothing_banned = WordList { words: vec![] };
    assert!(!any_banned_words_used(&nothing_banned, &used));
    let options = FilterOptions { used_on_wiki_n_times: Some(10), exclude_banned_words: true };
    assert!(!is_good_solution(&options, &all_common, &banned, &crossword));
    assert!(is_good_solution(&options, &all_common, &nothing_banned, &crossword));
    let lax = FilterOptions { used_on_wiki_n_times: None, exclude_banned_words: false };
    assert!(is_good_solution(&lax, &WordScores { entries: vec![] }, &banned, &crossword));
}
