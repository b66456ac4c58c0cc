use std::collections::HashSet;

use qc::find::{find_qcs, CrosswordType};
use qc::qc::QuinianCrossword;

fn grid(rows: &[&str]) -> Vec<Vec<char>> {
    rows.iter().map(|r| r.chars().collect()).collect()
}

fn surfaces(names: &[Option<&str>]) -> Vec<Option<String>> {
    names.iter().map(|n| n.map(|s| s.to_string())).collect()
}

fn crossword(g1: &[&str], g2: &[&str], across: &[Option<&str>], down: &[Option<&str>]) -> QuinianCrossword {
    QuinianCrossword {
        grid1: grid(g1),
        grid2: grid(g2),
        across_surfaces: surfaces(across),
        down_surfaces: surfaces(down),
    }
}

fn search(
    crossword_type: CrosswordType,
    clues: &[(&str, &str)],
    start_index: usize,
    allowed_missing_surfaces: usize,
) -> Vec<QuinianCrossword> {
    let clues_munged: Vec<(String, Vec<char>)> = clues
        .iter()
        .map(|(surface, answer)| (surface.to_string(), answer.chars().collect()))
        .collect();
    let n = clues_munged.len();
    let found = find_qcs(
        clues_munged,
        vec![0; n],
        &vec![0; n],
        crossword_type,
        None,
        None,
        start_index,
        allowed_missing_surfaces,
    );
    found.into_iter().map(|f| f.crossword).collect()
}

fn run_test(
    crossword_type: CrosswordType,
    clues: &[(&str, &str)],
    expected_quines_list: Vec<QuinianCrossword>,
    allowed_missing_surfaces: usize,
) {
    let quines: HashSet<QuinianCrossword> =
        search(crossword_type, clues, 0, allowed_missing_surfaces).into_iter().collect();
    let expected_quines: HashSet<QuinianCrossword> = expected_quines_list.into_iter().collect();
    assert_eq!(quines.len(), expected_quines.len());
    assert_eq!(expected_quines, quines);
}

const SQUARE_CLUES: [(&str, &str); 12] = [
    ("A1", "ABC"),
    ("A1", "JKL"),
    ("A2", "DEF"),
    ("A2", "MNO"),
    ("A3", "GHI"),
    ("A3", "PQR"),
    ("D1", "ADG"),
    ("D1", "JMP"),
    ("D2", "BEH"),
    ("D2", "KNQ"),
    ("D3", "CFI"),
    ("D3", "LOR"),
];

fn straight(across: [&str; 3], down: [&str; 3]) -> QuinianCrossword {
    crossword(
        &["ABC", "DEF", "GHI"],
        &["JKL", "MNO", "PQR"],
        &across.map(Some),
        &down.map(Some),
    )
}

fn transposed(across: [&str; 3], down: [&str; 3]) -> QuinianCrossword {
    crossword(
        &["ADG", "BEH", "CFI"],
        &["JMP", "KNQ", "LOR"],
        &across.map(Some),
        &down.map(Some),
    )
}

#[test]
fn dense3_simple() {
    let expected_quines = vec![
        straight(["A1", "A2", "A3"], ["D1", "D2", "D3"]),
        transposed(["D1", "D2", "D3"], ["A1", "A2", "A3"]),
    ];
    run_test(CrosswordType::Dense3, &SQUARE_CLUES, expected_quines, 0);
}

#[test]
fn dense3_one_missing() {
    let clues = [
        ("A1", "ABC"),
        ("A1", "JKL"),
        ("A2", "DEF"),
        ("A2", "MNO"),
        ("D1", "ADG"),
        ("D1", "JMP"),
        ("D2", "BEH"),
        ("D2", "KNQ"),
        ("D3", "CFI"),
        ("D3", "LOR"),
        ("F1", "GHI"),
        ("F2", "PQR"),
    ];
    let expected_quines = vec![crossword(
        &["ABC", "DEF", "GHI"],
        &["JKL", "MNO", "PQR"],
        &[Some("A1"), Some("A2"), None],
        &[Some("D1"), Some("D2"), Some("D3")],
    )];
    run_test(CrosswordType::Dense3, &clues, vec![], 0);
    run_test(CrosswordType::Dense3, &clues, expected_quines, 1);
}

#[test]
fn dense3_two_grids_first_row() {
    let mut clues = SQUARE_CLUES.to_vec();
    clues.insert(2, ("A1_2", "ABC"));
    clues.insert(3, ("A1_2", "JKL"));
    let expected_quines = vec![
        straight(["A1", "A2", "A3"], ["D1", "D2", "D3"]),
        transposed(["D1", "D2", "D3"], ["A1", "A2", "A3"]),
        straight(["A1_2", "A2", "A3"], ["D1", "D2", "D3"]),
        transposed(["D1", "D2", "D3"], ["A1_2", "A2", "A3"]),
    ];
    run_test(CrosswordType::Dense3, &clues, expected_quines, 0);
}

#[test]
fn dense3_two_grids_last_row() {
    let mut clues = SQUARE_CLUES.to_vec();
    clues.insert(6, ("A3_2", "GHI"));
    clues.insert(7, ("A3_2", "PQR"));
    let expected_quines = vec![
        straight(["A1", "A2", "A3"], ["D1", "D2", "D3"]),
        transposed(["D1", "D2", "D3"], ["A1", "A2", "A3"]),
        transposed(["D1", "D2", "D3"], ["A1", "A2", "A3_2"]),
    ];
    run_test(CrosswordType::Dense3, &clues, expected_quines, 0);
}

fn search_square(start_index: usize) -> Vec<QuinianCrossword> {
    search(CrosswordType::Dense3, &SQUARE_CLUES, start_index, 0)
}

#[test]
fn dense3_transpose_found_in_same_run() {
    let found = search_square(0);
    let straight_one = straight(["A1", "A2", "A3"], ["D1", "D2", "D3"]);
    let transposed_one = transposed(["D1", "D2", "D3"], ["A1", "A2", "A3"]);
    assert!(found.contains(&straight_one));
    assert!(found.contains(&transposed_one));
}

#[test]
fn dense3_results_in_seed_order() {
    let found = search_square(0);
    assert_eq!(
        found,
        vec![
            straight(["A1", "A2", "A3"], ["D1", "D2", "D3"]),
            transposed(["D1", "D2", "D3"], ["A1", "A2", "A3"]),
        ]
    );
}

#[test]
fn dense3_start_index_gives_tail() {
    let full = search_square(0);
    // The first seed yields nothing, the second yields the straight grid.
    assert_eq!(search_square(1), full);
    assert_eq!(search_square(2), full);
    let tail = search_square(3);
    assert_eq!(tail, vec![transposed(["D1", "D2", "D3"], ["A1", "A2", "A3"])]);
    assert_eq!(&full[full.len() - tail.len()..], &tail[..]);
    assert_eq!(search_square(1000), vec![]);
}

#[test]
fn dense3_same_input_same_output() {
    assert_eq!(search_square(0), search_square(0));
}

#[test]
fn dense3_duplicate_word_rejected() {
    // Each grid reads the same across and down, so every entry repeats.
    let clues = [
        ("S1", "ABC"),
        ("S1", "GHI"),
        ("S2", "BDE"),
        ("S2", "HJK"),
        ("S3", "CEF"),
        ("S3", "IKL"),
    ];
    assert_eq!(search(CrosswordType::Dense3, &clues, 0, 0), vec![]);
    assert_eq!(search(CrosswordType::Dense3, &clues, 0, 3), vec![]);
}

#[test]
fn dense3_filtered_clues_ignored() {
    let mut clues = SQUARE_CLUES.to_vec();
    // Lowercase answers, cross-references and the missing-clue sentinel are
    // dropped before indexing.
    clues.push(("A1", "abc"));
    clues.push(("See 3", "XYZ"));
    clues.push(("See 3", "XYW"));
    clues.push(("<<NO CLUE>>", "QQQ"));
    clues.push(("<<NO CLUE>>", "QQR"));
    assert_eq!(search(CrosswordType::Dense3, &clues, 0, 0), search_square(0));
}

#[test]
fn dense3_word_frequency_threshold() {
    let clues_munged: Vec<(String, Vec<char>)> = SQUARE_CLUES
        .iter()
        .map(|(surface, answer)| (surface.to_string(), answer.chars().collect()))
        .collect();
    let n = clues_munged.len();
    // GHI scores too low, so its clue is dropped and the bottom row has no
    // known word.
    let freqs: Vec<u32> = clues_munged.iter().map(|c| if c.1 == vec!['G', 'H', 'I'] { 1 } else { 10 }).collect();
    let found = find_qcs(clues_munged, freqs, &vec![0; n], CrosswordType::Dense3, Some(5), None, 0, 3);
    assert!(found.is_empty());
}

#[test]
fn dense3_found_metadata() {
    let clues_munged: Vec<(String, Vec<char>)> = [
        ("A1", "ABC"),
        ("A1", "JKL"),
        ("A2", "DEF"),
        ("A2", "MNO"),
        ("D1", "ADG"),
        ("D1", "JMP"),
        ("D2", "BEH"),
        ("D2", "KNQ"),
        ("D3", "CFI"),
        ("D3", "LOR"),
        ("F1", "GHI"),
        ("F2", "PQR"),
    ]
    .iter()
    .map(|(surface, answer)| (surface.to_string(), answer.chars().collect()))
    .collect();
    let n = clues_munged.len();
    let found = find_qcs(clues_munged, vec![0; n], &vec![0; n], CrosswordType::Dense3, None, None, 0, 1);
    assert_eq!(found.len(), 1);
    assert_eq!(found[0].crossword_type, "dense3".to_string());
    assert_eq!(found[0].missing_surfaces, 1);
}

const ALT5_CLUES: [(&str, &str); 12] = [
    ("S0", "ABCDE"),
    ("S0", "ZYXWV"),
    ("S2", "FGHIJ"),
    ("S2", "UTSRQ"),
    ("S4", "KLMNO"),
    ("S4", "PONML"),
    ("D0", "APFQK"),
    ("D0", "ZAUBP"),
    ("D2", "CRHSM"),
    ("D2", "XCSDN"),
    ("D4", "ETJUO"),
    ("D4", "VEQFL"),
];

#[test]
fn alternating5_minimal() {
    let g1 = ["ABCDE", "P#R#T", "FGHIJ", "Q#S#U", "KLMNO"];
    let g2 = ["ZYXWV", "A#C#E", "UTSRQ", "B#D#F", "PONML"];
    let g1t = ["APFQK", "B#G#L", "CRHSM", "D#I#N", "ETJUO"];
    let g2t = ["ZAUBP", "Y#T#O", "XCSDN", "W#R#M", "VEQFL"];
    let expected = vec![
        crossword(
            &g1,
            &g2,
            &[Some("S0"), Some("S2"), Some("S4")],
            &[Some("D0"), Some("D2"), Some("D4")],
        ),
        crossword(
            &g1t,
            &g2t,
            &[Some("D0"), Some("D2"), Some("D4")],
            &[Some("S0"), Some("S2"), Some("S4")],
        ),
    ];
    let found: HashSet<QuinianCrossword> =
        search(CrosswordType::Alternating5, &ALT5_CLUES, 0, 0).into_iter().collect();
    let expected: HashSet<QuinianCrossword> = expected.into_iter().collect();
    assert_eq!(found, expected);
}

#[test]
fn alternating5_results_typed() {
    let clues_munged: Vec<(String, Vec<char>)> = ALT5_CLUES
        .iter()
        .map(|(surface, answer)| (surface.to_string(), answer.chars().collect()))
        .collect();
    let n = clues_munged.len();
    let found = find_qcs(clues_munged, vec![0; n], &vec![0; n], CrosswordType::Alternating5, None, None, 0, 0);
    assert_eq!(found.len(), 2);
    for f in &found {
        assert_eq!(f.crossword_type, "alternating5".to_string());
        assert_eq!(f.missing_surfaces, 0);
    }
}

#[test]
fn alternating5_nothing_without_downs() {
    let clues: Vec<(&str, &str)> = ALT5_CLUES[..6].to_vec();
    assert_eq!(search(CrosswordType::Alternating5, &clues, 0, 0), vec![]);
}
