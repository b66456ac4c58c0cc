use qc::grid::{
    extract_solution_pairs, find_col_prefix, get_all_words, get_word_in_col, get_word_in_row, get_words_in_row_after,
    has_no_duplicates, has_no_duplicates_2, init_grid, make_empty_grid, place_top_two_across, place_word_in_col,
    place_word_in_col_mut, place_word_in_row, place_word_in_row_mut, reset_grid,
};
use qc::searchers::alternating::{
    find_col_mask, find_row_mask, init_sparse_grid, make_sparse_grid, reset_sparse_grid, sparse_get_all_words,
    sparse_no_duplicates_in_grid, sparse_place_word_in_col_mut, sparse_place_word_in_row_mut,
};
use qc::searchers::dense::no_duplicates_in_grid;

fn w(s: &str) -> Vec<char> {
    s.chars().collect()
}

fn g(rows: &[&str]) -> Vec<Vec<char>> {
    rows.iter().map(|r| w(r)).collect()
}

#[test]
fn empty_grid_is_all_dots() {
    assert_eq!(make_empty_grid(3), g(&["...", "...", "..."]));
    assert_eq!(make_empty_grid(0), Vec::<Vec<char>>::new());
}

#[test]
fn reset_grid_clears_cells() {
    let mut grid = g(&["ABC", "DEF", "GHI"]);
    reset_grid(&mut grid);
    assert_eq!(grid, g(&["...", "...", "..."]));
}

#[test]
fn place_words_mut() {
    let mut grid = make_empty_grid(3);
    place_word_in_row_mut(&mut grid, 1, &w("ABC"));
    place_word_in_col_mut(&mut grid, 2, &w("XYZ"));
    assert_eq!(grid, g(&["..X", "ABY", "..Z"]));
}

#[test]
fn place_words_copying() {
    let grid = make_empty_grid(3);
    let row = place_word_in_row(&grid, 0, &w("ABC"));
    let col = place_word_in_col(&row, 1, &w("XYZ"));
    assert_eq!(grid, g(&["...", "...", "..."]));
    assert_eq!(col, g(&["AXC", ".Y.", ".Z."]));
    assert_eq!(place_top_two_across(&grid, &w("ABC"), &w("DEF")), g(&["ABC", "DEF", "..."]));
}

#[test]
fn init_grid_fills_top_rows() {
    let mut grid = make_empty_grid(3);
    init_grid(&mut grid, &w("ABC"), &w("DEF"));
    assert_eq!(grid, g(&["ABC", "DEF", "..."]));
}

#[test]
fn reading_entries() {
    let grid = g(&["ABC", "DEF", "GHI"]);
    assert_eq!(find_col_prefix(&grid, 1, 2), w("BE"));
    assert_eq!(get_word_in_row(&grid, 2), &w("GHI"));
    assert_eq!(get_word_in_col(&grid, 0), w("ADG"));
    assert_eq!(get_all_words(&grid), vec![w("ABC"), w("DEF"), w("GHI"), w("ADG"), w("BEH"), w("CFI")]);
    assert_eq!(get_words_in_row_after(&grid, 0), vec![w("DEF"), w("GHI")]);
    assert_eq!(get_words_in_row_after(&grid, 2), Vec::<Vec<char>>::new());
    assert_eq!(get_words_in_row_after(&grid, 7), Vec::<Vec<char>>::new());
}

#[test]
fn duplicate_checks() {
    let plain = g(&["ABC", "DEF", "GHI"]);
    let symmetric = g(&["ABC", "BDE", "CEF"]);
    assert!(has_no_duplicates(&plain));
    assert!(!has_no_duplicates(&symmetric));
    assert!(has_no_duplicates_2(&plain, &g(&["JKL", "MNO", "PQR"])));
    assert!(!has_no_duplicates_2(&plain, &g(&["ADG", "MNO", "PQR"])));
    assert!(no_duplicates_in_grid(3, &plain, &g(&["JKL", "MNO", "PQR"])));
    assert!(!no_duplicates_in_grid(3, &plain, &plain));
}

#[test]
fn solution_pairs_zip_entries() {
    let a = g(&["AB", "CD"]);
    let b = g(&["WX", "YZ"]);
    assert_eq!(
        extract_solution_pairs(&a, &b),
        vec![(w("AB"), w("WX")), (w("CD"), w("YZ")), (w("AC"), w("WY")), (w("BD"), w("XZ"))]
    );
}

#[test]
fn sparse_grid_pattern() {
    assert_eq!(make_sparse_grid(5), g(&[".....", ".#.#.", ".....", ".#.#.", "....."]));
    let mut grid = g(&["ABCDE", "FGHIJ", "KLMNO", "PQRST", "UVWXY"]);
    reset_sparse_grid(&mut grid);
    assert_eq!(grid, make_sparse_grid(5));
}

#[test]
fn sparse_placements_and_masks() {
    let mut grid = make_sparse_grid(5);
    init_sparse_grid(&mut grid, &w("ABCDE"), &w("FGHIJ"));
    assert_eq!(grid, g(&["ABCDE", ".#.#.", "FGHIJ", ".#.#.", "....."]));
    sparse_place_word_in_col_mut(&mut grid, 0, &w("APFQK"));
    sparse_place_word_in_row_mut(&mut grid, 4, &w("KLMNO"));
    assert_eq!(grid, g(&["ABCDE", "P#.#.", "FGHIJ", "Q#.#.", "KLMNO"]));
    assert_eq!(find_col_mask(&grid, 0, vec![0, 2]), w("AF"));
    assert_eq!(find_row_mask(&grid, 4, vec![0, 2]), w("KM"));
}

#[test]
fn sparse_entries() {
    let grid = g(&["ABCDE", "P#R#T", "FGHIJ", "Q#S#U", "KLMNO"]);
    assert_eq!(
        sparse_get_all_words(5, &grid),
        vec![w("ABCDE"), w("FGHIJ"), w("KLMNO"), w("APFQK"), w("CRHSM"), w("ETJUO")]
    );
    let other = g(&["ZYXWV", "A#C#E", "UTSRQ", "B#D#F", "PONML"]);
    assert!(sparse_no_duplicates_in_grid(5, &grid, &other));
    assert!(!sparse_no_duplicates_in_grid(5, &grid, &grid));
}

#[test]
fn distinct_words_between_grids() {
    let a = g(&["ABC", "DEF", "GHI"]);
    assert!(qc::grid::all_distinct_words(&a, &g(&["JKL", "MNO", "PQR"])));
    assert!(!qc::grid::all_distinct_words(&a, &g(&["XYZ", "MNO", "GHI"])));
    assert!(!qc::grid::all_distinct_words(&a, &g(&["ADG", "MNO", "PQR"])));
}

#[test]
fn words_matching_column_start() {
    let grid = g(&["AB.", "CD.", "..."]);
    let words = vec![w("ACE"), w("ACT"), w("BDX"), w("A"), w("AC")];
    assert_eq!(qc::grid::find_possible_words_in_col(&grid, &words, 0, 2), vec![w("ACE"), w("ACT"), w("AC")]);
    assert_eq!(qc::grid::find_possible_words_in_col(&grid, &words, 1, 2), vec![w("BDX")]);
    assert_eq!(qc::grid::find_possible_words_in_col(&grid, &words, 0, 1), vec![w("A")]);
}

#[test]
fn bottom_row_candidates() {
    let pairs = vec![
        ("S4".to_string(), w("KLMNO"), w("PONML")),
        ("X".to_string(), w("KLMNQ"), w("PONML")),
        ("Y".to_string(), w("KZMZO"), w("PZNZL")),
    ];
    let lookup = qc::data::make_mask_lookup(&pairs);
    let g1 = g(&["ABCDE", "P#R#T", "FGHIJ", "Q#S#U", "K.M.O"]);
    let g2 = g(&["ZYXWV", "A#C#E", "UTSRQ", "B#D#F", "P.N.L"]);
    assert_eq!(qc::searchers::alternating::find_final_row_candidates(&lookup, &pairs, &g1, &g2), vec![0, 2]);
    assert_eq!(qc::searchers::alternating::find_row_candidates(5, &lookup, &pairs, &g1, &g2, 4), vec![0, 2]);
}
