use qc::searchers::alternating::{Alternating, AlternatingStage};
use qc::searchers::dense::{place_down_clues, Dense, DenseStage};
use qc::find::{crossword_side, make_searcher, CrosswordType};
use qc::searchers::PairStatus;
use qc::searchers::Searcher;

fn w(s: &str) -> Vec<char> {
    s.chars().collect()
}

fn g(rows: &[&str]) -> Vec<Vec<char>> {
    rows.iter().map(|r| w(r)).collect()
}

fn clues(list: &[(&str, &str)]) -> Vec<(String, Vec<char>)> {
    list.iter().map(|(s, a)| (s.to_string(), w(a))).collect()
}

fn square_searcher() -> Dense {
    Dense::new(
        3,
        clues(&[
            ("A1", "ABC"),
            ("A1", "JKL"),
            ("A2", "DEF"),
            ("A2", "MNO"),
            ("A3", "GHI"),
            ("A3", "PQR"),
            ("F", "XYZ"),
            ("G", "UVW"),
        ]),
    )
}

#[test]
fn dense_reset_clears_state() {
    let dense = square_searcher();
    let mut st = dense.init_grids();
    assert_eq!(st.grid1, g(&["...", "...", "..."]));
    assert!(st.across_surfaces.iter().all(|s| s.is_none()));
    st.grid1 = g(&["QQQ", "QQQ", "QQQ"]);
    st.grid2 = g(&["QQQ", "QQQ", "QQQ"]);
    st.across_surfaces = vec![Some("x".to_string()); 3];
    st.down_surfaces = vec![Some("y".to_string()); 3];
    dense.reset_and_place_initial_pairs(&mut st, 0, 2);
    assert_eq!(st.grid1, g(&["ABC", "DEF", "..."]));
    assert_eq!(st.grid2, g(&["JKL", "MNO", "..."]));
    assert_eq!(st.across_surfaces, vec![Some("A1".to_string()), Some("A2".to_string()), None]);
    assert_eq!(st.down_surfaces, vec![None, None, None]);
    assert!(matches!(dense.get_initial_stage(), DenseStage::Downs));
}

#[test]
fn dense_statuses_carry_surfaces() {
    let dense = square_searcher();
    let mut st = dense.init_grids();
    st.grid1 = g(&["ABC", "DEF", "GHI"]);
    st.grid2 = g(&["JKL", "MNO", "PQR"]);
    let statuses = dense.get_final_statuses(&mut st);
    assert_eq!(statuses.len(), 1);
    assert!(matches!(&statuses[0], PairStatus::HasSurface(s) if s == "A3"));
    assert_eq!(st.across_surfaces[2], Some("A3".to_string()));
    st.grid1 = g(&["ABC", "DEF", "XYZ"]);
    st.grid2 = g(&["JKL", "MNO", "UVW"]);
    let statuses = dense.get_final_statuses(&mut st);
    assert!(matches!(&statuses[0], PairStatus::Words));
    assert_eq!(st.across_surfaces[2], None);
    st.grid2 = g(&["JKL", "MNO", "QQQ"]);
    assert!(matches!(&dense.get_final_statuses(&mut st)[0], PairStatus::NotWords));
}

#[test]
fn partial_down_placement() {
    let pairs = vec![("D".to_string(), w("XYZ"), w("UVW"))];
    let mut g1 = g(&["ABC", "DEF", "GHI"]);
    let mut g2 = g(&["JKL", "MNO", "PQR"]);
    let mut surfaces = vec![None, Some("keep".to_string()), None];
    place_down_clues(&mut g1, &mut g2, &mut surfaces, &pairs, &vec![0]);
    assert_eq!(g1, g(&["XBC", "YEF", "ZHI"]));
    assert_eq!(g2, g(&["UKL", "VNO", "WQR"]));
    assert_eq!(surfaces, vec![Some("D".to_string()), Some("keep".to_string()), None]);
}

fn alternating_searcher() -> Alternating {
    Alternating::new(
        5,
        clues(&[
            ("S0", "ABCDE"),
            ("S0", "ZYXWV"),
            ("S2", "FGHIJ"),
            ("S2", "UTSRQ"),
            ("S4", "KLMNO"),
            ("S4", "PONML"),
            ("D0", "APFQK"),
            ("D0", "ZAUBP"),
            ("D2", "CRHSM"),
            ("D2", "XCSDN"),
            ("D4", "ETJUO"),
            ("D4", "VEQFL"),
        ]),
    )
}

#[test]
fn alternating_init_and_reset() {
    let alt = alternating_searcher();
    let mut st = alt.init_grids();
    assert_eq!(st.grid1, g(&[".....", ".#.#.", ".....", ".#.#.", "....."]));
    assert_eq!(st.across_surfaces, vec![None, None, None]);
    assert_eq!(st.down_surfaces, vec![None, None, None]);
    st.down_surfaces = vec![Some("y".to_string()); 3];
    st.across_surfaces = vec![Some("x".to_string()); 3];
    st.grid1[4] = w("QQQQQ");
    alt.reset_and_place_initial_pairs(&mut st, 0, 2);
    assert_eq!(st.grid1, g(&["ABCDE", ".#.#.", "FGHIJ", ".#.#.", "....."]));
    assert_eq!(st.across_surfaces, vec![Some("S0".to_string()), Some("S2".to_string()), None]);
    assert_eq!(st.down_surfaces, vec![None, None, None]);
    assert!(matches!(alt.get_initial_stage(), AlternatingStage::Downs));
}

#[test]
fn alternating_stages_record_surfaces() {
    let alt = alternating_searcher();
    let mut st = alt.init_grids();
    alt.reset_and_place_initial_pairs(&mut st, 0, 2);
    let downs = alt.get_next_pairs(&AlternatingStage::Downs, &st);
    assert_eq!(downs.len(), 1);
    let next = alt.place_next_pairs(&AlternatingStage::Downs, &mut st, &downs[0]);
    assert!(matches!(next, Some(AlternatingStage::FinalAcrosses)));
    assert_eq!(
        st.down_surfaces,
        vec![Some("D0".to_string()), Some("D2".to_string()), Some("D4".to_string())]
    );
    let acrosses = alt.get_next_pairs(&AlternatingStage::FinalAcrosses, &st);
    assert_eq!(acrosses.len(), 1);
    assert!(alt.place_next_pairs(&AlternatingStage::FinalAcrosses, &mut st, &acrosses[0]).is_none());
    assert_eq!(
        st.across_surfaces,
        vec![Some("S0".to_string()), Some("S2".to_string()), Some("S4".to_string())]
    );
    assert_eq!(st.grid1, g(&["ABCDE", "P#R#T", "FGHIJ", "Q#S#U", "KLMNO"]));
    assert!(alt.is_happy(&st));
}

fn square_clue_list() -> Vec<(String, Vec<char>)> {
    clues(&[
        ("A1", "ABC"),
        ("A1", "JKL"),
        ("A2", "DEF"),
        ("A2", "MNO"),
        ("A3", "GHI"),
        ("A3", "PQR"),
        ("D1", "ADG"),
        ("D1", "JMP"),
        ("D2", "BEH"),
        ("D2", "KNQ"),
        ("D3", "CFI"),
        ("D3", "LOR"),
    ])
}

fn walk(start_index: usize) -> (Vec<qc::qc::QuinianCrossword>, u128) {
    let list = square_clue_list();
    let n = list.len();
    let searcher =
        qc::find::make_searcher(list, vec![0; n], &vec![0; n], qc::find::CrosswordType::Dense3, None, None);
    let pairs = searcher.number_of_pairs();
    let mut st = searcher.init_state();
    let mut cursor = qc::search::first_seed_cursor(&searcher);
    let mut found = vec![];
    while cursor.i < pairs {
        let (next, visit) = qc::search::next_seed(&searcher, &cursor, start_index);
        if let Some((i, j)) = visit {
            for f in searcher.search_from_seed(&mut st, i, j, 0) {
                found.push(f.crossword);
            }
        }
        cursor = next;
    }
    (found, cursor.k)
}

#[test]
fn seed_walk_matches_driver() {
    for start in [0, 1, 2, 3, 60, 1000] {
        let list = square_clue_list();
        let n = list.len();
        let expected: Vec<qc::qc::QuinianCrossword> = qc::find::find_qcs(
            list,
            vec![0; n],
            &vec![0; n],
            qc::find::CrosswordType::Dense3,
            None,
            None,
            start,
            0,
        )
        .into_iter()
        .map(|f| f.crossword)
        .collect();
        let (walked, seeds) = walk(start);
        assert_eq!(walked, expected);
        // 12 pairs give 66 two-element combinations.
        assert_eq!(seeds, 66);
    }
    assert_eq!(walk(3).0.len(), 1);
}

#[test]
fn searcher_of_type() {
    assert_eq!(crossword_side(CrosswordType::Dense4), 4);
    assert_eq!(crossword_side(CrosswordType::Alternating7), 7);
    let list = square_clue_list();
    let n = list.len();
    let s = make_searcher(list.clone(), vec![0; n], &vec![0; n], CrosswordType::Dense3, None, None);
    assert!(s.is_dense_searcher());
    assert_eq!(s.number_of_seeds(), 66);
    let s = make_searcher(list, vec![0; n], &vec![0; n], CrosswordType::Alternating5, None, None);
    assert!(!s.is_dense_searcher());
}

#[test]
fn hash_separates_surfaces_with_separators() {
    let base = qc::qc::QuinianCrossword {
        grid1: g(&["AB", "CD"]),
        grid2: g(&["EF", "GH"]),
        across_surfaces: vec![Some("x|".to_string()), Some("y".to_string())],
        down_surfaces: vec![Some("z".to_string()), None],
    };
    let mut other = base.clone();
    other.across_surfaces = vec![Some("x".to_string()), Some("|y".to_string())];
    let t1: String = qc::qc::crossword_text_exec(&base).into_iter().collect();
    let t2: String = qc::qc::crossword_text_exec(&other).into_iter().collect();
    assert_ne!(t1, t2);
    assert_ne!(qc::qc::hash_crossword(&base), qc::qc::hash_crossword(&other));
}
