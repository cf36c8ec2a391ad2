use opening_book::index::{
    get_opening_from_fen, get_opening_from_name, get_opening_from_setup, OpeningError,
    OpeningIndex,
};
use opening_book::position::Position;
use opening_book::replay::replay_moves;
use opening_book::search::{best_matches, search_opening_name};
use opening_book::table::{parse_table, Opening};

const BONGCLOUD_FEN: &str = "rnbqkbnr/pppp1ppp/8/4p3/4P3/8/PPPPKPPP/RNBQ1BNR b kq - 1 2";
const START_FEN: &str = "rnbqkbnr/pppppppp/8/8/8/8/PPPPPPPP/RNBQKBNR w KQkq - 0 1";
const EMPTY_FEN: &str = "8/8/8/8/8/8/8/8 w - - 0 1";

fn sample_tables() -> Vec<Vec<u8>> {
    vec![
        b"eco\tname\tpgn\nC20\tKing's Pawn Game\t1. e4 e5\nC20\tBongcloud Attack\t1. e4 e5 2. Ke2\n"
            .to_vec(),
        b"eco\tname\tpgn\nB00\tKing's Pawn Game\t1. e4\nA00\tPolish Opening\t1. b4\n".to_vec(),
    ]
}

fn sample_index() -> OpeningIndex {
    OpeningIndex::from_tables(&sample_tables()).unwrap()
}

fn opening(name: &str, moves: &str) -> Opening {
    Opening {
        eco: "X".to_string(),
        name: name.to_string(),
        position: replay_moves(moves),
        pgn: Some(moves.to_string()),
    }
}

fn names(v: &[Opening]) -> Vec<String> {
    v.iter().map(|o| o.name.clone()).collect()
}

#[test]
fn test_get_opening() {
    let index = sample_index();
    let opening = get_opening_from_fen(&index, BONGCLOUD_FEN).unwrap();
    assert_eq!(opening, "Bongcloud Attack");
}

#[test]
fn built_index_starts_with_synthetic_entries() {
    let index = sample_index();
    let all = index.openings();
    assert_eq!(index.len(), 6);
    assert_eq!(all[0].name, "Starting Position");
    assert_eq!(all[0].eco, "Extra");
    assert!(all[0].pgn.is_none());
    assert_eq!(all[1].name, "Empty Board");
    assert_eq!(all[1].eco, "Extra");
    assert!(all[1].pgn.is_none());
    assert_eq!(all[2].name, "King's Pawn Game");
    assert_eq!(all[5].name, "Polish Opening");
    assert_eq!(all[5].pgn.as_deref(), Some("1. b4"));
}

#[test]
fn synthetic_entries_found_by_fen() {
    let index = sample_index();
    assert_eq!(get_opening_from_fen(&index, START_FEN).unwrap(), "Starting Position");
    assert_eq!(get_opening_from_fen(&index, EMPTY_FEN).unwrap(), "Empty Board");
}

#[test]
fn position_notations_are_canonical() {
    assert_eq!(Position::starting().to_fen(), START_FEN);
    assert_eq!(Position::empty_board().to_fen(), EMPTY_FEN);
    assert_eq!(replay_moves("1. e4 e5 2. Ke2").to_fen(), BONGCLOUD_FEN);
}

#[test]
fn illegal_token_is_skipped() {
    let with_illegal = replay_moves("e4 e5 Ke3");
    let without = replay_moves("e4 e5");
    assert!(with_illegal.same_as(&without));
    assert!(!with_illegal.same_as(&Position::starting()));
    let annotated = replay_moves("1. e4 e5 2. Ke2 !? Zz9");
    assert!(annotated.same_as(&replay_moves("e4 e5 Ke2")));
}

#[test]
fn play_rejects_illegal_move() {
    let start = Position::starting();
    assert!(start.play("e5").is_none());
    assert!(start.play("hello").is_none());
    let after = start.play("e4").unwrap();
    assert_eq!(
        after.to_fen(),
        "rnbqkbnr/pppppppp/8/8/4P3/8/PPPP1PPP/RNBQKBNR b KQkq - 0 1"
    );
}

#[test]
fn first_match_wins_on_shared_position() {
    let index = OpeningIndex::from_openings(vec![
        opening("First", "e4 e5"),
        opening("Second", "1. e4 e5"),
    ]);
    assert_eq!(
        get_opening_from_setup(&index, replay_moves("e4 e5")).unwrap(),
        "First"
    );
}

#[test]
fn unknown_position_is_not_found() {
    let index = sample_index();
    assert_eq!(
        get_opening_from_setup(&index, replay_moves("d4 d5")),
        Err(OpeningError::NoOpeningFound)
    );
}

#[test]
fn invalid_fen_is_rejected() {
    let index = sample_index();
    assert_eq!(
        get_opening_from_fen(&index, "not a position"),
        Err(OpeningError::InvalidFen)
    );
}

#[test]
fn lookup_by_name_gives_first_moves() {
    let index = sample_index();
    assert_eq!(get_opening_from_name(&index, "King's Pawn Game").unwrap(), "1. e4 e5");
    assert_eq!(get_opening_from_name(&index, "Polish Opening").unwrap(), "1. b4");
    assert_eq!(
        get_opening_from_name(&index, "polish opening"),
        Err(OpeningError::NoOpeningFound)
    );
}

#[test]
fn lookups_are_repeatable() {
    let index = sample_index();
    let a = get_opening_from_fen(&index, BONGCLOUD_FEN);
    let b = get_opening_from_fen(&index, BONGCLOUD_FEN);
    assert_eq!(a, b);
    let c = get_opening_from_name(&index, "Bongcloud Attack");
    let d = get_opening_from_name(&index, "Bongcloud Attack");
    assert_eq!(c, d);
}

#[test]
fn malformed_table_fails_the_build() {
    let tables = vec![b"eco\tname\nC20\tBongcloud Attack\n".to_vec()];
    assert!(matches!(
        OpeningIndex::from_tables(&tables),
        Err(OpeningError::MalformedTable)
    ));
    let uneven = vec![b"eco\tname\tpgn\nC20\tBongcloud Attack\n".to_vec()];
    assert!(matches!(
        OpeningIndex::from_tables(&uneven),
        Err(OpeningError::MalformedTable)
    ));
}

#[test]
fn table_columns_found_by_header() {
    let data = b"pgn\textra\tname\teco\n1. d4\tx\tQueen's Pawn Game\tA40\n".to_vec();
    let parsed = parse_table(&data).unwrap();
    assert_eq!(parsed.len(), 1);
    assert_eq!(parsed[0].eco, "A40");
    assert_eq!(parsed[0].name, "Queen's Pawn Game");
    assert_eq!(parsed[0].pgn.as_deref(), Some("1. d4"));
    assert!(parsed[0].position.same_as(&replay_moves("d4")));
}

#[test]
fn search_finds_exact_name_first() {
    let index = sample_index();
    let found = search_opening_name(&index, "Bongcloud Attack".to_string()).unwrap();
    assert_eq!(found[0].name, "Bongcloud Attack");
    assert_eq!(found.len(), 5);
}

#[test]
fn search_returns_one_entry_per_name() {
    let index = sample_index();
    let found = search_opening_name(&index, "King's Pawn Game".to_string()).unwrap();
    let listed = names(&found);
    assert_eq!(listed.iter().filter(|n| *n == "King's Pawn Game").count(), 1);
    let first = found.iter().find(|o| o.name == "King's Pawn Game").unwrap();
    assert_eq!(first.pgn.as_deref(), Some("1. e4 e5"));
}

#[test]
fn search_returns_at_most_fifteen() {
    let mut entries = Vec::new();
    for k in 0..20 {
        entries.push(opening(&format!("Line {k}"), "e4"));
    }
    let index = OpeningIndex::from_openings(entries);
    let found = search_opening_name(&index, "Line 1".to_string()).unwrap();
    assert_eq!(found.len(), 15);
    assert_eq!(found[0].name, "Line 1");
}

#[test]
fn search_on_empty_index_fails() {
    let index = OpeningIndex::from_openings(Vec::new());
    assert!(matches!(
        search_opening_name(&index, "anything".to_string()),
        Err(OpeningError::NoMatchFound)
    ));
    assert_eq!(
        get_opening_from_setup(&index, Position::starting()),
        Err(OpeningError::NoOpeningFound)
    );
    assert_eq!(
        get_opening_from_fen(&index, START_FEN),
        Err(OpeningError::NoOpeningFound)
    );
}

#[test]
fn selection_ranks_and_keeps_ties_in_order() {
    let names: Vec<String> = ["a", "b", "c", "d"].iter().map(|s| s.to_string()).collect();
    let scores = vec![5u64, 9, 5, 7];
    assert_eq!(best_matches(&names, &scores), vec![1, 3, 0, 2]);
}

#[test]
fn selection_skips_repeated_names() {
    let names: Vec<String> = ["a", "b", "a"].iter().map(|s| s.to_string()).collect();
    let scores = vec![3u64, 2, 3];
    assert_eq!(best_matches(&names, &scores), vec![0, 1]);
}

#[test]
fn selection_evicts_lowest_when_full() {
    let names: Vec<String> = (0..17).map(|k| format!("n{k}")).collect();
    let mut scores: Vec<u64> = (0..15).map(|k| 100 + k as u64).collect();
    scores.push(100);
    scores.push(250);
    let best = best_matches(&names, &scores);
    assert_eq!(best.len(), 15);
    assert_eq!(best[0], 16);
    assert!(!best.contains(&0));
    assert!(!best.contains(&15));
    assert_eq!(best[14], 1);
}

#[test]
fn selection_of_nothing_is_empty() {
    assert!(best_matches(&Vec::new(), &Vec::new()).is_empty());
}

#[test]
fn table_without_rows_adds_nothing() {
    let tables = vec![b"eco\tname\tpgn\n".to_vec(), Vec::new()];
    let index = OpeningIndex::from_tables(&tables).unwrap();
    assert_eq!(index.len(), 2);
}

#[test]
fn repeated_column_fails_the_build() {
    let tables = vec![b"eco\tname\tpgn\tname\nC20\tA\t1. e4\tB\n".to_vec()];
    assert!(matches!(
        OpeningIndex::from_tables(&tables),
        Err(OpeningError::MalformedTable)
    ));
}
