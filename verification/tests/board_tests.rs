use board_generator::{BoardManager, Direction, EMPTY_CELL_VALUE};

fn fresh_board(n: usize) -> BoardManager {
    let mut bm = BoardManager::new();
    bm.new_list(n);
    bm
}

#[test]
fn test_place_then_remove_restores_empty() {
    let mut bm = fresh_board(11);
    bm.place_word("hello", 5, 2, Direction::H);
    assert_eq!(bm.get_number_of_used_words(), 1);
    bm.remove_word_from_board("hello");
    assert_eq!(bm.get_number_of_used_words(), 0);
    for col in 2..7 {
        let cell = bm.get_cell_at(5, col).unwrap();
        assert_eq!(cell.letter, EMPTY_CELL_VALUE);
        assert!(cell.is_empty);
        assert!(!cell.is_used_horizontally);
        assert!(!cell.is_used_vertically);
    }
}

#[test]
fn test_remove_keeps_crossing_letter() {
    let mut bm = fresh_board(11);
    // "warrior" runs horizontally along row 1; "mage" crosses it at the
    // shared 'a' in column 1.
    bm.place_word("warrior", 1, 0, Direction::H);
    bm.place_word("mage", 0, 1, Direction::V);
    assert_eq!(bm.get_number_of_used_words(), 2);
    bm.remove_word_from_board("mage");
    assert_eq!(bm.get_number_of_used_words(), 1);
    // the shared cell keeps the crossing word's letter and only its flag
    let shared = bm.get_cell_at(1, 1).unwrap();
    assert_eq!(shared.letter, 'a');
    assert!(shared.is_used_horizontally);
    assert!(!shared.is_used_vertically);
    assert!(!shared.is_empty);
    // the unshared cells of "mage" return to fully empty
    for row in [0usize, 2, 3] {
        let cell = bm.get_cell_at(row, 1).unwrap();
        assert_eq!(cell.letter, EMPTY_CELL_VALUE);
        assert!(cell.is_empty);
    }
}

#[test]
fn test_place_same_word_twice_is_noop() {
    let mut bm = fresh_board(11);
    bm.place_word("hello", 5, 2, Direction::H);
    let grid_once = bm.get_grid_str();
    bm.place_word("hello", 5, 2, Direction::H);
    assert_eq!(bm.get_number_of_used_words(), 1);
    assert_eq!(bm.get_grid_str(), grid_once);
    // even at another location, a placed word is never placed again
    bm.place_word("hello", 2, 2, Direction::V);
    assert_eq!(bm.get_number_of_used_words(), 1);
    assert_eq!(bm.get_grid_str(), grid_once);
}

#[test]
fn test_place_overflowing_word_leaves_board_unchanged() {
    let mut bm = fresh_board(5);
    let empty_grid = bm.get_grid_str();
    bm.place_word("toolong", 0, 0, Direction::H);
    assert_eq!(bm.get_number_of_used_words(), 0);
    assert_eq!(bm.get_grid_str(), empty_grid);
    bm.place_word("word", 3, 0, Direction::V);
    assert_eq!(bm.get_number_of_used_words(), 0);
    assert_eq!(bm.get_grid_str(), empty_grid);
}

#[test]
fn test_grid_str_rows_and_delimiters() {
    let mut bm = fresh_board(3);
    bm.place_word("abc", 0, 0, Direction::H);
    let s = bm.get_grid_str();
    assert_eq!(s, "abc_###_###");
    // an N by N board serializes to N segments of length N
    let n = 3;
    assert_eq!(s.len(), n * (n + 1) - 1);
    let segments: Vec<&str> = s.split('_').collect();
    assert_eq!(segments.len(), n);
    for seg in segments {
        assert_eq!(seg.len(), n);
    }
}

#[test]
fn test_search_locations_commit_and_stay_legal() {
    let mut bm = fresh_board(11);
    bm.place_word("warrior", 5, 2, Direction::H);
    let locations = bm.find_some_locations_for_word("mage", 20);
    assert!(!locations.is_empty());
    let one = locations[0].clone();
    assert_eq!(one.word, "mage");
    // the search never pairs a word with the direction of the word it
    // crosses
    assert_eq!(one.direction, Direction::V);
    bm.place_word(&one.word, one.start_row, one.start_col, one.direction);
    assert_eq!(bm.get_number_of_used_words(), 2);
    // queried again immediately, the committed location still passes the
    // search's own legality checks: it comes back among the results
    let again = bm.find_some_locations_for_word("mage", 50);
    assert!(again.iter().any(|loc| loc.start_row == one.start_row
        && loc.start_col == one.start_col
        && loc.direction == one.direction));
}

#[test]
fn test_search_on_empty_board_finds_nothing() {
    let mut bm = fresh_board(11);
    let locations = bm.find_some_locations_for_word("mage", 20);
    assert!(locations.is_empty());
}

#[test]
fn test_search_does_not_mutate_board() {
    let mut bm = fresh_board(11);
    bm.place_word("warrior", 5, 2, Direction::H);
    let before = bm.get_grid_str();
    let _ = bm.find_some_locations_for_word("mage", 20);
    assert_eq!(bm.get_grid_str(), before);
    assert_eq!(bm.get_number_of_used_words(), 1);
}

#[test]
fn test_cell_queries_out_of_bounds() {
    let mut bm = fresh_board(4);
    assert!(bm.get_cell_at(4, 0).is_none());
    assert!(bm.get_cell_at(0, 4).is_none());
    assert!(bm.get_cell_at(0, 0).is_some());
    // out-of-bounds reads are treated as unoccupied
    assert!(!bm.cell_is_used(100, 100));
    bm.place_word("word", 0, 0, Direction::H);
    assert!(bm.cell_is_used(0, 0));
    assert!(!bm.cell_is_used(1, 0));
}

#[test]
fn test_remove_absent_word_is_noop() {
    let mut bm = fresh_board(5);
    bm.place_word("cat", 1, 1, Direction::H);
    let before = bm.get_grid_str();
    bm.remove_word_from_board("dog");
    assert_eq!(bm.get_number_of_used_words(), 1);
    assert_eq!(bm.get_grid_str(), before);
}

#[test]
fn test_used_words_and_serialization_records() {
    let mut bm = fresh_board(11);
    bm.place_word("warrior", 1, 0, Direction::H);
    bm.place_word("mage", 0, 1, Direction::V);
    let words = bm.get_used_words();
    assert_eq!(words.len(), 2);
    assert!(words.contains(&"warrior".to_string()));
    assert!(words.contains(&"mage".to_string()));
    let objects = bm.get_used_word_objects();
    assert_eq!(objects.len(), 2);
    let locations = bm.get_placed_words_for_serialization();
    assert_eq!(locations.len(), 2);
    let warrior = locations.iter().find(|e| e.0 == "warrior").unwrap();
    assert_eq!(warrior.1.row, 1);
    assert_eq!(warrior.1.col, 0);
    assert_eq!(warrior.1.direction, Direction::H);
    let mage = locations.iter().find(|e| e.0 == "mage").unwrap();
    assert_eq!(mage.1.row, 0);
    assert_eq!(mage.1.col, 1);
    assert_eq!(mage.1.direction, Direction::V);
}

#[test]
fn test_clear_board_forgets_everything() {
    let mut bm = fresh_board(5);
    bm.place_word("cat", 1, 1, Direction::H);
    bm.clear_board();
    assert_eq!(bm.get_number_of_used_words(), 0);
    assert_eq!(bm.get_grid_str(), "#####_#####_#####_#####_#####");
    assert_eq!(bm.get_dimensions(), 5);
}
