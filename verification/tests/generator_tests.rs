use board_generator::utils::{get_random_int_in_range, join_words, shuffle};
use board_generator::{
    get_opposite_direction, get_random_direction, next_permutation, try_to_generate_a_board,
    Config, DictionaryManager, Direction,
};

fn words(list: &[&str]) -> Vec<String> {
    list.iter().map(|w| w.to_string()).collect()
}

#[test]
fn test_opposite_direction() {
    assert_eq!(get_opposite_direction(&Direction::H), Direction::V);
    assert_eq!(get_opposite_direction(&Direction::V), Direction::H);
}

#[test]
fn test_random_direction_is_one_of_two() {
    for _ in 0..20 {
        let d = get_random_direction();
        assert!(d == Direction::H || d == Direction::V);
    }
}

#[test]
fn test_random_int_in_range_bounds() {
    for _ in 0..100 {
        let r = get_random_int_in_range(3, 7);
        assert!((3..7).contains(&r));
    }
    assert_eq!(get_random_int_in_range(5, 6), 5);
}

#[test]
fn test_shuffle_keeps_elements() {
    let original: Vec<usize> = (0..50).collect();
    let shuffled = shuffle(original.clone());
    assert_eq!(shuffled.len(), original.len());
    let mut sorted = shuffled.clone();
    sorted.sort();
    assert_eq!(sorted, original);
}

#[test]
fn test_join_words() {
    assert_eq!(join_words(&words(&["ab", "c", "de"]), '_'), "ab_c_de");
    assert_eq!(join_words(&words(&["one"]), '_'), "one");
    assert_eq!(join_words(&Vec::new(), '_'), "");
}

#[test]
fn test_next_permutation_order() {
    let mut items: Vec<usize> = vec![0, 1, 2];
    assert!(next_permutation(&mut items));
    assert_eq!(items, vec![0, 2, 1]);
    assert!(next_permutation(&mut items));
    assert_eq!(items, vec![1, 0, 2]);
    assert!(next_permutation(&mut items));
    assert_eq!(items, vec![1, 2, 0]);
    assert!(next_permutation(&mut items));
    assert_eq!(items, vec![2, 0, 1]);
    assert!(next_permutation(&mut items));
    assert_eq!(items, vec![2, 1, 0]);
    // the descending ordering is the last one
    assert!(!next_permutation(&mut items));
    assert_eq!(items, vec![2, 1, 0]);
}

#[test]
fn test_next_permutation_trivial_lists() {
    let mut empty: Vec<usize> = Vec::new();
    assert!(!next_permutation(&mut empty));
    let mut single: Vec<usize> = vec![0];
    assert!(!next_permutation(&mut single));
    assert_eq!(single, vec![0]);
}

#[test]
fn test_config_default_values() {
    let config = Config::default();
    assert_eq!(config.generator.board_dimensions, 11);
    assert_eq!(config.generator.max_words_to_place, 20);
    assert_eq!(config.generator.max_attempts_before_giving_up, 50);
    assert_eq!(config.generator.max_words_to_consider, 40);
    assert_eq!(config.generator.min_words_to_consider_letters, 16);
}

#[test]
fn test_generate_board_no_seed_available() {
    let dict = DictionaryManager::new();
    let config = Config::default();
    assert!(try_to_generate_a_board(&dict, &config).is_none());
}

#[test]
fn test_generate_board_end_to_end() {
    // an 11 by 11 board seeded with a seven-letter word and a small pool of
    // candidates that each share a letter with the seed
    let mut dict = DictionaryManager::new();
    dict.load_precomputed_dictionary(vec![(
        "warrior".to_string(),
        words(&["arrow", "wira", "roar"]),
    )]);
    let mut config = Config::default();
    config.generator.board_dimensions = 11;
    config.generator.max_words_to_place = 5;
    config.generator.max_attempts_before_giving_up = 50;

    let mut produced = None;
    for _ in 0..30 {
        if let Some(board) = try_to_generate_a_board(&dict, &config) {
            produced = Some(board);
            break;
        }
    }
    let board = produced.expect("no board produced despite a generous attempt budget");
    assert_eq!(board.letters, "warrior");
    assert_eq!(board.all, "arrow_wira_roar");
    // the seed word and at least one crossing candidate sit on the board
    assert!(board.used.len() >= 2);
    let seed_entry = board.used.iter().find(|e| e.0 == "warrior").unwrap();
    for (word, location) in board.used.iter() {
        if word != "warrior" {
            assert!(["arrow", "wira", "roar"].contains(&word.as_str()));
            // every later word crosses perpendicular to something; with one
            // seed in one direction, the first crossing is perpendicular
            assert!(location.row < 11 && location.col < 11);
        }
    }
    // the serialized grid has 11 rows of 11 cells
    let rows: Vec<&str> = board.grid.split('_').collect();
    assert_eq!(rows.len(), 11);
    for row in rows.iter() {
        assert_eq!(row.len(), 11);
    }
    // the seed word reads off the grid at its recorded location
    let seed_loc = &seed_entry.1;
    let grid_chars: Vec<Vec<char>> = rows.iter().map(|r| r.chars().collect()).collect();
    for (offset, letter) in "warrior".chars().enumerate() {
        let (r, c) = match seed_loc.direction {
            Direction::H => (seed_loc.row, seed_loc.col + offset),
            Direction::V => (seed_loc.row + offset, seed_loc.col),
        };
        assert_eq!(grid_chars[r][c], letter);
    }
}
