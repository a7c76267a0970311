//! Procedural generation of crossword-style word-game boards: given a pool
//! of candidate words sharing a seed word's letters, place as many as
//! possible onto a bounded grid so that every placed word crosses an
//! already-placed word at a shared letter, with no illegal adjacent
//! parallel words. The board state manager, the placement location search,
//! and the generation loop are verified against the board model in
//! `board_model`; the laws they obey are stated and proved in `board_laws`.

pub mod board_laws;
pub mod board_manager;
pub mod board_model;
pub mod cell_contents;
pub mod cli;
pub mod config;
pub mod dictionary_manager;
pub mod dictionary_utils;
pub mod direction;
pub mod generate_board;
pub mod generated_board;
pub mod placed_word;
pub mod utils;

pub use board_manager::BoardManager;
pub use cli::{Args, RunMode};
pub use config::{AppConfig, Config, GeneratorConfig};
pub use cell_contents::{CellContents, EMPTY_CELL_VALUE};
pub use generated_board::{GeneratedBoard, WordLocationOnBoard, WordLocationsOnBoard};
pub use dictionary_manager::DictionaryManager;
pub use dictionary_utils::{clean_words, create_all_dictionary_files, find_all_subwords_for_all_seven_letter_words};
pub use direction::{get_opposite_direction, get_random_direction, Direction};
pub use generate_board::{next_permutation, try_to_generate_a_board};
pub use placed_word::{PlacedWord, PlacedWordCell, PossibleWordLocation};
pub use utils::{all_indicies_of, get_random_int_in_range, shuffle};
