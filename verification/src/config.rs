//! The configuration surface the generator honors.

use vstd::prelude::*;

verus! {

/// Application-level settings: which files to read and write, how many
/// boards to make, and what to report.
#[derive(Clone, Debug)]
pub struct AppConfig {
    /// After generating the boards, should the boards be written to an
    /// output file. If so, which file.
    pub should_output_to_file: bool,
    pub output_filepath: String,
    /// Paths to the different dictionary files to read in.
    pub base_dictionary_filepath: String,
    pub clean_dictionary_filepath: String,
    pub precomputed_words_filepath: String,
    /// Which "bad words dictionary" file to read in.
    pub bad_words_filepath: String,
    /// How many boards should be generated.
    pub number_of_boards: usize,
    /// After running, should the app log how long each board took to run,
    /// in an aggregated format.
    pub should_log_times: bool,
}

/// The knobs of one board-generation attempt.
#[derive(Clone, Debug)]
pub struct GeneratorConfig {
    /// The exact number of words to place is calculated from the number of
    /// available words; this caps it regardless, for performance reasons.
    pub max_words_to_place: usize,
    /// How many orderings of the pool to try before giving up on a seed.
    pub max_attempts_before_giving_up: usize,
    /// Even though the letters might be capable of creating hundreds of
    /// words, only this many are considered per attempt, for performance.
    pub max_words_to_consider: usize,
    /// The width (columns) and height (rows) of a board during generation.
    pub board_dimensions: usize,
    /// The minimum number of words that must be constructible from a
    /// seed's letters for the seed to make it into the precomputed table.
    pub min_words_to_consider_letters: usize,
    /// For each board that is generated, should information about that
    /// board be logged.
    pub should_log_board_info: bool,
}

/// Everything configurable, in one place.
#[derive(Clone, Debug)]
pub struct Config {
    pub app: AppConfig,
    pub generator: GeneratorConfig,
}

impl Default for Config {
    /// The stock configuration: an 11 by 11 board, a pool of at most 40
    /// candidates, at most 20 placed words, and 50 orderings per seed.
    fn default() -> (r: Self)
        ensures
            r.generator.max_words_to_place == 20,
            r.generator.max_attempts_before_giving_up == 50,
            r.generator.max_words_to_consider == 40,
            r.generator.board_dimensions == 11,
            r.generator.min_words_to_consider_letters == 16,
            !r.generator.should_log_board_info,
            r.app.number_of_boards == 10000,
            r.app.should_output_to_file,
            r.app.should_log_times,
    {
        Config {
            app: AppConfig {
                should_output_to_file: true,
                output_filepath: "./boards.json".to_owned(),
                base_dictionary_filepath: "./dictionary_files/84000_gwicks.txt".to_owned(),
                clean_dictionary_filepath: "./dictionary_files/clean_dictionary.txt".to_owned(),
                bad_words_filepath: "./dictionary_files/bad_words_to_exclude.txt".to_owned(),
                precomputed_words_filepath: "./dictionary_files/precomputed_words.json".to_owned(),
                number_of_boards: 10000,
                should_log_times: true,
            },
            generator: GeneratorConfig {
                max_words_to_place: 20,
                max_attempts_before_giving_up: 50,
                max_words_to_consider: 40,
                board_dimensions: 11,
                min_words_to_consider_letters: 16,
                should_log_board_info: false,
            },
        }
    }
}

} // verus!
