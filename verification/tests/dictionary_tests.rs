use board_generator::utils::all_indicies_of;
use board_generator::{clean_words, find_all_subwords_for_all_seven_letter_words, DictionaryManager};

#[test]
fn test_all_indicies_of() {
    let indices_matches = all_indicies_of("nathan", 'a');
    let indices_nomatches = all_indicies_of("nathan", 'Z');

    assert_eq!(indices_matches, vec![1, 4]);
    assert_eq!(indices_nomatches, Vec::<usize>::new());
}

fn words(list: &[&str]) -> Vec<String> {
    list.iter().map(|w| w.to_string()).collect()
}

#[test]
fn test_find_all_words_for_letters_plain() {
    let mut dict = DictionaryManager::new();
    dict.load_clean_dictionary(words(&["cat", "dog", "act", "taco"]));
    // the given letters are not themselves a loaded word
    let found = dict.find_all_words_for_letters("tca", false);
    assert_eq!(found, words(&["cat", "act"]));
}

#[test]
fn test_find_all_words_for_letters_looked_up() {
    let mut dict = DictionaryManager::new();
    dict.load_clean_dictionary(words(&["cat", "dog", "act", "cato"]));
    // "cato" is loaded, so its pre-sorted letters are reused
    let found = dict.find_all_words_for_letters("cato", true);
    assert_eq!(found, words(&["cat", "act", "cato"]));
}

#[test]
fn test_find_all_words_counts_multiplicity() {
    let mut dict = DictionaryManager::new();
    dict.load_clean_dictionary(words(&["seed", "see", "eds"]));
    // "tree" offers only one 'e'-free multiset: t,r,e,e
    let found = dict.find_all_words_for_letters("esde", false);
    // "seed" needs s,e,e,d: available; "see" needs two 'e's and an 's';
    // "eds" needs one of each
    assert_eq!(found, words(&["seed", "see", "eds"]));
    let found2 = dict.find_all_words_for_letters("esd", false);
    // with a single 'e', only "eds" can still be built
    assert_eq!(found2, words(&["eds"]));
}

#[test]
fn test_get_random_word_by_length() {
    let mut dict = DictionaryManager::new();
    dict.load_clean_dictionary(words(&["cat", "dog", "mouse"]));
    let three = dict.get_random_word_by_length(3).unwrap();
    assert!(three == "cat" || three == "dog");
    assert_eq!(dict.get_random_word_by_length(5).unwrap(), "mouse");
    assert!(dict.get_random_word_by_length(9).is_none());
}

#[test]
fn test_get_all_words_of_length() {
    let mut dict = DictionaryManager::new();
    dict.load_clean_dictionary(words(&["cat", "dog", "mouse"]));
    assert_eq!(dict.get_all_words_of_length(3).unwrap(), words(&["cat", "dog"]));
    assert!(dict.get_all_words_of_length(4).is_none());
}

#[test]
fn test_get_random_starting_word() {
    let mut dict = DictionaryManager::new();
    assert!(dict.get_random_starting_word().is_none());
    dict.load_precomputed_dictionary(vec![
        ("warrior".to_string(), words(&["arrow", "air"])),
        ("notepad".to_string(), words(&["note", "pad", "tone"])),
    ]);
    let (seed, candidates) = dict.get_random_starting_word().unwrap();
    if seed == "warrior" {
        assert_eq!(candidates, words(&["arrow", "air"]));
    } else {
        assert_eq!(seed, "notepad");
        assert_eq!(candidates, words(&["note", "pad", "tone"]));
    }
}

#[test]
fn test_clean_words_filters_and_lowercases() {
    let raw = words(&["Hello!!", "it", "toolongword", "nice", "Ca-t99s"]);
    let blacklist = words(&["nice"]);
    let clean = clean_words(&raw, &blacklist);
    // "Hello!!" strips to "Hello" and is lowercased; "it" is too short;
    // "toolongword" too long; "nice" is blacklisted; "Ca-t99s" strips to
    // "Cats", four letters
    assert_eq!(clean, words(&["hello", "cats"]));
}

#[test]
fn test_find_all_subwords_for_all_seven_letter_words() {
    let mut dict = DictionaryManager::new();
    dict.load_clean_dictionary(words(&["warrior", "arrow", "air", "dog"]));
    let table = find_all_subwords_for_all_seven_letter_words(2, &dict);
    assert_eq!(table.len(), 1);
    assert_eq!(table[0].0, "warrior");
    // the seed word itself is excluded from its own candidate list
    assert_eq!(table[0].1, words(&["arrow", "air"]));
    // a higher threshold drops the seed entirely
    let table2 = find_all_subwords_for_all_seven_letter_words(3, &dict);
    assert!(table2.is_empty());
}

#[test]
fn test_create_all_dictionary_files_pipeline() {
    let raw = words(&["WARRIOR", "arrow", "air", "dog", "x"]);
    let blacklist: Vec<String> = Vec::new();
    let (clean, table) = board_generator::create_all_dictionary_files(&raw, &blacklist, 2);
    // "air", "dog" and "x" are too short for the clean dictionary, so the
    // only seven-letter seed keeps just "arrow"
    assert_eq!(clean, words(&["warrior", "arrow"]));
    assert!(table.is_empty());
    let raw2 = words(&["warrior", "arrow", "roar", "wira"]);
    let (clean2, table2) = board_generator::create_all_dictionary_files(&raw2, &blacklist, 2);
    assert_eq!(clean2, words(&["warrior", "arrow", "roar", "wira"]));
    assert_eq!(table2.len(), 1);
    assert_eq!(table2[0].0, "warrior");
    assert_eq!(table2[0].1, words(&["arrow", "roar", "wira"]));
}
