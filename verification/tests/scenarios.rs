use std::time::Instant;

use wordrooter::solve::{chain_in_wordlist, wordrooter, ChainError};

const FIXTURE: &str = "ha\nhaa\nhaka\nahka\nraha\n";

fn words(list: &[&str]) -> Vec<String> {
    list.iter().map(|word| word.to_string()).collect()
}

#[test]
fn performance_find_chain_test() {
    let start = "haa".to_string();
    let letters = "hrajauam".to_string();
    let wordlist = "ha\nhaa\nhaka\nahka\nraha\nhara\nharja\nrauha\nharjaa\nharjau\nhaarja\n\
                    jauhaa\nharjaam\nharjaum\nharjauma\nmaa\nmaja\nrauma\nhaamu\n";

    let start_time = Instant::now();

    let result = wordrooter(start, letters, wordlist).unwrap();
    let duration = start_time.elapsed();

    println!("Longest chain found ({} steps):", result.len());
    for word in &result {
        println!("  - {}", word);
    }
    println!("Time taken: {:.2?}", duration);
}

#[test]
fn timed_inputs_give_the_chain_to_the_whole_pool() {
    let wordlist = "ha\nhaa\nhaka\nahka\nraha\nhara\nharja\nrauha\nharjaa\nharjau\nhaarja\n\
                    jauhaa\nharjaam\nharjaum\nharjauma\nmaa\nmaja\nrauma\nhaamu\n";
    let result = wordrooter("haa".to_string(), "hrajauam".to_string(), wordlist);
    assert_eq!(
        result,
        Ok(words(&["haa", "raha", "harja", "harjaa", "harjaam", "harjauma"]))
    );
}

#[test]
fn chain_grows_to_the_pool() {
    let result = wordrooter("ha".to_string(), "haa".to_string(), FIXTURE);
    assert_eq!(result, Ok(words(&["ha", "haa"])));
}

#[test]
fn start_word_outside_the_dictionary_is_refused() {
    let result = wordrooter("xyz".to_string(), "xyzz".to_string(), FIXTURE);
    assert_eq!(result, Err(ChainError::NotInDictionary));
}

#[test]
fn start_word_that_uses_up_the_pool_stands_alone() {
    let result = wordrooter("haa".to_string(), "haa".to_string(), FIXTURE);
    assert_eq!(result, Ok(words(&["haa"])));
}

#[test]
fn start_word_beyond_the_pool_stands_alone() {
    let result = wordrooter("raha".to_string(), "ha".to_string(), FIXTURE);
    assert_eq!(result, Ok(words(&["raha"])));
}

#[test]
fn start_word_and_pool_count_in_normal_form() {
    let result = wordrooter("  HA \n".to_string(), "\tHaA ".to_string(), FIXTURE);
    assert_eq!(result, Ok(words(&["ha", "haa"])));
}

#[test]
fn chain_in_wordlist_takes_its_inputs_as_they_are() {
    let wordlist = words(&["ha", "haa"]);
    assert_eq!(
        chain_in_wordlist("ha", "haa", &wordlist),
        Ok(words(&["ha", "haa"]))
    );
    assert_eq!(
        chain_in_wordlist("HA", "haa", &wordlist),
        Err(ChainError::NotInDictionary)
    );
    assert_eq!(
        chain_in_wordlist(" ha", "haa", &wordlist),
        Err(ChainError::NotInDictionary)
    );
}

#[test]
fn error_says_what_went_wrong() {
    assert_eq!(
        ChainError::NotInDictionary.message(),
        "Start word is not in the wordlist."
    );
}
