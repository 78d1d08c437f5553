use wordrooter::letters::{count_letters, sorted_letters};
use wordrooter::solve::{chain_in_wordlist, wordrooter, ChainError};

fn words(list: &[&str]) -> Vec<String> {
    list.iter().map(|word| word.to_string()).collect()
}

fn dictionary() -> Vec<String> {
    words(&[
        "ha", "ah", "haa", "aho", "hai", "hae", "haka", "ahka", "raha", "hara", "ohra", "harja",
        "rauha", "haara", "harjaa", "jauhaa", "rohan", "haik", "maa", "maja", "rauma", "haamu",
        "harjau", "harjaum", "harjauma", "a", "ja", "jaa",
    ])
}

fn grows_by_one_letter(word: &str, next: &str) -> bool {
    let before = count_letters(word);
    let after = count_letters(next);
    if after.total() != before.total() + 1 {
        return false;
    }
    let mut added = 0;
    for letter in after.distinct_letters() {
        let was = before.count(letter);
        let is = after.count(letter);
        if is == was + 1 {
            added += 1;
        } else if is != was {
            return false;
        }
    }
    added == 1
}

fn longest_by_trying_everything(word: &str, pool: &str, list: &[String]) -> usize {
    let used = count_letters(word);
    let target = count_letters(pool);
    let mut best = 0;
    for next in list {
        if !grows_by_one_letter(word, next) {
            continue;
        }
        let after = count_letters(next);
        let spare = after
            .distinct_letters()
            .into_iter()
            .all(|letter| after.count(letter) == used.count(letter) || used.count(letter) < target.count(letter));
        if spare {
            let length = longest_by_trying_everything(next, pool, list);
            if length > best {
                best = length;
            }
        }
    }
    best + 1
}

fn reaches_pool_by_trying_everything(word: &str, pool: &str, list: &[String]) -> bool {
    let used = count_letters(word);
    let target = count_letters(pool);
    if used.same_as(&target) {
        return true;
    }
    for next in list {
        if !grows_by_one_letter(word, next) {
            continue;
        }
        let after = count_letters(next);
        let spare = after
            .distinct_letters()
            .into_iter()
            .all(|letter| after.count(letter) == used.count(letter) || used.count(letter) < target.count(letter));
        if spare && reaches_pool_by_trying_everything(next, pool, list) {
            return true;
        }
    }
    false
}

fn fits(word: &str, pool: &str) -> bool {
    let used = count_letters(word);
    let target = count_letters(pool);
    used.distinct_letters()
        .into_iter()
        .all(|letter| used.count(letter) <= target.count(letter))
}

const POOLS: [&str; 8] = [
    "haa", "haak", "hrajauam", "harjauma", "rohan", "haeik", "ha", "jaamu",
];

#[test]
fn signature_agrees_exactly_where_tally_agrees() {
    let list = dictionary();
    for first in &list {
        for second in &list {
            assert_eq!(
                sorted_letters(first) == sorted_letters(second),
                count_letters(first).same_as(&count_letters(second))
            );
        }
    }
}

#[test]
fn each_word_of_a_chain_adds_one_letter_to_the_word_before() {
    let list = dictionary();
    for start in &list {
        for pool in POOLS {
            let chain = chain_in_wordlist(start, pool, &list).unwrap();
            assert_eq!(&chain[0], start);
            for pair in chain.windows(2) {
                assert!(grows_by_one_letter(&pair[0], &pair[1]));
                assert_ne!(pair[0], pair[1]);
                assert!(list.contains(&pair[1]));
            }
        }
    }
}

#[test]
fn no_chain_is_longer_than_the_one_found() {
    let list = dictionary();
    for start in &list {
        for pool in POOLS {
            let chain = chain_in_wordlist(start, pool, &list).unwrap();
            assert_eq!(chain.len(), longest_by_trying_everything(start, pool, &list));
        }
    }
}

#[test]
fn chain_uses_up_the_pool_where_any_chain_does() {
    let list = dictionary();
    let mut reached = 0;
    for start in &list {
        for pool in POOLS {
            if !fits(start, pool) {
                continue;
            }
            let chain = chain_in_wordlist(start, pool, &list).unwrap();
            let last = chain.last().unwrap();
            let ends_at_pool = count_letters(last).same_as(&count_letters(pool));
            assert_eq!(
                ends_at_pool,
                reaches_pool_by_trying_everything(start, pool, &list)
            );
            if ends_at_pool {
                reached += 1;
            }
        }
    }
    assert!(reached > 0);
}

#[test]
fn chain_has_at_most_one_word_per_letter_to_spare_and_one() {
    let list = dictionary();
    for start in &list {
        for pool in POOLS {
            if !fits(start, pool) {
                continue;
            }
            let chain = chain_in_wordlist(start, pool, &list).unwrap();
            assert!(chain.len() <= pool.chars().count() - start.chars().count() + 1);
        }
    }
}

#[test]
fn chain_from_a_start_word_beyond_the_pool_may_be_longer() {
    let list = words(&["r", "rh"]);
    assert_eq!(chain_in_wordlist("r", "h", &list), Ok(words(&["r", "rh"])));
}

#[test]
fn same_inputs_give_the_same_chain() {
    let list = dictionary();
    let content = list.join("\n");
    for start in &list {
        for pool in POOLS {
            let first = wordrooter(start.clone(), pool.to_string(), &content);
            let second = wordrooter(start.clone(), pool.to_string(), &content);
            assert_eq!(first, second);
            assert_eq!(first, chain_in_wordlist(start, pool, &list));
        }
    }
}

#[test]
fn longest_chain_of_the_larger_dictionary() {
    let list = dictionary();
    assert_eq!(
        chain_in_wordlist("ha", "harjauma", &list),
        Ok(words(&["ha", "haa", "raha", "harja", "harjau", "harjaum", "harjauma"]))
    );
}

#[test]
fn missing_start_word_is_the_only_failure() {
    let list = dictionary();
    assert_eq!(
        chain_in_wordlist("xyz", "xyzz", &list),
        Err(ChainError::NotInDictionary)
    );
    assert_eq!(
        chain_in_wordlist("", "haa", &list),
        Err(ChainError::NotInDictionary)
    );
    assert_eq!(chain_in_wordlist("ha", "", &list), Ok(words(&["ha"])));
}

#[test]
fn equally_long_chains_are_told_apart_by_the_smaller_letter() {
    let list = dictionary();
    assert_eq!(
        chain_in_wordlist("raha", "harjaa", &list),
        Ok(words(&["raha", "haara", "harjaa"]))
    );
}
