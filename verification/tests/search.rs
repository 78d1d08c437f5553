use wordrooter::index::AnagramIndex;
use wordrooter::letters::{count_letters, sorted_letters};
use wordrooter::search::{find_chain, Memo};
use wordrooter::solve::find_longest_chain;

fn words(list: &[&str]) -> Vec<String> {
    list.iter().map(|word| word.to_string()).collect()
}

fn fixture() -> AnagramIndex {
    AnagramIndex::build(&words(&["ha", "haa", "haka", "ahka", "raha"]))
}

#[test]
fn search_follows_the_only_way() {
    let index = fixture();
    let target = count_letters("haa");
    let mut memo = Memo::new();
    let chain = find_chain("ha", count_letters("ha"), &target, &index, &mut memo);
    assert_eq!(chain, words(&["ha", "haa"]));
}

#[test]
fn search_ends_where_the_pool_is_used_up() {
    let index = fixture();
    let target = count_letters("haa");
    let mut memo = Memo::new();
    let chain = find_chain("haa", count_letters("haa"), &target, &index, &mut memo);
    assert_eq!(chain, words(&["haa"]));
    assert_eq!(memo.cached("aah"), Some(&words(&["haa"])));
    assert_eq!(memo.cached("ah"), None);
}

#[test]
fn search_without_a_next_word_gives_the_start_word() {
    let index = fixture();
    let target = count_letters("hazz");
    let mut memo = Memo::new();
    let chain = find_chain("ha", count_letters("ha"), &target, &index, &mut memo);
    assert_eq!(chain, words(&["ha"]));
}

#[test]
fn search_goes_on_as_far_as_words_are_found() {
    let index = fixture();
    let target = count_letters("haakz");
    let mut memo = Memo::new();
    let chain = find_chain("ha", count_letters("ha"), &target, &index, &mut memo);
    assert_eq!(chain, words(&["ha", "haa", "haka"]));
}

#[test]
fn first_word_of_a_bucket_is_taken() {
    let target = count_letters("haak");
    let index = AnagramIndex::build(&words(&["ha", "haa", "haka", "ahka"]));
    assert_eq!(
        find_longest_chain("haa", &target, &index),
        words(&["haa", "haka"])
    );
    let index = AnagramIndex::build(&words(&["ha", "haa", "ahka", "haka"]));
    assert_eq!(
        find_longest_chain("haa", &target, &index),
        words(&["haa", "ahka"])
    );
}

#[test]
fn smaller_letter_wins_among_equally_long_chains() {
    let index = AnagramIndex::build(&words(&["ha", "hai", "hae"]));
    let target = count_letters("haei");
    assert_eq!(
        find_longest_chain("ha", &target, &index),
        words(&["ha", "hae"])
    );
    let index = AnagramIndex::build(&words(&["ha", "hae", "hai"]));
    assert_eq!(
        find_longest_chain("ha", &target, &index),
        words(&["ha", "hae"])
    );
}

#[test]
fn longer_chain_wins_over_smaller_letter() {
    let index = AnagramIndex::build(&words(&["ha", "hae", "hai", "haik"]));
    let target = count_letters("haeik");
    assert_eq!(
        find_longest_chain("ha", &target, &index),
        words(&["ha", "hai", "haik"])
    );
}

#[test]
fn chain_may_pass_through_rearranged_letters() {
    let index = AnagramIndex::build(&words(&["ha", "aho", "ohra", "rohan"]));
    let target = count_letters("rohan");
    assert_eq!(
        find_longest_chain("ha", &target, &index),
        words(&["ha", "aho", "ohra", "rohan"])
    );
}

#[test]
fn letters_beyond_the_pool_are_not_added() {
    let index = AnagramIndex::build(&words(&["ha", "haa", "haaa"]));
    let target = count_letters("haa");
    assert_eq!(
        find_longest_chain("ha", &target, &index),
        words(&["ha", "haa"])
    );
}

#[test]
fn start_word_need_not_fit_the_pool() {
    let index = AnagramIndex::build(&words(&["r", "rh", "rha"]));
    let target = count_letters("ha");
    assert_eq!(
        find_longest_chain("r", &target, &index),
        words(&["r", "rh", "rha"])
    );
    let index = fixture();
    assert_eq!(
        find_longest_chain("raha", &target, &index),
        words(&["raha"])
    );
}

#[test]
fn found_chains_are_kept_in_the_table() {
    let index = fixture();
    let target = count_letters("haak");
    let mut memo = Memo::new();
    assert_eq!(memo.cached("ah"), None);
    let chain = find_chain("ha", count_letters("ha"), &target, &index, &mut memo);
    assert_eq!(chain, words(&["ha", "haa", "haka"]));
    assert_eq!(memo.cached("ah"), Some(&words(&["ha", "haa", "haka"])));
    assert_eq!(memo.cached("aah"), Some(&words(&["haa", "haka"])));
    assert_eq!(memo.cached("aahk"), Some(&words(&["haka"])));
    assert_eq!(memo.cached("aahr"), None);
    assert_eq!(memo.cached("aaah"), None);
}

#[test]
fn table_keeps_what_an_earlier_search_found() {
    let index = fixture();
    let target = count_letters("haak");
    let mut memo = Memo::new();
    let first = find_chain("haa", count_letters("haa"), &target, &index, &mut memo);
    assert_eq!(first, words(&["haa", "haka"]));
    assert_eq!(memo.cached("ah"), None);
    let second = find_chain("ha", count_letters("ha"), &target, &index, &mut memo);
    assert_eq!(second, words(&["ha", "haa", "haka"]));
    assert_eq!(memo.cached("aah"), Some(&words(&["haa", "haka"])));
    assert_eq!(memo.cached("ah"), Some(&words(&["ha", "haa", "haka"])));
}

#[test]
fn chain_in_the_table_is_handed_back_as_it_is() {
    let index = fixture();
    let target = count_letters("haak");
    let mut memo = Memo::new();
    let first = find_chain("haka", count_letters("haka"), &target, &index, &mut memo);
    assert_eq!(first, words(&["haka"]));
    let second = find_chain("ahka", count_letters("ahka"), &target, &index, &mut memo);
    assert_eq!(second, words(&["haka"]));
    assert_eq!(memo.cached("aahk"), Some(&words(&["haka"])));
}

#[test]
fn table_holds_what_is_stored() {
    let mut memo = Memo::new();
    assert_eq!(memo.cached("aah"), None);
    memo.store("aah".to_string(), words(&["haa"]));
    assert_eq!(memo.cached("aah"), Some(&words(&["haa"])));
    memo.store("aah".to_string(), words(&["haa", "haka"]));
    assert_eq!(memo.cached("aah"), Some(&words(&["haa", "haka"])));
    assert_eq!(memo.cached(&sorted_letters("ha")), None);
}

#[test]
fn search_with_a_table_of_its_own_is_the_search() {
    let index = fixture();
    let target = count_letters("haakz");
    let mut memo = Memo::new();
    assert_eq!(
        find_longest_chain("ha", &target, &index),
        find_chain("ha", count_letters("ha"), &target, &index, &mut memo)
    );
}
