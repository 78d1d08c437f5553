use wordrooter::letters::{count_letters, sorted_letters, string_of_letters, LetterCounts};

#[test]
fn signature_arranges_letters_in_ascending_order() {
    assert_eq!(sorted_letters("haka"), "aahk");
    assert_eq!(sorted_letters("raha"), "aahr");
    assert_eq!(sorted_letters("a"), "a");
    assert_eq!(sorted_letters(""), "");
    assert_eq!(sorted_letters("zyx"), "xyz");
}

#[test]
fn signature_orders_by_code_point() {
    assert_eq!(sorted_letters("äaöz"), "azäö");
    assert_eq!(sorted_letters("bAa"), "Aab");
}

#[test]
fn anagrams_share_signature_and_tally() {
    assert_eq!(sorted_letters("haka"), sorted_letters("ahka"));
    assert!(count_letters("haka").same_as(&count_letters("ahka")));
}

#[test]
fn other_letters_give_other_signature_and_tally() {
    assert_ne!(sorted_letters("haka"), sorted_letters("raha"));
    assert!(!count_letters("haka").same_as(&count_letters("raha")));
    assert_ne!(sorted_letters("ha"), sorted_letters("haa"));
    assert!(!count_letters("ha").same_as(&count_letters("haa")));
}

#[test]
fn tally_counts_each_letter() {
    let counts = count_letters("hrajauam");
    assert_eq!(counts.count('a'), 3);
    assert_eq!(counts.count('h'), 1);
    assert_eq!(counts.count('r'), 1);
    assert_eq!(counts.count('j'), 1);
    assert_eq!(counts.count('u'), 1);
    assert_eq!(counts.count('m'), 1);
    assert_eq!(counts.count('z'), 0);
    assert_eq!(counts.total(), 8);
}

#[test]
fn empty_tally_holds_nothing() {
    let counts = LetterCounts::new();
    assert_eq!(counts.total(), 0);
    assert_eq!(counts.count('a'), 0);
    assert!(counts.same_as(&count_letters("")));
    assert_eq!(counts.signature(), "");
    assert_eq!(counts.distinct_letters(), Vec::<char>::new());
}

#[test]
fn one_more_letter_is_tallied() {
    let mut counts = count_letters("ha");
    counts.put('a');
    assert!(counts.same_as(&count_letters("haa")));
    counts.put('k');
    assert!(counts.same_as(&count_letters("haka")));
    assert_eq!(counts.count('a'), 2);
    assert_eq!(counts.total(), 4);
}

#[test]
fn tally_with_letter_leaves_the_tally_as_it_was() {
    let counts = count_letters("ha");
    let more = counts.with_letter('a');
    assert_eq!(counts.total(), 2);
    assert_eq!(counts.count('a'), 1);
    assert_eq!(more.total(), 3);
    assert_eq!(more.count('a'), 2);
    assert_eq!(more.count('h'), 1);
}

#[test]
fn copy_of_a_tally_agrees_with_it() {
    let counts = count_letters("raha");
    let copy = counts.clone();
    assert!(copy.same_as(&counts));
    assert_eq!(copy.signature(), "aahr");
}

#[test]
fn tally_signature_is_that_of_its_words() {
    assert_eq!(count_letters("haka").signature(), sorted_letters("ahka"));
    assert_eq!(count_letters("ha").with_letter('a').signature(), "aah");
}

#[test]
fn distinct_letters_come_once_and_ascending() {
    assert_eq!(
        count_letters("hrajauam").distinct_letters(),
        vec!['a', 'h', 'j', 'm', 'r', 'u']
    );
    assert_eq!(count_letters("aaa").distinct_letters(), vec!['a']);
}

#[test]
fn tallies_of_different_size_differ() {
    assert!(!count_letters("ha").same_as(&count_letters("h")));
    assert!(!count_letters("").same_as(&count_letters("h")));
    assert!(count_letters("ah").same_as(&count_letters("ha")));
}

#[test]
fn letters_are_spelled_out_in_their_order() {
    assert_eq!(string_of_letters(&vec!['h', 'a', 'a']), "haa");
    assert_eq!(string_of_letters(&Vec::new()), "");
}
