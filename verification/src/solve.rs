//! The puzzle as a whole: from a start word, a pool of letters and a word
//! list to the longest chain.

use crate::chain::{chain_from, is_chain, is_step, lemma_found_is_chain, lemma_found_is_longest};
use crate::index::{index_of, lemma_index_of_wf, word_views, AnagramIndex};
use crate::letters::{count_letters, letter_counts, LetterCounts};
use crate::search::{find_chain, Memo};
use crate::wordlist::{has_word, load_wordlist_from_str, normal_form, normalize, wordlist_of};
use vstd::prelude::*;
use vstd::string::StringExecFns;

verus! {

/// Why no chain was looked for.
#[derive(Debug, Clone, Copy, PartialEq, Eq, Structural)]
pub enum ChainError {
    /// The start word is not in the word list.
    NotInDictionary,
}

impl ChainError {
    /// The error in words.
    pub fn message(&self) -> (text: String)
        ensures
            text@ == "Start word is not in the wordlist."@,
    {
        String::from_str("Start word is not in the wordlist.")
    }
}

/// The longest chain from `start` towards the pool `target` over the
/// dictionary `index`, found with a table of its own.
pub fn find_longest_chain(start: &str, target: &LetterCounts, index: &AnagramIndex) -> (chain: Vec<
    String,
>)
    ensures
        word_views(chain@) == chain_from(index@, target@, start@),
{
    let mut memo = Memo::new();
    find_chain(start, count_letters(start), target, index, &mut memo)
}

/// What the search comes to for a start word, a pool and a word list: the
/// chain from the start word over the index of the list towards the tally of
/// the pool, or no chain where the list lacks the start word.
pub open spec fn chain_outcome(start: Seq<char>, pool: Seq<char>, words: Seq<Seq<char>>) -> Result<
    Seq<Seq<char>>,
    ChainError,
> {
    if words.contains(start) {
        Ok(chain_from(index_of(words), letter_counts(pool), start))
    } else {
        Err(ChainError::NotInDictionary)
    }
}

/// What the puzzle comes to: the outcome of the search for the start word and
/// the pool in normal form and the word list that the text spells out.
pub open spec fn solution(
    start_word: Seq<char>,
    available_chars: Seq<char>,
    wordlist_content: Seq<char>,
) -> Result<Seq<Seq<char>>, ChainError> {
    chain_outcome(
        normal_form(start_word),
        normal_form(available_chars),
        wordlist_of(wordlist_content),
    )
}

/// What an outcome of the search says, as words.
pub open spec fn outcome_view(outcome: Result<Vec<String>, ChainError>) -> Result<
    Seq<Seq<char>>,
    ChainError,
> {
    match outcome {
        Ok(chain) => Ok(word_views(chain@)),
        Err(error) => Err(error),
    }
}

/// The longest chain of words of `wordlist` that starts with `start` and
/// grows by one letter of `available_letters` per word. Fails, before any
/// search, where `wordlist` lacks `start`.
pub fn chain_in_wordlist(start: &str, available_letters: &str, wordlist: &Vec<String>) -> (outcome:
    Result<Vec<String>, ChainError>)
    ensures
        outcome_view(outcome) == chain_outcome(
            start@,
            available_letters@,
            word_views(wordlist@),
        ),
{
    let word = start.to_owned();
    if !has_word(wordlist, &word) {
        return Err(ChainError::NotInDictionary);
    }
    let available_counts = count_letters(available_letters);
    let used_counts = count_letters(start);
    let anagram_index = AnagramIndex::build(wordlist);
    let mut memo = Memo::new();
    let chain = find_chain(start, used_counts, &available_counts, &anagram_index, &mut memo);
    Ok(chain)
}

/// Solves the puzzle for the word list in `wordlist_content`: the longest
/// chain of its words that starts with `start_word` and grows by one letter
/// of `available_chars` per word. Start word and pool count in normal form.
pub fn wordrooter(start_word: String, available_chars: String, wordlist_content: &str) -> (outcome:
    Result<Vec<String>, ChainError>)
    ensures
        outcome_view(outcome) == solution(start_word@, available_chars@, wordlist_content@),
{
    let start = normalize(start_word.as_str());
    let available = normalize(available_chars.as_str());
    let wordlist = load_wordlist_from_str(wordlist_content);
    chain_in_wordlist(start.as_str(), available.as_str(), &wordlist)
}

/// Where the word list has the start word, the search comes to a chain that
/// starts with it and is made of words of the list.
pub proof fn lemma_outcome_is_chain(start: Seq<char>, pool: Seq<char>, words: Seq<Seq<char>>)
    requires
        words.contains(start),
    ensures
        chain_outcome(start, pool, words) is Ok,
        ({
            let found = chain_outcome(start, pool, words)->Ok_0;
            &&& is_chain(index_of(words), letter_counts(pool), found)
            &&& found[0] == start
            &&& forall|i: int| 0 <= i < found.len() ==> words.contains(#[trigger] found[i])
        }),
{
    let index = index_of(words);
    let target = letter_counts(pool);
    let found = chain_from(index, target, start);
    lemma_index_of_wf(words);
    lemma_found_is_chain(index, target, start);
    assert forall|i: int| 0 <= i < found.len() implies words.contains(#[trigger] found[i]) by {
        if i > 0 {
            assert(is_step(index, target, found[i - 1], found[i - 1 + 1]));
        }
    }
}

/// No chain of words of the list that starts with the start word is longer
/// than the one that the search comes to.
pub proof fn lemma_outcome_is_longest(
    start: Seq<char>,
    pool: Seq<char>,
    words: Seq<Seq<char>>,
    other: Seq<Seq<char>>,
)
    requires
        words.contains(start),
        is_chain(index_of(words), letter_counts(pool), other),
        other[0] == start,
    ensures
        chain_outcome(start, pool, words) is Ok,
        other.len() <= chain_outcome(start, pool, words)->Ok_0.len(),
{
    lemma_found_is_longest(index_of(words), letter_counts(pool), other);
}

/// The search settles on one outcome: whatever two runs on the same start
/// word, pool and word list hand back says the same.
pub proof fn lemma_same_inputs_same_outcome(
    start: Seq<char>,
    pool: Seq<char>,
    words: Seq<Seq<char>>,
    first: Result<Vec<String>, ChainError>,
    second: Result<Vec<String>, ChainError>,
)
    requires
        outcome_view(first) == chain_outcome(start, pool, words),
        outcome_view(second) == chain_outcome(start, pool, words),
    ensures
        outcome_view(first) == outcome_view(second),
{
}

} // verus!
