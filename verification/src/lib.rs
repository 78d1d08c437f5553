//! Longest word chains: from a start word, grow a dictionary word by one
//! letter of a pool at a time, as far as the pool reaches.

pub mod chain;
pub mod index;
pub mod letters;
pub mod search;
pub mod solve;
pub mod wordlist;

pub use index::AnagramIndex;
pub use letters::{count_letters, sorted_letters, LetterCounts};
pub use search::{find_chain, Memo};
pub use solve::{chain_in_wordlist, find_longest_chain, wordrooter, ChainError};
pub use wordlist::load_wordlist_from_str;
