//! The anagram index: dictionary words grouped by signature.

use crate::letters::{
    counts_signature, lemma_counts_signature_arranges, lemma_signature_arranges, letter_counts,
    signature, sorted_letters,
};
use vstd::hash_map::StringHashMap;
use vstd::multiset::Multiset;
use vstd::prelude::*;

verus! {

/// Lists of words, each under a signature: what an index holds, and what a
/// table of chains holds.
pub type WordTable = Map<Seq<char>, Seq<Seq<char>>>;

/// The words that a list of strings spells.
pub open spec fn word_views(words: Seq<String>) -> Seq<Seq<char>> {
    words.map_values(|word: String| word@)
}

/// The words of `words` whose signature is `key`, in the order of `words`.
pub open spec fn anagrams_in(words: Seq<Seq<char>>, key: Seq<char>) -> Seq<Seq<char>> {
    words.filter(|word: Seq<char>| signature(word) == key)
}

/// The index of a word list: each signature that occurs leads to the words
/// that have it, in the order of the list.
pub open spec fn index_of(words: Seq<Seq<char>>) -> WordTable {
    Map::new(
        |key: Seq<char>| anagrams_in(words, key).len() > 0,
        |key: Seq<char>| anagrams_in(words, key),
    )
}

/// The words filed under `key`; none where the index lacks the key.
pub open spec fn bucket(index: WordTable, key: Seq<char>) -> Seq<Seq<char>> {
    if index.contains_key(key) {
        index[key]
    } else {
        Seq::empty()
    }
}

/// Every word is filed under its own signature.
pub open spec fn index_wf(index: WordTable) -> bool {
    forall|key: Seq<char>, i: int|
        index.contains_key(key) && 0 <= i < index[key].len() ==> signature(
            #[trigger] index[key][i],
        ) == key
}

/// The chains or buckets that a table of word lists holds, as words.
pub open spec fn table_view(table: Map<Seq<char>, Vec<String>>) -> WordTable {
    Map::new(
        |key: Seq<char>| table.contains_key(key),
        |key: Seq<char>| word_views(table[key]@),
    )
}

/// Filing one more word: it goes to the end of its signature's bucket.
pub proof fn lemma_index_of_push(words: Seq<Seq<char>>, word: Seq<char>)
    ensures
        index_of(words.push(word)) == index_of(words).insert(
            signature(word),
            bucket(index_of(words), signature(word)).push(word),
        ),
{
    let more = words.push(word);
    assert(more.drop_last() == words);
    assert forall|key: Seq<char>|
        anagrams_in(more, key) == if signature(word) == key {
            anagrams_in(words, key).push(word)
        } else {
            anagrams_in(words, key)
        } by {
        reveal(Seq::filter);
    }
    let filed = index_of(words).insert(
        signature(word),
        bucket(index_of(words), signature(word)).push(word),
    );
    assert forall|key: Seq<char>| #[trigger]
        index_of(more).contains_key(key) == filed.contains_key(key) && (index_of(
            more,
        ).contains_key(key) ==> index_of(more)[key] == filed[key]) by {
        if key == signature(word) && !index_of(words).contains_key(key) {
            assert(anagrams_in(words, key) =~= Seq::empty());
        }
    }
    assert(index_of(more) =~= filed);
}

/// The index of a word list files every word under its own signature, and a
/// word is in the list exactly when it is in the bucket of its signature.
pub proof fn lemma_index_of_wf(words: Seq<Seq<char>>)
    ensures
        index_wf(index_of(words)),
        forall|word: Seq<char>|
            words.contains(word) <==> bucket(index_of(words), signature(word)).contains(word),
{
    assert forall|key: Seq<char>, i: int|
        index_of(words).contains_key(key) && 0 <= i < index_of(words)[key].len() implies signature(
        #[trigger] index_of(words)[key][i],
    ) == key by {
        words.lemma_filter_pred(|word: Seq<char>| signature(word) == key, i);
    }
    assert forall|word: Seq<char>|
        words.contains(word) <==> bucket(index_of(words), signature(word)).contains(word) by {
        let key = signature(word);
        let same = |w: Seq<char>| signature(w) == key;
        if words.contains(word) {
            let i = choose|i: int| 0 <= i < words.len() && words[i] == word;
            words.lemma_filter_contains(same, i);
            assert(anagrams_in(words, key).contains(word));
        }
        if bucket(index_of(words), key).contains(word) {
            words.lemma_filter_contains_rev(same, word);
        }
    }
}

/// A word filed under the signature of a tally has that tally.
pub proof fn lemma_filed_word_counts(index: WordTable, counts: Multiset<char>, i: int)
    requires
        index_wf(index),
        0 <= i < bucket(index, counts_signature(counts)).len(),
    ensures
        letter_counts(bucket(index, counts_signature(counts))[i]) == counts,
{
    let key = counts_signature(counts);
    let word = index[key][i];
    assert(signature(word) == key);
    lemma_signature_arranges(word);
    lemma_counts_signature_arranges(counts);
}

/// A dictionary, indexed by signature.
pub struct AnagramIndex {
    buckets: StringHashMap<Vec<String>>,
    none: Vec<String>,
}

impl View for AnagramIndex {
    type V = WordTable;

    /// The words under each signature.
    closed spec fn view(&self) -> WordTable {
        table_view(self.buckets@)
    }
}

impl AnagramIndex {
    /// Every word is filed under its own signature, and the bucket for the
    /// signatures that the index lacks is empty.
    #[verifier::type_invariant]
    spec fn inv(&self) -> bool {
        &&& self.none@.len() == 0
        &&& index_wf(table_view(self.buckets@))
    }

    /// Indexes `words`: each word goes to the end of the bucket of its
    /// signature, so that a bucket keeps the order of `words`.
    pub fn build(words: &Vec<String>) -> (index: Self)
        ensures
            index@ == index_of(word_views(words@)),
            index_wf(index@),
    {
        let mut buckets: StringHashMap<Vec<String>> = StringHashMap::new();
        let n = words.len();
        let mut i: usize = 0;
        assert(table_view(buckets@) =~= index_of(word_views(words@).take(0))) by {
            reveal(Seq::filter);
        }
        while i < n
            invariant
                n == words.len(),
                i <= n,
                table_view(buckets@) == index_of(word_views(words@).take(i as int)),
            decreases n - i,
        {
            let word = &words[i];
            let key = sorted_letters(word.as_str());
            let ghost done = word_views(words@).take(i as int);
            let mut filed: Vec<String> = match buckets.get(key.as_str()) {
                Some(found) => copy_words(found),
                None => Vec::new(),
            };
            filed.push(word.clone());
            buckets.insert(key, filed);
            proof {
                lemma_index_of_push(done, word@);
                assert(word_views(words@).take(i + 1) == done.push(word@));
                assert(word_views(filed@) == bucket(index_of(done), signature(word@)).push(word@));
                assert(table_view(buckets@) =~= index_of(done).insert(
                    signature(word@),
                    bucket(index_of(done), signature(word@)).push(word@),
                ));
            }
            i += 1;
        }
        proof {
            assert(word_views(words@).take(n as int) == word_views(words@));
            lemma_index_of_wf(word_views(words@));
        }
        AnagramIndex { buckets, none: Vec::new() }
    }

    /// The words filed under `key`, in their order; none where no word has
    /// that signature.
    pub fn lookup(&self, key: &str) -> (words: &Vec<String>)
        ensures
            word_views(words@) == bucket(self@, key@),
            index_wf(self@),
    {
        proof {
            use_type_invariant(self);
        }
        match self.buckets.get(key) {
            Some(found) => found,
            None => &self.none,
        }
    }
}

/// A copy of a list of words.
pub fn copy_words(words: &Vec<String>) -> (copy: Vec<String>)
    ensures
        word_views(copy@) == word_views(words@),
        copy@.len() == words@.len(),
{
    let mut copy: Vec<String> = Vec::new();
    let n = words.len();
    let mut i: usize = 0;
    while i < n
        invariant
            n == words.len(),
            i <= n,
            word_views(copy@) == word_views(words@).take(i as int),
            copy@.len() == i,
        decreases n - i,
    {
        copy.push(words[i].clone());
        assert(word_views(copy@) =~= word_views(words@).take(i + 1));
        i += 1;
    }
    assert(word_views(words@).take(n as int) == word_views(words@));
    copy
}

} // verus!
