//! Letter multisets: the canonical signature of a word and its per-letter tally.

use vstd::multiset::Multiset;
use vstd::prelude::*;
use vstd::relations::{sorted_by, total_ordering};
use vstd::seq_lib::{
    lemma_seq_contains_after_push, lemma_sorted_unique, to_multiset_build, to_multiset_insert,
};

verus! {

/// The order in which letters are arranged: ascending by code point.
pub open spec fn letter_order() -> spec_fn(char, char) -> bool {
    |a: char, b: char| a <= b
}

/// A sequence of letters in which no letter is followed by a smaller one.
pub open spec fn is_ascending(letters: Seq<char>) -> bool {
    forall|i: int, j: int| 0 <= i < j < letters.len() ==> letters[i] <= letters[j]
}

/// The signature of a word: its letters arranged in ascending order.
pub open spec fn signature(word: Seq<char>) -> Seq<char> {
    word.sort_by(letter_order())
}

/// The tally of a word: how often each letter occurs in it.
pub open spec fn letter_counts(word: Seq<char>) -> Multiset<char> {
    word.to_multiset()
}

/// The signature shared by every word with the tally `counts`: the ascending
/// arrangement of the letters that `counts` holds.
pub open spec fn counts_signature(counts: Multiset<char>) -> Seq<char> {
    choose|s: Seq<char>| is_ascending(s) && s.to_multiset() == counts
}

/// The order of the letters is a total order.
proof fn lemma_letter_order_total()
    ensures
        total_ordering(letter_order()),
{
    let r = letter_order();
    assert forall|x: char, y: char| #[trigger] r(x, y) && #[trigger] r(y, x) implies x == y by {}
    assert forall|x: char, y: char, z: char| #[trigger] r(x, y) && #[trigger] r(y, z) implies r(
        x,
        z,
    ) by {}
}

/// Ascending letters are sorted by the order of the letters, and the other
/// way round.
proof fn lemma_ascending_is_sorted(letters: Seq<char>)
    ensures
        is_ascending(letters) <==> sorted_by(letters, letter_order()),
{
    let r = letter_order();
    if is_ascending(letters) {
        assert forall|i: int, j: int| 0 <= i < j < letters.len() implies #[trigger] r(
            letters[i],
            letters[j],
        ) by {}
    }
    if sorted_by(letters, r) {
        assert forall|i: int, j: int| 0 <= i < j < letters.len() implies letters[i]
            <= letters[j] by {
            assert(r(letters[i], letters[j]));
        }
    }
}

/// A signature is ascending and holds exactly the letters of its word.
pub proof fn lemma_signature_arranges(word: Seq<char>)
    ensures
        is_ascending(signature(word)),
        letter_counts(signature(word)) == letter_counts(word),
        signature(word).len() == word.len(),
{
    lemma_letter_order_total();
    word.lemma_sort_by_ensures(letter_order());
    lemma_ascending_is_sorted(signature(word));
    signature(word).to_multiset_ensures();
    word.to_multiset_ensures();
}

/// Two ascending arrangements of the same letters are the same sequence.
pub proof fn lemma_ascending_unique(a: Seq<char>, b: Seq<char>)
    requires
        is_ascending(a),
        is_ascending(b),
        a.to_multiset() == b.to_multiset(),
    ensures
        a == b,
{
    lemma_letter_order_total();
    lemma_ascending_is_sorted(a);
    lemma_ascending_is_sorted(b);
    lemma_sorted_unique(a, b, letter_order());
}

/// Words have the same signature exactly when they have the same tally, that
/// is, when they are anagrams of each other.
pub proof fn lemma_signature_symmetry(w1: Seq<char>, w2: Seq<char>)
    ensures
        signature(w1) == signature(w2) <==> letter_counts(w1) == letter_counts(w2),
{
    lemma_signature_arranges(w1);
    lemma_signature_arranges(w2);
    if letter_counts(w1) == letter_counts(w2) {
        lemma_ascending_unique(signature(w1), signature(w2));
    }
}

/// An ascending sequence is the signature of its own tally.
pub proof fn lemma_counts_signature_of_ascending(letters: Seq<char>)
    requires
        is_ascending(letters),
    ensures
        counts_signature(letter_counts(letters)) == letters,
        signature(letters) == letters,
{
    let counts = letter_counts(letters);
    let s = counts_signature(counts);
    assert(is_ascending(letters) && letters.to_multiset() == counts);
    lemma_ascending_unique(s, letters);
    lemma_signature_arranges(letters);
    lemma_ascending_unique(signature(letters), letters);
}

/// Every tally is the tally of some sequence of letters.
pub proof fn lemma_tally_is_spelled(counts: Multiset<char>) -> (letters: Seq<char>)
    ensures
        letter_counts(letters) == counts,
    decreases counts.len(),
{
    broadcast use vstd::multiset::group_multiset_axioms;

    if counts.len() == 0 {
        let letters = Seq::<char>::empty();
        letters.to_multiset_ensures();
        vstd::multiset::lemma_multiset_empty_len(counts);
        vstd::multiset::lemma_multiset_empty_len(letters.to_multiset());
        letters
    } else {
        let letter = counts.choose();
        let rest = counts.remove(letter);
        assert(rest.insert(letter) =~= counts);
        assert(rest.len() + 1 == counts.len());
        let fewer = lemma_tally_is_spelled(rest);
        to_multiset_build(fewer, letter);
        fewer.push(letter)
    }
}

/// The signature of a tally is ascending and holds exactly what was tallied.
pub proof fn lemma_counts_signature_arranges(counts: Multiset<char>)
    ensures
        is_ascending(counts_signature(counts)),
        letter_counts(counts_signature(counts)) == counts,
        counts_signature(counts).len() == counts.len(),
{
    let letters = lemma_tally_is_spelled(counts);
    lemma_counts_signature(letters);
    counts_signature(counts).to_multiset_ensures();
}

/// The signature of a tally is the signature of every word with that tally.
pub proof fn lemma_counts_signature(word: Seq<char>)
    ensures
        counts_signature(letter_counts(word)) == signature(word),
        is_ascending(counts_signature(letter_counts(word))),
        letter_counts(counts_signature(letter_counts(word))) == letter_counts(word),
{
    lemma_signature_arranges(word);
    lemma_counts_signature_of_ascending(signature(word));
}

/// A tally of letters: how often each letter occurs in a word or a pool.
///
/// The letters are kept in ascending order, each as often as it occurs, so
/// that equal tallies are held by equal sequences.
pub struct LetterCounts {
    letters: Vec<char>,
}

impl View for LetterCounts {
    type V = Multiset<char>;

    /// What is tallied: each letter as often as it is held.
    closed spec fn view(&self) -> Multiset<char> {
        self.letters@.to_multiset()
    }
}

impl Clone for LetterCounts {
    /// A tally that agrees with this one on every letter.
    fn clone(&self) -> (copy: Self)
        ensures
            copy@ == self@,
    {
        proof {
            use_type_invariant(self);
        }
        let mut letters: Vec<char> = Vec::new();
        let n = self.letters.len();
        let mut i: usize = 0;
        while i < n
            invariant
                n == self.letters.len(),
                i <= n,
                letters@ == self.letters@.take(i as int),
            decreases n - i,
        {
            letters.push(self.letters[i]);
            assert(self.letters@.take(i + 1) == self.letters@.take(i as int).push(
                self.letters@[i as int],
            ));
            i += 1;
        }
        assert(self.letters@.take(n as int) == self.letters@);
        LetterCounts { letters }
    }
}

impl LetterCounts {
    /// The letters are held in ascending order.
    #[verifier::type_invariant]
    spec fn ascending(&self) -> bool {
        is_ascending(self.letters@)
    }

    /// The tally of no letters.
    pub fn new() -> (counts: Self)
        ensures
            counts@ == Multiset::<char>::empty(),
    {
        let letters: Vec<char> = Vec::new();
        assert(letters@.to_multiset() == Multiset::<char>::empty()) by {
            letters@.to_multiset_ensures();
            assert(letters@.to_multiset().len() == 0);
        }
        LetterCounts { letters }
    }

    /// The number of letters tallied, each counted as often as it occurs.
    pub fn total(&self) -> (n: usize)
        ensures
            n == self@.len(),
    {
        proof {
            self.letters@.to_multiset_ensures();
        }
        self.letters.len()
    }

    /// How often `letter` occurs.
    pub fn count(&self, letter: char) -> (n: usize)
        ensures
            n == self@.count(letter),
    {
        let len = self.letters.len();
        let mut n: usize = 0;
        let mut i: usize = 0;
        proof {
            lemma_empty_counts(self.letters@.take(0));
        }
        while i < len
            invariant
                len == self.letters.len(),
                i <= len,
                n <= i,
                n == self.letters@.take(i as int).to_multiset().count(letter),
            decreases len - i,
        {
            proof {
                let before = self.letters@.take(i as int);
                assert(self.letters@.take(i + 1) == before.push(self.letters@[i as int]));
                to_multiset_build(before, self.letters@[i as int]);
            }
            if self.letters[i] == letter {
                n += 1;
            }
            i += 1;
        }
        assert(self.letters@.take(len as int) == self.letters@);
        n
    }

    /// Whether both tallies agree on every letter.
    pub fn same_as(&self, other: &Self) -> (same: bool)
        ensures
            same == (self@ == other@),
    {
        proof {
            use_type_invariant(self);
            use_type_invariant(other);
            self.letters@.to_multiset_ensures();
            other.letters@.to_multiset_ensures();
        }
        let n = self.letters.len();
        if n != other.letters.len() {
            return false;
        }
        let mut i: usize = 0;
        while i < n
            invariant
                n == self.letters.len(),
                n == other.letters.len(),
                i <= n,
                self.letters@.take(i as int) == other.letters@.take(i as int),
                is_ascending(self.letters@),
                is_ascending(other.letters@),
            decreases n - i,
        {
            if self.letters[i] != other.letters[i] {
                proof {
                    if self@ == other@ {
                        lemma_ascending_unique(self.letters@, other.letters@);
                    }
                }
                return false;
            }
            assert(self.letters@.take(i + 1) == self.letters@.take(i as int).push(
                self.letters@[i as int],
            ));
            assert(other.letters@.take(i + 1) == other.letters@.take(i as int).push(
                other.letters@[i as int],
            ));
            i += 1;
        }
        assert(self.letters@.take(n as int) == self.letters@);
        assert(other.letters@.take(n as int) == other.letters@);
        true
    }

    /// This tally with one more occurrence of `letter`.
    pub fn with_letter(&self, letter: char) -> (more: Self)
        ensures
            more@ == self@.insert(letter),
    {
        let mut more = self.clone();
        more.put(letter);
        more
    }

    /// Tallies one more occurrence of `letter`.
    pub fn put(&mut self, letter: char)
        ensures
            final(self)@ == old(self)@.insert(letter),
    {
        proof {
            use_type_invariant(&*self);
        }
        let mut letters: Vec<char> = Vec::new();
        std::mem::swap(&mut letters, &mut self.letters);
        let n = letters.len();
        let mut at: usize = 0;
        while at < n && letters[at] <= letter
            invariant
                n == letters.len(),
                at <= n,
                forall|k: int| 0 <= k < at ==> letters@[k] <= letter,
            decreases n - at,
        {
            at += 1;
        }
        proof {
            to_multiset_insert(letters@, at as int, letter);
            let after = letters@.insert(at as int, letter);
            assert forall|i: int, j: int| 0 <= i < j < after.len() implies after[i]
                <= after[j] by {
                if j > at && i <= at {
                    assert(letters@[at as int] <= letters@[j - 1]);
                }
            }
        }
        letters.insert(at, letter);
        self.letters = letters;
    }

    /// The signature shared by the words with this tally.
    pub fn signature(&self) -> (sig: String)
        ensures
            sig@ == counts_signature(self@),
    {
        proof {
            use_type_invariant(self);
            lemma_counts_signature_of_ascending(self.letters@);
        }
        string_of_letters(&self.letters)
    }

    /// The letters that occur at least once, each once, in ascending order.
    pub fn distinct_letters(&self) -> (distinct: Vec<char>)
        ensures
            forall|i: int, j: int| 0 <= i < j < distinct@.len() ==> distinct@[i] < distinct@[j],
            forall|letter: char| distinct@.contains(letter) <==> self@.count(letter) > 0,
    {
        proof {
            use_type_invariant(self);
            self.letters@.to_multiset_ensures();
        }
        let n = self.letters.len();
        let mut distinct: Vec<char> = Vec::new();
        let mut i: usize = 0;
        while i < n
            invariant
                n == self.letters.len(),
                i <= n,
                is_ascending(self.letters@),
                forall|a: int, b: int| 0 <= a < b < distinct@.len() ==> distinct@[a] < distinct@[b],
                forall|letter: char|
                    distinct@.contains(letter) <==> self.letters@.take(i as int).contains(letter),
                i > 0 ==> distinct@.len() > 0 && distinct@.last() == self.letters@[i - 1],
                i == 0 ==> distinct@.len() == 0,
            decreases n - i,
        {
            let letter = self.letters[i];
            let ghost before = distinct@;
            assert(self.letters@.take(i + 1) == self.letters@.take(i as int).push(letter));
            if i == 0 || self.letters[i - 1] != letter {
                proof {
                    assert forall|a: int| 0 <= a < distinct@.len() implies distinct@[a]
                        < letter by {
                        assert(distinct@[a] <= distinct@.last());
                        assert(self.letters@[i - 1] <= self.letters@[i as int]);
                    }
                }
                distinct.push(letter);
            } else {
                assert(distinct@.contains(distinct@.last()));
            }
            assert forall|other: char|
                distinct@.contains(other) <==> self.letters@.take(i + 1).contains(other) by {
                lemma_seq_contains_after_push(self.letters@.take(i as int), letter, other);
                lemma_seq_contains_after_push(before, letter, other);
            }
            i += 1;
        }
        assert(self.letters@.take(n as int) == self.letters@);
        distinct
    }
}

/// No letters, nothing tallied.
proof fn lemma_empty_counts(letters: Seq<char>)
    requires
        letters.len() == 0,
    ensures
        forall|letter: char| letters.to_multiset().count(letter) == 0,
{
    letters.to_multiset_ensures();
    assert forall|letter: char| letters.to_multiset().count(letter) == 0 by {
        if letters.to_multiset().count(letter) > 0 {
            assert(letters.contains(letter));
        }
    }
}

/// Appends one letter to a string, by `String::push`: the string afterwards is
/// the string before with `letter` at its end.
#[verifier::external_body]
pub(crate) fn push_letter(text: &mut String, letter: char)
    ensures
        final(text)@ == old(text)@.push(letter),
{
    text.push(letter);
}

/// The string that spells `letters`.
pub fn string_of_letters(letters: &Vec<char>) -> (text: String)
    ensures
        text@ == letters@,
{
    let mut text = String::new();
    let n = letters.len();
    let mut i: usize = 0;
    while i < n
        invariant
            n == letters.len(),
            i <= n,
            text@ == letters@.take(i as int),
        decreases n - i,
    {
        push_letter(&mut text, letters[i]);
        assert(letters@.take(i + 1) == letters@.take(i as int).push(letters@[i as int]));
        i += 1;
    }
    assert(letters@.take(n as int) == letters@);
    text
}

/// Tallies the letters of `word`.
pub fn count_letters(word: &str) -> (counts: LetterCounts)
    ensures
        counts@ == letter_counts(word@),
{
    let mut counts = LetterCounts::new();
    proof {
        lemma_empty_counts(word@.take(0));
        assert(word@.take(0).to_multiset() == Multiset::<char>::empty());
    }
    for letter in it: word.chars()
        invariant
            it.seq() == word@,
            counts@ == it.seq().take(it.index() as int).to_multiset(),
    {
        proof {
            let before = word@.take(it.index() as int);
            assert(word@.take(it.index() + 1) == before.push(letter));
            to_multiset_build(before, letter);
        }
        counts.put(letter);
    }
    assert(word@.take(word@.len() as int) == word@);
    counts
}

/// Arranges the letters of `word` in ascending order.
pub fn sorted_letters(word: &str) -> (sig: String)
    ensures
        sig@ == signature(word@),
{
    let counts = count_letters(word);
    proof {
        lemma_counts_signature(word@);
    }
    counts.signature()
}

} // verus!
