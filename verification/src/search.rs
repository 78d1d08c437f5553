//! The chain search: backtracking over the letters that can be added, with a
//! table of the chains already found.

use crate::chain::{
    can_extend, chain_from, code_of, is_letter_code, lemma_letter_codes, lemma_no_tail_at_target,
    lemma_pass_over, lemma_room_shrinks, letter_codes, longest_from, longest_tail, next_bucket,
    room, tail_through,
};
use crate::index::{
    bucket, copy_words, index_wf, lemma_filed_word_counts, table_view, word_views, AnagramIndex,
    WordTable,
};
use crate::letters::{
    counts_signature, lemma_counts_signature, letter_counts, signature, sorted_letters,
    LetterCounts,
};
use vstd::hash_map::StringHashMap;
use vstd::multiset::Multiset;
use vstd::prelude::*;

verus! {

/// Whether `chain` is what the search finds from the first word filed under
/// `key`.
pub open spec fn is_settled(
    index: WordTable,
    target: Multiset<char>,
    key: Seq<char>,
    chain: Seq<Seq<char>>,
) -> bool {
    bucket(index, key).len() > 0 && chain == chain_from(index, target, bucket(index, key)[0])
}

/// The chains found so far in one search, by the signature of their first
/// word.
pub struct Memo {
    chains: StringHashMap<Vec<String>>,
}

impl View for Memo {
    type V = WordTable;

    /// The chain under each signature.
    closed spec fn view(&self) -> WordTable {
        table_view(self.chains@)
    }
}

impl Memo {
    /// A table that holds no chain yet.
    pub fn new() -> (memo: Self)
        ensures
            memo@ == Map::<Seq<char>, Seq<Seq<char>>>::empty(),
    {
        let memo = Memo { chains: StringHashMap::new() };
        assert(memo@ =~= Map::<Seq<char>, Seq<Seq<char>>>::empty());
        memo
    }

    /// Whether every chain in the table is the one that the search over
    /// `index` towards `target` finds from the first word of its signature.
    pub open spec fn settled(&self, index: WordTable, target: Multiset<char>) -> bool {
        forall|key: Seq<char>| #[trigger]
            self@.contains_key(key) ==> is_settled(index, target, key, self@[key])
    }

    /// The chain held under `key`, if there is one.
    pub fn cached(&self, key: &str) -> (found: Option<&Vec<String>>)
        ensures
            match found {
                Some(chain) => self@.contains_key(key@) && word_views(chain@) == self@[key@],
                None => !self@.contains_key(key@),
            },
    {
        self.chains.get(key)
    }

    /// Puts `chain` under `key`, in place of what was there.
    pub fn store(&mut self, key: String, chain: Vec<String>)
        ensures
            final(self)@ == old(self)@.insert(key@, word_views(chain@)),
    {
        self.chains.insert(key, chain);
        assert(self@ =~= old(self)@.insert(key@, word_views(chain@)));
    }
}

/// The signatures under which the table holds a chain once the search from
/// the letters `used` is through, where it held chains under `held` before:
/// nothing new where `used` has a chain already; else the signature of
/// `used` and what the searches from there on bring.
pub open spec fn keys_after(
    index: WordTable,
    target: Multiset<char>,
    held: Set<Seq<char>>,
    used: Multiset<char>,
) -> Set<Seq<char>>
    decreases room(target, used), letter_codes() + 1,
{
    if held.contains(counts_signature(used)) {
        held
    } else {
        keys_from(index, target, held, used, 0).insert(counts_signature(used))
    }
}

/// The signatures under which the table holds a chain once the letters from
/// `code` on are tried on `used`, where it held chains under `held` before.
pub open spec fn keys_from(
    index: WordTable,
    target: Multiset<char>,
    held: Set<Seq<char>>,
    used: Multiset<char>,
    code: int,
) -> Set<Seq<char>>
    decreases room(target, used), letter_codes() - code,
{
    if code >= letter_codes() {
        held
    } else {
        let letter = code as char;
        if is_letter_code(code) && can_extend(index, target, used, letter) {
            proof {
                lemma_room_shrinks(target, used, letter);
            }
            keys_from(
                index,
                target,
                keys_after(index, target, held, used.insert(letter)),
                used,
                code + 1,
            )
        } else {
            keys_from(index, target, held, used, code + 1)
        }
    }
}

/// Letters that cannot be added bring nothing into the table.
pub proof fn lemma_pass_over_keys(
    index: WordTable,
    target: Multiset<char>,
    held: Set<Seq<char>>,
    used: Multiset<char>,
    from: int,
    to: int,
)
    requires
        from <= to <= letter_codes(),
        forall|letter: char|
            from <= code_of(letter) && code_of(letter) < to ==> !can_extend(
                index,
                target,
                used,
                letter,
            ),
    ensures
        keys_from(index, target, held, used, from) == keys_from(index, target, held, used, to),
    decreases to - from,
{
    if from < to {
        if is_letter_code(from) {
            let letter = from as char;
            assert(code_of(letter) == from);
            assert(!can_extend(index, target, used, letter));
        }
        lemma_pass_over_keys(index, target, held, used, from + 1, to);
    }
}

/// The code point from which the letters are tried once the first `i` of
/// `letters` are through.
spec fn tried_up_to(letters: Seq<char>, i: int) -> int {
    if i == 0 {
        0
    } else {
        code_of(letters[i - 1]) + 1
    }
}

/// The code point of the letter that is tried next after the first `i` of
/// `letters`; past all code points where none is left.
spec fn tried_next(letters: Seq<char>, i: int) -> int {
    if i < letters.len() {
        code_of(letters[i])
    } else {
        letter_codes()
    }
}

/// Between one letter of the pool and the next there is no letter that could
/// be added.
proof fn lemma_none_between(
    index: WordTable,
    target: Multiset<char>,
    used: Multiset<char>,
    letters: Seq<char>,
    i: int,
)
    requires
        0 <= i <= letters.len(),
        forall|a: int, b: int| 0 <= a < b < letters.len() ==> letters[a] < letters[b],
        forall|letter: char| letters.contains(letter) <==> target.count(letter) > 0,
    ensures
        0 <= tried_up_to(letters, i) <= tried_next(letters, i) <= letter_codes(),
        forall|letter: char|
            tried_up_to(letters, i) <= code_of(letter) && code_of(letter) < tried_next(letters, i)
                ==> !can_extend(index, target, used, letter),
{
    if i > 0 {
        lemma_letter_codes(letters[i - 1]);
    }
    if i < letters.len() {
        lemma_letter_codes(letters[i]);
    }
    assert forall|letter: char|
        tried_up_to(letters, i) <= code_of(letter) && code_of(letter) < tried_next(
            letters,
            i,
        ) implies !can_extend(index, target, used, letter) by {
        if target.count(letter) > 0 {
            assert(letters.contains(letter));
            let k = choose|k: int| 0 <= k < letters.len() && letters[k] == letter;
            if k < i {
                assert(letters[k] <= letters[i - 1]);
            } else {
                assert(letters[i] <= letters[k]);
            }
        }
    }
}

/// The longest chain that starts with `current`, whose letters are
/// `used_letters`, and grows by one letter of the pool `target_letters` per
/// word. A chain already held in `memo` for the signature of `current` is
/// handed back as it is; any other is found by trying every letter that can
/// be added, and is then put into `memo`.
pub fn find_chain(
    current: &str,
    used_letters: LetterCounts,
    target_letters: &LetterCounts,
    anagram_index: &AnagramIndex,
    memo: &mut Memo,
) -> (chain: Vec<String>)
    requires
        used_letters@ == letter_counts(current@),
        old(memo).settled(anagram_index@, target_letters@),
    ensures
        word_views(chain@) == if old(memo)@.contains_key(signature(current@)) {
            old(memo)@[signature(current@)]
        } else {
            chain_from(anagram_index@, target_letters@, current@)
        },
        final(memo)@.dom() == keys_after(
            anagram_index@,
            target_letters@,
            old(memo)@.dom(),
            used_letters@,
        ),
        old(memo)@.submap_of(final(memo)@),
        old(memo)@.contains_key(signature(current@)) ==> final(memo)@ == old(memo)@,
        final(memo)@.contains_key(signature(current@)),
        final(memo)@[signature(current@)] == word_views(chain@),
        forall|key: Seq<char>| #[trigger]
            final(memo)@.contains_key(key) && key != signature(current@) ==> is_settled(
                anagram_index@,
                target_letters@,
                key,
                final(memo)@[key],
            ),
        bucket(anagram_index@, signature(current@)).len() > 0 && bucket(
            anagram_index@,
            signature(current@),
        )[0] == current@ ==> final(memo).settled(anagram_index@, target_letters@),
    decreases room(target_letters@, used_letters@),
{
    let ghost index = anagram_index@;
    let ghost target = target_letters@;
    let ghost used = used_letters@;
    let ghost held = old(memo)@.dom();
    let key = sorted_letters(current);
    proof {
        lemma_counts_signature(current@);
    }
    match memo.cached(key.as_str()) {
        Some(cached) => {
            return copy_words(cached);
        },
        None => {},
    }
    let here = current.to_owned();
    if used_letters.same_as(target_letters) {
        let chain = vec![here];
        memo.store(key, copy_words(&chain));
        proof {
            lemma_no_tail_at_target(index, target);
            lemma_pass_over_keys(index, target, held, target, 0, letter_codes());
            assert(word_views(chain@) =~= chain_from(index, target, current@));
            assert(memo@.dom() =~= held.insert(key@));
        }
        return chain;
    }
    let letters = target_letters.distinct_letters();
    let mut longest: Vec<String> = Vec::new();
    let mut i: usize = 0;
    assert(word_views(longest@) =~= Seq::<Seq<char>>::empty());
    while i < letters.len()
        invariant
            i <= letters.len(),
            index == anagram_index@,
            target == target_letters@,
            used == used_letters@,
            used == letter_counts(current@),
            here@ == current@,
            forall|a: int, b: int| 0 <= a < b < letters@.len() ==> letters@[a] < letters@[b],
            forall|letter: char| letters@.contains(letter) <==> target.count(letter) > 0,
            longest_tail(index, target, used) == longest_from(
                index,
                target,
                used,
                tried_up_to(letters@, i as int),
                word_views(longest@),
            ),
            keys_from(index, target, held, used, 0) == keys_from(
                index,
                target,
                memo@.dom(),
                used,
                tried_up_to(letters@, i as int),
            ),
            held == old(memo)@.dom(),
            memo.settled(index, target),
            old(memo)@.submap_of(memo@),
        decreases letters.len() - i,
    {
        let letter = letters[i];
        let ghost from = tried_up_to(letters@, i as int);
        let ghost before = word_views(longest@);
        proof {
            lemma_letter_codes(letter);
            lemma_none_between(index, target, used, letters@, i as int);
            lemma_pass_over(index, target, used, from, code_of(letter), before);
            lemma_pass_over_keys(index, target, memo@.dom(), used, from, code_of(letter));
        }
        let ghost held_before = memo@.dom();
        if used_letters.count(letter) < target_letters.count(letter) {
            let next_letters = used_letters.with_letter(letter);
            let next_key = next_letters.signature();
            let words = anagram_index.lookup(next_key.as_str());
            let ghost through = tail_through(index, target, used, letter);
            let mut j: usize = 0;
            proof {
                lemma_room_shrinks(target, used, letter);
            }
            while j < words.len()
                invariant
                    j <= words.len(),
                    index == anagram_index@,
                    target == target_letters@,
                    used == used_letters@,
                    used == letter_counts(current@),
                    here@ == current@,
                    index_wf(index),
                    used.count(letter) < target.count(letter),
                    next_letters@ == used.insert(letter),
                    next_key@ == counts_signature(next_letters@),
                    word_views(words@) == next_bucket(index, used, letter),
                    through == tail_through(index, target, used, letter),
                    room(target, next_letters@) < room(target, used),
                    word_views(longest@) == if j > 0 && through.len() > before.len() {
                        through
                    } else {
                        before
                    },
                    j > 0 ==> memo@.contains_key(next_key@),
                    memo@.dom() == if j > 0 {
                        keys_after(index, target, held_before, next_letters@)
                    } else {
                        held_before
                    },
                    memo.settled(index, target),
                    old(memo)@.submap_of(memo@),
                decreases words.len() - j,
            {
                let word = &words[j];
                let ghost table = memo@;
                proof {
                    assert(word_views(words@)[j as int] == word@);
                    lemma_filed_word_counts(index, next_letters@, j as int);
                    lemma_filed_word_counts(index, next_letters@, 0);
                    assert(signature(word@) == next_key@);
                    assert(word@ != current@) by {
                        broadcast use vstd::multiset::group_multiset_axioms;

                        assert(used.insert(letter).count(letter) == used.count(letter) + 1);
                    }
                }
                if *word != here {
                    let chain = find_chain(
                        word.as_str(),
                        next_letters.clone(),
                        target_letters,
                        anagram_index,
                        memo,
                    );
                    proof {
                        let first = next_bucket(index, used, letter)[0];
                        assert(through == chain_from(index, target, first));
                        assert(word_views(chain@) == through);
                        assert(is_settled(index, target, next_key@, word_views(chain@)));
                        assert(memo.settled(index, target));
                        assert(old(memo)@.submap_of(memo@)) by {
                            assert forall|key: Seq<char>| #[trigger]
                                old(memo)@.dom().contains(key) implies memo@.dom().contains(key)
                                && old(memo)@[key] == memo@[key] by {
                                assert(table.dom().contains(key));
                            }
                        }
                    }
                    if chain.len() > longest.len() {
                        longest = chain;
                    }
                }
                j += 1;
            }
        }
        i += 1;
    }
    proof {
        let from = tried_up_to(letters@, i as int);
        lemma_none_between(index, target, used, letters@, i as int);
        lemma_pass_over(index, target, used, from, letter_codes(), word_views(longest@));
        lemma_pass_over_keys(index, target, memo@.dom(), used, from, letter_codes());
    }
    let mut chain = vec![here];
    chain.append(&mut longest);
    memo.store(key, copy_words(&chain));
    proof {
        assert(word_views(chain@) =~= chain_from(index, target, current@));
        assert(memo@.dom() =~= keys_from(index, target, held, used, 0).insert(key@));
    }
    chain
}

} // verus!
