//! Word chains: what a chain is, and which chain the search finds.

use crate::index::{bucket, index_wf, lemma_filed_word_counts, WordTable};
use crate::letters::{counts_signature, lemma_counts_signature, letter_counts, signature};
use vstd::multiset::Multiset;
use vstd::prelude::*;

verus! {

/// One more than the largest code point a letter can have.
pub open spec fn letter_codes() -> int {
    0x11_0000
}

/// The code point of a letter.
pub open spec fn code_of(letter: char) -> int {
    letter as int
}

/// Whether `code` is the code point of a letter.
pub open spec fn is_letter_code(code: int) -> bool {
    0 <= code <= 0xD7FF || 0xE000 <= code <= 0x10_FFFF
}

/// Every letter has a code point of its own, and every such code point is
/// that of one letter.
pub proof fn lemma_letter_codes(letter: char)
    ensures
        is_letter_code(code_of(letter)),
        0 <= code_of(letter) < letter_codes(),
        code_of(letter) as char == letter,
{
}

/// How many more letters may be added to `used` before the pool `target` is
/// exhausted.
pub open spec fn room(target: Multiset<char>, used: Multiset<char>) -> nat {
    target.sub(used).len()
}

/// The dictionary words spelled with the letters `used` and one more `letter`.
pub open spec fn next_bucket(index: WordTable, used: Multiset<char>, letter: char) -> Seq<
    Seq<char>,
> {
    bucket(index, counts_signature(used.insert(letter)))
}

/// Whether a chain can go on from `used` by adding `letter`: the pool has one
/// to spare, and the dictionary has a word for the result.
pub open spec fn can_extend(
    index: WordTable,
    target: Multiset<char>,
    used: Multiset<char>,
    letter: char,
) -> bool {
    used.count(letter) < target.count(letter) && next_bucket(index, used, letter).len() > 0
}

/// Adding a letter that the pool has to spare leaves less room.
pub proof fn lemma_room_shrinks(target: Multiset<char>, used: Multiset<char>, letter: char)
    requires
        used.count(letter) < target.count(letter),
    ensures
        room(target, used.insert(letter)) + 1 == room(target, used),
{
    broadcast use vstd::multiset::group_multiset_axioms;

    let less = target.sub(used.insert(letter));
    assert(target.sub(used) =~= less.insert(letter));
}

/// The longest continuation of a chain whose last word has the letters
/// `used`: the words that follow that word, none where nothing can follow.
///
/// Among the letters that can be added, the one that leads to the longest
/// continuation is taken, and of several such the smallest; the word that
/// follows is the first one filed under the new signature.
pub open spec fn longest_tail(index: WordTable, target: Multiset<char>, used: Multiset<char>) -> Seq<
    Seq<char>,
>
    decreases room(target, used), letter_codes() + 1,
{
    longest_from(index, target, used, 0, Seq::empty())
}

/// The longest continuation found when the letters from `code` on are tried
/// in ascending order and `best` is the longest found before: a later one
/// replaces an earlier one only where it is strictly longer.
pub open spec fn longest_from(
    index: WordTable,
    target: Multiset<char>,
    used: Multiset<char>,
    code: int,
    best: Seq<Seq<char>>,
) -> Seq<Seq<char>>
    decreases room(target, used), letter_codes() - code,
{
    if code >= letter_codes() {
        best
    } else {
        let letter = code as char;
        if is_letter_code(code) && can_extend(index, target, used, letter) {
            proof {
                lemma_room_shrinks(target, used, letter);
            }
            let found = seq![next_bucket(index, used, letter)[0]] + longest_tail(
                index,
                target,
                used.insert(letter),
            );
            longest_from(
                index,
                target,
                used,
                code + 1,
                if found.len() > best.len() {
                    found
                } else {
                    best
                },
            )
        } else {
            longest_from(index, target, used, code + 1, best)
        }
    }
}

/// The continuation that adding `letter` to `used` leads to: the first word
/// filed under the new signature, then the longest continuation from there.
pub open spec fn tail_through(
    index: WordTable,
    target: Multiset<char>,
    used: Multiset<char>,
    letter: char,
) -> Seq<Seq<char>> {
    seq![next_bucket(index, used, letter)[0]] + longest_tail(index, target, used.insert(letter))
}

/// The chain that the search finds from `start`: `start`, then the longest
/// continuation that dictionary and pool allow.
pub open spec fn chain_from(index: WordTable, target: Multiset<char>, start: Seq<char>) -> Seq<
    Seq<char>,
> {
    seq![start] + longest_tail(index, target, letter_counts(start))
}

/// Whether `next` is `word` with one more `letter`: a letter that the pool
/// has to spare, and a dictionary word for the result.
pub open spec fn adds_letter(
    index: WordTable,
    target: Multiset<char>,
    word: Seq<char>,
    next: Seq<char>,
    letter: char,
) -> bool {
    &&& letter_counts(next) == letter_counts(word).insert(letter)
    &&& letter_counts(word).count(letter) < target.count(letter)
    &&& bucket(index, signature(next)).contains(next)
}

/// Whether `next` may follow `word` in a chain.
pub open spec fn is_step(
    index: WordTable,
    target: Multiset<char>,
    word: Seq<char>,
    next: Seq<char>,
) -> bool {
    exists|letter: char| adds_letter(index, target, word, next, letter)
}

/// Whether `chain` is a chain: at least one word, and each further word
/// follows the one before it.
pub open spec fn is_chain(index: WordTable, target: Multiset<char>, chain: Seq<Seq<char>>) -> bool {
    &&& chain.len() > 0
    &&& forall|i: int|
        #![trigger chain[i]]
        0 <= i < chain.len() - 1 ==> is_step(index, target, chain[i], chain[i + 1])
}

/// Whether `next` has the letters of `word` and one more.
pub open spec fn grows_by_a_letter(word: Seq<char>, next: Seq<char>) -> bool {
    exists|letter: char| letter_counts(next) == letter_counts(word).insert(letter)
}

/// Letters that cannot be added are passed over.
pub proof fn lemma_pass_over(
    index: WordTable,
    target: Multiset<char>,
    used: Multiset<char>,
    from: int,
    to: int,
    best: Seq<Seq<char>>,
)
    requires
        from <= to <= letter_codes(),
        forall|letter: char|
            from <= code_of(letter) && code_of(letter) < to ==> !can_extend(
                index,
                target,
                used,
                letter,
            ),
    ensures
        longest_from(index, target, used, from, best) == longest_from(
            index,
            target,
            used,
            to,
            best,
        ),
    decreases to - from,
{
    if from < to {
        if is_letter_code(from) {
            let letter = from as char;
            assert(code_of(letter) == from);
            assert(!can_extend(index, target, used, letter));
        }
        lemma_pass_over(index, target, used, from + 1, to, best);
    }
}

/// Where the pool is used up, nothing can follow.
pub proof fn lemma_no_tail_at_target(index: WordTable, target: Multiset<char>)
    ensures
        longest_tail(index, target, target).len() == 0,
{
    lemma_pass_over(index, target, target, 0, letter_codes(), Seq::empty());
}

/// What trying the letters from `code` on arrives at: either `best` stays, or
/// a continuation through one of these letters replaces it; nothing through
/// one of these letters is longer than the outcome.
pub proof fn lemma_longest_from(
    index: WordTable,
    target: Multiset<char>,
    used: Multiset<char>,
    code: int,
    best: Seq<Seq<char>>,
)
    ensures
        ({
            let found = longest_from(index, target, used, code, best);
            &&& best.len() <= found.len()
            &&& found == best || exists|letter: char|
                code <= code_of(letter) && can_extend(index, target, used, letter) && found
                    == #[trigger] tail_through(index, target, used, letter)
            &&& forall|letter: char|
                code <= code_of(letter) && can_extend(index, target, used, letter)
                    ==> (#[trigger] tail_through(index, target, used, letter)).len()
                    <= found.len()
        }),
    decreases letter_codes() - code,
{
    let found = longest_from(index, target, used, code, best);
    if code < letter_codes() {
        let letter = code as char;
        let tried = is_letter_code(code) && can_extend(index, target, used, letter);
        let through = tail_through(index, target, used, letter);
        let next = if tried && through.len() > best.len() {
            through
        } else {
            best
        };
        assert(found == longest_from(index, target, used, code + 1, next));
        lemma_longest_from(index, target, used, code + 1, next);
        if is_letter_code(code) {
            assert(code_of(letter) == code);
        }
        assert forall|other: char|
            code <= code_of(other) && can_extend(index, target, used, other) implies (
        #[trigger] tail_through(index, target, used, other)).len() <= found.len() by {
            lemma_letter_codes(other);
        }
        if found != best {
            if found == next {
                assert(found == tail_through(index, target, used, letter));
            } else {
                let later = choose|later: char|
                    code + 1 <= code_of(later) && can_extend(index, target, used, later) && found
                        == #[trigger] tail_through(index, target, used, later);
                assert(code <= code_of(later));
            }
        }
    } else {
        assert forall|other: char| code <= code_of(other) implies !can_extend(
            index,
            target,
            used,
            other,
        ) by {
            lemma_letter_codes(other);
        }
    }
}

/// The longest continuation goes through a letter that can be added, unless
/// none can; and no continuation through such a letter is longer.
pub proof fn lemma_longest_tail(index: WordTable, target: Multiset<char>, used: Multiset<char>)
    ensures
        ({
            let tail = longest_tail(index, target, used);
            &&& tail.len() == 0 || exists|letter: char|
                can_extend(index, target, used, letter) && tail == #[trigger] tail_through(
                    index,
                    target,
                    used,
                    letter,
                )
            &&& forall|letter: char|
                can_extend(index, target, used, letter) ==> (#[trigger] tail_through(
                    index,
                    target,
                    used,
                    letter,
                )).len() <= tail.len()
        }),
{
    lemma_longest_from(index, target, used, 0, Seq::empty());
    let tail = longest_tail(index, target, used);
    assert forall|letter: char| can_extend(index, target, used, letter) implies (
    #[trigger] tail_through(index, target, used, letter)).len() <= tail.len() by {
        lemma_letter_codes(letter);
    }
}

/// A chain stays a chain with a word put before it that its first word may
/// follow.
pub proof fn lemma_chain_prepend(
    index: WordTable,
    target: Multiset<char>,
    word: Seq<char>,
    chain: Seq<Seq<char>>,
)
    requires
        is_chain(index, target, chain),
        is_step(index, target, word, chain[0]),
    ensures
        is_chain(index, target, seq![word] + chain),
{
    let longer = seq![word] + chain;
    assert forall|i: int| #![trigger longer[i]] 0 <= i < longer.len() - 1 implies is_step(
        index,
        target,
        longer[i],
        longer[i + 1],
    ) by {
        if i > 0 {
            assert(longer[i] == chain[i - 1]);
            assert(longer[i + 1] == chain[i - 1 + 1]);
        }
    }
}

/// A chain of several words stays a chain without its first word.
pub proof fn lemma_chain_rest(index: WordTable, target: Multiset<char>, chain: Seq<Seq<char>>)
    requires
        is_chain(index, target, chain),
        chain.len() > 1,
    ensures
        is_chain(index, target, chain.drop_first()),
{
    let rest = chain.drop_first();
    assert forall|i: int| #![trigger rest[i]] 0 <= i < rest.len() - 1 implies is_step(
        index,
        target,
        rest[i],
        rest[i + 1],
    ) by {
        assert(rest[i] == chain[i + 1]);
        assert(rest[i + 1] == chain[i + 1 + 1]);
    }
}

/// Along a chain the words grow by one letter each, and stay within the pool
/// if the first word is within it.
pub proof fn lemma_chain_counts(
    index: WordTable,
    target: Multiset<char>,
    chain: Seq<Seq<char>>,
    i: int,
)
    requires
        is_chain(index, target, chain),
        0 <= i < chain.len(),
    ensures
        chain[i].len() == chain[0].len() + i,
        letter_counts(chain[0]).subset_of(target) ==> letter_counts(chain[i]).subset_of(target),
    decreases i,
{
    broadcast use vstd::multiset::group_multiset_axioms;

    if i > 0 {
        lemma_chain_counts(index, target, chain, i - 1);
        assert(is_step(index, target, chain[i - 1], chain[i - 1 + 1]));
        let word = chain[i - 1];
        let next = chain[i];
        let letter = choose|letter: char| adds_letter(index, target, word, next, letter);
        chain[i].to_multiset_ensures();
        chain[i - 1].to_multiset_ensures();
    }
}

/// What the search finds is a chain: every word after the first is a
/// dictionary word with the letters of the word before it and one more
/// letter, which the pool had to spare.
pub proof fn lemma_found_is_chain(index: WordTable, target: Multiset<char>, start: Seq<char>)
    requires
        index_wf(index),
    ensures
        is_chain(index, target, chain_from(index, target, start)),
        chain_from(index, target, start)[0] == start,
    decreases room(target, letter_counts(start)),
{
    let used = letter_counts(start);
    let tail = longest_tail(index, target, used);
    lemma_longest_tail(index, target, used);
    if tail.len() > 0 {
        let letter = choose|letter: char|
            can_extend(index, target, used, letter) && tail == #[trigger] tail_through(
                index,
                target,
                used,
                letter,
            );
        let first = next_bucket(index, used, letter)[0];
        lemma_filed_word_counts(index, used.insert(letter), 0);
        lemma_room_shrinks(target, used, letter);
        lemma_found_is_chain(index, target, first);
        assert(tail == chain_from(index, target, first));
        assert(adds_letter(index, target, start, first, letter));
        lemma_chain_prepend(index, target, start, tail);
    }
}

/// No chain is longer than what the search finds from its first word.
pub proof fn lemma_found_is_longest(index: WordTable, target: Multiset<char>, chain: Seq<Seq<char>>)
    requires
        is_chain(index, target, chain),
    ensures
        chain.len() <= chain_from(index, target, chain[0]).len(),
    decreases chain.len(),
{
    if chain.len() > 1 {
        let used = letter_counts(chain[0]);
        let letter = choose|letter: char| adds_letter(index, target, chain[0], chain[1], letter);
        lemma_chain_rest(index, target, chain);
        lemma_found_is_longest(index, target, chain.drop_first());
        lemma_counts_signature(chain[1]);
        assert(can_extend(index, target, used, letter));
        lemma_longest_tail(index, target, used);
        assert(tail_through(index, target, used, letter).len() <= longest_tail(
            index,
            target,
            used,
        ).len());
    }
}

/// In what the search finds, each word has the letters of the word before it
/// and exactly one more, and so differs from it.
pub proof fn lemma_found_grows_by_a_letter(
    index: WordTable,
    target: Multiset<char>,
    start: Seq<char>,
    i: int,
)
    requires
        index_wf(index),
        0 <= i < chain_from(index, target, start).len() - 1,
    ensures
        grows_by_a_letter(
            chain_from(index, target, start)[i],
            chain_from(index, target, start)[i + 1],
        ),
        chain_from(index, target, start)[i + 1] != chain_from(index, target, start)[i],
{
    broadcast use vstd::multiset::group_multiset_axioms;

    let chain = chain_from(index, target, start);
    lemma_found_is_chain(index, target, start);
    assert(is_step(index, target, chain[i], chain[i + 1]));
    let word = chain[i];
    let next = chain[i + 1];
    let letter = choose|letter: char| adds_letter(index, target, word, next, letter);
    assert(letter_counts(next).count(letter) == letter_counts(word).count(letter) + 1);
}

/// A continuation is no longer than the room that is left.
pub proof fn lemma_tail_fits_room(index: WordTable, target: Multiset<char>, used: Multiset<char>)
    ensures
        longest_tail(index, target, used).len() <= room(target, used),
    decreases room(target, used),
{
    let tail = longest_tail(index, target, used);
    lemma_longest_tail(index, target, used);
    if tail.len() > 0 {
        let letter = choose|letter: char|
            can_extend(index, target, used, letter) && tail == #[trigger] tail_through(
                index,
                target,
                used,
                letter,
            );
        lemma_room_shrinks(target, used, letter);
        lemma_tail_fits_room(index, target, used.insert(letter));
    }
}

/// What the search finds has at most one word more than the pool has letters
/// beyond those of the start word.
pub proof fn lemma_found_length_bound(index: WordTable, target: Multiset<char>, start: Seq<char>)
    ensures
        chain_from(index, target, start).len() <= room(target, letter_counts(start)) + 1,
        letter_counts(start).subset_of(target) ==> chain_from(index, target, start).len()
            <= target.len() - start.len() + 1,
{
    broadcast use vstd::multiset::group_multiset_axioms;

    lemma_tail_fits_room(index, target, letter_counts(start));
    start.to_multiset_ensures();
}

/// Where any chain from the start word uses up the pool, so does what the
/// search finds: its last word has exactly the letters of the pool.
pub proof fn lemma_found_reaches_target(
    index: WordTable,
    target: Multiset<char>,
    chain: Seq<Seq<char>>,
)
    requires
        index_wf(index),
        is_chain(index, target, chain),
        letter_counts(chain[0]).subset_of(target),
        letter_counts(chain.last()) == target,
    ensures
        letter_counts(chain_from(index, target, chain[0]).last()) == target,
{
    broadcast use vstd::multiset::group_multiset_axioms;

    let start = chain[0];
    let found = chain_from(index, target, start);
    lemma_found_is_chain(index, target, start);
    lemma_found_is_longest(index, target, chain);
    lemma_found_length_bound(index, target, start);
    lemma_chain_counts(index, target, chain, chain.len() - 1);
    lemma_chain_counts(index, target, found, found.len() - 1);
    chain.last().to_multiset_ensures();
    found.last().to_multiset_ensures();
    let reached = letter_counts(found.last());
    assert(reached.len() == target.len());
    assert(target.sub(reached).len() == 0);
    vstd::multiset::lemma_multiset_empty_len(target.sub(reached));
    assert forall|letter: char| reached.count(letter) == target.count(letter) by {
        assert(target.sub(reached).count(letter) == 0);
    }
    assert(reached =~= target);
}

} // verus!
