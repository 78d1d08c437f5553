//! Word lists: from a text with one word per line to the words of a
//! dictionary.

use crate::index::word_views;
use crate::letters::push_letter;
use vstd::hash_set::StringHashSet;
use vstd::prelude::*;
use vstd::seq_lib::lemma_seq_contains_after_push;

verus! {

/// What `str::trim` makes of a text.
pub uninterp spec fn trimmed(text: Seq<char>) -> Seq<char>;

/// What `str::to_lowercase` makes of a text.
pub uninterp spec fn lowercase(text: Seq<char>) -> Seq<char>;

/// Whether `char::is_alphabetic` holds of a character.
pub uninterp spec fn is_alphabetic(letter: char) -> bool;

/// Removes the whitespace at both ends of `text`, by `str::trim`. The result
/// is a function of the characters of `text` alone; it is known here by its
/// name, `trimmed`.
#[verifier::external_body]
fn trim(text: &str) -> (inner: &str)
    ensures
        inner@ == trimmed(text@),
{
    text.trim()
}

/// Turns `text` into lower case, by `str::to_lowercase`. The result is a
/// function of the characters of `text` alone; it is known here by its name,
/// `lowercase`.
#[verifier::external_body]
fn to_lowercase(text: &str) -> (lower: String)
    ensures
        lower@ == lowercase(text@),
{
    text.to_lowercase()
}

/// Asks `char::is_alphabetic` whether `letter` is alphabetic. The answer is a
/// function of `letter` alone; it is known here by its name, `is_alphabetic`.
#[verifier::external_body]
fn alphabetic(letter: char) -> (yes: bool)
    ensures
        yes == is_alphabetic(letter),
{
    letter.is_alphabetic()
}

/// The form in which a word is looked up: without whitespace around it, in
/// lower case.
pub open spec fn normal_form(text: Seq<char>) -> Seq<char> {
    lowercase(trimmed(text))
}

/// Whether every character of `token` is alphabetic.
pub open spec fn all_alphabetic(token: Seq<char>) -> bool {
    forall|i: int| 0 <= i < token.len() ==> is_alphabetic(#[trigger] token[i])
}

/// Whether a line holds a word: something is left of it without the
/// whitespace around it, and that is alphabetic throughout in lower case.
pub open spec fn holds_word(line: Seq<char>) -> bool {
    trimmed(line).len() > 0 && all_alphabetic(normal_form(line))
}

/// The lines of a text: what stands between its line feeds. A text without a
/// line feed is one line; the last line is what follows the last line feed.
pub open spec fn lines_of(text: Seq<char>) -> Seq<Seq<char>>
    decreases text.len(),
{
    if text.len() == 0 {
        seq![Seq::empty()]
    } else {
        let before = lines_of(text.drop_last());
        if text.last() == '\n' {
            before.push(Seq::empty())
        } else {
            before.drop_last().push(before.last().push(text.last()))
        }
    }
}

/// The words that the lines hold, in normal form and in the order of the
/// lines.
pub open spec fn words_on(lines: Seq<Seq<char>>) -> Seq<Seq<char>> {
    lines.filter(|line: Seq<char>| holds_word(line)).map_values(
        |line: Seq<char>| normal_form(line),
    )
}

/// The tokens without repeats: each one where it occurs first.
pub open spec fn once_each(tokens: Seq<Seq<char>>) -> Seq<Seq<char>>
    decreases tokens.len(),
{
    if tokens.len() == 0 {
        Seq::empty()
    } else {
        let before = once_each(tokens.drop_last());
        if before.contains(tokens.last()) {
            before
        } else {
            before.push(tokens.last())
        }
    }
}

/// The word list that a text with one word per line spells out.
pub open spec fn wordlist_of(content: Seq<char>) -> Seq<Seq<char>> {
    once_each(words_on(lines_of(content)))
}

/// A text has at least one line.
pub proof fn lemma_lines_nonempty(text: Seq<char>)
    ensures
        lines_of(text).len() > 0,
    decreases text.len(),
{
    if text.len() > 0 {
        lemma_lines_nonempty(text.drop_last());
    }
}

/// The text whose lines are `lines`: the lines with a line feed between each
/// two of them.
pub open spec fn joined(lines: Seq<Seq<char>>) -> Seq<char>
    decreases lines.len(),
{
    if lines.len() == 0 {
        Seq::empty()
    } else if lines.len() == 1 {
        lines[0]
    } else {
        joined(lines.drop_last()) + seq!['\n'] + lines.last()
    }
}

/// No line holds a line feed, and the lines of a text, joined, are the text.
pub proof fn lemma_lines_join(text: Seq<char>)
    ensures
        forall|i: int, k: int|
            0 <= i < lines_of(text).len() && 0 <= k < lines_of(text)[i].len() ==> (
            #[trigger] lines_of(text)[i][k]) != '\n',
        joined(lines_of(text)) == text,
    decreases text.len(),
{
    if text.len() > 0 {
        let read = text.drop_last();
        let before = lines_of(read);
        let lines = lines_of(text);
        lemma_lines_join(read);
        lemma_lines_nonempty(read);
        assert(read.push(text.last()) == text);
        if text.last() == '\n' {
            assert(lines.drop_last() == before);
            assert(joined(lines) =~= joined(before) + seq!['\n'] + Seq::<char>::empty());
        } else {
            let last = before.last().push(text.last());
            assert(lines.last() == last);
            if before.len() == 1 {
                assert(joined(lines) =~= joined(before).push(text.last()));
            } else {
                assert(lines.drop_last() == before.drop_last());
                assert(joined(lines) =~= (joined(before.drop_last()) + seq!['\n']
                    + before.last()).push(text.last()));
            }
        }
    }
}

/// Without repeats, nothing occurs twice, and nothing is lost or added.
pub proof fn lemma_once_each(tokens: Seq<Seq<char>>)
    ensures
        once_each(tokens).no_duplicates(),
        forall|token: Seq<char>|
            #![trigger once_each(tokens).contains(token)]
            #![trigger tokens.contains(token)]
            once_each(tokens).contains(token) <==> tokens.contains(token),
    decreases tokens.len(),
{
    if tokens.len() > 0 {
        let fewer = tokens.drop_last();
        let last = tokens.last();
        lemma_once_each(fewer);
        assert(fewer.push(last) == tokens);
        assert forall|token: Seq<char>|
            once_each(tokens).contains(token) <==> tokens.contains(token) by {
            lemma_seq_contains_after_push(fewer, last, token);
            lemma_seq_contains_after_push(once_each(fewer), last, token);
        }
    }
}

/// Every word of a word list is alphabetic throughout, and none occurs twice.
pub proof fn lemma_wordlist_words(content: Seq<char>)
    ensures
        wordlist_of(content).no_duplicates(),
        forall|i: int|
            0 <= i < wordlist_of(content).len() ==> all_alphabetic(
                #[trigger] wordlist_of(content)[i],
            ),
{
    let lines = lines_of(content);
    let kept = lines.filter(|line: Seq<char>| holds_word(line));
    let tokens = words_on(lines);
    let words = wordlist_of(content);
    lemma_once_each(tokens);
    assert forall|i: int| 0 <= i < words.len() implies all_alphabetic(#[trigger] words[i]) by {
        assert(words.contains(words[i]));
        assert(tokens.contains(words[i]));
        let k = choose|k: int| 0 <= k < tokens.len() && tokens[k] == words[i];
        lines.lemma_filter_pred(|line: Seq<char>| holds_word(line), k);
        assert(tokens[k] == normal_form(kept[k]));
    }
}

/// One more line adds its word, if it holds one.
pub proof fn lemma_words_on_push(lines: Seq<Seq<char>>, line: Seq<char>)
    ensures
        words_on(lines.push(line)) == if holds_word(line) {
            words_on(lines).push(normal_form(line))
        } else {
            words_on(lines)
        },
{
    let keep = |line: Seq<char>| holds_word(line);
    assert(lines.push(line).drop_last() == lines);
    assert(lines.push(line).filter(keep) == if holds_word(line) {
        lines.filter(keep).push(line)
    } else {
        lines.filter(keep)
    }) by {
        reveal(Seq::filter);
    }
    if holds_word(line) {
        assert(words_on(lines.push(line)) =~= words_on(lines).push(normal_form(line)));
    }
}

/// The normal form of `text`.
pub fn normalize(text: &str) -> (normal: String)
    ensures
        normal@ == normal_form(text@),
{
    to_lowercase(trim(text))
}

/// Whether every character of `token` is alphabetic.
fn is_alphabetic_token(token: &str) -> (yes: bool)
    ensures
        yes == all_alphabetic(token@),
{
    for letter in it: token.chars()
        invariant
            it.seq() == token@,
            all_alphabetic(token@.take(it.index() as int)),
    {
        if !alphabetic(letter) {
            assert(token@[it.index() as int] == letter);
            return false;
        }
        assert(token@.take(it.index() + 1) == token@.take(it.index() as int).push(letter));
    }
    assert(token@.take(token@.len() as int) == token@);
    true
}

/// The lines of `text`.
pub fn split_lines(text: &str) -> (lines: Vec<String>)
    ensures
        word_views(lines@) == lines_of(text@),
{
    let mut lines: Vec<String> = Vec::new();
    let mut line = String::new();
    proof {
        assert(text@.take(0) =~= Seq::<char>::empty());
        assert(word_views(lines@) =~= lines_of(text@.take(0)).drop_last());
    }
    for letter in it: text.chars()
        invariant
            it.seq() == text@,
            line@ == lines_of(text@.take(it.index() as int)).last(),
            word_views(lines@) == lines_of(text@.take(it.index() as int)).drop_last(),
    {
        proof {
            let read = text@.take(it.index() as int);
            let more = text@.take(it.index() + 1);
            assert(more.drop_last() == read);
            assert(more.last() == letter);
            lemma_lines_nonempty(read);
        }
        if letter == '\n' {
            lines.push(line);
            line = String::new();
            proof {
                let read = text@.take(it.index() as int);
                assert(lines_of(read).drop_last().push(lines_of(read).last()) == lines_of(read));
                assert(word_views(lines@) =~= lines_of(read));
            }
        } else {
            push_letter(&mut line, letter);
        }
    }
    lines.push(line);
    proof {
        let all = lines_of(text@);
        assert(text@.take(text@.len() as int) == text@);
        lemma_lines_nonempty(text@);
        assert(word_views(lines@) =~= all.drop_last().push(all.last()));
    }
    lines
}

/// The word that `line` holds, in normal form, if it holds one.
pub fn word_on(line: &str) -> (word: Option<String>)
    ensures
        match word {
            Some(word) => holds_word(line@) && word@ == normal_form(line@),
            None => !holds_word(line@),
        },
{
    let inner = trim(line);
    if inner.is_empty() {
        return None;
    }
    let word = to_lowercase(inner);
    if is_alphabetic_token(word.as_str()) {
        Some(word)
    } else {
        None
    }
}

/// The tokens without repeats: each one where it occurs first.
pub fn without_repeats(tokens: Vec<String>) -> (words: Vec<String>)
    ensures
        word_views(words@) == once_each(word_views(tokens@)),
{
    let mut words: Vec<String> = Vec::new();
    let mut seen = StringHashSet::new();
    let ghost all = word_views(tokens@);
    let mut i: usize = 0;
    proof {
        assert(word_views(words@) =~= once_each(all.take(0)));
        assert(seen@ =~= word_views(words@).to_set());
    }
    while i < tokens.len()
        invariant
            i <= tokens.len(),
            all == word_views(tokens@),
            word_views(words@) == once_each(all.take(i as int)),
            seen@ == word_views(words@).to_set(),
        decreases tokens.len() - i,
    {
        let token = &tokens[i];
        proof {
            assert(all.take(i + 1).drop_last() == all.take(i as int));
            assert(all.take(i + 1).last() == token@);
        }
        if !seen.contains(token.as_str()) {
            let ghost before = word_views(words@);
            seen.insert(token.clone());
            words.push(token.clone());
            proof {
                assert(word_views(words@) =~= before.push(token@));
                before.lemma_push_to_set_commute(token@);
            }
        }
        i += 1;
    }
    assert(all.take(tokens.len() as int) == all);
    words
}

/// Reads a word list: one word per line. A line counts for what is left of it
/// without the whitespace around it, in lower case; lines that are blank or
/// hold anything but alphabetic characters are passed over, and so is a word
/// that was listed before.
pub fn load_wordlist_from_str(wordlist_content: &str) -> (words: Vec<String>)
    ensures
        word_views(words@) == wordlist_of(wordlist_content@),
        word_views(words@).no_duplicates(),
{
    let lines = split_lines(wordlist_content);
    let mut tokens: Vec<String> = Vec::new();
    let ghost all = word_views(lines@);
    let mut i: usize = 0;
    proof {
        assert(word_views(tokens@) =~= words_on(all.take(0))) by {
            reveal(Seq::filter);
        }
    }
    while i < lines.len()
        invariant
            i <= lines.len(),
            all == word_views(lines@),
            word_views(tokens@) == words_on(all.take(i as int)),
        decreases lines.len() - i,
    {
        proof {
            lemma_words_on_push(all.take(i as int), lines@[i as int]@);
            assert(all.take(i + 1) == all.take(i as int).push(lines@[i as int]@));
        }
        let ghost before = word_views(tokens@);
        match word_on(lines[i].as_str()) {
            Some(word) => {
                tokens.push(word);
                assert(word_views(tokens@) =~= before.push(word@));
            },
            None => {},
        }
        i += 1;
    }
    proof {
        assert(all.take(lines.len() as int) == all);
        lemma_wordlist_words(wordlist_content@);
    }
    without_repeats(tokens)
}

/// Whether `word` is one of `words`.
pub fn has_word(words: &Vec<String>, word: &String) -> (found: bool)
    ensures
        found == word_views(words@).contains(word@),
{
    let n = words.len();
    let mut i: usize = 0;
    while i < n
        invariant
            n == words.len(),
            i <= n,
            forall|k: int| 0 <= k < i ==> word_views(words@)[k] != word@,
        decreases n - i,
    {
        if words[i] == *word {
            assert(word_views(words@)[i as int] == word@);
            return true;
        }
        i += 1;
    }
    false
}

} // verus!
