//! The encoder: from a cover text to the number of words in each sentence.

use crate::codes::{as_nats, lemma_non_zero_push, lemma_non_zero_shape, non_zero};
use crate::error::EncodingError;
use crate::text::{is_space, is_terminator, spaces, split_at, terminators};
use crate::text::{lemma_split_at_len, lemma_split_at_push};
use vstd::prelude::*;
use vstd::utf8::{encode_utf8, is_ascii_chars, is_ascii_chars_encode_utf8};

verus! {

/// The sentences of `text`: what stands between its terminators. A text with
/// `n` terminators has `n + 1` sentences, some of which may be empty.
pub open spec fn sentences(text: Seq<char>) -> Seq<Seq<char>> {
    split_at(text, terminators())
}

/// How many of `pieces` hold at least one character.
pub open spec fn count_non_empty(pieces: Seq<Seq<char>>) -> nat
    decreases pieces.len(),
{
    if pieces.len() == 0 {
        0
    } else if pieces.last().len() == 0 {
        count_non_empty(pieces.drop_last())
    } else {
        count_non_empty(pieces.drop_last()) + 1
    }
}

/// The number of words of `sentence`: its maximal runs of characters that
/// are not whitespace.
pub open spec fn word_count(sentence: Seq<char>) -> nat {
    count_non_empty(split_at(sentence, spaces()))
}

/// Whether `sentence` ends inside a word.
pub open spec fn word_open(sentence: Seq<char>) -> bool {
    split_at(sentence, spaces()).last().len() > 0
}

/// The word count of every sentence of `text`, empty sentences included.
pub open spec fn word_counts(text: Seq<char>) -> Seq<nat> {
    Seq::new(sentences(text).len(), |k: int| word_count(sentences(text)[k]))
}

/// The encoded form of `text`: the word count of each sentence that holds a
/// word, in the order of the sentences.
pub open spec fn encoding(text: Seq<char>) -> Seq<nat> {
    non_zero(word_counts(text))
}

/// What encoding `text` gives: the encoded form, or the reason why there is
/// none.
pub open spec fn encoded(text: Seq<char>) -> Result<Seq<nat>, EncodingError> {
    if !is_ascii_chars(text) {
        Err(EncodingError::NonAsciiInput)
    } else if encoding(text).len() == 0 {
        Err(EncodingError::NoValidSentences)
    } else {
        Ok(encoding(text))
    }
}

/// The empty sentence holds no word, and the empty text is one empty
/// sentence.
pub proof fn lemma_empty_text()
    ensures
        word_count(Seq::<char>::empty()) == 0,
        !word_open(Seq::<char>::empty()),
        sentences(Seq::<char>::empty()) == seq![Seq::<char>::empty()],
        word_counts(Seq::<char>::empty()) == seq![0nat],
{
    reveal_with_fuel(count_non_empty, 2);
    assert(word_counts(Seq::<char>::empty()) =~= seq![0nat]);
}

/// Appending a character to a sentence: a whitespace character leaves the
/// word count as it is, another one begins a word unless one is under way.
pub proof fn lemma_word_count_push(sentence: Seq<char>, c: char)
    ensures
        word_count(sentence.push(c)) == if is_space(c) || word_open(sentence) {
            word_count(sentence)
        } else {
            word_count(sentence) + 1
        },
        word_open(sentence.push(c)) == !is_space(c),
{
    let before = split_at(sentence, spaces());
    let after = split_at(sentence.push(c), spaces());
    lemma_split_at_push(sentence, spaces(), c);
    lemma_split_at_len(sentence, spaces());
    if is_space(c) {
        assert(after.drop_last() =~= before);
    } else {
        assert(after.drop_last() =~= before.drop_last());
    }
}

/// Appending a character to a text: a terminator closes the last sentence
/// and opens an empty one, another character joins the last sentence.
pub proof fn lemma_word_counts_push(text: Seq<char>, c: char)
    ensures
        word_counts(text).len() > 0,
        sentences(text).len() == word_counts(text).len(),
        word_counts(text.push(c)) == if is_terminator(c) {
            word_counts(text).push(0)
        } else {
            word_counts(text).drop_last().push(word_count(sentences(text).last().push(c)))
        },
        sentences(text.push(c)).last() == if is_terminator(c) {
            Seq::<char>::empty()
        } else {
            sentences(text).last().push(c)
        },
{
    lemma_split_at_push(text, terminators(), c);
    lemma_split_at_len(text, terminators());
    lemma_empty_text();
    let before = sentences(text);
    if is_terminator(c) {
        assert(word_counts(text.push(c)) =~= word_counts(text).push(0));
    } else {
        assert(word_counts(text.push(c)) =~= word_counts(text).drop_last().push(
            word_count(before.last().push(c)),
        ));
    }
}

/// An ASCII text with a word in one of its sentences has an encoded form:
/// it is not empty, holds no zero, and is no longer than the text has
/// sentences.
pub proof fn lemma_encoded_shape(text: Seq<char>)
    requires
        is_ascii_chars(text),
        exists|k: int| 0 <= k < sentences(text).len() && word_count(#[trigger] sentences(text)[k]) > 0,
    ensures
        encoded(text) matches Ok(e) && e == encoding(text),
        encoding(text).len() > 0,
        encoding(text).len() <= sentences(text).len(),
        forall|k: int| 0 <= k < encoding(text).len() ==> #[trigger] encoding(text)[k] > 0,
{
    let k = choose|k: int|
        0 <= k < sentences(text).len() && word_count(#[trigger] sentences(text)[k]) > 0;
    assert(word_counts(text)[k] > 0);
    lemma_non_zero_shape(word_counts(text));
}

/// A text of terminators and whitespace alone has no encoded form, for want
/// of a sentence with a word.
pub proof fn lemma_no_words_no_sentences(text: Seq<char>)
    requires
        forall|i: int| 0 <= i < text.len() ==> is_terminator(#[trigger] text[i]) || is_space(text[i]),
    ensures
        encoded(text) matches Err(EncodingError::NoValidSentences),
{
    lemma_blank_text(text);
}

/// In a text of terminators and whitespace alone no sentence holds a word.
proof fn lemma_blank_text(text: Seq<char>)
    requires
        forall|i: int| 0 <= i < text.len() ==> is_terminator(#[trigger] text[i]) || is_space(text[i]),
    ensures
        is_ascii_chars(text),
        encoding(text).len() == 0,
        word_counts(text).len() > 0,
        word_counts(text).last() == 0,
        !word_open(sentences(text).last()),
    decreases text.len(),
{
    if text.len() == 0 {
        assert(text =~= Seq::<char>::empty());
        lemma_empty_text();
        lemma_non_zero_push(Seq::<nat>::empty(), 0);
        assert(Seq::<nat>::empty().push(0) =~= seq![0nat]);
    } else {
        let init = text.drop_last();
        let c = text.last();
        assert(init.push(c) =~= text);
        lemma_blank_text(init);
        lemma_word_counts_push(init, c);
        if is_terminator(c) {
            lemma_non_zero_push(word_counts(init), 0);
        } else {
            lemma_word_count_push(sentences(init).last(), c);
            assert(word_counts(text).drop_last() =~= word_counts(init).drop_last());
            assert(word_counts(init) =~= word_counts(init).drop_last().push(0));
            lemma_non_zero_push(word_counts(init).drop_last(), 0);
        }
    }
}

/// The number of words in each sentence of `txt`, for the sentences that
/// hold a word.
///
/// A sentence ends at `.`, `!` or `?`, and the words of a sentence are
/// separated by whitespace. A text with a character outside ASCII fails
/// with `NonAsciiInput`, whatever else it holds; an ASCII text without a
/// word fails with `NoValidSentences`.
pub fn encode(txt: &str) -> (res: Result<Vec<usize>, EncodingError>)
    ensures
        match res {
            Ok(counts) => encoded(txt@) matches Ok(e) && e == as_nats(counts@),
            Err(e) => encoded(txt@) matches Err(f) && f == e,
        },
        !is_ascii_chars(txt@) ==> res matches Err(EncodingError::NonAsciiInput),
        is_ascii_chars(txt@) && (exists|k: int|
            0 <= k < sentences(txt@).len() && word_count(#[trigger] sentences(txt@)[k]) > 0)
            ==> res is Ok,
        res matches Ok(counts) ==> {
            &&& 0 < counts@.len() <= sentences(txt@).len()
            &&& forall|k: int| 0 <= k < counts@.len() ==> counts@[k] > 0
        },
{
    if !txt.is_ascii() {
        return Err(EncodingError::NonAsciiInput);
    }
    let bytes = txt.as_bytes();
    proof {
        is_ascii_chars_encode_utf8(txt@);
        assert(txt@.take(0) =~= Seq::<char>::empty());
        lemma_empty_text();
        assert(seq![0nat].drop_last() =~= Seq::<nat>::empty());
    }
    let mut counts: Vec<usize> = Vec::new();
    let mut current: usize = 0;
    let mut in_word = false;
    let mut i: usize = 0;
    while i < bytes.len()
        invariant
            is_ascii_chars(txt@),
            bytes@ == encode_utf8(txt@),
            i <= bytes@.len() == txt@.len(),
            current <= i,
            word_counts(txt@.take(i as int)).len() > 0,
            as_nats(counts@) == non_zero(word_counts(txt@.take(i as int)).drop_last()),
            current == word_counts(txt@.take(i as int)).last(),
            in_word == word_open(sentences(txt@.take(i as int)).last()),
        decreases bytes.len() - i,
    {
        let c = bytes[i] as char;
        let ghost seen = txt@.take(i as int);
        let ghost closed = counts@;
        proof {
            is_ascii_chars_encode_utf8(txt@);
            assert(c == txt@[i as int]);
            assert(txt@.take(i + 1) =~= seen.push(c));
            lemma_word_counts_push(seen, c);
            lemma_word_count_push(sentences(seen).last(), c);
        }
        if c == '.' || c == '!' || c == '?' {
            if current > 0 {
                counts.push(current);
            }
            proof {
                assert(word_counts(seen) =~= word_counts(seen).drop_last().push(current as nat));
                lemma_non_zero_push(word_counts(seen).drop_last(), current as nat);
                assert(word_counts(seen.push(c)).drop_last() =~= word_counts(seen));
                if current > 0 {
                    assert(as_nats(counts@) =~= as_nats(closed).push(current as nat));
                }
            }
            current = 0;
            in_word = false;
        } else {
            proof {
                assert(word_counts(seen.push(c)).drop_last() =~= word_counts(seen).drop_last());
            }
            if c == ' ' || c == '\t' || c == '\n' || c == '\u{0b}' || c == '\u{0c}' || c == '\r' {
                in_word = false;
            } else {
                if !in_word {
                    current = current + 1;
                }
                in_word = true;
            }
        }
        i = i + 1;
    }
    let ghost closed = counts@;
    proof {
        assert(txt@.take(txt@.len() as int) =~= txt@);
        assert(word_counts(txt@) =~= word_counts(txt@).drop_last().push(current as nat));
        lemma_non_zero_push(word_counts(txt@).drop_last(), current as nat);
        lemma_non_zero_shape(word_counts(txt@));
        if exists|k: int|
            0 <= k < sentences(txt@).len() && word_count(#[trigger] sentences(txt@)[k]) > 0 {
            lemma_encoded_shape(txt@);
        }
    }
    if current > 0 {
        counts.push(current);
        proof {
            assert(as_nats(counts@) =~= as_nats(closed).push(current as nat));
        }
    }
    if counts.len() == 0 {
        return Err(EncodingError::NoValidSentences);
    }
    proof {
        assert(as_nats(counts@) =~= encoding(txt@));
        assert forall|k: int| 0 <= k < counts@.len() implies counts@[k] > 0 by {
            assert(as_nats(counts@)[k] > 0);
        }
    }
    Ok(counts)
}

} // verus!
