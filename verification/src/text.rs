//! Characters of a string, the character classes of a cover text, and
//! splitting at separators.

use vstd::prelude::*;

verus! {

/// Taken on trust, not proved: `String::push` of the standard library
/// appends the character to the end of the string and leaves what the
/// string held before as it was.
pub assume_specification[ String::push ](s: &mut String, ch: char)
    ensures
        final(s)@ == old(s)@.push(ch),
;

/// The characters that end a sentence.
pub open spec fn is_terminator(c: char) -> bool {
    c == '.' || c == '!' || c == '?'
}

/// The characters that separate words: space, tab, line feed, vertical tab,
/// form feed and carriage return.
pub open spec fn is_space(c: char) -> bool {
    c == ' ' || c == '\t' || c == '\n' || c == '\u{0b}' || c == '\u{0c}' || c == '\r'
}

/// The set of sentence terminators.
pub open spec fn terminators() -> Set<char> {
    Set::new(|c: char| is_terminator(c))
}

/// The set of whitespace characters.
pub open spec fn spaces() -> Set<char> {
    Set::new(|c: char| is_space(c))
}

/// The pieces of `s` between its separators, in order. The separators
/// themselves are left out, two separators in a row have an empty piece
/// between them, and a separator at either end has an empty piece beyond
/// it: `n` separators give `n + 1` pieces.
pub open spec fn split_at(s: Seq<char>, separators: Set<char>) -> Seq<Seq<char>>
    decreases s.len(),
{
    if s.len() == 0 {
        seq![Seq::<char>::empty()]
    } else {
        let before = split_at(s.drop_last(), separators);
        if separators.contains(s.last()) {
            before.push(Seq::<char>::empty())
        } else {
            before.drop_last().push(before.last().push(s.last()))
        }
    }
}

/// The separators that `s` holds, in order.
pub open spec fn separators_in(s: Seq<char>, separators: Set<char>) -> Seq<char>
    decreases s.len(),
{
    if s.len() == 0 {
        s
    } else if separators.contains(s.last()) {
        separators_in(s.drop_last(), separators).push(s.last())
    } else {
        separators_in(s.drop_last(), separators)
    }
}

/// The pieces in a row, with one character of `between` after each piece
/// but the last.
pub open spec fn join(pieces: Seq<Seq<char>>, between: Seq<char>) -> Seq<char>
    recommends
        pieces.len() == between.len() + 1,
    decreases pieces.len(),
{
    if pieces.len() == 0 {
        Seq::empty()
    } else if pieces.len() == 1 {
        pieces[0]
    } else {
        join(pieces.drop_last(), between.drop_last()).push(between.last()) + pieces.last()
    }
}

/// Splitting never gives no piece at all.
pub proof fn lemma_split_at_len(s: Seq<char>, separators: Set<char>)
    ensures
        split_at(s, separators).len() >= 1,
    decreases s.len(),
{
    if s.len() > 0 {
        lemma_split_at_len(s.drop_last(), separators);
    }
}

/// Appending a separator opens a new, empty piece; appending another
/// character extends the last piece.
pub proof fn lemma_split_at_push(s: Seq<char>, separators: Set<char>, c: char)
    ensures
        split_at(s.push(c), separators) == if separators.contains(c) {
            split_at(s, separators).push(Seq::<char>::empty())
        } else {
            split_at(s, separators).drop_last().push(split_at(s, separators).last().push(c))
        },
{
    assert(s.push(c).drop_last() =~= s);
}

/// Splitting takes a sequence apart at its separators and loses nothing:
/// there is one piece more than there are separators, no piece holds a
/// separator, and the pieces joined by the separators are the sequence.
pub proof fn lemma_split_at_joins(s: Seq<char>, separators: Set<char>)
    ensures
        split_at(s, separators).len() == separators_in(s, separators).len() + 1,
        forall|k: int, i: int|
            0 <= k < split_at(s, separators).len() && 0 <= i < split_at(s, separators)[k].len()
                ==> !separators.contains(#[trigger] split_at(s, separators)[k][i]),
        forall|i: int|
            0 <= i < separators_in(s, separators).len() ==> separators.contains(
                #[trigger] separators_in(s, separators)[i],
            ),
        join(split_at(s, separators), separators_in(s, separators)) == s,
    decreases s.len(),
{
    if s.len() > 0 {
        let init = s.drop_last();
        let c = s.last();
        let pieces = split_at(init, separators);
        let between = separators_in(init, separators);
        lemma_split_at_joins(init, separators);
        assert(init.push(c) =~= s);
        if separators.contains(c) {
            assert(pieces.push(Seq::<char>::empty()).drop_last() =~= pieces);
            assert(between.push(c).drop_last() =~= between);
            assert(join(pieces, between).push(c) + Seq::<char>::empty() =~= s);
        } else {
            let longer = pieces.last().push(c);
            let after = pieces.drop_last().push(longer);
            assert(after.drop_last() =~= pieces.drop_last());
            if pieces.len() > 1 {
                let head = join(pieces.drop_last(), between.drop_last()).push(between.last());
                assert(head + longer =~= (head + pieces.last()).push(c));
            }
            assert forall|k: int, i: int|
                0 <= k < after.len() && 0 <= i < after[k].len() implies !separators.contains(
                #[trigger] after[k][i],
            ) by {
                if k < pieces.len() - 1 {
                    assert(after[k][i] == pieces[k][i]);
                } else if i < pieces.last().len() {
                    assert(after[k][i] == pieces[k][i]);
                }
            }
        }
    }
}

/// The characters of `s`, in order.
pub fn chars_of(s: &str) -> (v: Vec<char>)
    ensures
        v@ == s@,
{
    let mut v: Vec<char> = Vec::new();
    for c in it: s.chars()
        invariant
            v@ == s@.take(it.index() as int),
            it.seq() == s@,
    {
        v.push(c);
    }
    v
}

} // verus!
