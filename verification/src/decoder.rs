//! The decoder: from codes to the characters of an alphabet.

use crate::codes::{as_nats, lemma_non_zero_push, non_zero};
use crate::error::DecodingError;
use crate::text::chars_of;
use vstd::arithmetic::div_mod::lemma_small_mod;
use vstd::prelude::*;

verus! {

/// The character that `code` stands for: codes count the characters of the
/// alphabet from one, and start again at its first character after its last.
pub open spec fn symbol(code: nat, alphabet: Seq<char>) -> char
    recommends
        code > 0,
        alphabet.len() > 0,
{
    alphabet[(code - 1) % (alphabet.len() as int)]
}

/// The decoded string: one character for each code that is not zero.
pub open spec fn decoding(codes: Seq<nat>, alphabet: Seq<char>) -> Seq<char> {
    Seq::new(non_zero(codes).len(), |k: int| symbol(non_zero(codes)[k], alphabet))
}

/// What decoding `codes` gives: the decoded string, or the reason why there
/// is none.
pub open spec fn decoded(codes: Seq<nat>, alphabet: Seq<char>) -> Result<Seq<char>, DecodingError> {
    if alphabet.len() == 0 {
        Err(DecodingError::EmptyCharacterSet)
    } else {
        Ok(decoding(codes, alphabet))
    }
}

/// Appending a code appends its character to the decoded string, unless the
/// code is zero.
pub proof fn lemma_decoding_push(codes: Seq<nat>, code: nat, alphabet: Seq<char>)
    ensures
        decoding(codes.push(code), alphabet) == if code == 0 {
            decoding(codes, alphabet)
        } else {
            decoding(codes, alphabet).push(symbol(code, alphabet))
        },
{
    lemma_non_zero_push(codes, code);
    if code != 0 {
        assert(decoding(codes.push(code), alphabet) =~= decoding(codes, alphabet).push(
            symbol(code, alphabet),
        ));
    }
}

/// Codes that lie between one and the size of the alphabet decode to the
/// characters at their positions, one for each code.
pub proof fn lemma_decoding_in_range(codes: Seq<nat>, alphabet: Seq<char>)
    requires
        forall|k: int| 0 <= k < codes.len() ==> 1 <= #[trigger] codes[k] <= alphabet.len(),
    ensures
        decoding(codes, alphabet) == Seq::new(codes.len(), |k: int| alphabet[codes[k] - 1]),
    decreases codes.len(),
{
    if codes.len() == 0 {
        assert(decoding(codes, alphabet) =~= Seq::new(codes.len(), |k: int| alphabet[codes[k] - 1]));
    } else {
        let init = codes.drop_last();
        lemma_decoding_in_range(init, alphabet);
        assert(init.push(codes.last()) =~= codes);
        lemma_decoding_push(init, codes.last(), alphabet);
        lemma_small_mod((codes.last() - 1) as nat, alphabet.len());
        assert(decoding(codes, alphabet) =~= Seq::new(codes.len(), |k: int| alphabet[codes[k] - 1]));
    }
}

/// No codes decode to the empty string.
pub proof fn lemma_decoding_empty(alphabet: Seq<char>)
    ensures
        decoding(Seq::<nat>::empty(), alphabet) == Seq::<char>::empty(),
{
    assert(decoding(Seq::<nat>::empty(), alphabet) =~= Seq::<char>::empty());
}

/// The string that `encoded` stands for in `character_set`.
///
/// A code `n` greater than zero gives the `n`-th character of the set,
/// counting on from its first character where the set is exhausted; zero
/// gives no character. An empty set fails with `EmptyCharacterSet`, and
/// nothing else fails: every code has its character in a set that holds
/// one.
pub fn decode(encoded: &[usize], character_set: &str) -> (res: Result<String, DecodingError>)
    ensures
        match res {
            Ok(s) => decoded(as_nats(encoded@), character_set@) matches Ok(d) && d == s@,
            Err(e) => decoded(as_nats(encoded@), character_set@) matches Err(f) && f == e,
        },
        character_set@.len() == 0 ==> res matches Err(DecodingError::EmptyCharacterSet),
        character_set@.len() > 0 ==> res is Ok,
        res matches Ok(s) ==> s@.len() == non_zero(as_nats(encoded@)).len(),
{
    if character_set.is_empty() {
        return Err(DecodingError::EmptyCharacterSet);
    }
    let alphabet = chars_of(character_set);
    let mut out = String::new();
    let mut i: usize = 0;
    proof {
        assert(as_nats(encoded@.take(0)) =~= Seq::<nat>::empty());
        lemma_decoding_empty(alphabet@);
    }
    while i < encoded.len()
        invariant
            i <= encoded@.len(),
            alphabet@ == character_set@,
            alphabet@.len() > 0,
            out@ == decoding(as_nats(encoded@.take(i as int)), alphabet@),
        decreases encoded.len() - i,
    {
        let code = encoded[i];
        proof {
            assert(as_nats(encoded@.take(i + 1)) =~= as_nats(encoded@.take(i as int)).push(
                code as nat,
            ));
            lemma_decoding_push(as_nats(encoded@.take(i as int)), code as nat, alphabet@);
        }
        if code != 0 {
            let position = (code - 1) % alphabet.len();
            out.push(alphabet[position]);
        }
        i = i + 1;
    }
    proof {
        assert(encoded@.take(encoded@.len() as int) =~= encoded@);
    }
    Ok(out)
}

} // verus!
