//! The comparator: by how many words each sentence of a cover text has to
//! change for the text to carry a secret message.

use crate::codes::{as_ints, as_nats};
use crate::encoder::{encode, encoded};
use crate::error::EncodingError;
use crate::text::chars_of;
use std::collections::HashMap;
use vstd::prelude::*;
use vstd::string::StringExecFns;
use vstd::utf8::char_u32_cast;

verus! {

/// The code of every character of `alphabet`: its position, counted from
/// one. The table is filled from the first character to the last, so a
/// character that stands in the alphabet more than once has the code of its
/// last position.
pub open spec fn code_table(alphabet: Seq<char>) -> Map<char, nat>
    decreases alphabet.len(),
{
    if alphabet.len() == 0 {
        Map::empty()
    } else {
        code_table(alphabet.drop_last()).insert(alphabet.last(), alphabet.len())
    }
}

/// The first character of `secret` that `alphabet` does not hold, if there
/// is one.
pub open spec fn first_missing(secret: Seq<char>, alphabet: Seq<char>) -> Option<char>
    decreases secret.len(),
{
    if secret.len() == 0 {
        None
    } else {
        match first_missing(secret.drop_last(), alphabet) {
            Some(c) => Some(c),
            None => if alphabet.contains(secret.last()) {
                None
            } else {
                Some(secret.last())
            },
        }
    }
}

/// The code of each character of `secret`, for a secret whose characters
/// all stand in `alphabet`.
pub open spec fn secret_codes(secret: Seq<char>, alphabet: Seq<char>) -> Seq<nat> {
    Seq::new(secret.len(), |i: int| code_table(alphabet)[secret[i]])
}

/// The change vector. Where a sentence and a code meet, the change is what
/// the word count lacks to the code. A code beyond the last sentence stands
/// as it is: a sentence of that many words is to be added. A sentence
/// beyond the last code loses all its words.
pub open spec fn change_vector(codes: Seq<nat>, counts: Seq<nat>) -> Seq<int> {
    Seq::new(
        if codes.len() >= counts.len() {
            codes.len()
        } else {
            counts.len()
        },
        |i: int|
            if i < codes.len() && i < counts.len() {
                codes[i] - counts[i]
            } else if i < codes.len() {
                codes[i] as int
            } else {
                -(counts[i] as int)
            },
    )
}

/// The word counts that a text with the word counts `counts` has once
/// `changes` are made to it: each change is added to the count of its
/// sentence, or stands alone where the text has no such sentence.
pub open spec fn changed_counts(counts: Seq<nat>, changes: Seq<int>) -> Seq<int> {
    Seq::new(
        changes.len(),
        |i: int|
            if i < counts.len() {
                counts[i] + changes[i]
            } else {
                changes[i]
            },
    )
}

/// The message of a comparison that failed on the cover text.
pub open spec fn cover_failure(e: EncodingError) -> Seq<char> {
    match e {
        EncodingError::NonAsciiInput => "Error encoding cover text: NonAsciiInput"@,
        EncodingError::NoValidSentences => "Error encoding cover text: NoValidSentences"@,
    }
}

/// The message of a comparison whose secret holds `c`, which the character
/// set lacks.
pub open spec fn missing_character(c: char) -> Seq<char> {
    "Character '"@.push(c) + "' not found in character set"@
}

/// The message of a comparison whose character set has more characters than
/// a signed code can count.
pub open spec fn alphabet_too_long() -> Seq<char> {
    "Value out of range"@
}

/// The message of a comparison with a word count that no signed change can
/// offset.
pub open spec fn count_too_large() -> Seq<char> {
    "Value out of range for isize conversion"@
}

/// Whether every number of `counts` is within the machine's signed
/// integers.
pub open spec fn in_signed_range(counts: Seq<nat>) -> bool {
    forall|k: int| 0 <= k < counts.len() ==> #[trigger] counts[k] <= isize::MAX
}

/// What comparing gives: the change vector, or the message of the failure.
///
/// An empty secret asks for no change, whatever the cover text and the
/// character set are. Otherwise the cover text must have an encoded form
/// and every character of the secret must stand in the character set; of
/// two such failures the one of the cover text is reported. A character set
/// with more characters than the machine's signed integers can count is a
/// failure that comes before both, a word count beyond those integers one
/// that comes after both.
pub open spec fn comparison(secret: Seq<char>, cover: Seq<char>, alphabet: Seq<char>) -> Result<
    Seq<int>,
    Seq<char>,
> {
    if secret.len() == 0 {
        Ok(Seq::empty())
    } else if alphabet.len() > isize::MAX {
        Err(alphabet_too_long())
    } else {
        match encoded(cover) {
            Err(e) => Err(cover_failure(e)),
            Ok(counts) => match first_missing(secret, alphabet) {
                Some(c) => Err(missing_character(c)),
                None => if in_signed_range(counts) {
                    Ok(change_vector(secret_codes(secret, alphabet), counts))
                } else {
                    Err(count_too_large())
                },
            },
        }
    }
}

/// Appending a character to an alphabet gives it the next code, whatever
/// code it had.
pub proof fn lemma_code_table_push(alphabet: Seq<char>, c: char)
    ensures
        code_table(alphabet.push(c)) == code_table(alphabet).insert(c, alphabet.len() + 1),
{
    assert(alphabet.push(c).drop_last() =~= alphabet);
}

/// The table holds the characters of the alphabet and no others, and the
/// code of a character is one more than the last position at which it
/// stands.
pub proof fn lemma_code_table(alphabet: Seq<char>, c: char)
    ensures
        code_table(alphabet).contains_key(c) <==> alphabet.contains(c),
        code_table(alphabet).contains_key(c) ==> {
            let code = code_table(alphabet)[c];
            &&& 1 <= code <= alphabet.len()
            &&& alphabet[code - 1] == c
            &&& forall|j: int| code <= j < alphabet.len() ==> alphabet[j] != c
        },
    decreases alphabet.len(),
{
    if alphabet.len() > 0 {
        let init = alphabet.drop_last();
        lemma_code_table(init, c);
        if alphabet.last() != c {
            if alphabet.contains(c) {
                let j = choose|j: int| 0 <= j < alphabet.len() && alphabet[j] == c;
                assert(init[j] == c);
            }
            if init.contains(c) {
                let j = choose|j: int| 0 <= j < init.len() && init[j] == c;
                assert(alphabet[j] == c);
                let code = code_table(alphabet)[c];
                assert(alphabet[code - 1] == init[code - 1]);
                assert forall|j: int| code <= j < alphabet.len() implies alphabet[j] != c by {
                    if j < init.len() {
                        assert(init[j] == alphabet[j]);
                    }
                }
            }
        } else {
            assert(alphabet[alphabet.len() - 1] == c);
        }
    }
}

/// Appending a character to a secret leaves its first missing character as
/// it is, or makes the new character the first one missing.
pub proof fn lemma_first_missing_push(secret: Seq<char>, c: char, alphabet: Seq<char>)
    ensures
        first_missing(secret.push(c), alphabet) == match first_missing(secret, alphabet) {
            Some(m) => Some(m),
            None => if alphabet.contains(c) {
                None
            } else {
                Some(c)
            },
        },
{
    assert(secret.push(c).drop_last() =~= secret);
}

/// A character missing from the beginning of a secret is missing from the
/// secret.
pub proof fn lemma_first_missing_rest(prefix: Seq<char>, secret: Seq<char>, alphabet: Seq<char>)
    requires
        prefix.len() <= secret.len(),
        prefix == secret.take(prefix.len() as int),
        first_missing(prefix, alphabet) is Some,
    ensures
        first_missing(secret, alphabet) == first_missing(prefix, alphabet),
    decreases secret.len(),
{
    if prefix.len() < secret.len() {
        assert(secret.drop_last().take(prefix.len() as int) =~= prefix);
        lemma_first_missing_rest(prefix, secret.drop_last(), alphabet);
    } else {
        assert(prefix =~= secret);
    }
}

/// No character is missing exactly if the alphabet holds every character
/// of the secret; the one that is missing otherwise is the first character
/// of the secret that the alphabet lacks.
pub proof fn lemma_first_missing(secret: Seq<char>, alphabet: Seq<char>)
    ensures
        match first_missing(secret, alphabet) {
            None => forall|i: int| 0 <= i < secret.len() ==> alphabet.contains(#[trigger] secret[i]),
            Some(c) => exists|i: int|
                {
                    &&& 0 <= i < secret.len()
                    &&& #[trigger] secret[i] == c
                    &&& !alphabet.contains(c)
                    &&& forall|j: int| 0 <= j < i ==> alphabet.contains(#[trigger] secret[j])
                },
        },
    decreases secret.len(),
{
    if secret.len() > 0 {
        let init = secret.drop_last();
        lemma_first_missing(init, alphabet);
        match first_missing(init, alphabet) {
            None => {
                assert forall|j: int| 0 <= j < init.len() implies alphabet.contains(
                    #[trigger] secret[j],
                ) by {
                    assert(secret[j] == init[j]);
                }
                if !alphabet.contains(secret.last()) {
                    assert(secret[secret.len() - 1] == secret.last());
                }
            },
            Some(c) => {
                let i = choose|i: int|
                    {
                        &&& 0 <= i < init.len()
                        &&& #[trigger] init[i] == c
                        &&& !alphabet.contains(c)
                        &&& forall|j: int| 0 <= j < i ==> alphabet.contains(#[trigger] init[j])
                    };
                assert(secret[i] == c);
                assert forall|j: int| 0 <= j < i implies alphabet.contains(#[trigger] secret[j]) by {
                    assert(secret[j] == init[j]);
                }
            },
        }
    }
}

/// Where a code and a sentence meet, the change added to the word count is
/// the code. A sentence beyond the last code is left without a word, and a
/// code beyond the last sentence is its own change. There are as many
/// changes as there are codes or sentences, whichever are more.
pub proof fn lemma_changes_reach_codes(codes: Seq<nat>, counts: Seq<nat>)
    ensures
        change_vector(codes, counts).len() == if codes.len() >= counts.len() {
            codes.len()
        } else {
            counts.len()
        },
        forall|i: int|
            0 <= i < codes.len() && i < counts.len() ==> counts[i] + #[trigger] change_vector(
                codes,
                counts,
            )[i] == codes[i],
        forall|i: int|
            codes.len() <= i < counts.len() ==> counts[i] + #[trigger] change_vector(
                codes,
                counts,
            )[i] == 0,
        forall|i: int|
            counts.len() <= i < codes.len() ==> #[trigger] change_vector(codes, counts)[i]
                == codes[i],
        changed_counts(counts, change_vector(codes, counts)) == Seq::new(
            change_vector(codes, counts).len(),
            |i: int|
                if i < codes.len() {
                    codes[i] as int
                } else {
                    0
                },
        ),
{
    assert(changed_counts(counts, change_vector(codes, counts)) =~= Seq::new(
        change_vector(codes, counts).len(),
        |i: int|
            if i < codes.len() {
                codes[i] as int
            } else {
                0
            },
    ));
}

/// Whether `table` holds the codes of `codes`, each under the number of its
/// character.
spec fn holds_codes(table: Map<u32, usize>, codes: Map<char, nat>) -> bool {
    forall|c: char| #[trigger]
        codes.contains_key(c) == table.contains_key(c as u32) && (codes.contains_key(c)
            ==> table[c as u32] == codes[c])
}

/// The code table of `alphabet` as a hash map, keyed by the numbers of the
/// characters.
fn build_table(alphabet: &Vec<char>) -> (table: HashMap<u32, usize>)
    ensures
        holds_codes(table@, code_table(alphabet@)),
{
    let mut table: HashMap<u32, usize> = HashMap::new();
    let mut i: usize = 0;
    while i < alphabet.len()
        invariant
            i <= alphabet@.len(),
            holds_codes(table@, code_table(alphabet@.take(i as int))),
        decreases alphabet.len() - i,
    {
        let c = alphabet[i];
        let ghost before = table@;
        let ghost seen = alphabet@.take(i as int);
        table.insert(c as u32, i + 1);
        proof {
            assert(alphabet@.take(i + 1) =~= seen.push(c));
            lemma_code_table_push(seen, c);
            assert forall|d: char| #[trigger]
                code_table(seen.push(c)).contains_key(d) == table@.contains_key(d as u32) && (
                code_table(seen.push(c)).contains_key(d) ==> table@[d as u32] == code_table(
                    seen.push(c),
                )[d]) by {
                assert(code_table(seen).contains_key(d) == before.contains_key(d as u32));
                char_u32_cast(d, d as u32);
                char_u32_cast(c, c as u32);
            }
        }
        i = i + 1;
    }
    proof {
        assert(alphabet@.take(alphabet@.len() as int) =~= alphabet@);
    }
    table
}

/// The code of each character of `secret`, or the first of its characters
/// that the table lacks.
fn look_up(secret: &str, table: &HashMap<u32, usize>, Ghost(alphabet): Ghost<Seq<char>>) -> (res:
    Result<Vec<usize>, char>)
    requires
        holds_codes(table@, code_table(alphabet)),
    ensures
        match res {
            Ok(codes) => first_missing(secret@, alphabet) is None && as_nats(codes@)
                == secret_codes(secret@, alphabet),
            Err(c) => first_missing(secret@, alphabet) == Some(c),
        },
{
    let mut codes: Vec<usize> = Vec::new();
    for c in it: secret.chars()
        invariant
            it.seq() == secret@,
            holds_codes(table@, code_table(alphabet)),
            first_missing(secret@.take(it.index() as int), alphabet) is None,
            codes@.len() == it.index(),
            forall|k: int|
                0 <= k < codes@.len() ==> #[trigger] codes@[k] == code_table(alphabet)[secret@[k]],
    {
        let ghost seen = secret@.take(it.index() as int);
        proof {
            assert(secret@.take(it.index() + 1) =~= seen.push(c));
            lemma_first_missing_push(seen, c, alphabet);
            lemma_code_table(alphabet, c);
            assert(code_table(alphabet).contains_key(c) == table@.contains_key(c as u32));
        }
        let key = c as u32;
        match table.get(&key) {
            Some(code) => {
                codes.push(*code);
            },
            None => {
                proof {
                    lemma_first_missing_rest(seen.push(c), secret@, alphabet);
                }
                return Err(c);
            },
        }
    }
    proof {
        assert(secret@.take(secret@.len() as int) =~= secret@);
        assert(as_nats(codes@) =~= secret_codes(secret@, alphabet));
    }
    Ok(codes)
}

/// The change vector of `codes` against `counts`, unless a count is beyond
/// the range of the signed integers.
fn changes(codes: &Vec<usize>, counts: &Vec<usize>) -> (res: Option<Vec<isize>>)
    requires
        in_signed_range(as_nats(codes@)),
    ensures
        match res {
            Some(v) => in_signed_range(as_nats(counts@)) && as_ints(v@) == change_vector(
                as_nats(codes@),
                as_nats(counts@),
            ),
            None => !in_signed_range(as_nats(counts@)),
        },
{
    let ghost wanted = change_vector(as_nats(codes@), as_nats(counts@));
    let length = if codes.len() >= counts.len() {
        codes.len()
    } else {
        counts.len()
    };
    let mut v: Vec<isize> = Vec::new();
    let mut i: usize = 0;
    while i < length
        invariant
            i <= length == wanted.len(),
            wanted == change_vector(as_nats(codes@), as_nats(counts@)),
            in_signed_range(as_nats(codes@)),
            v@.len() == i,
            forall|k: int| 0 <= k < i ==> #[trigger] v@[k] == wanted[k],
            forall|k: int| 0 <= k < i && k < counts@.len() ==> #[trigger] counts@[k] <= isize::MAX,
        decreases length - i,
    {
        let change = if i < counts.len() {
            let count = counts[i];
            if count > isize::MAX as usize {
                proof {
                    assert(as_nats(counts@)[i as int] > isize::MAX);
                }
                return None;
            }
            if i < codes.len() {
                proof {
                    assert(as_nats(codes@)[i as int] <= isize::MAX);
                }
                codes[i] as isize - count as isize
            } else {
                -(count as isize)
            }
        } else {
            proof {
                assert(as_nats(codes@)[i as int] <= isize::MAX);
            }
            codes[i] as isize
        };
        v.push(change);
        i = i + 1;
    }
    proof {
        assert forall|k: int| 0 <= k < as_nats(counts@).len() implies #[trigger] as_nats(
            counts@,
        )[k] <= isize::MAX by {
            assert(counts@[k] <= isize::MAX);
        }
        assert(as_ints(v@) =~= wanted);
    }
    Some(v)
}

/// The message that names `c` as missing from the character set.
fn missing_character_message(c: char) -> (message: String)
    ensures
        message@ == missing_character(c),
{
    let mut message = "Character '".to_owned();
    message.push(c);
    message.append("' not found in character set");
    message
}

/// By how many words each sentence of `cover_text` has to change for the
/// text to carry `secret_message` in the codes of `character_set`.
///
/// An empty secret asks for no change. Otherwise the cover text must be
/// ASCII and hold a word, and every character of the secret must stand in
/// the character set; the message of the failure says which of these was
/// not met. A character set with more than `isize::MAX` characters and a
/// sentence with more than `isize::MAX` words are failures too, not panics.
pub fn compare(secret_message: &str, cover_text: &str, character_set: &str) -> (res: Result<
    Vec<isize>,
    String,
>)
    ensures
        match res {
            Ok(v) => comparison(secret_message@, cover_text@, character_set@) matches Ok(changes)
                && changes == as_ints(v@),
            Err(message) => comparison(secret_message@, cover_text@, character_set@) matches Err(
                text,
            ) && text == message@,
        },
        secret_message@.len() == 0 ==> (res matches Ok(v) && v@.len() == 0),
{
    if secret_message.is_empty() {
        let v: Vec<isize> = Vec::new();
        proof {
            assert(as_ints(v@) =~= Seq::<int>::empty());
        }
        return Ok(v);
    }
    let alphabet = chars_of(character_set);
    if alphabet.len() > isize::MAX as usize {
        return Err("Value out of range".to_owned());
    }
    let table = build_table(&alphabet);
    let counts = match encode(cover_text) {
        Ok(counts) => counts,
        Err(EncodingError::NonAsciiInput) => {
            return Err("Error encoding cover text: NonAsciiInput".to_owned());
        },
        Err(EncodingError::NoValidSentences) => {
            return Err("Error encoding cover text: NoValidSentences".to_owned());
        },
    };
    let codes = match look_up(secret_message, &table, Ghost(alphabet@)) {
        Ok(codes) => codes,
        Err(c) => {
            return Err(missing_character_message(c));
        },
    };
    proof {
        lemma_first_missing(secret_message@, alphabet@);
        assert forall|k: int| 0 <= k < as_nats(codes@).len() implies #[trigger] as_nats(
            codes@,
        )[k] <= isize::MAX by {
            assert(alphabet@.contains(secret_message@[k]));
            lemma_code_table(alphabet@, secret_message@[k]);
        }
    }
    match changes(&codes, &counts) {
        Some(v) => Ok(v),
        None => Err("Value out of range for isize conversion".to_owned()),
    }
}

} // verus!
