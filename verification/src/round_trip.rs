//! How the three operations fit together: a secret survives the way into
//! codes and back, and a cover text changed as the comparator asks decodes
//! to the secret.

use crate::comparator::{
    changed_counts, code_table, comparison, first_missing, lemma_changes_reach_codes,
    lemma_code_table, lemma_first_missing, secret_codes,
};
use crate::decoder::{decoding, lemma_decoding_in_range, lemma_decoding_push};
use crate::encoder::encoding;
use vstd::prelude::*;

verus! {

/// Decoding the codes of a secret gives the secret back.
pub proof fn lemma_decoding_secret_codes(secret: Seq<char>, alphabet: Seq<char>)
    requires
        first_missing(secret, alphabet) is None,
    ensures
        decoding(secret_codes(secret, alphabet), alphabet) == secret,
{
    let codes = secret_codes(secret, alphabet);
    lemma_first_missing(secret, alphabet);
    assert forall|k: int| 0 <= k < codes.len() implies 1 <= #[trigger] codes[k] <= alphabet.len()
        && alphabet[codes[k] - 1] == secret[k] by {
        assert(alphabet.contains(secret[k]));
        lemma_code_table(alphabet, secret[k]);
    }
    lemma_decoding_in_range(codes, alphabet);
    assert(decoding(codes, alphabet) =~= secret);
}

/// In an alphabet without a repeated character, the codes of a decoded
/// string are the codes it was decoded from, as long as they lie between
/// one and the size of the alphabet.
pub proof fn lemma_secret_codes_decoding(codes: Seq<nat>, alphabet: Seq<char>)
    requires
        alphabet.no_duplicates(),
        forall|k: int| 0 <= k < codes.len() ==> 1 <= #[trigger] codes[k] <= alphabet.len(),
    ensures
        first_missing(decoding(codes, alphabet), alphabet) is None,
        secret_codes(decoding(codes, alphabet), alphabet) == codes,
{
    let secret = decoding(codes, alphabet);
    lemma_decoding_in_range(codes, alphabet);
    lemma_first_missing(secret, alphabet);
    assert forall|k: int| 0 <= k < secret.len() implies alphabet.contains(#[trigger] secret[k])
        && code_table(alphabet)[secret[k]] == codes[k] by {
        assert(alphabet[codes[k] - 1] == secret[k]);
        lemma_code_table(alphabet, secret[k]);
    }
    assert(secret_codes(secret, alphabet) =~= codes);
}

/// Zeros after the codes decode to nothing.
proof fn lemma_decoding_trailing_zeros(codes: Seq<nat>, padded: Seq<nat>, alphabet: Seq<char>)
    requires
        codes.len() <= padded.len(),
        padded.take(codes.len() as int) == codes,
        forall|i: int| codes.len() <= i < padded.len() ==> #[trigger] padded[i] == 0,
    ensures
        decoding(padded, alphabet) == decoding(codes, alphabet),
    decreases padded.len(),
{
    if codes.len() < padded.len() {
        let init = padded.drop_last();
        assert(init.take(codes.len() as int) =~= codes);
        lemma_decoding_trailing_zeros(codes, init, alphabet);
        assert(init.push(0) =~= padded);
        lemma_decoding_push(init, 0, alphabet);
    } else {
        assert(padded =~= codes);
    }
}

/// A cover text changed as the comparison asks carries the secret: its new
/// word counts are the codes of the secret, followed by zeros where the
/// text has more sentences than the secret has characters, and they decode
/// to the secret.
pub proof fn lemma_changed_cover_carries_secret(
    secret: Seq<char>,
    cover: Seq<char>,
    alphabet: Seq<char>,
)
    requires
        comparison(secret, cover, alphabet) is Ok,
    ensures
        ({
            let changes = comparison(secret, cover, alphabet)->Ok_0;
            let carried = changed_counts(encoding(cover), changes);
            &&& forall|i: int|
                0 <= i < secret.len() ==> #[trigger] carried[i] == secret_codes(secret, alphabet)[i]
            &&& forall|i: int| secret.len() <= i < carried.len() ==> #[trigger] carried[i] == 0
            &&& decoding(Seq::new(carried.len(), |i: int| carried[i] as nat), alphabet) == secret
        }),
{
    let changes = comparison(secret, cover, alphabet)->Ok_0;
    let carried = changed_counts(encoding(cover), changes);
    let padded = Seq::new(carried.len(), |i: int| carried[i] as nat);
    if secret.len() == 0 {
        assert(decoding(padded, alphabet) =~= secret);
    } else {
        let codes = secret_codes(secret, alphabet);
        lemma_changes_reach_codes(codes, encoding(cover));
        assert(padded.take(codes.len() as int) =~= codes);
        lemma_decoding_trailing_zeros(codes, padded, alphabet);
        lemma_decoding_secret_codes(secret, alphabet);
    }
}

} // verus!
