//! Keys for new records: a pronounceable word where the word generator
//! gives one, and a short random string of letters and digits where it
//! does not.

use crate::text::{ascii_chars, text_from_ascii};
use vstd::prelude::*;

verus! {

/// The most characters a pronounceable key has.
pub const WORD_LENGTH: usize = 10;

/// The number of characters of a fallback key.
pub const FALLBACK_LENGTH: usize = 6;

/// The word generator of the `gpw` crate.
#[verifier::external_type_specification]
#[verifier::external_body]
pub struct ExPasswordGenerator(gpw::PasswordGenerator);

/// The source of keys. Each worker owns one.
pub struct KeyGenerator {
    words: gpw::PasswordGenerator,
}

/// `c` is a lower-case letter of the Latin alphabet.
pub open spec fn is_lowercase(c: char) -> bool {
    'a' <= c <= 'z'
}

/// `c` is a letter of the Latin alphabet or a digit.
pub open spec fn is_alphanumeric(c: char) -> bool {
    ||| 'a' <= c <= 'z'
    ||| 'A' <= c <= 'Z'
    ||| '0' <= c <= '9'
}

/// `id` is a pronounceable key: one to ten lower-case letters.
pub open spec fn is_word_id(id: Seq<char>) -> bool {
    &&& 1 <= id.len() <= WORD_LENGTH
    &&& forall|i: int| 0 <= i < id.len() ==> is_lowercase(#[trigger] id[i])
}

/// `id` is a fallback key: six letters or digits.
pub open spec fn is_fallback_id(id: Seq<char>) -> bool {
    &&& id.len() == FALLBACK_LENGTH
    &&& forall|i: int| 0 <= i < id.len() ==> is_alphanumeric(#[trigger] id[i])
}

/// `PasswordGenerator::default` of `gpw`: a generator with the crate's
/// table of letter triples. Nothing is claimed of it.
#[verifier::external_body]
fn new_word_generator() -> gpw::PasswordGenerator {
    gpw::PasswordGenerator::default()
}

/// `Iterator::next` of `gpw`'s `PasswordGenerator`: draws a word at random.
/// A word that comes back has at most ten characters, each a lower-case
/// letter; it may be empty, and there may be none.
#[verifier::external_body]
fn next_word(words: &mut gpw::PasswordGenerator) -> (word: Option<String>)
    ensures
        word matches Some(w) ==> w@.len() <= WORD_LENGTH && forall|i: int|
            0 <= i < w@.len() ==> is_lowercase(#[trigger] w@[i]),
{
    words.next()
}

/// `Rng::sample` of `rand` with the distribution `Alphanumeric`, on the
/// thread's generator: one byte drawn at random from the ASCII letters and
/// digits.
#[verifier::external_body]
fn random_alphanumeric() -> (b: u8)
    ensures
        is_alphanumeric(b as char),
{
    rand::Rng::sample(&mut rand::thread_rng(), rand::distributions::Alphanumeric)
}

/// The word to use as a key, if the generator gave one that is not empty.
pub fn usable_word(word: Option<String>) -> (id: Option<String>)
    ensures
        id == match word {
            Some(w) => if w@.len() > 0 {
                Some(w)
            } else {
                None
            },
            None => None,
        },
{
    match word {
        Some(w) => if w.as_str().is_empty() {
            None
        } else {
            Some(w)
        },
        None => None,
    }
}

/// A fallback key: six letters or digits drawn at random.
pub fn fallback_id() -> (id: String)
    ensures
        is_fallback_id(id@),
{
    let mut bytes: Vec<u8> = Vec::new();
    while bytes.len() < FALLBACK_LENGTH
        invariant
            bytes@.len() <= FALLBACK_LENGTH,
            forall|i: int| 0 <= i < bytes@.len() ==> is_alphanumeric(#[trigger] bytes@[i] as char),
        decreases FALLBACK_LENGTH - bytes@.len(),
    {
        bytes.push(random_alphanumeric());
    }
    proof {
        assert forall|i: int| 0 <= i < bytes@.len() implies bytes@[i] < 128 by {
            assert(is_alphanumeric(bytes@[i] as char));
        }
        assert forall|i: int| 0 <= i < bytes@.len() implies is_alphanumeric(
            #[trigger] ascii_chars(bytes@)[i],
        ) by {
            assert(is_alphanumeric(bytes@[i] as char));
        }
    }
    text_from_ascii(bytes)
}

impl KeyGenerator {
    /// A new source of keys.
    pub fn new() -> KeyGenerator {
        KeyGenerator { words: new_word_generator() }
    }
}

/// A key for a new record: the next pronounceable word, or a fallback key
/// where the generator gives no word or an empty one.
pub fn generate_id(generator: &mut KeyGenerator) -> (id: String)
    ensures
        is_word_id(id@) || is_fallback_id(id@),
{
    match usable_word(next_word(&mut generator.words)) {
        Some(id) => id,
        None => fallback_id(),
    }
}

} // verus!
