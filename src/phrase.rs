//! The dictionary, the word prefixes that feed the checksum, and the listing
//! of a finished phrase.
use vstd::prelude::*;
use vstd::utf8::encode_utf8;

use crate::dice::DICT_SIZE;

verus! {

/// Number of content words in a phrase; the checksum word comes after them.
pub const CONTENT_WORDS: usize = 24;

/// Number of leading bytes of each word that the checksum covers.
pub const PREFIX_LEN: usize = 3;

/// The first `PREFIX_LEN` bytes of a word's UTF-8 encoding.
pub open spec fn word_prefix(word: Seq<char>) -> Seq<u8> {
    encode_utf8(word).subrange(0, PREFIX_LEN as int)
}

/// A word list that the phrase can be built over: exactly `DICT_SIZE` words,
/// each at least `PREFIX_LEN` bytes long.
pub open spec fn valid_dictionary(words: Seq<Seq<char>>) -> bool {
    &&& words.len() == DICT_SIZE
    &&& forall|i: int| 0 <= i < words.len() ==> encode_utf8(#[trigger] words[i]).len() >= PREFIX_LEN
}

/// The prefixes of the words at `indices`, concatenated in order.
pub open spec fn prefix_buffer(words: Seq<Seq<char>>, indices: Seq<usize>) -> Seq<u8>
    decreases indices.len(),
{
    if indices.len() == 0 {
        Seq::empty()
    } else {
        prefix_buffer(words, indices.drop_last()) + word_prefix(words[indices.last() as int])
    }
}

/// Why a word list cannot serve as the dictionary.
#[derive(Debug, Clone, Copy, PartialEq, Eq, Structural)]
pub enum DictionaryError {
    /// The list does not hold `DICT_SIZE` words; the count found is carried.
    WrongSize(usize),
    /// The word at this position is shorter than `PREFIX_LEN` bytes.
    ShortWord(usize),
}

/// The ordered word list that indices address.
pub struct Dictionary {
    words: Vec<String>,
}

impl View for Dictionary {
    type V = Seq<Seq<char>>;

    closed spec fn view(&self) -> Seq<Seq<char>> {
        self.words@.map_values(|w: String| w@)
    }
}

impl Dictionary {
    /// Checks a word list and takes it as the dictionary.
    pub fn new(words: Vec<String>) -> (r: Result<Dictionary, DictionaryError>)
        ensures
            match r {
                Ok(d) => valid_dictionary(words@.map_values(|w: String| w@)) && d@ == words@.map_values(
                    |w: String| w@,
                ),
                Err(DictionaryError::WrongSize(n)) => n == words.len() && n != DICT_SIZE,
                Err(DictionaryError::ShortWord(i)) => {
                    &&& words.len() == DICT_SIZE
                    &&& i < words.len()
                    &&& encode_utf8(words@[i as int]@).len() < PREFIX_LEN
                    &&& forall|j: int|
                        0 <= j < i ==> encode_utf8(#[trigger] words@[j]@).len() >= PREFIX_LEN
                },
            },
    {
        if words.len() != DICT_SIZE {
            return Err(DictionaryError::WrongSize(words.len()));
        }
        let mut i: usize = 0;
        while i < words.len()
            invariant
                words.len() == DICT_SIZE,
                i <= words.len(),
                forall|j: int| 0 <= j < i ==> encode_utf8(#[trigger] words@[j]@).len() >= PREFIX_LEN,
            decreases words.len() - i,
        {
            if words[i].as_str().as_bytes().len() < PREFIX_LEN {
                return Err(DictionaryError::ShortWord(i));
            }
            i = i + 1;
        }
        let d = Dictionary { words };
        let ghost v = words@.map_values(|w: String| w@);
        assert forall|j: int| 0 <= j < v.len() implies encode_utf8(#[trigger] v[j]).len() >= PREFIX_LEN by {
            assert(v[j] == words@[j]@);
        }
        Ok(d)
    }

    /// The number of words.
    pub fn len(&self) -> (r: usize)
        ensures
            r == self@.len(),
    {
        self.words.len()
    }

    /// The word at `index`.
    pub fn word(&self, index: usize) -> (r: &String)
        requires
            index < self@.len(),
        ensures
            r@ == self@[index as int],
    {
        &self.words[index]
    }

    /// Appends the prefix of the word at `index` to `buffer`.
    pub fn push_prefix(&self, index: usize, buffer: &mut Vec<u8>)
        requires
            valid_dictionary(self@),
            index < self@.len(),
        ensures
            final(buffer)@ == old(buffer)@ + word_prefix(self@[index as int]),
    {
        let bytes = self.words[index].as_str().as_bytes();
        assert(encode_utf8(self@[index as int]).len() >= PREFIX_LEN);
        let ghost start = buffer@;
        let mut k: usize = 0;
        while k < PREFIX_LEN
            invariant
                k <= PREFIX_LEN,
                bytes@ == encode_utf8(self@[index as int]),
                bytes@.len() >= PREFIX_LEN,
                buffer@ == start + bytes@.subrange(0, k as int),
            decreases PREFIX_LEN - k,
        {
            buffer.push(bytes[k]);
            k = k + 1;
            assert(buffer@ =~= start + bytes@.subrange(0, k as int));
        }
    }

    /// Lists the words of `phrase` in order, each with its 1-based position.
    pub fn listing(&self, phrase: &Vec<usize>) -> (r: Vec<(usize, String)>)
        requires
            forall|i: int| 0 <= i < phrase.len() ==> #[trigger] phrase@[i] < self@.len(),
            phrase.len() < usize::MAX,
        ensures
            r.len() == phrase.len(),
            forall|i: int|
                0 <= i < phrase.len() ==> (#[trigger] r@[i]).0 == i + 1 && r@[i].1@ == self@[phrase@[i] as int],
    {
        let mut r: Vec<(usize, String)> = Vec::new();
        let mut i: usize = 0;
        while i < phrase.len()
            invariant
                i <= phrase.len(),
                phrase.len() < usize::MAX,
                forall|j: int| 0 <= j < phrase.len() ==> #[trigger] phrase@[j] < self@.len(),
                r.len() == i,
                forall|j: int|
                    0 <= j < i ==> (#[trigger] r@[j]).0 == j + 1 && r@[j].1@ == self@[phrase@[j] as int],
            decreases phrase.len() - i,
        {
            let w = self.words[phrase[i]].clone();
            r.push((i + 1, w));
            i = i + 1;
        }
        r
    }
}

} // verus!
