//! One run of phrase generation: a line of input per word slot goes in, and a
//! decision comes out, until the phrase is complete.
use vstd::prelude::*;

use crate::checksum::{checksum_ieee, checksum_phrase, crc32_ieee, with_checksum_word};
use crate::dice::{
    dice_index, dice_outcome, index_with_offset, offset_outcome, parse_outcome, parse_rolls,
    SlotError, DICT_SIZE, OFFSET_RANGE,
};
use crate::phrase::{prefix_buffer, valid_dictionary, word_prefix, Dictionary, CONTENT_WORDS};

verus! {

/// How a word slot's rolls become an index.
#[derive(Debug, Clone, Copy, PartialEq, Eq, Structural)]
pub enum EncodingMode {
    /// The dice alone pick the word.
    PureDice,
    /// A random offset in `0..OFFSET_RANGE` is added to the dice value.
    DiceWithOffset,
}

/// What a line of input led to.
#[derive(Debug)]
pub enum Step {
    /// The line asked to stop; nothing is to be shown.
    Quit,
    /// The slot was turned down and must be entered again.
    Rejected(SlotError),
    /// The slot gave this word index; more slots follow.
    Accepted(usize),
    /// The last slot was filled: the whole phrase, checksum word included.
    Complete(Vec<usize>),
}

/// A line that ends the run: `q`, `Q` or `quit`.
pub open spec fn is_quit(line: Seq<char>) -> bool {
    line == seq!['q'] || line == seq!['Q'] || line == seq!['q', 'u', 'i', 't']
}

/// What a line of input gives in a word slot: `None` to stop, else the index
/// or why the slot was turned down.
pub open spec fn slot_outcome(mode: EncodingMode, line: Seq<char>, offset: nat) -> Option<
    Result<usize, SlotError>,
> {
    if is_quit(line) {
        None
    } else {
        match parse_outcome(line) {
            Err(e) => Some(Err(e)),
            Ok(rolls) => Some(
                match mode {
                    EncodingMode::PureDice => dice_outcome(rolls),
                    EncodingMode::DiceWithOffset => offset_outcome(rolls, offset),
                },
            ),
        }
    }
}

/// Tells whether a line asks to stop.
pub fn is_quit_line(line: &str) -> (r: bool)
    ensures
        r == is_quit(line@),
{
    if !line.is_ascii() {
        proof {
            let i = choose|i: int| 0 <= i < line@.len() && !('\0' <= #[trigger] line@[i] <= '\u{7f}');
            let s = seq!['q', 'u', 'i', 't'];
            if line@ == s {
                assert(i == 0 || i == 1 || i == 2 || i == 3);
                assert(line@[i] == s[i]);
            }
            if line@ == seq!['q'] || line@ == seq!['Q'] {
                assert(i == 0);
            }
        }
        return false;
    }
    let b = line.as_bytes();
    proof {
        vstd::string::is_ascii_spec_bytes(line);
        assert(b@ =~= Seq::new(line@.len(), |j: int| line@[j] as u8));
        assert forall|j: int| 0 <= j < line@.len() implies '\0' <= #[trigger] line@[j] <= '\u{7f}' by {}
    }
    if b.len() == 1 {
        let r = b[0] == 113 || b[0] == 81;
        proof {
            if r {
                assert(line@ =~= seq!['q'] || line@ =~= seq!['Q']);
            } else {
                assert(line@ != seq!['q'] && line@ != seq!['Q']);
            }
        }
        r
    } else if b.len() == 4 {
        let r = b[0] == 113 && b[1] == 117 && b[2] == 105 && b[3] == 116;
        proof {
            if r {
                assert(line@ =~= seq!['q', 'u', 'i', 't']);
            } else {
                let s = seq!['q', 'u', 'i', 't'];
                assert(line@ != s) by {
                    if line@ == s {
                        assert(line@[0] == 'q' && line@[1] == 'u' && line@[2] == 'i' && line@[3] == 't');
                    }
                }
            }
        }
        r
    } else {
        proof {
            assert(seq!['q'].len() == 1);
            assert(seq!['q', 'u', 'i', 't'].len() == 4);
        }
        false
    }
}

/// Decides what a line of input gives in a word slot, with `offset` as the
/// random offset where `mode` adds one.
pub fn slot_index(mode: EncodingMode, line: &str, offset: usize) -> (r: Option<
    Result<usize, SlotError>,
>)
    requires
        offset < OFFSET_RANGE,
    ensures
        r == slot_outcome(mode, line@, offset as nat),
        r matches Some(Ok(i)) ==> i < DICT_SIZE,
{
    if is_quit_line(line) {
        return None;
    }
    match parse_rolls(line) {
        Err(e) => Some(Err(e)),
        Ok(rolls) => match mode {
            EncodingMode::PureDice => Some(dice_index(&rolls)),
            EncodingMode::DiceWithOffset => Some(index_with_offset(&rolls, offset)),
        },
    }
}

/// Relies on `rand::thread_rng` and `rand::Rng::gen_range`: a value drawn from
/// `low..high`, which panics when `low >= high`.
#[verifier::external_body]
fn random_below(high: usize) -> (r: usize)
    requires
        0 < high,
    ensures
        r < high,
{
    rand::Rng::gen_range(&mut rand::thread_rng(), 0, high)
}

/// The state of a run: the word indices chosen so far and the prefixes of
/// their words, in order.
pub struct Session {
    mode: EncodingMode,
    indices: Vec<usize>,
    prefixes: Vec<u8>,
}

/// What a run holds, as mathematical values.
pub struct SessionView {
    pub mode: EncodingMode,
    pub indices: Seq<usize>,
    pub prefixes: Seq<u8>,
}

impl View for Session {
    type V = SessionView;

    closed spec fn view(&self) -> SessionView {
        SessionView { mode: self.mode, indices: self.indices@, prefixes: self.prefixes@ }
    }
}

/// A run over the dictionary `words`: at most `CONTENT_WORDS` indices, each
/// inside the dictionary, and the prefix buffer of exactly those words.
pub open spec fn session_wf(v: SessionView, words: Seq<Seq<char>>) -> bool {
    &&& v.indices.len() <= CONTENT_WORDS
    &&& forall|i: int| 0 <= i < v.indices.len() ==> #[trigger] v.indices[i] < DICT_SIZE
    &&& v.prefixes == prefix_buffer(words, v.indices)
}

/// The finished phrase of a run: its indices and the checksum word that the
/// CRC-32 of its prefix buffer selects.
pub open spec fn session_phrase(v: SessionView) -> Seq<usize> {
    checksum_phrase(v.indices, crc32_ieee(v.prefixes))
}

/// `v` with one more word: `index`, and the prefix of its word.
pub open spec fn with_word(v: SessionView, words: Seq<Seq<char>>, index: usize) -> SessionView {
    SessionView {
        mode: v.mode,
        indices: v.indices.push(index),
        prefixes: v.prefixes + word_prefix(words[index as int]),
    }
}

/// How one line of input moves a run from `pre` to `post` with result `r`,
/// where `offset` is the random offset of the slot.
pub open spec fn step_spec(
    pre: SessionView,
    post: SessionView,
    r: Step,
    words: Seq<Seq<char>>,
    line: Seq<char>,
    offset: nat,
) -> bool {
    match slot_outcome(pre.mode, line, offset) {
        None => r is Quit && post == pre,
        Some(Err(e)) => r == Step::Rejected(e) && post == pre,
        Some(Ok(i)) => {
            &&& post == with_word(pre, words, i)
            &&& if post.indices.len() == CONTENT_WORDS {
                r matches Step::Complete(p) && p@ == session_phrase(post)
            } else {
                r == Step::Accepted(i)
            }
        },
    }
}

impl Session {
    /// A run with no words yet.
    pub fn new(mode: EncodingMode) -> (r: Session)
        ensures
            r@.mode == mode,
            r@.indices.len() == 0,
            r@.prefixes.len() == 0,
            forall|words: Seq<Seq<char>>| session_wf(r@, words),
    {
        Session { mode, indices: Vec::new(), prefixes: Vec::new() }
    }

    /// The encoding mode of the run.
    pub fn mode(&self) -> (r: EncodingMode)
        ensures
            r == self@.mode,
    {
        self.mode
    }

    /// How many content words have been chosen.
    pub fn words_done(&self) -> (r: usize)
        ensures
            r == self@.indices.len(),
    {
        self.indices.len()
    }

    /// Whether all content words have been chosen.
    pub fn is_complete(&self) -> (r: bool)
        ensures
            r == (self@.indices.len() == CONTENT_WORDS),
    {
        self.indices.len() == CONTENT_WORDS
    }

    /// Records the word at `index` as the next content word.
    pub fn accept_word(&mut self, dict: &Dictionary, index: usize)
        requires
            valid_dictionary(dict@),
            session_wf(old(self)@, dict@),
            old(self)@.indices.len() < CONTENT_WORDS,
            index < DICT_SIZE,
        ensures
            final(self)@ == with_word(old(self)@, dict@, index),
            session_wf(final(self)@, dict@),
    {
        let ghost pre = self@;
        self.indices.push(index);
        dict.push_prefix(index, &mut self.prefixes);
        assert(self@.indices.drop_last() =~= pre.indices);
        assert(self@ == with_word(pre, dict@, index));
    }

    /// The phrase so far followed by its checksum word.
    pub fn finish(&self) -> (r: Vec<usize>)
        requires
            self@.indices.len() > 0,
        ensures
            r@ == session_phrase(self@),
    {
        let crc = checksum_ieee(self.prefixes.as_slice());
        with_checksum_word(&self.indices, crc)
    }

    /// Takes one line of input for the next word slot, with `offset` as the
    /// slot's random offset where the mode adds one.
    pub fn step_with(&mut self, dict: &Dictionary, line: &str, offset: usize) -> (r: Step)
        requires
            valid_dictionary(dict@),
            session_wf(old(self)@, dict@),
            old(self)@.indices.len() < CONTENT_WORDS,
            offset < OFFSET_RANGE,
        ensures
            step_spec(old(self)@, final(self)@, r, dict@, line@, offset as nat),
            session_wf(final(self)@, dict@),
    {
        match slot_index(self.mode, line, offset) {
            None => Step::Quit,
            Some(Err(e)) => Step::Rejected(e),
            Some(Ok(i)) => {
                self.accept_word(dict, i);
                if self.is_complete() {
                    Step::Complete(self.finish())
                } else {
                    Step::Accepted(i)
                }
            },
        }
    }

    /// Takes one line of input for the next word slot, drawing the random
    /// offset where the mode adds one.
    pub fn step(&mut self, dict: &Dictionary, line: &str) -> (r: Step)
        requires
            valid_dictionary(dict@),
            session_wf(old(self)@, dict@),
            old(self)@.indices.len() < CONTENT_WORDS,
        ensures
            exists|offset: nat|
                offset < OFFSET_RANGE && step_spec(old(self)@, final(self)@, r, dict@, line@, offset),
            session_wf(final(self)@, dict@),
    {
        let offset = match self.mode {
            EncodingMode::PureDice => 0,
            EncodingMode::DiceWithOffset => random_below(OFFSET_RANGE),
        };
        self.step_with(dict, line, offset)
    }
}

/// Over one dictionary, two runs that chose the same indices hold the same
/// prefix buffer, and so finish with the same checksum word.
pub proof fn lemma_checksum_deterministic(a: SessionView, b: SessionView, words: Seq<Seq<char>>)
    requires
        session_wf(a, words),
        session_wf(b, words),
        a.indices == b.indices,
    ensures
        a.prefixes == b.prefixes,
        session_phrase(a) == session_phrase(b),
{
}

} // verus!
