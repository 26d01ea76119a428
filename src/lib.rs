//! Turns physical dice rolls into a 25-word mnemonic seed phrase over a
//! 1626-word dictionary, with a checksum word taken from the phrase itself.
mod checksum;
mod dice;
mod phrase;
mod session;

pub use checksum::{checksum_position, with_checksum_word};
pub use dice::{
    dice_index, entropy_percent, index_with_offset, min_rolls, parse_rolls, SlotError, DICE_SIDES,
    DICT_SIZE, NUM_ROLLS, OFFSET_RANGE,
};
pub use phrase::{Dictionary, DictionaryError, CONTENT_WORDS, PREFIX_LEN};
pub use session::{is_quit_line, slot_index, EncodingMode, Session, SessionView, Step};
