use dice_mnemonic::{
    checksum_position, dice_index, entropy_percent, index_with_offset, min_rolls, parse_rolls,
    with_checksum_word, SlotError, DICE_SIDES, DICT_SIZE, NUM_ROLLS, OFFSET_RANGE,
};

#[test]
fn min_rolls_for_monero_dictionary() {
    assert_eq!(min_rolls(1626, 6), 4);
    assert_eq!(min_rolls(DICT_SIZE, DICE_SIDES), NUM_ROLLS);
}

#[test]
fn min_rolls_edges() {
    assert_eq!(min_rolls(0, 6), 0);
    assert_eq!(min_rolls(5, 6), 0);
    assert_eq!(min_rolls(6, 6), 1);
    assert_eq!(min_rolls(1295, 6), 3);
    assert_eq!(min_rolls(1296, 6), 4);
    assert_eq!(min_rolls(1024, 2), 10);
}

#[test]
fn entropy_percent_for_monero_dictionary() {
    assert_eq!(entropy_percent(1626, 6), 79);
    assert_eq!(entropy_percent(1296, 6), 100);
    assert_eq!(entropy_percent(7, 6), 85);
}

#[test]
fn offset_range_is_gap_to_dictionary() {
    assert_eq!(OFFSET_RANGE, DICT_SIZE - DICE_SIDES.pow(NUM_ROLLS as u32));
}

#[test]
fn all_ones_encode_to_zero() {
    assert_eq!(dice_index(&vec![1, 1, 1, 1]), Ok(0));
}

#[test]
fn digits_weighted_by_scale() {
    // 271 * (2 - 1) + 45 * (3 - 1) + 7 * (4 - 1) + 1 * (5 - 1)
    assert_eq!(dice_index(&vec![2, 3, 4, 5]), Ok(386));
    assert_eq!(dice_index(&vec![6, 6, 6, 6]), Ok(1620));
}

#[test]
fn rolls_past_the_fourth_are_ignored() {
    assert_eq!(dice_index(&vec![2, 3, 4, 5, 6, 9, 0]), Ok(386));
}

#[test]
fn every_valid_roll_set_stays_in_dictionary() {
    let mut seen = 0;
    for a in 1..=6 {
        for b in 1..=6 {
            for c in 1..=6 {
                for d in 1..=6 {
                    let r = dice_index(&vec![a, b, c, d]).unwrap();
                    assert!(r < DICT_SIZE);
                    seen += 1;
                }
            }
        }
    }
    assert_eq!(seen, 1296);
}

#[test]
fn invalid_roll_rejects_slot() {
    assert_eq!(dice_index(&vec![1, 2, 3, 7]), Err(SlotError::InvalidRoll(7)));
    assert_eq!(dice_index(&vec![0, 2, 3, 4]), Err(SlotError::InvalidRoll(0)));
    assert_eq!(dice_index(&vec![1, 9, 0, 4]), Err(SlotError::InvalidRoll(9)));
}

#[test]
fn too_few_rolls_reject_slot() {
    assert_eq!(dice_index(&vec![1, 2, 3]), Err(SlotError::TooFewRolls));
    assert_eq!(dice_index(&vec![]), Err(SlotError::TooFewRolls));
}

#[test]
fn offset_is_added_to_dice_value() {
    assert_eq!(index_with_offset(&vec![1, 1, 1, 1], 0), Ok(0));
    assert_eq!(index_with_offset(&vec![1, 1, 1, 1], 329), Ok(329));
    assert_eq!(index_with_offset(&vec![2, 3, 4, 5], 100), Ok(486));
    assert_eq!(index_with_offset(&vec![1, 2, 3, 7], 5), Err(SlotError::InvalidRoll(7)));
}

#[test]
fn offset_index_stays_in_dictionary() {
    for offset in 0..OFFSET_RANGE {
        for rolls in [vec![1, 1, 1, 1], vec![3, 4, 5, 6], vec![6, 6, 6, 6]] {
            if let Ok(i) = index_with_offset(&rolls, offset) {
                assert!(i < DICT_SIZE);
            }
        }
    }
}

#[test]
fn offset_past_dictionary_is_rejected() {
    assert_eq!(index_with_offset(&vec![6, 6, 6, 6], 5), Ok(1625));
    assert_eq!(index_with_offset(&vec![6, 6, 6, 6], 6), Err(SlotError::OutOfRange));
    assert_eq!(index_with_offset(&vec![6, 6, 6, 6], 329), Err(SlotError::OutOfRange));
}

#[test]
fn parse_digits() {
    assert_eq!(parse_rolls("1234"), Ok(vec![1, 2, 3, 4]));
    assert_eq!(parse_rolls("7090"), Ok(vec![7, 0, 9, 0]));
}

#[test]
fn parse_rejects_empty_and_non_digits() {
    assert_eq!(parse_rolls(""), Err(SlotError::EmptyInput));
    assert_eq!(parse_rolls("12a4"), Err(SlotError::NotADigit));
    assert_eq!(parse_rolls("12 4"), Err(SlotError::NotADigit));
    assert_eq!(parse_rolls("12é4"), Err(SlotError::NotADigit));
}

#[test]
fn checksum_position_is_remainder() {
    assert_eq!(checksum_position(0, 24), 0);
    assert_eq!(checksum_position(100, 24), 4);
    assert_eq!(checksum_position(u32::MAX, 24), (u32::MAX % 24) as usize);
}

#[test]
fn checksum_word_copies_selected_entry() {
    let indices = vec![10, 20, 30];
    assert_eq!(with_checksum_word(&indices, 4), vec![10, 20, 30, 20]);
    assert_eq!(with_checksum_word(&indices, 6), vec![10, 20, 30, 10]);
}

#[test]
fn checksum_word_is_a_content_word() {
    let indices: Vec<usize> = (0..24).map(|i| (i * 67 + 5) % 1626).collect();
    for crc in [0u32, 1, 23, 24, 12345, u32::MAX] {
        let p = with_checksum_word(&indices, crc);
        assert_eq!(p.len(), 25);
        assert_eq!(&p[..24], &indices[..]);
        assert!(indices.contains(&p[24]));
    }
}
