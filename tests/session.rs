use dice_mnemonic::{
    is_quit_line, slot_index, Dictionary, DictionaryError, EncodingMode, Session, SlotError, Step,
    CONTENT_WORDS, DICT_SIZE, OFFSET_RANGE,
};

fn word_list(n: usize) -> Vec<String> {
    (0..n).map(|i| format!("w{:04}", i)).collect()
}

fn dictionary() -> Dictionary {
    Dictionary::new(word_list(DICT_SIZE)).unwrap()
}

fn roll_line(k: usize) -> String {
    let mut s = String::new();
    let mut v = k;
    for _ in 0..4 {
        s.push(char::from(b'1' + (v % 6) as u8));
        v /= 6;
    }
    s
}

fn run_pure(dict: &Dictionary) -> Vec<usize> {
    let mut session = Session::new(EncodingMode::PureDice);
    for k in 0..CONTENT_WORDS {
        match session.step(dict, &roll_line(k * 37)) {
            Step::Accepted(_) => assert!(k + 1 < CONTENT_WORDS),
            Step::Complete(p) => {
                assert_eq!(k + 1, CONTENT_WORDS);
                return p;
            }
            other => panic!("unexpected step {:?}", other),
        }
    }
    panic!("phrase not complete");
}

#[test]
fn dictionary_of_wrong_size_fails() {
    assert!(matches!(Dictionary::new(word_list(1625)), Err(DictionaryError::WrongSize(1625))));
    assert!(matches!(Dictionary::new(word_list(1627)), Err(DictionaryError::WrongSize(1627))));
    assert!(matches!(Dictionary::new(Vec::new()), Err(DictionaryError::WrongSize(0))));
}

#[test]
fn dictionary_with_short_word_fails() {
    let mut words = word_list(DICT_SIZE);
    words[17] = "ab".to_string();
    assert!(matches!(Dictionary::new(words), Err(DictionaryError::ShortWord(17))));
}

#[test]
fn dictionary_keeps_order() {
    let d = dictionary();
    assert_eq!(d.len(), DICT_SIZE);
    assert_eq!(d.word(0), "w0000");
    assert_eq!(d.word(1625), "w1625");
}

#[test]
fn quit_lines() {
    assert!(is_quit_line("q"));
    assert!(is_quit_line("Q"));
    assert!(is_quit_line("quit"));
    assert!(!is_quit_line("qq"));
    assert!(!is_quit_line("Quit"));
    assert!(!is_quit_line(""));
    assert!(!is_quit_line("1234"));
}

#[test]
fn slot_index_by_mode() {
    assert_eq!(slot_index(EncodingMode::PureDice, "q", 0), None);
    assert_eq!(slot_index(EncodingMode::PureDice, "1111", 200), Some(Ok(0)));
    assert_eq!(slot_index(EncodingMode::DiceWithOffset, "1111", 200), Some(Ok(200)));
    assert_eq!(slot_index(EncodingMode::PureDice, "", 0), Some(Err(SlotError::EmptyInput)));
    assert_eq!(slot_index(EncodingMode::PureDice, "12x4", 0), Some(Err(SlotError::NotADigit)));
    assert_eq!(slot_index(EncodingMode::PureDice, "123", 0), Some(Err(SlotError::TooFewRolls)));
}

#[test]
fn quit_ends_run_without_phrase() {
    let d = dictionary();
    let mut session = Session::new(EncodingMode::PureDice);
    assert!(matches!(session.step(&d, "1111"), Step::Accepted(0)));
    assert!(matches!(session.step(&d, "q"), Step::Quit));
    assert_eq!(session.words_done(), 1);
    let mut fresh = Session::new(EncodingMode::DiceWithOffset);
    assert!(matches!(fresh.step(&d, "Q"), Step::Quit));
    assert_eq!(fresh.words_done(), 0);
}

#[test]
fn invalid_roll_leaves_slot_open() {
    let d = dictionary();
    let mut session = Session::new(EncodingMode::PureDice);
    assert!(matches!(session.step(&d, "1237"), Step::Rejected(SlotError::InvalidRoll(7))));
    assert!(matches!(session.step(&d, "0123"), Step::Rejected(SlotError::InvalidRoll(0))));
    assert_eq!(session.words_done(), 0);
    assert!(matches!(session.step(&d, "2345"), Step::Accepted(386)));
    assert_eq!(session.words_done(), 1);
}

#[test]
fn full_run_gives_twenty_five_words() {
    let d = dictionary();
    let p = run_pure(&d);
    assert_eq!(p.len(), CONTENT_WORDS + 1);
    assert!(p.iter().all(|&i| i < DICT_SIZE));
    assert!(p[..CONTENT_WORDS].contains(&p[CONTENT_WORDS]));
}

#[test]
fn checksum_word_follows_crc_of_prefixes() {
    let d = dictionary();
    let p = run_pure(&d);
    let mut buffer = String::new();
    for &i in &p[..CONTENT_WORDS] {
        buffer.push_str(&d.word(i)[0..3]);
    }
    let crc = crc::crc32::checksum_ieee(buffer.as_bytes()) as usize;
    assert_eq!(p[CONTENT_WORDS], p[crc % CONTENT_WORDS]);
}

#[test]
fn checksum_word_is_deterministic() {
    let d = dictionary();
    assert_eq!(run_pure(&d), run_pure(&d));
}

#[test]
fn step_with_offset_is_exact() {
    let d = dictionary();
    let mut session = Session::new(EncodingMode::DiceWithOffset);
    assert!(matches!(session.step_with(&d, "2345", 100), Step::Accepted(486)));
    assert!(matches!(session.step_with(&d, "6666", 6), Step::Rejected(SlotError::OutOfRange)));
    assert_eq!(session.words_done(), 1);
}

#[test]
fn random_offset_stays_in_range() {
    let d = dictionary();
    let mut session = Session::new(EncodingMode::DiceWithOffset);
    for _ in 0..CONTENT_WORDS - 1 {
        match session.step(&d, "2345") {
            Step::Accepted(i) => assert!(386 <= i && i < 386 + OFFSET_RANGE && i < DICT_SIZE),
            other => panic!("unexpected step {:?}", other),
        }
    }
    match session.step(&d, "1111") {
        Step::Complete(p) => assert_eq!(p.len(), CONTENT_WORDS + 1),
        other => panic!("unexpected step {:?}", other),
    }
}

#[test]
fn listing_numbers_words_from_one() {
    let d = dictionary();
    let l = d.listing(&vec![5, 0, 1625]);
    assert_eq!(l, vec![(1, "w0005".to_string()), (2, "w0000".to_string()), (3, "w1625".to_string())]);
}

#[test]
fn finish_appends_checksum_word() {
    let d = dictionary();
    let mut s = Session::new(EncodingMode::PureDice);
    s.accept_word(&d, 7);
    s.accept_word(&d, 9);
    assert!(!s.is_complete());
    let p = s.finish();
    assert_eq!(p.len(), 3);
    let crc = crc::crc32::checksum_ieee(b"w00w00") as usize;
    assert_eq!(p[2], [7, 9][crc % 2]);
}
