use dictionary::bytes::{to_4u8, to_u32};
use dictionary::codec::DecodeError;
use dictionary::dictionary::Dictionary;
use dictionary::model::Result;
use dictionary::word::Word;

fn words(line: &str) -> Vec<String> {
    line.split_whitespace().map(String::from).collect()
}

fn weight_of(d: &Dictionary, e: (Word, Word), w: Word) -> u32 {
    for r in d.candidates_of(e) {
        if r.word == w {
            return r.chance;
        }
    }
    0
}

fn id_of(d: &Dictionary, w: &str) -> Word {
    Word::Word(d.find_word(&w.to_string()).unwrap())
}

#[test]
fn le_encoding_of_integers() {
    assert_eq!(to_4u8(0x12345678), [0x78, 0x56, 0x34, 0x12]);
    assert_eq!(to_4u8(0), [0, 0, 0, 0]);
    assert_eq!(to_u32(&[0x78, 0x56, 0x34, 0x12]), Some(0x12345678));
    assert_eq!(to_u32(&[0xff, 0xff, 0xff, 0xff, 7]), Some(u32::MAX));
    assert_eq!(to_u32(&[1, 2, 3]), None);
}

#[test]
fn word_cells() {
    assert_eq!(Word::Start1.into_bytes(), [1, 0, 0, 0, 0]);
    assert_eq!(Word::Start2.into_bytes(), [2, 0, 0, 0, 0]);
    assert_eq!(Word::End.into_bytes(), [0xff, 0, 0, 0, 0]);
    assert_eq!(Word::Word(258).into_bytes(), [0, 2, 1, 0, 0]);
    for w in [Word::Start1, Word::Start2, Word::End, Word::Word(7), Word::Word(u32::MAX)] {
        assert_eq!(Word::from_bytes(&w.into_bytes()), Some(w));
    }
    assert_eq!(Word::from_bytes(&[3, 0, 0, 0, 0]), None);
    assert_eq!(Word::from_bytes(&[0, 0, 0, 0]), None);
}

#[test]
fn interning_is_stable() {
    let mut d = Dictionary::new();
    let a = d.intern_word(&"hi".to_string());
    let b = d.intern_word(&"there".to_string());
    let c = d.intern_word(&"hi".to_string());
    let e = d.intern_word(&"Hi".to_string());
    assert_eq!((a, b, c, e), (Some(0), Some(1), Some(0), Some(2)));
    assert_eq!(d.word_count(), 3);
    assert_eq!(d.resolve(1), "there");
}

#[test]
fn single_line_generates_itself() {
    let mut d = Dictionary::new();
    assert!(d.learn_from_line("hi there friend"));
    for _ in 0..20 {
        assert_eq!(d.generate_sentence(), "hi there friend");
    }
}

#[test]
fn two_lines_share_a_prefix() {
    let mut d = Dictionary::new();
    assert!(d.learn_from_line("hi there friend"));
    assert!(d.learn_from_line("hi there you"));
    let hi = id_of(&d, "hi");
    let there = id_of(&d, "there");
    let friend = id_of(&d, "friend");
    let you = id_of(&d, "you");
    assert_eq!(weight_of(&d, (Word::Start1, Word::Start2), hi), 2);
    assert_eq!(weight_of(&d, (Word::Start2, hi), there), 2);
    assert_eq!(weight_of(&d, (hi, there), friend), 1);
    assert_eq!(weight_of(&d, (hi, there), you), 1);
    assert_eq!(weight_of(&d, (there, friend), Word::End), 1);
    assert_eq!(weight_of(&d, (there, you), Word::End), 1);
    let mut seen_friend = false;
    let mut seen_you = false;
    for _ in 0..200 {
        let s = d.generate_sentence();
        let ws: Vec<&str> = s.split(' ').collect();
        assert_eq!(ws.len(), 3);
        assert_eq!(ws[0], "hi");
        assert_eq!(ws[1], "there");
        assert!(ws[2] == "friend" || ws[2] == "you");
        seen_friend |= ws[2] == "friend";
        seen_you |= ws[2] == "you";
    }
    assert!(seen_friend && seen_you);
}

#[test]
fn repeated_learning_adds_exactly() {
    let mut once = Dictionary::new();
    assert!(once.learn_from_line("a b a b"));
    let mut many = Dictionary::new();
    for _ in 0..5 {
        assert!(many.learn_from_line("a b a b"));
    }
    let a = id_of(&once, "a");
    let b = id_of(&once, "b");
    assert_eq!(weight_of(&once, (a, b), a), 1);
    assert_eq!(weight_of(&many, (a, b), a), 5);
    assert_eq!(weight_of(&once, (Word::Start2, a), b), 1);
    assert_eq!(weight_of(&many, (Word::Start2, a), b), 5);
    assert_eq!(weight_of(&many, (a, b), Word::End), 5);
    assert_eq!(weight_of(&many, (b, a), b), 5);
    assert_eq!(many.word_count(), 2);
    assert_eq!(many.context_count(), once.context_count());
}

#[test]
fn blank_lines_change_nothing() {
    let mut d = Dictionary::new();
    assert!(d.learn_from_line(""));
    assert!(d.learn_from_line("   \t  "));
    assert_eq!(d.word_count(), 0);
    assert_eq!(d.context_count(), 0);
    assert_eq!(d.to_bytes(), vec![0, 0, 0, 0, 0, 0, 0, 0]);
    assert_eq!(d.generate_sentence(), "");
}

#[test]
fn learn_words_takes_tokens_verbatim() {
    let mut d = Dictionary::new();
    assert!(d.learn_words(&words("Hello, hello!")));
    assert_eq!(d.word_count(), 2);
    assert_eq!(d.resolve(0), "Hello,");
    assert_eq!(d.resolve(1), "hello!");
    assert_eq!(d.context_count(), 3);
}

#[test]
fn bytes_of_a_small_dictionary() {
    let mut d = Dictionary::new();
    assert!(d.learn_from_line("hi"));
    let mut expected: Vec<u8> = vec![1, 0, 0, 0, 2, 0, 0, 0, b'h', b'i', 2, 0, 0, 0];
    expected.extend_from_slice(&[1, 0, 0, 0, 0, 2, 0, 0, 0, 0, 1, 0, 0, 0, 0, 0, 0, 0, 0, 1, 0, 0, 0]);
    expected.extend_from_slice(&[2, 0, 0, 0, 0, 0, 0, 0, 0, 0, 1, 0, 0, 0, 0xff, 0, 0, 0, 0, 1, 0, 0, 0]);
    assert_eq!(d.to_bytes(), expected);
}

#[test]
fn round_trip_keeps_words_and_weights() {
    let mut d = Dictionary::new();
    for line in ["the cat sat", "the cat ran", "a dog sat", "the cat sat", "ünïcödé wörds ✓"] {
        assert!(d.learn_from_line(line));
    }
    let bytes = d.to_bytes();
    let e = Dictionary::from_bytes(&bytes).unwrap();
    assert_eq!(e.word_count(), d.word_count());
    for i in 0..d.word_count() {
        assert_eq!(e.word_at(i), d.word_at(i));
    }
    assert_eq!(e.context_count(), d.context_count());
    for i in 0..d.context_count() {
        let (c1, l1) = d.entry_at(i);
        let (c2, l2) = e.entry_at(i);
        assert_eq!(c1, c2);
        assert_eq!(l1, l2);
    }
    assert_eq!(e.to_bytes(), bytes);
    let the = id_of(&e, "the");
    let cat = id_of(&e, "cat");
    let sat = id_of(&e, "sat");
    assert_eq!(weight_of(&e, (the, cat), sat), 2);
}

#[test]
fn truncated_word_list_is_rejected() {
    let mut bytes: Vec<u8> = vec![5, 0, 0, 0];
    for w in ["ab", "cd"] {
        bytes.extend_from_slice(&(w.len() as u32).to_le_bytes());
        bytes.extend_from_slice(w.as_bytes());
    }
    assert_eq!(Dictionary::from_bytes(&bytes).err(), Some(DecodeError::TruncatedInput));
}

#[test]
fn every_strict_prefix_is_truncated() {
    let mut d = Dictionary::new();
    assert!(d.learn_from_line("one two three"));
    let bytes = d.to_bytes();
    for n in 0..bytes.len() {
        assert_eq!(Dictionary::from_bytes(&bytes[..n]).err(), Some(DecodeError::TruncatedInput));
    }
    assert!(Dictionary::from_bytes(&bytes).is_ok());
}

#[test]
fn decode_faults() {
    // an unknown tag byte
    let bytes: Vec<u8> = vec![0, 0, 0, 0, 1, 0, 0, 0, 7, 0, 0, 0, 0];
    assert_eq!(Dictionary::from_bytes(&bytes).err(), Some(DecodeError::CorruptTag));
    // a word that is not UTF-8
    let bytes: Vec<u8> = vec![1, 0, 0, 0, 2, 0, 0, 0, 0xc3, 0x28, 0, 0, 0, 0];
    assert_eq!(Dictionary::from_bytes(&bytes).err(), Some(DecodeError::CorruptEncoding));
    // an id outside a vocabulary of one word
    let bytes: Vec<u8> = vec![1, 0, 0, 0, 1, 0, 0, 0, b'x', 1, 0, 0, 0, 0, 1, 0, 0, 0, 0, 0, 0, 0];
    assert_eq!(Dictionary::from_bytes(&bytes).err(), Some(DecodeError::InvalidIndex));
    // the same candidate twice in one context
    let mut bytes: Vec<u8> = vec![0, 0, 0, 0, 1, 0, 0, 0];
    bytes.extend_from_slice(&[1, 0, 0, 0, 0, 2, 0, 0, 0, 0, 2, 0, 0, 0]);
    for _ in 0..2 {
        bytes.extend_from_slice(&[0xff, 0, 0, 0, 0, 1, 0, 0, 0]);
    }
    assert_eq!(Dictionary::from_bytes(&bytes).err(), Some(DecodeError::DuplicateEntry));
    // trailing bytes after the last context are ignored
    let bytes: Vec<u8> = vec![0, 0, 0, 0, 0, 0, 0, 0, 9, 9];
    assert!(Dictionary::from_bytes(&bytes).is_ok());
}

#[test]
fn a_cycle_stops_at_the_bound() {
    // (S1,S2) -> w0, (S2,w0) -> w0, (w0,w0) -> w0: End is never drawn
    let mut bytes: Vec<u8> = vec![1, 0, 0, 0, 1, 0, 0, 0, b'x', 3, 0, 0, 0];
    bytes.extend_from_slice(&[1, 0, 0, 0, 0, 2, 0, 0, 0, 0, 1, 0, 0, 0, 0, 0, 0, 0, 0, 4, 0, 0, 0]);
    bytes.extend_from_slice(&[2, 0, 0, 0, 0, 0, 0, 0, 0, 0, 1, 0, 0, 0, 0, 0, 0, 0, 0, 4, 0, 0, 0]);
    bytes.extend_from_slice(&[0, 0, 0, 0, 0, 0, 0, 0, 0, 0, 1, 0, 0, 0, 0, 0, 0, 0, 0, 4, 0, 0, 0]);
    let d = Dictionary::from_bytes(&bytes).unwrap();
    let t = d.generate_tokens(10);
    assert_eq!(t, vec![Word::Word(0); 10]);
    let s = d.generate_sentence();
    assert_eq!(s.split(' ').count(), dictionary::generate::MAX_SENTENCE_TOKENS);
}

#[test]
fn zero_weights_stop_the_walk() {
    let mut bytes: Vec<u8> = vec![0, 0, 0, 0, 1, 0, 0, 0];
    bytes.extend_from_slice(&[1, 0, 0, 0, 0, 2, 0, 0, 0, 0, 1, 0, 0, 0, 0xff, 0, 0, 0, 0, 0, 0, 0, 0]);
    let d = Dictionary::from_bytes(&bytes).unwrap();
    assert!(d.generate_tokens(10).is_empty());
}

#[test]
fn picking_follows_cumulative_weights() {
    let list = vec![
        Result { word: Word::Word(0), chance: 2 },
        Result { word: Word::End, chance: 0 },
        Result { word: Word::Word(1), chance: 3 },
    ];
    assert_eq!(dictionary::generate::total_of(&list), 5);
    let picks: Vec<Word> = (0..5).map(|x| dictionary::generate::pick_candidate(&list, x)).collect();
    assert_eq!(
        picks,
        vec![Word::Word(0), Word::Word(0), Word::Word(1), Word::Word(1), Word::Word(1)]
    );
}

#[test]
fn next_word_draws_in_a_context() {
    let mut d = Dictionary::new();
    assert!(d.learn_from_line("hi there friend"));
    assert!(d.learn_from_line("hi there you"));
    let hi = id_of(&d, "hi");
    let there = id_of(&d, "there");
    let list = d.candidates_of((hi, there));
    assert_eq!(d.next_word((hi, there), 0), list[0].word);
    assert_eq!(d.next_word((hi, there), 1), list[1].word);
    assert_eq!(d.sentence_of(&vec![Word::Start1, hi, Word::Start2, there, Word::End]), "hi there");
}

#[test]
fn many_lines_round_trip() {
    let mut d = Dictionary::new();
    let mut seed: u64 = 7;
    for _ in 0..5000 {
        let mut line = String::new();
        for k in 0..8 {
            seed = seed.wrapping_mul(6364136223846793005).wrapping_add(1442695040888963407);
            if k > 0 {
                line.push(' ');
            }
            line.push_str(&format!("w{}", (seed >> 33) % 3000));
        }
        assert!(d.learn_from_line(&line));
    }
    let bytes = d.to_bytes();
    let e = Dictionary::from_bytes(&bytes).unwrap();
    assert_eq!(e.word_count(), d.word_count());
    assert_eq!(e.context_count(), d.context_count());
    assert_eq!(e.to_bytes(), bytes);
    let s = e.generate_sentence();
    assert!(s.split(' ').count() <= dictionary::generate::MAX_SENTENCE_TOKENS);
}

#[test]
fn a_repeated_context_takes_the_later_candidates() {
    let mut bytes: Vec<u8> = vec![0, 0, 0, 0, 3, 0, 0, 0];
    // (S1,S2) -> End:4, then (S2,End) -> nothing, then (S1,S2) again -> End:9
    bytes.extend_from_slice(&[1, 0, 0, 0, 0, 2, 0, 0, 0, 0, 1, 0, 0, 0, 0xff, 0, 0, 0, 0, 4, 0, 0, 0]);
    bytes.extend_from_slice(&[2, 0, 0, 0, 0, 0xff, 0, 0, 0, 0, 0, 0, 0, 0]);
    bytes.extend_from_slice(&[1, 0, 0, 0, 0, 2, 0, 0, 0, 0, 1, 0, 0, 0, 0xff, 0, 0, 0, 0, 9, 0, 0, 0]);
    let d = Dictionary::from_bytes(&bytes).unwrap();
    assert_eq!(d.context_count(), 2);
    let (first, list) = d.entry_at(0);
    assert_eq!(first, (Word::Start1, Word::Start2));
    assert_eq!(*list, vec![Result { word: Word::End, chance: 9 }]);
    assert_eq!(d.entry_at(1).0, (Word::Start2, Word::End));
}
