use espeak_rs::leven::{fuzzy_compare_chars, get_average_leven, leven_phoneme, leven_phoneme_relative};
use espeak_rs::{Chunk, PhonemeChunk};

fn chunk(value: &str) -> Chunk {
    Chunk { value: value.to_string(), start: 0, end: 0, start_time: 0, end_time: 0 }
}

fn pchunk(value: &str) -> PhonemeChunk {
    PhonemeChunk {
        value: value.to_string(),
        value_word: String::new(),
        start: 0,
        end: 0,
        start_time: 0,
        end_time: 0,
    }
}

#[test]
fn leven_same_string_is_zero() {
    assert_eq!(leven_phoneme("abc", "abc"), 0);
    assert_eq!(leven_phoneme("", ""), 0);
    assert_eq!(leven_phoneme("punctuations", "punctuations"), 0);
}

#[test]
fn leven_is_case_insensitive() {
    assert_eq!(leven_phoneme("KAT", "kat"), 0);
    assert_eq!(leven_phoneme("Word", "word"), 0);
    assert_eq!(leven_phoneme("HeLLo", "hEllO"), 0);
}

#[test]
fn leven_empty_is_other_length() {
    assert_eq!(leven_phoneme("", "abc"), 3);
    assert_eq!(leven_phoneme("abc", ""), 3);
    assert_eq!(leven_phoneme("", "punctuation"), 11);
}

#[test]
fn dotted_capital_i_folds_to_two_characters() {
    // U+0130 lowercases to i plus a combining dot above, so the distance
    // from the empty string is the folded length, not the input length.
    assert_eq!(leven_phoneme("\u{130}", ""), 2);
    assert_eq!(leven_phoneme("", "\u{130}"), 2);
}

#[test]
fn leven_confusable_cheaper_than_unrelated() {
    // k and c are confusable, so the substitution is free; b is unrelated.
    assert_eq!(leven_phoneme("kat", "cat"), 0);
    assert_eq!(leven_phoneme("kat", "bat"), 1);
    assert!(leven_phoneme("kat", "cat") < leven_phoneme("kat", "bat"));
}

#[test]
fn fuzzy_compare_is_directional() {
    assert!(fuzzy_compare_chars('k', 'c'));
    assert!(fuzzy_compare_chars('g', 'd'));
    // The table is keyed by the second character only.
    assert!(!fuzzy_compare_chars('d', 'g'));
    assert!(!fuzzy_compare_chars('k', 'x'));
    assert!(fuzzy_compare_chars('x', 'k'));
    assert!(fuzzy_compare_chars('q', 'q'));
}

#[test]
fn relative_distance_uses_floor_of_four() {
    // phoneme "n" maps to the function word "an"; leven("no", "an") is 2,
    // and the word length 2 is floored to 4: 2000 / 4.
    assert_eq!(leven_phoneme_relative(&chunk("no"), "n"), 500);
    // A perfect match scores 0.
    assert_eq!(leven_phoneme_relative(&chunk("cat"), "kæt"), 0);
}

#[test]
fn average_leven_forward_and_backward() {
    let words = vec![chunk("cat"), chunk("dog")];
    let phonemes = vec![pchunk("kæt"), pchunk("dɔɡ")];
    assert_eq!(get_average_leven(&words, &phonemes, 0, 0, 2, "forward"), 0);
    assert_eq!(get_average_leven(&words, &phonemes, 1, 1, 2, "backward"), 0);
    let words2 = vec![chunk("zzzz")];
    let phonemes2 = vec![pchunk("kæt")];
    // leven("zzzz", "cat") is 4, so 4000 / 4.
    assert_eq!(get_average_leven(&words2, &phonemes2, 0, 0, 1, "forward"), 1000);
}
