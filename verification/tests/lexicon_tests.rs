use espeak_rs::align::is_complex;
use espeak_rs::lexicon::phoneme_to_word;

#[test]
fn acronym_pattern_maps_to_initials() {
    // si + eɪtʃ + oʊ read the letters c, h, o.
    assert_eq!(phoneme_to_word("sieɪtʃoʊ"), "cho");
    // si + aɪ + ɐ read c, i, a; a trailing plural s is allowed.
    assert_eq!(phoneme_to_word("siaɪɐ"), "cia");
    assert_eq!(phoneme_to_word("siaɪɐs"), "cia");
}

#[test]
fn acronym_needs_three_letters() {
    // si alone is one letter phoneme, so it transliterates instead.
    assert_eq!(phoneme_to_word("si"), "se");
    // sibi is two letter phonemes, still no acronym.
    assert_eq!(phoneme_to_word("sibi"), "sebe");
}

#[test]
fn acronym_string_in_uppercase_is_complex() {
    assert!(is_complex("CHO"));
    assert!(is_complex("CIA"));
    // One uppercase letter alone does not trigger the acronym rule.
    assert!(!is_complex("Cho"));
}

#[test]
fn complex_word_triggers() {
    assert!(is_complex("2021"));
    assert!(is_complex("a1"));
    assert!(is_complex("a+b"));
    assert!(is_complex("x@y"));
    assert!(is_complex("[x]"));
    assert!(!is_complex("plain"));
    assert!(!is_complex(""));
}

#[test]
fn function_words_map_directly() {
    assert_eq!(phoneme_to_word("nɑːt"), "not");
    assert_eq!(phoneme_to_word("ðɪ"), "the");
    assert_eq!(phoneme_to_word("wɪl"), "will");
    assert_eq!(phoneme_to_word("juː"), "you");
}

#[test]
fn transliteration_builds_written_forms() {
    assert_eq!(phoneme_to_word("kæt"), "cat");
    assert_eq!(phoneme_to_word("dɔɡ"), "dog");
    // Length marks and diacritics contribute nothing.
    assert_eq!(phoneme_to_word("ʃʊ"), "ur");
    assert_eq!(phoneme_to_word(""), "");
    // ɚ expands to two characters.
    assert_eq!(phoneme_to_word("ɚ"), "er");
}
