use espeak_rs::phonemes::{is_phonetic_word_boundary, transform_raw_phoneme_timestamps};

fn syms(list: &[&str]) -> Vec<String> {
    list.iter().map(|s| s.to_string()).collect()
}

#[test]
fn combined_phoneme_splits_with_joint_span() {
    // The symbols spell the combined phoneme wɪððə, which splits into wɪð
    // and ðə; the two spans together cover the original span.
    let symbols = syms(&["w", "ɪ", "ð", "ð", "ə"]);
    let times: Vec<u64> = vec![100, 200, 300, 400, 500];
    let chunks = transform_raw_phoneme_timestamps(&symbols, &times);
    assert_eq!(chunks.len(), 2);
    assert_eq!(chunks[0].value, "wɪð");
    assert_eq!(chunks[1].value, "ðə");
    assert_eq!((chunks[0].start, chunks[0].end), (0, 3));
    assert_eq!((chunks[1].start, chunks[1].end), (3, 5));
    assert_eq!(chunks[0].start, 0);
    assert_eq!(chunks[1].end, 5);
    assert_eq!(chunks[0].end, chunks[1].start);
    assert_eq!(chunks[0].value_word, "with");
    assert_eq!(chunks[1].value_word, "the");
    assert_eq!((chunks[0].start_time, chunks[0].end_time), (100, 300));
    assert_eq!((chunks[1].start_time, chunks[1].end_time), (300, 500));
}

#[test]
fn boundaries_are_skipped_but_count_in_offsets() {
    let symbols = syms(&[" ", "k", "æ", "t"]);
    let times: Vec<u64> = vec![1, 2, 3, 4];
    let chunks = transform_raw_phoneme_timestamps(&symbols, &times);
    assert_eq!(chunks.len(), 1);
    assert_eq!(chunks[0].value, "kæt");
    assert_eq!((chunks[0].start, chunks[0].end), (1, 4));
    assert_eq!((chunks[0].start_time, chunks[0].end_time), (1, 4));
    assert_eq!(chunks[0].value_word, "cat");
}

#[test]
fn tag_markers_are_excluded_from_the_value() {
    let symbols = syms(&["<w>", "ð", "ə", "</w>", "<w>", "k", "æ", "t", "</w>"]);
    let times: Vec<u64> = vec![10, 20, 30, 40, 50, 60, 70, 80, 90];
    let chunks = transform_raw_phoneme_timestamps(&symbols, &times);
    assert_eq!(chunks.len(), 2);
    assert_eq!(chunks[0].value, "ðə");
    assert_eq!(chunks[1].value, "kæt");
    // The opening tag still occupies a symbol position, but contributes no
    // characters to the span.
    assert_eq!((chunks[0].start, chunks[0].end), (0, 2));
    assert_eq!((chunks[1].start, chunks[1].end), (4, 7));
}

#[test]
fn short_end_time_array_is_clamped() {
    let symbols = syms(&["k", "æ", "t"]);
    let times: Vec<u64> = vec![5];
    let chunks = transform_raw_phoneme_timestamps(&symbols, &times);
    assert_eq!(chunks.len(), 1);
    assert_eq!((chunks[0].start_time, chunks[0].end_time), (5, 5));
}

#[test]
fn empty_stream_yields_no_chunks() {
    let symbols: Vec<String> = Vec::new();
    let times: Vec<u64> = Vec::new();
    let chunks = transform_raw_phoneme_timestamps(&symbols, &times);
    assert_eq!(chunks.len(), 0);
}

#[test]
fn boundary_symbols_are_recognised() {
    assert!(is_phonetic_word_boundary(" "));
    assert!(is_phonetic_word_boundary("\n"));
    assert!(is_phonetic_word_boundary("</w>"));
    assert!(is_phonetic_word_boundary("—"));
    assert!(!is_phonetic_word_boundary("<w>"));
    assert!(!is_phonetic_word_boundary("k"));
}
