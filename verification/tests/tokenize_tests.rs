use espeak_rs::tokenize::{is_word, split_text_to_word_chunks};

#[test]
fn word_tokenizer_spans_are_increasing_and_clean() {
    let chunks = split_text_to_word_chunks("This, is a piece of text, that has punctuations.");
    let values: Vec<&str> = chunks.iter().map(|c| c.value.as_str()).collect();
    assert_eq!(
        values,
        vec!["This", "is", "a", "piece", "of", "text", "that", "has", "punctuations"],
    );
    let ignored = [',', '.', '?', '!', ':', '[', ']', '{', '}', '"', ' '];
    for c in &chunks {
        assert!(c.start < c.end);
        assert!(!c.value.chars().any(|ch| ignored.contains(&ch)));
    }
    for w in chunks.windows(2) {
        assert!(w[0].end <= w[1].start);
    }
    assert_eq!(chunks[0].start, 0);
    assert_eq!(chunks[0].end, 4);
    assert_eq!(chunks[1].start, 6);
    assert_eq!(chunks[8].end, 47);
}

#[test]
fn word_tokenizer_drops_non_words() {
    let chunks = split_text_to_word_chunks("... !!");
    assert_eq!(chunks.len(), 0);
    let chunks2 = split_text_to_word_chunks("a , b");
    assert_eq!(chunks2.len(), 2);
    assert_eq!(chunks2[0].value, "a");
    assert_eq!(chunks2[1].value, "b");
    assert_eq!(chunks2[1].start, 4);
}

#[test]
fn word_tokenizer_keeps_currency() {
    let chunks = split_text_to_word_chunks("$5 please");
    assert_eq!(chunks.len(), 2);
    assert_eq!(chunks[0].value, "$5");
}

#[test]
fn trailing_cs_does_not_advance_counter() {
    // The literal final segment CS is emitted without advancing the
    // character counter.
    let chunks = split_text_to_word_chunks("hi CS");
    assert_eq!(chunks.len(), 2);
    assert_eq!(chunks[0].value, "hi");
    assert_eq!((chunks[1].start, chunks[1].end), (3, 5));
    // Mid-text CS carries a separator with it and advances as usual.
    let chunks2 = split_text_to_word_chunks("CS hi");
    assert_eq!((chunks2[0].start, chunks2[0].end), (0, 2));
    assert_eq!((chunks2[1].start, chunks2[1].end), (3, 5));
}

#[test]
fn is_word_requires_a_word_character() {
    assert!(is_word("a"));
    assert!(is_word("x7"));
    assert!(is_word("$"));
    assert!(!is_word(","));
    assert!(!is_word(""));
    assert!(!is_word("+-"));
}
