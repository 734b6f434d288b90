use espeak_rs::align::{
    align_chunks, align_phonemes_graphemes, count_subwords, force_align_phonemes_graphemes_list,
    get_closest_correct_word_offset,
};
use espeak_rs::phonemes::transform_raw_phoneme_timestamps;
use espeak_rs::tokenize::split_text_to_word_chunks;
use espeak_rs::Chunk;

fn syms(list: &[&str]) -> Vec<String> {
    list.iter().map(|s| s.to_string()).collect()
}

fn chars(s: &str) -> Vec<String> {
    s.chars().map(|c| c.to_string()).collect()
}

fn word(value: &str) -> Chunk {
    Chunk { value: value.to_string(), start: 0, end: 0, start_time: 0, end_time: 0 }
}

#[test]
fn count_subwords_counts_nonempty_segments() {
    assert_eq!(count_subwords("a b c"), 3);
    assert_eq!(count_subwords("abc"), 1);
    assert_eq!(count_subwords("a  b"), 2);
    assert_eq!(count_subwords("  "), 1);
    assert_eq!(count_subwords(""), 1);
}

#[test]
fn end_to_end_three_words() {
    // "The cat sat" against three phoneme chunks with increasing end-times.
    let symbols = chars("ðə kæt sæt");
    let times: Vec<u64> = (1..=10).map(|i| i * 100).collect();
    let counts: Vec<usize> = Vec::new();
    let doc = force_align_phonemes_graphemes_list("The cat sat", &times, &symbols, false, &counts);
    assert_eq!(doc.value, "The cat sat");
    assert_eq!(doc.end, 11);
    assert_eq!(doc.chunks.len(), 3);
    let values: Vec<&str> = doc.chunks.iter().map(|c| c.value.as_str()).collect();
    assert_eq!(values, vec!["The", "cat", "sat"]);
    assert_eq!((doc.chunks[0].start_time, doc.chunks[0].end_time), (100, 200));
    assert_eq!((doc.chunks[1].start_time, doc.chunks[1].end_time), (200, 600));
    assert_eq!((doc.chunks[2].start_time, doc.chunks[2].end_time), (600, 1000));
    for c in &doc.chunks {
        assert!(c.end_time >= c.start_time);
    }
    // The document's times are copied from the first child.
    assert_eq!(doc.start_time, doc.chunks[0].start_time);
    assert_eq!(doc.end_time, doc.chunks[0].end_time);
}

#[test]
fn phoneme_bounds_overwrite_character_spans() {
    let symbols = chars("ðə kæt sæt");
    let times: Vec<u64> = (1..=10).map(|i| i * 100).collect();
    let counts: Vec<usize> = Vec::new();
    let doc = align_phonemes_graphemes("The cat sat", &times, &symbols, true, &counts);
    assert_eq!((doc.start_time, doc.end_time), (0, 0));
    assert_eq!((doc.chunks[0].start, doc.chunks[0].end), (0, 2));
    assert_eq!((doc.chunks[1].start, doc.chunks[1].end), (3, 6));
    assert_eq!((doc.chunks[2].start, doc.chunks[2].end), (7, 10));
}

#[test]
fn fewer_phonemes_than_words_terminates_early() {
    let symbols = chars("wʌn");
    let times: Vec<u64> = vec![50, 60, 70];
    let counts: Vec<usize> = Vec::new();
    let doc = align_phonemes_graphemes("one two three four", &times, &symbols, false, &counts);
    assert!(doc.chunks.len() <= 1);
    assert_eq!(doc.chunks.len(), 1);
    assert_eq!(doc.chunks[0].value, "one");
}

#[test]
fn zero_offset_desync_applies_no_correction() {
    // The first word is far from its phoneme, so a desync is suspected,
    // but the local search has no room and returns 0: the output is the
    // plain baseline.
    let symbols = chars("kæt dɔɡ");
    let times: Vec<u64> = (1..=7).map(|i| i * 10).collect();
    let counts: Vec<usize> = Vec::new();
    let doc = align_phonemes_graphemes("zzzz qqqq rrrr", &times, &symbols, false, &counts);
    assert_eq!(doc.chunks.len(), 2);
    assert_eq!((doc.chunks[0].start_time, doc.chunks[0].end_time), (10, 30));
    assert_eq!((doc.chunks[1].start_time, doc.chunks[1].end_time), (30, 70));
}

#[test]
fn forward_desync_splits_previous_interval() {
    // The second word is junk while the words after it track the phonemes
    // one position behind: the search finds a positive offset, the
    // previous word keeps the first half of its interval, the current word
    // takes the interval from the midpoint to the current phoneme's end,
    // and the same phoneme is re-examined against the next word.
    let words = vec![
        word("cat"),
        word("zzzz"),
        word("dog"),
        word("pen"),
        word("tu"),
        word("xx"),
        word("yy"),
    ];
    let symbols = chars("kæt dɔɡ pɛn tu bi");
    let times: Vec<u64> = (1..=17).map(|i| i * 10).collect();
    let phonemes = transform_raw_phoneme_timestamps(&symbols, &times);
    assert_eq!(phonemes.len(), 5);
    let counts: Vec<usize> = Vec::new();
    let chunks = align_chunks(&words, &phonemes, &counts, false);
    let spans: Vec<(u64, u64)> = chunks.iter().map(|c| (c.start_time, c.end_time)).collect();
    assert_eq!(
        spans,
        vec![(10, 20), (20, 70), (70, 70), (70, 110), (110, 140), (140, 170)],
    );
}

#[test]
fn repeated_forward_corrections_reuse_phonemes() {
    // A run of junk words in front of a well-matching region triggers a
    // forward correction per junk word; each re-examines the same phoneme,
    // so one child per word is emitted while the phoneme index stands
    // still, and the output can outnumber the phoneme chunks.
    let words: Vec<Chunk> = [
        "cat", "zzzz", "zzzz", "zzzz", "zzzz", "dog", "pen", "tu", "qqqq", "qqqq",
    ]
        .iter()
        .map(|w| word(w))
        .collect();
    let symbols = chars("kæt dɔɡ pɛn tu bi");
    let times: Vec<u64> = (1..=17).map(|i| i * 10).collect();
    let phonemes = transform_raw_phoneme_timestamps(&symbols, &times);
    assert_eq!(phonemes.len(), 5);
    let counts: Vec<usize> = Vec::new();
    let chunks = align_chunks(&words, &phonemes, &counts, false);
    assert_eq!(chunks.len(), 9);
    for c in &chunks {
        assert!(c.start_time <= c.end_time);
    }
}

#[test]
fn closest_offset_finds_the_matching_shift() {
    let words = vec![
        word("zzzz"),
        word("qqqq"),
        word("cat"),
        word("dog"),
        word("pen"),
        word("zzzz"),
        word("qqqq"),
        word("zzzz"),
    ];
    let symbols = chars("kæt dɔɡ pɛn tu");
    let times: Vec<u64> = (1..=14).map(|i| i * 10).collect();
    let phonemes = transform_raw_phoneme_timestamps(&symbols, &times);
    assert_eq!(phonemes.len(), 4);
    let offset = get_closest_correct_word_offset(&words, &phonemes, 0, 0, 8, 3);
    assert_eq!(offset, 2);
}

#[test]
fn complex_word_consumes_extra_phonemes() {
    // B2B is complex (a digit and two uppercase letters); the caller says
    // the phonemizer reads it as three sub-words, so it consumes three
    // phoneme chunks.
    let symbols = chars("bi tu bi kɔɹp");
    let times: Vec<u64> = (1..=13).map(|i| i * 10).collect();
    let counts: Vec<usize> = vec![3, 1];
    let doc = align_phonemes_graphemes("B2B corp", &times, &symbols, false, &counts);
    assert_eq!(doc.chunks.len(), 2);
    assert_eq!(doc.chunks[0].value, "B2B");
    assert_eq!((doc.chunks[0].start_time, doc.chunks[0].end_time), (10, 80));
    assert_eq!((doc.chunks[1].start_time, doc.chunks[1].end_time), (80, 130));
}

#[test]
fn complex_word_count_is_clamped_to_the_stream() {
    // A sub-word count far past the end of the phoneme stream clamps to
    // the last chunk and ends the walk.
    let symbols = chars("bi tu");
    let times: Vec<u64> = (1..=5).map(|i| i * 10).collect();
    let counts: Vec<usize> = vec![9, 1];
    let doc = align_phonemes_graphemes("B2B corp", &times, &symbols, false, &counts);
    assert_eq!(doc.chunks.len(), 1);
    assert_eq!(doc.chunks[0].value, "B2B");
    assert_eq!(doc.chunks[0].end_time, 50);
}

#[test]
fn words_and_phonemes_from_the_tokenizers_line_up() {
    let words = split_text_to_word_chunks("The cat");
    let symbols = chars("ðə kæt");
    let times: Vec<u64> = (1..=6).map(|i| i * 100).collect();
    let phonemes = transform_raw_phoneme_timestamps(&symbols, &times);
    let counts: Vec<usize> = Vec::new();
    let chunks = align_chunks(&words, &phonemes, &counts, false);
    assert_eq!(chunks.len(), 2);
    assert_eq!(chunks[0].value, "The");
    assert_eq!(chunks[1].value, "cat");
    // Character spans come from the source text.
    assert_eq!((chunks[0].start, chunks[0].end), (0, 3));
    assert_eq!((chunks[1].start, chunks[1].end), (4, 7));
}
