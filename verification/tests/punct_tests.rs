use espeak_rs::punct::{add_strings_replacing_whitespace, extract_punctuation, join_digit_comma};

#[test]
fn test_extract_punctuation() {
    let text = "Hey, this is a, with a bunch of punctuations!";
    let (texts, punctuations) = extract_punctuation(text);
    let result_text = vec!["Hey", " this is a", " with a bunch of punctuations", ""];
    let result_punctuations = vec![",", ",", "!"];

    assert_eq!(result_text, texts);
    assert_eq!(punctuations, result_punctuations);
}

#[test]
fn extract_punctuation_without_punctuation() {
    let (texts, punctuations) = extract_punctuation("plain words only");
    assert_eq!(texts, vec!["plain words only"]);
    assert!(punctuations.is_empty());
}

#[test]
fn extract_punctuation_groups_runs() {
    let (texts, punctuations) = extract_punctuation("a!?b");
    assert_eq!(texts, vec!["a", "b"]);
    assert_eq!(punctuations, vec!["!?"]);
}

#[test]
fn digit_comma_join_removes_the_first_grouping_comma() {
    assert_eq!(join_digit_comma("1,234"), "1234");
    // Only the first grouped comma goes.
    assert_eq!(join_digit_comma("1,2,3"), "12,3");
    assert_eq!(join_digit_comma("a,b"), "a,b");
    assert_eq!(join_digit_comma("12, 34"), "12, 34");
    assert_eq!(join_digit_comma(""), "");
}

#[test]
fn appending_replaces_trailing_whitespace() {
    assert_eq!(add_strings_replacing_whitespace("ab  ", "xy"), "abxy");
    assert_eq!(add_strings_replacing_whitespace("ab ", "xyz"), "abxyz");
    assert_eq!(add_strings_replacing_whitespace("ab", "x"), "abx");
    assert_eq!(add_strings_replacing_whitespace("ab   ", "x"), "ab  x");
}
