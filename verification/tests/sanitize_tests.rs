use espeak_rs::sanitize::{
    preserve_boundary_whitespace, remove_additional_separators, remove_extra_spaces,
    remove_line_breaks, remove_non_phonetic_chars, sanitize_espeak_output,
};

#[test]
fn line_breaks_become_spaces() {
    assert_eq!(remove_line_breaks("a\nb"), "a b");
    assert_eq!(remove_line_breaks("\n\n"), "  ");
    assert_eq!(remove_line_breaks("ab"), "ab");
}

#[test]
fn double_spaces_collapse_pairwise() {
    assert_eq!(remove_extra_spaces("a  b"), "a b");
    // Three spaces hold one non-overlapping pair, so one space remains
    // doubled.
    assert_eq!(remove_extra_spaces("a   b"), "a  b");
    assert_eq!(remove_extra_spaces("    "), "  ");
}

#[test]
fn non_phonetic_characters_are_dropped() {
    assert_eq!(remove_non_phonetic_chars("h_e@l1lo"), "hello");
    // The plain letter g is not in the phonetic set; the IPA ɡ is.
    assert_eq!(remove_non_phonetic_chars("dog"), "do");
    assert_eq!(remove_non_phonetic_chars("dɔɡ"), "dɔɡ");
}

#[test]
fn separator_runs_collapse() {
    assert_eq!(remove_additional_separators("a__b"), "a_b");
    assert_eq!(remove_additional_separators("a_ b"), "a b");
    assert_eq!(remove_additional_separators("a___ b"), "a b");
    assert_eq!(remove_additional_separators("a_b"), "a_b");
}

#[test]
fn sanitize_chains_the_cleanup_steps() {
    assert_eq!(sanitize_espeak_output("h__ə\nl  oʊ"), "hə l oʊ");
    assert_eq!(sanitize_espeak_output("kæt"), "kæt");
}

#[test]
fn boundary_whitespace_is_preserved() {
    assert_eq!(preserve_boundary_whitespace("  hi  ", "x y"), "  x y  ");
    assert_eq!(preserve_boundary_whitespace("hi", " x "), "x");
    assert_eq!(preserve_boundary_whitespace(" a", "b "), " b");
}
