//! Phonetic lexicon: turns a phoneme sub-string into an approximate written
//! word.
//!
//! Three stages, tried in order: acronym detection over a fixed 26-entry
//! alphabet-to-phoneme table, a fixed function-word table, and a
//! character-by-character transliteration table.  This is a best-effort
//! written-form approximation that exists to make fuzzy distance
//! comparisons meaningful, not to produce correct spelling.

use vstd::prelude::*;

use crate::strutil::{
    append_str, chars_eq_str, chars_match_at, chars_to_string, matches_at, str_to_chars,
};

verus! {

/// What one phoneme character transliterates to.  Length marks, diacritics
/// and punctuation map to the empty string.
pub open spec fn translit_char(c: char) -> Seq<char> {
    if c == '^' || c == '.' || c == '~' || c == ':' || c == ';' || c == ',' || c == '?' || c == '!'
        || c == 'ʊ' || c == 'ː' {
        ""@
    } else if c == 't' {
        "t"@
    } else if c == 'u' {
        "u"@
    } else if c == 'ɛ' {
        "e"@
    } else if c == 'k' {
        "c"@
    } else if c == 's' {
        "s"@
    } else if c == 'ə' {
        "e"@
    } else if c == 'l' {
        "l"@
    } else if c == 'n' {
        "n"@
    } else if c == 'w' {
        "w"@
    } else if c == 'b' {
        "b"@
    } else if c == 'a' {
        "a"@
    } else if c == 'ɪ' {
        "i"@
    } else if c == 'f' {
        "f"@
    } else if c == 'ɔ' {
        "o"@
    } else if c == 'ɹ' {
        "r"@
    } else if c == 'd' {
        "d"@
    } else if c == 'v' {
        "v"@
    } else if c == 'p' {
        "p"@
    } else if c == 'ɚ' {
        "er"@
    } else if c == 'z' {
        "s"@
    } else if c == 'j' {
        "j"@
    } else if c == 'o' {
        "o"@
    } else if c == 'ð' {
        "th"@
    } else if c == 'h' {
        "h"@
    } else if c == 'ɾ' {
        "t"@
    } else if c == 'i' {
        "e"@
    } else if c == 'ɑ' {
        "a"@
    } else if c == 'ɡ' {
        "g"@
    } else if c == 'ɐ' {
        "a"@
    } else if c == 'ɜ' {
        "er"@
    } else if c == 'ʒ' {
        "s"@
    } else if c == 'ʌ' {
        "o"@
    } else if c == 'ʃ' {
        "ur"@
    } else if c == 'ŋ' {
        "ng"@
    } else if c == 'æ' {
        "a"@
    } else if c == 'ᵻ' {
        "e"@
    } else if c == 'e' {
        "e"@
    } else if c == 'm' {
        "m"@
    } else if c == 'θ' {
        "th"@
    } else {
        ""@
    }
}

fn translit_char_str(c: char) -> (r: &'static str)
    ensures
        r@ == translit_char(c),
{
    if c == '^' || c == '.' || c == '~' || c == ':' || c == ';' || c == ',' || c == '?' || c == '!'
        || c == 'ʊ' || c == 'ː' {
        ""
    } else if c == 't' {
        "t"
    } else if c == 'u' {
        "u"
    } else if c == 'ɛ' {
        "e"
    } else if c == 'k' {
        "c"
    } else if c == 's' {
        "s"
    } else if c == 'ə' {
        "e"
    } else if c == 'l' {
        "l"
    } else if c == 'n' {
        "n"
    } else if c == 'w' {
        "w"
    } else if c == 'b' {
        "b"
    } else if c == 'a' {
        "a"
    } else if c == 'ɪ' {
        "i"
    } else if c == 'f' {
        "f"
    } else if c == 'ɔ' {
        "o"
    } else if c == 'ɹ' {
        "r"
    } else if c == 'd' {
        "d"
    } else if c == 'v' {
        "v"
    } else if c == 'p' {
        "p"
    } else if c == 'ɚ' {
        "er"
    } else if c == 'z' {
        "s"
    } else if c == 'j' {
        "j"
    } else if c == 'o' {
        "o"
    } else if c == 'ð' {
        "th"
    } else if c == 'h' {
        "h"
    } else if c == 'ɾ' {
        "t"
    } else if c == 'i' {
        "e"
    } else if c == 'ɑ' {
        "a"
    } else if c == 'ɡ' {
        "g"
    } else if c == 'ɐ' {
        "a"
    } else if c == 'ɜ' {
        "er"
    } else if c == 'ʒ' {
        "s"
    } else if c == 'ʌ' {
        "o"
    } else if c == 'ʃ' {
        "ur"
    } else if c == 'ŋ' {
        "ng"
    } else if c == 'æ' {
        "a"
    } else if c == 'ᵻ' {
        "e"
    } else if c == 'e' {
        "e"
    } else if c == 'm' {
        "m"
    } else if c == 'θ' {
        "th"
    } else {
        ""
    }
}

/// Character-by-character transliteration of a phoneme string.
pub open spec fn translit(s: Seq<char>) -> Seq<char>
    decreases s.len(),
{
    if s.len() == 0 {
        Seq::<char>::empty()
    } else {
        translit(s.drop_last()) + translit_char(s.last())
    }
}

fn translit_chars(v: &Vec<char>) -> (r: Vec<char>)
    ensures
        r@ == translit(v@),
{
    let mut out: Vec<char> = Vec::new();
    let mut i: usize = 0;
    while i < v.len()
        invariant
            i <= v@.len(),
            out@ == translit(v@.take(i as int)),
        decreases v@.len() - i,
    {
        append_str(&mut out, translit_char_str(v[i]));
        proof {
            let t = v@.take(i + 1);
            assert(t.drop_last() =~= v@.take(i as int));
            assert(t.last() == v@[i as int]);
        }
        i = i + 1;
    }
    proof {
        assert(v@.take(v@.len() as int) =~= v@);
    }
    out
}

/// The fixed function-word table: common short words whose phoneme strings
/// are looked up directly.
pub open spec fn function_word(s: Seq<char>) -> Option<Seq<char>> {
    if s == "n"@ {
        Some("an"@)
    } else if s == "ə"@ {
        Some("the"@)
    } else if s == "ðɪ"@ {
        Some("the"@)
    } else if s == "juː"@ {
        Some("you"@)
    } else if s == "ʌs"@ {
        Some("us"@)
    } else if s == "t"@ {
        Some("to"@)
    } else if s == "wɹ"@ {
        Some("where"@)
    } else if s == "wɪl"@ {
        Some("will"@)
    } else if s == "tə"@ {
        Some("to"@)
    } else if s == "eɪ"@ {
        Some("may"@)
    } else if s == "meɪ"@ {
        Some("may"@)
    } else if s == "nɑːt"@ {
        Some("not"@)
    } else if s == "ɪl"@ {
        Some("will"@)
    } else if s == "baɪ"@ {
        Some("by"@)
    } else if s == "bɪ"@ {
        Some("by"@)
    } else if s == "æt"@ {
        Some("that"@)
    } else if s == "hæv"@ {
        Some("have"@)
    } else if s == "weɪ"@ {
        Some("way"@)
    } else {
        None
    }
}

fn function_word_lookup(v: &Vec<char>) -> (r: Option<&'static str>)
    ensures
        match r {
            Some(w) => function_word(v@) == Some(w@),
            None => function_word(v@) is None,
        },
{
    if chars_eq_str(v, "n") {
        Some("an")
    } else if chars_eq_str(v, "ə") {
        Some("the")
    } else if chars_eq_str(v, "ðɪ") {
        Some("the")
    } else if chars_eq_str(v, "juː") {
        Some("you")
    } else if chars_eq_str(v, "ʌs") {
        Some("us")
    } else if chars_eq_str(v, "t") {
        Some("to")
    } else if chars_eq_str(v, "wɹ") {
        Some("where")
    } else if chars_eq_str(v, "wɪl") {
        Some("will")
    } else if chars_eq_str(v, "tə") {
        Some("to")
    } else if chars_eq_str(v, "eɪ") {
        Some("may")
    } else if chars_eq_str(v, "meɪ") {
        Some("may")
    } else if chars_eq_str(v, "nɑːt") {
        Some("not")
    } else if chars_eq_str(v, "ɪl") {
        Some("will")
    } else if chars_eq_str(v, "baɪ") {
        Some("by")
    } else if chars_eq_str(v, "bɪ") {
        Some("by")
    } else if chars_eq_str(v, "æt") {
        Some("that")
    } else if chars_eq_str(v, "hæv") {
        Some("have")
    } else if chars_eq_str(v, "weɪ") {
        Some("way")
    } else {
        None
    }
}

/// The letter phoneme starting at position `i` of `s`, as the pair of its
/// length and the lowercase letter it names; `(0, ' ')` when none of the 26
/// alphabet phonemes occurs there.
pub open spec fn letter_match_at(s: Seq<char>, i: int) -> (int, char) {
    if matches_at(s, i, "ɐ"@) {
        ("ɐ"@.len() as int, 'a')
    } else if matches_at(s, i, "bi"@) {
        ("bi"@.len() as int, 'b')
    } else if matches_at(s, i, "si"@) {
        ("si"@.len() as int, 'c')
    } else if matches_at(s, i, "di"@) {
        ("di"@.len() as int, 'd')
    } else if matches_at(s, i, "i"@) {
        ("i"@.len() as int, 'e')
    } else if matches_at(s, i, "ɛf"@) {
        ("ɛf"@.len() as int, 'f')
    } else if matches_at(s, i, "dʒi"@) {
        ("dʒi"@.len() as int, 'g')
    } else if matches_at(s, i, "eɪtʃ"@) {
        ("eɪtʃ"@.len() as int, 'h')
    } else if matches_at(s, i, "aɪ"@) {
        ("aɪ"@.len() as int, 'i')
    } else if matches_at(s, i, "dʒeɪ"@) {
        ("dʒeɪ"@.len() as int, 'j')
    } else if matches_at(s, i, "keɪ"@) {
        ("keɪ"@.len() as int, 'k')
    } else if matches_at(s, i, "ɛl"@) {
        ("ɛl"@.len() as int, 'l')
    } else if matches_at(s, i, "ɛm"@) {
        ("ɛm"@.len() as int, 'm')
    } else if matches_at(s, i, "ɛn"@) {
        ("ɛn"@.len() as int, 'n')
    } else if matches_at(s, i, "oʊ"@) {
        ("oʊ"@.len() as int, 'o')
    } else if matches_at(s, i, "pi"@) {
        ("pi"@.len() as int, 'p')
    } else if matches_at(s, i, "kju"@) {
        ("kju"@.len() as int, 'q')
    } else if matches_at(s, i, "ɑɹ"@) {
        ("ɑɹ"@.len() as int, 'r')
    } else if matches_at(s, i, "ɛs"@) {
        ("ɛs"@.len() as int, 's')
    } else if matches_at(s, i, "ti"@) {
        ("ti"@.len() as int, 't')
    } else if matches_at(s, i, "ju"@) {
        ("ju"@.len() as int, 'u')
    } else if matches_at(s, i, "vi"@) {
        ("vi"@.len() as int, 'v')
    } else if matches_at(s, i, "dʌbəlju"@) {
        ("dʌbəlju"@.len() as int, 'w')
    } else if matches_at(s, i, "ɛks"@) {
        ("ɛks"@.len() as int, 'x')
    } else if matches_at(s, i, "waɪ"@) {
        ("waɪ"@.len() as int, 'y')
    } else if matches_at(s, i, "zi"@) {
        ("zi"@.len() as int, 'z')
    } else {
        (0, ' ')
    }
}

fn letter_lookup_at(v: &Vec<char>, i: usize) -> (r: (usize, char))
    ensures
        (r.0 as int, r.1) == letter_match_at(v@, i as int),
{
    if chars_match_at(v, i, "ɐ") {
        ("ɐ".unicode_len(), 'a')
    } else if chars_match_at(v, i, "bi") {
        ("bi".unicode_len(), 'b')
    } else if chars_match_at(v, i, "si") {
        ("si".unicode_len(), 'c')
    } else if chars_match_at(v, i, "di") {
        ("di".unicode_len(), 'd')
    } else if chars_match_at(v, i, "i") {
        ("i".unicode_len(), 'e')
    } else if chars_match_at(v, i, "ɛf") {
        ("ɛf".unicode_len(), 'f')
    } else if chars_match_at(v, i, "dʒi") {
        ("dʒi".unicode_len(), 'g')
    } else if chars_match_at(v, i, "eɪtʃ") {
        ("eɪtʃ".unicode_len(), 'h')
    } else if chars_match_at(v, i, "aɪ") {
        ("aɪ".unicode_len(), 'i')
    } else if chars_match_at(v, i, "dʒeɪ") {
        ("dʒeɪ".unicode_len(), 'j')
    } else if chars_match_at(v, i, "keɪ") {
        ("keɪ".unicode_len(), 'k')
    } else if chars_match_at(v, i, "ɛl") {
        ("ɛl".unicode_len(), 'l')
    } else if chars_match_at(v, i, "ɛm") {
        ("ɛm".unicode_len(), 'm')
    } else if chars_match_at(v, i, "ɛn") {
        ("ɛn".unicode_len(), 'n')
    } else if chars_match_at(v, i, "oʊ") {
        ("oʊ".unicode_len(), 'o')
    } else if chars_match_at(v, i, "pi") {
        ("pi".unicode_len(), 'p')
    } else if chars_match_at(v, i, "kju") {
        ("kju".unicode_len(), 'q')
    } else if chars_match_at(v, i, "ɑɹ") {
        ("ɑɹ".unicode_len(), 'r')
    } else if chars_match_at(v, i, "ɛs") {
        ("ɛs".unicode_len(), 's')
    } else if chars_match_at(v, i, "ti") {
        ("ti".unicode_len(), 't')
    } else if chars_match_at(v, i, "ju") {
        ("ju".unicode_len(), 'u')
    } else if chars_match_at(v, i, "vi") {
        ("vi".unicode_len(), 'v')
    } else if chars_match_at(v, i, "dʌbəlju") {
        ("dʌbəlju".unicode_len(), 'w')
    } else if chars_match_at(v, i, "ɛks") {
        ("ɛks".unicode_len(), 'x')
    } else if chars_match_at(v, i, "waɪ") {
        ("waɪ".unicode_len(), 'y')
    } else if chars_match_at(v, i, "zi") {
        ("zi".unicode_len(), 'z')
    } else {
        (0, ' ')
    }
}

/// Parse of the acronym pattern from position `i`: a run of letter
/// phonemes, optionally closed by a plural `s`, accepted when at least
/// three letters were read.  Returns the initials read so far plus the
/// rest, or `None` when the string is not an acronym.
pub open spec fn acronym_from(s: Seq<char>, i: int, count: nat, acc: Seq<char>) -> Option<Seq<char>>
    decreases s.len() - i,
{
    if i < 0 || i >= s.len() {
        if count >= 3 {
            Some(acc)
        } else {
            None
        }
    } else {
        let (l, c) = letter_match_at(s, i);
        if l >= 1 && i + l <= s.len() {
            acronym_from(s, i + l, count + 1, acc.push(c))
        } else if i == s.len() - 1 && s[i] == 's' && count >= 3 {
            Some(acc)
        } else {
            None
        }
    }
}

/// The initials of an acronym-pattern phoneme string, if it is one.
pub open spec fn acronym_word(s: Seq<char>) -> Option<Seq<char>> {
    acronym_from(s, 0, 0, Seq::<char>::empty())
}

fn acronym_scan(v: &Vec<char>) -> (r: Option<Vec<char>>)
    ensures
        match r {
            Some(w) => acronym_word(v@) == Some(w@),
            None => acronym_word(v@) is None,
        },
{
    let mut i: usize = 0;
    let mut count: usize = 0;
    let mut acc: Vec<char> = Vec::new();
    while i < v.len()
        invariant
            i <= v@.len(),
            count <= i,
            acronym_word(v@) == acronym_from(v@, i as int, count as nat, acc@),
        decreases v@.len() - i,
    {
        let (l, c) = letter_lookup_at(v, i);
        if l >= 1 {
            acc.push(c);
            count = count + 1;
            i = i + l;
        } else if i == v.len() - 1 && v[i] == 's' && count >= 3 {
            return Some(acc);
        } else {
            return None;
        }
    }
    if count >= 3 {
        Some(acc)
    } else {
        None
    }
}

/// The approximate written form of a phoneme sub-string: acronym initials,
/// a function-word lookup, or a character transliteration, in that order.
pub open spec fn phoneme_to_word_spec(s: Seq<char>) -> Seq<char> {
    match acronym_word(s) {
        Some(w) => w,
        None => match function_word(s) {
            Some(w) => w,
            None => translit(s),
        },
    }
}

/// Converts a phoneme sub-string into an approximate written word.
pub fn phoneme_to_word(phoneme: &str) -> (r: String)
    ensures
        r@ == phoneme_to_word_spec(phoneme@),
{
    let v = str_to_chars(phoneme);
    match acronym_scan(&v) {
        Some(acc) => {
            return chars_to_string(&acc);
        },
        None => {},
    }
    match function_word_lookup(&v) {
        Some(w) => {
            let mut out: Vec<char> = Vec::new();
            append_str(&mut out, w);
            proof {
                assert(Seq::<char>::empty() + w@ =~= w@);
            }
            return chars_to_string(&out);
        },
        None => {},
    }
    let out = translit_chars(&v);
    chars_to_string(&out)
}

} // verus!
