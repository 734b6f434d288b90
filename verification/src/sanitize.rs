//! Cleanup of the external phonemizer's raw output: separator collapsing,
//! line-break and double-space removal, and filtering to the phonetic
//! character set.

use vstd::prelude::*;

use crate::strutil::{trim_back, trim_front, trim_spec, is_white_char, str_to_chars, chars_to_string, trim_chars};

verus! {

/// `s` with every line break replaced by a space.
pub open spec fn replace_newlines(s: Seq<char>) -> Seq<char>
    decreases s.len(),
{
    if s.len() == 0 {
        Seq::<char>::empty()
    } else {
        replace_newlines(s.drop_last()) + seq![
            if s.last() == '\n' {
                ' '
            } else {
                s.last()
            },
        ]
    }
}

/// Replaces line breaks by spaces.
pub fn remove_line_breaks(string: &str) -> (r: String)
    ensures
        r@ == replace_newlines(string@),
{
    let v = str_to_chars(string);
    let mut out: Vec<char> = Vec::new();
    let mut i: usize = 0;
    while i < v.len()
        invariant
            v@ == string@,
            i <= v@.len(),
            out@ == replace_newlines(string@.take(i as int)),
        decreases v@.len() - i,
    {
        let c = v[i];
        out.push(
            if c == '\n' {
                ' '
            } else {
                c
            },
        );
        proof {
            let t = string@.take(i + 1);
            assert(t.drop_last() =~= string@.take(i as int));
            assert(t.last() == string@[i as int]);
            assert(out@ =~= replace_newlines(string@.take(i as int)) + seq![
                if string@[i as int] == '\n' {
                    ' '
                } else {
                    string@[i as int]
                },
            ]);
        }
        i = i + 1;
    }
    proof {
        assert(string@.take(v@.len() as int) =~= string@);
    }
    chars_to_string(&out)
}

/// `s` with each non-overlapping pair of spaces, found left to right,
/// replaced by one space.
pub open spec fn collapse_double_spaces(s: Seq<char>) -> Seq<char>
    decreases s.len(),
{
    if s.len() >= 2 && s[0] == ' ' && s[1] == ' ' {
        seq![' '] + collapse_double_spaces(s.skip(2))
    } else if s.len() >= 1 {
        seq![s[0]] + collapse_double_spaces(s.skip(1))
    } else {
        Seq::<char>::empty()
    }
}

/// Replaces each space pair by one space, scanning left to right.
pub fn remove_extra_spaces(string: &str) -> (r: String)
    ensures
        r@ == collapse_double_spaces(string@),
{
    let v = str_to_chars(string);
    let mut out: Vec<char> = Vec::new();
    proof {
        assert(string@.skip(0) =~= string@);
        assert(out@ + collapse_double_spaces(string@) =~= collapse_double_spaces(string@));
    }
    let mut i: usize = 0;
    while i < v.len()
        invariant
            v@ == string@,
            i <= v@.len(),
            collapse_double_spaces(string@) == out@ + collapse_double_spaces(
                string@.skip(i as int),
            ),
        decreases v@.len() - i,
    {
        let ghost rest = string@.skip(i as int);
        proof {
            assert(rest[0] == string@[i as int]);
            if i + 1 < v@.len() {
                assert(rest[1] == string@[i + 1]);
            }
        }
        if v[i] == ' ' && i + 1 < v.len() && v[i + 1] == ' ' {
            out.push(' ');
            proof {
                assert(rest.skip(2) =~= string@.skip(i + 2));
                assert(out@ =~= (out@.drop_last() + seq![' ']));
            }
            i = i + 2;
        } else {
            out.push(v[i]);
            proof {
                assert(rest.skip(1) =~= string@.skip(i + 1));
                assert(out@ =~= (out@.drop_last() + seq![string@[i as int]]));
            }
            i = i + 1;
        }
    }
    proof {
        assert(string@.skip(v@.len() as int) =~= Seq::<char>::empty());
        assert(out@ + Seq::<char>::empty() =~= out@);
    }
    chars_to_string(&out)
}

/// The characters the phonemizer may legitimately emit.
pub open spec fn phonetic_char(c: char) -> bool {
    c == ' ' || c == '!' || c == '\'' || c == '(' || c == ')' || c == ',' || c == '-' || c == '.'
        || c == ':' || c == ';' || c == '?' || ('a' <= c && c <= 'f') || c == 'h' || ('i' <= c && c
        <= 'z') || c == 'æ' || c == 'ç' || c == 'ð' || c == 'ø' || c == 'ħ' || c == 'ŋ' || c == 'œ'
        || c == 'ǀ' || c == 'ǁ' || c == 'ǂ' || c == 'ǃ' || c == 'ɐ' || c == 'ɑ' || c == 'ɒ' || c
        == 'ɓ' || c == 'ɔ' || c == 'ɕ' || c == 'ɖ' || c == 'ɗ' || c == 'ɘ' || c == 'ə' || c == 'ɚ'
        || c == 'ɛ' || c == 'ɜ' || c == 'ɞ' || c == 'ɟ' || c == 'ɠ' || c == 'ɡ' || c == 'ɢ' || c
        == 'ɣ' || c == 'ɤ' || c == 'ɥ' || c == 'ɦ' || c == 'ɧ' || c == 'ɨ' || c == 'ɪ' || c == 'ɫ'
        || c == 'ɬ' || c == 'ɭ' || c == 'ɮ' || c == 'ɯ' || c == 'ɰ' || c == 'ɱ' || c == 'ɲ' || c
        == 'ɳ' || c == 'ɴ' || c == 'ɵ' || c == 'ɶ' || c == 'ɸ' || c == 'ɹ' || c == 'ɺ' || c == 'ɻ'
        || c == 'ɽ' || c == 'ɾ' || c == 'ʀ' || c == 'ʁ' || c == 'ʂ' || c == 'ʃ' || c == 'ʄ' || c
        == 'ʈ' || c == 'ʉ' || c == 'ʊ' || c == 'ʋ' || c == 'ʌ' || c == 'ʍ' || c == 'ʎ' || c == 'ʏ'
        || c == 'ʐ' || c == 'ʑ' || c == 'ʒ' || c == 'ʔ' || c == 'ʕ' || c == 'ʘ' || c == 'ʙ' || c
        == 'ʛ' || c == 'ʜ' || c == 'ʝ' || c == 'ʟ' || c == 'ʡ' || c == 'ʢ' || c == 'ˈ' || c == 'ˌ'
        || c == 'ː' || c == 'ˑ' || c == '˞' || c == 'β' || c == 'θ' || c == 'χ' || c == 'ᵻ' || c
        == 'ⱱ'
}

fn phonetic_char_exec(c: char) -> (r: bool)
    ensures
        r == phonetic_char(c),
{
    c == ' ' || c == '!' || c == '\'' || c == '(' || c == ')' || c == ',' || c == '-' || c == '.'
        || c == ':' || c == ';' || c == '?' || ('a' <= c && c <= 'f') || c == 'h' || ('i' <= c && c
        <= 'z') || c == 'æ' || c == 'ç' || c == 'ð' || c == 'ø' || c == 'ħ' || c == 'ŋ' || c == 'œ'
        || c == 'ǀ' || c == 'ǁ' || c == 'ǂ' || c == 'ǃ' || c == 'ɐ' || c == 'ɑ' || c == 'ɒ' || c
        == 'ɓ' || c == 'ɔ' || c == 'ɕ' || c == 'ɖ' || c == 'ɗ' || c == 'ɘ' || c == 'ə' || c == 'ɚ'
        || c == 'ɛ' || c == 'ɜ' || c == 'ɞ' || c == 'ɟ' || c == 'ɠ' || c == 'ɡ' || c == 'ɢ' || c
        == 'ɣ' || c == 'ɤ' || c == 'ɥ' || c == 'ɦ' || c == 'ɧ' || c == 'ɨ' || c == 'ɪ' || c == 'ɫ'
        || c == 'ɬ' || c == 'ɭ' || c == 'ɮ' || c == 'ɯ' || c == 'ɰ' || c == 'ɱ' || c == 'ɲ' || c
        == 'ɳ' || c == 'ɴ' || c == 'ɵ' || c == 'ɶ' || c == 'ɸ' || c == 'ɹ' || c == 'ɺ' || c == 'ɻ'
        || c == 'ɽ' || c == 'ɾ' || c == 'ʀ' || c == 'ʁ' || c == 'ʂ' || c == 'ʃ' || c == 'ʄ' || c
        == 'ʈ' || c == 'ʉ' || c == 'ʊ' || c == 'ʋ' || c == 'ʌ' || c == 'ʍ' || c == 'ʎ' || c == 'ʏ'
        || c == 'ʐ' || c == 'ʑ' || c == 'ʒ' || c == 'ʔ' || c == 'ʕ' || c == 'ʘ' || c == 'ʙ' || c
        == 'ʛ' || c == 'ʜ' || c == 'ʝ' || c == 'ʟ' || c == 'ʡ' || c == 'ʢ' || c == 'ˈ' || c == 'ˌ'
        || c == 'ː' || c == 'ˑ' || c == '˞' || c == 'β' || c == 'θ' || c == 'χ' || c == 'ᵻ' || c
        == 'ⱱ'
}

/// `s` restricted to the phonetic character set.
pub open spec fn keep_phonetic(s: Seq<char>) -> Seq<char>
    decreases s.len(),
{
    if s.len() == 0 {
        Seq::<char>::empty()
    } else {
        keep_phonetic(s.drop_last()) + (if phonetic_char(s.last()) {
            seq![s.last()]
        } else {
            Seq::<char>::empty()
        })
    }
}

/// Drops every character outside the phonetic character set.
pub fn remove_non_phonetic_chars(string: &str) -> (r: String)
    ensures
        r@ == keep_phonetic(string@),
{
    let v = str_to_chars(string);
    let mut out: Vec<char> = Vec::new();
    let mut i: usize = 0;
    while i < v.len()
        invariant
            v@ == string@,
            i <= v@.len(),
            out@ == keep_phonetic(string@.take(i as int)),
        decreases v@.len() - i,
    {
        let keep = phonetic_char_exec(v[i]);
        if keep {
            out.push(v[i]);
        }
        proof {
            let t = string@.take(i + 1);
            assert(t.drop_last() =~= string@.take(i as int));
            assert(t.last() == string@[i as int]);
            if keep {
                assert(out@ =~= keep_phonetic(string@.take(i as int)) + seq![string@[i as int]]);
            } else {
                assert(out@ =~= keep_phonetic(string@.take(i as int)) + Seq::<char>::empty());
            }
        }
        i = i + 1;
    }
    proof {
        assert(string@.take(v@.len() as int) =~= string@);
    }
    chars_to_string(&out)
}

/// `s` with each maximal run of underscores reduced to one underscore: an
/// underscore directly after another is dropped.
pub open spec fn collapse_underscores(s: Seq<char>) -> Seq<char>
    decreases s.len(),
{
    if s.len() == 0 {
        Seq::<char>::empty()
    } else {
        collapse_underscores(s.drop_last()) + (if s.last() == '_' && s.len() >= 2 && s[s.len() - 2]
            == '_' {
            Seq::<char>::empty()
        } else {
            seq![s.last()]
        })
    }
}

/// `s` with each non-overlapping underscore-space pair, found left to
/// right, replaced by one space.
pub open spec fn drop_underscore_space(s: Seq<char>) -> Seq<char>
    decreases s.len(),
{
    if s.len() >= 2 && s[0] == '_' && s[1] == ' ' {
        seq![' '] + drop_underscore_space(s.skip(2))
    } else if s.len() >= 1 {
        seq![s[0]] + drop_underscore_space(s.skip(1))
    } else {
        Seq::<char>::empty()
    }
}

/// Collapses underscore runs to one underscore, then drops each underscore
/// standing before a space.
pub fn remove_additional_separators(string: &str) -> (r: String)
    ensures
        r@ == drop_underscore_space(collapse_underscores(string@)),
{
    let v = str_to_chars(string);
    let mut mid: Vec<char> = Vec::new();
    let mut i: usize = 0;
    while i < v.len()
        invariant
            v@ == string@,
            i <= v@.len(),
            mid@ == collapse_underscores(string@.take(i as int)),
        decreases v@.len() - i,
    {
        let dup = v[i] == '_' && i >= 1 && v[i - 1] == '_';
        if !dup {
            mid.push(v[i]);
        }
        proof {
            let t = string@.take(i + 1);
            assert(t.drop_last() =~= string@.take(i as int));
            assert(t.last() == string@[i as int]);
            if i >= 1 {
                assert(t[t.len() - 2] == string@[i - 1]);
            }
            if dup {
                assert(mid@ =~= collapse_underscores(string@.take(i as int))
                    + Seq::<char>::empty());
            } else {
                assert(mid@ =~= collapse_underscores(string@.take(i as int)) + seq![
                    string@[i as int],
                ]);
            }
        }
        i = i + 1;
    }
    proof {
        assert(string@.take(v@.len() as int) =~= string@);
    }
    let ghost m = mid@;
    let mut out: Vec<char> = Vec::new();
    proof {
        assert(m.skip(0) =~= m);
        assert(out@ + drop_underscore_space(m) =~= drop_underscore_space(m));
    }
    let mut k: usize = 0;
    while k < mid.len()
        invariant
            m == mid@,
            k <= m.len(),
            drop_underscore_space(m) == out@ + drop_underscore_space(m.skip(k as int)),
        decreases m.len() - k,
    {
        let ghost rest = m.skip(k as int);
        proof {
            assert(rest[0] == m[k as int]);
            if k + 1 < m.len() {
                assert(rest[1] == m[k + 1]);
            }
        }
        if mid[k] == '_' && k + 1 < mid.len() && mid[k + 1] == ' ' {
            out.push(' ');
            proof {
                assert(rest.skip(2) =~= m.skip(k + 2));
                assert(out@ =~= (out@.drop_last() + seq![' ']));
            }
            k = k + 2;
        } else {
            out.push(mid[k]);
            proof {
                assert(rest.skip(1) =~= m.skip(k + 1));
                assert(out@ =~= (out@.drop_last() + seq![m[k as int]]));
            }
            k = k + 1;
        }
    }
    proof {
        assert(m.skip(m.len() as int) =~= Seq::<char>::empty());
        assert(out@ + Seq::<char>::empty() =~= out@);
    }
    chars_to_string(&out)
}

/// The full cleanup of one phonemizer output string.
pub open spec fn sanitize_spec(s: Seq<char>) -> Seq<char> {
    keep_phonetic(
        collapse_double_spaces(
            replace_newlines(drop_underscore_space(collapse_underscores(s))),
        ),
    )
}

/// Cleans one raw phonemizer output string: collapses separators, replaces
/// line breaks, removes double spaces, and keeps only phonetic characters.
pub fn sanitize_espeak_output(string: &str) -> (r: String)
    ensures
        r@ == sanitize_spec(string@),
{
    let a = remove_additional_separators(string);
    let b = remove_line_breaks(a.as_str());
    let c = remove_extra_spaces(b.as_str());
    remove_non_phonetic_chars(c.as_str())
}

/// The target surrounded by the source's own boundary whitespace: the
/// source's leading whitespace, the trimmed target, then the source's
/// trailing whitespace.
pub open spec fn preserve_boundary_ws_spec(src: Seq<char>, tgt: Seq<char>) -> Seq<char> {
    src.take(src.len() - trim_front(src).len()) + trim_spec(tgt) + (if trim_back(src).len()
        == src.len() {
        Seq::<char>::empty()
    } else {
        src.skip(trim_back(src).len() as int)
    })
}

/// Adds the starting and ending whitespace of `source` around the trimmed
/// `target`.
pub fn preserve_boundary_whitespace(source: &str, target: &str) -> (r: String)
    ensures
        r@ == preserve_boundary_ws_spec(source@, target@),
{
    let sv = str_to_chars(source);
    let n = sv.len();
    proof {
        assert(source@.skip(0) =~= source@);
    }
    let mut lead: usize = 0;
    while lead < n && is_white_char(sv[lead])
        invariant
            sv@ == source@,
            n == sv@.len(),
            lead <= n,
            trim_front(source@) == trim_front(source@.skip(lead as int)),
        decreases n - lead,
    {
        proof {
            assert(source@.skip(lead as int).drop_first() =~= source@.skip(lead + 1));
        }
        lead = lead + 1;
    }
    proof {
        if lead < n {
            assert(trim_front(source@) == source@.skip(lead as int));
        } else {
            assert(source@.skip(lead as int) =~= Seq::<char>::empty());
            assert(trim_front(source@) =~= source@.skip(lead as int));
        }
        assert(trim_front(source@).len() == n - lead);
    }
    let mut tail: usize = n;
    proof {
        assert(source@.take(n as int) =~= source@);
    }
    while tail > 0 && is_white_char(sv[tail - 1])
        invariant
            sv@ == source@,
            n == sv@.len(),
            tail <= n,
            trim_back(source@) == trim_back(source@.take(tail as int)),
        decreases tail,
    {
        proof {
            let cur = source@.take(tail as int);
            assert(cur.last() == source@[tail - 1]);
            assert(cur.drop_last() =~= source@.take(tail - 1));
        }
        tail = tail - 1;
    }
    proof {
        let cur = source@.take(tail as int);
        if tail > 0 {
            assert(!crate::strutil::unicode_white(cur.last()));
            assert(trim_back(source@) == cur);
        } else {
            assert(cur =~= Seq::<char>::empty());
            assert(trim_back(source@) == cur);
        }
        assert(trim_back(source@).len() == tail);
    }
    let tv = str_to_chars(target);
    let trimmed = trim_chars(&tv);
    let mut out: Vec<char> = Vec::new();
    let mut i: usize = 0;
    while i < lead
        invariant
            sv@ == source@,
            n == sv@.len(),
            lead <= n,
            i <= lead,
            out@ == source@.subrange(0, i as int),
        decreases lead - i,
    {
        out.push(sv[i]);
        proof {
            assert(source@.subrange(0, i + 1) =~= source@.subrange(0, i as int).push(
                source@[i as int],
            ));
        }
        i = i + 1;
    }
    let mut k: usize = 0;
    while k < trimmed.len()
        invariant
            sv@ == source@,
            n == sv@.len(),
            lead <= n,
            k <= trimmed@.len(),
            out@ == source@.subrange(0, lead as int) + trimmed@.take(k as int),
        decreases trimmed@.len() - k,
    {
        out.push(trimmed[k]);
        proof {
            assert(source@.subrange(0, lead as int) + trimmed@.take(k + 1) =~= (source@.subrange(
                0,
                lead as int,
            ) + trimmed@.take(k as int)).push(trimmed@[k as int]));
        }
        k = k + 1;
    }
    proof {
        assert(trimmed@.take(trimmed@.len() as int) =~= trimmed@);
    }
    if tail < n {
        let mut q: usize = tail;
        while q < n
            invariant
                sv@ == source@,
                n == sv@.len(),
                lead <= n,
                tail <= q <= n,
                out@ == source@.subrange(0, lead as int) + trimmed@ + source@.subrange(
                    tail as int,
                    q as int,
                ),
            decreases n - q,
        {
            out.push(sv[q]);
            proof {
                assert(source@.subrange(0, lead as int) + trimmed@ + source@.subrange(
                    tail as int,
                    q + 1,
                ) =~= (source@.subrange(0, lead as int) + trimmed@ + source@.subrange(
                    tail as int,
                    q as int,
                )).push(source@[q as int]));
            }
            q = q + 1;
        }
        proof {
            assert(source@.subrange(tail as int, n as int) =~= source@.skip(tail as int));
            assert(source@.subrange(0, lead as int) =~= source@.take(
                source@.len() - trim_front(source@).len(),
            ));
        }
    } else {
        proof {
            assert(out@ =~= source@.subrange(0, lead as int) + trimmed@ + Seq::<char>::empty());
            assert(source@.subrange(0, lead as int) =~= source@.take(
                source@.len() - trim_front(source@).len(),
            ));
        }
    }
    chars_to_string(&out)
}

} // verus!
