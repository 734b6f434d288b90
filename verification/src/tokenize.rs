//! Word tokenizer: splits source text into word chunks with character
//! offsets.
//!
//! The text is split after each separator character; each candidate is
//! stripped of separators and kept only when it contains a word character
//! (a Unicode letter or number, or a currency symbol).  Character offsets
//! are counted over the original text; the literal segment `CS` does not
//! advance the running counter, a deliberate quirk of the tokenizer.

use vstd::prelude::*;
use vstd::string::StrSliceExecFns;

use crate::strutil::{is_letter_char, is_number_char, str_to_chars, unicode_letter, unicode_number};
use crate::{Chunk, ChunkView, chunks_view};

verus! {

/// Separator characters: punctuation and space, split after and stripped.
pub open spec fn is_split_char(c: char) -> bool {
    c == ',' || c == '.' || c == '?' || c == '!' || c == ':' || c == '[' || c == ']' || c == '{'
        || c == '}' || c == '"' || c == ' '
}

fn is_split_char_exec(c: char) -> (r: bool)
    ensures
        r == is_split_char(c),
{
    c == ',' || c == '.' || c == '?' || c == '!' || c == ':' || c == '[' || c == ']' || c == '{'
        || c == '}' || c == '"' || c == ' '
}

/// Currency symbols, counted as word characters.
pub open spec fn is_currency(c: char) -> bool {
    let u = c as u32;
    u == 0x24 || (0xA2 <= u && u <= 0xA5) || u == 0x58F || u == 0x60B || u == 0x7FE || u == 0x7FF
        || u == 0x9F2 || u == 0x9F3 || u == 0x9FB || u == 0xAF1 || u == 0xBF9 || u == 0xE3F
        || u == 0x17DB || (0x20A0 <= u && u <= 0x20BF) || u == 0xA838 || u == 0xFDFC || u == 0xFE69
        || u == 0xFF04 || u == 0xFFE0 || u == 0xFFE1 || u == 0xFFE5 || u == 0xFFE6 || (0x11FDD <= u
        && u <= 0x11FE0) || u == 0x1E2FF || u == 0x1ECB0
}

fn is_currency_exec(c: char) -> (r: bool)
    ensures
        r == is_currency(c),
{
    let u = c as u32;
    u == 0x24 || (0xA2 <= u && u <= 0xA5) || u == 0x58F || u == 0x60B || u == 0x7FE || u == 0x7FF
        || u == 0x9F2 || u == 0x9F3 || u == 0x9FB || u == 0xAF1 || u == 0xBF9 || u == 0xE3F
        || u == 0x17DB || (0x20A0 <= u && u <= 0x20BF) || u == 0xA838 || u == 0xFDFC || u == 0xFE69
        || u == 0xFF04 || u == 0xFFE0 || u == 0xFFE1 || u == 0xFFE5 || u == 0xFFE6 || (0x11FDD <= u
        && u <= 0x11FE0) || u == 0x1E2FF || u == 0x1ECB0
}

/// A word character: a Unicode letter or number, or a currency symbol.
pub open spec fn is_word_char(c: char) -> bool {
    unicode_letter(c) || unicode_number(c) || is_currency(c)
}

fn is_word_char_exec(c: char) -> (r: bool)
    ensures
        r == is_word_char(c),
{
    is_letter_char(c) || is_number_char(c) || is_currency_exec(c)
}

/// The string holds at least one word character.
pub open spec fn contains_word_char(s: Seq<char>) -> bool {
    exists|i: int| 0 <= i < s.len() && is_word_char(s[i])
}

/// Whether the candidate contains a word character and so counts as a word.
pub fn is_word(word: &str) -> (r: bool)
    ensures
        r == contains_word_char(word@),
{
    let v = str_to_chars(word);
    let mut i: usize = 0;
    while i < v.len()
        invariant
            v@ == word@,
            i <= v@.len(),
            forall|k: int| 0 <= k < i ==> !is_word_char(word@[k]),
        decreases v@.len() - i,
    {
        if is_word_char_exec(v[i]) {
            return true;
        }
        i = i + 1;
    }
    false
}

/// The index of the first separator at or after `i`, or the length when
/// there is none.
pub open spec fn first_split_from(s: Seq<char>, i: int) -> int
    decreases s.len() - i,
{
    if i < 0 || i >= s.len() {
        s.len() as int
    } else if is_split_char(s[i]) {
        i
    } else {
        first_split_from(s, i + 1)
    }
}

proof fn lemma_first_split(s: Seq<char>, i: int)
    requires
        0 <= i <= s.len(),
    ensures
        i <= first_split_from(s, i) <= s.len(),
        first_split_from(s, i) < s.len() ==> is_split_char(s[first_split_from(s, i)]),
        forall|k: int| i <= k < first_split_from(s, i) ==> !is_split_char(s[k]),
    decreases s.len() - i,
{
    if i < s.len() && !is_split_char(s[i]) {
        lemma_first_split(s, i + 1);
    }
}

#[via_fn]
proof fn word_chunks_from_decreases(s: Seq<char>, i: int, counter: nat) {
    if 0 <= i < s.len() {
        lemma_first_split(s, i);
    }
}

/// The word chunks of the text from position `i` on, with `counter` the
/// running character offset.  Each segment runs up to and including the
/// next separator; the stripped candidate becomes a chunk when it holds a
/// word character.  The counter advances by the full segment length, except
/// for the literal segment `CS`.
pub open spec fn word_chunks_from(s: Seq<char>, i: int, counter: nat) -> Seq<ChunkView>
    decreases s.len() - i,
    via word_chunks_from_decreases
{
    if i < 0 || i >= s.len() {
        Seq::<ChunkView>::empty()
    } else {
        let j = first_split_from(s, i);
        let segend = if j < s.len() {
            j + 1
        } else {
            j
        };
        let seg = s.subrange(i, segend);
        let trimmed = s.subrange(i, j);
        let newc: nat = if seg == "CS"@ {
            counter
        } else {
            (counter + (segend - i)) as nat
        };
        let rest = word_chunks_from(s, segend, newc);
        if contains_word_char(trimmed) {
            seq![
                ChunkView {
                    value: trimmed,
                    start: counter as int,
                    end: counter + trimmed.len() as int,
                    start_time: 0,
                    end_time: 0,
                },
            ] + rest
        } else {
            rest
        }
    }
}

/// The word chunks of a whole text.
pub open spec fn word_chunks_spec(s: Seq<char>) -> Seq<ChunkView> {
    word_chunks_from(s, 0, 0)
}

/// Splits the text into word chunks with character offsets over the
/// original text.
pub fn split_text_to_word_chunks(text: &str) -> (r: Vec<Chunk>)
    ensures
        chunks_view(r@) == word_chunks_spec(text@),
        forall|k: int| 0 <= k < r@.len() ==> (#[trigger] r@[k]@).start < r@[k]@.end,
        forall|k: int| 0 <= k < r@.len() - 1 ==> (#[trigger] r@[k]@).end <= r@[k + 1]@.start,
        forall|k: int, q: int|
            0 <= k < r@.len() && 0 <= q < r@[k]@.value.len() ==> !is_split_char(
                #[trigger] r@[k]@.value[q],
            ),
{
    proof {
        lemma_word_chunks_ordered(text@, 0, 0);
    }
    let v = str_to_chars(text);
    let n = v.len();
    let mut out: Vec<Chunk> = Vec::new();
    let mut i: usize = 0;
    let mut counter: usize = 0;
    while i < n
        invariant
            v@ == text@,
            n == v@.len(),
            i <= n,
            counter <= i,
            word_chunks_spec(text@) == chunks_view(out@) + word_chunks_from(
                text@,
                i as int,
                counter as nat,
            ),
        decreases n - i,
    {
        proof {
            lemma_first_split(text@, i as int);
        }
        // Scan to the first separator.
        let mut j: usize = i;
        while j < n && !is_split_char_exec(v[j])
            invariant
                v@ == text@,
                n == v@.len(),
                i <= j <= n,
                forall|k: int| i <= k < j ==> !is_split_char(text@[k]),
            decreases n - j,
        {
            j = j + 1;
        }
        proof {
            assert(first_split_from(text@, i as int) == j) by {
                lemma_first_split(text@, i as int);
                let f = first_split_from(text@, i as int);
                if f < j {
                    assert(!is_split_char(text@[f]));
                }
                if j < f {
                    assert(!is_split_char(text@[j as int]));
                }
            }
        }
        let segend: usize = if j < n {
            j + 1
        } else {
            j
        };
        // The stripped candidate: the characters before the separator.
        let mut trimmed: Vec<char> = Vec::new();
        let mut k: usize = i;
        while k < j
            invariant
                v@ == text@,
                i <= k <= j <= n,
                n == v@.len(),
                trimmed@ == text@.subrange(i as int, k as int),
            decreases j - k,
        {
            trimmed.push(v[k]);
            proof {
                assert(text@.subrange(i as int, k + 1) =~= text@.subrange(i as int, k as int).push(
                    text@[k as int],
                ));
            }
            k = k + 1;
        }
        // Does the full segment read exactly `CS`?
        let is_cs = segend - i == 2 && v[i] == 'C' && v[i + 1] == 'S';
        proof {
            let seg = text@.subrange(i as int, segend as int);
            reveal_strlit("CS");
            if is_cs {
                assert(seg =~= "CS"@);
            } else {
                if seg.len() == 2 {
                    assert(seg[0] == text@[i as int] && seg[1] == text@[i + 1]);
                }
                assert(seg != "CS"@);
            }
        }
        let start = counter;
        let end = counter + (j - i);
        if !is_cs {
            counter = counter + (segend - i);
        }
        let word_here = {
            let mut found = false;
            let mut k2: usize = 0;
            while k2 < trimmed.len()
                invariant
                    k2 <= trimmed@.len(),
                    found == exists|q: int| 0 <= q < k2 && is_word_char(trimmed@[q]),
                decreases trimmed@.len() - k2,
            {
                if is_word_char_exec(trimmed[k2]) {
                    found = true;
                }
                k2 = k2 + 1;
            }
            found
        };
        if word_here {
            let value = crate::strutil::chars_to_string(&trimmed);
            out.push(
                Chunk {
                    value,
                    start,
                    end,
                    start_time: 0,
                    end_time: 0,
                },
            );
            proof {
                assert(chunks_view(out@) =~= chunks_view(out@.drop_last()) + seq![
                    out@.last()@,
                ]);
            }
        }
        proof {
            let oldchunks = if word_here {
                chunks_view(out@.drop_last())
            } else {
                chunks_view(out@)
            };
            assert(chunks_view(out@) + word_chunks_from(text@, segend as int, counter as nat)
                =~= oldchunks + word_chunks_from(text@, i as int, start as nat));
        }
        i = segend;
    }
    proof {
        assert(word_chunks_from(text@, i as int, counter as nat) =~= Seq::<ChunkView>::empty());
        assert(chunks_view(out@) + Seq::<ChunkView>::empty() =~= chunks_view(out@));
        assert forall|k: int| 0 <= k < out@.len() implies #[trigger] out@[k]@ == word_chunks_spec(
            text@,
        )[k] by {
            assert(chunks_view(out@)[k] == out@[k]@);
        }
    }
    out
}

/// Word chunks carry increasing, non-overlapping character spans, and no
/// separator character occurs in a chunk's text.
pub proof fn lemma_word_chunks_ordered(s: Seq<char>, i: int, counter: nat)
    requires
        0 <= i,
    ensures
        forall|k: int|
            0 <= k < word_chunks_from(s, i, counter).len() ==> {
                let c = #[trigger] word_chunks_from(s, i, counter)[k];
                counter <= c.start && c.start < c.end && c.end == c.start + c.value.len()
                    && (forall|q: int| 0 <= q < c.value.len() ==> !is_split_char(c.value[q]))
            },
        forall|k: int|
            0 <= k < word_chunks_from(s, i, counter).len() - 1 ==> #[trigger] word_chunks_from(
                s,
                i,
                counter,
            )[k].end <= word_chunks_from(s, i, counter)[k + 1].start,
    decreases s.len() - i,
{
    if 0 <= i < s.len() {
        lemma_first_split(s, i);
        let j = first_split_from(s, i);
        let segend = if j < s.len() {
            j + 1
        } else {
            j
        };
        let seg = s.subrange(i, segend);
        let trimmed = s.subrange(i, j);
        let newc: nat = if seg == "CS"@ {
            counter
        } else {
            (counter + (segend - i)) as nat
        };
        lemma_word_chunks_ordered(s, segend, newc);
        let rest = word_chunks_from(s, segend, newc);
        if seg == "CS"@ {
            // A `CS` segment carries no separator, so it is the last one.
            reveal_strlit("CS");
            if j < s.len() {
                assert(seg.last() == s[j]);
                assert(is_split_char(seg.last()));
                assert(seg[1] == 'S');
                assert(false);
            }
            assert(rest =~= Seq::<ChunkView>::empty());
        }
        if contains_word_char(trimmed) {
            let c0 = ChunkView {
                value: trimmed,
                start: counter as int,
                end: counter + trimmed.len() as int,
                start_time: 0,
                end_time: 0,
            };
            let all = seq![c0] + rest;
            assert(c0.start < c0.end);
            assert(forall|k: int| 0 <= k < rest.len() ==> all[k + 1] == rest[k]);
            if rest.len() > 0 {
                assert(newc <= rest[0].start);
            }
        }
    }
}

} // verus!
