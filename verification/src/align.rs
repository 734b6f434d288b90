//! Alignment driver: walks word chunks and phoneme chunks in lockstep,
//! detecting complex words and desynchronization and correcting for them.

use vstd::prelude::*;
use vstd::string::StrSliceExecFns;

use crate::leven::{average_leven, get_average_leven};
use crate::phonemes::{pc_spec, syms_view, transform_raw_phoneme_timestamps};
use crate::strutil::{is_number_char, str_to_chars, unicode_number};
use crate::tokenize::{split_text_to_word_chunks, word_chunks_spec};
use crate::{
    Chunk, ChunkView, NestedChunk, PhonemeChunk, PhonemeChunkView, chunks_view,
    phoneme_chunks_view,
};

verus! {

/// An uppercase ASCII letter.
pub open spec fn ascii_upper(c: char) -> bool {
    0x41 <= c as u32 && c as u32 <= 0x5A
}

/// Structural special characters that mark a word as complex.
pub open spec fn is_special_char(c: char) -> bool {
    c == '/' || c == '\\' || c == '(' || c == ')' || c == '{' || c == '}' || c == '[' || c == ']'
        || c == '+' || c == '@' || c == '='
}

/// How many uppercase ASCII letters the string holds.
pub open spec fn upper_count(s: Seq<char>) -> nat
    decreases s.len(),
{
    if s.len() == 0 {
        0
    } else {
        upper_count(s.drop_last()) + (if ascii_upper(s.last()) {
            1nat
        } else {
            0nat
        })
    }
}

/// A complex word maps to several phonemic sub-words: it holds two or more
/// uppercase letters (acronym-like), a digit, or a structural special
/// character.
pub open spec fn is_complex_spec(s: Seq<char>) -> bool {
    upper_count(s) >= 2 || (exists|i: int| 0 <= i < s.len() && unicode_number(s[i])) || (exists|
        i: int,
    | 0 <= i < s.len() && is_special_char(s[i]))
}

/// Whether the word needs the complex-word treatment.
pub fn is_complex(string: &str) -> (r: bool)
    ensures
        r == is_complex_spec(string@),
{
    let v = str_to_chars(string);
    let mut uppers: usize = 0;
    let mut has_digit = false;
    let mut has_special = false;
    let mut i: usize = 0;
    while i < v.len()
        invariant
            v@ == string@,
            i <= v@.len(),
            uppers <= i,
            uppers == upper_count(string@.take(i as int)),
            has_digit == exists|k: int| 0 <= k < i && unicode_number(string@[k]),
            has_special == exists|k: int| 0 <= k < i && is_special_char(string@[k]),
        decreases v@.len() - i,
    {
        let c = v[i];
        proof {
            let t = string@.take(i + 1);
            assert(t.drop_last() =~= string@.take(i as int));
            assert(t.last() == string@[i as int]);
        }
        if (c as u32) >= 0x41 && (c as u32) <= 0x5A {
            uppers = uppers + 1;
        }
        if is_number_char(c) {
            has_digit = true;
        }
        if c == '/' || c == '\\' || c == '(' || c == ')' || c == '{' || c == '}' || c == '['
            || c == ']' || c == '+' || c == '@' || c == '=' {
            has_special = true;
        }
        i = i + 1;
    }
    proof {
        assert(string@.take(v@.len() as int) =~= string@);
    }
    uppers >= 2 || has_digit || has_special
}

/// How many maximal runs of non-space characters the string holds.
pub open spec fn run_starts(s: Seq<char>) -> nat
    decreases s.len(),
{
    if s.len() == 0 {
        0
    } else {
        run_starts(s.drop_last()) + (if s.last() != ' ' && (s.len() == 1 || s[s.len() - 2] == ' ') {
            1nat
        } else {
            0nat
        })
    }
}

/// The number of sub-words of a phonemized string: its space-separated
/// non-empty segments, but at least 1.
pub open spec fn subword_count_spec(s: Seq<char>) -> nat {
    if run_starts(s) >= 1 {
        run_starts(s)
    } else {
        1
    }
}

/// Counts the space-separated sub-words of a phonemized string, with a
/// floor of 1.
pub fn count_subwords(s: &str) -> (r: usize)
    ensures
        r == subword_count_spec(s@),
{
    let v = str_to_chars(s);
    let mut count: usize = 0;
    let mut i: usize = 0;
    while i < v.len()
        invariant
            v@ == s@,
            i <= v@.len(),
            count <= i,
            count == run_starts(s@.take(i as int)),
        decreases v@.len() - i,
    {
        proof {
            let t = s@.take(i + 1);
            assert(t.drop_last() =~= s@.take(i as int));
            assert(t.last() == s@[i as int]);
            if i > 0 {
                assert(t[t.len() - 2] == s@[i - 1]);
            }
        }
        if v[i] != ' ' && (i == 0 || v[i - 1] == ' ') {
            count = count + 1;
        }
        i = i + 1;
    }
    proof {
        assert(s@.take(v@.len() as int) =~= s@);
    }
    if count == 0 {
        1
    } else {
        count
    }
}

/// Whether offset `o` keeps the scoring window inside both sequences.
pub open spec fn offset_ok(wlen: int, plen: int, wi: int, pi: int, max_dist: int, o: int) -> bool {
    wi + o >= 0 && wi + o + max_dist < wlen && pi + max_dist < plen
}

/// Walks candidate offsets from `o` down to `lo`, keeping the first one
/// with the strictly smallest score.
pub open spec fn best_offset_from(
    words: Seq<ChunkView>,
    phons: Seq<PhonemeChunkView>,
    wi: int,
    pi: int,
    max_dist: int,
    o: int,
    lo: int,
    best: Option<(int, nat)>,
) -> Option<(int, nat)>
    decreases o - lo + 1,
{
    if o < lo {
        best
    } else {
        let ok = offset_ok(words.len() as int, phons.len() as int, wi, pi, max_dist, o);
        let s = average_leven(words, phons, wi + o, pi, max_dist, true);
        let next = if !ok {
            best
        } else {
            match best {
                None => Some((o, s)),
                Some((bo, bs)) => if s < bs {
                    Some((o, s))
                } else {
                    best
                },
            }
        };
        best_offset_from(words, phons, wi, pi, max_dist, o - 1, lo, next)
    }
}

/// The signed word offset that minimizes the average distance, scanning
/// from `max_off` down to `-max_off`; 0 when no candidate stays in bounds
/// or the best score is still above 0.4.
pub open spec fn closest_offset_spec(
    words: Seq<ChunkView>,
    phons: Seq<PhonemeChunkView>,
    wi: int,
    pi: int,
    max_off: int,
    max_dist: int,
) -> int {
    match best_offset_from(words, phons, wi, pi, max_dist, max_off, -max_off, None) {
        None => 0,
        Some((bo, bs)) => if bs > 400 {
            0
        } else {
            bo
        },
    }
}

/// The model of the running best candidate.
pub open spec fn best_view(b: Option<(i128, u128)>) -> Option<(int, nat)> {
    match b {
        None => None,
        Some((bo, bs)) => Some((bo as int, bs as nat)),
    }
}

/// Finds the word offset that minimizes the average fuzzy distance against
/// the phonemes from the current position, looking up to `max_offset`
/// words to either side and scoring over `max_distance` pairs.  The caps
/// keep the signed result and the fixed-point scores within their types.
pub fn get_closest_correct_word_offset(
    words: &Vec<Chunk>,
    phonemes: &Vec<PhonemeChunk>,
    word_index: usize,
    phoneme_index: usize,
    max_offset: usize,
    max_distance: usize,
) -> (r: isize)
    requires
        1 <= max_distance <= 0x1_0000_0000_0000,
        max_offset <= 0x7FFF_FFFF,
    ensures
        r as int == closest_offset_spec(
            chunks_view(words@),
            phoneme_chunks_view(phonemes@),
            word_index as int,
            phoneme_index as int,
            max_offset as int,
            max_distance as int,
        ),
{
    let ghost wv = chunks_view(words@);
    let ghost pv = phoneme_chunks_view(phonemes@);
    let wlen = words.len();
    let plen = phonemes.len();
    let lo: i128 = -(max_offset as i128);
    let mut o: i128 = max_offset as i128;
    let mut best: Option<(i128, u128)> = None;
    while o >= lo
        invariant
            wv == chunks_view(words@),
            pv == phoneme_chunks_view(phonemes@),
            wlen == words@.len(),
            plen == phonemes@.len(),
            1 <= max_distance <= 0x1_0000_0000_0000,
            max_offset <= 0x7FFF_FFFF,
            lo == -(max_offset as int),
            lo - 1 <= o <= max_offset,
            best matches Some((bo, bs)) ==> -0x8000_0000 <= bo <= 0x7FFF_FFFF,
            best_offset_from(
                wv,
                pv,
                word_index as int,
                phoneme_index as int,
                max_distance as int,
                max_offset as int,
                lo as int,
                None,
            ) == best_offset_from(
                wv,
                pv,
                word_index as int,
                phoneme_index as int,
                max_distance as int,
                o as int,
                lo as int,
                best_view(best),
            ),
        decreases o - lo + 1,
    {
        let wi128 = word_index as i128;
        let md128 = max_distance as i128;
        let ok = wi128 + o >= 0 && wi128 + o + md128 < wlen as i128 && phoneme_index as i128
            + md128 < plen as i128;
        if ok {
            let wio: usize = (word_index as i128 + o) as usize;
            let s = get_average_leven(words, phonemes, wio, phoneme_index, max_distance, "forward");
            best = match best {
                None => Some((o, s)),
                Some((bo, bs)) => if s < bs {
                    Some((o, s))
                } else {
                    Some((bo, bs))
                },
            };
        }
        o = o - 1;
    }
    match best {
        None => 0,
        Some((bo, bs)) => if bs > 400 {
            0
        } else {
            bo as isize
        },
    }
}

/// The phonemizer sub-word count used for word `i`: the caller-supplied
/// entry with a floor of 1, or 1 where none was supplied.
pub open spec fn count_at(counts: Seq<usize>, i: int) -> nat {
    if 0 <= i < counts.len() {
        if counts[i] >= 1 {
            counts[i] as nat
        } else {
            1
        }
    } else {
        1
    }
}

/// The desync scoring window at a driver position: at most 3 pairs, and
/// never past the end of either sequence.
pub open spec fn window_at(wlen: int, plen: int, wi: int, pi: int) -> int {
    let rem = if wlen - wi - 1 <= plen - pi - 1 {
        wlen - wi - 1
    } else {
        plen - pi - 1
    };
    if 3 <= rem {
        3
    } else {
        rem
    }
}

/// The word chunk as the driver first fills it at position `(wi, pi)`: its
/// start time is the previous emitted child's end time if any, else the
/// phoneme's start time; its end time the phoneme's; and under phoneme
/// bounds its character span is the phoneme's index span.
pub open spec fn assigned_word(
    words: Seq<ChunkView>,
    phons: Seq<PhonemeChunkView>,
    wi: int,
    pi: int,
    upb: bool,
    acc: Seq<ChunkView>,
) -> ChunkView {
    ChunkView {
        value: words[wi].value,
        start: if upb {
            phons[pi].start
        } else {
            words[wi].start
        },
        end: if upb {
            phons[pi].end
        } else {
            words[wi].end
        },
        start_time: if acc.len() > 0 {
            acc.last().end_time
        } else {
            phons[pi].start_time
        },
        end_time: phons[pi].end_time,
    }
}

/// One step of the alignment walk from `(wi, pi)` with `acc` the chunks
/// emitted so far, followed by the rest of the walk.
///
/// A complex word consumes as many phoneme chunks as the phonemizer found
/// sub-words in it.  Otherwise, when the windowed average distance exceeds
/// 0.6, the bounded local search decides: a positive offset splits the
/// previous word's interval at its midpoint — the previous word keeps the
/// first half, the current word runs from the midpoint to the current
/// phoneme's end — and the same phoneme is re-examined against the next
/// word; a negative offset skips one phoneme; a zero offset applies no
/// correction.
pub open spec fn align_from(
    words: Seq<ChunkView>,
    phons: Seq<PhonemeChunkView>,
    counts: Seq<usize>,
    upb: bool,
    wi: int,
    pi: int,
    acc: Seq<ChunkView>,
) -> Seq<ChunkView>
    decreases words.len() - wi,
{
    if wi < 0 || wi >= words.len() || pi < 0 || pi >= phons.len() {
        acc
    } else {
        let plen = phons.len() as int;
        let w1 = assigned_word(words, phons, wi, pi, upb, acc);
        if is_complex_spec(words[wi].value) {
            let step = count_at(counts, wi) - 1;
            let pi2 = if pi + step > plen {
                plen
            } else {
                pi + step
            };
            let endidx = if pi2 < plen {
                pi2
            } else {
                plen - 1
            };
            let w2 = ChunkView {
                end_time: phons[endidx].end_time,
                end: if upb {
                    phons[endidx].end
                } else {
                    w1.end
                },
                ..w1
            };
            align_from(words, phons, counts, upb, wi + 1, pi2 + 1, acc.push(w2))
        } else {
            let window = window_at(words.len() as int, plen, wi, pi);
            let desync = window >= 1 && average_leven(words, phons, wi, pi, window, true) > 600;
            if desync {
                let off = closest_offset_spec(words, phons, wi, pi, 8, 3);
                if off > 0 && wi > 0 && acc.len() > 0 {
                    let prev = acc.last();
                    let mid = (prev.start_time + prev.end_time) / 2;
                    let prev2 = ChunkView { end_time: mid, ..prev };
                    let cur = ChunkView { start_time: mid, ..w1 };
                    align_from(
                        words,
                        phons,
                        counts,
                        upb,
                        wi + 1,
                        pi,
                        acc.update(acc.len() - 1, prev2).push(cur),
                    )
                } else if off < 0 {
                    let cur = ChunkView { end_time: phons[pi + 1].end_time, ..w1 };
                    align_from(words, phons, counts, upb, wi + 1, pi + 2, acc.push(cur))
                } else {
                    align_from(words, phons, counts, upb, wi + 1, pi + 1, acc.push(w1))
                }
            } else {
                align_from(words, phons, counts, upb, wi + 1, pi + 1, acc.push(w1))
            }
        }
    }
}

/// The aligned word chunks for the given words, phonemes and per-word
/// phonemizer sub-word counts.
pub open spec fn align_spec(
    words: Seq<ChunkView>,
    phons: Seq<PhonemeChunkView>,
    counts: Seq<usize>,
    upb: bool,
) -> Seq<ChunkView> {
    align_from(words, phons, counts, upb, 0, 0, Seq::<ChunkView>::empty())
}

/// Walks the word and phoneme chunks in lockstep and assigns each word its
/// time interval (and, under phoneme bounds, its index span).
/// `subword_counts` holds, for each word, the number of sub-words the
/// external phonemizer finds in that word's text alone; it is consulted
/// only for complex words, and missing entries count as 1.  Trailing words
/// with no remaining phonemes are dropped.
#[verifier::rlimit(100)]
pub fn align_chunks(
    words: &Vec<Chunk>,
    phonemes: &Vec<PhonemeChunk>,
    subword_counts: &Vec<usize>,
    use_phoneme_bounds: bool,
) -> (r: Vec<Chunk>)
    ensures
        chunks_view(r@) == align_spec(
            chunks_view(words@),
            phoneme_chunks_view(phonemes@),
            subword_counts@,
            use_phoneme_bounds,
        ),
        r@.len() <= words@.len(),
{
    let ghost wv = chunks_view(words@);
    let ghost pv = phoneme_chunks_view(phonemes@);
    let ghost cv = subword_counts@;
    let wlen = words.len();
    let plen = phonemes.len();
    let mut chunks: Vec<Chunk> = Vec::new();
    proof {
        assert(chunks_view(chunks@) =~= Seq::<ChunkView>::empty());
    }
    let mut wi: usize = 0;
    let mut pi: usize = 0;
    while wi < wlen && pi < plen
        invariant
            wv == chunks_view(words@),
            pv == phoneme_chunks_view(phonemes@),
            cv == subword_counts@,
            wlen == words@.len(),
            plen == phonemes@.len(),
            wi <= wlen,
            pi <= plen,
            chunks@.len() == wi,
            align_spec(wv, pv, cv, use_phoneme_bounds) == align_from(
                wv,
                pv,
                cv,
                use_phoneme_bounds,
                wi as int,
                pi as int,
                chunks_view(chunks@),
            ),
        decreases wlen - wi,
    {
        let ghost acc0 = chunks_view(chunks@);
        proof {
            assert(wv[wi as int] == words@[wi as int]@);
            assert(pv[pi as int] == phonemes@[pi as int]@);
        }
        let mut word = words[wi].clone();
        let start_time = if chunks.len() > 0 {
            proof {
                assert(acc0[chunks@.len() - 1] == chunks@[chunks@.len() - 1]@);
            }
            chunks[chunks.len() - 1].end_time
        } else {
            phonemes[pi].start_time
        };
        word.start_time = start_time;
        word.end_time = phonemes[pi].end_time;
        if use_phoneme_bounds {
            word.start = phonemes[pi].start;
            word.end = phonemes[pi].end;
        }
        proof {
            assert(word@ == assigned_word(wv, pv, wi as int, pi as int, use_phoneme_bounds, acc0));
        }
        if is_complex(word.value.as_str()) {
            let cnt_raw: usize = if wi < subword_counts.len() {
                subword_counts[wi]
            } else {
                1
            };
            let cnt: usize = if cnt_raw < 1 {
                1
            } else {
                cnt_raw
            };
            proof {
                assert(cnt == count_at(cv, wi as int));
            }
            let step = cnt - 1;
            let pi2: usize = if step >= plen - pi {
                plen
            } else {
                pi + step
            };
            let endidx: usize = if pi2 < plen {
                pi2
            } else {
                plen - 1
            };
            proof {
                assert(pv[endidx as int] == phonemes@[endidx as int]@);
            }
            word.end_time = phonemes[endidx].end_time;
            if use_phoneme_bounds {
                word.end = phonemes[endidx].end;
            }
            chunks.push(word);
            proof {
                assert(chunks_view(chunks@) =~= acc0.push(chunks@.last()@));
            }
            wi = wi + 1;
            if pi2 >= plen {
                pi = plen;
                proof {
                    assert(align_from(wv, pv, cv, use_phoneme_bounds, wi as int, plen + 1, chunks_view(chunks@))
                        == align_from(wv, pv, cv, use_phoneme_bounds, wi as int, plen as int, chunks_view(chunks@)));
                }
            } else {
                pi = pi2 + 1;
            }
        } else {
            let remw = wlen - wi - 1;
            let remp = plen - pi - 1;
            let rem = if remw <= remp {
                remw
            } else {
                remp
            };
            let window: usize = if 3 <= rem {
                3
            } else {
                rem
            };
            let desync = if window >= 1 {
                get_average_leven(words, phonemes, wi, pi, window, "forward") > 600
            } else {
                false
            };
            if desync {
                let offset = get_closest_correct_word_offset(words, phonemes, wi, pi, 8, 3);
                if offset > 0 && wi > 0 {
                    let ghost chunks_pre = chunks@;
                    let mut prev = chunks.pop().unwrap();
                    proof {
                        assert(acc0.last() == chunks_pre.last()@);
                        assert(prev@ == acc0.last());
                    }
                    let s = prev.start_time;
                    let e = prev.end_time;
                    let mid_wide: u128 = (s as u128 + e as u128) / 2;
                    proof {
                        assert(mid_wide <= u64::MAX as u128);
                    }
                    let mid: u64 = mid_wide as u64;
                    prev.end_time = mid;
                    word.start_time = mid;
                    let ghost prev2v = prev@;
                    let ghost curv = word@;
                    chunks.push(prev);
                    chunks.push(word);
                    proof {
                        assert(chunks_view(chunks@) =~= acc0.update(acc0.len() - 1, prev2v).push(
                            curv,
                        ));
                    }
                    wi = wi + 1;
                } else if offset < 0 {
                    proof {
                        assert(pv[pi + 1] == phonemes@[pi + 1]@);
                    }
                    word.end_time = phonemes[pi + 1].end_time;
                    chunks.push(word);
                    proof {
                        assert(chunks_view(chunks@) =~= acc0.push(chunks@.last()@));
                    }
                    wi = wi + 1;
                    pi = pi + 2;
                } else {
                    chunks.push(word);
                    proof {
                        assert(chunks_view(chunks@) =~= acc0.push(chunks@.last()@));
                    }
                    wi = wi + 1;
                    pi = pi + 1;
                }
            } else {
                chunks.push(word);
                proof {
                    assert(chunks_view(chunks@) =~= acc0.push(chunks@.last()@));
                }
                wi = wi + 1;
                pi = pi + 1;
            }
        }
    }
    chunks
}

/// Aligns the text against the phoneme stream: tokenizes both, walks them
/// in lockstep, and returns the document with its timed word chunks.  The
/// document's own times are left at 0.  `end_times_ms` holds the
/// cumulative end time of each phoneme symbol in milliseconds and must not
/// be empty unless the stream is; `subword_counts` holds the phonemizer's
/// sub-word count for each word (consulted only for complex words, missing
/// entries counting as 1).
pub fn align_phonemes_graphemes(
    text: &str,
    end_times_ms: &Vec<u64>,
    phonemes_list: &Vec<String>,
    use_phoneme_bounds: bool,
    subword_counts: &Vec<usize>,
) -> (r: NestedChunk)
    requires
        phonemes_list@.len() == 0 || end_times_ms@.len() >= 1,
    ensures
        r@.value == text@,
        r@.start == 0,
        r@.end == text@.len(),
        r@.start_time == 0,
        r@.end_time == 0,
        r@.chunks == align_spec(
            word_chunks_spec(text@),
            pc_spec(syms_view(phonemes_list@), end_times_ms@),
            subword_counts@,
            use_phoneme_bounds,
        ),
{
    let phonemes = transform_raw_phoneme_timestamps(phonemes_list, end_times_ms);
    let words = split_text_to_word_chunks(text);
    let chunks = align_chunks(&words, &phonemes, subword_counts, use_phoneme_bounds);
    let end = text.unicode_len();
    NestedChunk {
        value: text.to_owned(),
        start: 0,
        end,
        start_time: 0,
        end_time: 0,
        chunks,
    }
}

/// Aligns the text against the phoneme stream and copies the document's
/// times from its first child (0 when there are no children).
pub fn force_align_phonemes_graphemes_list(
    text: &str,
    end_times_ms: &Vec<u64>,
    phonemes_list: &Vec<String>,
    use_phoneme_bounds: bool,
    subword_counts: &Vec<usize>,
) -> (r: NestedChunk)
    requires
        phonemes_list@.len() == 0 || end_times_ms@.len() >= 1,
    ensures
        r@.value == text@,
        r@.start == 0,
        r@.end == text@.len(),
        r@.chunks == align_spec(
            word_chunks_spec(text@),
            pc_spec(syms_view(phonemes_list@), end_times_ms@),
            subword_counts@,
            use_phoneme_bounds,
        ),
        r@.start_time == if r@.chunks.len() > 0 {
            r@.chunks[0].start_time
        } else {
            0
        },
        r@.end_time == if r@.chunks.len() > 0 {
            r@.chunks[0].end_time
        } else {
            0
        },
{
    let mut doc = align_phonemes_graphemes(
        text,
        end_times_ms,
        phonemes_list,
        use_phoneme_bounds,
        subword_counts,
    );
    if doc.chunks.len() > 0 {
        proof {
            assert(chunks_view(doc.chunks@)[0] == doc.chunks@[0]@);
        }
        doc.start_time = doc.chunks[0].start_time;
        doc.end_time = doc.chunks[0].end_time;
    }
    doc
}

/// A zero offset from the local search applies no correction: the step
/// emits the word exactly as the non-corrected baseline does, advancing
/// both indices by one.
pub proof fn lemma_zero_offset_is_baseline(
    words: Seq<ChunkView>,
    phons: Seq<PhonemeChunkView>,
    counts: Seq<usize>,
    upb: bool,
    wi: int,
    pi: int,
    acc: Seq<ChunkView>,
)
    requires
        0 <= wi < words.len(),
        0 <= pi < phons.len(),
        !is_complex_spec(words[wi].value),
        closest_offset_spec(words, phons, wi, pi, 8, 3) == 0,
    ensures
        align_from(words, phons, counts, upb, wi, pi, acc) == align_from(
            words,
            phons,
            counts,
            upb,
            wi + 1,
            pi + 1,
            acc.push(assigned_word(words, phons, wi, pi, upb, acc)),
        ),
{
}

/// Any candidate the local search can return keeps the scoring window
/// inside the phoneme sequence; in particular, a non-zero offset implies
/// `pi + max_dist < phons.len()`.
proof fn lemma_best_offset_needs_room(
    words: Seq<ChunkView>,
    phons: Seq<PhonemeChunkView>,
    wi: int,
    pi: int,
    max_dist: int,
    o: int,
    lo: int,
    best: Option<(int, nat)>,
)
    requires
        pi + max_dist >= phons.len(),
    ensures
        best_offset_from(words, phons, wi, pi, max_dist, o, lo, best) == best,
    decreases o - lo + 1,
{
    if o >= lo {
        lemma_best_offset_needs_room(words, phons, wi, pi, max_dist, o - 1, lo, best);
    }
}

/// Any candidate the local search keeps lies in `[lo, o]` and satisfies
/// the bounds filter.
proof fn lemma_best_offset_range(
    words: Seq<ChunkView>,
    phons: Seq<PhonemeChunkView>,
    wi: int,
    pi: int,
    max_dist: int,
    o: int,
    lo: int,
    best: Option<(int, nat)>,
)
    requires
        best matches Some((bo, bs)) ==> lo <= bo && offset_ok(
            words.len() as int,
            phons.len() as int,
            wi,
            pi,
            max_dist,
            bo,
        ),
    ensures
        best_offset_from(words, phons, wi, pi, max_dist, o, lo, best) matches Some((bo, bs)) ==> lo
            <= bo && offset_ok(words.len() as int, phons.len() as int, wi, pi, max_dist, bo),
    decreases o - lo + 1,
{
    if o >= lo {
        let ok = offset_ok(words.len() as int, phons.len() as int, wi, pi, max_dist, o);
        let s = average_leven(words, phons, wi + o, pi, max_dist, true);
        let next = if !ok {
            best
        } else {
            match best {
                None => Some((o, s)),
                Some((bo, bs)) => if s < bs {
                    Some((o, s))
                } else {
                    best
                },
            }
        };
        lemma_best_offset_range(words, phons, wi, pi, max_dist, o - 1, lo, next);
    }
}

/// With at most four phoneme chunks, the local search is inert, every step
/// consumes at least one phoneme, and the walk emits at most one chunk per
/// phoneme.
proof fn lemma_align_len_few_phonemes(
    words: Seq<ChunkView>,
    phons: Seq<PhonemeChunkView>,
    counts: Seq<usize>,
    upb: bool,
    wi: int,
    pi: int,
    acc: Seq<ChunkView>,
)
    requires
        phons.len() <= 4,
        0 <= pi,
        wi == 0 || pi >= 1,
    ensures
        align_from(words, phons, counts, upb, wi, pi, acc).len() <= acc.len() + (if pi
            <= phons.len() {
            phons.len() - pi
        } else {
            0
        }),
    decreases words.len() - wi,
{
    if 0 <= wi < words.len() && pi < phons.len() {
        let plen = phons.len() as int;
        let w1 = assigned_word(words, phons, wi, pi, upb, acc);
        if is_complex_spec(words[wi].value) {
            let step = count_at(counts, wi) - 1;
            let pi2 = if pi + step > plen {
                plen
            } else {
                pi + step
            };
            let endidx = if pi2 < plen {
                pi2
            } else {
                plen - 1
            };
            let w2 = ChunkView {
                end_time: phons[endidx].end_time,
                end: if upb {
                    phons[endidx].end
                } else {
                    w1.end
                },
                ..w1
            };
            lemma_align_len_few_phonemes(words, phons, counts, upb, wi + 1, pi2 + 1, acc.push(w2));
        } else {
            let window = window_at(words.len() as int, plen, wi, pi);
            let desync = window >= 1 && average_leven(words, phons, wi, pi, window, true) > 600;
            if desync {
                let off = closest_offset_spec(words, phons, wi, pi, 8, 3);
                let best = best_offset_from(words, phons, wi, pi, 3, 8, -8, None);
                if off != 0 {
                    assert(best matches Some((bo, bs)) && bo == off);
                    lemma_best_offset_range(words, phons, wi, pi, 3, 8, -8, None);
                    assert(offset_ok(words.len() as int, plen, wi, pi, 3, off));
                    if pi + 3 >= plen {
                        lemma_best_offset_needs_room(words, phons, wi, pi, 3, 8, -8, None);
                        assert(best is None);
                        assert(false);
                    }
                    // The window needs four phonemes ahead, so with at most
                    // four in all this is the very first position.
                    assert(pi + 3 < plen && plen <= 4);
                    assert(pi == 0 && wi == 0);
                    assert(off >= 0);
                }
                if off > 0 && wi > 0 && acc.len() > 0 {
                    assert(false);
                } else if off < 0 {
                    assert(false);
                } else {
                    lemma_align_len_few_phonemes(
                        words,
                        phons,
                        counts,
                        upb,
                        wi + 1,
                        pi + 1,
                        acc.push(w1),
                    );
                }
            } else {
                lemma_align_len_few_phonemes(
                    words,
                    phons,
                    counts,
                    upb,
                    wi + 1,
                    pi + 1,
                    acc.push(w1),
                );
            }
        }
    }
}

proof fn lemma_align_times_from(
    words: Seq<ChunkView>,
    phons: Seq<PhonemeChunkView>,
    counts: Seq<usize>,
    upb: bool,
    wi: int,
    pi: int,
    acc: Seq<ChunkView>,
)
    requires
        0 <= pi,
        forall|i: int| 0 <= i < phons.len() ==> #[trigger] phons[i].start_time <= phons[i].end_time,
        forall|i: int, j: int|
            0 <= i <= j < phons.len() ==> #[trigger] phons[i].end_time <= #[trigger] phons[j].end_time,
        forall|k: int| 0 <= k < acc.len() ==> #[trigger] acc[k].start_time <= acc[k].end_time,
        acc.len() > 0 && pi < phons.len() ==> acc.last().end_time <= phons[pi].end_time,
    ensures
        forall|k: int|
            0 <= k < align_from(words, phons, counts, upb, wi, pi, acc).len()
                ==> #[trigger] align_from(words, phons, counts, upb, wi, pi, acc)[k].start_time
                <= align_from(words, phons, counts, upb, wi, pi, acc)[k].end_time,
    decreases words.len() - wi,
{
    if 0 <= wi < words.len() && pi < phons.len() {
        let plen = phons.len() as int;
        let w1 = assigned_word(words, phons, wi, pi, upb, acc);
        assert(w1.start_time <= phons[pi].end_time);
        if is_complex_spec(words[wi].value) {
            let step = count_at(counts, wi) - 1;
            let pi2 = if pi + step > plen {
                plen
            } else {
                pi + step
            };
            let endidx = if pi2 < plen {
                pi2
            } else {
                plen - 1
            };
            let w2 = ChunkView {
                end_time: phons[endidx].end_time,
                end: if upb {
                    phons[endidx].end
                } else {
                    w1.end
                },
                ..w1
            };
            assert(phons[pi].end_time <= phons[endidx].end_time);
            lemma_align_times_from(words, phons, counts, upb, wi + 1, pi2 + 1, acc.push(w2));
            assert(align_from(words, phons, counts, upb, wi, pi, acc) == align_from(
                words,
                phons,
                counts,
                upb,
                wi + 1,
                pi2 + 1,
                acc.push(w2),
            ));
        } else {
            let window = window_at(words.len() as int, plen, wi, pi);
            let desync = window >= 1 && average_leven(words, phons, wi, pi, window, true) > 600;
            if desync {
                let off = closest_offset_spec(words, phons, wi, pi, 8, 3);
                if off > 0 && wi > 0 && acc.len() > 0 {
                    let prev = acc.last();
                    let mid = (prev.start_time + prev.end_time) / 2;
                    let prev2 = ChunkView { end_time: mid, ..prev };
                    let cur = ChunkView { start_time: mid, ..w1 };
                    assert(prev.start_time <= prev.end_time);
                    assert(prev.start_time <= mid <= prev.end_time);
                    lemma_align_times_from(
                        words,
                        phons,
                        counts,
                        upb,
                        wi + 1,
                        pi,
                        acc.update(acc.len() - 1, prev2).push(cur),
                    );
                    assert(align_from(words, phons, counts, upb, wi, pi, acc) == align_from(
                        words,
                        phons,
                        counts,
                        upb,
                        wi + 1,
                        pi,
                        acc.update(acc.len() - 1, prev2).push(cur),
                    ));
                } else if off < 0 {
                    let cur = ChunkView { end_time: phons[pi + 1].end_time, ..w1 };
                    lemma_align_times_from(words, phons, counts, upb, wi + 1, pi + 2, acc.push(cur));
                    assert(align_from(words, phons, counts, upb, wi, pi, acc) == align_from(
                        words,
                        phons,
                        counts,
                        upb,
                        wi + 1,
                        pi + 2,
                        acc.push(cur),
                    ));
                } else {
                    lemma_align_times_from(words, phons, counts, upb, wi + 1, pi + 1, acc.push(w1));
                    assert(align_from(words, phons, counts, upb, wi, pi, acc) == align_from(
                        words,
                        phons,
                        counts,
                        upb,
                        wi + 1,
                        pi + 1,
                        acc.push(w1),
                    ));
                }
            } else {
                lemma_align_times_from(words, phons, counts, upb, wi + 1, pi + 1, acc.push(w1));
                assert(align_from(words, phons, counts, upb, wi, pi, acc) == align_from(
                    words,
                    phons,
                    counts,
                    upb,
                    wi + 1,
                    pi + 1,
                    acc.push(w1),
                ));
            }
        }
    }
}

/// When the phoneme chunks carry ordered times (each interval forward, end
/// times non-decreasing along the stream), every aligned word chunk's end
/// time is at least its start time.
pub proof fn lemma_align_times_ordered(
    words: Seq<ChunkView>,
    phons: Seq<PhonemeChunkView>,
    counts: Seq<usize>,
    upb: bool,
)
    requires
        forall|i: int| 0 <= i < phons.len() ==> #[trigger] phons[i].start_time <= phons[i].end_time,
        forall|i: int, j: int|
            0 <= i <= j < phons.len() ==> #[trigger] phons[i].end_time <= #[trigger] phons[j].end_time,
    ensures
        forall|k: int|
            0 <= k < align_spec(words, phons, counts, upb).len() ==> #[trigger] align_spec(
                words,
                phons,
                counts,
                upb,
            )[k].start_time <= align_spec(words, phons, counts, upb)[k].end_time,
{
    lemma_align_times_from(words, phons, counts, upb, 0, 0, Seq::<ChunkView>::empty());
}

/// End to end: aligning any text against a symbol stream whose cumulative
/// end-times are non-decreasing (and whose symbols are single characters or
/// markers) produces word chunks whose end time is at least their start
/// time.
pub proof fn lemma_aligned_intervals_ordered(
    text: Seq<char>,
    syms: Seq<Seq<char>>,
    times: Seq<u64>,
    counts: Seq<usize>,
    upb: bool,
)
    requires
        times.len() >= 1,
        crate::phonemes::single_char_symbols(syms),
        forall|x: int, y: int| 0 <= x <= y < times.len() ==> times[x] <= times[y],
    ensures
        forall|k: int|
            0 <= k < align_spec(word_chunks_spec(text), pc_spec(syms, times), counts, upb).len()
                ==> #[trigger] align_spec(
                word_chunks_spec(text),
                pc_spec(syms, times),
                counts,
                upb,
            )[k].start_time <= align_spec(
                word_chunks_spec(text),
                pc_spec(syms, times),
                counts,
                upb,
            )[k].end_time,
{
    crate::phonemes::lemma_pc_times_ordered(syms, times);
    lemma_align_times_ordered(word_chunks_spec(text), pc_spec(syms, times), counts, upb);
}

proof fn lemma_align_len_words_from(
    words: Seq<ChunkView>,
    phons: Seq<PhonemeChunkView>,
    counts: Seq<usize>,
    upb: bool,
    wi: int,
    pi: int,
    acc: Seq<ChunkView>,
)
    ensures
        align_from(words, phons, counts, upb, wi, pi, acc).len() <= acc.len() + (if wi
            <= words.len() {
            words.len() - wi
        } else {
            0
        }),
    decreases words.len() - wi,
{
    if 0 <= wi < words.len() && 0 <= pi < phons.len() {
        let plen = phons.len() as int;
        let w1 = assigned_word(words, phons, wi, pi, upb, acc);
        if is_complex_spec(words[wi].value) {
            let step = count_at(counts, wi) - 1;
            let pi2 = if pi + step > plen {
                plen
            } else {
                pi + step
            };
            let endidx = if pi2 < plen {
                pi2
            } else {
                plen - 1
            };
            let w2 = ChunkView {
                end_time: phons[endidx].end_time,
                end: if upb {
                    phons[endidx].end
                } else {
                    w1.end
                },
                ..w1
            };
            lemma_align_len_words_from(words, phons, counts, upb, wi + 1, pi2 + 1, acc.push(w2));
        } else {
            let window = window_at(words.len() as int, plen, wi, pi);
            let desync = window >= 1 && average_leven(words, phons, wi, pi, window, true) > 600;
            if desync {
                let off = closest_offset_spec(words, phons, wi, pi, 8, 3);
                if off > 0 && wi > 0 && acc.len() > 0 {
                    let prev = acc.last();
                    let mid = (prev.start_time + prev.end_time) / 2;
                    let prev2 = ChunkView { end_time: mid, ..prev };
                    let cur = ChunkView { start_time: mid, ..w1 };
                    lemma_align_len_words_from(
                        words,
                        phons,
                        counts,
                        upb,
                        wi + 1,
                        pi,
                        acc.update(acc.len() - 1, prev2).push(cur),
                    );
                } else if off < 0 {
                    let cur = ChunkView { end_time: phons[pi + 1].end_time, ..w1 };
                    lemma_align_len_words_from(
                        words,
                        phons,
                        counts,
                        upb,
                        wi + 1,
                        pi + 2,
                        acc.push(cur),
                    );
                } else {
                    lemma_align_len_words_from(
                        words,
                        phons,
                        counts,
                        upb,
                        wi + 1,
                        pi + 1,
                        acc.push(w1),
                    );
                }
            } else {
                lemma_align_len_words_from(words, phons, counts, upb, wi + 1, pi + 1, acc.push(w1));
            }
        }
    }
}

/// The walk emits at most one word chunk per word: it runs at most one step
/// per word chunk and never more.
pub proof fn lemma_align_len_words(
    words: Seq<ChunkView>,
    phons: Seq<PhonemeChunkView>,
    counts: Seq<usize>,
    upb: bool,
)
    ensures
        align_spec(words, phons, counts, upb).len() <= words.len(),
{
    lemma_align_len_words_from(words, phons, counts, upb, 0, 0, Seq::<ChunkView>::empty());
}

/// With fewer phoneme chunks than fit one scoring window, the alignment
/// emits at most one word chunk per phoneme chunk.
pub proof fn lemma_align_len_bounded(
    words: Seq<ChunkView>,
    phons: Seq<PhonemeChunkView>,
    counts: Seq<usize>,
    upb: bool,
)
    requires
        phons.len() <= 4,
    ensures
        align_spec(words, phons, counts, upb).len() <= phons.len(),
{
    lemma_align_len_few_phonemes(words, phons, counts, upb, 0, 0, Seq::<ChunkView>::empty());
}

} // verus!
