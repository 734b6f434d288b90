//! Phoneme-stream tokenizer: turns the flat symbol stream with cumulative
//! end-times into phoneme chunks with symbol-index spans and millisecond
//! timestamps.
//!
//! Runs of boundary symbols are skipped; the symbols between boundaries are
//! accumulated (tag markers excluded) into one phonetic word.  A word that
//! matches the combined-phoneme table is split into its two constituents,
//! each with proportionally advanced offsets.  Timestamps are read from the
//! cumulative end-time array, clamped to its bounds.

use vstd::prelude::*;

use crate::lexicon::{phoneme_to_word, phoneme_to_word_spec};
use crate::strutil::{append_str, chars_eq_str, chars_to_string, str_eq, str_to_chars, trim_chars, trim_spec};
use crate::{PhonemeChunk, PhonemeChunkView, phoneme_chunks_view};

verus! {

/// The view of each symbol of the stream.
pub open spec fn syms_view(l: Seq<String>) -> Seq<Seq<char>> {
    l.map_values(|s: String| s@)
}

/// Symbols that end a phonetic word: punctuation, space, line break and the
/// closing tag markers.
pub open spec fn is_boundary_sym(s: Seq<char>) -> bool {
    s == "!"@ || s == "("@ || s == ")"@ || s == "-"@ || s == ";"@ || s == ":"@ || s == ","@ || s
        == "."@ || s == "?"@ || s == "¡"@ || s == "¿"@ || s == "—"@ || s == "…"@ || s == "'"@ || s
        == "«"@ || s == "»"@ || s == "“"@ || s == "”"@ || s == " "@ || s == "\n"@ || s == "</w>"@
        || s == "</s>"@
}

/// Whether the symbol is a phonetic word boundary.
pub fn is_phonetic_word_boundary(phoneme: &str) -> (r: bool)
    ensures
        r == is_boundary_sym(phoneme@),
{
    str_eq(phoneme, "!") || str_eq(phoneme, "(") || str_eq(phoneme, ")") || str_eq(phoneme, "-")
        || str_eq(phoneme, ";") || str_eq(phoneme, ":") || str_eq(phoneme, ",") || str_eq(
        phoneme,
        ".",
    ) || str_eq(phoneme, "?") || str_eq(phoneme, "¡") || str_eq(phoneme, "¿") || str_eq(
        phoneme,
        "—",
    ) || str_eq(phoneme, "…") || str_eq(phoneme, "'") || str_eq(phoneme, "«") || str_eq(
        phoneme,
        "»",
    ) || str_eq(phoneme, "“") || str_eq(phoneme, "”") || str_eq(phoneme, " ") || str_eq(
        phoneme,
        "\n",
    ) || str_eq(phoneme, "</w>") || str_eq(phoneme, "</s>")
}

/// Tag markers, excluded from the accumulated phonetic word.
pub open spec fn is_tag_sym(s: Seq<char>) -> bool {
    s == "<w>"@ || s == "<s>"@ || s == "</w>"@ || s == "</s>"@
}

fn is_tag_sym_exec(phoneme: &str) -> (r: bool)
    ensures
        r == is_tag_sym(phoneme@),
{
    str_eq(phoneme, "<w>") || str_eq(phoneme, "<s>") || str_eq(phoneme, "</w>") || str_eq(
        phoneme,
        "</s>",
    )
}

/// The combined-phoneme table: phonetic words that elide a written word
/// boundary, split into their two constituent written sub-phonemes.
pub open spec fn combined_split(s: Seq<char>) -> Option<(Seq<char>, Seq<char>)> {
    if s == "ðæɾə"@ {
        Some(("ðæɾ"@, "ə"@))
    } else if s == "fɚðə"@ {
        Some(("fɚ"@, "ðə"@))
    } else if s == "fɚɹə"@ {
        Some(("fɚɹ"@, "ə"@))
    } else if s == "ɪnðə"@ {
        Some(("ɪn"@, "ðə"@))
    } else if s == "ɔnðɪ"@ {
        Some(("ɔn"@, "ðɪ"@))
    } else if s == "dɪdnɑːt"@ {
        Some(("dɪd"@, "nɑːt"@))
    } else if s == "wɪððə"@ {
        Some(("wɪð"@, "ðə"@))
    } else if s == "ʌvðə"@ {
        Some(("ʌv"@, "ðə"@))
    } else if s == "ʌvðɪ"@ {
        Some(("ʌv"@, "ðɪ"@))
    } else if s == "wʌzðə"@ {
        Some(("wʌz"@, "ðə"@))
    } else if s == "dʌznɑːt"@ {
        Some(("dʌz"@, "nɑːt"@))
    } else if s == "aʊɾəv"@ {
        Some(("aʊɾ"@, "əv"@))
    } else if s == "fɹʌmðə"@ {
        Some(("fɹʌm"@, "ðə"@))
    } else if s == "ðætwʌn"@ {
        Some(("ðæt"@, "wʌn"@))
    } else if s == "ðætðɪ"@ {
        Some(("ðæt"@, "ðɪ"@))
    } else if s == "meɪhɐv"@ {
        Some(("meɪ"@, "hɐv"@))
    } else if s == "təbi"@ {
        Some(("tə"@, "bi"@))
    } else {
        None
    }
}

fn combined_lookup(v: &Vec<char>) -> (r: Option<(&'static str, &'static str)>)
    ensures
        match r {
            Some((x, y)) => combined_split(v@) == Some((x@, y@)),
            None => combined_split(v@) is None,
        },
{
    if chars_eq_str(v, "ðæɾə") {
        Some(("ðæɾ", "ə"))
    } else if chars_eq_str(v, "fɚðə") {
        Some(("fɚ", "ðə"))
    } else if chars_eq_str(v, "fɚɹə") {
        Some(("fɚɹ", "ə"))
    } else if chars_eq_str(v, "ɪnðə") {
        Some(("ɪn", "ðə"))
    } else if chars_eq_str(v, "ɔnðɪ") {
        Some(("ɔn", "ðɪ"))
    } else if chars_eq_str(v, "dɪdnɑːt") {
        Some(("dɪd", "nɑːt"))
    } else if chars_eq_str(v, "wɪððə") {
        Some(("wɪð", "ðə"))
    } else if chars_eq_str(v, "ʌvðə") {
        Some(("ʌv", "ðə"))
    } else if chars_eq_str(v, "ʌvðɪ") {
        Some(("ʌv", "ðɪ"))
    } else if chars_eq_str(v, "wʌzðə") {
        Some(("wʌz", "ðə"))
    } else if chars_eq_str(v, "dʌznɑːt") {
        Some(("dʌz", "nɑːt"))
    } else if chars_eq_str(v, "aʊɾəv") {
        Some(("aʊɾ", "əv"))
    } else if chars_eq_str(v, "fɹʌmðə") {
        Some(("fɹʌm", "ðə"))
    } else if chars_eq_str(v, "ðætwʌn") {
        Some(("ðæt", "wʌn"))
    } else if chars_eq_str(v, "ðætðɪ") {
        Some(("ðæt", "ðɪ"))
    } else if chars_eq_str(v, "meɪhɐv") {
        Some(("meɪ", "hɐv"))
    } else if chars_eq_str(v, "təbi") {
        Some(("tə", "bi"))
    } else {
        None
    }
}

/// Splitting a combined phoneme preserves its span: the two constituents
/// are together exactly as long as the combined form.
pub proof fn lemma_combined_split_spans(s: Seq<char>)
    ensures
        combined_split(s) matches Some((x, y)) ==> x.len() + y.len() == s.len(),
{
    reveal_strlit("ðæɾə");
    reveal_strlit("ðæɾ");
    reveal_strlit("ə");
    reveal_strlit("fɚðə");
    reveal_strlit("fɚ");
    reveal_strlit("ðə");
    reveal_strlit("fɚɹə");
    reveal_strlit("fɚɹ");
    reveal_strlit("ɪnðə");
    reveal_strlit("ɪn");
    reveal_strlit("ɔnðɪ");
    reveal_strlit("ɔn");
    reveal_strlit("ðɪ");
    reveal_strlit("dɪdnɑːt");
    reveal_strlit("dɪd");
    reveal_strlit("nɑːt");
    reveal_strlit("wɪððə");
    reveal_strlit("wɪð");
    reveal_strlit("ʌvðə");
    reveal_strlit("ʌv");
    reveal_strlit("ʌvðɪ");
    reveal_strlit("wʌzðə");
    reveal_strlit("wʌz");
    reveal_strlit("dʌznɑːt");
    reveal_strlit("dʌz");
    reveal_strlit("aʊɾəv");
    reveal_strlit("aʊɾ");
    reveal_strlit("əv");
    reveal_strlit("fɹʌmðə");
    reveal_strlit("fɹʌm");
    reveal_strlit("ðætwʌn");
    reveal_strlit("ðæt");
    reveal_strlit("wʌn");
    reveal_strlit("ðætðɪ");
    reveal_strlit("meɪhɐv");
    reveal_strlit("meɪ");
    reveal_strlit("hɐv");
    reveal_strlit("təbi");
    reveal_strlit("tə");
    reveal_strlit("bi");
}

/// The index of the first boundary symbol at or after `i`, or the length.
pub open spec fn gather_end(syms: Seq<Seq<char>>, i: int) -> int
    decreases syms.len() - i,
{
    if i < 0 || i >= syms.len() {
        syms.len() as int
    } else if is_boundary_sym(syms[i]) {
        i
    } else {
        gather_end(syms, i + 1)
    }
}

proof fn lemma_gather_end(syms: Seq<Seq<char>>, i: int)
    requires
        0 <= i <= syms.len(),
    ensures
        i <= gather_end(syms, i) <= syms.len(),
        gather_end(syms, i) < syms.len() ==> is_boundary_sym(syms[gather_end(syms, i)]),
        forall|k: int| i <= k < gather_end(syms, i) ==> !is_boundary_sym(syms[k]),
    decreases syms.len() - i,
{
    if i < syms.len() && !is_boundary_sym(syms[i]) {
        lemma_gather_end(syms, i + 1);
    }
}

/// The concatenation of the symbols in `[i, j)`, tag markers excluded.
pub open spec fn concat_nontag(syms: Seq<Seq<char>>, i: int, j: int) -> Seq<char>
    decreases j - i,
{
    if j <= i {
        Seq::<char>::empty()
    } else {
        concat_nontag(syms, i, j - 1) + (if is_tag_sym(syms[j - 1]) {
            Seq::<char>::empty()
        } else {
            syms[j - 1]
        })
    }
}

/// The millisecond timestamp at which the symbol span beginning at index
/// `idx` starts, read from the cumulative end-time array and clamped to its
/// bounds.
pub open spec fn time_start_at(times: Seq<u64>, idx: int) -> int {
    let k = if idx == 0 {
        0
    } else {
        idx - 1
    };
    let k2 = if k > times.len() - 1 {
        times.len() - 1
    } else {
        k
    };
    times[k2] as int
}

/// The millisecond timestamp at which the symbol span ending at index
/// `idx` ends, clamped to the array bounds.
pub open spec fn time_end_at(times: Seq<u64>, idx: int) -> int {
    let k = if idx < 1 {
        1
    } else {
        idx
    };
    let k2 = if k > times.len() {
        times.len() as int
    } else {
        k
    };
    times[k2 - 1] as int
}

/// The chunk made for one phonetic word (or combined-phoneme constituent)
/// whose symbols span `[start, start + value.len())` of a stream of `n`
/// symbols.
pub open spec fn part_chunk(value: Seq<char>, start: int, n: int, times: Seq<u64>) -> PhonemeChunkView {
    PhonemeChunkView {
        value: value,
        value_word: trim_spec(phoneme_to_word_spec(value)),
        start: if start > n {
            n
        } else {
            start
        },
        end: if start + value.len() > n {
            n
        } else {
            start + value.len()
        },
        start_time: time_start_at(times, start),
        end_time: time_end_at(times, start + value.len() as int),
    }
}

/// Zero or one chunk for a single part: empty parts are dropped.
pub open spec fn emit_part(value: Seq<char>, start: int, n: int, times: Seq<u64>) -> Seq<
    PhonemeChunkView,
> {
    if value.len() == 0 {
        Seq::<PhonemeChunkView>::empty()
    } else {
        seq![part_chunk(value, start, n, times)]
    }
}

/// The chunks made for one accumulated phonetic word: two for a
/// combined-phoneme entry, else one, with empty parts dropped.
pub open spec fn chunks_of_value(value: Seq<char>, start: int, n: int, times: Seq<u64>) -> Seq<
    PhonemeChunkView,
> {
    match combined_split(value) {
        Some((x, y)) => emit_part(x, start, n, times) + emit_part(
            y,
            start + x.len() as int,
            n,
            times,
        ),
        None => emit_part(value, start, n, times),
    }
}

#[via_fn]
proof fn pc_from_decreases(syms: Seq<Seq<char>>, times: Seq<u64>, i: int) {
    if 0 <= i < syms.len() && !is_boundary_sym(syms[i]) {
        lemma_gather_end(syms, i);
    }
}

/// The phoneme chunks of the stream from symbol `i` on.
pub open spec fn pc_from(syms: Seq<Seq<char>>, times: Seq<u64>, i: int) -> Seq<PhonemeChunkView>
    decreases syms.len() - i,
    via pc_from_decreases
{
    if i < 0 || i >= syms.len() {
        Seq::<PhonemeChunkView>::empty()
    } else if is_boundary_sym(syms[i]) {
        pc_from(syms, times, i + 1)
    } else {
        let j = gather_end(syms, i);
        let value = concat_nontag(syms, i, j);
        chunks_of_value(value, i, syms.len() as int, times) + pc_from(syms, times, j)
    }
}

/// The phoneme chunks of a whole stream.
pub open spec fn pc_spec(syms: Seq<Seq<char>>, times: Seq<u64>) -> Seq<PhonemeChunkView> {
    pc_from(syms, times, 0)
}

fn push_part(
    out: &mut Vec<PhonemeChunk>,
    part: &Vec<char>,
    start: usize,
    n: usize,
    times: &Vec<u64>,
)
    requires
        times@.len() >= 1,
    ensures
        phoneme_chunks_view(final(out)@) == phoneme_chunks_view(old(out)@) + emit_part(
            part@,
            start as int,
            n as int,
            times@,
        ),
{
    if part.len() == 0 {
        proof {
            assert(phoneme_chunks_view(out@) + emit_part(part@, start as int, n as int, times@)
                =~= phoneme_chunks_view(out@));
        }
        return;
    }
    let value = chars_to_string(part);
    let pw = phoneme_to_word(value.as_str());
    let pwv = str_to_chars(pw.as_str());
    let trimmed = trim_chars(&pwv);
    let value_word = chars_to_string(&trimmed);
    let s_idx = if start > n {
        n
    } else {
        start
    };
    let e_idx = if part.len() > n - s_idx || start > n {
        n
    } else {
        start + part.len()
    };
    proof {
        assert(e_idx as int == if start + part@.len() > n {
            n as int
        } else {
            start + part@.len() as int
        });
    }
    let ts_k: usize = if start == 0 {
        0
    } else {
        start - 1
    };
    let ts_k2: usize = if ts_k > times.len() - 1 {
        times.len() - 1
    } else {
        ts_k
    };
    let start_time = times[ts_k2];
    // The end index may exceed the machine word when taken before clamping,
    // so the lookup index is computed in a wider type.
    let e_wide: u128 = start as u128 + part.len() as u128;
    let te_k: u128 = if e_wide < 1 {
        1
    } else {
        e_wide
    };
    let te_k2: u128 = if te_k > times.len() as u128 {
        times.len() as u128
    } else {
        te_k
    };
    let end_time = times[(te_k2 - 1) as usize];
    let chunk = PhonemeChunk {
        value,
        value_word,
        start: s_idx,
        end: e_idx,
        start_time,
        end_time,
    };
    out.push(chunk);
    proof {
        assert(phoneme_chunks_view(out@) =~= phoneme_chunks_view(out@.drop_last()) + seq![
            out@.last()@,
        ]);
        assert(out@.last()@ == part_chunk(part@, start as int, n as int, times@));
    }
}

/// Turns the flat symbol stream and its cumulative end-times (milliseconds)
/// into phoneme chunks.  The end-time array must not be empty unless the
/// stream is.
pub fn transform_raw_phoneme_timestamps(phoneme_list: &Vec<String>, end_times_ms: &Vec<u64>) -> (r:
    Vec<PhonemeChunk>)
    requires
        phoneme_list@.len() == 0 || end_times_ms@.len() >= 1,
    ensures
        phoneme_chunks_view(r@) == pc_spec(syms_view(phoneme_list@), end_times_ms@),
{
    let ghost syms = syms_view(phoneme_list@);
    let n = phoneme_list.len();
    let mut out: Vec<PhonemeChunk> = Vec::new();
    let mut i: usize = 0;
    while i < n
        invariant
            syms == syms_view(phoneme_list@),
            syms.len() == n,
            n == phoneme_list@.len(),
            n == 0 || end_times_ms@.len() >= 1,
            i <= n,
            pc_spec(syms, end_times_ms@) == phoneme_chunks_view(out@) + pc_from(
                syms,
                end_times_ms@,
                i as int,
            ),
        decreases n - i,
    {
        proof {
            assert(syms[i as int] == phoneme_list@[i as int]@);
        }
        if is_phonetic_word_boundary(phoneme_list[i].as_str()) {
            i = i + 1;
            continue ;
        }
        // Gather symbols up to the next boundary, tags excluded.
        let mut j: usize = i;
        let mut value: Vec<char> = Vec::new();
        while j < n
            invariant
                syms == syms_view(phoneme_list@),
                syms.len() == n,
                n == phoneme_list@.len(),
                i <= j <= n,
                value@ == concat_nontag(syms, i as int, j as int),
                forall|k: int| i <= k < j ==> !is_boundary_sym(syms[k]),
            ensures
                i <= j <= n,
                value@ == concat_nontag(syms, i as int, j as int),
                forall|k: int| i <= k < j ==> !is_boundary_sym(syms[k]),
                j == n || is_boundary_sym(syms[j as int]),
            decreases n - j,
        {
            proof {
                assert(syms[j as int] == phoneme_list@[j as int]@);
            }
            if is_phonetic_word_boundary(phoneme_list[j].as_str()) {
                break ;
            }
            if !is_tag_sym_exec(phoneme_list[j].as_str()) {
                append_str(&mut value, phoneme_list[j].as_str());
            }
            proof {
                assert(concat_nontag(syms, i as int, j + 1) == concat_nontag(
                    syms,
                    i as int,
                    j as int,
                ) + (if is_tag_sym(syms[j as int]) {
                    Seq::<char>::empty()
                } else {
                    syms[j as int]
                }));
                if is_tag_sym(syms[j as int]) {
                    assert(value@ + Seq::<char>::empty() =~= value@);
                }
            }
            j = j + 1;
        }
        proof {
            assert(gather_end(syms, i as int) == j) by {
                lemma_gather_end(syms, i as int);
                let g = gather_end(syms, i as int);
                if g < j {
                    assert(!is_boundary_sym(syms[g]));
                }
                if j < g && (j as int) < syms.len() {
                    assert(!is_boundary_sym(syms[j as int]));
                }
            }
        }
        match combined_lookup(&value) {
            Some((x_lit, y_lit)) => {
                let x = str_to_chars(x_lit);
                let y = str_to_chars(y_lit);
                push_part(&mut out, &x, i, n, end_times_ms);
                let start2 = if x.len() > n - i {
                    // The constituent cannot be longer than the remaining
                    // stream, but the sum is guarded anyway.
                    n
                } else {
                    i + x.len()
                };
                proof {
                    if x@.len() <= n - i {
                        assert(start2 as int == i + x@.len());
                    }
                }
                if x.len() > n - i {
                    // Out of range: emit with the clamped start.
                    push_part_wide(&mut out, &y, i, x.len(), n, end_times_ms);
                } else {
                    push_part(&mut out, &y, start2, n, end_times_ms);
                }
            },
            None => {
                push_part(&mut out, &value, i, n, end_times_ms);
            },
        }
        proof {
            assert(pc_from(syms, end_times_ms@, i as int) == chunks_of_value(
                value@,
                i as int,
                n as int,
                end_times_ms@,
            ) + pc_from(syms, end_times_ms@, j as int));
        }
        i = j;
    }
    proof {
        assert(pc_from(syms, end_times_ms@, i as int) =~= Seq::<PhonemeChunkView>::empty());
        assert(phoneme_chunks_view(out@) + Seq::<PhonemeChunkView>::empty() =~= phoneme_chunks_view(
            out@,
        ));
    }
    out
}

proof fn lemma_time_indices_ordered(times: Seq<u64>, a: int, b: int)
    requires
        times.len() >= 1,
        0 <= a <= b,
        forall|x: int, y: int| 0 <= x <= y < times.len() ==> times[x] <= times[y],
    ensures
        time_end_at(times, a) <= time_end_at(times, b),
        time_start_at(times, a) <= time_end_at(times, b),
{
}

/// Symbols that can contribute characters contribute at most one each.
pub open spec fn single_char_symbols(syms: Seq<Seq<char>>) -> bool {
    forall|k: int|
        0 <= k < syms.len() ==> is_boundary_sym(#[trigger] syms[k]) || is_tag_sym(syms[k])
            || syms[k].len() <= 1
}

proof fn lemma_concat_nontag_len(syms: Seq<Seq<char>>, i: int, j: int)
    requires
        single_char_symbols(syms),
        0 <= i <= j <= syms.len(),
        forall|k: int| i <= k < j ==> !is_boundary_sym(#[trigger] syms[k]),
    ensures
        concat_nontag(syms, i, j).len() <= j - i,
    decreases j - i,
{
    if j > i {
        lemma_concat_nontag_len(syms, i, j - 1);
    }
}

proof fn lemma_pc_times_from(syms: Seq<Seq<char>>, times: Seq<u64>, i: int)
    requires
        times.len() >= 1,
        single_char_symbols(syms),
        0 <= i,
        forall|x: int, y: int| 0 <= x <= y < times.len() ==> times[x] <= times[y],
    ensures
        forall|k: int|
            0 <= k < pc_from(syms, times, i).len() ==> #[trigger] pc_from(
                syms,
                times,
                i,
            )[k].start_time <= pc_from(syms, times, i)[k].end_time,
        forall|a: int, b: int|
            0 <= a <= b < pc_from(syms, times, i).len() ==> #[trigger] pc_from(
                syms,
                times,
                i,
            )[a].end_time <= #[trigger] pc_from(syms, times, i)[b].end_time,
        forall|k: int|
            0 <= k < pc_from(syms, times, i).len() ==> #[trigger] pc_from(
                syms,
                times,
                i,
            )[k].end_time >= time_end_at(times, i),
    decreases syms.len() - i,
{
    if 0 <= i < syms.len() {
        if is_boundary_sym(syms[i]) {
            lemma_pc_times_from(syms, times, i + 1);
            lemma_time_indices_ordered(times, i, i + 1);
            assert(pc_from(syms, times, i) == pc_from(syms, times, i + 1));
        } else {
            lemma_gather_end(syms, i);
            let j = gather_end(syms, i);
            let value = concat_nontag(syms, i, j);
            lemma_concat_nontag_len(syms, i, j);
            lemma_pc_times_from(syms, times, j);
            let group = chunks_of_value(value, i, syms.len() as int, times);
            let rest = pc_from(syms, times, j);
            assert forall|s: int, e: int| i <= s && s <= e <= j implies {
                &&& time_start_at(times, s) <= time_end_at(times, e)
                &&& time_end_at(times, e) <= time_end_at(times, j)
                &&& time_end_at(times, e) >= time_end_at(times, i)
            } by {
                lemma_time_indices_ordered(times, s, e);
                lemma_time_indices_ordered(times, e, j);
                lemma_time_indices_ordered(times, i, e);
            }
            match combined_split(value) {
                Some((x, y)) => {
                    lemma_combined_split_spans(value);
                    assert(i + x.len() + y.len() <= j);
                },
                None => {},
            }
            assert forall|k: int| 0 <= k < group.len() implies {
                &&& #[trigger] group[k].start_time <= group[k].end_time
                &&& group[k].end_time <= time_end_at(times, j)
                &&& group[k].end_time >= time_end_at(times, i)
            } by {
                match combined_split(value) {
                    Some((x, y)) => {
                        lemma_time_indices_ordered(times, i, i + x.len());
                        lemma_time_indices_ordered(times, i + x.len(), i + x.len() + y.len());
                        lemma_time_indices_ordered(times, i + x.len() + y.len(), j);
                        lemma_time_indices_ordered(times, i, i + x.len() + y.len());
                    },
                    None => {
                        lemma_time_indices_ordered(times, i, i + value.len());
                        lemma_time_indices_ordered(times, i + value.len(), j);
                    },
                }
            }
            assert forall|a: int, b: int| 0 <= a <= b < group.len() implies #[trigger] group[a].end_time
                <= #[trigger] group[b].end_time by {
                match combined_split(value) {
                    Some((x, y)) => {
                        lemma_time_indices_ordered(times, i, i + x.len());
                        lemma_time_indices_ordered(times, i + x.len(), i + x.len() + y.len());
                        lemma_time_indices_ordered(times, i, i + x.len() + y.len());
                    },
                    None => {},
                }
            }
            assert forall|k: int| 0 <= k < pc_from(syms, times, i).len() implies {
                &&& #[trigger] pc_from(syms, times, i)[k].start_time <= pc_from(
                    syms,
                    times,
                    i,
                )[k].end_time
                &&& pc_from(syms, times, i)[k].end_time >= time_end_at(times, i)
            } by {
                if k < group.len() {
                    assert(pc_from(syms, times, i)[k] == group[k]);
                } else {
                    assert(pc_from(syms, times, i)[k] == rest[k - group.len()]);
                    lemma_time_indices_ordered(times, i, j);
                }
            }
            assert forall|a: int, b: int| 0 <= a <= b < pc_from(syms, times, i).len()
                implies #[trigger] pc_from(syms, times, i)[a].end_time <= #[trigger] pc_from(
                syms,
                times,
                i,
            )[b].end_time by {
                if b < group.len() {
                } else if a >= group.len() {
                    assert(pc_from(syms, times, i)[a] == rest[a - group.len()]);
                    assert(pc_from(syms, times, i)[b] == rest[b - group.len()]);
                } else {
                    assert(pc_from(syms, times, i)[a] == group[a]);
                    assert(pc_from(syms, times, i)[b] == rest[b - group.len()]);
                }
            }
        }
    }
}

/// When the cumulative end-times are non-decreasing and each symbol is a
/// single character (or a tag or boundary marker), the phoneme chunks come
/// out with ordered times: each interval runs forward and end times do not
/// decrease along the stream.
pub proof fn lemma_pc_times_ordered(syms: Seq<Seq<char>>, times: Seq<u64>)
    requires
        times.len() >= 1,
        single_char_symbols(syms),
        forall|x: int, y: int| 0 <= x <= y < times.len() ==> times[x] <= times[y],
    ensures
        forall|k: int|
            0 <= k < pc_spec(syms, times).len() ==> #[trigger] pc_spec(syms, times)[k].start_time
                <= pc_spec(syms, times)[k].end_time,
        forall|a: int, b: int|
            0 <= a <= b < pc_spec(syms, times).len() ==> #[trigger] pc_spec(syms, times)[a].end_time
                <= #[trigger] pc_spec(syms, times)[b].end_time,
{
    lemma_pc_times_from(syms, times, 0);
}

fn push_part_wide(
    out: &mut Vec<PhonemeChunk>,
    part: &Vec<char>,
    base: usize,
    offset: usize,
    n: usize,
    times: &Vec<u64>,
)
    requires
        times@.len() >= 1,
    ensures
        phoneme_chunks_view(final(out)@) == phoneme_chunks_view(old(out)@) + emit_part(
            part@,
            base + offset,
            n as int,
            times@,
        ),
{
    if part.len() == 0 {
        proof {
            assert(phoneme_chunks_view(out@) + emit_part(part@, base + offset, n as int, times@)
                =~= phoneme_chunks_view(out@));
        }
        return;
    }
    let value = chars_to_string(part);
    let pw = phoneme_to_word(value.as_str());
    let pwv = str_to_chars(pw.as_str());
    let trimmed = trim_chars(&pwv);
    let value_word = chars_to_string(&trimmed);
    let start_wide: u128 = base as u128 + offset as u128;
    let s_idx: usize = if start_wide > n as u128 {
        n
    } else {
        (base + offset)
    };
    let e_wide: u128 = start_wide + part.len() as u128;
    let e_idx: usize = if e_wide > n as u128 {
        n
    } else {
        (e_wide) as usize
    };
    let ts_k: u128 = if start_wide == 0 {
        0
    } else {
        start_wide - 1
    };
    let ts_k2: u128 = if ts_k > times.len() as u128 - 1 {
        times.len() as u128 - 1
    } else {
        ts_k
    };
    let start_time = times[ts_k2 as usize];
    let te_k: u128 = if e_wide < 1 {
        1
    } else {
        e_wide
    };
    let te_k2: u128 = if te_k > times.len() as u128 {
        times.len() as u128
    } else {
        te_k
    };
    let end_time = times[(te_k2 - 1) as usize];
    let chunk = PhonemeChunk {
        value,
        value_word,
        start: s_idx,
        end: e_idx,
        start_time,
        end_time,
    };
    out.push(chunk);
    proof {
        assert(phoneme_chunks_view(out@) =~= phoneme_chunks_view(out@.drop_last()) + seq![
            out@.last()@,
        ]);
        assert(out@.last()@ == part_chunk(part@, base + offset, n as int, times@));
    }
}

} // verus!
