//! Punctuation extraction for the phonemization front end: splits a text
//! into the stretches between punctuation runs and the runs themselves, so
//! the runs can be restored around the phonemized stretches.

use vstd::prelude::*;

use crate::strutil::{chars_to_string, str_to_chars, strings_view, trim_back};

verus! {

/// Characters treated as punctuation by the splitter.
pub open spec fn punct_char(c: char) -> bool {
    c == '!' || c == '(' || c == ')' || c == ',' || c == '-' || c == '.' || c == ':' || c == ';'
        || c == '?'
}

fn punct_char_exec(c: char) -> (r: bool)
    ensures
        r == punct_char(c),
{
    c == '!' || c == '(' || c == ')' || c == ',' || c == '-' || c == '.' || c == ':' || c == ';'
        || c == '?'
}

/// The index of the first punctuation character at or after `i`, or the
/// length when there is none.
pub open spec fn next_punct(s: Seq<char>, i: int) -> int
    decreases s.len() - i,
{
    if i < 0 || i >= s.len() {
        s.len() as int
    } else if punct_char(s[i]) {
        i
    } else {
        next_punct(s, i + 1)
    }
}

/// The index just after the punctuation run starting at `i`.
pub open spec fn punct_run_end(s: Seq<char>, i: int) -> int
    decreases s.len() - i,
{
    if i < 0 || i >= s.len() {
        s.len() as int
    } else if !punct_char(s[i]) {
        i
    } else {
        punct_run_end(s, i + 1)
    }
}

proof fn lemma_next_punct(s: Seq<char>, i: int)
    requires
        0 <= i <= s.len(),
    ensures
        i <= next_punct(s, i) <= s.len(),
        next_punct(s, i) < s.len() ==> punct_char(s[next_punct(s, i)]),
        forall|k: int| i <= k < next_punct(s, i) ==> !punct_char(s[k]),
    decreases s.len() - i,
{
    if i < s.len() && !punct_char(s[i]) {
        lemma_next_punct(s, i + 1);
    }
}

proof fn lemma_punct_run_end(s: Seq<char>, i: int)
    requires
        0 <= i <= s.len(),
    ensures
        i <= punct_run_end(s, i) <= s.len(),
        punct_run_end(s, i) < s.len() ==> !punct_char(s[punct_run_end(s, i)]),
        forall|k: int| i <= k < punct_run_end(s, i) ==> punct_char(s[k]),
    decreases s.len() - i,
{
    if i < s.len() && punct_char(s[i]) {
        lemma_punct_run_end(s, i + 1);
    }
}

#[via_fn]
proof fn texts_from_decreases(s: Seq<char>, i: int) {
    if 0 <= i <= s.len() {
        lemma_next_punct(s, i);
        let j = next_punct(s, i);
        if j < s.len() {
            lemma_punct_run_end(s, j);
        }
    }
}

/// The stretches of `s` between punctuation runs, from position `i` on,
/// including the (possibly empty) stretch before the first run and after
/// the last.
pub open spec fn texts_from(s: Seq<char>, i: int) -> Seq<Seq<char>>
    decreases s.len() - i,
    via texts_from_decreases
{
    if i < 0 || i > s.len() {
        Seq::<Seq<char>>::empty()
    } else {
        let j = next_punct(s, i);
        seq![s.subrange(i, j)] + (if j < s.len() {
            texts_from(s, punct_run_end(s, j))
        } else {
            Seq::<Seq<char>>::empty()
        })
    }
}

#[via_fn]
proof fn puncts_from_decreases(s: Seq<char>, i: int) {
    if 0 <= i <= s.len() {
        lemma_next_punct(s, i);
        let j = next_punct(s, i);
        if j < s.len() {
            lemma_punct_run_end(s, j);
        }
    }
}

/// The maximal punctuation runs of `s`, from position `i` on.
pub open spec fn puncts_from(s: Seq<char>, i: int) -> Seq<Seq<char>>
    decreases s.len() - i,
    via puncts_from_decreases
{
    if i < 0 || i > s.len() {
        Seq::<Seq<char>>::empty()
    } else {
        let j = next_punct(s, i);
        if j >= s.len() {
            Seq::<Seq<char>>::empty()
        } else {
            let e = punct_run_end(s, j);
            seq![s.subrange(j, e)] + puncts_from(s, e)
        }
    }
}

/// Splits the text into the stretches between punctuation runs and the
/// runs themselves, in order.
pub fn extract_punctuation(text: &str) -> (r: (Vec<String>, Vec<String>))
    ensures
        strings_view(r.0@) == texts_from(text@, 0),
        strings_view(r.1@) == puncts_from(text@, 0),
{
    let v = str_to_chars(text);
    let n = v.len();
    let mut texts: Vec<String> = Vec::new();
    let mut puncts: Vec<String> = Vec::new();
    let mut i: usize = 0;
    proof {
        assert(strings_view(texts@) + texts_from(text@, 0) =~= texts_from(text@, 0));
        assert(strings_view(puncts@) + puncts_from(text@, 0) =~= puncts_from(text@, 0));
    }
    loop
        invariant_except_break
            texts_from(text@, 0) == strings_view(texts@) + texts_from(text@, i as int),
            puncts_from(text@, 0) == strings_view(puncts@) + puncts_from(text@, i as int),
        invariant
            v@ == text@,
            n == v@.len(),
            i <= n,
        ensures
            strings_view(texts@) == texts_from(text@, 0),
            strings_view(puncts@) == puncts_from(text@, 0),
        decreases n - i + 1,
    {
        let ghost i0 = i as int;
        // Scan to the next punctuation character.
        let mut j: usize = i;
        while j < n && !punct_char_exec(v[j])
            invariant
                v@ == text@,
                n == v@.len(),
                i <= j <= n,
                forall|k: int| i <= k < j ==> !punct_char(text@[k]),
            decreases n - j,
        {
            j = j + 1;
        }
        proof {
            assert(next_punct(text@, i0) == j) by {
                lemma_next_punct(text@, i0);
                let f = next_punct(text@, i0);
                if f < j {
                    assert(!punct_char(text@[f]));
                }
                if j < f {
                    assert(!punct_char(text@[j as int]));
                }
            }
        }
        let mut stretch: Vec<char> = Vec::new();
        let mut k: usize = i;
        while k < j
            invariant
                v@ == text@,
                n == v@.len(),
                i <= k <= j <= n,
                stretch@ == text@.subrange(i as int, k as int),
            decreases j - k,
        {
            stretch.push(v[k]);
            proof {
                assert(text@.subrange(i as int, k + 1) =~= text@.subrange(i as int, k as int).push(
                    text@[k as int],
                ));
            }
            k = k + 1;
        }
        texts.push(chars_to_string(&stretch));
        proof {
            assert(strings_view(texts@) =~= strings_view(texts@.drop_last()) + seq![
                texts@.last()@,
            ]);
        }
        if j >= n {
            proof {
                assert(texts_from(text@, i0) =~= seq![text@.subrange(i0, j as int)]);
                assert(strings_view(texts@) =~= texts_from(text@, 0));
                assert(puncts_from(text@, i0) =~= Seq::<Seq<char>>::empty());
                assert(strings_view(puncts@) + Seq::<Seq<char>>::empty() =~= strings_view(
                    puncts@,
                ));
            }
            break ;
        }
        // Scan past the punctuation run.
        let mut e: usize = j;
        while e < n && punct_char_exec(v[e])
            invariant
                v@ == text@,
                n == v@.len(),
                j <= e <= n,
                forall|k2: int| j <= k2 < e ==> punct_char(text@[k2]),
            decreases n - e,
        {
            e = e + 1;
        }
        proof {
            assert(punct_run_end(text@, j as int) == e) by {
                lemma_punct_run_end(text@, j as int);
                let f = punct_run_end(text@, j as int);
                if f < e {
                    assert(punct_char(text@[f]));
                }
                if e < f && (e as int) < text@.len() {
                    assert(punct_char(text@[e as int]));
                }
            }
        }
        let mut run: Vec<char> = Vec::new();
        let mut k2: usize = j;
        while k2 < e
            invariant
                v@ == text@,
                n == v@.len(),
                j <= k2 <= e <= n,
                run@ == text@.subrange(j as int, k2 as int),
            decreases e - k2,
        {
            run.push(v[k2]);
            proof {
                assert(text@.subrange(j as int, k2 + 1) =~= text@.subrange(j as int, k2 as int).push(
                    text@[k2 as int],
                ));
            }
            k2 = k2 + 1;
        }
        puncts.push(chars_to_string(&run));
        proof {
            assert(strings_view(puncts@) =~= strings_view(puncts@.drop_last()) + seq![
                puncts@.last()@,
            ]);
            assert(strings_view(texts@) + texts_from(text@, e as int) =~= strings_view(
                texts@.drop_last(),
            ) + texts_from(text@, i0));
            assert(strings_view(puncts@) + puncts_from(text@, e as int) =~= strings_view(
                puncts@.drop_last(),
            ) + puncts_from(text@, i0));
        }
        i = e;
    }
    (texts, puncts)
}

/// An ASCII digit.
pub open spec fn ascii_digit(c: char) -> bool {
    0x30 <= c as u32 && c as u32 <= 0x39
}

/// The first position at or after `i` where a digit, a comma and a digit
/// stand in a row, or the length when there is none.
pub open spec fn first_digit_comma_digit(s: Seq<char>, i: int) -> int
    decreases s.len() - i,
{
    if i < 0 || i + 3 > s.len() {
        s.len() as int
    } else if ascii_digit(s[i]) && s[i + 1] == ',' && ascii_digit(s[i + 2]) {
        i
    } else {
        first_digit_comma_digit(s, i + 1)
    }
}

/// `s` with the first comma that stands between two digits removed, and
/// unchanged when there is none.
pub open spec fn join_digit_comma_spec(s: Seq<char>) -> Seq<char> {
    let p = first_digit_comma_digit(s, 0);
    if p + 3 > s.len() {
        s
    } else {
        s.remove(p + 1)
    }
}

/// Removes the first comma that stands between two digits, so a grouped
/// number reads as one token to the phonemizer.
pub fn join_digit_comma(text: &str) -> (r: String)
    ensures
        r@ == join_digit_comma_spec(text@),
{
    let v = str_to_chars(text);
    let n = v.len();
    let mut i: usize = 0;
    let mut found = false;
    while i < n && n - i >= 3
        invariant_except_break
            first_digit_comma_digit(text@, 0) == first_digit_comma_digit(text@, i as int),
            !found,
        invariant
            v@ == text@,
            n == v@.len(),
            i <= n,
        ensures
            found ==> i + 3 <= n && first_digit_comma_digit(text@, 0) == i,
            !found ==> first_digit_comma_digit(text@, 0) == n,
        decreases n - i,
    {
        let d0 = (v[i] as u32) >= 0x30 && (v[i] as u32) <= 0x39;
        let d2 = (v[i + 2] as u32) >= 0x30 && (v[i + 2] as u32) <= 0x39;
        if d0 && v[i + 1] == ',' && d2 {
            found = true;
            break ;
        }
        i = i + 1;
    }
    if !found {
        let mut out: Vec<char> = Vec::new();
        let mut k: usize = 0;
        while k < n
            invariant
                v@ == text@,
                n == v@.len(),
                k <= n,
                out@ == text@.take(k as int),
            decreases n - k,
        {
            out.push(v[k]);
            proof {
                assert(text@.take(k + 1) =~= text@.take(k as int).push(text@[k as int]));
            }
            k = k + 1;
        }
        proof {
            assert(text@.take(n as int) =~= text@);
        }
        return chars_to_string(&out);
    }
    let p = i;
    let mut out: Vec<char> = Vec::new();
    let mut k: usize = 0;
    while k < n
        invariant
            v@ == text@,
            n == v@.len(),
            p + 3 <= n,
            k <= n,
            k <= p + 1 ==> out@ == text@.take(k as int),
            k > p + 1 ==> out@ == text@.take(p + 1) + text@.subrange(p + 2, k as int),
        decreases n - k,
    {
        if k != p + 1 {
            out.push(v[k]);
        }
        proof {
            if k < p + 1 {
                assert(text@.take(k + 1) =~= text@.take(k as int).push(text@[k as int]));
            } else if k == p + 1 {
                assert(text@.take(p + 1) + text@.subrange(p + 2, p + 2) =~= text@.take(p + 1));
            } else {
                assert(text@.take(p + 1) + text@.subrange(p + 2, k + 1) =~= (text@.take(p + 1)
                    + text@.subrange(p + 2, k as int)).push(text@[k as int]));
            }
        }
        k = k + 1;
    }
    proof {
        assert(out@ =~= text@.remove(p + 1));
    }
    chars_to_string(&out)
}

/// The smaller of two lengths.
pub open spec fn min_len(a: int, b: int) -> int {
    if a <= b {
        a
    } else {
        b
    }
}

/// `a` and `b` joined, with up to `b.len()` characters of `a`'s trailing
/// whitespace given up to make room.
pub open spec fn add_replacing_ws_spec(a: Seq<char>, b: Seq<char>) -> Seq<char> {
    a.take(a.len() - min_len(a.len() - trim_back(a).len(), b.len() as int)) + b
}

/// Appends `str2` to `str1`, dropping as much of `str1`'s trailing
/// whitespace as `str2` is long.
pub fn add_strings_replacing_whitespace(str1: &str, str2: &str) -> (r: String)
    ensures
        r@ == add_replacing_ws_spec(str1@, str2@),
{
    let av = str_to_chars(str1);
    let n = av.len();
    proof {
        assert(str1@.take(n as int) =~= str1@);
    }
    let mut tail: usize = n;
    while tail > 0 && crate::strutil::is_white_char(av[tail - 1])
        invariant
            av@ == str1@,
            n == av@.len(),
            tail <= n,
            trim_back(str1@) == trim_back(str1@.take(tail as int)),
        decreases tail,
    {
        proof {
            let cur = str1@.take(tail as int);
            assert(cur.last() == str1@[tail - 1]);
            assert(cur.drop_last() =~= str1@.take(tail - 1));
        }
        tail = tail - 1;
    }
    proof {
        let cur = str1@.take(tail as int);
        if tail > 0 {
            assert(!crate::strutil::unicode_white(cur.last()));
            assert(trim_back(str1@) == cur);
        } else {
            assert(cur =~= Seq::<char>::empty());
            assert(trim_back(str1@) == cur);
        }
        assert(trim_back(str1@).len() == tail);
    }
    let bv = str_to_chars(str2);
    let ws = n - tail;
    let m = if ws <= bv.len() {
        ws
    } else {
        bv.len()
    };
    let keep = n - m;
    let mut out: Vec<char> = Vec::new();
    let mut i: usize = 0;
    while i < keep
        invariant
            av@ == str1@,
            n == av@.len(),
            keep <= n,
            i <= keep,
            out@ == str1@.subrange(0, i as int),
        decreases keep - i,
    {
        out.push(av[i]);
        proof {
            assert(str1@.subrange(0, i + 1) =~= str1@.subrange(0, i as int).push(
                str1@[i as int],
            ));
        }
        i = i + 1;
    }
    let mut k: usize = 0;
    while k < bv.len()
        invariant
            av@ == str1@,
            bv@ == str2@,
            n == av@.len(),
            keep <= n,
            k <= bv@.len(),
            out@ == str1@.subrange(0, keep as int) + str2@.take(k as int),
        decreases bv@.len() - k,
    {
        out.push(bv[k]);
        proof {
            assert(str1@.subrange(0, keep as int) + str2@.take(k + 1) =~= (str1@.subrange(
                0,
                keep as int,
            ) + str2@.take(k as int)).push(str2@[k as int]));
        }
        k = k + 1;
    }
    proof {
        assert(str2@.take(str2@.len() as int) =~= str2@);
        assert(str1@.subrange(0, keep as int) =~= str1@.take(
            str1@.len() - min_len(str1@.len() - trim_back(str1@).len(), str2@.len() as int),
        ));
    }
    chars_to_string(&out)
}

} // verus!
