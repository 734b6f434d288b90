//! Fuzzy phoneme edit distance.
//!
//! A case-insensitive Levenshtein distance in which a substitution between
//! two characters is free when the pair appears in a fixed confusable table.
//! The table is directional: it is keyed by the character of the second
//! string.

use vstd::prelude::*;
use vstd::string::StrSliceExecFns;

verus! {

/// Extra zero-cost substitutions beyond plain equality, keyed by the
/// character `b` of the second string.
pub open spec fn confusable(a: char, b: char) -> bool {
    if b == 'j' {
        a == 'y'
    } else if b == 'k' {
        a == 'c' || a == 'q' || a == 'x'
    } else if b == 'c' {
        a == 'k' || a == 's'
    } else if b == 's' {
        a == 'c' || a == 'v'
    } else if b == 'y' {
        a == 'i'
    } else if b == 'i' {
        a == 'y' || a == 'e'
    } else if b == 'e' {
        a == 'i' || a == 'a'
    } else if b == 'z' {
        a == 's'
    } else if b == 'a' {
        a == 'o'
    } else if b == 'd' {
        a == 'g'
    } else {
        false
    }
}

/// Substitution between `a` and `b` is free: they are equal or confusable.
pub open spec fn fuzzy_eq(a: char, b: char) -> bool {
    a == b || confusable(a, b)
}

/// Whether substituting `a` by `b` costs nothing in the fuzzy distance.
pub fn fuzzy_compare_chars(a: char, b: char) -> (r: bool)
    ensures
        r == fuzzy_eq(a, b),
{
    if a == b {
        true
    } else if b == 'j' {
        a == 'y'
    } else if b == 'k' {
        a == 'c' || a == 'q' || a == 'x'
    } else if b == 'c' {
        a == 'k' || a == 's'
    } else if b == 's' {
        a == 'c' || a == 'v'
    } else if b == 'y' {
        a == 'i'
    } else if b == 'i' {
        a == 'y' || a == 'e'
    } else if b == 'e' {
        a == 'i' || a == 'a'
    } else if b == 'z' {
        a == 's'
    } else if b == 'a' {
        a == 'o'
    } else if b == 'd' {
        a == 'g'
    } else {
        false
    }
}

/// Edit distance with unit insertion and deletion cost and free substitution
/// of fuzzy-equal characters.
pub open spec fn leven_spec(a: Seq<char>, b: Seq<char>) -> nat
    decreases a.len(), b.len(),
{
    if a.len() == 0 {
        b.len()
    } else if b.len() == 0 {
        a.len()
    } else {
        let sub = leven_spec(a.drop_last(), b.drop_last()) + (if fuzzy_eq(a.last(), b.last()) {
            0nat
        } else {
            1nat
        });
        let del = leven_spec(a.drop_last(), b) + 1;
        let ins = leven_spec(a, b.drop_last()) + 1;
        min3(sub, del, ins)
    }
}

/// The least of three naturals.
pub open spec fn min3(x: nat, y: nat, z: nat) -> nat {
    if x <= y && x <= z {
        x
    } else if y <= z {
        y
    } else {
        z
    }
}

fn min3_exec(x: u128, y: u128, z: u128) -> (r: u128)
    ensures
        r == min3(x as nat, y as nat, z as nat),
{
    if x <= y && x <= z {
        x
    } else if y <= z {
        y
    } else {
        z
    }
}

/// The distance never exceeds the longer length.
pub proof fn lemma_leven_le_max(a: Seq<char>, b: Seq<char>)
    ensures
        leven_spec(a, b) <= if a.len() >= b.len() {
            a.len()
        } else {
            b.len()
        },
    decreases a.len() + b.len(),
{
    if a.len() > 0 && b.len() > 0 {
        lemma_leven_le_max(a.drop_last(), b.drop_last());
        lemma_leven_le_max(a.drop_last(), b);
        lemma_leven_le_max(a, b.drop_last());
    }
}

/// The distance is at least the difference of the lengths.
pub proof fn lemma_leven_len_diff(a: Seq<char>, b: Seq<char>)
    ensures
        leven_spec(a, b) + a.len() >= b.len(),
        leven_spec(a, b) + b.len() >= a.len(),
    decreases a.len() + b.len(),
{
    if a.len() > 0 && b.len() > 0 {
        lemma_leven_len_diff(a.drop_last(), b.drop_last());
        lemma_leven_len_diff(a.drop_last(), b);
        lemma_leven_len_diff(a, b.drop_last());
    }
}

/// A string is at fuzzy distance 0 from itself, so `leven_phoneme` returns 0
/// whenever both arguments fold to the same characters.
pub proof fn lemma_leven_self(a: Seq<char>)
    ensures
        leven_spec(a, a) == 0,
    decreases a.len(),
{
    if a.len() > 0 {
        lemma_leven_self(a.drop_last());
    }
}

/// Against an empty string the distance is the other string's length.
pub proof fn lemma_leven_empty(b: Seq<char>)
    ensures
        leven_spec(Seq::<char>::empty(), b) == b.len(),
        leven_spec(b, Seq::<char>::empty()) == b.len(),
{
}

/// The distance is 0 exactly when the strings have equal length and are
/// fuzzy-equal position by position.
pub proof fn lemma_leven_zero(a: Seq<char>, b: Seq<char>)
    ensures
        leven_spec(a, b) == 0 <==> (a.len() == b.len() && forall|i: int|
            0 <= i < a.len() ==> fuzzy_eq(a[i], b[i])),
    decreases a.len() + b.len(),
{
    lemma_leven_len_diff(a, b);
    if a.len() > 0 && b.len() > 0 {
        lemma_leven_zero(a.drop_last(), b.drop_last());
        if a.len() == b.len() && forall|i: int| 0 <= i < a.len() ==> fuzzy_eq(a[i], b[i]) {
            assert(forall|i: int|
                0 <= i < a.drop_last().len() ==> fuzzy_eq(a.drop_last()[i], b.drop_last()[i]));
            assert(fuzzy_eq(a.last(), b.last()));
        }
        if leven_spec(a, b) == 0 {
            assert(leven_spec(a.drop_last(), b.drop_last()) == 0 && fuzzy_eq(a.last(), b.last()));
            assert(forall|i: int| 0 <= i < a.len() ==> fuzzy_eq(a[i], b[i])) by {
                assert(forall|i: int|
                    0 <= i < a.len() - 1 ==> a.drop_last()[i] == a[i] && b.drop_last()[i] == b[i]
                        && fuzzy_eq(a.drop_last()[i], b.drop_last()[i]));
            }
        }
    }
}

/// Count of positions whose characters are not fuzzy-equal, for strings of
/// equal length.
pub open spec fn mismatches(a: Seq<char>, b: Seq<char>) -> nat
    decreases a.len(),
{
    if a.len() == 0 || b.len() == 0 {
        0
    } else {
        mismatches(a.drop_last(), b.drop_last()) + (if fuzzy_eq(a.last(), b.last()) {
            0nat
        } else {
            1nat
        })
    }
}

/// For equal lengths, substituting every mismatched position is one way to
/// edit one string into the other.
pub proof fn lemma_leven_le_mismatches(a: Seq<char>, b: Seq<char>)
    requires
        a.len() == b.len(),
    ensures
        leven_spec(a, b) <= mismatches(a, b),
    decreases a.len(),
{
    if a.len() > 0 {
        lemma_leven_le_mismatches(a.drop_last(), b.drop_last());
    }
}

proof fn lemma_mismatches_common_tail(x: char, z: char, t: Seq<char>)
    ensures
        mismatches(seq![x] + t, seq![z] + t) == if fuzzy_eq(x, z) {
            0nat
        } else {
            1nat
        },
    decreases t.len(),
{
    if t.len() == 0 {
        assert((seq![x] + t) =~= seq![x]);
        assert((seq![z] + t) =~= seq![z]);
        assert(seq![x].drop_last() =~= Seq::<char>::empty());
        assert(seq![z].drop_last() =~= Seq::<char>::empty());
        assert(seq![x].last() == x);
        assert(seq![z].last() == z);
        assert(mismatches(seq![x], seq![z]) == mismatches(
            Seq::<char>::empty(),
            Seq::<char>::empty(),
        ) + (if fuzzy_eq(x, z) {
            0nat
        } else {
            1nat
        }));
    } else {
        assert((seq![x] + t).drop_last() =~= seq![x] + t.drop_last());
        assert((seq![z] + t).drop_last() =~= seq![z] + t.drop_last());
        assert((seq![x] + t).last() == t.last());
        assert((seq![z] + t).last() == t.last());
        lemma_mismatches_common_tail(x, z, t.drop_last());
    }
}

/// Substituting a confusable character is free while substituting an
/// unrelated one costs a full edit: with a common tail `t`, replacing `x` by
/// a confusable `y` leaves the distance at 0, and replacing it by an
/// unrelated `z` leaves it at exactly 1.
pub proof fn lemma_confusable_cheaper(x: char, y: char, z: char, t: Seq<char>)
    requires
        fuzzy_eq(x, y),
        !fuzzy_eq(x, z),
    ensures
        leven_spec(seq![x] + t, seq![y] + t) == 0,
        leven_spec(seq![x] + t, seq![z] + t) == 1,
{
    let a = seq![x] + t;
    let by_ = seq![y] + t;
    let bz = seq![z] + t;
    lemma_leven_zero(a, by_);
    assert(forall|i: int| 0 <= i < a.len() ==> fuzzy_eq(a[i], by_[i])) by {
        assert(forall|i: int| 1 <= i < a.len() ==> a[i] == t[i - 1] && by_[i] == t[i - 1]);
    }
    lemma_leven_zero(a, bz);
    assert(a[0] == x);
    assert(bz[0] == z);
    assert(!fuzzy_eq(a[0], bz[0]));
    assert(leven_spec(a, bz) != 0);
    lemma_leven_le_mismatches(a, bz);
    lemma_mismatches_common_tail(x, z, t);
}

/// Case-insensitive fuzzy edit distance between two strings: insertions and
/// deletions cost 1, substitutions cost 0 for fuzzy-equal characters and 1
/// otherwise, measured on the Unicode-lowercased character sequences.
pub fn leven_phoneme(a: &str, b: &str) -> (r: usize)
    ensures
        r == leven_spec(crate::strutil::lower_of(a@), crate::strutil::lower_of(b@)),
        a@.len() == 0 ==> r == crate::strutil::lower_of(b@).len(),
        b@.len() == 0 ==> r == crate::strutil::lower_of(a@).len(),
        a@ == b@ ==> r == 0,
        a@.len() == 0 && crate::strutil::lowercase_keeps_len(b@) ==> r == b@.len(),
        b@.len() == 0 && crate::strutil::lowercase_keeps_len(a@) ==> r == a@.len(),
        crate::strutil::lowercase_keeps_len(a@) && crate::strutil::lowercase_keeps_len(b@) ==> r
            <= (if a@.len() >= b@.len() {
            a@.len()
        } else {
            b@.len()
        }),
{
    proof {
        lemma_leven_self(crate::strutil::lower_of(a@));
    }
    let la_string = crate::strutil::lowercase(a);
    let lb_string = crate::strutil::lowercase(b);
    let ac = crate::strutil::str_to_chars(la_string.as_str());
    let bc = crate::strutil::str_to_chars(lb_string.as_str());
    let la = ac.len();
    let lb = bc.len();

    // Rolling rows of the edit-distance table: prev[i] is the distance
    // between the first i characters of ac and the first j characters of bc.
    let mut prev: Vec<u128> = Vec::new();
    let mut i: usize = 0;
    while i < la
        invariant
            la == ac@.len(),
            i <= la,
            prev@.len() == i,
            forall|k: int| 0 <= k < i ==> prev@[k] == leven_spec(ac@.take(k), bc@.take(0)),
        decreases la - i,
    {
        proof {
            assert(bc@.take(0) =~= Seq::<char>::empty());
            assert(leven_spec(ac@.take(i as int), bc@.take(0)) == i);
        }
        prev.push(i as u128);
        i = i + 1;
    }
    proof {
        assert(bc@.take(0) =~= Seq::<char>::empty());
        assert(leven_spec(ac@.take(la as int), bc@.take(0)) == la);
    }
    prev.push(la as u128);

    let mut j: usize = 0;
    while j < lb
        invariant
            la == ac@.len(),
            lb == bc@.len(),
            j <= lb,
            prev@.len() == la + 1,
            forall|k: int| 0 <= k <= la ==> prev@[k] == leven_spec(ac@.take(k), bc@.take(j as int)),
        decreases lb - j,
    {
        let mut cur: Vec<u128> = Vec::new();
        proof {
            assert(ac@.take(0) =~= Seq::<char>::empty());
            assert(leven_spec(ac@.take(0), bc@.take(j + 1)) == j + 1);
        }
        cur.push((j + 1) as u128);
        let mut i: usize = 0;
        while i < la
            invariant
                la == ac@.len(),
                lb == bc@.len(),
                j < lb,
                i <= la,
                prev@.len() == la + 1,
                forall|k: int| 0 <= k <= la ==> prev@[k] == leven_spec(ac@.take(k), bc@.take(j as int)),
                cur@.len() == i + 1,
                forall|k: int| 0 <= k <= i ==> cur@[k] == leven_spec(ac@.take(k), bc@.take(j + 1)),
            decreases la - i,
        {
            let cost: u128 = if fuzzy_compare_chars(ac[i], bc[j]) {
                0
            } else {
                1
            };
            proof {
                lemma_leven_le_max(ac@.take(i as int), bc@.take(j as int));
                lemma_leven_le_max(ac@.take(i as int), bc@.take(j + 1));
                lemma_leven_le_max(ac@.take(i + 1), bc@.take(j as int));
            }
            let sub = prev[i] + cost;
            let del = prev[i + 1] + 1;
            let ins = cur[i] + 1;
            let best = min3_exec(sub, del, ins);
            proof {
                let ai = ac@.take(i + 1);
                let bj = bc@.take(j + 1);
                assert(ai.drop_last() =~= ac@.take(i as int));
                assert(bj.drop_last() =~= bc@.take(j as int));
                assert(ai.last() == ac@[i as int]);
                assert(bj.last() == bc@[j as int]);
                assert(leven_spec(ai, bj) == min3(
                    (leven_spec(ai.drop_last(), bj.drop_last()) + (if fuzzy_eq(ai.last(), bj.last()) {
                        0nat
                    } else {
                        1nat
                    })) as nat,
                    (leven_spec(ai.drop_last(), bj) + 1) as nat,
                    (leven_spec(ai, bj.drop_last()) + 1) as nat,
                ));
            }
            cur.push(best);
            i = i + 1;
        }
        prev = cur;
        j = j + 1;
    }
    proof {
        assert(ac@.take(la as int) =~= ac@);
        assert(bc@.take(lb as int) =~= bc@);
        lemma_leven_le_max(ac@, bc@);
    }
    prev[la] as usize
}

/// The normalizing floor: the word length, but at least 4, so that short
/// words do not produce artificially large relative distances.
pub open spec fn max4(n: nat) -> nat {
    if n >= 4 {
        n
    } else {
        4
    }
}

/// Relative fuzzy distance between a word and a phoneme string, in
/// thousandths, rounded down: `1000 * leven / max(len, 4)`, with the
/// phoneme string first turned into its approximate written form.
pub open spec fn leven_relative_milli(w: Seq<char>, p: Seq<char>) -> nat {
    1000 * leven_spec(
        crate::strutil::lower_of(w),
        crate::strutil::lower_of(crate::lexicon::phoneme_to_word_spec(p)),
    ) / max4(w.len())
}

/// Relative fuzzy distance between a word chunk's text and a phoneme
/// string, in thousandths.
pub fn leven_phoneme_relative(word: &crate::Chunk, phoneme: &str) -> (r: u128)
    ensures
        r == leven_relative_milli(word@.value, phoneme@),
        r <= 1000 * (usize::MAX as u128),
{
    let pw = crate::lexicon::phoneme_to_word(phoneme);
    let lev = leven_phoneme(word.value.as_str(), pw.as_str());
    let wl = word.value.as_str().unicode_len();
    let den: u128 = if wl >= 4 {
        wl as u128
    } else {
        4
    };
    let num: u128 = 1000 * (lev as u128);
    let r = num / den;
    proof {
        assert(r * den + num % den == num) by {
            vstd::arithmetic::div_mod::lemma_fundamental_div_mod(num as int, den as int);
        }
        assert(r <= num);
    }
    r
}

/// Whether the walking direction is forward.
pub open spec fn is_forward(direction: Seq<char>) -> bool {
    direction == "forward"@
}

/// The sum of the first `k` relative distances from `(wi, pi)`, walking
/// `+1` per step forward, else `-1`.
pub open spec fn leven_sum(
    words: Seq<crate::ChunkView>,
    phons: Seq<crate::PhonemeChunkView>,
    wi: int,
    pi: int,
    k: int,
    forward: bool,
) -> nat
    decreases k,
{
    if k <= 0 {
        0
    } else {
        let wk = if forward {
            wi + (k - 1)
        } else {
            wi - (k - 1)
        };
        let pk = if forward {
            pi + (k - 1)
        } else {
            pi - (k - 1)
        };
        leven_sum(words, phons, wi, pi, k - 1, forward) + leven_relative_milli(
            words[wk].value,
            phons[pk].value,
        )
    }
}

/// The average relative distance over `distance` consecutive index pairs,
/// in thousandths, rounded down.
pub open spec fn average_leven(
    words: Seq<crate::ChunkView>,
    phons: Seq<crate::PhonemeChunkView>,
    wi: int,
    pi: int,
    distance: int,
    forward: bool,
) -> nat {
    leven_sum(words, phons, wi, pi, distance, forward) / (distance as nat)
}

/// Averages the relative distance over `distance` consecutive word and
/// phoneme pairs, walking `+1` per step when `direction` is `forward`,
/// else `-1`.  All visited indices must stay in bounds, and `distance`
/// must be positive; the cap keeps the fixed-point accumulator in range.
pub fn get_average_leven(
    words: &Vec<crate::Chunk>,
    phonemes: &Vec<crate::PhonemeChunk>,
    word_index: usize,
    phoneme_index: usize,
    distance: usize,
    direction: &str,
) -> (r: u128)
    requires
        1 <= distance <= 0x1_0000_0000_0000,
        is_forward(direction@) ==> word_index + distance <= words@.len() && phoneme_index
            + distance <= phonemes@.len(),
        !is_forward(direction@) ==> distance <= word_index + 1 && distance <= phoneme_index + 1
            && word_index < words@.len() && phoneme_index < phonemes@.len(),
    ensures
        r == average_leven(
            crate::chunks_view(words@),
            crate::phoneme_chunks_view(phonemes@),
            word_index as int,
            phoneme_index as int,
            distance as int,
            is_forward(direction@),
        ),
{
    let ghost wv = crate::chunks_view(words@);
    let ghost pv = crate::phoneme_chunks_view(phonemes@);
    let wlen = words.len();
    let plen = phonemes.len();
    let forward = crate::strutil::str_eq(direction, "forward");
    let mut sum: u128 = 0;
    let mut k: usize = 0;
    while k < distance
        invariant
            forward == is_forward(direction@),
            wv == crate::chunks_view(words@),
            pv == crate::phoneme_chunks_view(phonemes@),
            wlen == words@.len(),
            plen == phonemes@.len(),
            1 <= distance <= 0x1_0000_0000_0000,
            forward ==> word_index + distance <= words@.len() && phoneme_index + distance
                <= phonemes@.len(),
            !forward ==> distance <= word_index + 1 && distance <= phoneme_index + 1 && word_index
                < words@.len() && phoneme_index < phonemes@.len(),
            k <= distance,
            sum == leven_sum(wv, pv, word_index as int, phoneme_index as int, k as int, forward),
            sum <= k as u128 * (1000 * (usize::MAX as u128)),
        decreases distance - k,
    {
        let iw: usize = if forward {
            word_index + k
        } else {
            word_index - k
        };
        let ip: usize = if forward {
            phoneme_index + k
        } else {
            phoneme_index - k
        };
        proof {
            assert(wv[iw as int] == words@[iw as int]@);
            assert(pv[ip as int] == phonemes@[ip as int]@);
        }
        let term = leven_phoneme_relative(&words[iw], phonemes[ip].value.as_str());
        proof {
            let b: int = 1000 * (usize::MAX as int);
            assert((k + 1) * b == k * b + b) by (nonlinear_arith);
            assert((k + 1) * b <= 0x1_0000_0000_0000 * b) by (nonlinear_arith)
                requires
                    k + 1 <= 0x1_0000_0000_0000,
                    b >= 0,
            ;
            assert(0x1_0000_0000_0000 * b <= u128::MAX);
        }
        sum = sum + term;
        k = k + 1;
    }
    sum / (distance as u128)
}

} // verus!
