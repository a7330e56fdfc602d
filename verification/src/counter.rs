//! Tokenization with character-class counting, and top-N word ranking.
//!
//! `count_characters` splits a text into word tokens (runs of alphabetic
//! or numeric characters, closed by whitespace, with every other
//! character skipped) while counting the alphabetic, numeric and
//! whitespace characters. `find_common_words` ranks the tokens by
//! occurrence count, breaking ties case-insensitively alphabetically.

use vstd::prelude::*;

verus! {

use crate::order::tie_lt;
use crate::order::tie_before;
use crate::order::lemma_tie_lt_total;
use crate::order::lemma_tie_lt_asymmetric;
use crate::order::lemma_tie_lt_transitive;

/// Whether the standard library classifies a character as alphabetic.
pub uninterp spec fn alphabetic(c: char) -> bool;

/// Whether the standard library classifies a character as numeric.
pub uninterp spec fn numeric(c: char) -> bool;

/// Whether the standard library classifies a character as whitespace.
pub uninterp spec fn whitespace(c: char) -> bool;

/// Relies on char::is_alphabetic: the result depends on the character alone.
#[verifier::external_body]
fn is_alphabetic_char(c: char) -> (r: bool)
    ensures
        r == alphabetic(c),
{
    c.is_alphabetic()
}

/// Relies on char::is_numeric: the result depends on the character alone.
#[verifier::external_body]
fn is_numeric_char(c: char) -> (r: bool)
    ensures
        r == numeric(c),
{
    c.is_numeric()
}

/// Relies on char::is_whitespace: the result depends on the character alone.
#[verifier::external_body]
fn is_whitespace_char(c: char) -> (r: bool)
    ensures
        r == whitespace(c),
{
    c.is_whitespace()
}

/// Relies on String's FromIterator<char>: collecting copied characters
/// yields the string of exactly those characters.
#[verifier::external_body]
pub(crate) fn chars_to_string(cs: &Vec<char>) -> (r: String)
    ensures
        r@ == cs@,
{
    cs.iter().collect()
}

/// The state of the tokenizing scan: the words closed so far, the word
/// being accumulated, and the running character-class counts.
pub struct ScanState {
    pub words: Seq<Seq<char>>,
    pub cur: Seq<char>,
    pub alphabetic_count: nat,
    pub numeric_count: nat,
    pub whitespace_count: nat,
}

/// The scan state before any character has been read.
pub open spec fn scan_init() -> ScanState {
    ScanState { words: seq![], cur: seq![], alphabetic_count: 0, numeric_count: 0, whitespace_count: 0 }
}

/// One step of the scan: an alphabetic or numeric character extends the
/// current word; whitespace closes a non-empty current word; any other
/// character is skipped.
pub open spec fn scan_step(st: ScanState, c: char) -> ScanState {
    if alphabetic(c) {
        ScanState { cur: st.cur.push(c), alphabetic_count: st.alphabetic_count + 1, ..st }
    } else if whitespace(c) {
        if st.cur.len() > 0 {
            ScanState {
                words: st.words.push(st.cur),
                cur: seq![],
                whitespace_count: st.whitespace_count + 1,
                ..st
            }
        } else {
            ScanState { whitespace_count: st.whitespace_count + 1, ..st }
        }
    } else if numeric(c) {
        ScanState { cur: st.cur.push(c), numeric_count: st.numeric_count + 1, ..st }
    } else {
        st
    }
}

/// The scan state after reading a whole character sequence.
pub open spec fn scan(cs: Seq<char>) -> ScanState
    decreases cs.len(),
{
    if cs.len() == 0 {
        scan_init()
    } else {
        scan_step(scan(cs.drop_last()), cs.last())
    }
}

/// The words of a text: the words closed during the scan, plus the
/// trailing word when the text does not end in whitespace.
pub open spec fn words_of(cs: Seq<char>) -> Seq<Seq<char>> {
    let st = scan(cs);
    if st.cur.len() > 0 {
        st.words.push(st.cur)
    } else {
        st.words
    }
}

/// The character sequences of a sequence of strings.
pub open spec fn views(ws: Seq<String>) -> Seq<Seq<char>> {
    ws.map_values(|s: String| s@)
}

/// Find every word in the given text, and count the number of
/// alphabetic, numeric and whitespace characters.
pub fn count_characters(text: &String) -> (r: (Vec<String>, usize, usize, usize))
    ensures
        views(r.0@) == words_of(text@),
        r.1 == scan(text@).alphabetic_count,
        r.2 == scan(text@).numeric_count,
        r.3 == scan(text@).whitespace_count,
{
    let n = text.as_str().unicode_len();
    let mut words: Vec<String> = Vec::new();
    let mut cur: Vec<char> = Vec::new();
    let mut alphabetic_count: usize = 0;
    let mut numeric_count: usize = 0;
    let mut whitespace_count: usize = 0;
    let mut i: usize = 0;
    while i < n
        invariant
            i <= n,
            n == text@.len(),
            views(words@) == scan(text@.take(i as int)).words,
            cur@ == scan(text@.take(i as int)).cur,
            alphabetic_count == scan(text@.take(i as int)).alphabetic_count,
            numeric_count == scan(text@.take(i as int)).numeric_count,
            whitespace_count == scan(text@.take(i as int)).whitespace_count,
            alphabetic_count <= i,
            numeric_count <= i,
            whitespace_count <= i,
        decreases n - i,
    {
        let ghost pre = scan(text@.take(i as int));
        let c = text.as_str().get_char(i);
        proof {
            assert(text@.take(i + 1 as int).drop_last() =~= text@.take(i as int));
            assert(text@.take(i + 1 as int).last() == text@[i as int]);
            assert(scan(text@.take(i + 1 as int)) == scan_step(pre, c));
        }
        if is_alphabetic_char(c) {
            alphabetic_count = alphabetic_count + 1;
            cur.push(c);
        } else if is_whitespace_char(c) {
            whitespace_count = whitespace_count + 1;
            if cur.len() > 0 {
                let w = chars_to_string(&cur);
                proof {
                    assert(views(words@.push(w)) =~= views(words@).push(w@));
                }
                words.push(w);
                cur = Vec::new();
            }
        } else if is_numeric_char(c) {
            numeric_count = numeric_count + 1;
            cur.push(c);
        }
        i = i + 1;
    }
    proof {
        assert(text@.take(n as int) =~= text@);
    }
    if cur.len() > 0 {
        let w = chars_to_string(&cur);
        proof {
            assert(views(words@.push(w)) =~= views(words@).push(w@));
        }
        words.push(w);
    }
    (words, alphabetic_count, numeric_count, whitespace_count)
}

/// How many times word `w` occurs among the tokens `ts`.
pub open spec fn count_of(ts: Seq<Seq<char>>, w: Seq<char>) -> nat
    decreases ts.len(),
{
    if ts.len() == 0 {
        0
    } else {
        count_of(ts.drop_last(), w) + if ts.last() == w {
            1nat
        } else {
            0nat
        }
    }
}

/// The number of distinct words among the tokens.
pub open spec fn distinct_count(ts: Seq<Seq<char>>) -> nat {
    ts.to_set().len()
}

/// Ranking order on entries: more occurrences first; among equal
/// occurrence counts, the tie-break word order decides.
pub open spec fn entry_lt(w1: Seq<char>, c1: nat, w2: Seq<char>, c2: nat) -> bool {
    c1 > c2 || (c1 == c2 && tie_lt(w1, w2))
}

/// The sum of a sequence of counters.
pub open spec fn sum_usize(s: Seq<usize>) -> int
    decreases s.len(),
{
    if s.len() == 0 {
        0
    } else {
        sum_usize(s.drop_last()) + s.last()
    }
}

/// What it means for `(ws, cs)` to be the top-`n` ranking of the tokens
/// `ts`: as many entries as there are distinct words, capped at `n`;
/// every entry a distinct token with its occurrence count; entries
/// strictly descending in the ranking order; and no left-out word
/// preceding any entry.
pub open spec fn is_ranking(ts: Seq<Seq<char>>, n: int, ws: Seq<Seq<char>>, cs: Seq<nat>) -> bool {
    &&& ws.len() == cs.len()
    &&& ws.len() == if (distinct_count(ts) as int) < n {
        distinct_count(ts) as int
    } else {
        n
    }
    &&& ws.no_duplicates()
    &&& (forall|k: int| 0 <= k < ws.len() ==> ts.contains(#[trigger] ws[k]))
    &&& (forall|k: int| 0 <= k < ws.len() ==> #[trigger] cs[k] == count_of(ts, ws[k]))
    &&& (forall|k1: int, k2: int|
        #![trigger ws[k1], ws[k2]]
        0 <= k1 < k2 < ws.len() ==> entry_lt(ws[k1], cs[k1], ws[k2], cs[k2]))
    &&& (forall|w: Seq<char>, k: int|
        #![trigger ts.contains(w), ws[k]]
        ts.contains(w) && !ws.contains(w) && 0 <= k < ws.len() ==> entry_lt(
            ws[k],
            cs[k],
            w,
            count_of(ts, w),
        ))
}

/// Appending a token raises its own count by one and no other.
pub proof fn lemma_count_of_push(ts: Seq<Seq<char>>, x: Seq<char>, w: Seq<char>)
    ensures
        count_of(ts.push(x), w) == count_of(ts, w) + if x == w {
            1nat
        } else {
            0nat
        },
{
    assert(ts.push(x).drop_last() =~= ts);
}

/// A word occurs no more often than there are tokens.
pub proof fn lemma_count_of_le_len(ts: Seq<Seq<char>>, w: Seq<char>)
    ensures
        count_of(ts, w) <= ts.len(),
    decreases ts.len(),
{
    if ts.len() > 0 {
        lemma_count_of_le_len(ts.drop_last(), w);
    }
}

/// A word occurs among the tokens exactly when its count is positive.
pub proof fn lemma_count_of_contains(ts: Seq<Seq<char>>, w: Seq<char>)
    ensures
        (count_of(ts, w) > 0) == ts.contains(w),
    decreases ts.len(),
{
    if ts.len() > 0 {
        lemma_count_of_contains(ts.drop_last(), w);
        if ts.contains(w) {
            let t = choose|t: int| 0 <= t < ts.len() && ts[t] == w;
            if t < ts.len() - 1 {
                assert(ts.drop_last()[t] == w);
            }
        }
        if ts.drop_last().contains(w) {
            let t = choose|t: int| 0 <= t < ts.len() - 1 && ts.drop_last()[t] == w;
            assert(ts[t] == w);
        }
    }
}

/// Membership in a sequence extended by one element.
pub proof fn lemma_contains_push(s: Seq<Seq<char>>, x: Seq<char>, w: Seq<char>)
    ensures
        s.push(x).contains(w) == (s.contains(w) || w == x),
{
    if s.contains(w) {
        let t = choose|t: int| 0 <= t < s.len() && s[t] == w;
        assert(s.push(x)[t] == w);
    }
    if w == x {
        assert(s.push(x)[s.len() as int] == w);
    }
    if s.push(x).contains(w) {
        let t = choose|t: int| 0 <= t < s.push(x).len() && s.push(x)[t] == w;
        if t < s.len() {
            assert(s[t] == w);
        }
    }
}

/// The ranking order relates every pair of entries over distinct words.
pub proof fn lemma_entry_lt_total(w1: Seq<char>, c1: nat, w2: Seq<char>, c2: nat)
    requires
        w1 != w2,
    ensures
        entry_lt(w1, c1, w2, c2) || entry_lt(w2, c2, w1, c1),
{
    if c1 == c2 {
        lemma_tie_lt_total(w1, w2);
    }
}

/// The ranking order is asymmetric.
pub proof fn lemma_entry_lt_asymmetric(w1: Seq<char>, c1: nat, w2: Seq<char>, c2: nat)
    requires
        entry_lt(w1, c1, w2, c2),
    ensures
        !entry_lt(w2, c2, w1, c1),
{
    if c1 == c2 {
        lemma_tie_lt_asymmetric(w1, w2);
    }
}

/// The ranking order is transitive.
pub proof fn lemma_entry_lt_transitive(
    w1: Seq<char>,
    c1: nat,
    w2: Seq<char>,
    c2: nat,
    w3: Seq<char>,
    c3: nat,
)
    requires
        entry_lt(w1, c1, w2, c2),
        entry_lt(w2, c2, w3, c3),
    ensures
        entry_lt(w1, c1, w3, c3),
{
    if c1 == c2 && c2 == c3 {
        lemma_tie_lt_transitive(w1, w2, w3);
    }
}

/// Summing is compatible with appending.
pub proof fn lemma_sum_push(s: Seq<usize>, v: usize)
    ensures
        sum_usize(s.push(v)) == sum_usize(s) + v,
{
    assert(s.push(v).drop_last() =~= s);
}

/// Summing is compatible with updating one element.
pub proof fn lemma_sum_update(s: Seq<usize>, j: int, v: usize)
    requires
        0 <= j < s.len(),
    ensures
        sum_usize(s.update(j, v)) == sum_usize(s) - s[j] + v,
    decreases s.len(),
{
    if j == s.len() - 1 {
        assert(s.update(j, v).drop_last() =~= s.drop_last());
    } else {
        assert(s.update(j, v).drop_last() =~= s.drop_last().update(j, v));
        lemma_sum_update(s.drop_last(), j, v);
    }
}

/// How many flags of a sequence are set.
pub open spec fn count_true(s: Seq<bool>) -> int
    decreases s.len(),
{
    if s.len() == 0 {
        0
    } else {
        count_true(s.drop_last()) + if s.last() {
            1int
        } else {
            0int
        }
    }
}

/// A sequence of clear flags has none set.
pub proof fn lemma_count_true_zero(s: Seq<bool>)
    requires
        forall|t: int| 0 <= t < s.len() ==> !s[t],
    ensures
        count_true(s) == 0,
    decreases s.len(),
{
    if s.len() > 0 {
        lemma_count_true_zero(s.drop_last());
    }
}

/// Setting a clear flag raises the number of set flags by one.
pub proof fn lemma_count_true_set(s: Seq<bool>, j: int)
    requires
        0 <= j < s.len(),
        !s[j],
    ensures
        count_true(s.update(j, true)) == count_true(s) + 1,
    decreases s.len(),
{
    if j == s.len() - 1 {
        assert(s.update(j, true).drop_last() =~= s.drop_last());
    } else {
        assert(s.update(j, true).drop_last() =~= s.drop_last().update(j, true));
        lemma_count_true_set(s.drop_last(), j);
    }
}

/// When not every flag is set, some flag is clear.
pub proof fn lemma_count_true_exists_clear(s: Seq<bool>)
    requires
        count_true(s) < s.len(),
    ensures
        exists|t: int| 0 <= t < s.len() && !s[t],
    decreases s.len(),
{
    if s.len() > 0 {
        if !s.last() {
            assert(!s[s.len() - 1]);
        } else {
            lemma_count_true_exists_clear(s.drop_last());
            let t = choose|t: int| 0 <= t < s.len() - 1 && !s.drop_last()[t];
            assert(!s[t]);
        }
    }
}

/// The number of set flags never exceeds the number of flags.
pub proof fn lemma_count_true_le_len(s: Seq<bool>)
    ensures
        0 <= count_true(s) <= s.len(),
    decreases s.len(),
{
    if s.len() > 0 {
        lemma_count_true_le_len(s.drop_last());
    }
}

/// When every flag is set, the number of set flags is the length.
pub proof fn lemma_count_true_all_set(s: Seq<bool>)
    requires
        count_true(s) == s.len(),
    ensures
        forall|t: int| 0 <= t < s.len() ==> s[t],
    decreases s.len(),
{
    if s.len() > 0 {
        lemma_count_true_le_len(s.drop_last());
        assert(s.last());
        lemma_count_true_all_set(s.drop_last());
        assert(forall|t: int| 0 <= t < s.len() - 1 ==> s[t] == s.drop_last()[t]);
    }
}

/// The sum of the counters whose flag is clear.
pub open spec fn masked_sum(c: Seq<usize>, u: Seq<bool>) -> int
    decreases c.len(),
{
    if c.len() == 0 || c.len() != u.len() {
        0
    } else {
        masked_sum(c.drop_last(), u.drop_last()) + if u.last() {
            0int
        } else {
            c.last() as int
        }
    }
}

/// With every flag clear, the masked sum is the whole sum.
pub proof fn lemma_masked_sum_all_clear(c: Seq<usize>, u: Seq<bool>)
    requires
        c.len() == u.len(),
        forall|t: int| 0 <= t < u.len() ==> !u[t],
    ensures
        masked_sum(c, u) == sum_usize(c),
    decreases c.len(),
{
    if c.len() > 0 {
        lemma_masked_sum_all_clear(c.drop_last(), u.drop_last());
    }
}

/// With every flag set, the masked sum is zero.
pub proof fn lemma_masked_sum_all_set(c: Seq<usize>, u: Seq<bool>)
    requires
        c.len() == u.len(),
        forall|t: int| 0 <= t < u.len() ==> u[t],
    ensures
        masked_sum(c, u) == 0,
    decreases c.len(),
{
    if c.len() > 0 {
        lemma_masked_sum_all_set(c.drop_last(), u.drop_last());
    }
}

/// The masked sum is never negative.
pub proof fn lemma_masked_sum_nonneg(c: Seq<usize>, u: Seq<bool>)
    ensures
        masked_sum(c, u) >= 0,
    decreases c.len(),
{
    if c.len() > 0 && c.len() == u.len() {
        lemma_masked_sum_nonneg(c.drop_last(), u.drop_last());
    }
}

/// Setting a clear flag removes exactly its counter from the masked sum.
pub proof fn lemma_masked_sum_set(c: Seq<usize>, u: Seq<bool>, j: int)
    requires
        c.len() == u.len(),
        0 <= j < u.len(),
        !u[j],
    ensures
        masked_sum(c, u.update(j, true)) == masked_sum(c, u) - c[j],
    decreases c.len(),
{
    if j == c.len() - 1 {
        assert(u.update(j, true).drop_last() =~= u.drop_last());
    } else {
        assert(u.update(j, true).drop_last() =~= u.drop_last().update(j, true));
        lemma_masked_sum_set(c.drop_last(), u.drop_last(), j);
    }
}

/// The first `k` entries of two rankings of the same tokens coincide.
proof fn lemma_ranking_unique_upto(
    ts: Seq<Seq<char>>,
    n: int,
    w1: Seq<Seq<char>>,
    c1: Seq<nat>,
    w2: Seq<Seq<char>>,
    c2: Seq<nat>,
    k: int,
)
    requires
        is_ranking(ts, n, w1, c1),
        is_ranking(ts, n, w2, c2),
        0 <= k <= w1.len(),
    ensures
        forall|t: int| 0 <= t < k ==> w1[t] == w2[t],
    decreases k,
{
    if k > 0 {
        lemma_ranking_unique_upto(ts, n, w1, c1, w2, c2, k - 1);
        let m = k - 1;
        if w1[m] != w2[m] {
            // The ranking order puts the entry of the second ranking first ...
            assert(entry_lt(w2[m], c2[m], w1[m], c1[m])) by {
                assert(ts.contains(w1[m]));
                if w2.contains(w1[m]) {
                    let j = choose|j: int| 0 <= j < w2.len() && w2[j] == w1[m];
                    assert(j >= m) by {
                        if j < m {
                            assert(w2[j] == w1[j]);
                        }
                    }
                    assert(entry_lt(w2[m], c2[m], w2[j], c2[j]));
                    assert(c2[j] == count_of(ts, w1[m]));
                } else {
                    assert(entry_lt(w2[m], c2[m], w1[m], count_of(ts, w1[m])));
                }
            }
            // ... and also the entry of the first ranking first.
            assert(entry_lt(w1[m], c1[m], w2[m], c2[m])) by {
                assert(ts.contains(w2[m]));
                if w1.contains(w2[m]) {
                    let j = choose|j: int| 0 <= j < w1.len() && w1[j] == w2[m];
                    assert(j >= m) by {
                        if j < m {
                            assert(w1[j] == w2[j]);
                        }
                    }
                    assert(entry_lt(w1[m], c1[m], w1[j], c1[j]));
                    assert(c1[j] == count_of(ts, w2[m]));
                } else {
                    assert(entry_lt(w1[m], c1[m], w2[m], count_of(ts, w2[m])));
                }
            }
            lemma_entry_lt_asymmetric(w1[m], c1[m], w2[m], c2[m]);
        }
    }
}

/// Law: ranking is deterministic. Any two rankings of the same tokens
/// under the same bound are equal, entry for entry.
pub proof fn lemma_ranking_unique(
    ts: Seq<Seq<char>>,
    n: int,
    w1: Seq<Seq<char>>,
    c1: Seq<nat>,
    w2: Seq<Seq<char>>,
    c2: Seq<nat>,
)
    requires
        is_ranking(ts, n, w1, c1),
        is_ranking(ts, n, w2, c2),
    ensures
        w1 == w2,
        c1 == c2,
{
    lemma_ranking_unique_upto(ts, n, w1, c1, w2, c2, w1.len() as int);
    assert(w1 =~= w2);
    assert(c1 =~= c2);
}

/// The index of the given word among the distinct words found so far.
fn find_word(uniq: &Vec<String>, w: &String) -> (r: Option<usize>)
    ensures
        match r {
            Some(j) => j < uniq@.len() && uniq@[j as int]@ == w@,
            None => forall|t: int| 0 <= t < uniq@.len() ==> uniq@[t]@ != w@,
        },
{
    let mut j: usize = 0;
    while j < uniq.len()
        invariant
            j <= uniq@.len(),
            forall|t: int| 0 <= t < j ==> uniq@[t]@ != w@,
        decreases uniq@.len() - j,
    {
        if uniq[j] == *w {
            return Some(j);
        }
        j = j + 1;
    }
    None
}

/// Whether entry `(w1, c1)` strictly precedes entry `(w2, c2)`.
fn entry_before(w1: &String, c1: usize, w2: &String, c2: usize) -> (r: bool)
    ensures
        r == entry_lt(w1@, c1 as nat, w2@, c2 as nat),
{
    if c1 > c2 {
        true
    } else if c1 == c2 {
        tie_before(w1, w2)
    } else {
        false
    }
}

/// Find the `n` most common words, most common first; ties on the count
/// are broken case-insensitively alphabetically.
pub fn find_common_words(words: &Vec<String>, n: usize) -> (r: (Vec<String>, Vec<usize>))
    requires
        n >= 1,
    ensures
        is_ranking(
            views(words@),
            n as int,
            views(r.0@),
            r.1@.map_values(|c: usize| c as nat),
        ),
        sum_usize(r.1@) <= views(words@).len(),
        distinct_count(views(words@)) <= n ==> sum_usize(r.1@) == views(words@).len(),
{
    let ghost ts = views(words@);
    let mut uniq: Vec<String> = Vec::new();
    let mut counts: Vec<usize> = Vec::new();
    let mut i: usize = 0;
    while i < words.len()
        invariant
            i <= words@.len(),
            ts == views(words@),
            uniq@.len() == counts@.len(),
            views(uniq@).no_duplicates(),
            forall|j: int| 0 <= j < uniq@.len() ==> ts.contains(#[trigger] views(uniq@)[j]),
            forall|t: int| 0 <= t < i ==> views(uniq@).contains(#[trigger] ts[t]),
            forall|j: int|
                0 <= j < uniq@.len() ==> #[trigger] counts@[j] as nat == count_of(
                    ts.take(i as int),
                    views(uniq@)[j],
                ),
            sum_usize(counts@) == i,
        decreases words@.len() - i,
    {
        let ghost pre = ts.take(i as int);
        let ghost uniq0 = uniq@;
        proof {
            assert(ts.take(i + 1 as int).drop_last() =~= pre);
            assert(ts.take(i + 1 as int) =~= pre.push(ts[i as int]));
            assert(ts[i as int] == words@[i as int]@);
        }
        let w: &String = &words[i];
        match find_word(&uniq, w) {
            Some(j) => {
                proof {
                    assert forall|t: int| 0 <= t < uniq0.len() implies #[trigger] count_of(
                        ts.take(i + 1 as int),
                        views(uniq0)[t],
                    ) == count_of(pre, views(uniq0)[t]) + (if t == j {
                        1nat
                    } else {
                        0nat
                    }) by {
                        lemma_count_of_push(pre, ts[i as int], views(uniq0)[t]);
                        assert(views(uniq0)[j as int] == ts[i as int]);
                        if t != j {
                            assert(views(uniq0)[t] != views(uniq0)[j as int]);
                        }
                    }
                    lemma_count_of_le_len(pre, views(uniq0)[j as int]);
                    lemma_sum_update(counts@, j as int, (counts@[j as int] + 1) as usize);
                }
                let c = counts[j];
                counts[j] = c + 1;
                proof {
                    assert(views(uniq@).contains(#[trigger] ts[i as int])) by {
                        assert(views(uniq@)[j as int] == ts[i as int]);
                    }
                }
            },
            None => {
                proof {
                    assert forall|t: int| 0 <= t < uniq0.len() implies #[trigger] count_of(
                        ts.take(i + 1 as int),
                        views(uniq0)[t],
                    ) == count_of(pre, views(uniq0)[t]) by {
                        lemma_count_of_push(pre, ts[i as int], views(uniq0)[t]);
                    }
                    lemma_count_of_push(pre, ts[i as int], ts[i as int]);
                    lemma_count_of_contains(pre, ts[i as int]);
                    lemma_sum_push(counts@, 1);
                }
                uniq.push(w.clone());
                counts.push(1);
                proof {
                    assert(views(uniq@) =~= views(uniq0).push(ts[i as int]));
                    assert forall|t: int| 0 <= t < i + 1 implies views(uniq@).contains(
                        #[trigger] ts[t],
                    ) by {
                        if t < i {
                            let j = choose|j: int|
                                0 <= j < views(uniq0).len() && views(uniq0)[j] == ts[t];
                            assert(views(uniq@)[j] == ts[t]);
                        } else {
                            assert(views(uniq@)[uniq0.len() as int] == ts[i as int]);
                        }
                    }
                }
            },
        }
        i = i + 1;
    }
    proof {
        assert(ts.take(words@.len() as int) =~= ts);
    }
    // Select the entries in ranking order, best first.
    let total = if n < uniq.len() {
        n
    } else {
        uniq.len()
    };
    let mut used: Vec<bool> = vec![false; uniq.len()];
    let mut out_words: Vec<String> = Vec::new();
    let mut out_counts: Vec<usize> = Vec::new();
    proof {
        lemma_count_true_zero(used@);
        lemma_masked_sum_all_clear(counts@, used@);
    }
    while out_words.len() < total
        invariant
            ts == views(words@),
            total == if n < uniq@.len() {
                n as int
            } else {
                uniq@.len() as int
            },
            uniq@.len() == counts@.len(),
            used@.len() == uniq@.len(),
            views(uniq@).no_duplicates(),
            forall|j: int| 0 <= j < uniq@.len() ==> ts.contains(#[trigger] views(uniq@)[j]),
            forall|t: int| 0 <= t < ts.len() ==> views(uniq@).contains(#[trigger] ts[t]),
            forall|j: int|
                0 <= j < uniq@.len() ==> #[trigger] counts@[j] as nat == count_of(
                    ts,
                    views(uniq@)[j],
                ),
            sum_usize(counts@) == ts.len(),
            out_words@.len() == out_counts@.len(),
            out_words@.len() <= total,
            count_true(used@) == out_words@.len(),
            views(out_words@).no_duplicates(),
            forall|j: int|
                0 <= j < used@.len() ==> #[trigger] used@[j] == views(out_words@).contains(
                    views(uniq@)[j],
                ),
            forall|k: int|
                0 <= k < out_words@.len() ==> exists|j: int|
                    0 <= j < uniq@.len() && views(uniq@)[j] == #[trigger] views(out_words@)[k]
                        && counts@[j] == out_counts@[k],
            forall|k1: int, k2: int|
                #![trigger views(out_words@)[k1], views(out_words@)[k2]]
                0 <= k1 < k2 < out_words@.len() ==> entry_lt(
                    views(out_words@)[k1],
                    out_counts@[k1] as nat,
                    views(out_words@)[k2],
                    out_counts@[k2] as nat,
                ),
            forall|k: int, j: int|
                #![trigger views(out_words@)[k], used@[j]]
                0 <= k < out_words@.len() && 0 <= j < uniq@.len() && !used@[j] ==> entry_lt(
                    views(out_words@)[k],
                    out_counts@[k] as nat,
                    views(uniq@)[j],
                    counts@[j] as nat,
                ),
            sum_usize(out_counts@) + masked_sum(counts@, used@) == sum_usize(counts@),
        decreases total - out_words@.len(),
    {
        proof {
            lemma_count_true_exists_clear(used@);
        }
        let ghost e = choose|t: int| 0 <= t < used@.len() && !used@[t];
        let mut best: usize = uniq.len();
        let mut j: usize = 0;
        while j < uniq.len()
            invariant
                j <= uniq@.len(),
                uniq@.len() == counts@.len(),
                used@.len() == uniq@.len(),
                views(uniq@).no_duplicates(),
                0 <= e < used@.len(),
                !used@[e],
                best <= uniq@.len(),
                best < uniq@.len() ==> best < j && !used@[best as int],
                best == uniq@.len() ==> forall|t: int| 0 <= t < j ==> used@[t],
                j > e ==> best < uniq@.len(),
                forall|t: int|
                    0 <= t < j && !used@[t] && t != best ==> entry_lt(
                        views(uniq@)[best as int],
                        counts@[best as int] as nat,
                        #[trigger] views(uniq@)[t],
                        counts@[t] as nat,
                    ),
            decreases uniq@.len() - j,
        {
            if !used[j] {
                if best == uniq.len() {
                    best = j;
                } else if entry_before(&uniq[j], counts[j], &uniq[best], counts[best]) {
                    proof {
                        assert forall|t: int|
                            0 <= t < j + 1 && !used@[t] && t != j implies entry_lt(
                            views(uniq@)[j as int],
                            counts@[j as int] as nat,
                            #[trigger] views(uniq@)[t],
                            counts@[t] as nat,
                        ) by {
                            if t == best {
                            } else {
                                lemma_entry_lt_transitive(
                                    views(uniq@)[j as int],
                                    counts@[j as int] as nat,
                                    views(uniq@)[best as int],
                                    counts@[best as int] as nat,
                                    views(uniq@)[t],
                                    counts@[t] as nat,
                                );
                            }
                        }
                    }
                    best = j;
                } else {
                    proof {
                        lemma_entry_lt_total(
                            views(uniq@)[best as int],
                            counts@[best as int] as nat,
                            views(uniq@)[j as int],
                            counts@[j as int] as nat,
                        );
                    }
                }
            }
            j = j + 1;
        }
        proof {
            lemma_count_true_set(used@, best as int);
            lemma_masked_sum_set(counts@, used@, best as int);
            lemma_sum_push(out_counts@, counts@[best as int]);
            assert(views(out_words@.push(uniq@[best as int])) =~= views(out_words@).push(
                views(uniq@)[best as int],
            ));
            assert forall|w: Seq<char>| true implies #[trigger] views(out_words@).push(
                views(uniq@)[best as int],
            ).contains(w) == (views(out_words@).contains(w) || w == views(uniq@)[best as int]) by {
                lemma_contains_push(views(out_words@), views(uniq@)[best as int], w);
            }
        }
        let bw = uniq[best].clone();
        let bc = counts[best];
        used[best] = true;
        out_words.push(bw);
        out_counts.push(bc);
    }
    proof {
        views(uniq@).unique_seq_to_set();
        assert(views(uniq@).to_set() =~= ts.to_set());
        if distinct_count(ts) <= n as int {
            lemma_count_true_all_set(used@);
            lemma_masked_sum_all_set(counts@, used@);
        }
        lemma_masked_sum_nonneg(counts@, used@);
        assert forall|k: int| 0 <= k < out_words@.len() implies out_counts@[k] as nat == count_of(
            ts,
            #[trigger] views(out_words@)[k],
        ) by {
            let j = choose|j: int|
                0 <= j < uniq@.len() && views(uniq@)[j] == views(out_words@)[k] && counts@[j]
                    == out_counts@[k];
        }
        assert forall|w: Seq<char>, k: int|
            #![trigger ts.contains(w), views(out_words@)[k]]
            ts.contains(w) && !views(out_words@).contains(w) && 0 <= k
                < out_words@.len() implies entry_lt(
            views(out_words@)[k],
            out_counts@[k] as nat,
            w,
            count_of(ts, w),
        ) by {
            let t = choose|t: int| 0 <= t < ts.len() && ts[t] == w;
            let j = choose|j: int| 0 <= j < views(uniq@).len() && views(uniq@)[j] == w;
            assert(!used@[j]);
        }
    }
    (out_words, out_counts)
}

} // verus!
