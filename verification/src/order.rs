//! Case-insensitive alphabetical order on words.
//!
//! Words are compared by the lexicographic order of their case-folded
//! character sequences, where folding maps the ASCII upper-case letters
//! to their lower-case forms and leaves every other character unchanged.
//! Two distinct words whose folded forms coincide are ordered by the raw
//! lexicographic order, so the order used by the ranker is total.

use vstd::prelude::*;

verus! {

/// Case folding of one character: ASCII upper-case letters map to their
/// lower-case forms; every other character is unchanged.
pub open spec fn fold_char(c: char) -> char {
    if 'A' <= c && c <= 'Z' {
        ((c as u32) + 32) as char
    } else {
        c
    }
}

/// Case folding of a whole character sequence.
pub open spec fn fold(s: Seq<char>) -> Seq<char> {
    s.map_values(|c: char| fold_char(c))
}

/// Strict lexicographic order on character sequences, by code point.
pub open spec fn lex_lt(a: Seq<char>, b: Seq<char>) -> bool
    decreases a.len(),
{
    if b.len() == 0 {
        false
    } else if a.len() == 0 {
        true
    } else if a[0] == b[0] {
        lex_lt(a.drop_first(), b.drop_first())
    } else {
        (a[0] as u32) < (b[0] as u32)
    }
}

/// The tie-break order of the ranker: case-insensitive alphabetical,
/// with the raw lexicographic order deciding between distinct words
/// whose folded forms coincide.
pub open spec fn tie_lt(a: Seq<char>, b: Seq<char>) -> bool {
    lex_lt(fold(a), fold(b)) || (fold(a) == fold(b) && lex_lt(a, b))
}

/// Two characters with the same code point are the same character.
proof fn lemma_char_eq(c: char, d: char)
    requires
        (c as u32) == (d as u32),
    ensures
        c == d,
{
}

/// Lexicographic order is irreflexive.
pub proof fn lemma_lex_lt_irreflexive(a: Seq<char>)
    ensures
        !lex_lt(a, a),
    decreases a.len(),
{
    if a.len() > 0 {
        lemma_lex_lt_irreflexive(a.drop_first());
    }
}

/// Lexicographic order is asymmetric.
pub proof fn lemma_lex_lt_asymmetric(a: Seq<char>, b: Seq<char>)
    requires
        lex_lt(a, b),
    ensures
        !lex_lt(b, a),
    decreases a.len(),
{
    if b.len() > 0 && a.len() > 0 && a[0] == b[0] {
        lemma_lex_lt_asymmetric(a.drop_first(), b.drop_first());
    }
}

/// Two sequences, neither of which lexicographically precedes the other,
/// are equal.
pub proof fn lemma_lex_lt_connected(a: Seq<char>, b: Seq<char>)
    requires
        !lex_lt(a, b),
        !lex_lt(b, a),
    ensures
        a == b,
    decreases a.len(),
{
    if a.len() == 0 {
        assert(a =~= b);
    } else if b.len() == 0 {
    } else if a[0] == b[0] {
        lemma_lex_lt_connected(a.drop_first(), b.drop_first());
        assert(a =~= b) by {
            assert(forall|i: int|
                1 <= i < a.len() ==> a[i] == a.drop_first()[i - 1] && b[i] == b.drop_first()[i
                    - 1]);
        }
    } else {
        assert(!((a[0] as u32) < (b[0] as u32)));
        assert(!((b[0] as u32) < (a[0] as u32)));
        assert((a[0] as u32) == (b[0] as u32));
        lemma_char_eq(a[0], b[0]);
    }
}

/// Lexicographic order is transitive.
pub proof fn lemma_lex_lt_transitive(a: Seq<char>, b: Seq<char>, c: Seq<char>)
    requires
        lex_lt(a, b),
        lex_lt(b, c),
    ensures
        lex_lt(a, c),
    decreases a.len(),
{
    if a.len() > 0 && b.len() > 0 && c.len() > 0 {
        if a[0] == b[0] && b[0] == c[0] {
            lemma_lex_lt_transitive(a.drop_first(), b.drop_first(), c.drop_first());
        }
    }
}

/// The tie-break order is asymmetric.
pub proof fn lemma_tie_lt_asymmetric(a: Seq<char>, b: Seq<char>)
    requires
        tie_lt(a, b),
    ensures
        !tie_lt(b, a),
{
    if lex_lt(fold(a), fold(b)) {
        lemma_lex_lt_asymmetric(fold(a), fold(b));
        lemma_lex_lt_irreflexive(fold(a));
    } else {
        lemma_lex_lt_asymmetric(a, b);
        lemma_lex_lt_irreflexive(fold(a));
    }
}

/// The tie-break order relates every pair of distinct words one way
/// or the other.
pub proof fn lemma_tie_lt_total(a: Seq<char>, b: Seq<char>)
    requires
        a != b,
    ensures
        tie_lt(a, b) || tie_lt(b, a),
{
    if !lex_lt(fold(a), fold(b)) && !lex_lt(fold(b), fold(a)) {
        lemma_lex_lt_connected(fold(a), fold(b));
        if !lex_lt(a, b) && !lex_lt(b, a) {
            lemma_lex_lt_connected(a, b);
        }
    }
}

/// The tie-break order is transitive.
pub proof fn lemma_tie_lt_transitive(a: Seq<char>, b: Seq<char>, c: Seq<char>)
    requires
        tie_lt(a, b),
        tie_lt(b, c),
    ensures
        tie_lt(a, c),
{
    if lex_lt(fold(a), fold(b)) {
        if lex_lt(fold(b), fold(c)) {
            lemma_lex_lt_transitive(fold(a), fold(b), fold(c));
        }
    } else {
        if lex_lt(fold(b), fold(c)) {
        } else {
            lemma_lex_lt_transitive(a, b, c);
        }
    }
}

/// Dropping an equal prefix of two sequences changes neither their
/// lexicographic comparison nor their equality.
pub proof fn lemma_lex_skip(x: Seq<char>, y: Seq<char>, i: int)
    requires
        0 <= i <= x.len(),
        i <= y.len(),
        forall|j: int| 0 <= j < i ==> x[j] == y[j],
    ensures
        lex_lt(x, y) == lex_lt(x.skip(i), y.skip(i)),
        lex_lt(y, x) == lex_lt(y.skip(i), x.skip(i)),
        (x =~= y) == (x.skip(i) =~= y.skip(i)),
    decreases i,
{
    if i == 0 {
        assert(x.skip(0) =~= x);
        assert(y.skip(0) =~= y);
    } else {
        assert(x[0] == y[0]);
        lemma_lex_skip(x.drop_first(), y.drop_first(), i - 1);
        assert(x.drop_first().skip(i - 1) =~= x.skip(i));
        assert(y.drop_first().skip(i - 1) =~= y.skip(i));
        if x.drop_first() =~= y.drop_first() {
            assert(x =~= y) by {
                assert(forall|j: int|
                    1 <= j < x.len() ==> x[j] == x.drop_first()[j - 1] && y[j] == y.drop_first()[j
                        - 1]);
            }
        }
        if x =~= y {
            assert(x.drop_first() =~= y.drop_first());
        }
    }
}

/// Case folding of one character, executable form.
pub fn fold_char_exec(c: char) -> (r: char)
    ensures
        r == fold_char(c),
{
    match c {
        'A' => 'a',
        'B' => 'b',
        'C' => 'c',
        'D' => 'd',
        'E' => 'e',
        'F' => 'f',
        'G' => 'g',
        'H' => 'h',
        'I' => 'i',
        'J' => 'j',
        'K' => 'k',
        'L' => 'l',
        'M' => 'm',
        'N' => 'n',
        'O' => 'o',
        'P' => 'p',
        'Q' => 'q',
        'R' => 'r',
        'S' => 's',
        'T' => 't',
        'U' => 'u',
        'V' => 'v',
        'W' => 'w',
        'X' => 'x',
        'Y' => 'y',
        'Z' => 'z',
        _ => c,
    }
}

/// Three-way lexicographic comparison of two words by code point,
/// case-folded first when `fold_case` is set: `0` when `a` precedes `b`,
/// `1` when the compared sequences are equal, `2` when `b` precedes `a`.
pub fn cmp_lex(a: &String, b: &String, fold_case: bool) -> (r: u8)
    ensures
        ({
            let x = if fold_case {
                fold(a@)
            } else {
                a@
            };
            let y = if fold_case {
                fold(b@)
            } else {
                b@
            };
            &&& (r == 0u8) == lex_lt(x, y)
            &&& (r == 1u8) == (x == y)
            &&& (r == 2u8) == lex_lt(y, x)
        }),
{
    let ghost x = if fold_case {
        fold(a@)
    } else {
        a@
    };
    let ghost y = if fold_case {
        fold(b@)
    } else {
        b@
    };
    let la = a.as_str().unicode_len();
    let lb = b.as_str().unicode_len();
    let mut i: usize = 0;
    while i < la && i < lb
        invariant
            0 <= i <= la,
            i <= lb,
            la == a@.len(),
            lb == b@.len(),
            x.len() == la,
            y.len() == lb,
            x == (if fold_case {
                fold(a@)
            } else {
                a@
            }),
            y == (if fold_case {
                fold(b@)
            } else {
                b@
            }),
            forall|j: int| 0 <= j < i ==> x[j] == y[j],
        decreases la - i,
    {
        let mut ca = a.as_str().get_char(i);
        let mut cb = b.as_str().get_char(i);
        if fold_case {
            ca = fold_char_exec(ca);
            cb = fold_char_exec(cb);
        }
        assert(ca == x[i as int]);
        assert(cb == y[i as int]);
        if (ca as u32) < (cb as u32) {
            proof {
                lemma_lex_skip(x, y, i as int);
                assert(x.skip(i as int)[0] == x[i as int]);
                assert(y.skip(i as int)[0] == y[i as int]);
            }
            return 0;
        } else if (cb as u32) < (ca as u32) {
            proof {
                lemma_lex_skip(x, y, i as int);
                assert(x.skip(i as int)[0] == x[i as int]);
                assert(y.skip(i as int)[0] == y[i as int]);
            }
            return 2;
        } else {
            proof {
                lemma_char_eq(ca, cb);
            }
            i = i + 1;
        }
    }
    proof {
        lemma_lex_skip(x, y, i as int);
    }
    if la < lb {
        assert(x.skip(i as int).len() == 0);
        assert(y.skip(i as int).len() > 0);
        0
    } else if lb < la {
        assert(y.skip(i as int).len() == 0);
        assert(x.skip(i as int).len() > 0);
        2
    } else {
        assert(x.skip(i as int) =~= y.skip(i as int));
        1
    }
}

/// Whether word `a` strictly precedes word `b` in the tie-break order.
pub fn tie_before(a: &String, b: &String) -> (r: bool)
    ensures
        r == tie_lt(a@, b@),
{
    let folded = cmp_lex(a, b, true);
    if folded == 0 {
        true
    } else if folded == 2 {
        proof {
            lemma_lex_lt_asymmetric(fold(b@), fold(a@));
        }
        false
    } else {
        proof {
            if folded != 1 {
                lemma_lex_lt_connected(fold(a@), fold(b@));
            }
        }
        cmp_lex(a, b, false) == 0
    }
}

} // verus!
