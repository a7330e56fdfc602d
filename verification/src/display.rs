//! Fixed-width report rendering: thousands-separated numbers, truncation
//! with a suffix, centering, and the bordered two-column report.
//!
//! Centering puts the extra space on the left when the padding is odd.

use vstd::prelude::*;

verus! {

use crate::counter::chars_to_string;

/// The character for one decimal digit.
pub open spec fn digit_char(d: nat) -> char {
    (48 + d) as char
}

/// The decimal digits of a number, most significant first.
pub open spec fn digits_of(n: nat) -> Seq<char>
    decreases n,
{
    if n < 10 {
        seq![digit_char(n)]
    } else {
        digits_of(n / 10).push(digit_char(n % 10))
    }
}

/// Digits grouped in threes from the least-significant end, the groups
/// separated by commas.
pub open spec fn group3(ds: Seq<char>) -> Seq<char>
    decreases ds.len(),
{
    if ds.len() <= 3 {
        ds
    } else {
        group3(ds.take(ds.len() - 3)) + seq![','] + ds.skip(ds.len() - 3)
    }
}

/// A number rendered in decimal with thousands separators.
pub open spec fn comma_spec(n: nat) -> Seq<char> {
    group3(digits_of(n))
}

fn digit_char_exec(d: usize) -> (r: char)
    requires
        d < 10,
    ensures
        r == digit_char(d as nat),
{
    match d {
        0 => '0',
        1 => '1',
        2 => '2',
        3 => '3',
        4 => '4',
        5 => '5',
        6 => '6',
        7 => '7',
        8 => '8',
        _ => '9',
    }
}

fn digits_exec(n: usize) -> (r: Vec<char>)
    ensures
        r@ == digits_of(n as nat),
    decreases n,
{
    if n < 10 {
        let mut v: Vec<char> = Vec::new();
        v.push(digit_char_exec(n));
        proof {
            assert(v@ =~= digits_of(n as nat));
        }
        v
    } else {
        let mut v = digits_exec(n / 10);
        v.push(digit_char_exec(n % 10));
        proof {
            assert(v@ =~= digits_of(n as nat));
        }
        v
    }
}

fn group3_exec(ds: &Vec<char>, len: usize) -> (r: Vec<char>)
    requires
        len <= ds@.len(),
    ensures
        r@ == group3(ds@.take(len as int)),
    decreases len,
{
    if len <= 3 {
        let mut r: Vec<char> = Vec::new();
        let mut i: usize = 0;
        while i < len
            invariant
                i <= len,
                len <= ds@.len(),
                r@ == ds@.take(i as int),
            decreases len - i,
        {
            r.push(ds[i]);
            proof {
                assert(ds@.take(i + 1 as int) =~= ds@.take(i as int).push(ds@[i as int]));
            }
            i = i + 1;
        }
        r
    } else {
        let mut r = group3_exec(ds, len - 3);
        r.push(',');
        r.push(ds[len - 3]);
        r.push(ds[len - 2]);
        r.push(ds[len - 1]);
        proof {
            let whole = ds@.take(len as int);
            assert(whole.take(len - 3 as int) =~= ds@.take(len - 3 as int));
            assert(r@ =~= group3(whole.take(len - 3 as int)) + seq![','] + whole.skip(
                len - 3 as int,
            ));
        }
        r
    }
}

/// Place commas after every three digits, for human readability.
pub fn comma_separate_number(number: &usize) -> (r: String)
    ensures
        r@ == comma_spec(*number as nat),
{
    let ds = digits_exec(*number);
    let len = ds.len();
    let grouped = group3_exec(&ds, len);
    proof {
        assert(ds@.take(ds@.len() as int) =~= ds@);
    }
    chars_to_string(&grouped)
}

/// The code point of every character of a decimal rendering is a digit.
pub proof fn lemma_digits_are_digits(n: nat)
    ensures
        forall|i: int|
            0 <= i < digits_of(n).len() ==> 48 <= (#[trigger] digits_of(n)[i] as u32) <= 57,
    decreases n,
{
    if n >= 10 {
        lemma_digits_are_digits(n / 10);
        assert(forall|i: int|
            0 <= i < digits_of(n / 10).len() ==> digits_of(n)[i] == digits_of(n / 10)[i]);
    }
}

/// The sequence with every comma removed.
pub open spec fn strip_commas(s: Seq<char>) -> Seq<char> {
    s.filter(|c: char| c != ',')
}

/// The numeric value of a sequence of decimal digit characters.
pub open spec fn digits_val(ds: Seq<char>) -> int
    decreases ds.len(),
{
    if ds.len() == 0 {
        0
    } else {
        digits_val(ds.drop_last()) * 10 + (ds.last() as u32) - 48
    }
}

/// Reading the decimal rendering of a number back yields the number.
pub proof fn lemma_digits_val_of(n: nat)
    ensures
        digits_val(digits_of(n)) == n,
    decreases n,
{
    if n < 10 {
        assert(digits_of(n).drop_last() =~= Seq::<char>::empty());
        assert(digits_of(n).last() == digit_char(n));
        assert((digit_char(n) as u32) == 48 + n);
        assert(digits_val(digits_of(n)) == digits_val(Seq::<char>::empty()) * 10 + (digit_char(
            n,
        ) as u32) - 48);
    } else {
        lemma_digits_val_of(n / 10);
        assert(digits_of(n).drop_last() =~= digits_of(n / 10));
        assert(digits_of(n).last() == digit_char(n % 10));
        assert((digit_char(n % 10) as u32) == 48 + n % 10);
        assert(digits_val(digits_of(n)) == digits_val(digits_of(n / 10)) * 10 + (digit_char(
            n % 10,
        ) as u32) - 48);
        assert(digits_val(digits_of(n)) == (n / 10) * 10 + n % 10);
        vstd::arithmetic::div_mod::lemma_fundamental_div_mod(n as int, 10);
        assert(n == 10 * (n as int / 10) + n as int % 10);
    }
}

/// Filtering keeps a sequence with no comma unchanged.
proof fn lemma_strip_no_commas(s: Seq<char>)
    requires
        forall|i: int| 0 <= i < s.len() ==> s[i] != ',',
    ensures
        strip_commas(s) == s,
    decreases s.len(),
{
    reveal(Seq::filter);
    if s.len() > 0 {
        lemma_strip_no_commas(s.drop_last());
        assert(strip_commas(s) =~= s);
    }
}

/// Stripping the commas that grouping inserted restores the digits.
proof fn lemma_strip_group3(ds: Seq<char>)
    requires
        forall|i: int| 0 <= i < ds.len() ==> ds[i] != ',',
    ensures
        strip_commas(group3(ds)) == ds,
    decreases ds.len(),
{
    broadcast use vstd::seq_lib::group_seq_properties;

    if ds.len() <= 3 {
        lemma_strip_no_commas(ds);
    } else {
        let head = ds.take(ds.len() - 3);
        let tail = ds.skip(ds.len() - 3);
        lemma_strip_group3(head);
        lemma_strip_no_commas(tail);
        Seq::filter_distributes_over_add(group3(head) + seq![','], tail, |c: char| c != ',');
        Seq::filter_distributes_over_add(group3(head), seq![','], |c: char| c != ',');
        reveal(Seq::filter);
        assert(strip_commas(seq![',']) =~= Seq::<char>::empty());
        assert(strip_commas(group3(ds)) =~= head + tail);
        assert(head + tail =~= ds);
    }
}

/// Law: stripping the thousands separators from a rendered number and
/// reading the decimal digits back yields the original number.
pub proof fn lemma_comma_round_trip(n: nat)
    ensures
        digits_val(strip_commas(comma_spec(n))) == n,
{
    lemma_digits_are_digits(n);
    assert(forall|i: int| 0 <= i < digits_of(n).len() ==> digits_of(n)[i] != ',') by {
        assert((',' as u32) == 44);
    }
    lemma_strip_group3(digits_of(n));
    lemma_digits_val_of(n);
}

/// Three dots, the default truncation suffix.
pub open spec fn default_suffix() -> Seq<char> {
    seq!['.', '.', '.']
}

/// The truncation suffix to use: the given one, or the default.
pub open spec fn suffix_view(s: Option<&String>) -> Seq<char> {
    match s {
        Some(s) => s@,
        None => default_suffix(),
    }
}

/// Truncation with a suffix: a text short enough is returned unchanged;
/// a longer one is cut so that text plus suffix fill the width exactly.
pub open spec fn limit_spec(t: Seq<char>, w: nat, sfx: Seq<char>) -> Seq<char> {
    if t.len() <= w {
        t
    } else {
        t.take(w - sfx.len()) + sfx
    }
}

/// Law: truncation with a suffix is idempotent.
pub proof fn lemma_limit_width_idempotent(t: Seq<char>, w: nat, sfx: Seq<char>)
    requires
        sfx.len() < w,
    ensures
        limit_spec(limit_spec(t, w, sfx), w, sfx) == limit_spec(t, w, sfx),
{
    if t.len() > w {
        assert(limit_spec(t, w, sfx).len() == w);
    }
}

/// Limit the text to the given width; a longer text is truncated and
/// given the suffix (three dots when none is given) so that the result
/// is exactly the width.
pub fn limit_width(text: &String, max_width: &usize, suffix: Option<&String>) -> (r: String)
    requires
        suffix_view(suffix).len() < *max_width,
    ensures
        r@ == limit_spec(text@, *max_width as nat, suffix_view(suffix)),
{
    let tl = text.as_str().unicode_len();
    if tl <= *max_width {
        return text.clone();
    }
    let sfx_len: usize = match suffix {
        Some(s) => s.as_str().unicode_len(),
        None => 3,
    };
    let keep = *max_width - sfx_len;
    let head = text.as_str().substring_char(0, keep);
    let mut out = head.to_owned();
    match suffix {
        Some(s) => out.append(s.as_str()),
        None => {
            proof {
                reveal_strlit("...");
            }
            assert("..."@ =~= default_suffix());
            out.append("...");
        },
    }
    proof {
        assert(out@ =~= limit_spec(text@, *max_width as nat, suffix_view(suffix)));
    }
    out
}

/// A run of spaces.
pub open spec fn spaces(n: nat) -> Seq<char> {
    Seq::new(n, |i: int| ' ')
}

/// Centering: a text of exactly the width is unchanged; a longer one is
/// truncated with the default suffix; a shorter one is padded with
/// spaces split around it, the extra space on the left when the padding
/// is odd.
pub open spec fn centre_spec(t: Seq<char>, w: nat) -> Seq<char> {
    if t.len() == w {
        t
    } else if t.len() > w {
        limit_spec(t, w, default_suffix())
    } else {
        let left = (w - t.len() + 1) / 2;
        spaces(left as nat) + t + spaces((w - t.len() - left) as nat)
    }
}

/// Centre the text in the given width.
pub fn centre_text(text: &String, max_width: &usize) -> (r: String)
    requires
        text@.len() <= *max_width || *max_width > 3,
    ensures
        r@ == centre_spec(text@, *max_width as nat),
{
    let cc = text.as_str().unicode_len();
    if cc == *max_width {
        return text.clone();
    }
    if cc > *max_width {
        return limit_width(text, max_width, None);
    }
    let diff = *max_width - cc;
    let left = (diff - 1) / 2 + 1;
    proof {
        assert(left == (*max_width - text@.len() + 1) / 2);
        reveal_strlit(" ");
    }
    assert(" "@ =~= seq![' ']);
    let mut out = String::new();
    let mut k: usize = 0;
    while k < left
        invariant
            k <= left,
            " "@ == seq![' '],
            out@ =~= spaces(k as nat),
        decreases left - k,
    {
        out.append(" ");
        proof {
            assert(out@ =~= spaces((k + 1) as nat));
        }
        k = k + 1;
    }
    out.append(text.as_str());
    let right = diff - left;
    let ghost mid = out@;
    let mut k2: usize = 0;
    while k2 < right
        invariant
            k2 <= right,
            " "@ == seq![' '],
            out@ =~= mid + spaces(k2 as nat),
        decreases right - k2,
    {
        out.append(" ");
        proof {
            assert(out@ =~= mid + spaces((k2 + 1) as nat));
        }
        k2 = k2 + 1;
    }
    proof {
        assert(out@ =~= centre_spec(text@, *max_width as nat));
    }
    out
}

/// The heading of the words column.
pub open spec fn common_subheading() -> Seq<char> {
    "Most common words/phrases"@
}

/// The heading of the counts column.
pub open spec fn count_subheading() -> Seq<char> {
    "Counts"@
}

/// The display phrase of one ranked entry: the word followed by its
/// count in parentheses.
pub open spec fn word_phrase(w: Seq<char>, c: nat) -> Seq<char> {
    w + " ("@ + comma_spec(c) + ")"@
}

/// The four aggregate-count phrases of the counts column.
pub open spec fn count_phrases(
    word_count: nat,
    char_count: nat,
    numeric_count: nat,
    whitespace_count: nat,
) -> Seq<Seq<char>> {
    seq![
        "Word: "@ + comma_spec(word_count),
        "Character: "@ + comma_spec(char_count),
        "Digit: "@ + comma_spec(numeric_count),
        "Whitespace: "@ + comma_spec(whitespace_count),
    ]
}

/// The phrases padded with empty phrases up to the number of rows.
pub open spec fn pad_empty(ps: Seq<Seq<char>>, rows: nat) -> Seq<Seq<char>> {
    Seq::new(rows, |k: int| if k < ps.len() { ps[k] } else { Seq::<char>::empty() })
}

/// The longest length among the phrases, at least the floor.
pub open spec fn max_len(ss: Seq<Seq<char>>, floor: nat) -> nat
    decreases ss.len(),
{
    if ss.len() == 0 {
        floor
    } else {
        let m = max_len(ss.drop_last(), floor);
        if ss.last().len() > m {
            ss.last().len()
        } else {
            m
        }
    }
}

/// The widths of the two columns: seven tenths of the usable width
/// (rounded up) for the words, the rest for the counts; when one column
/// is wider than its longest phrase while the other is too narrow for
/// its own, width moves to the tight column, bounded by the shorter of
/// the two longest phrases.
pub open spec fn col_widths(w: nat, lcp: nat, lcnt: nat) -> (nat, nat) {
    let usable = (w - 2) as nat;
    let cw0 = ((usable * 7 + 9) / 10) as nat;
    let cn0 = (usable - cw0) as nat;
    if cw0 > lcp && cn0 < lcnt {
        let cw = if lcp < lcnt {
            lcp
        } else {
            lcnt
        };
        (cw, (usable - cw) as nat)
    } else if cw0 < lcp && cn0 > lcnt {
        let cn = if lcnt < lcp {
            lcnt
        } else {
            lcp
        };
        ((usable - cn) as nat, cn)
    } else {
        (cw0, cn0)
    }
}

/// One report row: a border bar, the left phrase centred in the left
/// column, a bar, the right phrase centred in the right column, a bar.
pub open spec fn boxed_line(left: Seq<char>, lw: nat, right: Seq<char>, rw: nat) -> Seq<char> {
    seq!['|'] + limit_spec(centre_spec(left, lw), lw, default_suffix()) + seq!['|'] + limit_spec(
        centre_spec(right, rw),
        rw,
        default_suffix(),
    ) + seq!['|']
}

/// The full report: a border line, the column headings, a border line,
/// one row per ranked entry (at least the four aggregate rows), and a
/// closing border line.
pub open spec fn display_spec(
    word_count: nat,
    char_count: nat,
    numeric_count: nat,
    whitespace_count: nat,
    words: Seq<Seq<char>>,
    counts: Seq<nat>,
    w: nat,
) -> Seq<Seq<char>> {
    let sep = Seq::new(w, |i: int| '=');
    let wps = Seq::new(words.len(), |k: int| word_phrase(words[k], counts[k]));
    let cps = count_phrases(word_count, char_count, numeric_count, whitespace_count);
    let rows = if wps.len() > 4 {
        wps.len()
    } else {
        4nat
    };
    let wps2 = pad_empty(wps, rows);
    let cps2 = pad_empty(cps, rows);
    let lcp = (max_len(words, 25) + 1) as nat;
    let lcnt = max_len(cps, 5);
    let cols = col_widths(w, lcp, lcnt);
    let lw = (cols.0 - 1) as nat;
    seq![sep, boxed_line(common_subheading(), lw, count_subheading(), cols.1), sep] + Seq::new(
        rows,
        |k: int| boxed_line(wps2[k], lw, cps2[k], cols.1),
    ) + seq![sep]
}

/// The longest phrase is at least the floor.
proof fn lemma_max_len_ge_floor(ss: Seq<Seq<char>>, floor: nat)
    ensures
        max_len(ss, floor) >= floor,
    decreases ss.len(),
{
    if ss.len() > 0 {
        lemma_max_len_ge_floor(ss.drop_last(), floor);
    }
}

/// The longest phrase is at least each phrase.
proof fn lemma_max_len_ge_elem(ss: Seq<Seq<char>>, floor: nat, i: int)
    requires
        0 <= i < ss.len(),
    ensures
        max_len(ss, floor) >= ss[i].len(),
    decreases ss.len(),
{
    if i < ss.len() - 1 {
        lemma_max_len_ge_elem(ss.drop_last(), floor, i);
    }
}

/// Grouping digits only adds separators.
proof fn lemma_group3_len(ds: Seq<char>)
    ensures
        group3(ds).len() >= ds.len(),
    decreases ds.len(),
{
    if ds.len() > 3 {
        lemma_group3_len(ds.take(ds.len() - 3));
    }
}

/// A rendered number has at least one character.
proof fn lemma_comma_spec_len(n: nat)
    ensures
        comma_spec(n).len() >= 1,
{
    lemma_group3_len(digits_of(n));
}

/// With a width of at least sixteen, a words heading of at least
/// twenty-six and a counts phrase of at least thirteen characters, both
/// columns end up wide enough for truncation, and they fill the usable
/// width exactly.
proof fn lemma_col_widths_bounds(w: nat, lcp: nat, lcnt: nat)
    requires
        w >= 16,
        lcp >= 26,
        lcnt >= 13,
    ensures
        col_widths(w, lcp, lcnt).0 >= 5,
        col_widths(w, lcp, lcnt).1 >= 4,
        col_widths(w, lcp, lcnt).0 + col_widths(w, lcp, lcnt).1 == w - 2,
{
    let usable = (w - 2) as int;
    let cw0 = (usable * 7 + 9) / 10;
    vstd::arithmetic::div_mod::lemma_fundamental_div_mod(usable * 7 + 9, 10);
    vstd::arithmetic::div_mod::lemma_mod_bound(usable * 7 + 9, 10);
    assert(10 * cw0 <= usable * 7 + 9 < 10 * cw0 + 10);
    assert(usable * 7 + 9 <= usable * 10 - 31);
    assert(cw0 >= 10);
    assert(cw0 <= usable - 4);
}

/// Centering fills a wide-enough width exactly.
proof fn lemma_centre_len(t: Seq<char>, w: nat)
    requires
        w > 3,
    ensures
        centre_spec(t, w).len() == w,
{
    if t.len() > w {
        assert(limit_spec(t, w, default_suffix()).len() == w);
    } else if t.len() < w {
        let d = w - t.len();
        assert(0 <= (d + 1) / 2 <= d);
    }
}

/// A report row over wide-enough columns has exactly the bordered width.
proof fn lemma_boxed_line_len(left: Seq<char>, lw: nat, right: Seq<char>, rw: nat)
    requires
        lw > 3,
        rw > 3,
    ensures
        boxed_line(left, lw, right, rw).len() == lw + rw + 3,
{
    lemma_centre_len(left, lw);
    lemma_centre_len(right, rw);
}

/// The border line: the width in repeated border characters.
fn build_separator(max_width: &usize) -> (r: String)
    ensures
        r@ == Seq::new(*max_width as nat, |i: int| '='),
{
    proof {
        reveal_strlit("=");
    }
    assert("="@ =~= seq!['=']);
    let mut out = String::new();
    let mut k: usize = 0;
    while k < *max_width
        invariant
            k <= *max_width,
            "="@ == seq!['='],
            out@.len() == k,
            forall|i: int| 0 <= i < k ==> out@[i] == '=',
        decreases *max_width - k,
    {
        out.append("=");
        k = k + 1;
    }
    proof {
        assert(out@ =~= Seq::new(*max_width as nat, |i: int| '='));
    }
    out
}

/// One report row from its two phrases and column widths.
fn build_boxed_line(left: &String, lw: &usize, right: &String, rw: &usize) -> (r: String)
    requires
        *lw > 3,
        *rw > 3,
    ensures
        r@ == boxed_line(left@, *lw as nat, right@, *rw as nat),
{
    proof {
        reveal_strlit("|");
    }
    assert("|"@ =~= seq!['|']);
    let l_centred = centre_text(left, lw);
    let l_limited = limit_width(&l_centred, lw, None);
    let r_centred = centre_text(right, rw);
    let r_limited = limit_width(&r_centred, rw, None);
    let mut line = "|".to_owned();
    line.append(l_limited.as_str());
    line.append("|");
    line.append(r_limited.as_str());
    line.append("|");
    proof {
        assert(line@ =~= boxed_line(left@, *lw as nat, right@, *rw as nat));
    }
    line
}

/// One display phrase per ranked entry.
fn build_word_phrases(common_words: &Vec<String>, common_counts: &Vec<usize>) -> (r: Vec<String>)
    requires
        common_words@.len() == common_counts@.len(),
    ensures
        r@.len() == common_words@.len(),
        forall|t: int|
            0 <= t < r@.len() ==> #[trigger] r@[t]@ == word_phrase(
                common_words@[t]@,
                common_counts@[t] as nat,
            ),
{
    let mut out: Vec<String> = Vec::new();
    let mut k: usize = 0;
    while k < common_words.len()
        invariant
            k <= common_words@.len(),
            common_words@.len() == common_counts@.len(),
            out@.len() == k,
            forall|t: int|
                0 <= t < k ==> #[trigger] out@[t]@ == word_phrase(
                    common_words@[t]@,
                    common_counts@[t] as nat,
                ),
        decreases common_words@.len() - k,
    {
        let mut p = common_words[k].clone();
        p.append(" (");
        let cv = common_counts[k];
        let formatted = comma_separate_number(&cv);
        p.append(formatted.as_str());
        p.append(")");
        out.push(p);
        k = k + 1;
    }
    out
}

/// The four aggregate-count phrases.
fn build_count_phrases(
    word_count: &usize,
    char_count: &usize,
    numeric_count: &usize,
    whitespace_count: &usize,
) -> (r: Vec<String>)
    ensures
        r@.len() == 4,
        forall|t: int|
            0 <= t < 4 ==> #[trigger] r@[t]@ == count_phrases(
                *word_count as nat,
                *char_count as nat,
                *numeric_count as nat,
                *whitespace_count as nat,
            )[t],
{
    let mut out: Vec<String> = Vec::new();
    let mut p1 = "Word: ".to_owned();
    let f1 = comma_separate_number(word_count);
    p1.append(f1.as_str());
    out.push(p1);
    let mut p2 = "Character: ".to_owned();
    let f2 = comma_separate_number(char_count);
    p2.append(f2.as_str());
    out.push(p2);
    let mut p3 = "Digit: ".to_owned();
    let f3 = comma_separate_number(numeric_count);
    p3.append(f3.as_str());
    out.push(p3);
    let mut p4 = "Whitespace: ".to_owned();
    let f4 = comma_separate_number(whitespace_count);
    p4.append(f4.as_str());
    out.push(p4);
    out
}

/// The length of the longest phrase, at least the floor.
fn longest_phrase_len(phrases: &Vec<String>, floor: usize) -> (r: usize)
    ensures
        r as nat == max_len(crate::counter::views(phrases@), floor as nat),
        r == floor || exists|t: int|
            0 <= t < phrases@.len() && r as nat == #[trigger] phrases@[t]@.len(),
{
    let ghost vs = crate::counter::views(phrases@);
    let mut longest = floor;
    let mut k: usize = 0;
    while k < phrases.len()
        invariant
            k <= phrases@.len(),
            vs == crate::counter::views(phrases@),
            longest as nat == max_len(vs.take(k as int), floor as nat),
            longest == floor || exists|t: int|
                0 <= t < phrases@.len() && longest as nat == #[trigger] phrases@[t]@.len(),
        decreases phrases@.len() - k,
    {
        let l = phrases[k].as_str().unicode_len();
        proof {
            assert(vs.take(k + 1 as int).drop_last() =~= vs.take(k as int));
            assert(vs.take(k + 1 as int).last() == vs[k as int]);
        }
        if l > longest {
            longest = l;
        }
        k = k + 1;
    }
    proof {
        assert(vs.take(vs.len() as int) =~= vs);
    }
    longest
}

/// Pad the phrases with empty phrases up to the number of rows.
fn pad_phrases(phrases: &mut Vec<String>, rows: usize)
    requires
        old(phrases)@.len() <= rows,
    ensures
        final(phrases)@.len() == rows,
        forall|t: int|
            0 <= t < old(phrases)@.len() ==> #[trigger] final(phrases)@[t] == old(phrases)@[t],
        forall|t: int|
            old(phrases)@.len() <= t < rows ==> #[trigger] final(phrases)@[t]@ == Seq::<
                char,
            >::empty(),
{
    let ghost n0 = old(phrases)@.len();
    while phrases.len() < rows
        invariant
            n0 <= phrases@.len() <= rows,
            forall|t: int| 0 <= t < n0 ==> #[trigger] phrases@[t] == old(phrases)@[t],
            forall|t: int| n0 <= t < phrases@.len() ==> #[trigger] phrases@[t]@ == Seq::<
                char,
            >::empty(),
        decreases rows - phrases@.len(),
    {
        let e = String::new();
        proof {
            assert(e@ =~= Seq::<char>::empty());
        }
        phrases.push(e);
    }
}

/// Render the ranking and the aggregate counters as a bordered
/// two-column report of exactly `max_width`-character lines.
#[verifier::rlimit(60)]
pub fn get_display(
    word_count: &usize,
    char_count: &usize,
    numeric_count: &usize,
    whitespace_count: &usize,
    common_words: &Vec<String>,
    common_counts: &Vec<usize>,
    max_width: &usize,
) -> (r: Vec<String>)
    requires
        common_words@.len() == common_counts@.len(),
        *max_width >= 16,
        (*max_width - 2) * 7 + 9 <= usize::MAX,
        forall|k: int| 0 <= k < common_words@.len() ==> #[trigger] common_words@[k]@.len()
            < usize::MAX,
    ensures
        crate::counter::views(r@) == display_spec(
            *word_count as nat,
            *char_count as nat,
            *numeric_count as nat,
            *whitespace_count as nat,
            crate::counter::views(common_words@),
            common_counts@.map_values(|c: usize| c as nat),
            *max_width as nat,
        ),
{
    let ghost words_s = crate::counter::views(common_words@);
    let ghost counts_s = common_counts@.map_values(|c: usize| c as nat);
    let ghost wid = *max_width as nat;
    let ghost sep_s = Seq::new(wid, |i: int| '=');
    let ghost wps = Seq::new(words_s.len(), |k: int| word_phrase(words_s[k], counts_s[k]));
    let ghost cps = count_phrases(
        *word_count as nat,
        *char_count as nat,
        *numeric_count as nat,
        *whitespace_count as nat,
    );

    let row_separator = build_separator(max_width);
    let mut word_phrases = build_word_phrases(common_words, common_counts);
    let mut count_phrases_v = build_count_phrases(
        word_count,
        char_count,
        numeric_count,
        whitespace_count,
    );
    proof {
        assert(forall|t: int| 0 <= t < wps.len() ==> #[trigger] word_phrases@[t]@ == wps[t]);
        assert(forall|t: int| 0 <= t < 4 ==> #[trigger] count_phrases_v@[t]@ == cps[t]);
    }

    let longest_common = longest_phrase_len(common_words, 25);
    let lcp = longest_common + 1;
    let longest_count = longest_phrase_len(&count_phrases_v, 5);
    let lcnt = longest_count;
    let ghost lcp_s = (max_len(words_s, 25) + 1) as nat;
    let ghost lcnt_s = max_len(cps, 5);
    proof {
        assert(crate::counter::views(count_phrases_v@) =~= cps);
        assert(lcp as nat == lcp_s);
        assert(lcnt as nat == lcnt_s);
    }

    let rows = if word_phrases.len() > 4 {
        word_phrases.len()
    } else {
        4
    };
    let ghost rows_s = rows as nat;
    let ghost wps2 = pad_empty(wps, rows_s);
    let ghost cps2 = pad_empty(cps, rows_s);
    pad_phrases(&mut word_phrases, rows);
    pad_phrases(&mut count_phrases_v, rows);
    proof {
        assert(forall|t: int|
            0 <= t < rows_s ==> #[trigger] word_phrases@[t]@ == wps2[t] && count_phrases_v@[t]@
                == cps2[t]);
    }

    let usable = *max_width - 2;
    proof {
        vstd::arithmetic::div_mod::lemma_fundamental_div_mod(usable as int * 7 + 9, 10);
        vstd::arithmetic::div_mod::lemma_mod_bound(usable as int * 7 + 9, 10);
    }
    let mut cw = (usable * 7 + 9) / 10;
    assert(5 <= cw <= usable - 4);
    let mut cn = usable - cw;
    if cw > lcp && cn < lcnt {
        cw = if lcp < lcnt {
            lcp
        } else {
            lcnt
        };
        cn = usable - cw;
    } else if cw < lcp && cn > lcnt {
        cn = if lcnt < lcp {
            lcnt
        } else {
            lcp
        };
        cw = usable - cn;
    }
    proof {
        assert(cw as nat == col_widths(wid, lcp_s, lcnt_s).0);
        assert(cn as nat == col_widths(wid, lcp_s, lcnt_s).1);
        lemma_max_len_ge_floor(words_s, 25);
        assert(cps[3].len() >= 13) by {
            reveal_strlit("Whitespace: ");
            lemma_comma_spec_len(*whitespace_count as nat);
        }
        lemma_max_len_ge_elem(cps, 5, 3);
        lemma_col_widths_bounds(wid, lcp_s, lcnt_s);
    }
    let lw = cw - 1;

    let sub = "Most common words/phrases".to_owned();
    let csub = "Counts".to_owned();
    let heading = build_boxed_line(&sub, &lw, &csub, &cn);
    let ghost head_s = boxed_line(common_subheading(), lw as nat, count_subheading(), cn as nat);

    let mut output: Vec<String> = Vec::new();
    output.push(row_separator.clone());
    output.push(heading);
    output.push(row_separator.clone());
    let mut k: usize = 0;
    while k < rows
        invariant
            k <= rows,
            rows_s == rows as nat,
            word_phrases@.len() == rows,
            count_phrases_v@.len() == rows,
            forall|t: int|
                0 <= t < rows_s ==> #[trigger] word_phrases@[t]@ == wps2[t] && count_phrases_v@[t]@
                    == cps2[t],
            5 <= cw,
            4 <= cn,
            lw == cw - 1,
            output@.len() == 3 + k,
            output@[0]@ == sep_s,
            output@[1]@ == head_s,
            output@[2]@ == sep_s,
            forall|t: int|
                0 <= t < k ==> #[trigger] output@[3 + t]@ == boxed_line(
                    wps2[t],
                    lw as nat,
                    cps2[t],
                    cn as nat,
                ),
        decreases rows - k,
    {
        let line = build_boxed_line(&word_phrases[k], &lw, &count_phrases_v[k], &cn);
        output.push(line);
        k = k + 1;
    }
    let ghost pre_out = output@;
    output.push(row_separator);
    proof {
        let spec_lines = display_spec(
            *word_count as nat,
            *char_count as nat,
            *numeric_count as nat,
            *whitespace_count as nat,
            words_s,
            counts_s,
            wid,
        );
        let body = Seq::new(rows_s, |t: int| boxed_line(wps2[t], lw as nat, cps2[t], cn as nat));
        assert(spec_lines == seq![sep_s, head_s, sep_s] + body + seq![sep_s]);
        assert(crate::counter::views(output@).len() == spec_lines.len());
        assert forall|i: int| 0 <= i < spec_lines.len() implies crate::counter::views(output@)[i]
            == spec_lines[i] by {
            if i == 0 || i == 2 {
                assert(output@[i]@ == sep_s);
            } else if i == 1 {
                assert(output@[1]@ == head_s);
            } else if i == spec_lines.len() - 1 {
                assert(output@[i]@ == sep_s);
                assert(spec_lines[i] == sep_s);
            } else {
                let t = i - 3;
                assert(output@[i] == pre_out[i]);
                assert(pre_out[3 + t]@ == boxed_line(wps2[t], lw as nat, cps2[t], cn as nat));
                assert(spec_lines[i] == body[t]);
            }
        }
        assert(crate::counter::views(output@) =~= spec_lines);
    }
    output
}

/// Law: every line of the report has exactly the requested width, for
/// any width of at least the documented minimum of sixteen.
pub proof fn lemma_display_line_widths(
    word_count: nat,
    char_count: nat,
    numeric_count: nat,
    whitespace_count: nat,
    words: Seq<Seq<char>>,
    counts: Seq<nat>,
    w: nat,
)
    requires
        w >= 16,
    ensures
        forall|i: int|
            0 <= i < display_spec(
                word_count,
                char_count,
                numeric_count,
                whitespace_count,
                words,
                counts,
                w,
            ).len() ==> (#[trigger] display_spec(
                word_count,
                char_count,
                numeric_count,
                whitespace_count,
                words,
                counts,
                w,
            )[i]).len() == w,
{
    let cps = count_phrases(word_count, char_count, numeric_count, whitespace_count);
    let lcp = (max_len(words, 25) + 1) as nat;
    let lcnt = max_len(cps, 5);
    lemma_max_len_ge_floor(words, 25);
    assert(cps[3].len() >= 13) by {
        reveal_strlit("Whitespace: ");
        lemma_comma_spec_len(whitespace_count);
    }
    lemma_max_len_ge_elem(cps, 5, 3);
    lemma_col_widths_bounds(w, lcp, lcnt);
    let cols = col_widths(w, lcp, lcnt);
    let lw = (cols.0 - 1) as nat;
    let lines = display_spec(
        word_count,
        char_count,
        numeric_count,
        whitespace_count,
        words,
        counts,
        w,
    );
    assert forall|i: int| 0 <= i < lines.len() implies (#[trigger] lines[i]).len() == w by {
        let wps = Seq::new(words.len(), |k: int| word_phrase(words[k], counts[k]));
        let rows = if wps.len() > 4 {
            wps.len()
        } else {
            4nat
        };
        if i == 0 || i == 2 || i == lines.len() - 1 {
            assert(lines[i] == Seq::new(w, |t: int| '='));
        } else if i == 1 {
            lemma_boxed_line_len(common_subheading(), lw, count_subheading(), cols.1);
        } else {
            let wps2 = pad_empty(wps, rows);
            let cps2 = pad_empty(cps, rows);
            assert(lines[i] == boxed_line(wps2[i - 3], lw, cps2[i - 3], cols.1));
            lemma_boxed_line_len(wps2[i - 3], lw, cps2[i - 3], cols.1);
        }
    }
}

} // verus!
