//! Cell addresses: column letters, `A0`-style references and `A:C`-style
//! column ranges.
use vstd::prelude::*;
use crate::text::{
    alphabetic, numeric, utf8_len, utf8_width, ascii_lower_code, ascii_lower_code_exec, chars_of,
    parse_usize, parse_usize_spec, decimal, lemma_decimal_digits, digits_value, all_digits,
    is_digit, is_ascii_letter, string_of,
};

verus! {

/// A letter's weight in a column name: its lowercased code minus that of
/// `a`, never below zero.
pub open spec fn letter_value(c: char) -> nat {
    if ascii_lower_code(c) >= 97 {
        (ascii_lower_code(c) - 97) as nat
    } else {
        0
    }
}

/// The alphabetic characters of `s`, in order.
pub open spec fn letters_of(s: Seq<char>) -> Seq<char>
    decreases s.len(),
{
    if s.len() == 0 {
        Seq::empty()
    } else if alphabetic(s.last()) {
        letters_of(s.drop_last()).push(s.last())
    } else {
        letters_of(s.drop_last())
    }
}

/// The value of a column name read as a number in base 26 whose digits are
/// the letters `A` = 1 to `Z` = 26: `A` is 1, `Z` 26, `AA` 27, `ZZ` 702.
pub open spec fn column_value(letters: Seq<char>) -> nat
    decreases letters.len(),
{
    if letters.len() == 0 {
        0
    } else {
        column_value(letters.drop_last()) * 26 + letter_value(letters.last()) + 1
    }
}

pub open spec fn cap(n: nat) -> usize {
    if n <= usize::MAX {
        n as usize
    } else {
        usize::MAX
    }
}

/// The column index named by the alphabetic characters of `s`, counted
/// from 0 in the order `num_to_char` names the columns (`A` is 0, `Z` 25,
/// `AA` 26, `BA` 52, `ZZ` 701), saturating at `usize::MAX`; 0 when there
/// are no letters.
pub open spec fn char_to_idx_spec(s: Seq<char>) -> usize {
    let v = column_value(letters_of(s));
    if v == 0 {
        0
    } else {
        cap((v - 1) as nat)
    }
}

/// `s` without its `$` signs.
pub open spec fn strip_dollars(s: Seq<char>) -> Seq<char>
    decreases s.len(),
{
    if s.len() == 0 {
        Seq::empty()
    } else if s.last() == '$' {
        strip_dollars(s.drop_last())
    } else {
        strip_dollars(s.drop_last()).push(s.last())
    }
}

/// Length of the longest prefix of `s` whose characters are alphabetic.
pub open spec fn alpha_prefix_len(s: Seq<char>) -> nat
    decreases s.len(),
{
    if s.len() == 0 || !alphabetic(s[0]) {
        0
    } else {
        1 + alpha_prefix_len(s.drop_first())
    }
}

/// Length of the longest prefix of `s` whose characters are numeric.
pub open spec fn numeric_prefix_len(s: Seq<char>) -> nat
    decreases s.len(),
{
    if s.len() == 0 || !numeric(s[0]) {
        0
    } else {
        1 + numeric_prefix_len(s.drop_first())
    }
}

/// The `(x, y)` index a reference such as `A0`, `$B$12` or `aa3` names:
/// after dropping every `$`, a run of letters gives the column and the run
/// of numeric characters after it the row. The letters are skipped by their
/// length in UTF-8 bytes.
pub open spec fn parse_to_idx_spec(i: Seq<char>) -> Option<(usize, usize)> {
    let s = strip_dollars(i);
    let letters = s.take(alpha_prefix_len(s) as int);
    let skip = if utf8_len(letters) <= s.len() { utf8_len(letters) } else { s.len() };
    let rest = s.skip(skip as int);
    let nums = rest.take(numeric_prefix_len(rest) as int);
    if letters.len() == 0 || nums.len() == 0 {
        None
    } else {
        match parse_usize_spec(nums) {
            Some(y) => Some((char_to_idx_spec(letters), y)),
            None => None,
        }
    }
}

/// The two-character column header for index `idx`: a blank (below 26) or
/// the byte `idx / 26 + 64` read as a character, then the letter for
/// `idx % 26`.
pub open spec fn num_to_char_spec(idx: nat) -> Seq<char> {
    seq![
        if idx >= 26 { ((idx / 26 + 64) % 256) as char } else { ' ' },
        ((idx % 26) + 65) as char,
    ]
}

/// The column name for `idx` as it is written inside a reference: the
/// header without its leading blank.
pub open spec fn column_letters_spec(idx: nat) -> Seq<char> {
    if idx >= 26 {
        num_to_char_spec(idx)
    } else {
        seq![((idx % 26) + 65) as char]
    }
}

/// Index of one side of a range such as `A` or `AB`: the character at byte
/// offset `b` counts `letter_value` plus `26 * b` (saturating).
pub open spec fn range_side_sum(s: Seq<char>) -> nat
    decreases s.len(),
{
    if s.len() == 0 {
        0
    } else {
        range_side_sum(s.drop_last()) + letter_value(s.last()) + 26 * utf8_len(s.drop_last())
    }
}

/// Number of `:` in `s`.
pub open spec fn colon_count(s: Seq<char>) -> nat
    decreases s.len(),
{
    if s.len() == 0 {
        0
    } else {
        colon_count(s.drop_last()) + if s.last() == ':' { 1nat } else { 0nat }
    }
}

/// Position of the first `:` in `s` (its length when there is none).
pub open spec fn first_colon(s: Seq<char>) -> nat
    decreases s.len(),
{
    if s.len() == 0 || s[0] == ':' {
        0
    } else {
        1 + first_colon(s.drop_first())
    }
}

/// The column indices of a range `START:END`: `None` unless `s` splits into
/// exactly two parts at `:`.
pub open spec fn range_as_indices_spec(s: Seq<char>) -> Option<(usize, usize)> {
    if colon_count(s) == 1 {
        let k = first_colon(s) as int;
        Some((cap(range_side_sum(s.take(k))), cap(range_side_sum(s.skip(k + 1)))))
    } else {
        None
    }
}

/// Column index named by the alphabetic characters of `i`, read as a
/// base-26 column name (case-insensitive), so `A` is 0, `AA` 26 and `ZZ`
/// 701 (see `char_to_idx_spec`).
pub fn char_to_idx(i: &str) -> (r: usize)
    ensures
        r == char_to_idx_spec(i@),
{
    let cs = chars_of(i);
    column_index(&cs)
}

proof fn lemma_cap_add(a: nat, b: nat)
    ensures
        cap((cap(a) + b) as nat) == cap(a + b),
{
}

/// `char_to_idx` on a character vector.
pub fn column_index(cs: &Vec<char>) -> (r: usize)
    ensures
        r == char_to_idx_spec(cs@),
{
    let mut acc: usize = 0;
    let mut over = false;
    let mut i: usize = 0;
    while i < cs.len()
        invariant
            i <= cs.len(),
            over == (column_value(letters_of(cs@.take(i as int))) > usize::MAX),
            !over ==> acc == column_value(letters_of(cs@.take(i as int))),
        decreases cs.len() - i,
    {
        let c = cs[i];
        let ghost prev = cs@.take(i as int);
        assert(cs@.take(i + 1).drop_last() =~= prev);
        if c.is_alphabetic() {
            let v: u32 = ascii_lower_code_exec(c);
            let lv: usize = if v >= 97 { (v - 97) as usize } else { 0 };
            let ghost old_v = column_value(letters_of(prev));
            proof {
                let l = letters_of(prev);
                assert(letters_of(cs@.take(i + 1)) == l.push(c));
                assert(l.push(c).drop_last() =~= l);
                assert(column_value(l.push(c)) == old_v * 26 + lv + 1);
            }
            if !over {
                if acc <= (usize::MAX - lv - 1) / 26 {
                    assert(acc * 26 + lv + 1 <= usize::MAX) by (nonlinear_arith)
                        requires
                            acc <= (usize::MAX - lv - 1) / 26,
                            lv + 1 <= usize::MAX,
                    ;
                    acc = acc * 26 + lv + 1;
                } else {
                    assert(acc * 26 + lv + 1 > usize::MAX) by (nonlinear_arith)
                        requires
                            acc > (usize::MAX - lv - 1) / 26,
                            lv + 1 <= usize::MAX,
                    ;
                    over = true;
                }
            } else {
                assert(old_v * 26 + lv + 1 > usize::MAX) by (nonlinear_arith)
                    requires
                        old_v > usize::MAX,
                ;
            }
        }
        i = i + 1;
    }
    assert(cs@.take(cs.len() as int) =~= cs@);
    if over {
        usize::MAX
    } else if acc == 0 {
        0
    } else {
        acc - 1
    }
}

/// `26 * n`, saturating at `usize::MAX`.
fn times26(n: usize) -> (r: usize)
    ensures
        r == cap((26 * n) as nat),
{
    if n <= usize::MAX / 26 {
        n * 26
    } else {
        usize::MAX
    }
}

/// `s` without its `$` signs.
fn remove_dollars(s: &Vec<char>) -> (r: Vec<char>)
    ensures
        r@ == strip_dollars(s@),
{
    let mut r: Vec<char> = Vec::new();
    let mut i: usize = 0;
    while i < s.len()
        invariant
            i <= s.len(),
            r@ == strip_dollars(s@.take(i as int)),
        decreases s.len() - i,
    {
        assert(s@.take(i + 1).drop_last() =~= s@.take(i as int));
        if s[i] != '$' {
            r.push(s[i]);
        }
        i = i + 1;
    }
    assert(s@.take(s.len() as int) =~= s@);
    r
}

proof fn lemma_alpha_prefix(s: Seq<char>, n: nat)
    requires
        n <= s.len(),
        forall|j: int| 0 <= j < n ==> alphabetic(#[trigger] s[j]),
        n == s.len() || !alphabetic(s[n as int]),
    ensures
        alpha_prefix_len(s) == n,
    decreases n,
{
    if n > 0 {
        lemma_alpha_prefix(s.drop_first(), (n - 1) as nat);
    }
}

proof fn lemma_numeric_prefix(s: Seq<char>, n: nat)
    requires
        n <= s.len(),
        forall|j: int| 0 <= j < n ==> numeric(#[trigger] s[j]),
        n == s.len() || !numeric(s[n as int]),
    ensures
        numeric_prefix_len(s) == n,
    decreases n,
{
    if n > 0 {
        lemma_numeric_prefix(s.drop_first(), (n - 1) as nat);
    }
}

fn utf8_width_exec(c: char) -> (w: usize)
    ensures
        w == utf8_width(c),
{
    let v = c as u32;
    if v < 0x80 {
        1
    } else if v < 0x800 {
        2
    } else if v < 0x10000 {
        3
    } else {
        4
    }
}

/// Parses a reference such as `A0`, `C10`, `ZZ99` or `$A$0` into an `(x, y)`
/// index: `None` when the letters or the number after them are missing, or
/// the number does not fit in `usize`.
pub fn parse_to_idx(i: &str) -> (r: Option<(usize, usize)>)
    ensures
        r == parse_to_idx_spec(i@),
{
    let raw = chars_of(i);
    let s = remove_dollars(&raw);
    let ghost ss = s@;
    // the run of letters
    let mut n: usize = 0;
    while n < s.len() && s[n].is_alphabetic()
        invariant
            n <= s.len(),
            forall|j: int| 0 <= j < n ==> alphabetic(#[trigger] s@[j]),
        decreases s.len() - n,
    {
        n = n + 1;
    }
    proof { lemma_alpha_prefix(ss, n as nat); }
    let mut letters: Vec<char> = Vec::new();
    let mut bytes: usize = 0;
    let mut k: usize = 0;
    while k < n
        invariant
            k <= n <= s.len(),
            letters@ == s@.take(k as int),
            bytes == (if utf8_len(s@.take(k as int)) <= s.len() { utf8_len(s@.take(k as int)) } else { s.len() as nat }),
        decreases n - k,
    {
        assert(s@.take(k + 1).drop_last() =~= s@.take(k as int));
        let w = utf8_width_exec(s[k]);
        letters.push(s[k]);
        bytes = if w <= s.len() - bytes { bytes + w } else { s.len() };
        k = k + 1;
        assert(letters@ =~= s@.take(k as int));
    }
    // the run of numeric characters after the letters' byte length
    let mut m: usize = bytes;
    while m < s.len() && s[m].is_numeric()
        invariant
            bytes <= m <= s.len(),
            forall|j: int| bytes <= j < m ==> numeric(#[trigger] s@[j]),
        decreases s.len() - m,
    {
        m = m + 1;
    }
    proof {
        let rest = ss.skip(bytes as int);
        assert forall|j: int| 0 <= j < m - bytes implies numeric(#[trigger] rest[j]) by {
            assert(rest[j] == ss[bytes + j]);
        }
        if m < s.len() {
            assert(rest[m - bytes] == ss[m as int]);
        }
        lemma_numeric_prefix(rest, (m - bytes) as nat);
    }
    if n == 0 || m == bytes {
        return None;
    }
    let mut nums: Vec<char> = Vec::new();
    let mut j: usize = bytes;
    while j < m
        invariant
            bytes <= j <= m <= s.len(),
            nums@ == s@.subrange(bytes as int, j as int),
        decreases m - j,
    {
        nums.push(s[j]);
        j = j + 1;
        assert(nums@ =~= s@.subrange(bytes as int, j as int));
    }
    assert(nums@ =~= ss.skip(bytes as int).take((m - bytes) as int));
    let x = column_index(&letters);
    match parse_usize(&nums) {
        Some(y) => Some((x, y)),
        None => None,
    }
}

fn byte_char(v: usize) -> (c: char)
    requires
        v < 256,
    ensures
        c == v as char,
{
    let b: u8 = v as u8;
    b as char
}

/// The column header for index `idx`: `A` is 0 and `AA` is 26, with a
/// leading blank below 26; beyond `ZZ` the first character is whatever byte
/// `idx / 26 + 64` wraps to.
pub fn num_to_char(idx: usize) -> (r: String)
    ensures
        r@ == num_to_char_spec(idx as nat),
{
    let mut word: Vec<char> = Vec::new();
    if idx >= 26 {
        word.push(byte_char((idx / 26 + 64) % 256));
    } else {
        word.push(' ');
    }
    word.push(byte_char(idx % 26 + 65));
    assert(word@ =~= num_to_char_spec(idx as nat));
    string_of(&word)
}

/// The column name for `idx` as written inside a reference: the header
/// without its leading blank.
pub fn column_letters(idx: usize) -> (r: Vec<char>)
    ensures
        r@ == column_letters_spec(idx as nat),
{
    let mut word: Vec<char> = Vec::new();
    if idx >= 26 {
        word.push(byte_char((idx / 26 + 64) % 256));
    }
    word.push(byte_char(idx % 26 + 65));
    assert(word@ =~= column_letters_spec(idx as nat));
    word
}

/// Index of one side of a range (`A`, `AB`, ...).
fn range_side(s: &Vec<char>, from: usize, to: usize) -> (r: usize)
    requires
        from <= to <= s.len(),
    ensures
        r == cap(range_side_sum(s@.subrange(from as int, to as int))),
{
    let mut acc: usize = 0;
    let mut bytes: usize = 0;
    let mut i: usize = from;
    while i < to
        invariant
            from <= i <= to <= s.len(),
            acc == cap(range_side_sum(s@.subrange(from as int, i as int))),
            bytes == cap(utf8_len(s@.subrange(from as int, i as int))),
        decreases to - i,
    {
        let c = s[i];
        let ghost prev = s@.subrange(from as int, i as int);
        assert(s@.subrange(from as int, i + 1).drop_last() =~= prev);
        let v: u32 = ascii_lower_code_exec(c);
        let lv: usize = if v >= 97 { (v - 97) as usize } else { 0 };
        let w = times26(bytes);
        proof {
            lemma_cap_add(range_side_sum(prev), letter_value(c));
            lemma_cap_add(range_side_sum(prev) + letter_value(c), 26 * utf8_len(prev));
            assert(cap((26 * cap(utf8_len(prev))) as nat) == cap(26 * utf8_len(prev))) by (nonlinear_arith);
        }
        acc = acc.saturating_add(lv).saturating_add(w);
        let cw = utf8_width_exec(c);
        proof { lemma_cap_add(utf8_len(prev), utf8_width(c)); }
        bytes = bytes.saturating_add(cw);
        i = i + 1;
    }
    acc
}

/// The column indices of a range `START:END` (such as `A:C`); `None` unless
/// the text splits into exactly two parts at `:`.
pub fn range_as_indices(range: &str) -> (r: Option<(usize, usize)>)
    ensures
        r == range_as_indices_spec(range@),
{
    let s = chars_of(range);
    let mut count: usize = 0;
    let mut first: usize = s.len();
    let mut i: usize = 0;
    while i < s.len()
        invariant
            i <= s.len(),
            count == colon_count(s@.take(i as int)),
            count <= i,
            count == 0 ==> first == s.len(),
            count == 0 ==> forall|j: int| 0 <= j < i ==> s@[j] != ':',
            count > 0 ==> first < i && s@[first as int] == ':' && forall|j: int|
                0 <= j < first ==> s@[j] != ':',
        decreases s.len() - i,
    {
        assert(s@.take(i + 1).drop_last() =~= s@.take(i as int));
        if s[i] == ':' {
            if count == 0 {
                first = i;
            }
            count = count + 1;
        }
        i = i + 1;
    }
    assert(s@.take(s.len() as int) =~= s@);
    if count != 1 {
        return None;
    }
    proof { lemma_first_colon(s@, first as nat); }
    let a = range_side(&s, 0, first);
    let b = range_side(&s, first + 1, s.len());
    assert(s@.subrange(0, first as int) =~= s@.take(first as int));
    assert(s@.subrange(first + 1, s.len() as int) =~= s@.skip(first + 1));
    Some((a, b))
}

proof fn lemma_first_colon(s: Seq<char>, k: nat)
    requires
        k < s.len(),
        s[k as int] == ':',
        forall|j: int| 0 <= j < k ==> s[j] != ':',
    ensures
        first_colon(s) == k,
    decreases k,
{
    if k > 0 {
        lemma_first_colon(s.drop_first(), (k - 1) as nat);
    }
}

} // verus!

verus! {

proof fn lemma_strip_no_dollars(s: Seq<char>)
    requires
        forall|j: int| 0 <= j < s.len() ==> #[trigger] s[j] != '$',
    ensures
        strip_dollars(s) == s,
    decreases s.len(),
{
    if s.len() > 0 {
        lemma_strip_no_dollars(s.drop_last());
        assert(s.drop_last().push(s.last()) =~= s);
    }
}

proof fn lemma_utf8_len_ascii(s: Seq<char>)
    requires
        forall|j: int| 0 <= j < s.len() ==> (#[trigger] s[j] as u32) < 128,
    ensures
        utf8_len(s) == s.len(),
    decreases s.len(),
{
    if s.len() > 0 {
        lemma_utf8_len_ascii(s.drop_last());
    }
}

proof fn lemma_letters_of_all(s: Seq<char>)
    requires
        forall|j: int| 0 <= j < s.len() ==> alphabetic(#[trigger] s[j]),
    ensures
        letters_of(s) == s,
    decreases s.len(),
{
    if s.len() > 0 {
        lemma_letters_of_all(s.drop_last());
        assert(s.drop_last().push(s.last()) =~= s);
    }
}

proof fn lemma_letter_char(v: nat)
    requires
        v < 26,
    ensures
        is_ascii_letter(((v + 65) as char)),
        ((v + 65) as char) as u32 == v + 65,
        letter_value(((v + 65) as char)) == v,
{
    let c = (v + 65) as char;
    assert(c as u32 == v + 65);
    assert('A' <= c && c <= 'Z');
    assert(ascii_lower_code(c) == v + 97);
}

/// The facts about a column name that reading it back relies on.
proof fn lemma_column_letters(x: nat)
    requires
        x < 702,
    ensures
        column_letters_spec(x).len() >= 1,
        forall|j: int|
            0 <= j < column_letters_spec(x).len() ==> is_ascii_letter(
                #[trigger] column_letters_spec(x)[j],
            ) && (column_letters_spec(x)[j] as u32) < 128,
        letters_of(column_letters_spec(x)) == column_letters_spec(x),
        column_value(column_letters_spec(x)) == x + 1,
{
    let l = column_letters_spec(x);
    lemma_letter_char(x % 26);
    let last = ((x % 26 + 65) as char);
    if x >= 26 {
        let h: nat = (x / 26 - 1) as nat;
        assert(h < 26);
        assert((x / 26 + 64) % 256 == h + 65);
        lemma_letter_char(h);
        assert(l[0] == ((h + 65) as char));
    }
    assert forall|j: int| 0 <= j < l.len() implies alphabetic(#[trigger] l[j]) by {}
    lemma_letters_of_all(l);
    assert(l.last() == last);
    if x < 26 {
        assert(l.drop_last() =~= Seq::<char>::empty());
        assert(column_value(l) == column_value(l.drop_last()) * 26 + letter_value(last) + 1);
    } else {
        let h: nat = (x / 26 - 1) as nat;
        let first = ((h + 65) as char);
        let one = seq![first];
        assert(l.drop_last() =~= one);
        assert(one.drop_last() =~= Seq::<char>::empty());
        assert(one.last() == first);
        assert(column_value(one) == column_value(one.drop_last()) * 26 + letter_value(first) + 1);
        assert(column_value(l) == column_value(one) * 26 + letter_value(last) + 1);
        assert((h + 1) * 26 + x % 26 == x) by (nonlinear_arith)
            requires
                h + 1 == x / 26,
        ;
    }
}

/// Writing a column's name followed by a row number gives a reference that
/// reads back as that column and row, for every column that has a name of
/// one or two letters (`A` to `ZZ`).
pub proof fn lemma_reference_round_trip(x: nat, y: nat)
    requires
        x < 702,
        y <= usize::MAX,
    ensures
        parse_to_idx_spec(column_letters_spec(x) + decimal(y)) == Some((x as usize, y as usize)),
{
    let l = column_letters_spec(x);
    let d = decimal(y);
    let s = l + d;
    lemma_decimal_digits(y);
    lemma_column_letters(x);
    assert(d[0] != '+') by {
        assert(is_digit(d[0]));
    }
    assert forall|j: int| 0 <= j < s.len() implies #[trigger] s[j] != '$' by {
        if j < l.len() {
            assert(is_ascii_letter(l[j]));
        } else {
            assert(s[j] == d[j - l.len()]);
            assert(is_digit(d[j - l.len()]));
        }
    }
    lemma_strip_no_dollars(s);
    assert forall|j: int| 0 <= j < l.len() implies alphabetic(#[trigger] s[j]) by {
        assert(s[j] == l[j]);
    }
    assert(s[l.len() as int] == d[0]);
    lemma_alpha_prefix(s, l.len());
    assert(s.take(l.len() as int) =~= l);
    lemma_utf8_len_ascii(l);
    assert(s.skip(l.len() as int) =~= d);
    assert forall|j: int| 0 <= j < d.len() implies numeric(#[trigger] d[j]) by {
        assert(is_digit(d[j]));
    }
    lemma_numeric_prefix(d, d.len());
    assert(d.take(d.len() as int) =~= d);
}

/// Text holding no `:`.
pub open spec fn colon_free(s: Seq<char>) -> bool {
    forall|j: int| 0 <= j < s.len() ==> #[trigger] s[j] != ':'
}

proof fn lemma_colon_count_concat(a: Seq<char>, b: Seq<char>)
    ensures
        colon_count(a + b) == colon_count(a) + colon_count(b),
    decreases b.len(),
{
    if b.len() == 0 {
        assert(a + b =~= a);
    } else {
        lemma_colon_count_concat(a, b.drop_last());
        assert((a + b).drop_last() =~= a + b.drop_last());
        assert((a + b).last() == b.last());
    }
}

proof fn lemma_colon_free_count(s: Seq<char>)
    requires
        colon_free(s),
    ensures
        colon_count(s) == 0,
    decreases s.len(),
{
    if s.len() > 0 {
        let p = s.drop_last();
        assert forall|j: int| 0 <= j < p.len() implies #[trigger] p[j] != ':' by {
            assert(p[j] == s[j]);
        }
        lemma_colon_free_count(p);
        assert(s.last() == s[s.len() - 1]);
    }
}

/// A range reads its two sides apart: the text before the `:` gives the
/// first column and the text after it the last, each side read on its own
/// (the `:` belongs to neither).
pub proof fn lemma_range_sides(a: Seq<char>, b: Seq<char>)
    requires
        colon_free(a),
        colon_free(b),
    ensures
        range_as_indices_spec(a + seq![':'] + b) == Some((cap(range_side_sum(a)), cap(range_side_sum(b)))),
{
    let s = a + seq![':'] + b;
    lemma_colon_count_concat(a + seq![':'], b);
    lemma_colon_count_concat(a, seq![':']);
    lemma_colon_free_count(a);
    lemma_colon_free_count(b);
    let one = seq![':'];
    assert(one.drop_last() =~= Seq::<char>::empty());
    assert(colon_count(Seq::<char>::empty()) == 0);
    assert(one.last() == ':');
    assert(colon_count(one) == 1);
    assert(colon_count(s) == 1);
    assert forall|j: int| 0 <= j < a.len() implies s[j] != ':' by {
        assert(s[j] == a[j]);
    }
    assert(s[a.len() as int] == ':');
    lemma_first_colon(s, a.len());
    assert(s.take(a.len() as int) =~= a);
    assert(s.skip(a.len() + 1int) =~= b);
}

/// A range of two single letters runs from the first letter's column to
/// the second's: `A:B` is columns 0 to 1, `C:A` is 2 to 0.
pub proof fn lemma_letter_range(c1: char, c2: char)
    requires
        is_ascii_letter(c1),
        is_ascii_letter(c2),
    ensures
        range_as_indices_spec(seq![c1, ':', c2]) == Some((letter_value(c1) as usize, letter_value(c2) as usize)),
        letter_value(c1) < 26,
        letter_value(c2) < 26,
{
    let a = seq![c1];
    let b = seq![c2];
    assert(seq![c1, ':', c2] =~= a + seq![':'] + b);
    lemma_range_sides(a, b);
    assert(a.drop_last() =~= Seq::<char>::empty());
    assert(b.drop_last() =~= Seq::<char>::empty());
    assert(range_side_sum(Seq::<char>::empty()) == 0);
    assert(utf8_len(Seq::<char>::empty()) == 0);
    assert(a.last() == c1 && b.last() == c2);
    assert(range_side_sum(a) == letter_value(c1) + 26 * utf8_len(Seq::<char>::empty()));
    assert(range_side_sum(b) == letter_value(c2) + 26 * utf8_len(Seq::<char>::empty()));
    lemma_letter_value_small(c1);
    lemma_letter_value_small(c2);
}

proof fn lemma_letter_value_small(c: char)
    requires
        is_ascii_letter(c),
    ensures
        letter_value(c) < 26,
{
}

} // verus!
