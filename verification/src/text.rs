//! Character and string helpers shared by the rest of the library: the
//! specifications of the few `std` text functions the library relies on,
//! decimal rendering and reading of `usize`, and substring replacement.
use vstd::prelude::*;

verus! {

/// `String::push` appends one character.
pub assume_specification[ std::string::String::push ](s: &mut std::string::String, ch: char)
    ensures
        final(s)@ == old(s)@.push(ch),
;

/// Whether a character has the Unicode `Alphabetic` property.
pub uninterp spec fn unicode_alphabetic(c: char) -> bool;

/// Whether a character has a Unicode numeric general category.
pub uninterp spec fn unicode_numeric(c: char) -> bool;

/// An ASCII letter.
pub open spec fn is_ascii_letter(c: char) -> bool {
    ('a' <= c && c <= 'z') || ('A' <= c && c <= 'Z')
}

/// An ASCII decimal digit.
pub open spec fn is_digit(c: char) -> bool {
    '0' <= c && c <= '9'
}

/// Alphabetic in the sense of `char::is_alphabetic`: among ASCII characters
/// exactly the letters; beyond ASCII, the Unicode `Alphabetic` property.
pub open spec fn alphabetic(c: char) -> bool {
    if (c as u32) < 128 {
        is_ascii_letter(c)
    } else {
        unicode_alphabetic(c)
    }
}

/// Numeric in the sense of `char::is_numeric`: among ASCII characters exactly
/// the decimal digits; beyond ASCII, the Unicode numeric categories.
pub open spec fn numeric(c: char) -> bool {
    if (c as u32) < 128 {
        is_digit(c)
    } else {
        unicode_numeric(c)
    }
}

/// `char::is_alphabetic`: the Unicode `Alphabetic` property, which among ASCII
/// characters exactly the letters have.
pub assume_specification[ char::is_alphabetic ](c: char) -> (r: bool)
    ensures
        (c as u32) < 128 ==> r == is_ascii_letter(c),
        (c as u32) >= 128 ==> r == unicode_alphabetic(c),
;

/// `char::is_numeric`: the Unicode numeric categories, which among ASCII
/// characters exactly the decimal digits have.
pub assume_specification[ char::is_numeric ](c: char) -> (r: bool)
    ensures
        (c as u32) < 128 ==> r == is_digit(c),
        (c as u32) >= 128 ==> r == unicode_numeric(c),
;

pub open spec fn digit_value(c: char) -> nat {
    (c as int - '0' as int) as nat
}

pub open spec fn digit_char(d: nat) -> char {
    (d + '0' as int) as char
}

/// The decimal rendering of `n`: its digits, most significant first, with
/// no leading zero (the way `usize` displays).
pub open spec fn decimal(n: nat) -> Seq<char>
    decreases n,
{
    if n < 10 {
        seq![digit_char(n)]
    } else {
        decimal(n / 10).push(digit_char(n % 10))
    }
}

/// The value of a run of decimal digits (0 for the empty run).
pub open spec fn digits_value(s: Seq<char>) -> nat
    decreases s.len(),
{
    if s.len() == 0 {
        0
    } else {
        digits_value(s.drop_last()) * 10 + digit_value(s.last())
    }
}

pub open spec fn all_digits(s: Seq<char>) -> bool {
    forall|i: int| 0 <= i < s.len() ==> is_digit(#[trigger] s[i])
}

/// What `str::parse::<usize>` gives: an optional `+`, then at least one
/// decimal digit and nothing else, and a value that fits in `usize`.
pub open spec fn parse_usize_spec(s: Seq<char>) -> Option<usize> {
    let d = if s.len() > 0 && s[0] == '+' { s.drop_first() } else { s };
    if d.len() > 0 && all_digits(d) && digits_value(d) <= usize::MAX {
        Some(digits_value(d) as usize)
    } else {
        None
    }
}

/// Leftmost, non-overlapping replacement of every occurrence of `p` in `s`
/// by `t`, as `str::replace` does (an empty pattern matches before every
/// character and at the end).
pub open spec fn replace_spec(s: Seq<char>, p: Seq<char>, t: Seq<char>) -> Seq<char>
    decreases s.len(),
{
    if p.len() == 0 {
        if s.len() == 0 {
            t
        } else {
            t + seq![s[0]] + replace_spec(s.drop_first(), p, t)
        }
    } else if s.len() < p.len() {
        s
    } else if s.take(p.len() as int) == p {
        t + replace_spec(s.skip(p.len() as int), p, t)
    } else {
        seq![s[0]] + replace_spec(s.drop_first(), p, t)
    }
}

/// Every character of `s`, in order.
pub fn chars_of(s: &str) -> (v: Vec<char>)
    ensures
        v@ == s@,
{
    let mut v: Vec<char> = Vec::new();
    for c in it: s.chars()
        invariant
            it.seq() == s@,
            v@ == it.seq().take(it.index() as int),
    {
        v.push(c);
    }
    v
}

/// A string holding the characters of `v`.
pub fn string_of(v: &Vec<char>) -> (s: String)
    ensures
        s@ == v@,
{
    let mut s = String::new();
    let mut i: usize = 0;
    while i < v.len()
        invariant
            i <= v.len(),
            s@ == v@.take(i as int),
        decreases v.len() - i,
    {
        s.push(v[i]);
        i = i + 1;
        assert(s@ =~= v@.take(i as int));
    }
    assert(v@.take(v.len() as int) =~= v@);
    s
}

fn digit_to_char(d: usize) -> (c: char)
    requires
        d < 10,
    ensures
        c == digit_char(d as nat),
{
    let b: u8 = (d as u8) + 48;
    b as char
}

proof fn lemma_decimal_len(n: nat)
    ensures
        decimal(n).len() >= 1,
    decreases n,
{
    if n >= 10 {
        lemma_decimal_len(n / 10);
    }
}

/// The decimal rendering of `n`, as `usize`'s `Display` writes it.
pub fn usize_to_decimal(n: usize) -> (v: Vec<char>)
    ensures
        v@ == decimal(n as nat),
    decreases n,
{
    if n < 10 {
        let mut v = Vec::new();
        v.push(digit_to_char(n));
        assert(v@ =~= seq![digit_char(n as nat)]);
        v
    } else {
        let mut v = usize_to_decimal(n / 10);
        v.push(digit_to_char(n % 10));
        v
    }
}

proof fn lemma_digits_value_push(s: Seq<char>, c: char)
    ensures
        digits_value(s.push(c)) == digits_value(s) * 10 + digit_value(c),
{
    assert(s.push(c).drop_last() =~= s);
}

/// Reads `s` as `str::parse::<usize>` does.
pub fn parse_usize(s: &Vec<char>) -> (r: Option<usize>)
    ensures
        r == parse_usize_spec(s@),
{
    let start: usize = if s.len() > 0 && s[0] == '+' { 1 } else { 0 };
    let ghost d = if s@.len() > 0 && s@[0] == '+' { s@.drop_first() } else { s@ };
    assert(d =~= s@.skip(start as int));
    if start >= s.len() {
        assert(d.len() == 0);
        return None;
    }
    let mut acc: usize = 0;
    let mut i: usize = start;
    while i < s.len()
        invariant
            start <= i <= s.len(),
            d == s@.skip(start as int),
            d == (if s@.len() > 0 && s@[0] == '+' { s@.drop_first() } else { s@ }),
            all_digits(s@.subrange(start as int, i as int)),
            acc == digits_value(s@.subrange(start as int, i as int)),
        decreases s.len() - i,
    {
        let c = s[i];
        if !('0' <= c && c <= '9') {
            assert(!all_digits(d)) by {
                assert(d[i - start] == c);
            }
            return None;
        }
        let dv: u32 = (c as u32) - 48;
        proof {
            lemma_digits_value_push(s@.subrange(start as int, i as int), c);
            assert(s@.subrange(start as int, i as int).push(c) =~= s@.subrange(start as int, i + 1));
        }
        assert(digits_value(s@.subrange(start as int, i + 1)) == acc * 10 + dv);
        match acc.checked_mul(10) {
            Some(m) => match m.checked_add(dv as usize) {
                Some(a) => {
                    acc = a;
                },
                None => {
                    proof { overflow_means_none(s@, d, start as nat, i as nat, c); }
                    return None;
                },
            },
            None => {
                proof { overflow_means_none(s@, d, start as nat, i as nat, c); }
                return None;
            },
        }
        i = i + 1;
    }
    assert(s@.subrange(start as int, s.len() as int) =~= d);
    Some(acc)
}

proof fn overflow_means_none(s: Seq<char>, d: Seq<char>, start: nat, i: nat, c: char)
    requires
        start <= i < s.len(),
        d == s.skip(start as int),
        s[i as int] == c,
        is_digit(c),
        digits_value(s.subrange(start as int, i + 1 as int)) > usize::MAX,
    ensures
        !(d.len() > 0 && all_digits(d) && digits_value(d) <= usize::MAX),
{
    assert(d.take(i + 1 - start as int) =~= s.subrange(start as int, i + 1 as int));
    if all_digits(d) {
        lemma_digits_prefix_bound(d, (i + 1 - start) as nat);
    }
}

/// A prefix of a run of digits never has a larger value than the whole run.
proof fn lemma_digits_prefix_bound(d: Seq<char>, k: nat)
    requires
        k <= d.len(),
        all_digits(d),
    ensures
        digits_value(d.take(k as int)) <= digits_value(d),
    decreases d.len() - k,
{
    if k < d.len() {
        lemma_digits_prefix_bound(d, k + 1);
        let a = d.take(k as int);
        assert(d.take(k + 1 as int).drop_last() =~= a);
        assert(is_digit(d[k as int]));
    } else {
        assert(d.take(k as int) =~= d);
    }
}

/// `s` with every occurrence of `p` replaced by `t`, as `str::replace` does.
pub fn replace_all(s: &Vec<char>, p: &Vec<char>, t: &Vec<char>) -> (r: Vec<char>)
    ensures
        r@ == replace_spec(s@, p@, t@),
{
    let mut out: Vec<char> = Vec::new();
    let mut i: usize = 0;
    let plen = p.len();
    assert(s@.skip(0) =~= s@);
    assert(out@ + replace_spec(s@, p@, t@) =~= replace_spec(s@, p@, t@));
    if plen == 0 {
        while i < s.len()
            invariant
                i <= s.len(),
                p@.len() == 0,
                out@ + replace_spec(s@.skip(i as int), p@, t@) == replace_spec(s@, p@, t@),
            decreases s.len() - i,
        {
            let ghost old_out = out@;
            proof {
                let rest = s@.skip(i as int);
                assert(rest.drop_first() =~= s@.skip(i + 1));
                assert(rest[0] == s@[i as int]);
                assert(replace_spec(rest, p@, t@) == t@ + seq![rest[0]] + replace_spec(
                    rest.drop_first(),
                    p@,
                    t@,
                ));
            }
            append_all(&mut out, t);
            out.push(s[i]);
            assert(out@ + replace_spec(s@.skip(i + 1), p@, t@) =~= old_out + replace_spec(
                s@.skip(i as int),
                p@,
                t@,
            ));
            i = i + 1;
        }
        append_all(&mut out, t);
        proof {
            assert(s@.skip(s.len() as int) =~= Seq::<char>::empty());
        }
        return out;
    }
    while i < s.len()
        invariant
            i <= s.len(),
            plen == p@.len(),
            plen > 0,
            out@ + replace_spec(s@.skip(i as int), p@, t@) == replace_spec(s@, p@, t@),
        decreases s.len() - i,
    {
        let rest = Ghost(s@.skip(i as int));
        if s.len() - i < plen {
            assert(replace_spec(rest@, p@, t@) == rest@);
            let mut j = i;
            while j < s.len()
                invariant
                    i <= j <= s.len(),
                    out@ + s@.skip(j as int) == replace_spec(s@, p@, t@),
                decreases s.len() - j,
            {
                proof {
                    assert(s@.skip(j as int) =~= seq![s@[j as int]] + s@.skip(j + 1));
                }
                out.push(s[j]);
                proof {
                    assert(out@ + s@.skip(j + 1) =~= out@.drop_last() + s@.skip(j as int));
                }
                j = j + 1;
            }
            assert(s@.skip(s.len() as int) =~= Seq::<char>::empty());
            assert(out@ =~= out@ + s@.skip(s.len() as int));
            return out;
        }
        let m = matches_at(s, p, i);
        if m {
            assert(rest@.take(plen as int) =~= s@.subrange(i as int, i + plen));
            assert(rest@.skip(plen as int) =~= s@.skip(i + plen));
            append_all(&mut out, t);
            i = i + plen;
            assert(out@ + replace_spec(s@.skip(i as int), p@, t@) =~= out@.subrange(
                0,
                out@.len() - t@.len(),
            ) + replace_spec(rest@, p@, t@));
        } else {
            assert(rest@.take(plen as int) =~= s@.subrange(i as int, i + plen));
            assert(rest@.drop_first() =~= s@.skip(i + 1));
            out.push(s[i]);
            i = i + 1;
            assert(out@ + replace_spec(s@.skip(i as int), p@, t@) =~= out@.drop_last()
                + replace_spec(rest@, p@, t@));
        }
    }
    assert(s@.skip(i as int) =~= Seq::<char>::empty());
    assert(replace_spec(Seq::<char>::empty(), p@, t@) == Seq::<char>::empty());
    assert(out@ =~= out@ + Seq::<char>::empty());
    out
}

/// Whether `p` occurs in `s` at position `i`.
fn matches_at(s: &Vec<char>, p: &Vec<char>, i: usize) -> (b: bool)
    requires
        i + p.len() <= s.len(),
    ensures
        b == (s@.subrange(i as int, i + p.len()) == p@),
{
    let mut k: usize = 0;
    while k < p.len()
        invariant
            k <= p.len(),
            i + p.len() <= s.len(),
            forall|j: int| 0 <= j < k ==> s@[i + j] == p@[j],
        decreases p.len() - k,
    {
        if s[i + k] != p[k] {
            assert(s@.subrange(i as int, i + p.len())[k as int] != p@[k as int]);
            return false;
        }
        k = k + 1;
    }
    assert(s@.subrange(i as int, i + p.len()) =~= p@);
    true
}

/// Appends every character of `t` to `out`.
pub fn append_all(out: &mut Vec<char>, t: &Vec<char>)
    ensures
        final(out)@ == old(out)@ + t@,
{
    let mut k: usize = 0;
    while k < t.len()
        invariant
            k <= t.len(),
            out@ == old(out)@ + t@.take(k as int),
        decreases t.len() - k,
    {
        out.push(t[k]);
        k = k + 1;
        assert(out@ =~= old(out)@ + t@.take(k as int));
    }
    assert(t@.take(t.len() as int) =~= t@);
}

} // verus!

verus! {

/// The decimal rendering of `n` reads back as `n`.
pub proof fn lemma_decimal_digits(n: nat)
    ensures
        decimal(n).len() >= 1,
        all_digits(decimal(n)),
        digits_value(decimal(n)) == n,
    decreases n,
{
    if n < 10 {
        assert(digits_value(decimal(n)) == digits_value(Seq::<char>::empty()) * 10 + digit_value(
            digit_char(n),
        )) by {
            assert(decimal(n).drop_last() =~= Seq::<char>::empty());
        }
    } else {
        lemma_decimal_digits(n / 10);
        lemma_digits_value_push(decimal(n / 10), digit_char(n % 10));
        assert forall|i: int| 0 <= i < decimal(n).len() implies is_digit(#[trigger] decimal(n)[i]) by {
            if i < decimal(n / 10).len() {
                assert(decimal(n)[i] == decimal(n / 10)[i]);
            }
        }
    }
}

/// UTF-8 length of one character.
pub open spec fn utf8_width(c: char) -> nat {
    if (c as u32) < 0x80 {
        1
    } else if (c as u32) < 0x800 {
        2
    } else if (c as u32) < 0x10000 {
        3
    } else {
        4
    }
}

/// UTF-8 length of a character sequence: what `String::len` reports.
pub open spec fn utf8_len(s: Seq<char>) -> nat
    decreases s.len(),
{
    if s.len() == 0 {
        0
    } else {
        utf8_len(s.drop_last()) + utf8_width(s.last())
    }
}

/// Lowercases an ASCII uppercase letter; any other character is unchanged
/// (what `char::to_ascii_lowercase` does), as a code point.
pub open spec fn ascii_lower_code(c: char) -> nat {
    if 'A' <= c && c <= 'Z' {
        (c as nat) + 32
    } else {
        c as nat
    }
}

pub fn ascii_lower_code_exec(c: char) -> (r: u32)
    ensures
        r == ascii_lower_code(c),
{
    let v = c as u32;
    if 65 <= v && v <= 90 {
        v + 32
    } else {
        v
    }
}


/// Whether two character vectors are equal.
pub fn chars_eq(a: &Vec<char>, b: &Vec<char>) -> (r: bool)
    ensures
        r == (a@ == b@),
{
    if a.len() != b.len() {
        return false;
    }
    let mut i: usize = 0;
    while i < a.len()
        invariant
            i <= a.len(),
            a.len() == b.len(),
            forall|j: int| 0 <= j < i ==> a@[j] == b@[j],
        decreases a.len() - i,
    {
        if a[i] != b[i] {
            return false;
        }
        i = i + 1;
    }
    assert(a@ =~= b@);
    true
}

/// ASCII whitespace as `str::split_ascii_whitespace` splits at it.
pub open spec fn ascii_space(c: char) -> bool {
    c == ' ' || c == '\t' || c == '\n' || c == '\x0C' || c == '\r'
}

/// The words of `s` as `str::split_ascii_whitespace` yields them: the
/// maximal runs of characters other than ASCII whitespace.
pub open spec fn words(s: Seq<char>) -> Seq<Seq<char>>
    decreases s.len(),
{
    if s.len() == 0 {
        Seq::empty()
    } else {
        let p = s.drop_last();
        let c = s.last();
        let w = words(p);
        if ascii_space(c) {
            w
        } else if p.len() > 0 && !ascii_space(p.last()) {
            w.drop_last().push(w.last().push(c))
        } else {
            w.push(seq![c])
        }
    }
}

proof fn lemma_words_nonempty(s: Seq<char>)
    requires
        s.len() > 0,
        !ascii_space(s.last()),
    ensures
        words(s).len() > 0,
{
}

/// The views of a list of character vectors.
pub open spec fn views(v: Seq<Vec<char>>) -> Seq<Seq<char>> {
    v.map_values(|w: Vec<char>| w@)
}

/// `str::split_ascii_whitespace` on a character vector.
pub fn split_words(s: &Vec<char>) -> (r: Vec<Vec<char>>)
    ensures
        views(r@) == words(s@),
{
    let mut out: Vec<Vec<char>> = Vec::new();
    let mut i: usize = 0;
    assert(s@.take(0) =~= Seq::<char>::empty());
    assert(views(out@) =~= words(s@.take(0)));
    while i < s.len()
        invariant
            i <= s@.len(),
            views(out@) == words(s@.take(i as int)),
        decreases s@.len() - i,
    {
        let c = s[i];
        let ghost t = s@.take(i as int + 1);
        assert(t.drop_last() =~= s@.take(i as int));
        assert(t.last() == c);
        let space = c == ' ' || c == '\t' || c == '\n' || c == '\x0C' || c == '\r';
        if !space {
            let joins = i > 0 && {
                let d = s[i - 1];
                !(d == ' ' || d == '\t' || d == '\n' || d == '\x0C' || d == '\r')
            };
            if joins {
                proof {
                    assert(s@.take(i as int).last() == s@[i - 1]);
                    lemma_words_nonempty(s@.take(i as int));
                }
                let ghost before = views(out@);
                let mut last = out.pop().unwrap();
                last.push(c);
                out.push(last);
                assert(views(out@) =~= before.drop_last().push(before.last().push(c)));
            } else {
                proof {
                    if i > 0 {
                        assert(s@.take(i as int).last() == s@[i - 1]);
                    }
                }
                let ghost before = views(out@);
                let mut w: Vec<char> = Vec::new();
                w.push(c);
                out.push(w);
                assert(views(out@) =~= before.push(seq![c]));
            }
        }
        i = i + 1;
    }
    assert(s@.take(s@.len() as int) =~= s@);
    out
}

/// The number of `=` in `s`.
pub open spec fn eq_count(s: Seq<char>) -> nat
    decreases s.len(),
{
    if s.len() == 0 {
        0
    } else {
        eq_count(s.drop_last()) + if s.last() == '=' { 1nat } else { 0nat }
    }
}

/// The position of the first `=` in `s` (its length when there is none).
pub open spec fn first_eq(s: Seq<char>) -> nat
    decreases s.len(),
{
    if s.len() == 0 || s[0] == '=' {
        0
    } else {
        1 + first_eq(s.drop_first())
    }
}

/// `key=value` split at its only `=`, as `str::split('=')` giving exactly
/// two parts; `None` when `s` holds no `=` or more than one.
pub open spec fn key_value(s: Seq<char>) -> Option<(Seq<char>, Seq<char>)> {
    if eq_count(s) == 1 {
        Some((s.take(first_eq(s) as int), s.skip(first_eq(s) + 1int)))
    } else {
        None
    }
}

proof fn lemma_first_eq(s: Seq<char>, k: nat)
    requires
        k <= s.len(),
        forall|j: int| 0 <= j < k ==> s[j] != '=',
        k == s.len() || s[k as int] == '=',
    ensures
        first_eq(s) == k,
    decreases k,
{
    if k > 0 {
        lemma_first_eq(s.drop_first(), (k - 1) as nat);
    }
}

/// `s` split at its only `=` (see `key_value`).
pub fn split_key_value(s: &Vec<char>) -> (r: Option<(Vec<char>, Vec<char>)>)
    ensures
        match r {
            Some((k, v)) => key_value(s@) == Some((k@, v@)),
            None => key_value(s@) is None,
        },
{
    let mut count: usize = 0;
    let mut first: usize = s.len();
    let mut i: usize = 0;
    while i < s.len()
        invariant
            i <= s@.len(),
            count == eq_count(s@.take(i as int)),
            count <= i,
            first <= s@.len(),
            count == 0 ==> first == s@.len() && forall|j: int| 0 <= j < i ==> s@[j] != '=',
            count > 0 ==> first < i && s@[first as int] == '=' && forall|j: int| 0 <= j < first ==> s@[j] != '=',
        decreases s@.len() - i,
    {
        assert(s@.take(i as int + 1).drop_last() =~= s@.take(i as int));
        if s[i] == '=' {
            if count == 0 {
                first = i;
            }
            count = count + 1;
        }
        i = i + 1;
    }
    assert(s@.take(s@.len() as int) =~= s@);
    if count != 1 {
        return None;
    }
    proof { lemma_first_eq(s@, first as nat); }
    let mut k: Vec<char> = Vec::new();
    let mut j: usize = 0;
    while j < first
        invariant
            j <= first < s@.len(),
            k@ == s@.take(j as int),
        decreases first - j,
    {
        k.push(s[j]);
        j = j + 1;
        assert(k@ =~= s@.take(j as int));
    }
    let mut v: Vec<char> = Vec::new();
    let mut j: usize = first + 1;
    while j < s.len()
        invariant
            first < j <= s@.len(),
            v@ == s@.subrange(first + 1, j as int),
        decreases s@.len() - j,
    {
        v.push(s[j]);
        j = j + 1;
        assert(v@ =~= s@.subrange(first + 1, j as int));
    }
    assert(v@ =~= s@.skip(first + 1));
    Some((k, v))
}

/// The parts of `s` between the `sep` characters, as `str::split` yields
/// them: empty parts included, one more part than there are separators.
pub open spec fn split_on(s: Seq<char>, sep: char) -> Seq<Seq<char>>
    decreases s.len(),
{
    if s.len() == 0 {
        seq![Seq::empty()]
    } else {
        let p = split_on(s.drop_last(), sep);
        if s.last() == sep {
            p.push(Seq::empty())
        } else {
            p.drop_last().push(p.last().push(s.last()))
        }
    }
}

pub proof fn lemma_split_on_nonempty(s: Seq<char>, sep: char)
    ensures
        split_on(s, sep).len() > 0,
    decreases s.len(),
{
    if s.len() > 0 {
        lemma_split_on_nonempty(s.drop_last(), sep);
    }
}

/// `str::split` at `sep` on a character vector.
pub fn split_at_char(s: &Vec<char>, sep: char) -> (r: Vec<Vec<char>>)
    ensures
        views(r@) == split_on(s@, sep),
{
    let mut out: Vec<Vec<char>> = Vec::new();
    out.push(Vec::new());
    let mut i: usize = 0;
    assert(s@.take(0) =~= Seq::<char>::empty());
    assert(views(out@) =~= split_on(s@.take(0), sep));
    while i < s.len()
        invariant
            i <= s@.len(),
            views(out@) == split_on(s@.take(i as int), sep),
        decreases s@.len() - i,
    {
        let c = s[i];
        let ghost t = s@.take(i as int + 1);
        assert(t.drop_last() =~= s@.take(i as int));
        assert(t.last() == c);
        proof { lemma_split_on_nonempty(s@.take(i as int), sep); }
        let ghost before = views(out@);
        if c == sep {
            out.push(Vec::new());
            assert(views(out@) =~= before.push(Seq::empty()));
        } else {
            let mut last = out.pop().unwrap();
            last.push(c);
            out.push(last);
            assert(views(out@) =~= before.drop_last().push(before.last().push(c)));
        }
        i = i + 1;
    }
    assert(s@.take(s@.len() as int) =~= s@);
    out
}

} // verus!
