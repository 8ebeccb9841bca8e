//! The CSV format the grid is loaded from and saved to.
use vstd::prelude::*;
use vstd::string::StringSliceAdditionalSpecFns;
use crate::text::{string_of, append_all};

verus! {

/// Parser state after some characters: the finished cells, the cell being
/// read, whether a quoted run is open, and whether the next quote is an
/// escaped one.
pub type CsvState = (Seq<Option<Seq<char>>>, Seq<char>, bool, bool);

/// The character after position `k`, if any.
pub open spec fn next_of(s: Seq<char>, k: int) -> Option<char> {
    if k + 1 < s.len() {
        Some(s[k + 1])
    } else {
        None
    }
}

/// One step of the CSV reader on character `c` followed by `next`.
/// A `,` outside quotes closes the cell (an empty cell is `None`). A quote
/// followed by another unescaped quote marks that next quote as literal; an
/// escaped quote is kept; any other quote opens or closes a quoted run,
/// except a last unescaped quote outside quotes, which is kept.
pub open spec fn csv_step(st: CsvState, c: char, next: Option<char>) -> CsvState {
    let (cells, token, inside, esc) = st;
    if c == ',' && !inside {
        (cells.push(if token.len() > 0 { Some(token) } else { None }), Seq::empty(), inside, esc)
    } else if c == '"' {
        match next {
            Some(n) => if n == '"' && !esc {
                (cells, token, inside, true)
            } else if esc {
                (cells, token.push(c), inside, false)
            } else {
                (cells, token, !inside, esc)
            },
            None => if inside && !esc {
                (cells, token, inside, esc)
            } else {
                (cells, token.push(c), inside, false)
            },
        }
    } else {
        (cells, token.push(c), inside, esc)
    }
}

/// Runs the reader from position `i` to the end of `s`, starting in `st`.
pub open spec fn csv_fold(s: Seq<char>, i: int, st: CsvState) -> CsvState
    decreases s.len() - i,
{
    if i < 0 || i >= s.len() {
        st
    } else {
        csv_fold(s, i + 1, csv_step(st, s[i], next_of(s, i)))
    }
}

/// The cells of a finished run: a non-empty last cell is kept, an empty one
/// dropped.
pub open spec fn csv_finish(st: CsvState) -> Seq<Option<Seq<char>>> {
    if st.1.len() > 0 {
        st.0.push(Some(st.1))
    } else {
        st.0
    }
}

pub open spec fn csv_start() -> CsvState {
    (Seq::empty(), Seq::empty(), false, false)
}

/// The cells of one CSV line, read character by character.
pub open spec fn parse_csv_chars(s: Seq<char>) -> Seq<Option<Seq<char>>> {
    csv_finish(csv_fold(s, 0, csv_start()))
}

/// Each byte read as the character with that code, as the reader sees a
/// line.
pub open spec fn latin1(b: Seq<u8>) -> Seq<char> {
    b.map_values(|x: u8| x as char)
}

pub open spec fn opt_views(v: Seq<Option<String>>) -> Seq<Option<Seq<char>>> {
    v.map_values(|o: Option<String>| match o {
        Some(s) => Some(s@),
        None => None,
    })
}

/// Splits one line of CSV into its cells. Each byte of the line is read as
/// one character. `None` stands for an empty cell; an empty last cell is
/// not returned.
pub fn parse_csv_line(line: &str) -> (r: Vec<Option<String>>)
    ensures
        opt_views(r@) == parse_csv_chars(latin1(line.spec_bytes())),
{
    let s = latin1_chars(line);
    parse_csv_chars_exec(&s)
}

/// Each byte of `text` read as the character with that code.
fn latin1_chars(text: &str) -> (s: Vec<char>)
    ensures
        s@ == latin1(text.spec_bytes()),
{
    let bytes = text.as_bytes();
    let mut s: Vec<char> = Vec::new();
    let mut k: usize = 0;
    while k < bytes.len()
        invariant
            k <= bytes.len(),
            bytes@ == text.spec_bytes(),
            s@ == latin1(bytes@).take(k as int),
        decreases bytes.len() - k,
    {
        s.push(bytes[k] as char);
        k = k + 1;
        assert(s@ =~= latin1(bytes@).take(k as int));
    }
    assert(s@ =~= latin1(text.spec_bytes()));
    s
}

/// The cells of every line of a sheet's file, indexed `[line][cell]`. Each
/// byte is read as one character; `\n` and `\r` are single bytes in UTF-8,
/// so splitting the bytes into lines splits the text into lines.
pub fn parse_sheet(text: &str) -> (r: Vec<Vec<Option<String>>>)
    ensures
        r@.len() == lines_spec(latin1(text.spec_bytes())).len(),
        forall|i: int|
            0 <= i < r@.len() ==> opt_views(#[trigger] r@[i]@) == parse_csv_chars(
                lines_spec(latin1(text.spec_bytes()))[i],
            ),
{
    let s = latin1_chars(text);
    let lines = split_lines(&s);
    let ghost ls = lines_spec(s@);
    assert(lines@.len() == ls.len() && forall|i: int| 0 <= i < lines@.len() ==> #[trigger] lines@[i]@ == ls[i])
        by {
        assert forall|i: int| 0 <= i < lines@.len() implies #[trigger] lines@[i]@ == ls[i] by {
            assert(lines@.map_values(|l: Vec<char>| l@)[i] == lines@[i]@);
        }
    }
    let mut out: Vec<Vec<Option<String>>> = Vec::new();
    let mut i: usize = 0;
    while i < lines.len()
        invariant
            i <= lines@.len(),
            lines@.len() == ls.len(),
            forall|j: int| 0 <= j < lines@.len() ==> #[trigger] lines@[j]@ == ls[j],
            out@.len() == i,
            forall|j: int| 0 <= j < i ==> opt_views(#[trigger] out@[j]@) == parse_csv_chars(ls[j]),
        decreases lines.len() - i,
    {
        let cells = parse_csv_chars_exec(&lines[i]);
        out.push(cells);
        i = i + 1;
    }
    out
}

/// `parse_csv_chars` on a character vector.
pub fn parse_csv_chars_exec(s: &Vec<char>) -> (r: Vec<Option<String>>)
    ensures
        opt_views(r@) == parse_csv_chars(s@),
{
    let mut cells: Vec<Option<String>> = Vec::new();
    let mut token: Vec<char> = Vec::new();
    let mut inside = false;
    let mut esc = false;
    let mut i: usize = 0;
    assert(opt_views(cells@) =~= Seq::<Option<Seq<char>>>::empty());
    assert(token@ =~= Seq::<char>::empty());
    while i < s.len()
        invariant
            i <= s.len(),
            csv_fold(s@, i as int, (opt_views(cells@), token@, inside, esc)) == csv_fold(
                s@,
                0,
                csv_start(),
            ),
        decreases s.len() - i,
    {
        let c = s[i];
        let next: Option<char> = if i + 1 < s.len() { Some(s[i + 1]) } else { None };
        let ghost before = (opt_views(cells@), token@, inside, esc);
        let ghost after = csv_step(before, c, next);
        assert(next == next_of(s@, i as int));
        if c == ',' && !inside {
            if token.len() > 0 {
                cells.push(Some(string_of(&token)));
            } else {
                cells.push(None);
            }
            token = Vec::new();
        } else if c == '"' {
            match next {
                Some(n) => {
                    if n == '"' && !esc {
                        esc = true;
                    } else if esc {
                        esc = false;
                        token.push(c);
                    } else {
                        inside = !inside;
                    }
                },
                None => {
                    if inside && !esc {
                    } else {
                        esc = false;
                        token.push(c);
                    }
                },
            }
        } else {
            token.push(c);
        }
        assert(opt_views(cells@) =~= after.0);
        assert(token@ =~= after.1);
        i = i + 1;
    }
    if token.len() > 0 {
        cells.push(Some(string_of(&token)));
    }
    proof {
        let st = csv_fold(s@, 0, csv_start());
        assert(opt_views(cells@) =~= csv_finish(st));
    }
    cells
}

/// Fields joined with `,`.
pub open spec fn join_fields(fs: Seq<Seq<char>>) -> Seq<char>
    decreases fs.len(),
{
    if fs.len() <= 1 {
        if fs.len() == 1 {
            fs[0]
        } else {
            Seq::empty()
        }
    } else {
        fs[0] + seq![','] + join_fields(fs.drop_first())
    }
}

/// A field written with no quoting: not empty, no `,` and no `"`.
pub open spec fn plain_field(f: Seq<char>) -> bool {
    f.len() > 0 && forall|j: int| 0 <= j < f.len() ==> #[trigger] f[j] != ',' && f[j] != '"'
}

proof fn lemma_fold_plain(s: Seq<char>, i: int, w: Seq<char>, st: CsvState)
    requires
        0 <= i,
        i + w.len() <= s.len(),
        s.subrange(i, i + w.len()) == w,
        forall|j: int| 0 <= j < w.len() ==> #[trigger] w[j] != ',' && w[j] != '"',
        !st.2,
    ensures
        csv_fold(s, i, st) == csv_fold(s, i + w.len(), (st.0, st.1 + w, st.2, st.3)),
    decreases w.len(),
{
    if w.len() == 0 {
        assert(st.1 + w =~= st.1);
    } else {
        assert(s[i] == w[0]);
        let st1 = csv_step(st, s[i], next_of(s, i));
        assert(st1 == (st.0, st.1.push(w[0]), st.2, st.3));
        let w1 = w.drop_first();
        assert(s.subrange(i + 1, i + 1 + w1.len()) =~= w1);
        assert forall|j: int| 0 <= j < w1.len() implies #[trigger] w1[j] != ',' && w1[j] != '"' by {
            assert(w1[j] == w[j + 1]);
        }
        lemma_fold_plain(s, i + 1, w1, st1);
        assert(st.1.push(w[0]) + w1 =~= st.1 + w);
    }
}

proof fn lemma_fold_fields(pre: Seq<char>, fs: Seq<Seq<char>>, cells: Seq<Option<Seq<char>>>)
    requires
        fs.len() >= 1,
        forall|k: int| 0 <= k < fs.len() ==> plain_field(#[trigger] fs[k]),
    ensures
        csv_finish(csv_fold(pre + join_fields(fs), pre.len() as int, (cells, Seq::empty(), false, false)))
            == cells + fs.map_values(|f: Seq<char>| Some(f)),
    decreases fs.len(),
{
    let s = pre + join_fields(fs);
    let f0 = fs[0];
    assert(plain_field(f0));
    let st0: CsvState = (cells, Seq::empty(), false, false);
    if fs.len() == 1 {
        assert(s.subrange(pre.len() as int, pre.len() + f0.len() as int) =~= f0);
        lemma_fold_plain(s, pre.len() as int, f0, st0);
        assert(Seq::<char>::empty() + f0 =~= f0);
        assert(cells.push(Some(f0)) =~= cells + fs.map_values(|f: Seq<char>| Some(f)));
    } else {
        let rest = fs.drop_first();
        assert(join_fields(fs) == f0 + seq![','] + join_fields(rest));
        let pre2 = pre + f0 + seq![','];
        assert(s =~= pre2 + join_fields(rest));
        assert(s.subrange(pre.len() as int, pre.len() + f0.len() as int) =~= f0);
        lemma_fold_plain(s, pre.len() as int, f0, st0);
        assert(Seq::<char>::empty() + f0 =~= f0);
        let comma: int = pre.len() + f0.len() as int;
        assert(s[comma] == ',');
        let st2: CsvState = (cells.push(Some(f0)), Seq::empty(), false, false);
        assert(csv_step((cells, f0, false, false), s[comma], next_of(s, comma)) == st2);
        assert forall|k: int| 0 <= k < rest.len() implies plain_field(#[trigger] rest[k]) by {
            assert(rest[k] == fs[k + 1]);
        }
        lemma_fold_fields(pre2, rest, cells.push(Some(f0)));
        assert(cells.push(Some(f0)) + rest.map_values(|f: Seq<char>| Some(f)) =~= cells
            + fs.map_values(|f: Seq<char>| Some(f)));
    }
}

/// Cells written without quotes, none empty and none holding `,` or `"`,
/// and joined with `,`, read back as themselves.
pub proof fn lemma_plain_fields_round_trip(fs: Seq<Seq<char>>)
    requires
        fs.len() >= 1,
        forall|k: int| 0 <= k < fs.len() ==> plain_field(#[trigger] fs[k]),
    ensures
        parse_csv_chars(join_fields(fs)) == fs.map_values(|f: Seq<char>| Some(f)),
{
    lemma_fold_fields(Seq::empty(), fs, Seq::empty());
    assert(Seq::<char>::empty() + join_fields(fs) =~= join_fields(fs));
    assert(Seq::<Option<Seq<char>>>::empty() + fs.map_values(|f: Seq<char>| Some(f)) =~= fs.map_values(
        |f: Seq<char>| Some(f),
    ));
}

/// The lines of a text as `str::lines` yields them: split after each `\n`,
/// without a last empty line, and with the `\n` and then a `\r` before it
/// removed.
pub open spec fn lines_spec(s: Seq<char>) -> Seq<Seq<char>>
    decreases s.len(),
{
    if s.len() == 0 {
        Seq::empty()
    } else {
        let k = first_newline(s);
        if k < s.len() {
            seq![strip_cr(s.take(k as int))] + lines_spec(s.skip(k + 1 as int))
        } else {
            seq![s]
        }
    }
}

/// A line without the `\r` that ends it, if it has one.
pub open spec fn strip_cr(l: Seq<char>) -> Seq<char> {
    if l.len() > 0 && l.last() == '\r' {
        l.drop_last()
    } else {
        l
    }
}

/// Position of the first `\n` in `s` (its length when there is none).
pub open spec fn first_newline(s: Seq<char>) -> nat
    decreases s.len(),
{
    if s.len() == 0 || s[0] == '\n' {
        0
    } else {
        1 + first_newline(s.drop_first())
    }
}

proof fn lemma_first_newline(s: Seq<char>, k: nat)
    requires
        k <= s.len(),
        forall|j: int| 0 <= j < k ==> s[j] != '\n',
        k == s.len() || s[k as int] == '\n',
    ensures
        first_newline(s) == k,
    decreases k,
{
    if k > 0 {
        lemma_first_newline(s.drop_first(), (k - 1) as nat);
    }
}

/// The lines of `text`, as `str::lines` gives them.
pub fn split_lines(text: &Vec<char>) -> (r: Vec<Vec<char>>)
    ensures
        r@.map_values(|l: Vec<char>| l@) == lines_spec(text@),
{
    let mut out: Vec<Vec<char>> = Vec::new();
    let mut start: usize = 0;
    assert(text@.skip(0) =~= text@);
    assert(out@.map_values(|l: Vec<char>| l@) + lines_spec(text@) =~= lines_spec(text@));
    while start < text.len()
        invariant
            start <= text.len(),
            out@.map_values(|l: Vec<char>| l@) + lines_spec(text@.skip(start as int)) == lines_spec(text@),
        decreases text.len() - start,
    {
        let ghost rest = text@.skip(start as int);
        let mut end = start;
        while end < text.len() && text[end] != '\n'
            invariant
                start <= end <= text.len(),
                forall|j: int| start <= j < end ==> text@[j] != '\n',
            decreases text.len() - end,
        {
            end = end + 1;
        }
        proof {
            assert forall|j: int| 0 <= j < end - start implies rest[j] != '\n' by {
                assert(rest[j] == text@[start + j]);
            }
            if end < text.len() {
                assert(rest[end - start] == text@[end as int]);
            }
            lemma_first_newline(rest, (end - start) as nat);
        }
        let mut line: Vec<char> = Vec::new();
        let mut j = start;
        while j < end
            invariant
                start <= j <= end <= text.len(),
                line@ == text@.subrange(start as int, j as int),
            decreases end - j,
        {
            line.push(text[j]);
            j = j + 1;
            assert(line@ =~= text@.subrange(start as int, j as int));
        }
        assert(line@ =~= rest.take((end - start) as int));
        let ghost prev = out@.map_values(|l: Vec<char>| l@);
        if end < text.len() {
            if line.len() > 0 && line[line.len() - 1] == '\r' {
                line.pop();
            }
            out.push(line);
            assert(rest.skip(end - start + 1) =~= text@.skip(end + 1));
            assert(out@.map_values(|l: Vec<char>| l@) =~= prev.push(strip_cr(rest.take((end - start) as int))));
            start = end + 1;
            assert(out@.map_values(|l: Vec<char>| l@) + lines_spec(text@.skip(start as int)) =~= prev
                + lines_spec(rest));
        } else {
            assert(line@ =~= rest);
            out.push(line);
            assert(out@.map_values(|l: Vec<char>| l@) =~= prev.push(rest));
            assert(text@.skip(text.len() as int) =~= Seq::<char>::empty());
            start = end;
            assert(out@.map_values(|l: Vec<char>| l@) + lines_spec(text@.skip(start as int)) =~= prev
                + lines_spec(rest));
        }
    }
    assert(text@.skip(start as int) =~= Seq::<char>::empty());
    assert(out@.map_values(|l: Vec<char>| l@) + Seq::<Seq<char>>::empty() =~= out@.map_values(
        |l: Vec<char>| l@,
    ));
    out
}

/// The text written for a cell's display in a CSV file: every `"` doubled,
/// and the whole wrapped in quotes when it holds a `,`.
pub open spec fn escape_csv_spec(d: Seq<char>) -> Seq<char> {
    let e = doubled_quotes(d);
    if d.contains(',') {
        seq!['"'] + e + seq!['"']
    } else {
        e
    }
}

/// `d` with every `"` doubled.
pub open spec fn doubled_quotes(d: Seq<char>) -> Seq<char>
    decreases d.len(),
{
    if d.len() == 0 {
        Seq::empty()
    } else if d.last() == '"' {
        doubled_quotes(d.drop_last()) + seq!['"', '"']
    } else {
        doubled_quotes(d.drop_last()).push(d.last())
    }
}

/// Escapes a cell's display text for a CSV file: every `"` is doubled, and
/// text holding a `,` is wrapped in quotes.
pub fn escape_csv(d: &Vec<char>) -> (r: Vec<char>)
    ensures
        r@ == escape_csv_spec(d@),
{
    let mut e: Vec<char> = Vec::new();
    let mut has_comma = false;
    let mut i: usize = 0;
    while i < d.len()
        invariant
            i <= d.len(),
            e@ == doubled_quotes(d@.take(i as int)),
            has_comma == d@.take(i as int).contains(','),
        decreases d.len() - i,
    {
        let ghost prev = d@.take(i as int);
        assert(d@.take(i + 1).drop_last() =~= prev);
        assert(d@.take(i + 1) =~= prev.push(d[i as int]));
        if d[i] == '"' {
            e.push('"');
            e.push('"');
            assert(e@ =~= doubled_quotes(prev) + seq!['"', '"']);
        } else {
            e.push(d[i]);
        }
        if d[i] == ',' {
            has_comma = true;
            assert(d@.take(i + 1)[i as int] == ',');
        } else {
            assert(d@.take(i + 1).contains(',') == prev.contains(',')) by {
                let t = d@.take(i + 1);
                if t.contains(',') {
                    let j = choose|j: int| 0 <= j < t.len() && #[trigger] t[j] == ',';
                    assert(prev[j] == ',');
                }
                if prev.contains(',') {
                    let j = choose|j: int| 0 <= j < prev.len() && #[trigger] prev[j] == ',';
                    assert(t[j] == ',');
                }
            }
        }
        i = i + 1;
    }
    assert(d@.take(d.len() as int) =~= d@);
    if has_comma {
        let mut r: Vec<char> = Vec::new();
        r.push('"');
        append_all(&mut r, &e);
        r.push('"');
        assert(r@ =~= seq!['"'] + e@ + seq!['"']);
        r
    } else {
        e
    }
}

/// The cell a field reads as: `None` when it is empty.
pub open spec fn field_cell(f: Seq<char>) -> Option<Seq<char>> {
    if f.len() > 0 {
        Some(f)
    } else {
        None
    }
}

/// The cells a line of bare fields reads as: each field's cell, but an
/// empty last field gives none.
pub open spec fn fields_cells(fs: Seq<Seq<char>>) -> Seq<Option<Seq<char>>> {
    fs.drop_last().map_values(|f: Seq<char>| field_cell(f)) + if fs.last().len() > 0 {
        seq![Some(fs.last())]
    } else {
        Seq::empty()
    }
}

/// How a cell's text is written as a field (see `escape_csv_spec`).
pub open spec fn written_field(t: Seq<char>) -> Seq<char> {
    escape_csv_spec(t)
}

/// The fields a line of texts is written as.
pub open spec fn written_fields(ts: Seq<Seq<char>>) -> Seq<Seq<char>> {
    ts.map_values(|t: Seq<char>| written_field(t))
}

/// How many `"` a text starts with.
pub open spec fn lead_quotes(t: Seq<char>) -> nat
    decreases t.len(),
{
    if t.len() == 0 || t[0] != '"' {
        0
    } else {
        1 + lead_quotes(t.drop_first())
    }
}

proof fn lemma_lead_quotes(t: Seq<char>)
    ensures
        lead_quotes(t) <= t.len(),
        forall|j: int| 0 <= j < lead_quotes(t) ==> t[j] == '"',
        lead_quotes(t) < t.len() ==> t[lead_quotes(t) as int] != '"',
    decreases t.len(),
{
    if t.len() > 0 && t[0] == '"' {
        let r = t.drop_first();
        lemma_lead_quotes(r);
        assert forall|j: int| 0 <= j < lead_quotes(t) implies t[j] == '"' by {
            if j > 0 {
                assert(t[j] == r[j - 1]);
            }
        }
        if lead_quotes(t) < t.len() {
            assert(t[lead_quotes(t) as int] == r[lead_quotes(r) as int]);
        }
    }
}

/// Doubling the quotes of two texts one after the other.
pub proof fn lemma_doubled_concat(a: Seq<char>, b: Seq<char>)
    ensures
        doubled_quotes(a + b) == doubled_quotes(a) + doubled_quotes(b),
    decreases b.len(),
{
    if b.len() == 0 {
        assert(a + b =~= a);
        assert(doubled_quotes(a) + doubled_quotes(b) =~= doubled_quotes(a));
    } else {
        lemma_doubled_concat(a, b.drop_last());
        assert((a + b).drop_last() =~= a + b.drop_last());
        assert((a + b).last() == b.last());
        if b.last() == '"' {
            assert(doubled_quotes(a + b) =~= doubled_quotes(a) + doubled_quotes(b));
        } else {
            assert(doubled_quotes(a + b) =~= doubled_quotes(a) + doubled_quotes(b));
        }
    }
}

proof fn lemma_doubled_first(t: Seq<char>)
    requires
        t.len() > 0,
    ensures
        doubled_quotes(t) == (if t[0] == '"' {
            seq!['"', '"']
        } else {
            seq![t[0]]
        }) + doubled_quotes(t.drop_first()),
{
    let one = seq![t[0]];
    assert(t =~= one + t.drop_first());
    lemma_doubled_concat(one, t.drop_first());
    assert(one.drop_last() =~= Seq::<char>::empty());
    assert(doubled_quotes(one.drop_last()) =~= Seq::<char>::empty());
    assert(one.last() == t[0]);
    if t[0] == '"' {
        assert(doubled_quotes(one) =~= seq!['"', '"']);
    } else {
        assert(doubled_quotes(one) =~= seq![t[0]]);
    }
}

/// Every character of a text with its quotes doubled is a `"` or one of the
/// text's own.
pub proof fn lemma_doubled_chars(t: Seq<char>)
    ensures
        forall|j: int|
            0 <= j < doubled_quotes(t).len() ==> #[trigger] doubled_quotes(t)[j] == '"' || t.contains(
                doubled_quotes(t)[j],
            ),
    decreases t.len(),
{
    if t.len() > 0 {
        let p = t.drop_last();
        lemma_doubled_chars(p);
        let d = doubled_quotes(t);
        let dp = doubled_quotes(p);
        assert forall|j: int| 0 <= j < d.len() implies #[trigger] d[j] == '"' || t.contains(d[j]) by {
            if j < dp.len() {
                assert(d[j] == dp[j]);
                if d[j] != '"' {
                    let k = choose|k: int| 0 <= k < p.len() && p[k] == dp[j];
                    assert(t[k] == p[k]);
                }
            } else if t.last() != '"' {
                assert(d[j] == t[t.len() - 1]);
            }
        }
    }
}

proof fn lemma_all_quotes_doubled(a: Seq<char>)
    requires
        forall|j: int| 0 <= j < a.len() ==> a[j] == '"',
    ensures
        forall|j: int| 0 <= j < doubled_quotes(a).len() ==> #[trigger] doubled_quotes(a)[j] == '"',
{
    lemma_doubled_chars(a);
    assert forall|j: int| 0 <= j < doubled_quotes(a).len() implies #[trigger] doubled_quotes(a)[j] == '"' by {
        let c = doubled_quotes(a)[j];
        if c != '"' {
            let k = choose|k: int| 0 <= k < a.len() && a[k] == c;
        }
    }
}

/// Reading a text with its quotes doubled adds the text to the cell being
/// read; outside quotes the text holds no `,`.
proof fn lemma_fold_doubled(s: Seq<char>, i: int, t: Seq<char>, st: CsvState)
    requires
        0 <= i,
        i + doubled_quotes(t).len() <= s.len(),
        s.subrange(i, i + doubled_quotes(t).len()) == doubled_quotes(t),
        !st.3,
        !st.2 ==> !t.contains(','),
    ensures
        csv_fold(s, i, st) == csv_fold(s, i + doubled_quotes(t).len(), (st.0, st.1 + t, st.2, false)),
    decreases t.len(),
{
    let d = doubled_quotes(t);
    if t.len() == 0 {
        assert(d =~= Seq::<char>::empty());
        assert(st.1 + t =~= st.1);
    } else {
        lemma_doubled_first(t);
        let rest = t.drop_first();
        let dr = doubled_quotes(rest);
        assert(!st.2 ==> !rest.contains(',')) by {
            if rest.contains(',') {
                let k = choose|k: int| 0 <= k < rest.len() && rest[k] == ',';
                assert(t[k + 1] == ',');
                assert(t.contains(','));
            }
        }
        if t[0] == '"' {
            assert(d =~= seq!['"', '"'] + dr);
            assert(s[i] == s.subrange(i, i + d.len())[0]);
            assert(s[i + 1] == s.subrange(i, i + d.len())[1]);
            let st1: CsvState = (st.0, st.1, st.2, true);
            assert(csv_step(st, s[i], next_of(s, i)) == st1);
            let st2: CsvState = (st.0, st.1.push('"'), st.2, false);
            assert(csv_step(st1, s[i + 1], next_of(s, i + 1)) == st2);
            assert(csv_fold(s, i, st) == csv_fold(s, i + 1, st1));
            assert(csv_fold(s, i + 1, st1) == csv_fold(s, i + 2, st2));
            assert forall|k: int| 0 <= k < dr.len() implies s[i + 2 + k] == dr[k] by {
                assert(s.subrange(i, i + d.len())[2 + k] == s[i + 2 + k]);
            }
            assert(s.subrange(i + 2, i + 2 + dr.len()) =~= dr);
            lemma_fold_doubled(s, i + 2, rest, st2);
            assert(st.1.push('"') + rest =~= st.1 + t);
        } else {
            assert(d =~= seq![t[0]] + dr);
            assert(s[i] == s.subrange(i, i + d.len())[0]);
            if !st.2 {
                assert(t[0] != ',') by {
                    if t[0] == ',' {
                        assert(t.contains(','));
                    }
                }
            }
            let st1: CsvState = (st.0, st.1.push(t[0]), st.2, false);
            assert(csv_step(st, s[i], next_of(s, i)) == st1);
            assert(csv_fold(s, i, st) == csv_fold(s, i + 1, st1));
            assert forall|k: int| 0 <= k < dr.len() implies s[i + 1 + k] == dr[k] by {
                assert(s.subrange(i, i + d.len())[1 + k] == s[i + 1 + k]);
            }
            assert(s.subrange(i + 1, i + 1 + dr.len()) =~= dr);
            lemma_fold_doubled(s, i + 1, rest, st1);
            assert(st.1.push(t[0]) + rest =~= st.1 + t);
        }
    }
}

proof fn lemma_fold_quoted(s: Seq<char>, i: int, t: Seq<char>, cells: Seq<Option<Seq<char>>>)
    requires
        0 <= i,
        t.contains(','),
        i + doubled_quotes(t).len() + 2 <= s.len(),
        s.subrange(i, i + doubled_quotes(t).len() + 2) == seq!['"'] + doubled_quotes(t) + seq!['"'],
    ensures
        i + doubled_quotes(t).len() + 2 < s.len() && s[i + doubled_quotes(t).len() + 2] == ',' ==> csv_fold(
            s,
            i,
            (cells, Seq::empty(), false, false),
        ) == csv_fold(s, i + doubled_quotes(t).len() + 3, (cells.push(Some(t)), Seq::empty(), false, false)),
        i + doubled_quotes(t).len() + 2 == s.len() ==> csv_finish(
            csv_fold(s, i, (cells, Seq::empty(), false, false)),
        ) == cells.push(Some(t)),
{
    let w = seq!['"'] + doubled_quotes(t) + seq!['"'];
    let n = w.len() as int;
    let m = lead_quotes(t);
    lemma_lead_quotes(t);
    let k0 = choose|k: int| 0 <= k < t.len() && t[k] == ',';
    if m == t.len() {
        assert(t[k0] == '"');
    }
    let a = t.take(m as int);
    let b = t.skip(m as int);
    assert(t =~= a + b);
    lemma_doubled_concat(a, b);
    assert forall|j: int| 0 <= j < a.len() implies a[j] == '"' by {}
    lemma_all_quotes_doubled(a);
    let da = doubled_quotes(a);
    let db = doubled_quotes(b);
    assert(b.len() > 0 && b[0] != '"');
    lemma_doubled_first(b);
    assert(db[0] == b[0]);
    // the opening quote and the doubled leading quotes read as those quotes,
    // the last of the run opening the quoted part
    let w2 = da + seq!['"'] + db + seq!['"'];
    assert(w =~= w2) by {
        assert(w.len() == w2.len());
        assert forall|j: int| 0 <= j < w.len() implies w[j] == w2[j] by {
            if j <= da.len() {
                if j > 0 {
                    assert(w[j] == da[j - 1]);
                }
                if j < da.len() {
                    assert(w2[j] == da[j]);
                }
            } else {
                assert(w[j] == w2[j]);
            }
        }
    }
    assert forall|k: int| 0 <= k < n implies s[i + k] == w2[k] by {
        assert(s.subrange(i, i + n)[k] == s[i + k]);
    }
    assert(s.subrange(i, i + da.len()) =~= da) by {
        assert forall|k: int| 0 <= k < da.len() implies s.subrange(i, i + da.len())[k] == da[k] by {
            assert(w2[k] == da[k]);
        }
    }
    let st0: CsvState = (cells, Seq::empty(), false, false);
    assert(!a.contains(',')) by {
        if a.contains(',') {
            let k = choose|k: int| 0 <= k < a.len() && a[k] == ',';
            assert(a[k] == '"');
        }
    }
    lemma_fold_doubled(s, i, a, st0);
    assert(Seq::<char>::empty() + a =~= a);
    let p = i + da.len();
    assert(s[p] == w2[da.len() as int]);
    assert(s[p] == '"');
    assert(s[p + 1] == w2[da.len() + 1int]);
    assert(s[p + 1] == db[0]);
    let st1: CsvState = (cells, a, false, false);
    let st2: CsvState = (cells, a, true, false);
    assert(csv_step(st1, s[p], next_of(s, p)) == st2);
    assert(csv_fold(s, p, st1) == csv_fold(s, p + 1, st2));
    assert(s.subrange(p + 1, p + 1 + db.len()) =~= db) by {
        assert forall|k: int| 0 <= k < db.len() implies s.subrange(p + 1, p + 1 + db.len())[k] == db[k] by {
            assert(s[p + 1 + k] == w2[da.len() + 1int + k]);
        }
    }
    lemma_fold_doubled(s, p + 1, b, st2);
    let j = p + 1 + db.len();
    assert(j == i + n - 1);
    assert(s[j] == w2[n - 1]);
    assert(s[j] == '"');
    let st3: CsvState = (cells, a + b, true, false);
    assert(a + b == t);
    if j + 1 < s.len() {
        if s[j + 1] == ',' {
            let st4: CsvState = (cells, t, false, false);
            assert(csv_step(st3, s[j], next_of(s, j)) == st4);
            assert(csv_fold(s, j, st3) == csv_fold(s, j + 1, st4));
            assert(csv_step(st4, s[j + 1], next_of(s, j + 1)) == (
                cells.push(Some(t)),
                Seq::<char>::empty(),
                false,
                false,
            ));
        }
    } else {
        assert(csv_step(st3, s[j], next_of(s, j)) == st3);
        assert(csv_fold(s, j, st3) == csv_fold(s, j + 1, st3));
    }
}

proof fn lemma_fold_written(pre: Seq<char>, ts: Seq<Seq<char>>, cells: Seq<Option<Seq<char>>>)
    requires
        ts.len() >= 1,
    ensures
        csv_finish(csv_fold(pre + join_fields(written_fields(ts)), pre.len() as int, (cells, Seq::empty(), false, false)))
            == cells + fields_cells(ts),
    decreases ts.len(),
{
    let fs = written_fields(ts);
    let s = pre + join_fields(fs);
    let t0 = ts[0];
    let f0 = fs[0];
    assert(f0 == written_field(t0));
    let st0: CsvState = (cells, Seq::empty(), false, false);
    let p = pre.len() as int;
    let quoted = t0.contains(',');
    let d0 = doubled_quotes(t0);
    if quoted {
        assert(f0 == seq!['"'] + d0 + seq!['"']);
        assert(t0.len() > 0);
    } else {
        assert(f0 == d0);
    }
    if ts.len() == 1 {
        assert(fs =~= seq![f0]);
        assert(join_fields(fs) == f0);
        assert(ts.drop_last().map_values(|f: Seq<char>| field_cell(f)) =~= Seq::<Option<Seq<char>>>::empty());
        assert(ts.last() == t0);
        if quoted {
            assert(s.subrange(p, p + d0.len() + 2) =~= seq!['"'] + d0 + seq!['"']);
            lemma_fold_quoted(s, p, t0, cells);
            assert(cells.push(Some(t0)) =~= cells + fields_cells(ts));
        } else {
            assert(s.subrange(p, p + d0.len()) =~= d0);
            lemma_fold_doubled(s, p, t0, st0);
            assert(Seq::<char>::empty() + t0 =~= t0);
            assert(csv_fold(s, p + d0.len(), (cells, t0, false, false)) == (cells, t0, false, false));
            if t0.len() > 0 {
                assert(cells.push(Some(t0)) =~= cells + fields_cells(ts));
            } else {
                assert(cells =~= cells + fields_cells(ts));
            }
        }
    } else {
        let rest = ts.drop_first();
        assert(written_fields(rest) =~= fs.drop_first());
        assert(join_fields(fs) == f0 + seq![','] + join_fields(fs.drop_first()));
        let pre2 = pre + f0 + seq![','];
        assert(s =~= pre2 + join_fields(written_fields(rest)));
        let comma: int = p + f0.len() as int;
        assert(s[comma] == ',');
        let next: CsvState = (cells.push(field_cell(t0)), Seq::empty(), false, false);
        if quoted {
            assert(s.subrange(p, p + d0.len() + 2) =~= seq!['"'] + d0 + seq!['"']);
            lemma_fold_quoted(s, p, t0, cells);
            assert(csv_fold(s, p, st0) == csv_fold(s, comma + 1, next));
        } else {
            assert(s.subrange(p, p + d0.len()) =~= d0);
            lemma_fold_doubled(s, p, t0, st0);
            assert(Seq::<char>::empty() + t0 =~= t0);
            assert(csv_step((cells, t0, false, false), s[comma], next_of(s, comma)) == next);
        }
        assert(pre2.len() == comma + 1);
        lemma_fold_written(pre2, rest, cells.push(field_cell(t0)));
        assert(rest.last() == ts.last());
        assert(ts.drop_last().map_values(|f: Seq<char>| field_cell(f)) =~= seq![field_cell(t0)]
            + rest.drop_last().map_values(|f: Seq<char>| field_cell(f)));
        assert(cells.push(field_cell(t0)) + fields_cells(rest) =~= cells + fields_cells(ts));
    }
}

/// Texts written each as its field (every `"` doubled, in quotes where it
/// holds a `,`) and joined with `,` read back as those texts, an empty one
/// as an empty cell (a last empty one as none).
pub proof fn lemma_written_fields_round_trip(ts: Seq<Seq<char>>)
    requires
        ts.len() >= 1,
    ensures
        parse_csv_chars(join_fields(written_fields(ts))) == fields_cells(ts),
{
    lemma_fold_written(Seq::empty(), ts, Seq::empty());
    assert(Seq::<char>::empty() + join_fields(written_fields(ts)) =~= join_fields(written_fields(ts)));
    assert(Seq::<Option<Seq<char>>>::empty() + fields_cells(ts) =~= fields_cells(ts));
}

/// `join_fields` of a longer list.
pub proof fn lemma_join_push(fs: Seq<Seq<char>>, f: Seq<char>)
    requires
        fs.len() >= 1,
    ensures
        join_fields(fs.push(f)) == join_fields(fs) + seq![','] + f,
    decreases fs.len(),
{
    if fs.len() == 1 {
        assert(fs.push(f).drop_first() =~= seq![f]);
        assert(join_fields(seq![f]) == f);
    } else {
        assert(fs.push(f).drop_first() =~= fs.drop_first().push(f));
        lemma_join_push(fs.drop_first(), f);
        assert(fs.push(f)[0] == fs[0]);
    }
}

/// Lines that hold no line break, each written with `\n` after it.
pub open spec fn unlines(ls: Seq<Seq<char>>) -> Seq<char>
    decreases ls.len(),
{
    if ls.len() == 0 {
        Seq::empty()
    } else {
        unlines(ls.drop_last()) + ls.last() + seq!['\n']
    }
}

/// A line holding no `\n` and not ending in `\r`.
pub open spec fn single_line(l: Seq<char>) -> bool {
    &&& forall|j: int| 0 <= j < l.len() ==> #[trigger] l[j] != '\n'
    &&& (l.len() > 0 ==> l.last() != '\r')
}

proof fn lemma_lines_cons(l: Seq<char>, rest: Seq<char>)
    requires
        single_line(l),
    ensures
        lines_spec(l + seq!['\n'] + rest) == seq![l] + lines_spec(rest),
{
    let s = l + seq!['\n'] + rest;
    assert forall|j: int| 0 <= j < l.len() implies s[j] != '\n' by {
        assert(s[j] == l[j]);
    }
    assert(s[l.len() as int] == '\n');
    lemma_first_newline(s, l.len());
    assert(s.take(l.len() as int) =~= l);
    assert(s.skip(l.len() + 1int) =~= rest);
}

proof fn lemma_lines_unlines_app(ls: Seq<Seq<char>>, rest: Seq<char>)
    requires
        forall|k: int| 0 <= k < ls.len() ==> single_line(#[trigger] ls[k]),
    ensures
        lines_spec(unlines(ls) + rest) == ls + lines_spec(rest),
    decreases ls.len(),
{
    if ls.len() == 0 {
        assert(unlines(ls) + rest =~= rest);
        assert(ls + lines_spec(rest) =~= lines_spec(rest));
    } else {
        let first = ls[0];
        let tail = ls.drop_first();
        lemma_unlines_first(ls);
        assert(single_line(first));
        assert forall|k: int| 0 <= k < tail.len() implies single_line(#[trigger] tail[k]) by {
            assert(tail[k] == ls[k + 1]);
        }
        lemma_lines_unlines_app(tail, rest);
        assert(unlines(ls) + rest =~= first + seq!['\n'] + (unlines(tail) + rest));
        lemma_lines_cons(first, unlines(tail) + rest);
        assert(seq![first] + (tail + lines_spec(rest)) =~= ls + lines_spec(rest));
    }
}

proof fn lemma_unlines_first(ls: Seq<Seq<char>>)
    requires
        ls.len() > 0,
    ensures
        unlines(ls) == ls[0] + seq!['\n'] + unlines(ls.drop_first()),
    decreases ls.len(),
{
    if ls.len() == 1 {
        assert(ls.drop_last() =~= Seq::<Seq<char>>::empty());
        assert(ls.drop_first() =~= Seq::<Seq<char>>::empty());
        assert(unlines(ls) =~= ls[0] + seq!['\n'] + unlines(ls.drop_first()));
    } else {
        lemma_unlines_first(ls.drop_last());
        assert(ls.drop_last().drop_first() =~= ls.drop_first().drop_last());
        assert(ls.drop_first().last() == ls.last());
        assert(unlines(ls) =~= ls[0] + seq!['\n'] + unlines(ls.drop_first()));
    }
}

/// Lines written each with `\n` after it read back as themselves.
pub proof fn lemma_lines_round_trip(ls: Seq<Seq<char>>)
    requires
        forall|k: int| 0 <= k < ls.len() ==> single_line(#[trigger] ls[k]),
    ensures
        lines_spec(unlines(ls)) == ls,
{
    lemma_lines_unlines_app(ls, Seq::empty());
    assert(unlines(ls) + Seq::<char>::empty() =~= unlines(ls));
    assert(lines_spec(Seq::<char>::empty()) =~= Seq::<Seq<char>>::empty());
    assert(ls + Seq::<Seq<char>>::empty() =~= ls);
}

} // verus!
