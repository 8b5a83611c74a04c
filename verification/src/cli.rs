//! Text helpers of the command-line front end: the vector metric parser,
//! the capitalisation used for status fields, and the text table that query
//! results are shown in.

use vstd::prelude::*;
use vstd::utf8::encode_utf8;

use crate::decimal::{decimal_digits, push_decimal};
use crate::types::DistanceMetric;

verus! {

/// ASCII lower-casing of one character: `A`..`Z` map to `a`..`z`, every other
/// character is unchanged.
pub open spec fn ascii_lower(c: char) -> char {
    if 'A' <= c && c <= 'Z' {
        ((c as u32) + 32) as char
    } else {
        c
    }
}

/// Calls `str::to_ascii_lowercase`, which std documents as mapping `A`..`Z`
/// to `a`..`z` and leaving every other character unchanged.
#[verifier::external_body]
fn to_ascii_lowercase(s: &str) -> (r: String)
    ensures
        r@ == s@.map_values(|c: char| ascii_lower(c)),
{
    s.to_ascii_lowercase()
}

/// The lower-case form of a string, as `str::to_lowercase` gives it (Unicode
/// rules, which may change the length).
pub uninterp spec fn lowercase_of(s: Seq<char>) -> Seq<char>;

/// Calls `str::to_lowercase`. Beyond naming the result, this states what
/// std's documentation gives for ASCII input: `A`..`Z` map to `a`..`z` and
/// other ASCII characters stay. Non-ASCII input follows std's Unicode tables,
/// which are not restated here.
#[verifier::external_body]
pub(crate) fn str_to_lowercase(s: &str) -> (r: String)
    ensures
        r@ == lowercase_of(s@),
        (forall|i: int| 0 <= i < s@.len() ==> (#[trigger] s@[i] as u32) < 128)
            ==> r@ == s@.map_values(|c: char| ascii_lower(c)),
{
    s.to_lowercase()
}

/// ASCII upper-casing of one character: `a`..`z` map to `A`..`Z`, every other
/// character is unchanged.
pub open spec fn ascii_upper(c: char) -> char {
    if 'a' <= c && c <= 'z' {
        ((c as u32) - 32) as char
    } else {
        c
    }
}

/// The upper-case form of a string, as `str::to_uppercase` gives it (Unicode
/// rules, which may change the length).
pub uninterp spec fn uppercase_str_of(s: Seq<char>) -> Seq<char>;

/// Calls `str::to_uppercase`. Beyond naming the result, this states what
/// std's documentation gives for ASCII input: `a`..`z` map to `A`..`Z` and
/// other ASCII characters stay. Non-ASCII input follows std's Unicode tables,
/// which are not restated here.
#[verifier::external_body]
pub(crate) fn str_to_uppercase(s: &str) -> (r: String)
    ensures
        r@ == uppercase_str_of(s@),
        (forall|i: int| 0 <= i < s@.len() ==> (#[trigger] s@[i] as u32) < 128)
            ==> r@ == s@.map_values(|c: char| ascii_upper(c)),
{
    s.to_uppercase()
}

/// Unicode white space (the `White_Space` property), the characters that
/// `char::is_whitespace` accepts and `str::trim` removes.
pub open spec fn is_white_space(c: char) -> bool {
    ||| ('\u{9}' <= c && c <= '\u{d}')
    ||| c == ' '
    ||| c == '\u{85}'
    ||| c == '\u{a0}'
    ||| c == '\u{1680}'
    ||| ('\u{2000}' <= c && c <= '\u{200a}')
    ||| c == '\u{2028}'
    ||| c == '\u{2029}'
    ||| c == '\u{202f}'
    ||| c == '\u{205f}'
    ||| c == '\u{3000}'
}

/// The number of white-space characters `s` starts with.
pub open spec fn leading_space(s: Seq<char>) -> nat
    decreases s.len(),
{
    if s.len() > 0 && is_white_space(s[0]) {
        1 + leading_space(s.drop_first())
    } else {
        0
    }
}

/// The number of white-space characters `s` ends with.
pub open spec fn trailing_space(s: Seq<char>) -> nat
    decreases s.len(),
{
    if s.len() > 0 && is_white_space(s.last()) {
        1 + trailing_space(s.drop_last())
    } else {
        0
    }
}

/// `s` without its leading and trailing white space.
pub open spec fn trimmed(s: Seq<char>) -> Seq<char> {
    if leading_space(s) >= s.len() {
        Seq::empty()
    } else {
        s.subrange(leading_space(s) as int, s.len() - trailing_space(s))
    }
}

proof fn lemma_leading_space(s: Seq<char>, a: int)
    requires
        0 <= a <= s.len(),
        forall|j: int| 0 <= j < a ==> is_white_space(#[trigger] s[j]),
    ensures
        leading_space(s) == a + leading_space(s.skip(a)),
    decreases a,
{
    if a == 0 {
        assert(s.skip(0) =~= s);
    } else {
        let d = s.drop_first();
        assert forall|j: int| 0 <= j < a - 1 implies is_white_space(#[trigger] d[j]) by {
            assert(d[j] == s[j + 1]);
        }
        lemma_leading_space(d, a - 1);
        assert(d.skip(a - 1) =~= s.skip(a));
    }
}

proof fn lemma_trailing_space(s: Seq<char>, b: int)
    requires
        0 <= b <= s.len(),
        forall|j: int| b <= j < s.len() ==> is_white_space(#[trigger] s[j]),
    ensures
        trailing_space(s) == (s.len() - b) + trailing_space(s.take(b)),
    decreases s.len() - b,
{
    if b == s.len() {
        assert(s.take(b) =~= s);
    } else {
        let d = s.drop_last();
        assert forall|j: int| b <= j < d.len() implies is_white_space(#[trigger] d[j]) by {
            assert(d[j] == s[j]);
        }
        lemma_trailing_space(d, b);
        assert(d.take(b) =~= s.take(b));
    }
}

fn white_space(c: char) -> (r: bool)
    ensures
        r == is_white_space(c),
{
    ('\u{9}' <= c && c <= '\u{d}') || c == ' ' || c == '\u{85}' || c == '\u{a0}' || c == '\u{1680}'
        || ('\u{2000}' <= c && c <= '\u{200a}') || c == '\u{2028}' || c == '\u{2029}' || c == '\u{202f}'
        || c == '\u{205f}' || c == '\u{3000}'
}

/// `s` without its leading and trailing Unicode white space, as `str::trim`
/// gives it.
pub fn trim_text(s: &str) -> (r: String)
    ensures
        r@ == trimmed(s@),
{
    let n = s.unicode_len();
    let mut a: usize = 0;
    while a < n && white_space(s.get_char(a))
        invariant
            n == s@.len(),
            a <= n,
            forall|j: int| 0 <= j < a ==> is_white_space(#[trigger] s@[j]),
        decreases n - a,
    {
        a = a + 1;
    }
    let mut b: usize = n;
    while b > a && white_space(s.get_char(b - 1))
        invariant
            n == s@.len(),
            a <= b <= n,
            forall|j: int| b <= j < n ==> is_white_space(#[trigger] s@[j]),
        decreases b,
    {
        b = b - 1;
    }
    proof {
        lemma_leading_space(s@, a as int);
        if a < n {
            assert(!is_white_space(s@.skip(a as int)[0]));
            assert(leading_space(s@) == a);
            assert(b > a);
            lemma_trailing_space(s@, b as int);
            assert(s@.take(b as int).last() == s@[b - 1]);
            assert(trailing_space(s@) == n - b);
        } else {
            assert(s@.skip(a as int).len() == 0);
        }
    }
    let t = s.substring_char(a, b);
    let r = String::from_str(t);
    proof {
        if a >= n {
            assert(r@ =~= Seq::<char>::empty());
        }
    }
    r
}

/// The upper-case mapping of a character, as `char::to_uppercase` yields it
/// (one or more characters, from std's Unicode tables).
pub uninterp spec fn uppercase_of(c: char) -> Seq<char>;

/// Collects `char::to_uppercase(c)` into a string. Beyond naming the result,
/// this states what std's documentation gives for ASCII: `a`..`z` map to
/// `A`..`Z` and other ASCII characters map to themselves. Other characters
/// follow std's Unicode tables, which are not restated here.
#[verifier::external_body]
fn char_to_uppercase(c: char) -> (r: String)
    ensures
        r@ == uppercase_of(c),
        'a' <= c && c <= 'z' ==> r@ == seq![((c as u32) - 32) as char],
        (c as u32) < 128 && !('a' <= c && c <= 'z') ==> r@ == seq![c],
{
    c.to_uppercase().collect::<String>()
}

/// The error text for an unrecognised metric name (`other` already
/// lower-cased).
pub open spec fn unknown_metric_message(other: Seq<char>) -> Seq<char> {
    "Unknown vector metric '"@ + other + "'. Valid values are: cosine, euclidean, dot_product (or dot)."@
}

/// The metric a configuration string names, compared case-insensitively
/// (ASCII): `cosine`, `euclidean`, `dot_product` or its alias `dot`.
pub open spec fn metric_named(lower: Seq<char>) -> Option<DistanceMetric> {
    if lower == "cosine"@ {
        Some(DistanceMetric::Cosine)
    } else if lower == "euclidean"@ {
        Some(DistanceMetric::Euclidean)
    } else if lower == "dot_product"@ || lower == "dot"@ {
        Some(DistanceMetric::DotProduct)
    } else {
        None
    }
}

/// Parse a vector distance metric name from the configuration file.
pub fn parse_metric(s: &str) -> (r: Result<DistanceMetric, String>)
    ensures
        ({
            let lower = s@.map_values(|c: char| ascii_lower(c));
            match metric_named(lower) {
                Some(m) => r == Ok::<DistanceMetric, String>(m),
                None => r matches Err(msg) && msg@ == unknown_metric_message(lower),
            }
        }),
{
    let lower = to_ascii_lowercase(s);
    let cosine = String::from_str("cosine");
    let euclidean = String::from_str("euclidean");
    let dot_product = String::from_str("dot_product");
    let dot = String::from_str("dot");
    if lower == cosine {
        Ok(DistanceMetric::Cosine)
    } else if lower == euclidean {
        Ok(DistanceMetric::Euclidean)
    } else if lower == dot_product || lower == dot {
        Ok(DistanceMetric::DotProduct)
    } else {
        let mut msg = String::from_str("Unknown vector metric '");
        msg.append(lower.as_str());
        msg.append("'. Valid values are: cosine, euclidean, dot_product (or dot).");
        Err(msg)
    }
}

/// Upper-case the first character of `s` (Unicode mapping, possibly several
/// characters) and keep the rest.
pub fn capitalize(s: &str) -> (r: String)
    ensures
        s@.len() == 0 ==> r@ == Seq::<char>::empty(),
        s@.len() > 0 ==> r@ == uppercase_of(s@[0]) + s@.skip(1),
{
    let n = s.unicode_len();
    if n == 0 {
        String::new()
    } else {
        let first = s.get_char(0);
        let mut out = char_to_uppercase(first);
        let rest = s.substring_char(1, n);
        out.append(rest);
        assert(s@.subrange(1, n as int) =~= s@.skip(1));
        out
    }
}

/// `n` spaces.
pub open spec fn spaces(n: nat) -> Seq<char> {
    Seq::new(n, |i: int| ' ')
}

/// `n` dashes.
pub open spec fn dashes(n: nat) -> Seq<char> {
    Seq::new(n, |i: int| '-')
}

/// `s` padded on the right with spaces to `w` characters.
pub open spec fn pad_to(s: Seq<char>, w: nat) -> Seq<char> {
    if s.len() < w {
        s + spaces((w - s.len()) as nat)
    } else {
        s
    }
}

/// The pieces in order with `sep` between each two.
pub open spec fn join(pieces: Seq<Seq<char>>, sep: Seq<char>) -> Seq<char>
    decreases pieces.len(),
{
    if pieces.len() == 0 {
        Seq::empty()
    } else if pieces.len() == 1 {
        pieces[0]
    } else {
        join(pieces.drop_last(), sep) + sep + pieces.last()
    }
}

/// The width of column `i`: the length in UTF-8 bytes of the longest of its
/// header and its cells in `rows`.
pub open spec fn column_width(columns: Seq<Seq<char>>, rows: Seq<Seq<Seq<char>>>, i: int) -> nat
    decreases rows.len(),
{
    if rows.len() == 0 {
        encode_utf8(columns[i]).len()
    } else {
        let w = column_width(columns, rows.drop_last(), i);
        let c = encode_utf8(rows.last()[i]).len();
        if c > w {
            c
        } else {
            w
        }
    }
}

/// The widths of all columns.
pub open spec fn column_widths(columns: Seq<Seq<char>>, rows: Seq<Seq<Seq<char>>>) -> Seq<nat> {
    Seq::new(columns.len(), |i: int| column_width(columns, rows, i))
}

/// A table line: the cells, each padded to its column's width, between
/// bars.
pub open spec fn table_line(cells: Seq<Seq<char>>, widths: Seq<nat>) -> Seq<char> {
    "| "@ + join(Seq::new(cells.len(), |i: int| pad_to(cells[i], widths[i])), " | "@) + " |\n"@
}

/// The rule under the header: dashes the width of each column.
pub open spec fn table_rule(widths: Seq<nat>) -> Seq<char> {
    "|-"@ + join(Seq::new(widths.len(), |i: int| dashes(widths[i])), "-|-"@) + "-|\n"@
}

/// The lines of `rows`, one after another.
pub open spec fn table_body(rows: Seq<Seq<Seq<char>>>, widths: Seq<nat>) -> Seq<char>
    decreases rows.len(),
{
    if rows.len() == 0 {
        Seq::empty()
    } else {
        table_body(rows.drop_last(), widths) + table_line(rows.last(), widths)
    }
}

/// The text table of `rows` under `columns`: `[]` when there are no
/// columns; otherwise the header line, the rule, a line per row, and the
/// row count.
pub open spec fn table_text(columns: Seq<Seq<char>>, rows: Seq<Seq<Seq<char>>>) -> Seq<char> {
    if columns.len() == 0 {
        "[]"@
    } else {
        let widths = column_widths(columns, rows);
        table_line(columns, widths) + table_rule(widths) + table_body(rows, widths) + "("@
            + decimal_digits(rows.len()) + " rows)"@
    }
}

/// The characters of each string.
pub open spec fn texts(v: Seq<String>) -> Seq<Seq<char>> {
    v.map_values(|s: String| s@)
}

/// The characters of each cell of each row.
pub open spec fn row_texts(rows: Seq<Vec<String>>) -> Seq<Seq<Seq<char>>> {
    rows.map_values(|r: Vec<String>| texts(r@))
}

/// Append one line of the table: `cells` padded to `widths`, between bars.
fn push_line(out: &mut String, cells: &Vec<String>, widths: &Vec<usize>)
    requires
        cells@.len() == widths@.len(),
    ensures
        final(out)@ == old(out)@ + table_line(
            texts(cells@),
            widths@.map_values(|w: usize| w as nat),
        ),
{
    let ghost ws = widths@.map_values(|w: usize| w as nat);
    let ghost pieces = Seq::new(cells@.len(), |i: int| pad_to(texts(cells@)[i], ws[i]));
    let ghost base = old(out)@;
    proof {
        reveal_strlit("| ");
        reveal_strlit(" | ");
        reveal_strlit(" |\n");
    }
    out.append("| ");
    let mut i: usize = 0;
    while i < cells.len()
        invariant
            i <= cells@.len(),
            cells@.len() == widths@.len(),
            ws == widths@.map_values(|w: usize| w as nat),
            pieces == Seq::new(cells@.len(), |i: int| pad_to(texts(cells@)[i], ws[i])),
            out@ == base + "| "@ + join(pieces.take(i as int), " | "@),
        decreases cells@.len() - i,
    {
        let ghost before = out@;
        if i > 0 {
            out.append(" | ");
        }
        let cell = cells[i].as_str();
        out.append(cell);
        let n = cell.unicode_len();
        let w = widths[i];
        let ghost filled = out@;
        if n < w {
            let mut k: usize = 0;
            while k < w - n
                invariant
                    n < w,
                    k <= w - n,
                    out@ == filled + spaces(k as nat),
                decreases w - n - k,
            {
                proof {
                    reveal_strlit(" ");
                }
                out.append(" ");
                k = k + 1;
                assert(out@ == filled + spaces(k as nat));
            }
        }
        proof {
            assert(texts(cells@)[i as int] == cells@[i as int]@);
            assert(ws[i as int] == w as nat);
            assert(out@ == before + (if i > 0 { " | "@ } else { Seq::<char>::empty() }) + pieces[i as int]);
            let p2 = pieces.take(i + 1);
            assert(p2.drop_last() == pieces.take(i as int));
            assert(p2.last() == pieces[i as int]);
            if i == 0 {
                assert(join(p2, " | "@) == pieces[0]);
            }
        }
        i = i + 1;
    }
    assert(pieces.take(cells@.len() as int) == pieces);
    out.append(" |\n");
}

/// Append the rule under the header: dashes the width of each column.
fn push_rule(out: &mut String, widths: &Vec<usize>)
    ensures
        final(out)@ == old(out)@ + table_rule(widths@.map_values(|w: usize| w as nat)),
{
    let ghost ws = widths@.map_values(|w: usize| w as nat);
    let ghost pieces = Seq::new(ws.len(), |i: int| dashes(ws[i]));
    let ghost base = old(out)@;
    proof {
        reveal_strlit("|-");
        reveal_strlit("-|-");
        reveal_strlit("-|\n");
    }
    out.append("|-");
    let mut i: usize = 0;
    while i < widths.len()
        invariant
            i <= widths@.len(),
            ws == widths@.map_values(|w: usize| w as nat),
            pieces == Seq::new(ws.len(), |i: int| dashes(ws[i])),
            out@ == base + "|-"@ + join(pieces.take(i as int), "-|-"@),
        decreases widths@.len() - i,
    {
        let ghost before = out@;
        if i > 0 {
            out.append("-|-");
        }
        let ghost mid = out@;
        let w = widths[i];
        let mut k: usize = 0;
        while k < w
            invariant
                k <= w,
                out@ == mid + dashes(k as nat),
            decreases w - k,
        {
            proof {
                reveal_strlit("-");
            }
            out.append("-");
            k = k + 1;
            assert(out@ == mid + dashes(k as nat));
        }
        proof {
            assert(pieces[i as int] == dashes(w as nat));
            let p2 = pieces.take(i + 1);
            assert(p2.drop_last() == pieces.take(i as int));
            assert(p2.last() == pieces[i as int]);
            if i == 0 {
                assert(join(p2, "-|-"@) == pieces[0]);
            }
        }
        i = i + 1;
    }
    assert(pieces.take(widths@.len() as int) == pieces);
    out.append("-|\n");
}

/// Format query results as a text table: `columns` are the column names,
/// in order, and each row of `rows` holds one cell per column. Each column
/// is as wide (in bytes) as its longest name or cell, and each entry is
/// padded with spaces to that many characters; a header line, a rule, a line
/// per row and the row count follow one another. With no columns the table
/// is `[]`.
pub fn format_table(columns: &Vec<String>, rows: &Vec<Vec<String>>) -> (r: String)
    requires
        forall|k: int| 0 <= k < rows@.len() ==> (#[trigger] rows@[k])@.len() == columns@.len(),
    ensures
        r@ == table_text(texts(columns@), row_texts(rows@)),
{
    let ghost cols = texts(columns@);
    let ghost rs = row_texts(rows@);
    if columns.len() == 0 {
        proof {
            reveal_strlit("[]");
        }
        return String::from_str("[]");
    }
    let mut widths: Vec<usize> = Vec::new();
    let mut i: usize = 0;
    while i < columns.len()
        invariant
            i <= columns@.len(),
            cols == texts(columns@),
            rs == row_texts(rows@),
            forall|k: int| 0 <= k < rows@.len() ==> (#[trigger] rows@[k])@.len() == columns@.len(),
            widths@.len() == i,
            forall|c: int| 0 <= c < i ==> #[trigger] widths@[c] as nat == column_width(cols, rs, c),
        decreases columns@.len() - i,
    {
        let mut w = columns[i].as_str().as_bytes().len();
        assert(cols[i as int] == columns@[i as int]@);
        assert(rs.take(0).len() == 0);
        let mut r: usize = 0;
        while r < rows.len()
            invariant
                i < columns@.len(),
                r <= rows@.len(),
                cols == texts(columns@),
                rs == row_texts(rows@),
                forall|k: int| 0 <= k < rows@.len() ==> (#[trigger] rows@[k])@.len() == columns@.len(),
                w as nat == column_width(cols, rs.take(r as int), i as int),
            decreases rows@.len() - r,
        {
            let c = rows[r][i].as_str().as_bytes().len();
            proof {
                assert(rs.take(r + 1).drop_last() == rs.take(r as int));
                assert(rs.take(r + 1).last() == rs[r as int]);
                assert(rs[r as int] == texts(rows@[r as int]@));
                assert(rs[r as int][i as int] == rows@[r as int]@[i as int]@);
            }
            if c > w {
                w = c;
            }
            r = r + 1;
        }
        assert(rs.take(rows@.len() as int) == rs);
        widths.push(w);
        i = i + 1;
    }
    let ghost ws = widths@.map_values(|w: usize| w as nat);
    assert(ws == column_widths(cols, rs));
    let mut out = String::new();
    push_line(&mut out, columns, &widths);
    push_rule(&mut out, &widths);
    let ghost head = out@;
    let mut r: usize = 0;
    while r < rows.len()
        invariant
            r <= rows@.len(),
            cols == texts(columns@),
            rs == row_texts(rows@),
            widths@.len() == columns@.len(),
            ws == widths@.map_values(|w: usize| w as nat),
            forall|k: int| 0 <= k < rows@.len() ==> (#[trigger] rows@[k])@.len() == columns@.len(),
            out@ == head + table_body(rs.take(r as int), ws),
        decreases rows@.len() - r,
    {
        push_line(&mut out, &rows[r], &widths);
        proof {
            assert(rs.take(r + 1).drop_last() == rs.take(r as int));
            assert(rs.take(r + 1).last() == rs[r as int]);
            assert(rs[r as int] == texts(rows@[r as int]@));
        }
        r = r + 1;
    }
    assert(rs.take(rows@.len() as int) == rs);
    proof {
        reveal_strlit("(");
        reveal_strlit(" rows)");
    }
    out.append("(");
    push_decimal(&mut out, rows.len() as u64);
    out.append(" rows)");
    out
}

} // verus!
