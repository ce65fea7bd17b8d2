//! Rows of strings in the three output formats: aligned columns, tab
//! separated, or one JSON object per row keyed by the header names.

use vstd::prelude::*;

use crate::statement::string_views;
use crate::text::{chars_of, push_chars, push_str, string_of, trim_end, trim_end_index};

verus! {

#[derive(Debug, Clone, Copy, PartialEq, Eq, Structural)]
pub enum OutputFormat {
    Table,
    Tsv,
    Json,
}

/// A table of strings.
#[derive(Debug, Clone)]
pub struct Rows {
    pub headers: Vec<String>,
    pub rows: Vec<Vec<String>>,
    /// Columns holding numbers, right-aligned in table output.
    pub numeric: Vec<usize>,
}

/// The rows, each as the views of its cells.
pub open spec fn row_views(rows: Seq<Vec<String>>) -> Seq<Seq<Seq<char>>> {
    rows.map_values(|r: Vec<String>| string_views(r@))
}

/// The widest of column `i`: its header, and the cells of the rows that
/// reach that far.
pub open spec fn column_width(header: Seq<char>, rows: Seq<Seq<Seq<char>>>, i: int) -> nat
    decreases rows.len(),
{
    if rows.len() == 0 {
        header.len()
    } else {
        let w = column_width(header, rows.drop_last(), i);
        if i < rows.last().len() && rows.last()[i].len() > w {
            rows.last()[i].len()
        } else {
            w
        }
    }
}

/// `n` spaces, or `n` of any character.
pub open spec fn repeated(c: char, n: nat) -> Seq<char> {
    Seq::new(n, |k: int| c)
}

/// One cell laid out in its column: numbers pushed right, text left, and
/// the last column left as it is unless it holds numbers.
pub open spec fn laid_out(cell: Seq<char>, width: nat, last: bool, numeric: bool) -> Seq<char> {
    let pad: nat = if width > cell.len() {
        (width - cell.len()) as nat
    } else {
        0
    };
    if last && !numeric {
        cell
    } else if numeric {
        repeated(' ', pad) + cell
    } else {
        cell + repeated(' ', pad)
    }
}

/// The parts joined with two spaces.
pub open spec fn joined_wide(parts: Seq<Seq<char>>) -> Seq<char>
    decreases parts.len(),
{
    if parts.len() == 0 {
        Seq::empty()
    } else if parts.len() == 1 {
        parts[0]
    } else {
        joined_wide(parts.drop_last()) + seq![' ', ' '] + parts.last()
    }
}

/// One line of a table: each column laid out, joined, trailing spaces
/// dropped, and a line feed.
pub open spec fn table_line(widths: Seq<nat>, numeric: Seq<usize>, cells: Seq<Seq<char>>) -> Seq<
    char,
> {
    let parts = Seq::new(
        widths.len(),
        |i: int|
            laid_out(
                if i < cells.len() {
                    cells[i]
                } else {
                    Seq::empty()
                },
                widths[i],
                i == widths.len() - 1,
                numeric.contains(i as usize),
            ),
    );
    trim_end(joined_wide(parts)) + seq!['\n']
}

/// Every line, one after the other.
pub open spec fn concat_lines(widths: Seq<nat>, numeric: Seq<usize>, rows: Seq<Seq<Seq<char>>>) -> Seq<
    char,
>
    decreases rows.len(),
{
    if rows.len() == 0 {
        Seq::empty()
    } else {
        concat_lines(widths, numeric, rows.drop_last()) + table_line(widths, numeric, rows.last())
    }
}

/// The aligned table: the header, a rule of dashes as wide as each
/// column, and the rows.
pub open spec fn table_text(headers: Seq<Seq<char>>, rows: Seq<Seq<Seq<char>>>, numeric: Seq<usize>) -> Seq<
    char,
> {
    let widths = Seq::new(headers.len(), |i: int| column_width(headers[i], rows, i));
    let rule = Seq::new(headers.len(), |i: int| repeated('-', widths[i]));
    table_line(widths, numeric, headers) + table_line(widths, numeric, rule) + concat_lines(
        widths,
        numeric,
        rows,
    )
}

/// The cells joined with tabs.
pub open spec fn tab_joined(parts: Seq<Seq<char>>) -> Seq<char>
    decreases parts.len(),
{
    if parts.len() == 0 {
        Seq::empty()
    } else if parts.len() == 1 {
        parts[0]
    } else {
        tab_joined(parts.drop_last()) + seq!['\t'] + parts.last()
    }
}

pub open spec fn tsv_rows(rows: Seq<Seq<Seq<char>>>) -> Seq<char>
    decreases rows.len(),
{
    if rows.len() == 0 {
        Seq::empty()
    } else {
        tsv_rows(rows.drop_last()) + tab_joined(rows.last()) + seq!['\n']
    }
}

/// Tab-separated: the header line, then a line per row.
pub open spec fn tsv_text(headers: Seq<Seq<char>>, rows: Seq<Seq<Seq<char>>>) -> Seq<char> {
    tab_joined(headers) + seq!['\n'] + tsv_rows(rows)
}

/// How `serde_json` writes an object of strings built from these pairs, in
/// the map it collects them into.
pub uninterp spec fn json_object_of(pairs: Seq<(Seq<char>, Seq<char>)>) -> Seq<char>;

/// `serde_json::Value::Object` of string values, collected from the pairs
/// and written compactly. The map's order and the escaping are serde_json's,
/// named rather than stated.
#[verifier::external_body]
pub(crate) fn json_object(pairs: &Vec<(String, String)>) -> (r: String)
    ensures
        r@ == json_object_of(pairs@.map_values(|p: (String, String)| (p.0@, p.1@))),
{
    let object: serde_json::Map<String, serde_json::Value> = pairs
        .iter()
        .map(|(k, v)| (k.clone(), serde_json::Value::String(v.clone())))
        .collect();
    serde_json::Value::Object(object).to_string()
}

/// The header and cell of each column the row reaches.
pub open spec fn zipped(headers: Seq<Seq<char>>, row: Seq<Seq<char>>) -> Seq<(Seq<char>, Seq<char>)> {
    let n = if headers.len() < row.len() {
        headers.len()
    } else {
        row.len()
    };
    Seq::new(n, |i: int| (headers[i], row[i]))
}

pub open spec fn json_rows(headers: Seq<Seq<char>>, rows: Seq<Seq<Seq<char>>>) -> Seq<char>
    decreases rows.len(),
{
    if rows.len() == 0 {
        Seq::empty()
    } else {
        json_rows(headers, rows.drop_last()) + json_object_of(zipped(headers, rows.last())) + seq![
            '\n',
        ]
    }
}

pub fn spaces(c: char, n: usize) -> (r: Vec<char>)
    ensures
        r@ == repeated(c, n as nat),
{
    let mut out: Vec<char> = Vec::new();
    let mut i: usize = 0;
    while i < n
        invariant
            i <= n,
            out@ == repeated(c, i as nat),
        decreases n - i,
    {
        out.push(c);
        i = i + 1;
        assert(out@ =~= repeated(c, i as nat));
    }
    out
}

fn holds(v: &Vec<usize>, x: usize) -> (r: bool)
    ensures
        r == v@.contains(x),
{
    let mut i: usize = 0;
    while i < v.len()
        invariant
            i <= v@.len(),
            forall|j: int| 0 <= j < i ==> v@[j] != x,
        decreases v.len() - i,
    {
        if v[i] == x {
            return true;
        }
        i = i + 1;
    }
    false
}

impl Rows {
    pub fn new(headers: &[&str]) -> (r: Rows)
        ensures
            string_views(r.headers@) == headers@.map_values(|h: &str| h@),
            r.rows@.len() == 0,
            r.numeric@.len() == 0,
    {
        let mut hs: Vec<String> = Vec::new();
        let mut i: usize = 0;
        while i < headers.len()
            invariant
                i <= headers@.len(),
                string_views(hs@) == headers@.map_values(|h: &str| h@).take(i as int),
            decreases headers.len() - i,
        {
            let h = string_of(&chars_of(headers[i]));
            let ghost before = string_views(hs@);
            hs.push(h);
            assert(string_views(hs@) =~= before.push(h@));
            assert(string_views(hs@) =~= headers@.map_values(|h: &str| h@).take(i + 1));
            i = i + 1;
        }
        assert(headers@.map_values(|h: &str| h@).take(i as int) =~= headers@.map_values(
            |h: &str| h@,
        ));
        Rows { headers: hs, rows: Vec::new(), numeric: Vec::new() }
    }

    /// The same rows with these columns right-aligned.
    pub fn right_align(self, columns: &[usize]) -> (r: Rows)
        ensures
            r.headers == self.headers,
            r.rows == self.rows,
            r.numeric@ == columns@,
    {
        let mut numeric: Vec<usize> = Vec::new();
        let mut i: usize = 0;
        while i < columns.len()
            invariant
                i <= columns@.len(),
                numeric@ == columns@.take(i as int),
            decreases columns.len() - i,
        {
            numeric.push(columns[i]);
            i = i + 1;
            assert(numeric@ =~= columns@.take(i as int));
        }
        assert(columns@.take(i as int) =~= columns@);
        let Rows { headers, rows, numeric: _ } = self;
        Rows { headers, rows, numeric }
    }

    pub fn push(&mut self, row: Vec<String>)
        ensures
            final(self).headers == old(self).headers,
            final(self).numeric == old(self).numeric,
            final(self).rows@ == old(self).rows@.push(row),
    {
        self.rows.push(row);
    }

    pub fn is_empty(&self) -> (r: bool)
        ensures
            r == (self.rows@.len() == 0),
    {
        self.rows.len() == 0
    }

    fn widths(&self) -> (w: Vec<usize>)
        ensures
            w@.len() == self.headers@.len(),
            forall|i: int|
                0 <= i < w@.len() ==> #[trigger] w@[i] as nat == column_width(
                    self.headers@[i]@,
                    row_views(self.rows@),
                    i,
                ),
    {
        let ghost rs = row_views(self.rows@);
        let mut w: Vec<usize> = Vec::new();
        let mut i: usize = 0;
        while i < self.headers.len()
            invariant
                i <= self.headers@.len(),
                rs == row_views(self.rows@),
                w@.len() == i,
                forall|j: int|
                    0 <= j < i ==> #[trigger] w@[j] as nat == column_width(
                        self.headers@[j]@,
                        rs,
                        j,
                    ),
            decreases self.headers.len() - i,
        {
            let mut best = chars_of(self.headers[i].as_str()).len();
            let mut k: usize = 0;
            assert(rs.take(0) =~= Seq::<Seq<Seq<char>>>::empty());
            while k < self.rows.len()
                invariant
                    k <= self.rows@.len(),
                    i < self.headers@.len(),
                    rs == row_views(self.rows@),
                    best as nat == column_width(self.headers@[i as int]@, rs.take(k as int), i as int),
                decreases self.rows.len() - k,
            {
                assert(rs.take(k + 1).drop_last() =~= rs.take(k as int));
                assert(rs.take(k + 1).last() == string_views(self.rows@[k as int]@));
                let row = &self.rows[k];
                if i < row.len() {
                    let n = chars_of(row[i].as_str()).len();
                    if n > best {
                        best = n;
                    }
                }
                k = k + 1;
            }
            assert(rs.take(k as int) =~= rs);
            w.push(best);
            i = i + 1;
        }
        w
    }

    fn line(widths: &Vec<usize>, numeric: &Vec<usize>, cells: &Vec<String>, out: &mut Vec<char>)
        requires
            widths@.len() > 0,
        ensures
            final(out)@ == old(out)@ + table_line(
                widths@.map_values(|w: usize| w as nat),
                numeric@,
                string_views(cells@),
            ),
    {
        let ghost ws = widths@.map_values(|w: usize| w as nat);
        let ghost cs = string_views(cells@);
        let ghost parts = Seq::new(
            ws.len(),
            |i: int|
                laid_out(
                    if i < cs.len() {
                        cs[i]
                    } else {
                        Seq::empty()
                    },
                    ws[i],
                    i == ws.len() - 1,
                    numeric@.contains(i as usize),
                ),
        );
        let mut text: Vec<char> = Vec::new();
        let n = widths.len();
        let mut i: usize = 0;
        while i < n
            invariant
                i <= n,
                n == widths@.len(),
                n > 0,
                ws == widths@.map_values(|w: usize| w as nat),
                cs == string_views(cells@),
                parts.len() == n,
                forall|j: int|
                    0 <= j < n ==> #[trigger] parts[j] == laid_out(
                        if j < cs.len() {
                            cs[j]
                        } else {
                            Seq::empty()
                        },
                        ws[j],
                        j == ws.len() - 1,
                        numeric@.contains(j as usize),
                    ),
                text@ == joined_wide(parts.take(i as int)),
            decreases n - i,
        {
            assert(parts.take(i + 1).drop_last() =~= parts.take(i as int));
            let cell: Vec<char> = if i < cells.len() {
                chars_of(cells[i].as_str())
            } else {
                Vec::new()
            };
            assert(cell@ == if (i as int) < cs.len() {
                cs[i as int]
            } else {
                Seq::<char>::empty()
            });
            let width = widths[i];
            let pad = if width > cell.len() {
                width - cell.len()
            } else {
                0
            };
            let last = i == n - 1;
            let num = holds(numeric, i);
            if i > 0 {
                text.push(' ');
                text.push(' ');
            }
            if last && !num {
                push_chars(&mut text, &cell);
            } else if num {
                let sp = spaces(' ', pad);
                push_chars(&mut text, &sp);
                push_chars(&mut text, &cell);
            } else {
                push_chars(&mut text, &cell);
                let sp = spaces(' ', pad);
                push_chars(&mut text, &sp);
            }
            proof {
                let p = parts[i as int];
                if i == 0 {
                    assert(parts.take(1) =~= seq![p]);
                }
                assert(parts.take(i + 1).last() == p);
            }
            i = i + 1;
        }
        assert(parts.take(n as int) =~= parts);
        let end = trim_end_index(&text, 0);
        assert(text@.subrange(0, text@.len() as int) =~= text@);
        let mut k: usize = 0;
        let ghost start = out@;
        while k < end
            invariant
                k <= end <= text@.len(),
                out@ == start + text@.subrange(0, k as int),
            decreases end - k,
        {
            out.push(text[k]);
            k = k + 1;
            assert(out@ =~= start + text@.subrange(0, k as int));
        }
        out.push('\n');
        assert(out@ =~= start + table_line(ws, numeric@, cs));
    }

    /// The rows aligned in columns under their headers.
    pub fn write_table(&self) -> (r: String)
        ensures
            self.headers@.len() > 0 ==> r@ == table_text(
                string_views(self.headers@),
                row_views(self.rows@),
                self.numeric@,
            ),
    {
        if self.headers.len() == 0 {
            return string_of(&Vec::new());
        }
        let widths = self.widths();
        let ghost hs = string_views(self.headers@);
        let ghost rs = row_views(self.rows@);
        let ghost ws = Seq::new(hs.len(), |i: int| column_width(hs[i], rs, i));
        assert(widths@.map_values(|w: usize| w as nat) =~= ws);
        let mut out: Vec<char> = Vec::new();
        Self::line(&widths, &self.numeric, &self.headers, &mut out);
        let mut rule: Vec<String> = Vec::new();
        let mut i: usize = 0;
        while i < widths.len()
            invariant
                i <= widths@.len(),
                rule@.len() == i,
                forall|j: int|
                    0 <= j < i ==> (#[trigger] rule@[j])@ == repeated('-', widths@[j] as nat),
            decreases widths.len() - i,
        {
            rule.push(string_of(&spaces('-', widths[i])));
            i = i + 1;
        }
        assert(string_views(rule@) =~= Seq::new(hs.len(), |i: int| repeated('-', ws[i])));
        Self::line(&widths, &self.numeric, &rule, &mut out);
        let mut k: usize = 0;
        let ghost head = out@;
        assert(rs.take(0) =~= Seq::<Seq<Seq<char>>>::empty());
        while k < self.rows.len()
            invariant
                k <= self.rows@.len(),
                widths@.len() > 0,
                rs == row_views(self.rows@),
                widths@.map_values(|w: usize| w as nat) == ws,
                out@ == head + concat_lines(ws, self.numeric@, rs.take(k as int)),
            decreases self.rows.len() - k,
        {
            assert(rs.take(k + 1).drop_last() =~= rs.take(k as int));
            assert(rs.take(k + 1).last() == string_views(self.rows@[k as int]@));
            Self::line(&widths, &self.numeric, &self.rows[k], &mut out);
            k = k + 1;
        }
        assert(rs.take(k as int) =~= rs);
        string_of(&out)
    }

    /// The header line and the rows, cells separated by tabs.
    pub fn write_tsv(&self) -> (r: String)
        ensures
            r@ == tsv_text(string_views(self.headers@), row_views(self.rows@)),
    {
        let mut out: Vec<char> = Vec::new();
        join_tabs(&self.headers, &mut out);
        out.push('\n');
        let ghost rs = row_views(self.rows@);
        let ghost head = out@;
        let mut k: usize = 0;
        assert(rs.take(0) =~= Seq::<Seq<Seq<char>>>::empty());
        while k < self.rows.len()
            invariant
                k <= self.rows@.len(),
                rs == row_views(self.rows@),
                out@ == head + tsv_rows(rs.take(k as int)),
            decreases self.rows.len() - k,
        {
            assert(rs.take(k + 1).drop_last() =~= rs.take(k as int));
            assert(rs.take(k + 1).last() == string_views(self.rows@[k as int]@));
            join_tabs(&self.rows[k], &mut out);
            out.push('\n');
            k = k + 1;
        }
        assert(rs.take(k as int) =~= rs);
        string_of(&out)
    }

    /// One JSON object per row, keyed by the header names.
    pub fn write_json(&self) -> (r: String)
        ensures
            r@ == json_rows(string_views(self.headers@), row_views(self.rows@)),
    {
        let ghost hs = string_views(self.headers@);
        let ghost rs = row_views(self.rows@);
        let mut out: Vec<char> = Vec::new();
        let mut k: usize = 0;
        assert(rs.take(0) =~= Seq::<Seq<Seq<char>>>::empty());
        while k < self.rows.len()
            invariant
                k <= self.rows@.len(),
                rs == row_views(self.rows@),
                hs == string_views(self.headers@),
                out@ == json_rows(hs, rs.take(k as int)),
            decreases self.rows.len() - k,
        {
            assert(rs.take(k + 1).drop_last() =~= rs.take(k as int));
            assert(rs.take(k + 1).last() == string_views(self.rows@[k as int]@));
            let row = &self.rows[k];
            let n = if self.headers.len() < row.len() {
                self.headers.len()
            } else {
                row.len()
            };
            let mut pairs: Vec<(String, String)> = Vec::new();
            let mut i: usize = 0;
            while i < n
                invariant
                    i <= n,
                    n <= self.headers@.len(),
                    n <= row@.len(),
                    pairs@.len() == i,
                    forall|j: int|
                        0 <= j < i ==> (#[trigger] pairs@[j]).0@ == self.headers@[j]@ && pairs@[j].1@
                            == row@[j]@,
                decreases n - i,
            {
                pairs.push((self.headers[i].clone(), row[i].clone()));
                i = i + 1;
            }
            assert(pairs@.map_values(|p: (String, String)| (p.0@, p.1@)) =~= zipped(
                hs,
                string_views(row@),
            ));
            let obj = json_object(&pairs);
            push_str(&mut out, obj.as_str());
            out.push('\n');
            k = k + 1;
        }
        assert(rs.take(k as int) =~= rs);
        string_of(&out)
    }

    /// The rows as text in the format asked for.
    pub fn write(&self, format: OutputFormat) -> (r: String)
        ensures
            format == OutputFormat::Table && self.headers@.len() > 0 ==> r@ == table_text(
                string_views(self.headers@),
                row_views(self.rows@),
                self.numeric@,
            ),
            format == OutputFormat::Tsv ==> r@ == tsv_text(
                string_views(self.headers@),
                row_views(self.rows@),
            ),
            format == OutputFormat::Json ==> r@ == json_rows(
                string_views(self.headers@),
                row_views(self.rows@),
            ),
    {
        match format {
            OutputFormat::Table => self.write_table(),
            OutputFormat::Tsv => self.write_tsv(),
            OutputFormat::Json => self.write_json(),
        }
    }
}

fn join_tabs(cells: &Vec<String>, out: &mut Vec<char>)
    ensures
        final(out)@ == old(out)@ + tab_joined(string_views(cells@)),
{
    let ghost cs = string_views(cells@);
    let ghost start = out@;
    let mut i: usize = 0;
    assert(cs.take(0) =~= Seq::<Seq<char>>::empty());
    assert(start + tab_joined(cs.take(0)) =~= start);
    while i < cells.len()
        invariant
            i <= cells@.len(),
            cs == string_views(cells@),
            out@ == start + tab_joined(cs.take(i as int)),
        decreases cells.len() - i,
    {
        assert(cs.take(i + 1).drop_last() =~= cs.take(i as int));
        assert(cs.take(i + 1).last() == cells@[i as int]@);
        if i > 0 {
            out.push('\t');
        }
        push_str(out, cells[i].as_str());
        proof {
            if i == 0 {
                assert(cs.take(1) =~= seq![cells@[0]@]);
            }
        }
        i = i + 1;
    }
    assert(cs.take(i as int) =~= cs);
}

} // verus!
